//! A static registry of analyzer and report-formatter plugins, populated by
//! the embedding program at start-up.

use vstd::prelude::*;
use crate::analysis::AnalyzeResponse;
use crate::errors::CoreError;
use crate::graph::dominator::DominatorTree;
use crate::hprof::object_graph::ObjectGraph;
use crate::text::str_eq;

verus! {

/// One finding of an analyzer plugin.
#[derive(Debug, Clone, PartialEq, Eq)]
pub struct AnalyzerFinding {
    /// A one-line summary.
    pub summary: String,
    /// A free-form severity label.
    pub severity: String,
    /// Optional longer explanation.
    pub detail: Option<String>,
}

impl AnalyzerFinding {
    /// A finding without detail.
    pub fn new(summary: &str, severity: &str) -> (f: Self)
        ensures
            f.summary@ == summary@,
            f.severity@ == severity@,
            f.detail is None,
    {
        AnalyzerFinding { summary: summary.to_owned(), severity: severity.to_owned(), detail: None }
    }

    /// A finding with detail.
    pub fn with_detail(summary: &str, severity: &str, detail: &str) -> (f: Self)
        ensures
            f.summary@ == summary@,
            f.severity@ == severity@,
            f.detail matches Some(d) && d@ == detail@,
    {
        AnalyzerFinding {
            summary: summary.to_owned(),
            severity: severity.to_owned(),
            detail: Some(detail.to_owned()),
        }
    }
}

/// What one analyzer plugin reported.
#[derive(Debug, Clone, PartialEq, Eq)]
pub struct AnalyzerResult {
    /// The plugin's name.
    pub name: String,
    pub findings: Vec<AnalyzerFinding>,
}

/// An analysis pass over a parsed heap, supplied by the embedding program.
pub trait AnalyzerPlugin {
    /// Whether `outcome` is something the pass may report for this graph
    /// and tree; unless a plugin says more, anything.
    closed spec fn reports(&self, graph: ObjectGraph, dominator: Option<&DominatorTree>, outcome: Result<AnalyzerResult, CoreError>) -> bool {
        true
    }

    /// The plugin's name.
    fn name(&self) -> &str;

    /// Runs the pass; `dominator` is absent when no dominator tree could be
    /// built.
    fn analyze(&self, graph: &ObjectGraph, dominator: Option<&DominatorTree>) -> (outcome: Result<AnalyzerResult, CoreError>)
        ensures
            self.reports(*graph, dominator, outcome),
    ;
}

/// A custom report format, supplied by the embedding program.
pub trait ReportFormatterPlugin {
    /// Whether `name` is a name the plugin may report for its format;
    /// unless a plugin says more, any.
    closed spec fn may_report(&self, name: Seq<char>) -> bool {
        true
    }

    /// The name the format is selected by.
    fn format_name(&self) -> (name: &str)
        ensures
            self.may_report(name@),
    ;

    /// The MIME type of what `render` produces.
    fn mime_type(&self) -> &str;

    /// Renders an analysis.
    fn render(&self, response: &AnalyzeResponse) -> Result<String, CoreError>;
}

/// The successful results among plugin outcomes, in order.
pub open spec fn successes(outcomes: Seq<Result<AnalyzerResult, CoreError>>) -> Seq<AnalyzerResult>
    decreases outcomes.len(),
{
    if outcomes.len() == 0 {
        Seq::empty()
    } else {
        let prev = successes(outcomes.drop_last());
        match outcomes.last() {
            Ok(r) => prev.push(r),
            Err(_) => prev,
        }
    }
}

/// Keeps the successful outcomes of plugin runs, in order, and drops the
/// failures.
pub fn keep_successes(outcomes: Vec<Result<AnalyzerResult, CoreError>>) -> (kept: Vec<AnalyzerResult>)
    ensures
        kept@ == successes(outcomes@),
{
    let ghost all = outcomes@;
    let _total = outcomes.len();
    let mut kept: Vec<AnalyzerResult> = Vec::new();
    let mut rest = outcomes;
    let mut i: usize = 0;
    while rest.len() > 0
        invariant
            all.len() == i + rest@.len(),
            all.len() <= usize::MAX,
            forall|j: int| 0 <= j < rest@.len() ==> rest@[j] == all[i + j],
            kept@ == successes(all.take(i as int)),
        decreases rest.len(),
    {
        let next = rest.remove(0);
        proof {
            assert(next == all[i as int]);
            assert(all.take(i + 1).drop_last() =~= all.take(i as int));
        }
        match next {
            Ok(r) => kept.push(r),
            Err(_) => {},
        }
        i = i + 1;
    }
    proof {
        assert(all.take(i as int) =~= all);
    }
    kept
}

/// Registered analyzers, the most recently registered first.
struct AnalyzerNode {
    plugin: Box<dyn AnalyzerPlugin>,
    next: Option<Box<AnalyzerNode>>,
}

/// Registered formatters, the most recently registered first.
struct FormatterNode {
    plugin: Box<dyn ReportFormatterPlugin>,
    next: Option<Box<FormatterNode>>,
}

/// How many analyzers a list holds.
closed spec fn analyzer_list_len(o: Option<Box<AnalyzerNode>>) -> nat
    decreases o,
{
    match o {
        Some(n) => analyzer_list_len(n.next) + 1,
        None => 0,
    }
}

/// Whether the analyzer registered `i`-th (counting from 0) in a list may
/// report `outcome`.
closed spec fn analyzer_reports_at(
    o: Option<Box<AnalyzerNode>>,
    i: int,
    graph: ObjectGraph,
    dominator: Option<&DominatorTree>,
    outcome: Result<AnalyzerResult, CoreError>,
) -> bool
    decreases o,
{
    match o {
        Some(n) => if i == analyzer_list_len(n.next) {
            n.plugin.reports(graph, dominator, outcome)
        } else {
            analyzer_reports_at(n.next, i, graph, dominator, outcome)
        },
        None => false,
    }
}

/// How many formatters a list holds.
closed spec fn formatter_list_len(o: Option<Box<FormatterNode>>) -> nat
    decreases o,
{
    match o {
        Some(n) => formatter_list_len(n.next) + 1,
        None => 0,
    }
}

/// Whether the formatter registered `i`-th in a list may report `name`.
closed spec fn formatter_reports_at(o: Option<Box<FormatterNode>>, i: int, name: Seq<char>) -> bool
    decreases o,
{
    match o {
        Some(n) => if i == formatter_list_len(n.next) {
            n.plugin.may_report(name)
        } else {
            formatter_reports_at(n.next, i, name)
        },
        None => false,
    }
}

/// Whether the formatter registered `i`-th in a list may report a name
/// other than `name`.
closed spec fn formatter_reports_other_at(o: Option<Box<FormatterNode>>, i: int, name: Seq<char>) -> bool {
    exists|other: Seq<char>| #[trigger] formatter_reports_at(o, i, other) && other != name
}

/// Runs the analyzers of a list, the earliest registered first.
fn run_list(
    o: &Option<Box<AnalyzerNode>>,
    graph: &ObjectGraph,
    dominator: Option<&DominatorTree>,
) -> (outcomes: Vec<Result<AnalyzerResult, CoreError>>)
    ensures
        outcomes@.len() == analyzer_list_len(*o),
        forall|i: int| 0 <= i < outcomes@.len() ==> #[trigger] analyzer_reports_at(*o, i, *graph, dominator, outcomes@[i]),
    decreases *o,
{
    match o {
        None => Vec::new(),
        Some(n) => {
            let mut outcomes = run_list(&n.next, graph, dominator);
            let ghost before = outcomes@;
            let outcome = n.plugin.analyze(graph, dominator);
            outcomes.push(outcome);
            proof {
                assert forall|i: int| 0 <= i < outcomes@.len() implies #[trigger] analyzer_reports_at(
                    *o,
                    i,
                    *graph,
                    dominator,
                    outcomes@[i],
                ) by {
                    if i < before.len() {
                        assert(outcomes@[i] == before[i]);
                        assert(analyzer_reports_at(n.next, i, *graph, dominator, before[i]));
                    }
                }
            }
            outcomes
        },
    }
}

/// The first formatter of a list, in registration order, that reports
/// `name`; formatters are asked from the earliest registered on.
fn find_in_list<'a>(o: &'a Option<Box<FormatterNode>>, name: &str) -> (f: Option<&'a dyn ReportFormatterPlugin>)
    ensures
        formatter_list_len(*o) == 0 ==> f is None,
        f is None ==> forall|i: int| 0 <= i < formatter_list_len(*o) ==> #[trigger] formatter_reports_other_at(*o, i, name@),
        f is Some ==> exists|i: int| {
            &&& 0 <= i < formatter_list_len(*o)
            &&& formatter_reports_at(*o, i, name@)
            &&& forall|j: int| 0 <= j < i ==> #[trigger] formatter_reports_other_at(*o, j, name@)
        },
    decreases *o,
{
    match o {
        None => None,
        Some(n) => {
            let earlier = find_in_list(&n.next, name);
            proof {
                assert forall|i: int, m: Seq<char>| 0 <= i < formatter_list_len(n.next) implies
                    #[trigger] formatter_reports_at(*o, i, m) == formatter_reports_at(n.next, i, m) by {}
                assert forall|i: int| 0 <= i < formatter_list_len(n.next) implies
                    #[trigger] formatter_reports_other_at(*o, i, name@) == formatter_reports_other_at(n.next, i, name@) by {
                    if formatter_reports_other_at(n.next, i, name@) {
                        let m = choose|m: Seq<char>| #[trigger] formatter_reports_at(n.next, i, m) && m != name@;
                        assert(formatter_reports_at(*o, i, m));
                    }
                    if formatter_reports_other_at(*o, i, name@) {
                        let m = choose|m: Seq<char>| #[trigger] formatter_reports_at(*o, i, m) && m != name@;
                        assert(formatter_reports_at(n.next, i, m));
                    }
                }
            }
            match earlier {
                Some(f) => {
                    proof {
                        let i = choose|i: int| {
                            &&& 0 <= i < formatter_list_len(n.next)
                            &&& formatter_reports_at(n.next, i, name@)
                            &&& forall|j: int| 0 <= j < i ==> #[trigger] formatter_reports_other_at(n.next, j, name@)
                        };
                        assert(formatter_reports_at(*o, i, name@));
                    }
                    Some(f)
                },
                None => {
                    let reported = n.plugin.format_name();
                    let ghost k = formatter_list_len(n.next) as int;
                    proof {
                        assert(formatter_reports_at(*o, k, reported@));
                    }
                    if str_eq(reported, name) {
                        Some(&*n.plugin)
                    } else {
                        proof {
                            assert(formatter_reports_other_at(*o, k, name@));
                        }
                        None
                    }
                },
            }
        },
    }
}

/// Analyzer and formatter plugins, in registration order, with their
/// counts.
pub struct PluginRegistry {
    analyzers: Option<Box<AnalyzerNode>>,
    formatters: Option<Box<FormatterNode>>,
    analyzer_count: usize,
    formatter_count: usize,
}

impl PluginRegistry {
    /// The counts are those of the stored lists.
    pub closed spec fn wf(&self) -> bool {
        &&& self.analyzer_count == analyzer_list_len(self.analyzers)
        &&& self.formatter_count == formatter_list_len(self.formatters)
    }

    /// Number of registered analyzers.
    pub closed spec fn analyzer_total(&self) -> nat {
        analyzer_list_len(self.analyzers)
    }

    /// Number of registered formatters.
    pub closed spec fn formatter_total(&self) -> nat {
        formatter_list_len(self.formatters)
    }

    /// Whether the analyzer registered `i`-th (from 0) may report `outcome`
    /// for this graph and tree.
    pub closed spec fn analyzer_reports(
        &self,
        i: int,
        graph: ObjectGraph,
        dominator: Option<&DominatorTree>,
        outcome: Result<AnalyzerResult, CoreError>,
    ) -> bool {
        analyzer_reports_at(self.analyzers, i, graph, dominator, outcome)
    }

    /// Whether the formatter registered `i`-th (from 0) may report `name`.
    pub closed spec fn formatter_may_report(&self, i: int, name: Seq<char>) -> bool {
        formatter_reports_at(self.formatters, i, name)
    }

    /// Whether the formatter registered `i`-th may report a name other than
    /// `name`.
    pub closed spec fn formatter_may_report_other(&self, i: int, name: Seq<char>) -> bool {
        formatter_reports_other_at(self.formatters, i, name)
    }

    /// An empty registry.
    pub fn new() -> (r: Self)
        ensures
            r.wf(),
            r.analyzer_total() == 0,
            r.formatter_total() == 0,
    {
        PluginRegistry { analyzers: None, formatters: None, analyzer_count: 0, formatter_count: 0 }
    }

    /// Adds an analyzer after those already registered; they keep their
    /// places and the formatters are untouched.
    pub fn register_analyzer(&mut self, plugin: Box<dyn AnalyzerPlugin>) -> (r: &mut Self)
        requires
            old(self).wf(),
            old(self).analyzer_total() < usize::MAX,
        ensures
            r.wf(),
            r.analyzer_total() == old(self).analyzer_total() + 1,
            forall|i: int, g: ObjectGraph, d: Option<&DominatorTree>, o: Result<AnalyzerResult, CoreError>|
                0 <= i < old(self).analyzer_total() ==> #[trigger] r.analyzer_reports(i, g, d, o)
                    == old(self).analyzer_reports(i, g, d, o),
            r.formatter_total() == old(self).formatter_total(),
            forall|i: int, m: Seq<char>| #[trigger] r.formatter_may_report(i, m) == old(self).formatter_may_report(i, m),
            *final(self) == *final(r),
    {
        let earlier = self.analyzers.take();
        assert(analyzer_list_len(earlier) == analyzer_list_len(old(self).analyzers));
        self.analyzers = Some(Box::new(AnalyzerNode { plugin, next: earlier }));
        proof {
            let n = self.analyzers->0;
            assert(n.next == earlier);
            assert(analyzer_list_len(self.analyzers) == analyzer_list_len(earlier) + 1);
        }
        self.analyzer_count = self.analyzer_count + 1;
        self
    }

    /// Adds a formatter after those already registered; they keep their
    /// places and the analyzers are untouched.
    pub fn register_formatter(&mut self, plugin: Box<dyn ReportFormatterPlugin>) -> (r: &mut Self)
        requires
            old(self).wf(),
            old(self).formatter_total() < usize::MAX,
        ensures
            r.wf(),
            r.formatter_total() == old(self).formatter_total() + 1,
            forall|i: int, m: Seq<char>| 0 <= i < old(self).formatter_total() ==> #[trigger] r.formatter_may_report(i, m)
                == old(self).formatter_may_report(i, m),
            r.analyzer_total() == old(self).analyzer_total(),
            forall|i: int, g: ObjectGraph, d: Option<&DominatorTree>, o: Result<AnalyzerResult, CoreError>|
                #[trigger] r.analyzer_reports(i, g, d, o) == old(self).analyzer_reports(i, g, d, o),
            *final(self) == *final(r),
    {
        let earlier = self.formatters.take();
        assert(formatter_list_len(earlier) == formatter_list_len(old(self).formatters));
        self.formatters = Some(Box::new(FormatterNode { plugin, next: earlier }));
        proof {
            let n = self.formatters->0;
            assert(n.next == earlier);
            assert(formatter_list_len(self.formatters) == formatter_list_len(earlier) + 1);
        }
        self.formatter_count = self.formatter_count + 1;
        self
    }

    /// Whether no plugin is registered.
    pub fn is_empty(&self) -> (b: bool)
        requires
            self.wf(),
        ensures
            b == (self.analyzer_total() == 0 && self.formatter_total() == 0),
    {
        self.analyzer_count == 0 && self.formatter_count == 0
    }

    /// Number of registered analyzers.
    pub fn analyzer_count(&self) -> (n: usize)
        requires
            self.wf(),
        ensures
            n == self.analyzer_total(),
    {
        self.analyzer_count
    }

    /// Number of registered formatters.
    pub fn formatter_count(&self) -> (n: usize)
        requires
            self.wf(),
        ensures
            n == self.formatter_total(),
    {
        self.formatter_count
    }

    /// Runs every analyzer in registration order and keeps the results of
    /// those that succeed; a failing plugin is left out and the others still
    /// report. There is one outcome per analyzer, each what that analyzer
    /// reported, and the results are `successes` of them.
    pub fn run_analyzers(&self, graph: &ObjectGraph, dominator: Option<&DominatorTree>) -> (results: Vec<AnalyzerResult>)
        ensures
            exists|outcomes: Seq<Result<AnalyzerResult, CoreError>>| {
                &&& outcomes.len() == self.analyzer_total()
                &&& forall|i: int| 0 <= i < outcomes.len() ==> #[trigger] self.analyzer_reports(i, *graph, dominator, outcomes[i])
                &&& results@ == successes(outcomes)
            },
    {
        let outcomes = run_list(&self.analyzers, graph, dominator);
        let ghost all = outcomes@;
        let kept = keep_successes(outcomes);
        proof {
            assert(forall|j: int| 0 <= j < all.len() ==> #[trigger] self.analyzer_reports(j, *graph, dominator, all[j]));
        }
        kept
    }

    /// The first formatter, in registration order, whose reported
    /// `format_name` is `name`. The formatters are asked in order and the
    /// search stops at the first match: with no formatters there is none;
    /// when there is none, each formatter reported another name; when there
    /// is one, some formatter reported `name` after all before it reported
    /// another.
    pub fn find_formatter(&self, name: &str) -> (f: Option<&dyn ReportFormatterPlugin>)
        ensures
            self.formatter_total() == 0 ==> f is None,
            f is None ==> forall|i: int| 0 <= i < self.formatter_total() ==> #[trigger] self.formatter_may_report_other(i, name@),
            f is Some ==> exists|i: int| {
                &&& 0 <= i < self.formatter_total()
                &&& self.formatter_may_report(i, name@)
                &&& forall|j: int| 0 <= j < i ==> #[trigger] self.formatter_may_report_other(j, name@)
            },
    {
        let f = find_in_list(&self.formatters, name);
        proof {
            if f is Some {
                let i = choose|i: int| {
                    &&& 0 <= i < formatter_list_len(self.formatters)
                    &&& formatter_reports_at(self.formatters, i, name@)
                    &&& forall|j: int| 0 <= j < i ==> #[trigger] formatter_reports_other_at(self.formatters, j, name@)
                };
                assert(self.formatter_may_report(i, name@));
                assert forall|j: int| 0 <= j < i implies #[trigger] self.formatter_may_report_other(j, name@) by {
                    assert(formatter_reports_other_at(self.formatters, j, name@));
                }
            }
        }
        f
    }
}

} // verus!
