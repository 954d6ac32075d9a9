//! Evaluation of a policy against a deep analysis or an overview.

use vstd::prelude::*;
use crate::analysis::{AnalysisMode, AnalyzeResponse, ProvenanceKind, ProvenanceMarker};
use crate::heap::ClassStat;
use crate::hprof::overview::{GcRootKind, OverviewClassStat, OverviewSummary};
use crate::pattern::{regex_check, regex_compile_error, regex_is_match, regex_match};
use crate::policy::{
    Comparison, Evaluation, ModeRequirement, Policy, PolicyInput, PolicyResult, PolicyRule,
    PolicyValue, Predicate, Severity, SkipReason, SkippedRule, Violation,
};
use crate::query::parser::{after_ws, is_whitespace_char};
use crate::text::{chars_of, dec_chars, push_decimal, push_str, str_eq, string_from_chars};

verus! {

// ---------------------------------------------------------------------------
// Names
// ---------------------------------------------------------------------------

/// The name of a predicate as policies write it.
pub open spec fn predicate_label(p: Predicate) -> Seq<char> {
    match p {
        Predicate::TotalBytes => "total_bytes"@,
        Predicate::TotalInstances => "total_instances"@,
        Predicate::ClassInstances => "class_instances"@,
        Predicate::ClassBytes => "class_bytes"@,
        Predicate::LoadedClassCount => "loaded_class_count"@,
        Predicate::GcRootCount => "gc_root_count"@,
        Predicate::ProvenanceMustNotContain => "provenance_must_not_contain"@,
        Predicate::LeakCount => "leak_count"@,
        Predicate::RetainedSize => "retained_size"@,
        Predicate::DominatorRootCount => "dominator_root_count"@,
    }
}

/// The name of a predicate as policies write it.
pub fn predicate_name(p: Predicate) -> (s: &'static str)
    ensures
        s@ == predicate_label(p),
{
    match p {
        Predicate::TotalBytes => "total_bytes",
        Predicate::TotalInstances => "total_instances",
        Predicate::ClassInstances => "class_instances",
        Predicate::ClassBytes => "class_bytes",
        Predicate::LoadedClassCount => "loaded_class_count",
        Predicate::GcRootCount => "gc_root_count",
        Predicate::ProvenanceMustNotContain => "provenance_must_not_contain",
        Predicate::LeakCount => "leak_count",
        Predicate::RetainedSize => "retained_size",
        Predicate::DominatorRootCount => "dominator_root_count",
    }
}

/// The symbol of a comparison.
pub open spec fn comparison_label(c: Comparison) -> Seq<char> {
    match c {
        Comparison::Lt => "<"@,
        Comparison::Lte => "<="@,
        Comparison::Gt => ">"@,
        Comparison::Gte => ">="@,
        Comparison::Eq => "=="@,
        Comparison::Ne => "!="@,
    }
}

/// The symbol of a comparison.
pub fn comparison_symbol(c: Comparison) -> (s: &'static str)
    ensures
        s@ == comparison_label(c),
{
    match c {
        Comparison::Lt => "<",
        Comparison::Lte => "<=",
        Comparison::Gt => ">",
        Comparison::Gte => ">=",
        Comparison::Eq => "==",
        Comparison::Ne => "!=",
    }
}

/// Whether `actual` stands in relation `c` to `expected`.
pub open spec fn compares(actual: u64, c: Comparison, expected: u64) -> bool {
    match c {
        Comparison::Lt => actual < expected,
        Comparison::Lte => actual <= expected,
        Comparison::Gt => actual > expected,
        Comparison::Gte => actual >= expected,
        Comparison::Eq => actual == expected,
        Comparison::Ne => actual != expected,
    }
}

/// A numeric rule passes exactly when the measured figure stands in the
/// rule's relation to its threshold: below it for `<`, at most it for `<=`,
/// above it for `>`, at least it for `>=`, equal for `==`, different for
/// `!=`. Each relation is the negation of its opposite, and `>=` holds
/// exactly when `>` or `==` does.
pub proof fn lemma_numeric_rule_passes(rule: PolicyRule, actual: u64)
    ensures
        numeric_verdict(rule, actual) matches Verdict::Checked { passed, .. } && (passed <==> match rule.comparison {
            Comparison::Lt => actual < rule.threshold,
            Comparison::Lte => actual <= rule.threshold,
            Comparison::Gt => actual > rule.threshold,
            Comparison::Gte => actual >= rule.threshold,
            Comparison::Eq => actual == rule.threshold,
            Comparison::Ne => actual != rule.threshold,
        }),
        compares(actual, Comparison::Gte, rule.threshold) <==> !compares(actual, Comparison::Lt, rule.threshold),
        compares(actual, Comparison::Lte, rule.threshold) <==> !compares(actual, Comparison::Gt, rule.threshold),
        compares(actual, Comparison::Ne, rule.threshold) <==> !compares(actual, Comparison::Eq, rule.threshold),
        compares(actual, Comparison::Gte, rule.threshold) <==> (compares(actual, Comparison::Gt, rule.threshold)
            || compares(actual, Comparison::Eq, rule.threshold)),
        compares(actual, Comparison::Lte, rule.threshold) <==> (compares(actual, Comparison::Lt, rule.threshold)
            || compares(actual, Comparison::Eq, rule.threshold)),
{
}

/// A `loaded_class_count` rule on an overview that it may run on passes
/// exactly when the overview's loaded-class count stands in the rule's
/// relation to its threshold (`>= 100` passes on 500 classes).
pub proof fn lemma_loaded_class_rule(rule: PolicyRule, s: &OverviewSummary, requested: AnalysisMode)
    requires
        rule.predicate == Predicate::LoadedClassCount,
        rule.mode_requirement != ModeRequirement::DeepOnly,
    ensures
        rule_verdict(rule, PolicyInput::Overview(s), requested) matches Verdict::Checked { passed, .. } && (passed
            <==> match rule.comparison {
            Comparison::Lt => s.loaded_class_count < rule.threshold,
            Comparison::Lte => s.loaded_class_count <= rule.threshold,
            Comparison::Gt => s.loaded_class_count > rule.threshold,
            Comparison::Gte => s.loaded_class_count >= rule.threshold,
            Comparison::Eq => s.loaded_class_count == rule.threshold,
            Comparison::Ne => s.loaded_class_count != rule.threshold,
        }),
{
    lemma_numeric_rule_passes(rule, s.loaded_class_count);
}

/// Whether `actual` stands in relation `c` to `expected`.
pub fn compare_u64(actual: u64, c: Comparison, expected: u64) -> (b: bool)
    ensures
        b == compares(actual, c, expected),
{
    match c {
        Comparison::Lt => actual < expected,
        Comparison::Lte => actual <= expected,
        Comparison::Gt => actual > expected,
        Comparison::Gte => actual >= expected,
        Comparison::Eq => actual == expected,
        Comparison::Ne => actual != expected,
    }
}

/// The name of a provenance kind.
pub open spec fn provenance_label(k: ProvenanceKind) -> Seq<char> {
    match k {
        ProvenanceKind::Synthetic => "synthetic"@,
        ProvenanceKind::Partial => "partial"@,
        ProvenanceKind::Fallback => "fallback"@,
        ProvenanceKind::Placeholder => "placeholder"@,
    }
}

fn provenance_kind_name(k: ProvenanceKind) -> (s: &'static str)
    ensures
        s@ == provenance_label(k),
{
    match k {
        ProvenanceKind::Synthetic => "synthetic",
        ProvenanceKind::Partial => "partial",
        ProvenanceKind::Fallback => "fallback",
        ProvenanceKind::Placeholder => "placeholder",
    }
}

// ---------------------------------------------------------------------------
// Kind names
// ---------------------------------------------------------------------------

/// The end of a text without its trailing whitespace.
pub open spec fn trimmed_end(s: Seq<char>) -> int
    decreases s.len(),
{
    if s.len() > 0 && is_whitespace_char(s.last()) { trimmed_end(s.drop_last()) } else { s.len() as int }
}

/// A text without leading and trailing whitespace.
pub open spec fn trimmed(s: Seq<char>) -> Seq<char> {
    let a = after_ws(s, 0);
    let b = trimmed_end(s);
    if a < b { s.subrange(a, b) } else { Seq::empty() }
}

/// ASCII upper case to lower case, `-` to `_`.
pub open spec fn kind_char(c: char) -> char {
    if 'A' <= c <= 'Z' {
        (((c as u8) + 32) as u8) as char
    } else if c == '-' {
        '_'
    } else {
        c
    }
}

/// A kind name trimmed, in ASCII lower case, with `-` read as `_`.
pub open spec fn normalized_kind(k: Seq<char>) -> Seq<char> {
    trimmed(k).map_values(|c: char| kind_char(c))
}

/// The GC-root kind a (normalized) kind name denotes.
pub open spec fn gc_root_kind_named(n: Seq<char>) -> Option<GcRootKind> {
    if n == "jni_global"@ {
        Some(GcRootKind::JniGlobal)
    } else if n == "jni_local"@ {
        Some(GcRootKind::JniLocal)
    } else if n == "java_frame"@ {
        Some(GcRootKind::JavaFrame)
    } else if n == "native_stack"@ {
        Some(GcRootKind::NativeStack)
    } else if n == "sticky_class"@ {
        Some(GcRootKind::StickyClass)
    } else if n == "thread_block"@ {
        Some(GcRootKind::ThreadBlock)
    } else if n == "monitor_used"@ {
        Some(GcRootKind::MonitorUsed)
    } else if n == "thread_object"@ {
        Some(GcRootKind::ThreadObject)
    } else if n == "other"@ || n == "unknown"@ {
        Some(GcRootKind::Unknown)
    } else {
        None
    }
}

/// The provenance kind a (normalized) kind name denotes.
pub open spec fn provenance_kind_named(n: Seq<char>) -> Option<ProvenanceKind> {
    if n == "synthetic"@ {
        Some(ProvenanceKind::Synthetic)
    } else if n == "partial"@ {
        Some(ProvenanceKind::Partial)
    } else if n == "fallback"@ {
        Some(ProvenanceKind::Fallback)
    } else if n == "placeholder"@ {
        Some(ProvenanceKind::Placeholder)
    } else {
        None
    }
}

proof fn lemma_trimmed_end(s: Seq<char>)
    ensures
        0 <= trimmed_end(s) <= s.len(),
        forall|i: int| trimmed_end(s) <= i < s.len() ==> is_whitespace_char(#[trigger] s[i]),
        trimmed_end(s) > 0 ==> !is_whitespace_char(s[trimmed_end(s) - 1]),
    decreases s.len(),
{
    if s.len() > 0 && is_whitespace_char(s.last()) {
        lemma_trimmed_end(s.drop_last());
        assert forall|i: int| trimmed_end(s) <= i < s.len() implies is_whitespace_char(#[trigger] s[i]) by {
            if i < s.len() - 1 {
                assert(s.drop_last()[i] == s[i]);
            }
        }
    }
}

proof fn lemma_after_ws_run(s: Seq<char>, p: int)
    requires
        0 <= p <= s.len(),
    ensures
        p <= after_ws(s, p) <= s.len(),
        forall|i: int| p <= i < after_ws(s, p) ==> is_whitespace_char(#[trigger] s[i]),
        after_ws(s, p) < s.len() ==> !is_whitespace_char(s[after_ws(s, p)]),
    decreases s.len() - p,
{
    if p < s.len() && is_whitespace_char(s[p]) {
        lemma_after_ws_run(s, p + 1);
    }
}

/// A kind name normalized for lookup.
fn normalize_kind(kind: &str) -> (out: Vec<char>)
    ensures
        out@ == normalized_kind(kind@),
{
    let cs = chars_of(kind);
    let ghost s = cs@;
    let mut a: usize = 0;
    while a < cs.len() && crate::query::parser::is_whitespace(cs[a])
        invariant
            a <= s.len(),
            cs@ == s,
            after_ws(s, a as int) == after_ws(s, 0),
        decreases cs.len() - a,
    {
        a = a + 1;
    }
    let mut b: usize = cs.len();
    proof {
        assert(s.take(b as int) =~= s);
    }
    while b > 0 && crate::query::parser::is_whitespace(cs[b - 1])
        invariant
            b <= s.len(),
            cs@ == s,
            trimmed_end(s.take(b as int)) == trimmed_end(s),
        decreases b,
    {
        proof {
            assert(s.take(b as int).drop_last() =~= s.take(b - 1));
        }
        b = b - 1;
    }
    proof {
        lemma_trimmed_end(s.take(b as int));
        lemma_after_ws_run(s, 0);
    }
    let mut out: Vec<char> = Vec::new();
    if a < b {
        let mut i = a;
        while i < b
            invariant
                a <= i <= b <= s.len(),
                cs@ == s,
                out@ == s.subrange(a as int, i as int).map_values(|c: char| kind_char(c)),
            decreases b - i,
        {
            let c = cs[i];
            let d = if 'A' <= c && c <= 'Z' {
                ((c as u8) + 32) as char
            } else if c == '-' {
                '_'
            } else {
                c
            };
            out.push(d);
            i = i + 1;
            proof {
                assert(out@ =~= s.subrange(a as int, i as int).map_values(|c: char| kind_char(c)));
            }
        }
    }
    proof {
        if after_ws(s, 0) < trimmed_end(s) {
            assert(trimmed_end(s) == b);
        }
        assert(out@ =~= normalized_kind(kind@));
    }
    out
}


fn chars_equal(a: &Vec<char>, b: &str) -> (r: bool)
    ensures
        r == (a@ == b@),
{
    let s = string_from_chars(a);
    str_eq(s.as_str(), b)
}

/// The GC-root kind a normalized kind name denotes.
fn gc_root_kind_from_name(n: &Vec<char>) -> (k: Option<GcRootKind>)
    ensures
        k == gc_root_kind_named(n@),
{
    if chars_equal(n, "jni_global") {
        Some(GcRootKind::JniGlobal)
    } else if chars_equal(n, "jni_local") {
        Some(GcRootKind::JniLocal)
    } else if chars_equal(n, "java_frame") {
        Some(GcRootKind::JavaFrame)
    } else if chars_equal(n, "native_stack") {
        Some(GcRootKind::NativeStack)
    } else if chars_equal(n, "sticky_class") {
        Some(GcRootKind::StickyClass)
    } else if chars_equal(n, "thread_block") {
        Some(GcRootKind::ThreadBlock)
    } else if chars_equal(n, "monitor_used") {
        Some(GcRootKind::MonitorUsed)
    } else if chars_equal(n, "thread_object") {
        Some(GcRootKind::ThreadObject)
    } else if chars_equal(n, "other") || chars_equal(n, "unknown") {
        Some(GcRootKind::Unknown)
    } else {
        None
    }
}

/// The provenance kind a normalized kind name denotes.
fn provenance_kind_from_name(n: &Vec<char>) -> (k: Option<ProvenanceKind>)
    ensures
        k == provenance_kind_named(n@),
{
    if chars_equal(n, "synthetic") {
        Some(ProvenanceKind::Synthetic)
    } else if chars_equal(n, "partial") {
        Some(ProvenanceKind::Partial)
    } else if chars_equal(n, "fallback") {
        Some(ProvenanceKind::Fallback)
    } else if chars_equal(n, "placeholder") {
        Some(ProvenanceKind::Placeholder)
    } else {
        None
    }
}

// ---------------------------------------------------------------------------
// Figures
// ---------------------------------------------------------------------------

/// Whether a class rule selects a class: by exact name when it names one,
/// else by its pattern.
pub open spec fn class_selected(rule: PolicyRule, name: Seq<char>) -> bool {
    match rule.class {
        Some(c) => name == c@,
        None => regex_match(rule.class_pattern->Some_0@, name),
    }
}

/// A class rule can run when it names a class or has a pattern that compiles.
pub open spec fn class_rule_usable(rule: PolicyRule) -> bool {
    rule.class is Some || (rule.class_pattern is Some && regex_compile_error(rule.class_pattern->Some_0@) is None)
}

/// Sum of instance counts (or bytes) of the overview classes a rule selects.
pub open spec fn overview_class_sum(entries: Seq<OverviewClassStat>, rule: PolicyRule, bytes: bool) -> nat
    decreases entries.len(),
{
    if entries.len() == 0 {
        0
    } else {
        let e = entries.last();
        overview_class_sum(entries.drop_last(), rule, bytes) + if class_selected(rule, e.class_name@) {
            (if bytes { e.approx_shallow_bytes } else { e.instance_count }) as nat
        } else {
            0
        }
    }
}

/// Sum of instance counts (or bytes) of all overview classes.
pub open spec fn overview_class_total(entries: Seq<OverviewClassStat>, bytes: bool) -> nat
    decreases entries.len(),
{
    if entries.len() == 0 {
        0
    } else {
        let e = entries.last();
        overview_class_total(entries.drop_last(), bytes) + (if bytes { e.approx_shallow_bytes } else { e.instance_count }) as nat
    }
}

/// Sum of instances (or bytes) of the deep-analysis classes a rule selects.
pub open spec fn deep_class_sum(classes: Seq<ClassStat>, rule: PolicyRule, bytes: bool) -> nat
    decreases classes.len(),
{
    if classes.len() == 0 {
        0
    } else {
        let c = classes.last();
        deep_class_sum(classes.drop_last(), rule, bytes) + if class_selected(rule, c.name@) {
            (if bytes { c.total_size_bytes } else { c.instances }) as nat
        } else {
            0
        }
    }
}

/// Sum of instances (or bytes) of all deep-analysis classes.
pub open spec fn deep_class_total(classes: Seq<ClassStat>, bytes: bool) -> nat
    decreases classes.len(),
{
    if classes.len() == 0 {
        0
    } else {
        let c = classes.last();
        deep_class_total(classes.drop_last(), bytes) + (if bytes { c.total_size_bytes } else { c.instances }) as nat
    }
}

/// The class figures of an input fit in `u64`, and its GC-root counts are
/// well formed.
pub open spec fn input_fits(input: PolicyInput) -> bool {
    match input {
        PolicyInput::Deep(r) => {
            &&& deep_class_total(r.summary.classes@, false) <= u64::MAX
            &&& deep_class_total(r.summary.classes@, true) <= u64::MAX
        },
        PolicyInput::Overview(s) => {
            &&& overview_class_total(s.class_stats.entries@, false) <= u64::MAX
            &&& overview_class_total(s.class_stats.entries@, true) <= u64::MAX
            &&& s.gc_root_counts.wf()
        },
    }
}

proof fn lemma_overview_sum_bounded(entries: Seq<OverviewClassStat>, rule: PolicyRule, bytes: bool)
    ensures
        overview_class_sum(entries, rule, bytes) <= overview_class_total(entries, bytes),
    decreases entries.len(),
{
    if entries.len() > 0 {
        lemma_overview_sum_bounded(entries.drop_last(), rule, bytes);
    }
}

proof fn lemma_overview_total_prefix(entries: Seq<OverviewClassStat>, i: int, bytes: bool)
    requires
        0 <= i <= entries.len(),
    ensures
        overview_class_total(entries.take(i), bytes) <= overview_class_total(entries, bytes),
    decreases entries.len() - i,
{
    if i < entries.len() {
        lemma_overview_total_prefix(entries, i + 1, bytes);
        assert(entries.take(i + 1).drop_last() =~= entries.take(i));
    } else {
        assert(entries.take(i) =~= entries);
    }
}

proof fn lemma_deep_sum_bounded(classes: Seq<ClassStat>, rule: PolicyRule, bytes: bool)
    ensures
        deep_class_sum(classes, rule, bytes) <= deep_class_total(classes, bytes),
    decreases classes.len(),
{
    if classes.len() > 0 {
        lemma_deep_sum_bounded(classes.drop_last(), rule, bytes);
    }
}

proof fn lemma_deep_total_prefix(classes: Seq<ClassStat>, i: int, bytes: bool)
    requires
        0 <= i <= classes.len(),
    ensures
        deep_class_total(classes.take(i), bytes) <= deep_class_total(classes, bytes),
    decreases classes.len() - i,
{
    if i < classes.len() {
        lemma_deep_total_prefix(classes, i + 1, bytes);
        assert(classes.take(i + 1).drop_last() =~= classes.take(i));
    } else {
        assert(classes.take(i) =~= classes);
    }
}

/// Whether a class rule selects a class name.
fn select_class(rule: &PolicyRule, name: &String) -> (b: bool)
    requires
        class_rule_usable(*rule),
    ensures
        b == class_selected(*rule, name@),
{
    match &rule.class {
        Some(c) => str_eq(name.as_str(), c.as_str()),
        None => match &rule.class_pattern {
            Some(p) => regex_is_match(p.as_str(), name.as_str()),
            None => false,
        },
    }
}

/// Whether a class rule can run.
fn class_rule_ok(rule: &PolicyRule) -> (b: bool)
    ensures
        b == class_rule_usable(*rule),
{
    if rule.class.is_some() {
        return true;
    }
    match &rule.class_pattern {
        Some(p) => regex_check(p.as_str()).is_none(),
        None => false,
    }
}

fn sum_overview_classes(entries: &Vec<OverviewClassStat>, rule: &PolicyRule, bytes: bool) -> (total: u64)
    requires
        class_rule_usable(*rule),
        overview_class_total(entries@, bytes) <= u64::MAX,
    ensures
        total == overview_class_sum(entries@, *rule, bytes),
{
    let mut total: u64 = 0;
    let mut i: usize = 0;
    while i < entries.len()
        invariant
            i <= entries@.len(),
            class_rule_usable(*rule),
            overview_class_total(entries@, bytes) <= u64::MAX,
            total == overview_class_sum(entries@.take(i as int), *rule, bytes),
        decreases entries.len() - i,
    {
        let e = &entries[i];
        proof {
            let t = entries@.take(i + 1);
            assert(t.drop_last() =~= entries@.take(i as int));
            lemma_overview_sum_bounded(t, *rule, bytes);
            lemma_overview_total_prefix(entries@, i + 1, bytes);
        }
        if select_class(rule, &e.class_name) {
            total = total + if bytes { e.approx_shallow_bytes } else { e.instance_count };
        }
        i = i + 1;
    }
    proof {
        assert(entries@.take(entries@.len() as int) =~= entries@);
    }
    total
}

fn sum_deep_classes(classes: &Vec<ClassStat>, rule: &PolicyRule, bytes: bool) -> (total: u64)
    requires
        class_rule_usable(*rule),
        deep_class_total(classes@, bytes) <= u64::MAX,
    ensures
        total == deep_class_sum(classes@, *rule, bytes),
{
    let mut total: u64 = 0;
    let mut i: usize = 0;
    while i < classes.len()
        invariant
            i <= classes@.len(),
            class_rule_usable(*rule),
            deep_class_total(classes@, bytes) <= u64::MAX,
            total == deep_class_sum(classes@.take(i as int), *rule, bytes),
        decreases classes.len() - i,
    {
        let c = &classes[i];
        proof {
            let t = classes@.take(i + 1);
            assert(t.drop_last() =~= classes@.take(i as int));
            lemma_deep_sum_bounded(t, *rule, bytes);
            lemma_deep_total_prefix(classes@, i + 1, bytes);
        }
        if select_class(rule, &c.name) {
            total = total + if bytes { c.total_size_bytes } else { c.instances };
        }
        i = i + 1;
    }
    proof {
        assert(classes@.take(classes@.len() as int) =~= classes@);
    }
    total
}

/// Whether some marker has the given kind.
pub open spec fn has_marker(markers: Seq<ProvenanceMarker>, kind: ProvenanceKind) -> bool {
    exists|i: int| 0 <= i < markers.len() && #[trigger] markers[i].kind == kind
}

fn has_provenance_kind(markers: &Vec<ProvenanceMarker>, kind: ProvenanceKind) -> (b: bool)
    ensures
        b == has_marker(markers@, kind),
{
    let mut i: usize = 0;
    while i < markers.len()
        invariant
            i <= markers@.len(),
            forall|j: int| 0 <= j < i ==> markers@[j].kind != kind,
        decreases markers.len() - i,
    {
        if markers[i].kind == kind {
            return true;
        }
        i = i + 1;
    }
    false
}


// ---------------------------------------------------------------------------
// Verdicts
// ---------------------------------------------------------------------------

/// A reported figure, its strings taken as character sequences.
pub enum ValueView {
    Null,
    Bool(bool),
    Number(u64),
    Text(Seq<char>),
}

pub open spec fn value_view(v: PolicyValue) -> ValueView {
    match v {
        PolicyValue::Null => ValueView::Null,
        PolicyValue::Bool(b) => ValueView::Bool(b),
        PolicyValue::Number(n) => ValueView::Number(n),
        PolicyValue::Text(t) => ValueView::Text(t@),
    }
}

/// What becomes of one rule.
pub enum Verdict {
    /// The rule did not run.
    Skip(SkipReason),
    /// The rule needs a deep analysis and an overview was asked for.
    ModeMismatch,
    /// The rule ran.
    Checked { passed: bool, actual: ValueView, expected: ValueView, message: Seq<char> },
}

/// The verdict of a numeric rule on a figure.
pub open spec fn numeric_verdict(rule: PolicyRule, actual: u64) -> Verdict {
    Verdict::Checked {
        passed: compares(actual, rule.comparison, rule.threshold),
        actual: ValueView::Number(actual),
        expected: ValueView::Number(rule.threshold),
        message: "expected "@ + predicate_label(rule.predicate) + " "@ + comparison_label(rule.comparison) + " "@
            + dec_chars(rule.threshold as nat) + ", got "@ + dec_chars(actual as nat),
    }
}

/// The class figure a class rule reads from the input, if it can run.
pub open spec fn class_figure(rule: PolicyRule, input: PolicyInput, bytes: bool) -> Option<u64> {
    if !class_rule_usable(rule) {
        None
    } else {
        match input {
            PolicyInput::Deep(r) => Some(deep_class_sum(r.summary.classes@, rule, bytes) as u64),
            PolicyInput::Overview(s) => Some(overview_class_sum(s.class_stats.entries@, rule, bytes) as u64),
        }
    }
}

/// The verdict of a rule that runs on the input, `None` when it cannot.
pub open spec fn checked_verdict(rule: PolicyRule, input: PolicyInput) -> Option<Verdict> {
    match rule.predicate {
        Predicate::TotalBytes => Some(numeric_verdict(rule, match input {
            PolicyInput::Deep(r) => r.summary.total_size_bytes,
            PolicyInput::Overview(s) => s.total_size_bytes,
        })),
        Predicate::TotalInstances => Some(numeric_verdict(rule, match input {
            PolicyInput::Deep(r) => r.summary.total_objects,
            PolicyInput::Overview(s) => s.total_instances,
        })),
        Predicate::ClassInstances => match class_figure(rule, input, false) {
            Some(v) => Some(numeric_verdict(rule, v)),
            None => None,
        },
        Predicate::ClassBytes => match class_figure(rule, input, true) {
            Some(v) => Some(numeric_verdict(rule, v)),
            None => None,
        },
        Predicate::LoadedClassCount => Some(numeric_verdict(rule, match input {
            PolicyInput::Deep(r) => r.summary.classes@.len() as u64,
            PolicyInput::Overview(s) => s.loaded_class_count,
        })),
        Predicate::GcRootCount => match input {
            PolicyInput::Deep(_) => None,
            PolicyInput::Overview(s) => match rule.kind {
                None => None,
                Some(k) => match gc_root_kind_named(normalized_kind(k@)) {
                    None => None,
                    Some(kind) => Some(numeric_verdict(
                        rule,
                        if s.gc_root_counts.counts().contains_key(kind) { s.gc_root_counts.counts()[kind] } else { 0 },
                    )),
                },
            },
        },
        Predicate::ProvenanceMustNotContain => match rule.kind {
            None => None,
            Some(k) => match provenance_kind_named(normalized_kind(k@)) {
                None => None,
                Some(kind) => {
                    let present = match input {
                        PolicyInput::Deep(r) => has_marker(r.provenance@, kind),
                        PolicyInput::Overview(s) => has_marker(s.provenance@, kind),
                    };
                    Some(Verdict::Checked {
                        passed: !present,
                        actual: ValueView::Bool(present),
                        expected: ValueView::Text(provenance_label(kind)),
                        message: "expected provenance_must_not_contain "@ + provenance_label(kind)
                            + " but marker was present"@,
                    })
                },
            },
        },
        _ => None,
    }
}

/// The verdict of a rule: a deep-only rule on an overview fails when the
/// overview was asked for and is skipped when it was chosen automatically;
/// a rule that cannot run on the input is skipped.
pub open spec fn rule_verdict(rule: PolicyRule, input: PolicyInput, requested: AnalysisMode) -> Verdict {
    if input is Overview && rule.mode_requirement == ModeRequirement::DeepOnly {
        if requested == AnalysisMode::Overview {
            Verdict::ModeMismatch
        } else {
            Verdict::Skip(SkipReason::DeepOnlyInOverviewMode)
        }
    } else {
        match checked_verdict(rule, input) {
            Some(v) => v,
            None => Verdict::Skip(SkipReason::UnsupportedInThisMode),
        }
    }
}

/// The message of a deep-only rule asked to run on an overview.
pub open spec fn mode_mismatch_message(id: Seq<char>) -> Seq<char> {
    "deep-only predicate `"@ + id + "` cannot run in explicit overview mode"@
}

pub open spec fn opt_view(o: Option<String>) -> Option<Seq<char>> {
    match o {
        Some(s) => Some(s@),
        None => None,
    }
}

/// An evaluation: rule id, whether it passed, and the figure.
pub open spec fn evaluation_view(e: Evaluation) -> (Seq<char>, bool, ValueView) {
    (e.rule_id@, e.passed, value_view(e.actual))
}

/// A violation: rule id, predicate name, severity, message, figure,
/// threshold, comparison and remediation hint.
pub open spec fn violation_view(v: Violation) -> (Seq<char>, Seq<char>, Severity, Seq<char>, ValueView, ValueView, Comparison, Option<Seq<char>>) {
    (v.rule_id@, v.predicate@, v.severity, v.message@, value_view(v.actual), value_view(v.expected), v.comparison, opt_view(v.remediation_hint))
}

pub open spec fn skipped_view(s: SkippedRule) -> (Seq<char>, SkipReason) {
    (s.rule_id@, s.reason)
}

/// The evaluations a policy's rules produce, in rule order.
pub open spec fn evaluations_of(rules: Seq<PolicyRule>, input: PolicyInput, requested: AnalysisMode) -> Seq<(Seq<char>, bool, ValueView)>
    decreases rules.len(),
{
    if rules.len() == 0 {
        Seq::empty()
    } else {
        let r = rules.last();
        let prev = evaluations_of(rules.drop_last(), input, requested);
        match rule_verdict(r, input, requested) {
            Verdict::Checked { passed, actual, .. } => prev.push((r.id@, passed, actual)),
            _ => prev,
        }
    }
}

/// The violations a policy's rules produce, in rule order.
pub open spec fn violations_of(rules: Seq<PolicyRule>, input: PolicyInput, requested: AnalysisMode) -> Seq<(Seq<char>, Seq<char>, Severity, Seq<char>, ValueView, ValueView, Comparison, Option<Seq<char>>)>
    decreases rules.len(),
{
    if rules.len() == 0 {
        Seq::empty()
    } else {
        let r = rules.last();
        let prev = violations_of(rules.drop_last(), input, requested);
        match rule_verdict(r, input, requested) {
            Verdict::ModeMismatch => prev.push((
                r.id@,
                predicate_label(r.predicate),
                Severity::Critical,
                mode_mismatch_message(r.id@),
                ValueView::Null,
                ValueView::Null,
                r.comparison,
                opt_view(r.remediation_hint),
            )),
            Verdict::Checked { passed, actual, expected, message } => if passed {
                prev
            } else {
                prev.push((r.id@, predicate_label(r.predicate), r.severity, message, actual, expected, r.comparison, opt_view(r.remediation_hint)))
            },
            Verdict::Skip(_) => prev,
        }
    }
}

/// The rules a policy skips, in rule order.
pub open spec fn skipped_of(rules: Seq<PolicyRule>, input: PolicyInput, requested: AnalysisMode) -> Seq<(Seq<char>, SkipReason)>
    decreases rules.len(),
{
    if rules.len() == 0 {
        Seq::empty()
    } else {
        let r = rules.last();
        let prev = skipped_of(rules.drop_last(), input, requested);
        match rule_verdict(r, input, requested) {
            Verdict::Skip(reason) => prev.push((r.id@, reason)),
            _ => prev,
        }
    }
}

/// The exec form of a verdict that ran.
struct RuleOutcome {
    passed: bool,
    actual: PolicyValue,
    expected: PolicyValue,
    message: String,
}

spec fn outcome_matches(o: RuleOutcome, v: Verdict) -> bool {
    v matches Verdict::Checked { passed, actual, expected, message } && o.passed == passed
        && value_view(o.actual) == actual && value_view(o.expected) == expected && o.message@ == message
}

fn evaluate_numeric(rule: &PolicyRule, actual: u64) -> (o: RuleOutcome)
    ensures
        outcome_matches(o, numeric_verdict(*rule, actual)),
{
    let mut m: Vec<char> = Vec::new();
    push_str(&mut m, "expected ");
    push_str(&mut m, predicate_name(rule.predicate));
    push_str(&mut m, " ");
    push_str(&mut m, comparison_symbol(rule.comparison));
    push_str(&mut m, " ");
    push_decimal(&mut m, rule.threshold);
    push_str(&mut m, ", got ");
    push_decimal(&mut m, actual);
    let o = RuleOutcome {
        passed: compare_u64(actual, rule.comparison, rule.threshold),
        actual: PolicyValue::Number(actual),
        expected: PolicyValue::Number(rule.threshold),
        message: string_from_chars(&m),
    };
    proof {
        assert(o.message@ =~= "expected "@ + predicate_label(rule.predicate) + " "@ + comparison_label(rule.comparison)
            + " "@ + dec_chars(rule.threshold as nat) + ", got "@ + dec_chars(actual as nat));
    }
    o
}

/// The figure of a class rule, if it can run.
fn class_value(rule: &PolicyRule, input: &PolicyInput, bytes: bool) -> (v: Option<u64>)
    requires
        input_fits(*input),
    ensures
        v == class_figure(*rule, *input, bytes),
{
    if !class_rule_ok(rule) {
        return None;
    }
    match input {
        PolicyInput::Deep(r) => Some(sum_deep_classes(&r.summary.classes, rule, bytes)),
        PolicyInput::Overview(s) => Some(sum_overview_classes(&s.class_stats.entries, rule, bytes)),
    }
}

/// Evaluates a rule that can run on the input.
fn evaluate_rule(rule: &PolicyRule, input: &PolicyInput) -> (o: Option<RuleOutcome>)
    requires
        input_fits(*input),
    ensures
        match checked_verdict(*rule, *input) {
            None => o is None,
            Some(v) => o matches Some(out) && outcome_matches(out, v),
        },
{
    match rule.predicate {
        Predicate::TotalBytes => {
            let actual = match input {
                PolicyInput::Deep(r) => r.summary.total_size_bytes,
                PolicyInput::Overview(s) => s.total_size_bytes,
            };
            Some(evaluate_numeric(rule, actual))
        },
        Predicate::TotalInstances => {
            let actual = match input {
                PolicyInput::Deep(r) => r.summary.total_objects,
                PolicyInput::Overview(s) => s.total_instances,
            };
            Some(evaluate_numeric(rule, actual))
        },
        Predicate::ClassInstances => match class_value(rule, input, false) {
            Some(v) => Some(evaluate_numeric(rule, v)),
            None => None,
        },
        Predicate::ClassBytes => match class_value(rule, input, true) {
            Some(v) => Some(evaluate_numeric(rule, v)),
            None => None,
        },
        Predicate::LoadedClassCount => {
            let actual = match input {
                PolicyInput::Deep(r) => r.summary.classes.len() as u64,
                PolicyInput::Overview(s) => s.loaded_class_count,
            };
            Some(evaluate_numeric(rule, actual))
        },
        Predicate::GcRootCount => match input {
            PolicyInput::Deep(_) => None,
            PolicyInput::Overview(s) => match &rule.kind {
                None => None,
                Some(k) => match gc_root_kind_from_name(&normalize_kind(k.as_str())) {
                    None => None,
                    Some(kind) => {
                        let actual = match s.gc_root_counts.get(&kind) {
                            Some(n) => *n,
                            None => 0,
                        };
                        Some(evaluate_numeric(rule, actual))
                    },
                },
            },
        },
        Predicate::ProvenanceMustNotContain => match &rule.kind {
            None => None,
            Some(k) => match provenance_kind_from_name(&normalize_kind(k.as_str())) {
                None => None,
                Some(kind) => {
                    let present = match input {
                        PolicyInput::Deep(r) => has_provenance_kind(&r.provenance, kind),
                        PolicyInput::Overview(s) => has_provenance_kind(&s.provenance, kind),
                    };
                    let mut m: Vec<char> = Vec::new();
                    push_str(&mut m, "expected provenance_must_not_contain ");
                    push_str(&mut m, provenance_kind_name(kind));
                    push_str(&mut m, " but marker was present");
                    let o = RuleOutcome {
                        passed: !present,
                        actual: PolicyValue::Bool(present),
                        expected: PolicyValue::Text(provenance_kind_name(kind).to_owned()),
                        message: string_from_chars(&m),
                    };
                    proof {
                        assert(o.message@ =~= "expected provenance_must_not_contain "@ + provenance_label(kind)
                            + " but marker was present"@);
                    }
                    Some(o)
                },
            },
        },
        _ => None,
    }
}

fn copy_value(v: &PolicyValue) -> (c: PolicyValue)
    ensures
        value_view(c) == value_view(*v),
{
    match v {
        PolicyValue::Null => PolicyValue::Null,
        PolicyValue::Bool(b) => PolicyValue::Bool(*b),
        PolicyValue::Number(n) => PolicyValue::Number(*n),
        PolicyValue::Text(t) => PolicyValue::Text(t.as_str().to_owned()),
    }
}

fn copy_text(o: &Option<String>) -> (c: Option<String>)
    ensures
        opt_view(c) == opt_view(*o),
{
    match o {
        Some(s) => Some(s.as_str().to_owned()),
        None => None,
    }
}

/// Evaluates every rule of a policy on an input: a deep-only rule on an
/// overview is a critical violation when the overview was asked for and is
/// skipped otherwise; a rule that cannot run on the input is skipped; every
/// other rule yields an evaluation, and a violation when it fails.
pub fn evaluate(policy: &Policy, input: &PolicyInput, requested_mode: AnalysisMode) -> (r: PolicyResult)
    requires
        input_fits(*input),
    ensures
        r.mode_used == (match *input {
            PolicyInput::Deep(_) => AnalysisMode::Deep,
            PolicyInput::Overview(_) => AnalysisMode::Overview,
        }),
        r.mode_requested == requested_mode,
        r.evaluations@.map_values(|e: Evaluation| evaluation_view(e)) == evaluations_of(policy.rules@, *input, requested_mode),
        r.violations@.map_values(|v: Violation| violation_view(v)) == violations_of(policy.rules@, *input, requested_mode),
        r.skipped@.map_values(|s: SkippedRule| skipped_view(s)) == skipped_of(policy.rules@, *input, requested_mode),
{
    let mut result = PolicyResult {
        mode_used: input.mode_used(),
        mode_requested: requested_mode,
        violations: Vec::new(),
        evaluations: Vec::new(),
        skipped: Vec::new(),
    };
    let mut i: usize = 0;
    while i < policy.rules.len()
        invariant
            i <= policy.rules@.len(),
            input_fits(*input),
            result.mode_used == (match *input {
                PolicyInput::Deep(_) => AnalysisMode::Deep,
                PolicyInput::Overview(_) => AnalysisMode::Overview,
            }),
            result.mode_requested == requested_mode,
            result.evaluations@.map_values(|e: Evaluation| evaluation_view(e))
                == evaluations_of(policy.rules@.take(i as int), *input, requested_mode),
            result.violations@.map_values(|v: Violation| violation_view(v))
                == violations_of(policy.rules@.take(i as int), *input, requested_mode),
            result.skipped@.map_values(|s: SkippedRule| skipped_view(s))
                == skipped_of(policy.rules@.take(i as int), *input, requested_mode),
        decreases policy.rules.len() - i,
    {
        let rule = &policy.rules[i];
        let ghost before = policy.rules@.take(i as int);
        proof {
            assert(policy.rules@.take(i + 1).drop_last() =~= before);
            assert(policy.rules@.take(i + 1).last() == *rule);
        }
        let ghost ev0 = result.evaluations@;
        let ghost vi0 = result.violations@;
        let ghost sk0 = result.skipped@;
        let overview = match input {
            PolicyInput::Overview(_) => true,
            PolicyInput::Deep(_) => false,
        };
        if overview && rule.mode_requirement == ModeRequirement::DeepOnly {
            if requested_mode == AnalysisMode::Overview {
                let mut m: Vec<char> = Vec::new();
                push_str(&mut m, "deep-only predicate `");
                push_str(&mut m, rule.id.as_str());
                push_str(&mut m, "` cannot run in explicit overview mode");
                proof {
                    assert(m@ =~= mode_mismatch_message(rule.id@));
                }
                result.violations.push(Violation {
                    rule_id: rule.id.as_str().to_owned(),
                    predicate: predicate_name(rule.predicate).to_owned(),
                    severity: Severity::Critical,
                    message: string_from_chars(&m),
                    actual: PolicyValue::Null,
                    expected: PolicyValue::Null,
                    comparison: rule.comparison,
                    remediation_hint: copy_text(&rule.remediation_hint),
                });
            } else {
                result.skipped.push(SkippedRule {
                    rule_id: rule.id.as_str().to_owned(),
                    reason: SkipReason::DeepOnlyInOverviewMode,
                });
            }
        } else {
            match evaluate_rule(rule, input) {
                None => {
                    result.skipped.push(SkippedRule {
                        rule_id: rule.id.as_str().to_owned(),
                        reason: SkipReason::UnsupportedInThisMode,
                    });
                },
                Some(outcome) => {
                    result.evaluations.push(Evaluation {
                        rule_id: rule.id.as_str().to_owned(),
                        passed: outcome.passed,
                        actual: copy_value(&outcome.actual),
                    });
                    if !outcome.passed {
                        result.violations.push(Violation {
                            rule_id: rule.id.as_str().to_owned(),
                            predicate: predicate_name(rule.predicate).to_owned(),
                            severity: rule.severity,
                            message: outcome.message,
                            actual: outcome.actual,
                            expected: outcome.expected,
                            comparison: rule.comparison,
                            remediation_hint: copy_text(&rule.remediation_hint),
                        });
                    }
                },
            }
        }
        proof {
            assert(result.evaluations@.map_values(|e: Evaluation| evaluation_view(e))
                =~= evaluations_of(policy.rules@.take(i + 1), *input, requested_mode));
            assert(result.violations@.map_values(|v: Violation| violation_view(v))
                =~= violations_of(policy.rules@.take(i + 1), *input, requested_mode));
            assert(result.skipped@.map_values(|s: SkippedRule| skipped_view(s))
                =~= skipped_of(policy.rules@.take(i + 1), *input, requested_mode));
        }
        i = i + 1;
    }
    proof {
        assert(policy.rules@.take(policy.rules@.len() as int) =~= policy.rules@);
    }
    result
}


/// Number of rules that need a deep analysis but were asked to run on an
/// overview.
pub open spec fn mismatches_of(rules: Seq<PolicyRule>, input: PolicyInput, requested: AnalysisMode) -> nat
    decreases rules.len(),
{
    if rules.len() == 0 {
        0
    } else {
        mismatches_of(rules.drop_last(), input, requested) + if rule_verdict(rules.last(), input, requested) is ModeMismatch {
            1nat
        } else {
            0nat
        }
    }
}

/// Number of evaluations that failed.
pub open spec fn failed_count(es: Seq<(Seq<char>, bool, ValueView)>) -> nat
    decreases es.len(),
{
    if es.len() == 0 {
        0
    } else {
        failed_count(es.drop_last()) + if es.last().1 { 0nat } else { 1nat }
    }
}

/// Every rule of a policy is evaluated, skipped, or reported as unable to
/// run on an overview that was asked for, exactly one of the three; and the
/// violations are the failed evaluations together with those reports.
pub proof fn lemma_every_rule_reported_once(rules: Seq<PolicyRule>, input: PolicyInput, requested: AnalysisMode)
    ensures
        evaluations_of(rules, input, requested).len() + skipped_of(rules, input, requested).len()
            + mismatches_of(rules, input, requested) == rules.len(),
        violations_of(rules, input, requested).len() == failed_count(evaluations_of(rules, input, requested))
            + mismatches_of(rules, input, requested),
    decreases rules.len(),
{
    if rules.len() > 0 {
        let prev = rules.drop_last();
        lemma_every_rule_reported_once(prev, input, requested);
        let es = evaluations_of(rules, input, requested);
        match rule_verdict(rules.last(), input, requested) {
            Verdict::Checked { passed, actual, .. } => {
                assert(es.drop_last() =~= evaluations_of(prev, input, requested));
            },
            _ => {},
        }
    }
}

/// A rule that passes its check yields no violation: when all the rules of
/// a policy run and pass, the result has no violation.
pub proof fn lemma_passing_rules_yield_no_violation(rules: Seq<PolicyRule>, input: PolicyInput, requested: AnalysisMode)
    requires
        forall|i: int| 0 <= i < rules.len() ==> (#[trigger] rule_verdict(rules[i], input, requested) matches Verdict::Checked { passed, .. } && passed),
    ensures
        violations_of(rules, input, requested).len() == 0,
        evaluations_of(rules, input, requested).len() == rules.len(),
    decreases rules.len(),
{
    if rules.len() > 0 {
        let prev = rules.drop_last();
        assert forall|i: int| 0 <= i < prev.len() implies (#[trigger] rule_verdict(prev[i], input, requested) matches Verdict::Checked { passed, .. } && passed) by {
            assert(prev[i] == rules[i]);
        }
        lemma_passing_rules_yield_no_violation(prev, input, requested);
        assert(rule_verdict(rules[rules.len() - 1], input, requested) matches Verdict::Checked { passed, .. } && passed);
    }
}

} // verus!
