//! CI policies: rules that compare figures of a heap analysis with
//! thresholds, their evaluation, and reports of the outcome.

pub mod eval;
pub mod render;

use vstd::prelude::*;
use crate::analysis::{AnalysisMode, AnalyzeResponse};
use crate::errors::CoreError;
use crate::hprof::overview::OverviewSummary;
use crate::pattern::{regex_compile_error, regex_check};
use crate::text::{push_str, string_from_chars, str_eq};

verus! {

/// A set of rules with optional metadata.
#[derive(Debug, Clone, PartialEq, Eq)]
pub struct Policy {
    pub meta: Option<PolicyMeta>,
    pub defaults: PolicyDefaults,
    pub rules: Vec<PolicyRule>,
}

/// Descriptive metadata of a policy.
#[derive(Debug, Clone, PartialEq, Eq)]
pub struct PolicyMeta {
    pub name: Option<String>,
    pub description: Option<String>,
    pub version: Option<String>,
}

/// Values that rules inherit when they do not set them.
#[derive(Debug, Clone, Copy, PartialEq, Eq, Structural)]
pub struct PolicyDefaults {
    pub severity: Severity,
}

impl Default for PolicyDefaults {
    fn default() -> (d: Self)
        ensures
            d.severity == Severity::Error,
    {
        PolicyDefaults { severity: Severity::Error }
    }
}

/// One rule: a figure, a comparison and a threshold.
#[derive(Debug, Clone, PartialEq, Eq)]
pub struct PolicyRule {
    pub id: String,
    pub predicate: Predicate,
    pub comparison: Comparison,
    pub threshold: u64,
    pub severity: Severity,
    pub remediation_hint: Option<String>,
    pub mode_requirement: ModeRequirement,
    /// Exact class name, for the class predicates.
    pub class: Option<String>,
    /// Regular expression over class names, for the class predicates.
    pub class_pattern: Option<String>,
    /// GC-root kind or provenance kind, for the predicates that take one.
    pub kind: Option<String>,
    pub severity_filter: Option<String>,
    pub scope: Option<String>,
}

/// The figure a rule checks.
#[derive(Debug, Clone, Copy, PartialEq, Eq, Structural)]
pub enum Predicate {
    TotalBytes,
    TotalInstances,
    ClassInstances,
    ClassBytes,
    LoadedClassCount,
    GcRootCount,
    ProvenanceMustNotContain,
    LeakCount,
    RetainedSize,
    DominatorRootCount,
}

/// How the figure is compared with the threshold.
#[derive(Debug, Clone, Copy, PartialEq, Eq, Structural)]
pub enum Comparison {
    Lt,
    Lte,
    Gt,
    Gte,
    Eq,
    Ne,
}

/// How serious a violation is, least first.
#[derive(Debug, Clone, Copy, PartialEq, Eq, Structural)]
pub enum Severity {
    Info,
    Warning,
    Error,
    Critical,
}

/// Which analyses a rule may run on.
#[derive(Debug, Clone, Copy, PartialEq, Eq, Structural)]
pub enum ModeRequirement {
    Any,
    DeepOnly,
}

impl Default for Severity {
    fn default() -> (s: Self)
        ensures
            s == Severity::Error,
    {
        Severity::Error
    }
}

impl Default for ModeRequirement {
    fn default() -> (m: Self)
        ensures
            m == ModeRequirement::Any,
    {
        ModeRequirement::Any
    }
}

/// The position of a severity in the order info < warning < error < critical.
pub open spec fn severity_rank(s: Severity) -> nat {
    match s {
        Severity::Info => 0,
        Severity::Warning => 1,
        Severity::Error => 2,
        Severity::Critical => 3,
    }
}

/// The position of a severity in the order info < warning < error < critical.
pub fn severity_level(s: Severity) -> (r: u8)
    ensures
        r == severity_rank(s),
{
    match s {
        Severity::Info => 0,
        Severity::Warning => 1,
        Severity::Error => 2,
        Severity::Critical => 3,
    }
}

/// A policy as written, before defaults are applied.
#[derive(Debug, Clone, PartialEq, Eq)]
pub struct RawPolicy {
    pub meta: Option<PolicyMeta>,
    pub defaults: PolicyDefaults,
    pub rules: Vec<RawPolicyRule>,
}

/// A rule as written: severity and mode requirement may be left out.
#[derive(Debug, Clone, PartialEq, Eq)]
pub struct RawPolicyRule {
    pub id: String,
    pub predicate: Predicate,
    pub comparison: Comparison,
    pub threshold: u64,
    pub severity: Option<Severity>,
    pub remediation_hint: Option<String>,
    pub mode_requirement: Option<ModeRequirement>,
    pub class: Option<String>,
    pub class_pattern: Option<String>,
    pub kind: Option<String>,
    pub severity_filter: Option<String>,
    pub scope: Option<String>,
}

/// What is wrong with rule `i` of a written policy, if anything: a
/// repeated id, both `class` and `class_pattern`, or a `class_pattern` that
/// does not compile. Given as the error's detail and suggestion.
pub open spec fn rule_fault(rules: Seq<RawPolicyRule>, i: int) -> Option<(Seq<char>, Seq<char>)> {
    let r = rules[i];
    if exists|j: int| 0 <= j < i && #[trigger] rules[j].id@ == r.id@ {
        Some(("duplicate policy rule id '"@ + r.id@ + "'"@, "Ensure every [[rule]].id is unique."@))
    } else if r.class is Some && r.class_pattern is Some {
        Some((
            "rule '"@ + r.id@ + "' cannot set both 'class' and 'class_pattern'"@,
            "Pick either an exact class match or a regex pattern."@,
        ))
    } else if r.class_pattern is Some && regex_compile_error(r.class_pattern->Some_0@) is Some {
        Some((
            "invalid class_pattern regex for rule '"@ + r.id@ + "': "@ + regex_compile_error(r.class_pattern->Some_0@)->Some_0,
            "Use Rust regex syntax or remove class_pattern."@,
        ))
    } else {
        None
    }
}

/// A written rule with the defaults applied.
pub open spec fn completed_rule(raw: RawPolicyRule, default_severity: Severity) -> PolicyRule {
    PolicyRule {
        id: raw.id,
        predicate: raw.predicate,
        comparison: raw.comparison,
        threshold: raw.threshold,
        severity: match raw.severity {
            Some(s) => s,
            None => default_severity,
        },
        remediation_hint: raw.remediation_hint,
        mode_requirement: match raw.mode_requirement {
            Some(m) => m,
            None => ModeRequirement::Any,
        },
        class: raw.class,
        class_pattern: raw.class_pattern,
        kind: raw.kind,
        severity_filter: raw.severity_filter,
        scope: raw.scope,
    }
}

fn complete_rule(raw: RawPolicyRule, default_severity: Severity) -> (r: PolicyRule)
    ensures
        r == completed_rule(raw, default_severity),
{
    PolicyRule {
        id: raw.id,
        predicate: raw.predicate,
        comparison: raw.comparison,
        threshold: raw.threshold,
        severity: match raw.severity {
            Some(s) => s,
            None => default_severity,
        },
        remediation_hint: raw.remediation_hint,
        mode_requirement: match raw.mode_requirement {
            Some(m) => m,
            None => ModeRequirement::Any,
        },
        class: raw.class,
        class_pattern: raw.class_pattern,
        kind: raw.kind,
        severity_filter: raw.severity_filter,
        scope: raw.scope,
    }
}

fn config_error(detail: Vec<char>, suggestion: &str) -> (e: CoreError)
    ensures
        e matches CoreError::ConfigError { detail: d, suggestion: Some(s) } && d@ == detail@ && s@ == suggestion@,
{
    CoreError::ConfigError { detail: string_from_chars(&detail), suggestion: Some(suggestion.to_owned()) }
}

/// The fault of rule `i`, given that no earlier rule has one.
fn check_rule(rules: &Vec<RawPolicyRule>, i: usize) -> (r: Result<(), CoreError>)
    requires
        i < rules@.len(),
    ensures
        match rule_fault(rules@, i as int) {
            None => r is Ok,
            Some((d, s)) => r matches Err(CoreError::ConfigError { detail, suggestion: Some(sg) }) && detail@ == d && sg@ == s,
        },
{
    let rule = &rules[i];
    let mut j: usize = 0;
    while j < i
        invariant
            i < rules@.len(),
            rule == rules@[i as int],
            j <= i,
            forall|k: int| 0 <= k < j ==> rules@[k].id@ != rule.id@,
        decreases i - j,
    {
        if str_eq(rules[j].id.as_str(), rule.id.as_str()) {
            let mut m: Vec<char> = Vec::new();
            push_str(&mut m, "duplicate policy rule id '");
            push_str(&mut m, rule.id.as_str());
            push_str(&mut m, "'");
            proof {
                assert(rules@[j as int].id@ == rules@[i as int].id@);
            }
            return Err(config_error(m, "Ensure every [[rule]].id is unique."));
        }
        j = j + 1;
    }
    if rule.class.is_some() && rule.class_pattern.is_some() {
        let mut m: Vec<char> = Vec::new();
        push_str(&mut m, "rule '");
        push_str(&mut m, rule.id.as_str());
        push_str(&mut m, "' cannot set both 'class' and 'class_pattern'");
        return Err(config_error(m, "Pick either an exact class match or a regex pattern."));
    }
    if let Some(pattern) = &rule.class_pattern {
        if let Some(err) = regex_check(pattern.as_str()) {
            let mut m: Vec<char> = Vec::new();
            push_str(&mut m, "invalid class_pattern regex for rule '");
            push_str(&mut m, rule.id.as_str());
            push_str(&mut m, "': ");
            push_str(&mut m, err.as_str());
            return Err(config_error(m, "Use Rust regex syntax or remove class_pattern."));
        }
    }
    Ok(())
}

impl Policy {
    /// Checks a written policy and applies its defaults: each rule takes
    /// the default severity and the `Any` mode requirement unless it sets
    /// its own. The first faulty rule, in order, makes the error.
    pub fn from_raw(raw: RawPolicy) -> (r: Result<Policy, CoreError>)
        ensures
            r is Ok <==> forall|i: int| 0 <= i < raw.rules@.len() ==> rule_fault(raw.rules@, i) is None,
            r matches Ok(p) ==> {
                &&& p.meta == raw.meta
                &&& p.defaults == raw.defaults
                &&& p.rules@.len() == raw.rules@.len()
                &&& forall|i: int| 0 <= i < raw.rules@.len() ==> #[trigger] p.rules@[i] == completed_rule(raw.rules@[i], raw.defaults.severity)
            },
            r matches Err(CoreError::ConfigError { detail, suggestion: Some(sg) }) ==> exists|i: int| {
                &&& 0 <= i < raw.rules@.len()
                &&& forall|j: int| 0 <= j < i ==> rule_fault(raw.rules@, j) is None
                &&& #[trigger] rule_fault(raw.rules@, i) == Some((detail@, sg@))
            },
            r is Err ==> r matches Err(CoreError::ConfigError { suggestion: Some(_), .. }),
    {
        let mut i: usize = 0;
        while i < raw.rules.len()
            invariant
                i <= raw.rules@.len(),
                forall|k: int| 0 <= k < i ==> rule_fault(raw.rules@, k) is None,
            decreases raw.rules.len() - i,
        {
            match check_rule(&raw.rules, i) {
                Ok(()) => {},
                Err(e) => {
                    proof {
                        assert(rule_fault(raw.rules@, i as int) is Some);
                    }
                    return Err(e);
                },
            }
            i = i + 1;
        }
        let default_severity = raw.defaults.severity;
        let ghost raw_rules = raw.rules@;
        let RawPolicy { meta, defaults, rules: raw_list } = raw;
        let mut rules: Vec<PolicyRule> = Vec::new();
        let mut rest = raw_list;
        while rest.len() > 0
            invariant
                raw_rules.len() == rules@.len() + rest@.len(),
                forall|j: int| 0 <= j < rest@.len() ==> rest@[j] == raw_rules[rules@.len() + j],
                forall|j: int| 0 <= j < rules@.len() ==> #[trigger] rules@[j] == completed_rule(raw_rules[j], default_severity),
            decreases rest.len(),
        {
            let next = rest.remove(0);
            proof {
                assert(next == raw_rules[rules@.len() as int]);
            }
            rules.push(complete_rule(next, default_severity));
        }
        Ok(Policy { meta, defaults, rules })
    }
}

/// A JSON-like figure reported for a rule: nothing, a flag, a count, or a
/// text.
#[derive(Debug, Clone, PartialEq, Eq)]
pub enum PolicyValue {
    Null,
    Bool(bool),
    Number(u64),
    Text(String),
}

/// The outcome of evaluating a policy.
#[derive(Debug, Clone, PartialEq, Eq)]
pub struct PolicyResult {
    pub mode_used: AnalysisMode,
    pub mode_requested: AnalysisMode,
    pub violations: Vec<Violation>,
    pub evaluations: Vec<Evaluation>,
    pub skipped: Vec<SkippedRule>,
}

/// A rule that failed, or could not run where it had to.
#[derive(Debug, Clone, PartialEq, Eq)]
pub struct Violation {
    pub rule_id: String,
    pub predicate: String,
    pub severity: Severity,
    pub message: String,
    pub actual: PolicyValue,
    pub expected: PolicyValue,
    pub comparison: Comparison,
    pub remediation_hint: Option<String>,
}

/// A rule that ran, and whether it passed.
#[derive(Debug, Clone, PartialEq, Eq)]
pub struct Evaluation {
    pub rule_id: String,
    pub passed: bool,
    pub actual: PolicyValue,
}

/// A rule that did not run.
#[derive(Debug, Clone, PartialEq, Eq)]
pub struct SkippedRule {
    pub rule_id: String,
    pub reason: SkipReason,
}

/// Why a rule did not run.
#[derive(Debug, Clone, Copy, PartialEq, Eq, Structural)]
pub enum SkipReason {
    DeepOnlyInOverviewMode,
    UnsupportedInThisMode,
}

/// What a policy is evaluated on.
#[derive(Debug, Clone, Copy)]
pub enum PolicyInput<'a> {
    Deep(&'a AnalyzeResponse),
    Overview(&'a OverviewSummary),
}

impl<'a> PolicyInput<'a> {
    /// The analysis mode of the input.
    pub fn mode_used(&self) -> (m: AnalysisMode)
        ensures
            m == (match *self {
                PolicyInput::Deep(_) => AnalysisMode::Deep,
                PolicyInput::Overview(_) => AnalysisMode::Overview,
            }),
    {
        match self {
            PolicyInput::Deep(_) => AnalysisMode::Deep,
            PolicyInput::Overview(_) => AnalysisMode::Overview,
        }
    }
}

} // verus!
