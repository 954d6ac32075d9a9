//! Reports of a policy evaluation: plain text, JUnit XML and GitHub Actions
//! workflow commands.

use vstd::prelude::*;
use crate::analysis::AnalysisMode;
use crate::policy::eval::{comparison_label, comparison_symbol, predicate_label, predicate_name};
use crate::policy::{
    Policy, PolicyResult, PolicyRule, PolicyValue, Severity, SkipReason, SkippedRule, Violation,
    severity_level, severity_rank,
};
use crate::text::{chars_of, contains_text, dec_chars, find_text, push_chars, push_decimal, push_str, str_eq, string_from_chars};

verus! {

/// What the reports show besides the result.
pub struct PolicyRenderContext<'a> {
    /// The heap file, as displayed.
    pub heap_path: &'a str,
    /// The policy file, as displayed.
    pub policy_path: &'a str,
    pub policy: &'a Policy,
    pub result: &'a PolicyResult,
    /// The least severity that fails the check.
    pub fail_on: Severity,
}

// ---------------------------------------------------------------------------
// Labels
// ---------------------------------------------------------------------------

pub open spec fn severity_upper(s: Severity) -> Seq<char> {
    match s {
        Severity::Info => "INFO"@,
        Severity::Warning => "WARNING"@,
        Severity::Error => "ERROR"@,
        Severity::Critical => "CRITICAL"@,
    }
}

fn severity_label(s: Severity) -> (r: &'static str)
    ensures
        r@ == severity_upper(s),
{
    match s {
        Severity::Info => "INFO",
        Severity::Warning => "WARNING",
        Severity::Error => "ERROR",
        Severity::Critical => "CRITICAL",
    }
}

pub open spec fn severity_lower(s: Severity) -> Seq<char> {
    match s {
        Severity::Info => "info"@,
        Severity::Warning => "warning"@,
        Severity::Error => "error"@,
        Severity::Critical => "critical"@,
    }
}

fn severity_name(s: Severity) -> (r: &'static str)
    ensures
        r@ == severity_lower(s),
{
    match s {
        Severity::Info => "info",
        Severity::Warning => "warning",
        Severity::Error => "error",
        Severity::Critical => "critical",
    }
}

pub open spec fn mode_text(m: AnalysisMode) -> Seq<char> {
    match m {
        AnalysisMode::Auto => "auto"@,
        AnalysisMode::Deep => "deep"@,
        AnalysisMode::Overview => "overview"@,
    }
}

fn mode_label(m: AnalysisMode) -> (r: &'static str)
    ensures
        r@ == mode_text(m),
{
    match m {
        AnalysisMode::Auto => "auto",
        AnalysisMode::Deep => "deep",
        AnalysisMode::Overview => "overview",
    }
}

pub open spec fn skip_reason_text(r: SkipReason) -> Seq<char> {
    match r {
        SkipReason::DeepOnlyInOverviewMode => "deep-only predicate skipped because auto mode resolved to overview"@,
        SkipReason::UnsupportedInThisMode => "predicate is unsupported in this analysis mode"@,
    }
}

fn format_skip_reason(r: SkipReason) -> (s: &'static str)
    ensures
        s@ == skip_reason_text(r),
{
    match r {
        SkipReason::DeepOnlyInOverviewMode => "deep-only predicate skipped because auto mode resolved to overview",
        SkipReason::UnsupportedInThisMode => "predicate is unsupported in this analysis mode",
    }
}

/// A reported figure as text: texts bare, `null`, counts in decimal, flags
/// as `true` / `false`.
pub open spec fn value_text(v: PolicyValue) -> Seq<char> {
    match v {
        PolicyValue::Null => "null"@,
        PolicyValue::Bool(b) => if b { "true"@ } else { "false"@ },
        PolicyValue::Number(n) => dec_chars(n as nat),
        PolicyValue::Text(t) => t@,
    }
}

fn push_value(out: &mut Vec<char>, v: &PolicyValue)
    ensures
        final(out)@ == old(out)@ + value_text(*v),
{
    match v {
        PolicyValue::Null => push_str(out, "null"),
        PolicyValue::Bool(b) => if *b {
            push_str(out, "true")
        } else {
            push_str(out, "false")
        },
        PolicyValue::Number(n) => push_decimal(out, *n),
        PolicyValue::Text(t) => push_str(out, t.as_str()),
    }
}

// ---------------------------------------------------------------------------
// Lookups
// ---------------------------------------------------------------------------

/// The index of the first violation of a rule.
pub open spec fn violation_index(vs: Seq<Violation>, id: Seq<char>) -> Option<int>
    decreases vs.len(),
{
    if vs.len() == 0 {
        None
    } else {
        match violation_index(vs.drop_last(), id) {
            Some(k) => Some(k),
            None => if vs.last().rule_id@ == id { Some(vs.len() - 1) } else { None },
        }
    }
}

/// The index of the first skip entry of a rule.
pub open spec fn skipped_index(ss: Seq<SkippedRule>, id: Seq<char>) -> Option<int>
    decreases ss.len(),
{
    if ss.len() == 0 {
        None
    } else {
        match skipped_index(ss.drop_last(), id) {
            Some(k) => Some(k),
            None => if ss.last().rule_id@ == id { Some(ss.len() - 1) } else { None },
        }
    }
}

proof fn lemma_violation_index(vs: Seq<Violation>, id: Seq<char>)
    ensures
        match violation_index(vs, id) {
            Some(k) => 0 <= k < vs.len() && vs[k].rule_id@ == id && forall|j: int| 0 <= j < k ==> vs[j].rule_id@ != id,
            None => forall|j: int| 0 <= j < vs.len() ==> vs[j].rule_id@ != id,
        },
    decreases vs.len(),
{
    if vs.len() > 0 {
        let p = vs.drop_last();
        lemma_violation_index(p, id);
        assert forall|j: int| 0 <= j < p.len() implies p[j] == vs[j] by {}
    }
}

proof fn lemma_skipped_index(ss: Seq<SkippedRule>, id: Seq<char>)
    ensures
        match skipped_index(ss, id) {
            Some(k) => 0 <= k < ss.len() && ss[k].rule_id@ == id && forall|j: int| 0 <= j < k ==> ss[j].rule_id@ != id,
            None => forall|j: int| 0 <= j < ss.len() ==> ss[j].rule_id@ != id,
        },
    decreases ss.len(),
{
    if ss.len() > 0 {
        let p = ss.drop_last();
        lemma_skipped_index(p, id);
        assert forall|j: int| 0 <= j < p.len() implies p[j] == ss[j] by {}
    }
}

fn find_violation(vs: &Vec<Violation>, id: &str) -> (r: Option<usize>)
    ensures
        r matches Some(k) ==> k < vs@.len(),
        match violation_index(vs@, id@) {
            Some(k) => r matches Some(x) && x == k,
            None => r is None,
        },
{
    proof {
        lemma_violation_index(vs@, id@);
    }
    let mut i: usize = 0;
    while i < vs.len()
        invariant
            i <= vs@.len(),
            forall|j: int| 0 <= j < i ==> vs@[j].rule_id@ != id@,
            match violation_index(vs@, id@) {
                Some(k) => 0 <= k < vs@.len() && vs@[k].rule_id@ == id@ && forall|j: int| 0 <= j < k ==> vs@[j].rule_id@ != id@,
                None => forall|j: int| 0 <= j < vs@.len() ==> vs@[j].rule_id@ != id@,
            },
        decreases vs.len() - i,
    {
        if str_eq(vs[i].rule_id.as_str(), id) {
            return Some(i);
        }
        i = i + 1;
    }
    None
}

fn find_skipped(ss: &Vec<SkippedRule>, id: &str) -> (r: Option<usize>)
    ensures
        r matches Some(k) ==> k < ss@.len(),
        match skipped_index(ss@, id@) {
            Some(k) => r matches Some(x) && x == k,
            None => r is None,
        },
{
    proof {
        lemma_skipped_index(ss@, id@);
    }
    let mut i: usize = 0;
    while i < ss.len()
        invariant
            i <= ss@.len(),
            forall|j: int| 0 <= j < i ==> ss@[j].rule_id@ != id@,
            match skipped_index(ss@, id@) {
                Some(k) => 0 <= k < ss@.len() && ss@[k].rule_id@ == id@ && forall|j: int| 0 <= j < k ==> ss@[j].rule_id@ != id@,
                None => forall|j: int| 0 <= j < ss@.len() ==> ss@[j].rule_id@ != id@,
            },
        decreases ss.len() - i,
    {
        if str_eq(ss[i].rule_id.as_str(), id) {
            return Some(i);
        }
        i = i + 1;
    }
    None
}

// ---------------------------------------------------------------------------
// Escaping
// ---------------------------------------------------------------------------

/// The workflow-command escape of one character: `%`, CR and LF always,
/// `:` and `,` in properties.
pub open spec fn command_escape_char(c: char, property: bool) -> Seq<char> {
    if c == '%' {
        "%25"@
    } else if c == '\r' {
        "%0D"@
    } else if c == '\n' {
        "%0A"@
    } else if property && c == ':' {
        "%3A"@
    } else if property && c == ',' {
        "%2C"@
    } else {
        seq![c]
    }
}

pub open spec fn command_escaped(s: Seq<char>, property: bool) -> Seq<char>
    decreases s.len(),
{
    if s.len() == 0 {
        Seq::empty()
    } else {
        command_escaped(s.drop_last(), property) + command_escape_char(s.last(), property)
    }
}

fn push_command_escaped(out: &mut Vec<char>, s: &str, property: bool)
    ensures
        final(out)@ == old(out)@ + command_escaped(s@, property),
{
    let cs = chars_of(s);
    let mut i: usize = 0;
    while i < cs.len()
        invariant
            i <= cs@.len(),
            cs@ == s@,
            out@ == old(out)@ + command_escaped(cs@.take(i as int), property),
        decreases cs.len() - i,
    {
        let c = cs[i];
        if c == '%' {
            push_str(out, "%25");
        } else if c == '\r' {
            push_str(out, "%0D");
        } else if c == '\n' {
            push_str(out, "%0A");
        } else if property && c == ':' {
            push_str(out, "%3A");
        } else if property && c == ',' {
            push_str(out, "%2C");
        } else {
            out.push(c);
        }
        proof {
            assert(cs@.take(i + 1).drop_last() =~= cs@.take(i as int));
            assert(out@ =~= old(out)@ + command_escaped(cs@.take(i + 1), property));
        }
        i = i + 1;
    }
    proof {
        assert(cs@.take(cs@.len() as int) =~= cs@);
    }
}

/// The XML attribute escape of one character.
pub open spec fn xml_escape_char(c: char) -> Seq<char> {
    if c == '&' {
        "&amp;"@
    } else if c == '<' {
        "&lt;"@
    } else if c == '>' {
        "&gt;"@
    } else if c == '"' {
        "&quot;"@
    } else if c == '\'' {
        "&apos;"@
    } else {
        seq![c]
    }
}

pub open spec fn xml_escaped(s: Seq<char>) -> Seq<char>
    decreases s.len(),
{
    if s.len() == 0 {
        Seq::empty()
    } else {
        xml_escaped(s.drop_last()) + xml_escape_char(s.last())
    }
}

fn push_xml_escaped(out: &mut Vec<char>, cs: &Vec<char>)
    ensures
        final(out)@ == old(out)@ + xml_escaped(cs@),
{
    let mut i: usize = 0;
    while i < cs.len()
        invariant
            i <= cs@.len(),
            out@ == old(out)@ + xml_escaped(cs@.take(i as int)),
        decreases cs.len() - i,
    {
        let c = cs[i];
        if c == '&' {
            push_str(out, "&amp;");
        } else if c == '<' {
            push_str(out, "&lt;");
        } else if c == '>' {
            push_str(out, "&gt;");
        } else if c == '"' {
            push_str(out, "&quot;");
        } else if c == '\'' {
            push_str(out, "&apos;");
        } else {
            out.push(c);
        }
        proof {
            assert(cs@.take(i + 1).drop_last() =~= cs@.take(i as int));
            assert(out@ =~= old(out)@ + xml_escaped(cs@.take(i + 1)));
        }
        i = i + 1;
    }
    proof {
        assert(cs@.take(cs@.len() as int) =~= cs@);
    }
}

/// A text with every `]]>` split so that it can stand inside a CDATA
/// section, scanning left to right.
pub open spec fn cdata_body(s: Seq<char>) -> Seq<char>
    decreases s.len(),
{
    if s.len() >= 3 && s[0] == ']' && s[1] == ']' && s[2] == '>' {
        "]]]]><![CDATA[>"@ + cdata_body(s.skip(3))
    } else if s.len() > 0 {
        seq![s[0]] + cdata_body(s.skip(1))
    } else {
        Seq::empty()
    }
}

fn push_cdata(out: &mut Vec<char>, cs: &Vec<char>)
    ensures
        final(out)@ == old(out)@ + "<![CDATA["@ + cdata_body(cs@) + "]]>"@,
{
    push_str(out, "<![CDATA[");
    let ghost start = out@;
    let mut i: usize = 0;
    proof {
        assert(cs@.skip(0) =~= cs@);
    }
    while i < cs.len()
        invariant
            i <= cs@.len(),
            start + cdata_body(cs@) == out@ + cdata_body(cs@.skip(i as int)),
        decreases cs.len() - i,
    {
        let ghost rest = cs@.skip(i as int);
        if cs.len() - i > 2 && cs[i] == ']' && cs[i + 1] == ']' && cs[i + 2] == '>' {
            push_str(out, "]]]]><![CDATA[>");
            proof {
                assert(rest.skip(3) =~= cs@.skip(i + 3));
            }
            i = i + 3;
        } else {
            out.push(cs[i]);
            proof {
                assert(rest.skip(1) =~= cs@.skip(i + 1));
                assert(out@ + cdata_body(cs@.skip(i + 1)) =~= start + cdata_body(cs@));
            }
            i = i + 1;
        }
    }
    proof {
        assert(cs@.skip(cs@.len() as int) =~= Seq::<char>::empty());
        assert(out@ =~= start + cdata_body(cs@));
    }
    push_str(out, "]]>");
}


// ---------------------------------------------------------------------------
// Counts
// ---------------------------------------------------------------------------

/// Number of violations with the given severity.
pub open spec fn severity_count(vs: Seq<Violation>, s: Severity) -> nat
    decreases vs.len(),
{
    if vs.len() == 0 {
        0
    } else {
        severity_count(vs.drop_last(), s) + if vs.last().severity == s { 1nat } else { 0nat }
    }
}

fn count_severity(vs: &Vec<Violation>, s: Severity) -> (n: usize)
    ensures
        n == severity_count(vs@, s),
{
    let mut n: usize = 0;
    let mut i: usize = 0;
    while i < vs.len()
        invariant
            i <= vs@.len(),
            n == severity_count(vs@.take(i as int), s),
            n <= i,
        decreases vs.len() - i,
    {
        proof {
            assert(vs@.take(i + 1).drop_last() =~= vs@.take(i as int));
        }
        if vs[i].severity == s {
            n = n + 1;
        }
        i = i + 1;
    }
    proof {
        assert(vs@.take(vs@.len() as int) =~= vs@);
    }
    n
}

// ---------------------------------------------------------------------------
// GitHub Actions
// ---------------------------------------------------------------------------

/// The workflow command of a violation.
pub open spec fn annotation_text(s: Severity) -> Seq<char> {
    match s {
        Severity::Critical => "error"@,
        Severity::Error => "error"@,
        Severity::Warning => "warning"@,
        Severity::Info => "notice"@,
    }
}

fn annotation_level(s: Severity) -> (r: &'static str)
    ensures
        r@ == annotation_text(s),
{
    match s {
        Severity::Critical => "error",
        Severity::Error => "error",
        Severity::Warning => "warning",
        Severity::Info => "notice",
    }
}

/// The command for one rule: its first violation, else its first skip
/// entry, else nothing.
pub open spec fn github_rule_lines(policy_path: Seq<char>, result: PolicyResult, rule: PolicyRule) -> Seq<char> {
    match violation_index(result.violations@, rule.id@) {
        Some(k) => {
            let v = result.violations@[k];
            "::"@ + annotation_text(v.severity) + " file="@ + command_escaped(policy_path, true) + ",title="@
                + command_escaped(rule.id@, true) + "::"@ + command_escaped(v.message@, false) + "\n"@
        },
        None => match skipped_index(result.skipped@, rule.id@) {
            Some(k) => "::notice file="@ + command_escaped(policy_path, true) + ",title="@ + command_escaped(rule.id@, true)
                + "::"@ + command_escaped("Skipped: "@ + skip_reason_text(result.skipped@[k].reason), false) + "\n"@,
            None => Seq::empty(),
        },
    }
}

pub open spec fn github_rules(policy_path: Seq<char>, result: PolicyResult, rules: Seq<PolicyRule>) -> Seq<char>
    decreases rules.len(),
{
    if rules.len() == 0 {
        Seq::empty()
    } else {
        github_rules(policy_path, result, rules.drop_last()) + github_rule_lines(policy_path, result, rules.last())
    }
}

/// The GitHub Actions report: one command per violated or skipped rule, in
/// rule order, then a summary line.
pub open spec fn github_report(ctx: PolicyRenderContext) -> Seq<char> {
    let vs = ctx.result.violations@;
    github_rules(ctx.policy_path@, *ctx.result, ctx.policy.rules@) + "Mnemosyne ci-check: "@ + dec_chars(vs.len())
        + " violations ("@ + dec_chars(severity_count(vs, Severity::Critical)) + " critical, "@
        + dec_chars(severity_count(vs, Severity::Error)) + " error, "@ + dec_chars(severity_count(vs, Severity::Warning))
        + " warning, "@ + dec_chars(severity_count(vs, Severity::Info)) + " info), "@
        + dec_chars(ctx.result.skipped@.len()) + " skipped\n"@
}

/// Renders GitHub Actions workflow commands; the annotations name the
/// policy file but no line.
pub fn render_github_actions_report(ctx: &PolicyRenderContext) -> (out: String)
    ensures
        out@ == github_report(*ctx),
{
    let mut out: Vec<char> = Vec::new();
    let rules = &ctx.policy.rules;
    let result = ctx.result;
    let mut i: usize = 0;
    while i < rules.len()
        invariant
            i <= rules@.len(),
            rules == ctx.policy.rules,
            result == ctx.result,
            out@ == github_rules(ctx.policy_path@, *result, rules@.take(i as int)),
        decreases rules.len() - i,
    {
        let rule = &rules[i];
        let ghost before = out@;
        proof {
            assert(rules@.take(i + 1).drop_last() =~= rules@.take(i as int));
            assert(rules@.take(i + 1).last() == *rule);
        }
        match find_violation(&result.violations, rule.id.as_str()) {
            Some(k) => {
                let v = &result.violations[k];
                push_str(&mut out, "::");
                push_str(&mut out, annotation_level(v.severity));
                push_str(&mut out, " file=");
                push_command_escaped(&mut out, ctx.policy_path, true);
                push_str(&mut out, ",title=");
                push_command_escaped(&mut out, rule.id.as_str(), true);
                push_str(&mut out, "::");
                push_command_escaped(&mut out, v.message.as_str(), false);
                push_str(&mut out, "\n");
                proof {
                    assert(violation_index(result.violations@, rule.id@) == Some(k as int));
                    assert(out@ =~= before + github_rule_lines(ctx.policy_path@, *result, *rule));
                }
            },
            None => match find_skipped(&result.skipped, rule.id.as_str()) {
                Some(k) => {
                    let mut m: Vec<char> = Vec::new();
                    push_str(&mut m, "Skipped: ");
                    push_str(&mut m, format_skip_reason(result.skipped[k].reason));
                    let ms = string_from_chars(&m);
                    proof {
                        assert(ms@ =~= "Skipped: "@ + skip_reason_text(result.skipped@[k as int].reason));
                    }
                    push_str(&mut out, "::notice file=");
                    push_command_escaped(&mut out, ctx.policy_path, true);
                    push_str(&mut out, ",title=");
                    push_command_escaped(&mut out, rule.id.as_str(), true);
                    push_str(&mut out, "::");
                    push_command_escaped(&mut out, ms.as_str(), false);
                    push_str(&mut out, "\n");
                    proof {
                        assert(out@ =~= before + github_rule_lines(ctx.policy_path@, *result, *rule));
                    }
                },
                None => {
                    proof {
                        assert(out@ =~= before + github_rule_lines(ctx.policy_path@, *result, *rule));
                    }
                },
            },
        }
        proof {
            assert(out@ =~= before + github_rule_lines(ctx.policy_path@, *result, *rule));
        }
        i = i + 1;
    }
    proof {
        assert(rules@.take(rules@.len() as int) =~= rules@);
    }
    let vs = &result.violations;
    push_str(&mut out, "Mnemosyne ci-check: ");
    push_decimal(&mut out, vs.len() as u64);
    push_str(&mut out, " violations (");
    push_decimal(&mut out, count_severity(vs, Severity::Critical) as u64);
    push_str(&mut out, " critical, ");
    push_decimal(&mut out, count_severity(vs, Severity::Error) as u64);
    push_str(&mut out, " error, ");
    push_decimal(&mut out, count_severity(vs, Severity::Warning) as u64);
    push_str(&mut out, " warning, ");
    push_decimal(&mut out, count_severity(vs, Severity::Info) as u64);
    push_str(&mut out, " info), ");
    push_decimal(&mut out, result.skipped.len() as u64);
    push_str(&mut out, " skipped\n");
    proof {
        assert(out@ =~= github_report(*ctx));
    }
    string_from_chars(&out)
}


// ---------------------------------------------------------------------------
// Text
// ---------------------------------------------------------------------------

/// One violation on a line of the text report.
pub open spec fn violation_line(v: Violation) -> Seq<char> {
    "["@ + severity_upper(v.severity) + "] "@ + v.rule_id@ + ": "@ + v.message@ + " (actual="@ + value_text(v.actual)
        + ", expected "@ + comparison_label(v.comparison) + " "@ + value_text(v.expected) + ")"@
}

/// The lines of the violations with one severity, each with its
/// remediation hint when it has one.
pub open spec fn severity_group_lines(vs: Seq<Violation>, s: Severity) -> Seq<char>
    decreases vs.len(),
{
    if vs.len() == 0 {
        Seq::empty()
    } else {
        let v = vs.last();
        severity_group_lines(vs.drop_last(), s) + if v.severity == s {
            violation_line(v) + "\n"@ + match v.remediation_hint {
                Some(h) => "  remediation: "@ + h@ + "\n"@,
                None => Seq::empty(),
            }
        } else {
            Seq::empty()
        }
    }
}

/// The section of one severity, absent when no violation has it.
pub open spec fn severity_section(vs: Seq<Violation>, s: Severity) -> Seq<char> {
    if severity_count(vs, s) > 0 {
        "\n["@ + severity_upper(s) + "]\n"@ + severity_group_lines(vs, s)
    } else {
        Seq::empty()
    }
}

pub open spec fn skipped_lines(ss: Seq<SkippedRule>) -> Seq<char>
    decreases ss.len(),
{
    if ss.len() == 0 {
        Seq::empty()
    } else {
        skipped_lines(ss.drop_last()) + "- "@ + ss.last().rule_id@ + ": "@ + skip_reason_text(ss.last().reason) + "\n"@
    }
}

/// Number of evaluations that passed.
pub open spec fn passed_count(es: Seq<crate::policy::Evaluation>) -> nat
    decreases es.len(),
{
    if es.len() == 0 {
        0
    } else {
        passed_count(es.drop_last()) + if es.last().passed { 1nat } else { 0nat }
    }
}

/// Whether some violation is at least as severe as `fail_on`.
pub open spec fn fails_at(vs: Seq<Violation>, fail_on: Severity) -> bool {
    exists|i: int| 0 <= i < vs.len() && severity_rank(#[trigger] vs[i].severity) >= severity_rank(fail_on)
}

pub open spec fn policy_name_text(p: Policy) -> Seq<char> {
    match p.meta {
        Some(m) => match m.name {
            Some(n) => n@,
            None => "unnamed-policy"@,
        },
        None => "unnamed-policy"@,
    }
}

/// The first lines of the text report: the policy, the inputs and the modes.
pub open spec fn text_intro(ctx: PolicyRenderContext) -> Seq<char> {
    "Policy: "@ + policy_name_text(*ctx.policy) + "\n"@
        + "Heap: "@ + ctx.heap_path@ + "\n"@
        + "Policy file: "@ + ctx.policy_path@ + "\n"@
        + "Mode: requested="@ + mode_text(ctx.result.mode_requested) + " used="@ + mode_text(ctx.result.mode_used) + "\n"@
}

/// The totals and the description.
pub open spec fn text_totals(ctx: PolicyRenderContext) -> Seq<char> {
    "Total rules: "@ + dec_chars(ctx.policy.rules@.len()) + "\n"@
        + "Total violations: "@ + dec_chars(ctx.result.violations@.len()) + "\n"@
        + description_line(*ctx.policy)
}

/// The head of the text report.
pub open spec fn text_header(ctx: PolicyRenderContext) -> Seq<char> {
    text_intro(ctx) + text_totals(ctx)
}

pub open spec fn skipped_block(ss: Seq<SkippedRule>) -> Seq<char> {
    if ss.len() > 0 { "\nSkipped rules:\n"@ + skipped_lines(ss) } else { Seq::empty() }
}

/// The violations grouped from critical down to info.
pub open spec fn violation_sections(vs: Seq<Violation>) -> Seq<char> {
    severity_section(vs, Severity::Critical) + severity_section(vs, Severity::Error)
        + severity_section(vs, Severity::Warning) + severity_section(vs, Severity::Info)
}

/// The summary line and the verdict.
pub open spec fn text_footer(ctx: PolicyRenderContext) -> Seq<char> {
    let r = *ctx.result;
    "\nSummary: "@ + dec_chars(passed_count(r.evaluations@)) + " passed, "@ + dec_chars(r.violations@.len())
        + " violated, "@ + dec_chars(r.skipped@.len()) + " skipped\n"@
        + "RESULT: "@ + (if fails_at(r.violations@, ctx.fail_on) {
            "FAIL (fail-on="@ + severity_lower(ctx.fail_on) + ")"@
        } else {
            "PASS"@
        }) + "\n"@
}

/// The plain-text report.
pub open spec fn text_report(ctx: PolicyRenderContext) -> Seq<char> {
    text_header(ctx) + skipped_block(ctx.result.skipped@) + violation_sections(ctx.result.violations@) + text_footer(ctx)
}

fn push_violation_line(out: &mut Vec<char>, v: &Violation)
    ensures
        final(out)@ == old(out)@ + violation_line(*v),
{
    push_str(out, "[");
    push_str(out, severity_label(v.severity));
    push_str(out, "] ");
    push_str(out, v.rule_id.as_str());
    push_str(out, ": ");
    push_str(out, v.message.as_str());
    push_str(out, " (actual=");
    push_value(out, &v.actual);
    push_str(out, ", expected ");
    push_str(out, comparison_symbol(v.comparison));
    push_str(out, " ");
    push_value(out, &v.expected);
    push_str(out, ")");
    proof {
        assert(final(out)@ =~= old(out)@ + violation_line(*v));
    }
}

fn push_severity_section(out: &mut Vec<char>, vs: &Vec<Violation>, s: Severity)
    ensures
        final(out)@ == old(out)@ + severity_section(vs@, s),
{
    if count_severity(vs, s) == 0 {
        return;
    }
    push_str(out, "\n[");
    push_str(out, severity_label(s));
    push_str(out, "]\n");
    let ghost head = out@;
    let mut i: usize = 0;
    while i < vs.len()
        invariant
            i <= vs@.len(),
            out@ == head + severity_group_lines(vs@.take(i as int), s),
        decreases vs.len() - i,
    {
        let v = &vs[i];
        let ghost before = out@;
        proof {
            assert(vs@.take(i + 1).drop_last() =~= vs@.take(i as int));
            assert(vs@.take(i + 1).last() == *v);
        }
        if v.severity == s {
            push_violation_line(out, v);
            push_str(out, "\n");
            match &v.remediation_hint {
                Some(h) => {
                    push_str(out, "  remediation: ");
                    push_str(out, h.as_str());
                    push_str(out, "\n");
                },
                None => {},
            }
        }
        proof {
            assert(out@ =~= head + severity_group_lines(vs@.take(i + 1), s));
        }
        i = i + 1;
    }
    proof {
        assert(vs@.take(vs@.len() as int) =~= vs@);
        assert(out@ =~= old(out)@ + severity_section(vs@, s));
    }
}

fn count_passed(es: &Vec<crate::policy::Evaluation>) -> (n: usize)
    ensures
        n == passed_count(es@),
{
    let mut n: usize = 0;
    let mut i: usize = 0;
    while i < es.len()
        invariant
            i <= es@.len(),
            n == passed_count(es@.take(i as int)),
            n <= i,
        decreases es.len() - i,
    {
        proof {
            assert(es@.take(i + 1).drop_last() =~= es@.take(i as int));
        }
        if es[i].passed {
            n = n + 1;
        }
        i = i + 1;
    }
    proof {
        assert(es@.take(es@.len() as int) =~= es@);
    }
    n
}

fn any_at_or_above(vs: &Vec<Violation>, fail_on: Severity) -> (b: bool)
    ensures
        b == fails_at(vs@, fail_on),
{
    let level = severity_level(fail_on);
    let mut i: usize = 0;
    while i < vs.len()
        invariant
            i <= vs@.len(),
            level == severity_rank(fail_on),
            forall|j: int| 0 <= j < i ==> severity_rank(#[trigger] vs@[j].severity) < severity_rank(fail_on),
        decreases vs.len() - i,
    {
        if severity_level(vs[i].severity) >= level {
            return true;
        }
        i = i + 1;
    }
    false
}

fn push_line(out: &mut Vec<char>, label: &str, value: &str)
    ensures
        final(out)@ == old(out)@ + label@ + value@ + "\n"@,
{
    push_str(out, label);
    push_str(out, value);
    push_str(out, "\n");
    proof {
        assert(final(out)@ =~= old(out)@ + label@ + value@ + "\n"@);
    }
}

fn push_number_line(out: &mut Vec<char>, label: &str, n: usize)
    ensures
        final(out)@ == old(out)@ + label@ + dec_chars(n as nat) + "\n"@,
{
    push_str(out, label);
    push_decimal(out, n as u64);
    push_str(out, "\n");
    proof {
        assert(final(out)@ =~= old(out)@ + label@ + dec_chars(n as nat) + "\n"@);
    }
}

fn policy_name(p: &Policy) -> (r: &str)
    ensures
        r@ == policy_name_text(*p),
{
    match &p.meta {
        Some(m) => match &m.name {
            Some(n) => n.as_str(),
            None => "unnamed-policy",
        },
        None => "unnamed-policy",
    }
}

pub open spec fn description_line(p: Policy) -> Seq<char> {
    match p.meta {
        Some(m) => match m.description {
            Some(d) => "Description: "@ + d@ + "\n"@,
            None => Seq::empty(),
        },
        None => Seq::empty(),
    }
}

fn push_description(out: &mut Vec<char>, p: &Policy)
    ensures
        final(out)@ == old(out)@ + description_line(*p),
{
    match &p.meta {
        Some(m) => match &m.description {
            Some(d) => push_line(out, "Description: ", d.as_str()),
            None => {},
        },
        None => {},
    }
    proof {
        assert(final(out)@ =~= old(out)@ + description_line(*p));
    }
}

fn push_text_intro(out: &mut Vec<char>, ctx: &PolicyRenderContext)
    ensures
        final(out)@ == old(out)@ + text_intro(*ctx),
{
    push_line(out, "Policy: ", policy_name(ctx.policy));
    push_line(out, "Heap: ", ctx.heap_path);
    push_line(out, "Policy file: ", ctx.policy_path);
    push_str(out, "Mode: requested=");
    push_str(out, mode_label(ctx.result.mode_requested));
    push_line(out, " used=", mode_label(ctx.result.mode_used));
    proof {
        assert(final(out)@ =~= old(out)@ + text_intro(*ctx));
    }
}

fn push_text_totals(out: &mut Vec<char>, ctx: &PolicyRenderContext)
    ensures
        final(out)@ == old(out)@ + text_totals(*ctx),
{
    push_number_line(out, "Total rules: ", ctx.policy.rules.len());
    push_number_line(out, "Total violations: ", ctx.result.violations.len());
    push_description(out, ctx.policy);
    proof {
        assert(final(out)@ =~= old(out)@ + text_totals(*ctx));
    }
}

fn push_text_header(out: &mut Vec<char>, ctx: &PolicyRenderContext)
    ensures
        final(out)@ == old(out)@ + text_header(*ctx),
{
    push_text_intro(out, ctx);
    push_text_totals(out, ctx);
    proof {
        assert(final(out)@ =~= old(out)@ + text_header(*ctx));
    }
}

fn push_skipped_block(out: &mut Vec<char>, ss: &Vec<SkippedRule>)
    ensures
        final(out)@ == old(out)@ + skipped_block(ss@),
{
    if ss.len() == 0 {
        return;
    }
    push_str(out, "\nSkipped rules:\n");
    let ghost head = out@;
    let mut i: usize = 0;
    while i < ss.len()
        invariant
            i <= ss@.len(),
            out@ == head + skipped_lines(ss@.take(i as int)),
        decreases ss.len() - i,
    {
        proof {
            assert(ss@.take(i + 1).drop_last() =~= ss@.take(i as int));
        }
        push_str(out, "- ");
        push_str(out, ss[i].rule_id.as_str());
        push_str(out, ": ");
        push_str(out, format_skip_reason(ss[i].reason));
        push_str(out, "\n");
        proof {
            assert(out@ =~= head + skipped_lines(ss@.take(i + 1)));
        }
        i = i + 1;
    }
    proof {
        assert(ss@.take(ss@.len() as int) =~= ss@);
        assert(out@ =~= old(out)@ + skipped_block(ss@));
    }
}

fn push_text_footer(out: &mut Vec<char>, ctx: &PolicyRenderContext)
    ensures
        final(out)@ == old(out)@ + text_footer(*ctx),
{
    let result = ctx.result;
    push_str(out, "\nSummary: ");
    push_decimal(out, count_passed(&result.evaluations) as u64);
    push_str(out, " passed, ");
    push_decimal(out, result.violations.len() as u64);
    push_str(out, " violated, ");
    push_decimal(out, result.skipped.len() as u64);
    push_str(out, " skipped\n");
    push_str(out, "RESULT: ");
    if any_at_or_above(&result.violations, ctx.fail_on) {
        push_str(out, "FAIL (fail-on=");
        push_str(out, severity_name(ctx.fail_on));
        push_str(out, ")");
    } else {
        push_str(out, "PASS");
    }
    push_str(out, "\n");
    proof {
        assert(final(out)@ =~= old(out)@ + text_footer(*ctx));
    }
}

/// Renders the plain-text report: the policy, the inputs and the modes,
/// the skipped rules, the violations grouped from critical down, a summary
/// and the verdict, which fails when a violation reaches `fail_on`.
pub fn render_text_report(ctx: &PolicyRenderContext) -> (out: String)
    ensures
        out@ == text_report(*ctx),
{
    let mut out: Vec<char> = Vec::new();
    push_text_header(&mut out, ctx);
    push_skipped_block(&mut out, &ctx.result.skipped);
    let ghost mid = out@;
    push_severity_section(&mut out, &ctx.result.violations, Severity::Critical);
    push_severity_section(&mut out, &ctx.result.violations, Severity::Error);
    push_severity_section(&mut out, &ctx.result.violations, Severity::Warning);
    push_severity_section(&mut out, &ctx.result.violations, Severity::Info);
    proof {
        assert(out@ =~= mid + violation_sections(ctx.result.violations@));
    }
    push_text_footer(&mut out, ctx);
    proof {
        assert(out@ =~= text_report(*ctx));
    }
    string_from_chars(&out)
}


// ---------------------------------------------------------------------------
// JUnit
// ---------------------------------------------------------------------------


/// A violation of a deep-only rule asked to run on an overview.
pub open spec fn is_mode_mismatch(v: Violation) -> bool {
    &&& v.severity == Severity::Critical
    &&& v.actual == PolicyValue::Null
    &&& v.expected == PolicyValue::Null
    &&& contains_text(v.message@, "cannot run in explicit overview mode"@)
}

fn mode_mismatch(v: &Violation) -> (b: bool)
    ensures
        b == is_mode_mismatch(*v),
{
    let null_actual = match v.actual {
        PolicyValue::Null => true,
        _ => false,
    };
    let null_expected = match v.expected {
        PolicyValue::Null => true,
        _ => false,
    };
    v.severity == Severity::Critical && null_actual && null_expected
        && find_text(&chars_of(v.message.as_str()), &chars_of("cannot run in explicit overview mode"))
}

pub open spec fn mismatch_count(vs: Seq<Violation>) -> nat
    decreases vs.len(),
{
    if vs.len() == 0 {
        0
    } else {
        mismatch_count(vs.drop_last()) + if is_mode_mismatch(vs.last()) { 1nat } else { 0nat }
    }
}

fn count_mismatches(vs: &Vec<Violation>) -> (n: usize)
    ensures
        n == mismatch_count(vs@),
        n <= vs@.len(),
{
    let mut n: usize = 0;
    let mut i: usize = 0;
    while i < vs.len()
        invariant
            i <= vs@.len(),
            n == mismatch_count(vs@.take(i as int)),
            n <= i,
        decreases vs.len() - i,
    {
        proof {
            assert(vs@.take(i + 1).drop_last() =~= vs@.take(i as int));
        }
        if mode_mismatch(&vs[i]) {
            n = n + 1;
        }
        i = i + 1;
    }
    proof {
        assert(vs@.take(vs@.len() as int) =~= vs@);
    }
    n
}

/// The body of a failure: the figure, the threshold and the hint.
pub open spec fn detail_text(v: Violation) -> Seq<char> {
    "actual: "@ + value_text(v.actual) + "\nexpected: "@ + comparison_label(v.comparison) + " "@ + value_text(v.expected)
        + match v.remediation_hint {
            Some(h) => "\nremediation: "@ + h@,
            None => Seq::empty(),
        }
}

fn detail(v: &Violation) -> (d: Vec<char>)
    ensures
        d@ == detail_text(*v),
{
    let mut d: Vec<char> = Vec::new();
    push_str(&mut d, "actual: ");
    push_value(&mut d, &v.actual);
    push_str(&mut d, "\nexpected: ");
    push_str(&mut d, comparison_symbol(v.comparison));
    push_str(&mut d, " ");
    push_value(&mut d, &v.expected);
    match &v.remediation_hint {
        Some(h) => {
            push_str(&mut d, "\nremediation: ");
            push_str(&mut d, h.as_str());
        },
        None => {},
    }
    proof {
        assert(d@ =~= detail_text(*v));
    }
    d
}

/// The opening of a rule's test case, without its closing `>`.
pub open spec fn testcase_prefix(rule: PolicyRule) -> Seq<char> {
    "    <testcase name=\""@ + xml_escaped(rule.id@) + "\" classname=\""@
        + xml_escaped("mnemosyne.policy."@ + predicate_label(rule.predicate)) + "\""@
}

/// The test case of a skipped rule.
pub open spec fn junit_skipped_case(rule: PolicyRule, reason: SkipReason) -> Seq<char> {
    testcase_prefix(rule) + ">\n"@ + "      <skipped message=\""@ + xml_escaped(skip_reason_text(reason)) + "\"/>\n"@
        + "    </testcase>\n"@
}

/// The test case of a violated rule: an `error` for a mode mismatch, a
/// `failure` otherwise.
pub open spec fn junit_violation_case(rule: PolicyRule, v: Violation) -> Seq<char> {
    let element = if is_mode_mismatch(v) { "error"@ } else { "failure"@ };
    testcase_prefix(rule) + ">\n"@ + "      <"@ + element + " type=\""@ + xml_escaped(severity_lower(v.severity))
        + "\" message=\""@ + xml_escaped(v.message@) + "\">"@ + "<![CDATA["@ + cdata_body(detail_text(v)) + "]]>"@ + "</"@
        + element + ">\n"@ + "    </testcase>\n"@
}

/// The test case of a rule: skipped if it was skipped, else violated if
/// it was violated, else passed.
pub open spec fn junit_case(result: PolicyResult, rule: PolicyRule) -> Seq<char> {
    match skipped_index(result.skipped@, rule.id@) {
        Some(k) => junit_skipped_case(rule, result.skipped@[k].reason),
        None => match violation_index(result.violations@, rule.id@) {
            Some(k) => junit_violation_case(rule, result.violations@[k]),
            None => testcase_prefix(rule) + " />\n"@,
        },
    }
}

pub open spec fn junit_cases(result: PolicyResult, rules: Seq<PolicyRule>) -> Seq<char>
    decreases rules.len(),
{
    if rules.len() == 0 {
        Seq::empty()
    } else {
        junit_cases(result, rules.drop_last()) + junit_case(result, rules.last())
    }
}

/// The JUnit report: one test case per rule; mode mismatches count as
/// errors, other violations as failures.
pub open spec fn junit_report(ctx: PolicyRenderContext) -> Seq<char> {
    let r = *ctx.result;
    let vs = r.violations@;
    "<testsuites>\n"@ + "  <testsuite name=\"mnemosyne-ci-check\" tests=\""@ + dec_chars(ctx.policy.rules@.len())
        + "\" failures=\""@ + dec_chars((vs.len() - mismatch_count(vs)) as nat) + "\" errors=\""@
        + dec_chars(mismatch_count(vs)) + "\" skipped=\""@ + dec_chars(r.skipped@.len()) + "\">\n"@
        + junit_cases(r, ctx.policy.rules@) + "  </testsuite>\n"@ + "</testsuites>\n"@
}

fn push_testcase_prefix(out: &mut Vec<char>, rule: &PolicyRule)
    ensures
        final(out)@ == old(out)@ + testcase_prefix(*rule),
{
    push_str(out, "    <testcase name=\"");
    push_xml_escaped(out, &chars_of(rule.id.as_str()));
    push_str(out, "\" classname=\"");
    let mut classname: Vec<char> = Vec::new();
    push_str(&mut classname, "mnemosyne.policy.");
    push_str(&mut classname, predicate_name(rule.predicate));
    push_xml_escaped(out, &classname);
    push_str(out, "\"");
    proof {
        assert(final(out)@ =~= old(out)@ + testcase_prefix(*rule));
    }
}

fn push_junit_violation(out: &mut Vec<char>, rule: &PolicyRule, v: &Violation)
    ensures
        final(out)@ == old(out)@ + junit_violation_case(*rule, *v),
{
    let element = if mode_mismatch(v) { "error" } else { "failure" };
    push_testcase_prefix(out, rule);
    push_str(out, ">\n");
    push_str(out, "      <");
    push_str(out, element);
    push_str(out, " type=\"");
    push_xml_escaped(out, &chars_of(severity_name(v.severity)));
    push_str(out, "\" message=\"");
    push_xml_escaped(out, &chars_of(v.message.as_str()));
    push_str(out, "\">");
    push_cdata(out, &detail(v));
    push_str(out, "</");
    push_str(out, element);
    push_str(out, ">\n");
    push_str(out, "    </testcase>\n");
    proof {
        assert(final(out)@ =~= old(out)@ + junit_violation_case(*rule, *v));
    }
}

fn push_junit_skipped(out: &mut Vec<char>, rule: &PolicyRule, reason: SkipReason)
    ensures
        final(out)@ == old(out)@ + junit_skipped_case(*rule, reason),
{
    push_testcase_prefix(out, rule);
    push_str(out, ">\n");
    push_str(out, "      <skipped message=\"");
    push_xml_escaped(out, &chars_of(format_skip_reason(reason)));
    push_str(out, "\"/>\n");
    push_str(out, "    </testcase>\n");
    proof {
        assert(final(out)@ =~= old(out)@ + junit_skipped_case(*rule, reason));
    }
}

fn push_junit_case(out: &mut Vec<char>, result: &PolicyResult, rule: &PolicyRule)
    ensures
        final(out)@ == old(out)@ + junit_case(*result, *rule),
{
    match find_skipped(&result.skipped, rule.id.as_str()) {
        Some(k) => {
            push_junit_skipped(out, rule, result.skipped[k].reason);
        },
        None => match find_violation(&result.violations, rule.id.as_str()) {
            Some(k) => {
                push_junit_violation(out, rule, &result.violations[k]);
            },
            None => {
                push_testcase_prefix(out, rule);
                push_str(out, " />\n");
                proof {
                    assert(final(out)@ =~= old(out)@ + testcase_prefix(*rule) + " />\n"@);
                }
            },
        },
    }
}

/// Renders the JUnit XML report.
pub fn render_junit_report(ctx: &PolicyRenderContext) -> (out: String)
    ensures
        out@ == junit_report(*ctx),
{
    let result = ctx.result;
    let rules = &ctx.policy.rules;
    let mismatches = count_mismatches(&result.violations);
    let mut out: Vec<char> = Vec::new();
    push_str(&mut out, "<testsuites>\n");
    push_str(&mut out, "  <testsuite name=\"mnemosyne-ci-check\" tests=\"");
    push_decimal(&mut out, rules.len() as u64);
    push_str(&mut out, "\" failures=\"");
    push_decimal(&mut out, (result.violations.len() - mismatches) as u64);
    push_str(&mut out, "\" errors=\"");
    push_decimal(&mut out, mismatches as u64);
    push_str(&mut out, "\" skipped=\"");
    push_decimal(&mut out, result.skipped.len() as u64);
    push_str(&mut out, "\">\n");
    let ghost head = out@;
    let mut i: usize = 0;
    while i < rules.len()
        invariant
            i <= rules@.len(),
            out@ == head + junit_cases(*result, rules@.take(i as int)),
        decreases rules.len() - i,
    {
        proof {
            assert(rules@.take(i + 1).drop_last() =~= rules@.take(i as int));
        }
        push_junit_case(&mut out, result, &rules[i]);
        proof {
            assert(out@ =~= head + junit_cases(*result, rules@.take(i + 1)));
        }
        i = i + 1;
    }
    proof {
        assert(rules@.take(rules@.len() as int) =~= rules@);
    }
    push_str(&mut out, "  </testsuite>\n");
    push_str(&mut out, "</testsuites>\n");
    proof {
        assert(out@ =~= junit_report(*ctx));
    }
    string_from_chars(&out)
}

} // verus!
