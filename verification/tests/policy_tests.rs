use mnemosyne_core::analysis::{AnalysisMode, AnalyzeResponse, ProvenanceKind, ProvenanceMarker};
use mnemosyne_core::errors::CoreError;
use mnemosyne_core::heap::{ClassStat, HeapSummary, RecordStat};
use mnemosyne_core::hprof::overview::{
    GcRootCounts, GcRootKind, OverviewClassStat, OverviewClassStats, OverviewOptions,
    OverviewSummary,
};
use mnemosyne_core::policy::eval::evaluate;
use mnemosyne_core::policy::render::{
    render_github_actions_report, render_junit_report, render_text_report, PolicyRenderContext,
};
use mnemosyne_core::policy::{
    Comparison, Evaluation, ModeRequirement, Policy, PolicyDefaults, PolicyInput, PolicyMeta,
    PolicyResult, PolicyRule, PolicyValue, Predicate, RawPolicy, RawPolicyRule, Severity,
    SkipReason, SkippedRule, Violation,
};

fn policy_with_rule(rule: PolicyRule) -> Policy {
    Policy {
        meta: None,
        defaults: PolicyDefaults::default(),
        rules: vec![rule],
    }
}

fn numeric_rule(id: &str, predicate: Predicate, comparison: Comparison, threshold: u64) -> PolicyRule {
    PolicyRule {
        id: id.to_string(),
        predicate,
        comparison,
        threshold,
        severity: Severity::Error,
        remediation_hint: None,
        mode_requirement: ModeRequirement::Any,
        class: None,
        class_pattern: None,
        kind: None,
        severity_filter: None,
        scope: None,
    }
}

fn hash_class_id(name: &str) -> u64 {
    name.as_bytes().iter().fold(0_u64, |acc, byte| {
        acc.wrapping_mul(131).wrapping_add(u64::from(*byte))
    })
}

fn overview_class_stat(name: &str, instances: u64, bytes: u64) -> OverviewClassStat {
    OverviewClassStat {
        class_id: hash_class_id(name),
        class_name: name.to_string(),
        instance_count: instances,
        approx_shallow_bytes: bytes,
    }
}

fn overview_summary(
    total_size_bytes: u64,
    total_instances: u64,
    loaded_class_count: u64,
    class_entries: Vec<OverviewClassStat>,
) -> OverviewSummary {
    OverviewSummary {
        heap_path: "heap.hprof".into(),
        total_bytes_processed: total_size_bytes,
        total_size_bytes,
        total_record_count: 1,
        total_instances,
        loaded_class_count,
        class_stats: OverviewClassStats {
            entries: class_entries,
            truncated: false,
        },
        top_instances: Vec::new(),
        gc_root_counts: GcRootCounts::new(),
        thread_frames: Vec::new(),
        truncated: false,
        options: OverviewOptions::default(),
        provenance: Vec::new(),
    }
}

fn class_stat(name: &str, instances: u64, bytes: u64) -> ClassStat {
    ClassStat {
        name: name.to_string(),
        instances,
        total_size_bytes: bytes,
    }
}

fn deep_response(
    total_size_bytes: u64,
    total_objects: u64,
    classes: Vec<ClassStat>,
    provenance: Vec<ProvenanceMarker>,
) -> AnalyzeResponse {
    AnalyzeResponse {
        mode: AnalysisMode::Deep,
        summary: HeapSummary {
            heap_path: "heap.hprof".into(),
            total_objects,
            total_size_bytes,
            classes,
            header: None,
            total_records: 1,
            record_stats: vec![RecordStat {
                tag: 0x21,
                name: "INSTANCE_DUMP".into(),
                count: 1,
                bytes: total_size_bytes,
            }],
        },
        provenance,
    }
}

#[test]
fn evaluate_total_bytes_pass_when_below_threshold() {
    let overview = overview_summary(1024 * 1024, 10, 3, Vec::new());
    let policy = policy_with_rule(numeric_rule(
        "total-heap-budget",
        Predicate::TotalBytes,
        Comparison::Lt,
        2 * 1024 * 1024,
    ));

    let result = evaluate(&policy, &PolicyInput::Overview(&overview), AnalysisMode::Overview);

    assert!(result.violations.is_empty());
    assert_eq!(result.evaluations.len(), 1);
    assert!(result.evaluations[0].passed);
    assert_eq!(result.evaluations[0].actual, PolicyValue::Number(1024 * 1024_u64));
}

#[test]
fn evaluate_total_bytes_fail_when_above_threshold() {
    let overview = overview_summary(5 * 1024 * 1024, 10, 3, Vec::new());
    let policy = policy_with_rule(numeric_rule(
        "total-heap-budget",
        Predicate::TotalBytes,
        Comparison::Lt,
        2 * 1024 * 1024,
    ));

    let result = evaluate(&policy, &PolicyInput::Overview(&overview), AnalysisMode::Overview);

    assert_eq!(result.evaluations.len(), 1);
    assert!(!result.evaluations[0].passed);
    assert_eq!(result.violations.len(), 1);
    assert_eq!(result.violations[0].rule_id, "total-heap-budget");
    assert_eq!(result.violations[0].predicate, "total_bytes");
    assert_eq!(result.violations[0].actual, PolicyValue::Number(5 * 1024 * 1024_u64));
    assert_eq!(result.violations[0].expected, PolicyValue::Number(2 * 1024 * 1024_u64));
    assert_eq!(result.violations[0].severity, Severity::Error);
    assert_eq!(
        result.violations[0].message,
        "expected total_bytes < 2097152, got 5242880"
    );
}

#[test]
fn evaluate_total_instances_overview() {
    let overview = overview_summary(1024, 42, 3, Vec::new());
    let policy = policy_with_rule(numeric_rule(
        "instance-count-budget",
        Predicate::TotalInstances,
        Comparison::Eq,
        42,
    ));

    let result = evaluate(&policy, &PolicyInput::Overview(&overview), AnalysisMode::Overview);

    assert!(result.violations.is_empty());
    assert_eq!(result.evaluations[0].actual, PolicyValue::Number(42_u64));
}

#[test]
fn evaluate_class_instances_pattern_aggregates() {
    let overview = overview_summary(
        4096,
        16,
        4,
        vec![
            overview_class_stat("java.util.HashMap", 3, 300),
            overview_class_stat("java.util.HashMap$Node", 4, 120),
            overview_class_stat("java.lang.String", 9, 500),
        ],
    );
    let mut rule = numeric_rule("hashmap-instance-cap", Predicate::ClassInstances, Comparison::Eq, 7);
    rule.class_pattern = Some("^java\\.util\\.HashMap.*".into());
    let policy = policy_with_rule(rule);

    let result = evaluate(&policy, &PolicyInput::Overview(&overview), AnalysisMode::Overview);

    assert!(result.violations.is_empty());
    assert_eq!(result.evaluations[0].actual, PolicyValue::Number(7_u64));
}

#[test]
fn evaluate_class_bytes_exact_name() {
    let overview = overview_summary(
        4096,
        16,
        4,
        vec![
            overview_class_stat("java.lang.String", 8, 1024),
            overview_class_stat("byte[]", 4, 512),
        ],
    );
    let mut rule = numeric_rule("string-bytes-cap", Predicate::ClassBytes, Comparison::Eq, 1024);
    rule.class = Some("java.lang.String".into());
    let policy = policy_with_rule(rule);

    let result = evaluate(&policy, &PolicyInput::Overview(&overview), AnalysisMode::Overview);

    assert!(result.violations.is_empty());
    assert_eq!(result.evaluations[0].actual, PolicyValue::Number(1024_u64));
}

#[test]
fn evaluate_loaded_class_count() {
    let overview = overview_summary(4096, 16, 12, Vec::new());
    let policy = policy_with_rule(numeric_rule(
        "loaded-class-ceiling",
        Predicate::LoadedClassCount,
        Comparison::Eq,
        12,
    ));

    let result = evaluate(&policy, &PolicyInput::Overview(&overview), AnalysisMode::Overview);

    assert!(result.violations.is_empty());
    assert_eq!(result.evaluations[0].actual, PolicyValue::Number(12_u64));
}

#[test]
fn evaluate_gc_root_count_jni_global() {
    let mut overview = overview_summary(4096, 16, 12, Vec::new());
    overview.gc_root_counts.increment(GcRootKind::JniGlobal);
    overview.gc_root_counts.increment(GcRootKind::JniGlobal);
    overview.gc_root_counts.increment(GcRootKind::JniGlobal);
    let mut rule = numeric_rule("jni-global-roots", Predicate::GcRootCount, Comparison::Eq, 3);
    rule.kind = Some("jni_global".into());
    let policy = policy_with_rule(rule);

    let result = evaluate(&policy, &PolicyInput::Overview(&overview), AnalysisMode::Overview);

    assert!(result.violations.is_empty());
    assert_eq!(result.evaluations[0].actual, PolicyValue::Number(3_u64));
}

#[test]
fn evaluate_provenance_must_not_contain_synthetic_passes_when_absent() {
    let overview = overview_summary(4096, 16, 12, Vec::new());
    let mut rule = numeric_rule(
        "no-synthetic-provenance",
        Predicate::ProvenanceMustNotContain,
        Comparison::Eq,
        0,
    );
    rule.kind = Some("synthetic".into());
    let policy = policy_with_rule(rule);

    let result = evaluate(&policy, &PolicyInput::Overview(&overview), AnalysisMode::Overview);

    assert!(result.violations.is_empty());
    assert!(result.evaluations[0].passed);
    assert_eq!(result.evaluations[0].actual, PolicyValue::Bool(false));
}

#[test]
fn evaluate_provenance_must_not_contain_synthetic_fails_when_present() {
    let mut overview = overview_summary(4096, 16, 12, Vec::new());
    overview
        .provenance
        .push(ProvenanceMarker::bare(ProvenanceKind::Synthetic));
    let mut rule = numeric_rule(
        "no-synthetic-provenance",
        Predicate::ProvenanceMustNotContain,
        Comparison::Eq,
        0,
    );
    rule.kind = Some("synthetic".into());
    let policy = policy_with_rule(rule);

    let result = evaluate(&policy, &PolicyInput::Overview(&overview), AnalysisMode::Overview);

    assert_eq!(result.violations.len(), 1);
    assert_eq!(result.violations[0].predicate, "provenance_must_not_contain");
    assert_eq!(result.violations[0].actual, PolicyValue::Bool(true));
    assert_eq!(result.violations[0].expected, PolicyValue::Text("synthetic".to_string()));
}

#[test]
fn evaluate_deep_only_predicate_skipped_in_auto_resolved_overview() {
    let overview = overview_summary(4096, 16, 12, Vec::new());
    let mut rule = numeric_rule("no-critical-leaks", Predicate::LeakCount, Comparison::Eq, 0);
    rule.mode_requirement = ModeRequirement::DeepOnly;
    let policy = policy_with_rule(rule);

    let result = evaluate(&policy, &PolicyInput::Overview(&overview), AnalysisMode::Auto);

    assert!(result.violations.is_empty());
    assert_eq!(result.skipped.len(), 1);
    assert_eq!(result.skipped[0].rule_id, "no-critical-leaks");
    assert_eq!(result.skipped[0].reason, SkipReason::DeepOnlyInOverviewMode);
}

#[test]
fn evaluate_deep_only_predicate_violation_in_explicit_overview_mode() {
    let overview = overview_summary(4096, 16, 12, Vec::new());
    let mut rule = numeric_rule("no-critical-leaks", Predicate::LeakCount, Comparison::Eq, 0);
    rule.mode_requirement = ModeRequirement::DeepOnly;
    let policy = policy_with_rule(rule);

    let result = evaluate(&policy, &PolicyInput::Overview(&overview), AnalysisMode::Overview);

    assert_eq!(result.violations.len(), 1);
    assert_eq!(result.violations[0].severity, Severity::Critical);
    assert_eq!(
        result.violations[0].message,
        "deep-only predicate `no-critical-leaks` cannot run in explicit overview mode"
    );
}

#[test]
fn evaluate_severity_levels_propagate_into_violations() {
    let overview = overview_summary(5 * 1024 * 1024, 16, 12, Vec::new());
    let mut rule = numeric_rule("total-heap-budget", Predicate::TotalBytes, Comparison::Lt, 2 * 1024 * 1024);
    rule.severity = Severity::Warning;
    let policy = policy_with_rule(rule);

    let result = evaluate(&policy, &PolicyInput::Overview(&overview), AnalysisMode::Overview);

    assert_eq!(result.violations.len(), 1);
    assert_eq!(result.violations[0].severity, Severity::Warning);
}

#[test]
fn evaluate_handles_deep_input_for_overview_compatible_predicates() {
    let response = deep_response(4096, 128, vec![class_stat("byte[]", 4, 2048)], Vec::new());
    let policy = policy_with_rule(numeric_rule("total-heap-budget", Predicate::TotalBytes, Comparison::Eq, 4096));

    let result = evaluate(&policy, &PolicyInput::Deep(&response), AnalysisMode::Deep);

    assert!(result.violations.is_empty());
    assert_eq!(result.mode_used, AnalysisMode::Deep);
    assert_eq!(result.evaluations[0].actual, PolicyValue::Number(4096_u64));
}

#[test]
fn unsupported_predicates_and_bad_kinds_are_skipped() {
    let overview = overview_summary(4096, 16, 12, Vec::new());
    let mut gc = numeric_rule("gc", Predicate::GcRootCount, Comparison::Eq, 0);
    gc.kind = Some("  Thread-Object ".into());
    let mut bad = numeric_rule("bad-kind", Predicate::GcRootCount, Comparison::Eq, 0);
    bad.kind = Some("nonsense".into());
    let leak = numeric_rule("leak", Predicate::LeakCount, Comparison::Eq, 0);
    let mut bad_pattern = numeric_rule("pattern", Predicate::ClassBytes, Comparison::Eq, 0);
    bad_pattern.class_pattern = Some("(".into());
    let policy = Policy {
        meta: None,
        defaults: PolicyDefaults::default(),
        rules: vec![gc, bad, leak, bad_pattern],
    };

    let result = evaluate(&policy, &PolicyInput::Overview(&overview), AnalysisMode::Overview);

    assert_eq!(result.evaluations.len(), 1);
    assert_eq!(result.evaluations[0].rule_id, "gc");
    assert_eq!(result.evaluations[0].actual, PolicyValue::Number(0));
    assert_eq!(result.skipped.len(), 3);
    assert!(result
        .skipped
        .iter()
        .all(|s| s.reason == SkipReason::UnsupportedInThisMode));

    let response = deep_response(1, 1, Vec::new(), Vec::new());
    let mut deep_gc = numeric_rule("gc", Predicate::GcRootCount, Comparison::Eq, 0);
    deep_gc.kind = Some("jni_global".into());
    let result = evaluate(&policy_with_rule(deep_gc), &PolicyInput::Deep(&response), AnalysisMode::Deep);
    assert_eq!(result.skipped.len(), 1);
}

fn raw_rule(id: &str) -> RawPolicyRule {
    RawPolicyRule {
        id: id.to_string(),
        predicate: Predicate::TotalBytes,
        comparison: Comparison::Lte,
        threshold: 1024,
        severity: None,
        remediation_hint: None,
        mode_requirement: None,
        class: None,
        class_pattern: None,
        kind: None,
        severity_filter: None,
        scope: None,
    }
}

#[test]
fn raw_policies_take_defaults_and_reject_faulty_rules() {
    let mut explicit = raw_rule("b");
    explicit.severity = Some(Severity::Info);
    explicit.mode_requirement = Some(ModeRequirement::DeepOnly);
    let raw = RawPolicy {
        meta: Some(PolicyMeta { name: Some("p".into()), description: None, version: None }),
        defaults: PolicyDefaults { severity: Severity::Warning },
        rules: vec![raw_rule("a"), explicit],
    };
    let policy = Policy::from_raw(raw).expect("valid policy");
    assert_eq!(policy.rules[0].severity, Severity::Warning);
    assert_eq!(policy.rules[0].mode_requirement, ModeRequirement::Any);
    assert_eq!(policy.rules[1].severity, Severity::Info);
    assert_eq!(policy.rules[1].mode_requirement, ModeRequirement::DeepOnly);

    let dup = RawPolicy {
        meta: None,
        defaults: PolicyDefaults::default(),
        rules: vec![raw_rule("a"), raw_rule("a")],
    };
    match Policy::from_raw(dup) {
        Err(CoreError::ConfigError { detail, suggestion }) => {
            assert_eq!(detail, "duplicate policy rule id 'a'");
            assert_eq!(suggestion.as_deref(), Some("Ensure every [[rule]].id is unique."));
        }
        other => panic!("unexpected {other:?}"),
    }

    let mut both = raw_rule("c");
    both.class = Some("x".into());
    both.class_pattern = Some("y".into());
    let err = Policy::from_raw(RawPolicy { meta: None, defaults: PolicyDefaults::default(), rules: vec![both] })
        .expect_err("both class fields");
    assert!(matches!(err, CoreError::ConfigError { ref detail, .. } if detail == "rule 'c' cannot set both 'class' and 'class_pattern'"));

    let mut bad = raw_rule("d");
    bad.class_pattern = Some("[".into());
    let err = Policy::from_raw(RawPolicy { meta: None, defaults: PolicyDefaults::default(), rules: vec![bad] })
        .expect_err("bad regex");
    assert!(matches!(err, CoreError::ConfigError { ref detail, .. } if detail.starts_with("invalid class_pattern regex for rule 'd': ")));
}

fn rule(id: &str, predicate: Predicate) -> PolicyRule {
    PolicyRule {
        id: id.to_string(),
        predicate,
        comparison: Comparison::Lte,
        threshold: 10,
        severity: Severity::Error,
        remediation_hint: None,
        mode_requirement: ModeRequirement::Any,
        class: None,
        class_pattern: None,
        kind: None,
        severity_filter: None,
        scope: None,
    }
}

fn policy(rules: Vec<PolicyRule>) -> Policy {
    Policy {
        meta: None,
        defaults: PolicyDefaults::default(),
        rules,
    }
}

fn result(violations: Vec<Violation>, skipped: Vec<SkippedRule>, evaluations: Vec<Evaluation>) -> PolicyResult {
    PolicyResult {
        mode_used: AnalysisMode::Overview,
        mode_requested: AnalysisMode::Overview,
        violations,
        evaluations,
        skipped,
    }
}

fn evaluation(rule_id: &str, passed: bool, actual: PolicyValue) -> Evaluation {
    Evaluation {
        rule_id: rule_id.to_string(),
        passed,
        actual,
    }
}

fn threshold_violation(
    rule_id: &str,
    predicate: &str,
    severity: Severity,
    message: &str,
    remediation_hint: Option<&str>,
) -> Violation {
    Violation {
        rule_id: rule_id.to_string(),
        predicate: predicate.to_string(),
        severity,
        message: message.to_string(),
        actual: PolicyValue::Number(42),
        expected: PolicyValue::Number(10),
        comparison: Comparison::Lte,
        remediation_hint: remediation_hint.map(str::to_string),
    }
}

fn mode_mismatch_violation(rule_id: &str, predicate: &str, remediation_hint: Option<&str>) -> Violation {
    Violation {
        rule_id: rule_id.to_string(),
        predicate: predicate.to_string(),
        severity: Severity::Critical,
        message: format!("deep-only predicate `{rule_id}` cannot run in explicit overview mode"),
        actual: PolicyValue::Null,
        expected: PolicyValue::Null,
        comparison: Comparison::Eq,
        remediation_hint: remediation_hint.map(str::to_string),
    }
}

fn skipped(rule_id: &str, reason: SkipReason) -> SkippedRule {
    SkippedRule {
        rule_id: rule_id.to_string(),
        reason,
    }
}

fn context<'a>(policy: &'a Policy, result: &'a PolicyResult) -> PolicyRenderContext<'a> {
    PolicyRenderContext {
        heap_path: "heap.hprof",
        policy_path: "policy.toml",
        policy,
        result,
        fail_on: Severity::Error,
    }
}

fn render(policy: &Policy, result: &PolicyResult) -> String {
    render_junit_report(&context(policy, result))
}

fn render_gh(policy: &Policy, result: &PolicyResult) -> String {
    render_github_actions_report(&context(policy, result))
}

#[test]
fn junit_empty_result_emits_well_formed_xml() {
    let policy = policy(Vec::new());
    let result = result(Vec::new(), Vec::new(), Vec::new());

    let rendered = render(&policy, &result);

    assert_eq!(
        rendered,
        "<testsuites>\n  <testsuite name=\"mnemosyne-ci-check\" tests=\"0\" failures=\"0\" errors=\"0\" skipped=\"0\">\n  </testsuite>\n</testsuites>\n"
    );
}

#[test]
fn junit_violation_renders_failure_element() {
    let policy = policy(vec![rule("heap-budget", Predicate::TotalBytes)]);
    let result = result(
        vec![threshold_violation("heap-budget", "total_bytes", Severity::Warning, "heap budget exceeded", None)],
        Vec::new(),
        vec![evaluation("heap-budget", false, PolicyValue::Number(42))],
    );

    let rendered = render(&policy, &result);

    assert!(rendered.contains("<failure type=\"warning\" message=\"heap budget exceeded\">"));
    assert!(!rendered.contains("<error type="));
}

#[test]
fn junit_skipped_renders_skipped_element() {
    let policy = policy(vec![rule("deep-rule", Predicate::LeakCount)]);
    let result = result(
        Vec::new(),
        vec![skipped("deep-rule", SkipReason::DeepOnlyInOverviewMode)],
        Vec::new(),
    );

    let rendered = render(&policy, &result);

    assert!(rendered.contains(
        "<skipped message=\"deep-only predicate skipped because auto mode resolved to overview\"/>"
    ));
}

#[test]
fn junit_mode_mismatch_renders_error_not_failure() {
    let policy = policy(vec![rule("mode-mismatch", Predicate::RetainedSize)]);
    let result = result(
        vec![mode_mismatch_violation("mode-mismatch", "retained_size", Some("Use --mode deep"))],
        Vec::new(),
        Vec::new(),
    );

    let rendered = render(&policy, &result);

    assert!(rendered.contains("<error type=\"critical\""), "{rendered}");
    assert!(!rendered.contains("<failure type=\"critical\""), "{rendered}");
}

#[test]
fn junit_xml_escaping_for_special_chars() {
    let policy = policy(vec![rule("heap-budget", Predicate::TotalBytes)]);
    let result = result(
        vec![threshold_violation(
            "heap-budget",
            "total_bytes",
            Severity::Error,
            "bad < heap & \"quote\" 'apos' > zero",
            None,
        )],
        Vec::new(),
        vec![evaluation("heap-budget", false, PolicyValue::Number(42))],
    );

    let rendered = render(&policy, &result);

    assert!(rendered.contains(
        "message=\"bad &lt; heap &amp; &quot;quote&quot; &apos;apos&apos; &gt; zero\""
    ));
}

#[test]
fn junit_snapshot_full_result() {
    let policy = policy(vec![
        rule("pass-rule", Predicate::TotalInstances),
        rule("fail-rule", Predicate::TotalBytes),
        rule("skip-rule", Predicate::LeakCount),
        rule("mode-mismatch", Predicate::RetainedSize),
    ]);
    let result = result(
        vec![
            threshold_violation(
                "fail-rule",
                "total_bytes",
                Severity::Error,
                "heap budget exceeded",
                Some("Reduce retained roots"),
            ),
            mode_mismatch_violation("mode-mismatch", "retained_size", Some("Use --mode deep")),
        ],
        vec![skipped("skip-rule", SkipReason::DeepOnlyInOverviewMode)],
        vec![
            evaluation("pass-rule", true, PolicyValue::Number(5)),
            evaluation("fail-rule", false, PolicyValue::Number(42)),
        ],
    );

    let rendered = render(&policy, &result);

    assert_eq!(
        rendered,
        "<testsuites>\n  <testsuite name=\"mnemosyne-ci-check\" tests=\"4\" failures=\"1\" errors=\"1\" skipped=\"1\">\n    <testcase name=\"pass-rule\" classname=\"mnemosyne.policy.total_instances\" />\n    <testcase name=\"fail-rule\" classname=\"mnemosyne.policy.total_bytes\">\n      <failure type=\"error\" message=\"heap budget exceeded\"><![CDATA[actual: 42\nexpected: <= 10\nremediation: Reduce retained roots]]></failure>\n    </testcase>\n    <testcase name=\"skip-rule\" classname=\"mnemosyne.policy.leak_count\">\n      <skipped message=\"deep-only predicate skipped because auto mode resolved to overview\"/>\n    </testcase>\n    <testcase name=\"mode-mismatch\" classname=\"mnemosyne.policy.retained_size\">\n      <error type=\"critical\" message=\"deep-only predicate `mode-mismatch` cannot run in explicit overview mode\"><![CDATA[actual: null\nexpected: == null\nremediation: Use --mode deep]]></error>\n    </testcase>\n  </testsuite>\n</testsuites>\n"
    );
}

#[test]
fn junit_cdata_terminators_are_split() {
    let policy = policy(vec![rule("r", Predicate::TotalBytes)]);
    let result = result(
        vec![threshold_violation("r", "total_bytes", Severity::Error, "m", Some("a]]>b"))],
        Vec::new(),
        Vec::new(),
    );
    let rendered = render(&policy, &result);
    assert!(rendered.contains("remediation: a]]]]><![CDATA[>b]]>"), "{rendered}");
}

fn gh_violation(rule_id: &str, severity: Severity, message: &str) -> Violation {
    Violation {
        rule_id: rule_id.to_string(),
        predicate: "total_bytes".to_string(),
        severity,
        message: message.to_string(),
        actual: PolicyValue::Number(42),
        expected: PolicyValue::Number(10),
        comparison: Comparison::Lte,
        remediation_hint: None,
    }
}

#[test]
fn gh_actions_violation_emits_error_command() {
    let policy = policy(vec![rule("heap-budget", Predicate::TotalBytes)]);
    let result = result(vec![gh_violation("heap-budget", Severity::Critical, "heap budget exceeded")], Vec::new(), Vec::new());

    let rendered = render_gh(&policy, &result);
    let first_line = rendered.lines().next().unwrap();

    assert_eq!(first_line, "::error file=policy.toml,title=heap-budget::heap budget exceeded");
}

#[test]
fn gh_actions_warning_severity_uses_warning_command() {
    let policy = policy(vec![rule("heap-budget", Predicate::TotalBytes)]);
    let result = result(vec![gh_violation("heap-budget", Severity::Warning, "warning threshold crossed")], Vec::new(), Vec::new());

    let rendered = render_gh(&policy, &result);

    assert!(rendered.starts_with("::warning file=policy.toml,title=heap-budget::warning threshold crossed"));
}

#[test]
fn gh_actions_info_severity_uses_notice_command() {
    let policy = policy(vec![rule("heap-budget", Predicate::TotalBytes)]);
    let result = result(vec![gh_violation("heap-budget", Severity::Info, "info threshold crossed")], Vec::new(), Vec::new());

    let rendered = render_gh(&policy, &result);

    assert!(rendered.starts_with("::notice file=policy.toml,title=heap-budget::info threshold crossed"));
}

#[test]
fn gh_actions_skipped_emits_notice_with_skipped_prefix() {
    let policy = policy(vec![rule("deep-rule", Predicate::LeakCount)]);
    let result = result(Vec::new(), vec![skipped("deep-rule", SkipReason::DeepOnlyInOverviewMode)], Vec::new());

    let rendered = render_gh(&policy, &result);

    assert!(rendered.starts_with(
        "::notice file=policy.toml,title=deep-rule::Skipped: deep-only predicate skipped because auto mode resolved to overview"
    ));
}

#[test]
fn gh_actions_summary_line_counts_by_severity() {
    let policy = policy(vec![
        rule("critical-rule", Predicate::TotalBytes),
        rule("error-rule", Predicate::TotalBytes),
        rule("warning-rule", Predicate::TotalBytes),
        rule("info-rule", Predicate::TotalBytes),
        rule("skip-rule", Predicate::LeakCount),
    ]);
    let result = result(
        vec![
            gh_violation("critical-rule", Severity::Critical, "critical"),
            gh_violation("error-rule", Severity::Error, "error"),
            gh_violation("warning-rule", Severity::Warning, "warning"),
            gh_violation("info-rule", Severity::Info, "info"),
        ],
        vec![skipped("skip-rule", SkipReason::DeepOnlyInOverviewMode)],
        Vec::new(),
    );

    let rendered = render_gh(&policy, &result);
    let summary = rendered.lines().last().unwrap();

    assert_eq!(summary, "Mnemosyne ci-check: 4 violations (1 critical, 1 error, 1 warning, 1 info), 1 skipped");
}

#[test]
fn gh_actions_no_line_field_present() {
    let policy = policy(vec![rule("heap-budget", Predicate::TotalBytes)]);
    let result = result(vec![gh_violation("heap-budget", Severity::Error, "heap budget exceeded")], Vec::new(), Vec::new());

    let rendered = render_gh(&policy, &result);

    assert!(rendered.contains("file=policy.toml,title=heap-budget"), "{rendered}");
    assert!(!rendered.contains("line="), "{rendered}");
}

#[test]
fn gh_actions_escape_properties_and_messages() {
    let policy = policy(vec![rule("a,b:c", Predicate::TotalBytes)]);
    let result = result(vec![gh_violation("a,b:c", Severity::Error, "50%\nnext")], Vec::new(), Vec::new());
    let rendered = render_gh(&policy, &result);
    assert!(rendered.starts_with("::error file=policy.toml,title=a%2Cb%3Ac::50%25%0Anext\n"), "{rendered}");
}

#[test]
fn text_report_groups_violations_and_gives_the_verdict() {
    let mut policy = policy(vec![
        rule("fail-rule", Predicate::TotalBytes),
        rule("warn-rule", Predicate::TotalBytes),
        rule("skip-rule", Predicate::LeakCount),
    ]);
    policy.meta = Some(PolicyMeta { name: Some("ci".into()), description: Some("budget".into()), version: None });
    let result = result(
        vec![
            threshold_violation("warn-rule", "total_bytes", Severity::Warning, "warned", None),
            threshold_violation("fail-rule", "total_bytes", Severity::Error, "failed", Some("shrink")),
        ],
        vec![skipped("skip-rule", SkipReason::UnsupportedInThisMode)],
        vec![evaluation("fail-rule", false, PolicyValue::Number(42)), evaluation("x", true, PolicyValue::Null)],
    );
    let rendered = render_text_report(&context(&policy, &result));
    assert_eq!(
        rendered,
        "Policy: ci\nHeap: heap.hprof\nPolicy file: policy.toml\nMode: requested=overview used=overview\nTotal rules: 3\nTotal violations: 2\nDescription: budget\n\nSkipped rules:\n- skip-rule: predicate is unsupported in this analysis mode\n\n[ERROR]\n[ERROR] fail-rule: failed (actual=42, expected <= 10)\n  remediation: shrink\n\n[WARNING]\n[WARNING] warn-rule: warned (actual=42, expected <= 10)\n\nSummary: 1 passed, 2 violated, 1 skipped\nRESULT: FAIL (fail-on=error)\n"
    );

    let only_warning = PolicyResult {
        mode_used: AnalysisMode::Overview,
        mode_requested: AnalysisMode::Auto,
        violations: vec![threshold_violation("warn-rule", "total_bytes", Severity::Warning, "warned", None)],
        evaluations: Vec::new(),
        skipped: Vec::new(),
    };
    let rendered = render_text_report(&context(&policy, &only_warning));
    assert!(rendered.ends_with("RESULT: PASS\n"), "{rendered}");
    assert!(rendered.contains("Mode: requested=auto used=overview\n"));
}
