use mnemosyne_core::analysis::{AnalysisMode, AnalyzeResponse};
use mnemosyne_core::errors::CoreError;
use mnemosyne_core::graph::dominator::DominatorTree;
use mnemosyne_core::heap::HeapSummary;
use mnemosyne_core::hprof::object_graph::ObjectGraph;
use mnemosyne_core::plugin::{
    keep_successes, AnalyzerFinding, AnalyzerPlugin, AnalyzerResult, PluginRegistry,
    ReportFormatterPlugin,
};

struct DemoLeakNameAnalyzer;

impl AnalyzerPlugin for DemoLeakNameAnalyzer {
    fn name(&self) -> &str {
        "demo-leak-name-analyzer"
    }

    fn analyze(
        &self,
        graph: &ObjectGraph,
        _dominator: Option<&DominatorTree>,
    ) -> Result<AnalyzerResult, CoreError> {
        let findings = graph
            .objects
            .values()
            .filter_map(|object| graph.class_name(object.class_id))
            .filter(|name| name.to_ascii_lowercase().contains("leak"))
            .map(|name| AnalyzerFinding::new(&format!("suspicious class name: {name}"), "info"))
            .collect();
        Ok(AnalyzerResult {
            name: self.name().to_string(),
            findings,
        })
    }
}

struct DemoPipeSummaryFormatter;

impl ReportFormatterPlugin for DemoPipeSummaryFormatter {
    fn format_name(&self) -> &str {
        "demo-pipe-summary"
    }

    fn mime_type(&self) -> &str {
        "text/plain"
    }

    fn render(&self, response: &AnalyzeResponse) -> Result<String, CoreError> {
        Ok(format!("objects={}|leaks={}", response.summary.total_objects, 0))
    }
}

struct FailingTestAnalyzer;

impl AnalyzerPlugin for FailingTestAnalyzer {
    fn name(&self) -> &str {
        "failing-test-analyzer"
    }

    fn analyze(
        &self,
        _graph: &ObjectGraph,
        _dominator: Option<&DominatorTree>,
    ) -> Result<AnalyzerResult, CoreError> {
        Err(CoreError::InvalidInput("test fixture intentionally fails".into()))
    }
}

fn fixture_graph() -> ObjectGraph {
    ObjectGraph::new(8)
}

fn sample_response_for_formatter_test() -> AnalyzeResponse {
    AnalyzeResponse {
        mode: AnalysisMode::Deep,
        summary: HeapSummary {
            heap_path: "test.hprof".into(),
            total_objects: 10,
            total_size_bytes: 1024,
            classes: Vec::new(),
            header: None,
            total_records: 0,
            record_stats: Vec::new(),
        },
        provenance: Vec::new(),
    }
}

#[test]
fn registry_starts_empty() {
    let registry = PluginRegistry::new();
    assert!(registry.is_empty());
    assert_eq!(registry.analyzer_count(), 0);
    assert_eq!(registry.formatter_count(), 0);
}

#[test]
fn registered_analyzer_runs_and_returns_expected_findings() {
    let graph = fixture_graph();
    let mut registry = PluginRegistry::new();
    registry.register_analyzer(Box::new(DemoLeakNameAnalyzer));
    assert!(!registry.is_empty());
    assert_eq!(registry.analyzer_count(), 1);

    let results = registry.run_analyzers(&graph, None);
    assert_eq!(results.len(), 1);
    assert_eq!(results[0].name, "demo-leak-name-analyzer");
    for finding in &results[0].findings {
        assert!(finding.summary.to_ascii_lowercase().contains("leak"));
    }
}

#[test]
fn failing_analyzer_is_skipped_not_propagated() {
    let graph = fixture_graph();
    let mut registry = PluginRegistry::new();
    registry.register_analyzer(Box::new(FailingTestAnalyzer));
    registry.register_analyzer(Box::new(DemoLeakNameAnalyzer));

    let results = registry.run_analyzers(&graph, None);
    assert_eq!(results.len(), 1);
    assert_eq!(results[0].name, "demo-leak-name-analyzer");
}

#[test]
fn registered_formatter_is_found_by_name_and_renders() {
    let mut registry = PluginRegistry::new();
    registry.register_formatter(Box::new(DemoPipeSummaryFormatter));
    assert_eq!(registry.formatter_count(), 1);

    let formatter = registry
        .find_formatter("demo-pipe-summary")
        .expect("formatter should be registered under its format_name");
    assert_eq!(formatter.mime_type(), "text/plain");

    let response = sample_response_for_formatter_test();
    let rendered = formatter.render(&response).unwrap();
    assert_eq!(rendered, "objects=10|leaks=0");
}

#[test]
fn unknown_formatter_name_is_not_found() {
    let registry = PluginRegistry::new();
    assert!(registry.find_formatter("does-not-exist").is_none());
}

#[test]
fn keep_successes_drops_failures_in_order() {
    let ok = |name: &str| {
        Ok(AnalyzerResult {
            name: name.to_string(),
            findings: vec![AnalyzerFinding::with_detail("s", "info", "d")],
        })
    };
    let kept = keep_successes(vec![
        ok("a"),
        Err(CoreError::UnexpectedEof),
        ok("b"),
    ]);
    assert_eq!(kept.len(), 2);
    assert_eq!(kept[0].name, "a");
    assert_eq!(kept[1].name, "b");
    assert_eq!(kept[1].findings[0].detail.as_deref(), Some("d"));
}

#[test]
fn registrations_chain() {
    let mut registry = PluginRegistry::new();
    registry
        .register_analyzer(Box::new(FailingTestAnalyzer))
        .register_formatter(Box::new(DemoPipeSummaryFormatter));
    assert_eq!(registry.analyzer_count(), 1);
    assert_eq!(registry.formatter_count(), 1);
    assert!(registry.find_formatter("demo-pipe-summary").is_some());
}

struct NamedFormatter(&'static str, &'static str);

impl ReportFormatterPlugin for NamedFormatter {
    fn format_name(&self) -> &str {
        self.0
    }

    fn mime_type(&self) -> &str {
        self.1
    }

    fn render(&self, _response: &AnalyzeResponse) -> Result<String, CoreError> {
        Ok(self.1.to_string())
    }
}

#[test]
fn first_formatter_with_the_name_wins() {
    let mut registry = PluginRegistry::new();
    registry.register_formatter(Box::new(NamedFormatter("csv", "text/first")));
    registry.register_formatter(Box::new(NamedFormatter("tsv", "text/other")));
    registry.register_formatter(Box::new(NamedFormatter("csv", "text/second")));
    assert_eq!(registry.find_formatter("csv").expect("found").mime_type(), "text/first");
    assert_eq!(registry.find_formatter("tsv").expect("found").mime_type(), "text/other");
    assert!(registry.find_formatter("json").is_none());
}

#[test]
fn analyzer_results_keep_registration_order() {
    let graph = fixture_graph();
    let mut registry = PluginRegistry::new();
    registry
        .register_analyzer(Box::new(DemoLeakNameAnalyzer))
        .register_analyzer(Box::new(FailingTestAnalyzer))
        .register_analyzer(Box::new(DemoLeakNameAnalyzer));
    let results = registry.run_analyzers(&graph, None);
    assert_eq!(results.len(), 2);
    assert!(results.iter().all(|r| r.name == "demo-leak-name-analyzer"));
}
