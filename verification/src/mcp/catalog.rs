//! The catalog of tools the server lists: each tool's method name, what it
//! does, its parameters and, for some, the shape of what it returns.

use vstd::prelude::*;
use crate::mcp::dispatch::{McpMethod, method_name};

verus! {

/// The default value a parameter takes when it is left out.
#[derive(Debug, Clone, PartialEq, Eq)]
pub enum ParamDefault {
    Text(String),
    Number(u64),
    Flag(bool),
}

/// One parameter of a tool.
#[derive(Debug, Clone, PartialEq, Eq)]
pub struct ToolParam {
    pub name: String,
    /// The value's type as the catalog names it (`string`, `number`, ...).
    pub kind: String,
    pub required: bool,
    pub description: String,
    pub default: Option<ParamDefault>,
    /// The values it may take, when they are listed.
    pub choices: Vec<String>,
}

/// One tool of the catalog.
#[derive(Debug, Clone, PartialEq, Eq)]
pub struct ToolDescriptor {
    /// The tool the name selects.
    pub method: McpMethod,
    pub name: String,
    pub description: String,
    pub params: Vec<ToolParam>,
    pub output_schema: Option<String>,
}

/// The tools in the order the catalog lists them.
pub open spec fn catalog_order() -> Seq<McpMethod> {
    seq![
        McpMethod::ListTools,
        McpMethod::ParseHeap,
        McpMethod::DetectLeaks,
        McpMethod::AnalyzeHeap,
        McpMethod::DiffHeaps,
        McpMethod::QueryHeap,
        McpMethod::MapToCode,
        McpMethod::FindGcPath,
        McpMethod::InspectObject,
        McpMethod::CreateAiSession,
        McpMethod::ResumeAiSession,
        McpMethod::GetAiSession,
        McpMethod::CloseAiSession,
        McpMethod::ChatSession,
        McpMethod::ExplainLeak,
        McpMethod::ProposeFix,
        McpMethod::OpenSnapshot,
        McpMethod::ListSnapshots,
        McpMethod::DetectClassloaderLeaks,
        McpMethod::DescribeWorkflow,
        McpMethod::StartWorkflow,
        McpMethod::NextStep,
        McpMethod::GetWorkflow,
        McpMethod::CloseWorkflow,
    ]
}

/// Where a tool stands in the catalog.
pub open spec fn catalog_index(m: McpMethod) -> int {
    match m {
        McpMethod::ListTools => 0,
        McpMethod::ParseHeap => 1,
        McpMethod::DetectLeaks => 2,
        McpMethod::AnalyzeHeap => 3,
        McpMethod::DiffHeaps => 4,
        McpMethod::QueryHeap => 5,
        McpMethod::MapToCode => 6,
        McpMethod::FindGcPath => 7,
        McpMethod::InspectObject => 8,
        McpMethod::CreateAiSession => 9,
        McpMethod::ResumeAiSession => 10,
        McpMethod::GetAiSession => 11,
        McpMethod::CloseAiSession => 12,
        McpMethod::ChatSession => 13,
        McpMethod::ExplainLeak => 14,
        McpMethod::ProposeFix => 15,
        McpMethod::OpenSnapshot => 16,
        McpMethod::ListSnapshots => 17,
        McpMethod::DetectClassloaderLeaks => 18,
        McpMethod::DescribeWorkflow => 19,
        McpMethod::StartWorkflow => 20,
        McpMethod::NextStep => 21,
        McpMethod::GetWorkflow => 22,
        McpMethod::CloseWorkflow => 23,
    }
}

/// A parameter's default as a mathematical value.
#[verifier::ext_equal]
pub enum DefaultView {
    Text(Seq<char>),
    Number(u64),
    Flag(bool),
}

/// A parameter as a mathematical value.
#[verifier::ext_equal]
pub struct ParamView {
    pub name: Seq<char>,
    pub kind: Seq<char>,
    pub required: bool,
    pub description: Seq<char>,
    pub default: Option<DefaultView>,
    pub choices: Seq<Seq<char>>,
}

/// A catalog entry as a mathematical value.
#[verifier::ext_equal]
pub struct ToolView {
    pub method: McpMethod,
    pub name: Seq<char>,
    pub description: Seq<char>,
    pub params: Seq<ParamView>,
    pub output_schema: Option<Seq<char>>,
}

impl View for ParamDefault {
    type V = DefaultView;

    open spec fn view(&self) -> DefaultView {
        match self {
            ParamDefault::Text(s) => DefaultView::Text(s@),
            ParamDefault::Number(n) => DefaultView::Number(*n),
            ParamDefault::Flag(b) => DefaultView::Flag(*b),
        }
    }
}

/// The texts of a list of strings.
pub open spec fn texts_view(v: Seq<String>) -> Seq<Seq<char>> {
    v.map_values(|c: String| c@)
}

/// A text that may be absent.
pub open spec fn opt_text_view(o: Option<String>) -> Option<Seq<char>> {
    match o {
        Some(s) => Some(s@),
        None => None,
    }
}

impl View for ToolParam {
    type V = ParamView;

    open spec fn view(&self) -> ParamView {
        ParamView {
            name: self.name@,
            kind: self.kind@,
            required: self.required,
            description: self.description@,
            default: match self.default {
                Some(d) => Some(d@),
                None => None,
            },
            choices: texts_view(self.choices@),
        }
    }
}

/// The parameters of a list as mathematical values.
pub open spec fn params_view(v: Seq<ToolParam>) -> Seq<ParamView> {
    v.map_values(|p: ToolParam| p@)
}

impl View for ToolDescriptor {
    type V = ToolView;

    open spec fn view(&self) -> ToolView {
        ToolView {
            method: self.method,
            name: self.name@,
            description: self.description@,
            params: params_view(self.params@),
            output_schema: opt_text_view(self.output_schema),
        }
    }
}

/// A parameter with no default and no listed values.
pub open spec fn param_view(name: Seq<char>, kind: Seq<char>, required: bool, description: Seq<char>) -> ParamView {
    ParamView { name, kind, required, description, default: None, choices: Seq::empty() }
}

/// A parameter given a default.
pub open spec fn with_default_view(p: ParamView, d: DefaultView) -> ParamView {
    ParamView { default: Some(d), ..p }
}

/// A parameter given its listed values.
pub open spec fn with_choices_view(p: ParamView, choices: Seq<Seq<char>>) -> ParamView {
    ParamView { choices, ..p }
}

/// The analysis-mode parameter: `auto` (the default), `deep` or `overview`.
pub open spec fn mode_param_view() -> ParamView {
    with_choices_view(
        with_default_view(param_view("mode"@, "string"@, false, "Analysis mode. `auto` resolves by file size, `deep` builds the full object graph, and `overview` streams the heap without building the object graph and reports approximate shallow sizes only."@), DefaultView::Text("auto"@)),
        seq!["auto"@, "deep"@, "overview"@],
    )
}

/// The snapshot parameter that graph-reading tools accept.
pub open spec fn snapshot_param_view() -> ParamView {
    param_view("snapshot"@, "string"@, false, "SHA-256 hash or direct snapshot file path (see `open_snapshot`/`list_snapshots` and `mnemosyne snapshot save`). When set, uses the cached object graph instead of re-parsing heap_path/path -- an invalid, stale, or schema-mismatched key returns a structured snapshot_not_found/snapshot_stale_source/snapshot_schema_mismatch/snapshot_corrupt error rather than silently falling back to a fresh parse."@)
}

/// A catalog entry from its parts.
pub open spec fn tool_view(
    m: McpMethod,
    name: Seq<char>,
    description: Seq<char>,
    params: Seq<ParamView>,
    output_schema: Option<Seq<char>>,
) -> ToolView {
    ToolView { method: m, name, description, params, output_schema }
}

fn text(s: &str) -> (r: String)
    ensures
        r@ == s@,
{
    s.to_owned()
}

fn param(name: &str, kind: &str, required: bool, description: &str) -> (p: ToolParam)
    ensures
        p@ == param_view(name@, kind@, required, description@),
{
    let p = ToolParam {
        name: text(name),
        kind: text(kind),
        required,
        description: text(description),
        default: None,
        choices: Vec::new(),
    };
    proof {
        assert(p@ =~~= param_view(name@, kind@, required, description@));
    }
    p
}

fn with_default(p: ToolParam, default: ParamDefault) -> (q: ToolParam)
    ensures
        q@ == with_default_view(p@, default@),
{
    ToolParam { default: Some(default), ..p }
}

fn with_choices(p: ToolParam, choices: Vec<String>) -> (q: ToolParam)
    ensures
        q@ == with_choices_view(p@, texts_view(choices@)),
{
    ToolParam { choices, ..p }
}

fn mode_param() -> (p: ToolParam)
    ensures
        p@ == mode_param_view(),
{
    let choices = vec![text("auto"), text("deep"), text("overview")];
    proof {
        assert(texts_view(choices@) =~~= seq!["auto"@, "deep"@, "overview"@]);
    }
    with_choices(
        with_default(param("mode", "string", false, "Analysis mode. `auto` resolves by file size, `deep` builds the full object graph, and `overview` streams the heap without building the object graph and reports approximate shallow sizes only."), ParamDefault::Text(text("auto"))),
        choices,
    )
}

fn snapshot_param() -> (p: ToolParam)
    ensures
        p@ == snapshot_param_view(),
{
    param("snapshot", "string", false, "SHA-256 hash or direct snapshot file path (see `open_snapshot`/`list_snapshots` and `mnemosyne snapshot save`). When set, uses the cached object graph instead of re-parsing heap_path/path -- an invalid, stale, or schema-mismatched key returns a structured snapshot_not_found/snapshot_stale_source/snapshot_schema_mismatch/snapshot_corrupt error rather than silently falling back to a fresh parse.")
}

fn tool(
    m: McpMethod,
    name: &str,
    description: &str,
    params: Vec<ToolParam>,
    output_schema: Option<String>,
) -> (t: ToolDescriptor)
    ensures
        t@ == tool_view(m, name@, description@, params_view(params@), opt_text_view(output_schema)),
        t.method == m,
        t.name@ == name@,
{
    ToolDescriptor { method: m, name: text(name), description: text(description), params, output_schema }
}

/// The catalog entry of each tool: its name, what it does, its parameters
/// and, for some, the shape of what it returns.
pub open spec fn tool_spec(m: McpMethod) -> ToolView {
    match m {
        McpMethod::ListTools => tool_view(
            m,
            "list_tools"@,
            "List the live MCP tools and their parameter shapes."@,
            Seq::empty(),
            None,
        ),
        McpMethod::ParseHeap => tool_view(
            m,
            "parse_heap"@,
            "Parse an HPROF file and return a lightweight heap summary. Overview mode is streaming, builds no object graph, and reports approximate shallow sizes only."@,
            seq![
                param_view("path"@, "string"@, true, "Path to the heap dump."@),
                mode_param_view(),
                param_view("include_strings"@, "boolean"@, false, "Accept string extraction in the request, although the summary remains lightweight."@),
                param_view("max_objects"@, "number"@, false, "Optional object cap that falls back to parser.max_objects."@),
                snapshot_param_view(),
            ],
            None,
        ),
        McpMethod::DetectLeaks => tool_view(
            m,
            "detect_leaks"@,
            "Run leak detection with optional severity and package filters."@,
            seq![
                param_view("heap_path"@, "string"@, true, "Path to the heap dump."@),
                param_view("package"@, "string"@, false, "Single package prefix filter for this MCP method."@),
                param_view("min_severity"@, "string"@, false, "Minimum leak severity (LOW, MEDIUM, HIGH, CRITICAL)."@),
                param_view("leak_types"@, "array<string>"@, false, "Optional leak-kind filter list."@),
            ],
            None,
        ),
        McpMethod::AnalyzeHeap => tool_view(
            m,
            "analyze_heap"@,
            "Run the full analysis pipeline and return the serialized analysis response. Overview mode is streaming, builds no object graph, and reports approximate shallow sizes only."@,
            seq![
                param_view("heap_path"@, "string"@, true, "Path to the heap dump."@),
                mode_param_view(),
                param_view("min_severity"@, "string"@, false, "Optional minimum leak severity override."@),
                param_view("packages"@, "array<string>"@, false, "Optional package prefix filters."@),
                param_view("leak_types"@, "array<string>"@, false, "Optional leak-kind filter list."@),
                param_view("histogram_group_by"@, "string"@, false, "Histogram grouping: class, package, or class_loader."@),
                param_view("enable_ai"@, "boolean"@, false, "Enable AI insights for the analysis response."@),
                param_view("enable_classloaders"@, "boolean"@, false, "Attach classloader analysis."@),
                param_view("enable_threads"@, "boolean"@, false, "Attach thread analysis."@),
                param_view("enable_strings"@, "boolean"@, false, "Attach string analysis."@),
                param_view("enable_collections"@, "boolean"@, false, "Attach collection analysis."@),
                param_view("enable_top_instances"@, "boolean"@, false, "Attach the top-instances report."@),
                param_view("by_referrer"@, "boolean"@, false, "Attach the group-by-referrer report (objects ranked by incoming reference count)."@),
                param_view("top_n"@, "number"@, false, "Result count used by top-N analysis sections."@),
                param_view("min_collection_capacity"@, "number"@, false, "Minimum collection capacity to report."@),
                param_view("min_duplicate_count"@, "number"@, false, "Minimum duplicate string count to report."@),
                snapshot_param_view(),
            ],
            None,
        ),
        McpMethod::DiffHeaps => tool_view(
            m,
            "diff_heaps"@,
            "Compute class-level and (optionally) object-level diff between two HPROF heap dumps."@,
            seq![
                param_view("before"@, "string"@, true, "Path to the BEFORE heap dump."@),
                param_view("after"@, "string"@, true, "Path to the AFTER heap dump."@),
                with_choices_view(with_default_view(param_view("mode"@, "string"@, false, "'class' (default) or 'object'."@), DefaultView::Text("class"@)), seq!["class"@, "object"@]),
                with_choices_view(with_default_view(param_view("identity_strategy"@, "string"@, false, "'class+retained' | 'class+dominator' (default) | 'full-fingerprint'. Ignored when mode='class'."@), DefaultView::Text("class+dominator"@)), seq!["class+retained"@, "class+dominator"@, "full-fingerprint"@]),
                with_default_view(param_view("retained_bucket_bits"@, "number"@, false, "Power-of-two bucket exponent for retained sizes; default 10 (1 KB)."@), DefaultView::Number(10)),
                with_default_view(param_view("retained_change_threshold"@, "number"@, false, "Minimum |retained delta| in bytes for inclusion in retained_changed; default 1048576."@), DefaultView::Number(1048576)),
                with_default_view(param_view("top_n"@, "number"@, false, "Per-section result cap; default 50."@), DefaultView::Number(50)),
                with_default_view(param_view("object_diff_min_retained"@, "number"@, false, "Skip objects whose retained size is below this floor; default 4096."@), DefaultView::Number(4096)),
                with_default_view(param_view("retain_field_data"@, "boolean"@, false, "Required when identity_strategy='full-fingerprint'."@), DefaultView::Flag(false)),
            ],
            Some("HeapDiff (existing) extended with optional object_diff: ObjectDiffReport"@),
        ),
        McpMethod::QueryHeap => tool_view(
            m,
            "query_heap"@,
            "Execute an OQL-style query against the heap graph, including built-in fields plus retained instance fields when available."@,
            seq![
                param_view("heap_path"@, "string"@, true, "Path to the heap dump."@),
                param_view("query"@, "string"@, true, "Query text."@),
                snapshot_param_view(),
            ],
            None,
        ),
        McpMethod::MapToCode => tool_view(
            m,
            "map_to_code"@,
            "Map a leak candidate to likely source files under a project root."@,
            seq![
                param_view("leak_id"@, "string"@, true, "Leak identifier from analyze or detect_leaks."@),
                param_view("class"@, "string"@, false, "Optional class-name override to bias source mapping."@),
                param_view("project_root"@, "string"@, true, "Project directory to scan for source files."@),
                param_view("include_git_info"@, "boolean"@, false, "Include git blame metadata when available."@),
            ],
            None,
        ),
        McpMethod::FindGcPath => tool_view(
            m,
            "find_gc_path"@,
            "Find a path from an object to a GC root. Set all_paths or by_class to enumerate every path (bounded by max_paths) instead of only the shortest."@,
            seq![
                param_view("heap_path"@, "string"@, true, "Path to the heap dump."@),
                param_view("object_id"@, "string"@, false, "Target object identifier, for example 0x1000. Required unless by_class is set; mutually exclusive with by_class."@),
                param_view("max_depth"@, "number"@, false, "Optional traversal depth cap."@),
                param_view("all_paths"@, "boolean"@, false, "Return all paths (bounded by max_paths) instead of only the shortest."@),
                param_view("by_class"@, "string"@, false, "Find all-paths for every live instance of this class instead of a single object_id."@),
                param_view("max_paths"@, "number"@, false, "Shared path-enumeration budget across the whole all_paths/by_class query. Default 20."@),
                snapshot_param_view(),
            ],
            None,
        ),
        McpMethod::InspectObject => tool_view(
            m,
            "inspect_object"@,
            "Field-level inspection of a single heap object: values, refs in/out, dominator context."@,
            seq![
                param_view("heap_path"@, "string"@, true, "Path to the heap dump."@),
                param_view("object_id"@, "string"@, true, "Target object identifier, for example 0x1000."@),
                param_view("retain_field_data"@, "boolean"@, false, "Populate the fields section with typed instance field values."@),
                snapshot_param_view(),
            ],
            Some("ObjectInspection"@),
        ),
        McpMethod::CreateAiSession => tool_view(
            m,
            "create_ai_session"@,
            "Analyze a heap once and persist an AI follow-up session."@,
            seq![
                param_view("heap_path"@, "string"@, true, "Path to the heap dump."@),
                param_view("min_severity"@, "string"@, false, "Optional minimum leak severity override."@),
                param_view("packages"@, "array<string>"@, false, "Optional package prefix filters."@),
                param_view("leak_types"@, "array<string>"@, false, "Optional leak-kind filter list."@),
            ],
            None,
        ),
        McpMethod::ResumeAiSession => tool_view(
            m,
            "resume_ai_session"@,
            "Resume a persisted AI follow-up session by session_id."@,
            seq![
                param_view("session_id"@, "string"@, true, "Persisted AI session identifier."@),
            ],
            None,
        ),
        McpMethod::GetAiSession => tool_view(
            m,
            "get_ai_session"@,
            "Inspect compact metadata for a persisted AI session."@,
            seq![
                param_view("session_id"@, "string"@, true, "Persisted AI session identifier."@),
            ],
            None,
        ),
        McpMethod::CloseAiSession => tool_view(
            m,
            "close_ai_session"@,
            "Delete a persisted AI follow-up session."@,
            seq![
                param_view("session_id"@, "string"@, true, "Persisted AI session identifier."@),
            ],
            None,
        ),
        McpMethod::ChatSession => tool_view(
            m,
            "chat_session"@,
            "Ask a follow-up AI question against a persisted session."@,
            seq![
                param_view("session_id"@, "string"@, true, "Persisted AI session identifier."@),
                param_view("question"@, "string"@, true, "Follow-up question to ask."@),
                param_view("focus_leak_id"@, "string"@, false, "Optional leak identifier to focus the turn."@),
            ],
            None,
        ),
        McpMethod::ExplainLeak => tool_view(
            m,
            "explain_leak"@,
            "Generate AI-backed leak explanations from a heap path or a persisted AI session."@,
            seq![
                param_view("heap_path"@, "string"@, false, "Path to the heap dump. Exactly one of heap_path or session_id is required."@),
                param_view("session_id"@, "string"@, false, "Persisted AI session identifier. Exactly one of heap_path or session_id is required."@),
                param_view("leak_id"@, "string"@, false, "Optional leak identifier to focus the explanation."@),
                param_view("min_severity"@, "string"@, false, "Optional minimum leak severity override for the heap_path flow only."@),
            ],
            None,
        ),
        McpMethod::ProposeFix => tool_view(
            m,
            "propose_fix"@,
            "Generate AI-backed fix suggestions from a heap path or a persisted AI session when provider mode and source context are available, otherwise fall back to heuristic guidance."@,
            seq![
                param_view("heap_path"@, "string"@, false, "Path to the heap dump. Exactly one of heap_path or session_id is required."@),
                param_view("session_id"@, "string"@, false, "Persisted AI session identifier. Exactly one of heap_path or session_id is required."@),
                param_view("leak_id"@, "string"@, false, "Optional leak identifier to narrow the suggestion set."@),
                param_view("project_root"@, "string"@, false, "Optional project directory used for file targeting."@),
                param_view("style"@, "string"@, false, "Patch style: Minimal, Defensive, or Comprehensive."@),
            ],
            None,
        ),
        McpMethod::OpenSnapshot => tool_view(
            m,
            "open_snapshot"@,
            "Load a previously saved snapshot cache entry and return its manifest (does not itself run any analysis -- pairs with the snapshot param on analyze_heap/parse_heap/find_gc_path/inspect_object/query_heap)."@,
            seq![
                param_view("key"@, "string"@, true, "SHA-256 hash or direct snapshot file path."@),
            ],
            Some("SnapshotManifest"@),
        ),
        McpMethod::ListSnapshots => tool_view(
            m,
            "list_snapshots"@,
            "List the manifests of every snapshot currently in the cache."@,
            Seq::empty(),
            Some("Vec<SnapshotManifest>"@),
        ),
        McpMethod::DetectClassloaderLeaks => tool_view(
            m,
            "detect_classloader_leaks"@,
            "Cross-loader duplicate-class detection -- the classic Tomcat/Jetty/Spring hot-redeploy leak pattern."@,
            seq![
                param_view("heap_path"@, "string"@, true, "Path to the heap dump."@),
            ],
            Some("Vec<DuplicateClassGroup>"@),
        ),
        McpMethod::DescribeWorkflow => tool_view(
            m,
            "describe_workflow"@,
            "Introspect a workflow kind's fixed step sequence and each step's expected input/underlying primitives, without creating any workflow state."@,
            seq![
                param_view("kind"@, "string"@, true, "One of: triage_memory_leak, tune_gc, traverse_object_graph, compare_snapshots."@),
            ],
            Some("WorkflowDescription"@),
        ),
        McpMethod::StartWorkflow => tool_view(
            m,
            "start_workflow"@,
            "Create a new workflow instance of the given kind, run its first step, and persist the resulting state."@,
            seq![
                param_view("kind"@, "string"@, true, "One of: triage_memory_leak, tune_gc, traverse_object_graph, compare_snapshots."@),
                param_view("heap_path"@, "string"@, false, "Required for triage_memory_leak/tune_gc/traverse_object_graph. Not used by compare_snapshots (see params below)."@),
                param_view("object_id"@, "string"@, false, "traverse_object_graph only: the starting object."@),
                param_view("before_heap_path"@, "string"@, false, "compare_snapshots only."@),
                param_view("after_heap_path"@, "string"@, false, "compare_snapshots only."@),
                param_view("before_snapshot_key"@, "string"@, false, "compare_snapshots only, alternative to before_heap_path."@),
                param_view("after_snapshot_key"@, "string"@, false, "compare_snapshots only, alternative to after_heap_path."@),
            ],
            Some("{ workflow_id: string, current_step: string, step_result: object, next_expected_input: object }"@),
        ),
        McpMethod::NextStep => tool_view(
            m,
            "next_step"@,
            "Advance an in-flight workflow by executing whatever step current_step names, using step_input as that step's parameters."@,
            seq![
                param_view("workflow_id"@, "string"@, true, "Workflow instance identifier returned by start_workflow."@),
                param_view("step_input"@, "object"@, false, "Shape depends on the current step -- see describe_workflow."@),
            ],
            Some("same shape as start_workflow's output, or { current_step: \"complete\", ... } when done"@),
        ),
        McpMethod::GetWorkflow => tool_view(
            m,
            "get_workflow"@,
            "Read-only dump of a workflow instance's full persisted state and step history."@,
            seq![
                param_view("workflow_id"@, "string"@, true, "Workflow instance identifier returned by start_workflow."@),
            ],
            Some("WorkflowState"@),
        ),
        McpMethod::CloseWorkflow => tool_view(
            m,
            "close_workflow"@,
            "Delete a persisted workflow instance's state."@,
            seq![
                param_view("workflow_id"@, "string"@, true, "Workflow instance identifier returned by start_workflow."@),
            ],
            Some("{ closed: true }"@),
        ),
    }
}

/// The catalog entry of one tool, named by its method name.
pub fn descriptor(m: McpMethod) -> (t: ToolDescriptor)
    ensures
        t@ == tool_spec(m),
        t.method == m,
        t.name@ == method_name(m),
{
    match m {
        McpMethod::ListTools => {
            let t = tool(
                m,
                "list_tools",
                "List the live MCP tools and their parameter shapes.",
                Vec::new(),
                None,
            );
            proof {
                assert(t@ =~~= tool_spec(m));
            }
            t
        },
        McpMethod::ParseHeap => {
            let t = tool(
                m,
                "parse_heap",
                "Parse an HPROF file and return a lightweight heap summary. Overview mode is streaming, builds no object graph, and reports approximate shallow sizes only.",
                vec![
                    param("path", "string", true, "Path to the heap dump."),
                    mode_param(),
                    param("include_strings", "boolean", false, "Accept string extraction in the request, although the summary remains lightweight."),
                    param("max_objects", "number", false, "Optional object cap that falls back to parser.max_objects."),
                    snapshot_param(),
                ],
                None,
            );
            proof {
                assert(t@ =~~= tool_spec(m));
            }
            t
        },
        McpMethod::DetectLeaks => {
            let t = tool(
                m,
                "detect_leaks",
                "Run leak detection with optional severity and package filters.",
                vec![
                    param("heap_path", "string", true, "Path to the heap dump."),
                    param("package", "string", false, "Single package prefix filter for this MCP method."),
                    param("min_severity", "string", false, "Minimum leak severity (LOW, MEDIUM, HIGH, CRITICAL)."),
                    param("leak_types", "array<string>", false, "Optional leak-kind filter list."),
                ],
                None,
            );
            proof {
                assert(t@ =~~= tool_spec(m));
            }
            t
        },
        McpMethod::AnalyzeHeap => {
            let t = tool(
                m,
                "analyze_heap",
                "Run the full analysis pipeline and return the serialized analysis response. Overview mode is streaming, builds no object graph, and reports approximate shallow sizes only.",
                vec![
                    param("heap_path", "string", true, "Path to the heap dump."),
                    mode_param(),
                    param("min_severity", "string", false, "Optional minimum leak severity override."),
                    param("packages", "array<string>", false, "Optional package prefix filters."),
                    param("leak_types", "array<string>", false, "Optional leak-kind filter list."),
                    param("histogram_group_by", "string", false, "Histogram grouping: class, package, or class_loader."),
                    param("enable_ai", "boolean", false, "Enable AI insights for the analysis response."),
                    param("enable_classloaders", "boolean", false, "Attach classloader analysis."),
                    param("enable_threads", "boolean", false, "Attach thread analysis."),
                    param("enable_strings", "boolean", false, "Attach string analysis."),
                    param("enable_collections", "boolean", false, "Attach collection analysis."),
                    param("enable_top_instances", "boolean", false, "Attach the top-instances report."),
                    param("by_referrer", "boolean", false, "Attach the group-by-referrer report (objects ranked by incoming reference count)."),
                    param("top_n", "number", false, "Result count used by top-N analysis sections."),
                    param("min_collection_capacity", "number", false, "Minimum collection capacity to report."),
                    param("min_duplicate_count", "number", false, "Minimum duplicate string count to report."),
                    snapshot_param(),
                ],
                None,
            );
            proof {
                assert(t@ =~~= tool_spec(m));
            }
            t
        },
        McpMethod::DiffHeaps => {
            let t = tool(
                m,
                "diff_heaps",
                "Compute class-level and (optionally) object-level diff between two HPROF heap dumps.",
                vec![
                    param("before", "string", true, "Path to the BEFORE heap dump."),
                    param("after", "string", true, "Path to the AFTER heap dump."),
                    with_choices(with_default(param("mode", "string", false, "'class' (default) or 'object'."), ParamDefault::Text(text("class"))), vec![text("class"), text("object")]),
                    with_choices(with_default(param("identity_strategy", "string", false, "'class+retained' | 'class+dominator' (default) | 'full-fingerprint'. Ignored when mode='class'."), ParamDefault::Text(text("class+dominator"))), vec![text("class+retained"), text("class+dominator"), text("full-fingerprint")]),
                    with_default(param("retained_bucket_bits", "number", false, "Power-of-two bucket exponent for retained sizes; default 10 (1 KB)."), ParamDefault::Number(10)),
                    with_default(param("retained_change_threshold", "number", false, "Minimum |retained delta| in bytes for inclusion in retained_changed; default 1048576."), ParamDefault::Number(1048576)),
                    with_default(param("top_n", "number", false, "Per-section result cap; default 50."), ParamDefault::Number(50)),
                    with_default(param("object_diff_min_retained", "number", false, "Skip objects whose retained size is below this floor; default 4096."), ParamDefault::Number(4096)),
                    with_default(param("retain_field_data", "boolean", false, "Required when identity_strategy='full-fingerprint'."), ParamDefault::Flag(false)),
                ],
                Some(text("HeapDiff (existing) extended with optional object_diff: ObjectDiffReport")),
            );
            proof {
                assert(t@ =~~= tool_spec(m));
            }
            t
        },
        McpMethod::QueryHeap => {
            let t = tool(
                m,
                "query_heap",
                "Execute an OQL-style query against the heap graph, including built-in fields plus retained instance fields when available.",
                vec![
                    param("heap_path", "string", true, "Path to the heap dump."),
                    param("query", "string", true, "Query text."),
                    snapshot_param(),
                ],
                None,
            );
            proof {
                assert(t@ =~~= tool_spec(m));
            }
            t
        },
        McpMethod::MapToCode => {
            let t = tool(
                m,
                "map_to_code",
                "Map a leak candidate to likely source files under a project root.",
                vec![
                    param("leak_id", "string", true, "Leak identifier from analyze or detect_leaks."),
                    param("class", "string", false, "Optional class-name override to bias source mapping."),
                    param("project_root", "string", true, "Project directory to scan for source files."),
                    param("include_git_info", "boolean", false, "Include git blame metadata when available."),
                ],
                None,
            );
            proof {
                assert(t@ =~~= tool_spec(m));
            }
            t
        },
        McpMethod::FindGcPath => {
            let t = tool(
                m,
                "find_gc_path",
                "Find a path from an object to a GC root. Set all_paths or by_class to enumerate every path (bounded by max_paths) instead of only the shortest.",
                vec![
                    param("heap_path", "string", true, "Path to the heap dump."),
                    param("object_id", "string", false, "Target object identifier, for example 0x1000. Required unless by_class is set; mutually exclusive with by_class."),
                    param("max_depth", "number", false, "Optional traversal depth cap."),
                    param("all_paths", "boolean", false, "Return all paths (bounded by max_paths) instead of only the shortest."),
                    param("by_class", "string", false, "Find all-paths for every live instance of this class instead of a single object_id."),
                    param("max_paths", "number", false, "Shared path-enumeration budget across the whole all_paths/by_class query. Default 20."),
                    snapshot_param(),
                ],
                None,
            );
            proof {
                assert(t@ =~~= tool_spec(m));
            }
            t
        },
        McpMethod::InspectObject => {
            let t = tool(
                m,
                "inspect_object",
                "Field-level inspection of a single heap object: values, refs in/out, dominator context.",
                vec![
                    param("heap_path", "string", true, "Path to the heap dump."),
                    param("object_id", "string", true, "Target object identifier, for example 0x1000."),
                    param("retain_field_data", "boolean", false, "Populate the fields section with typed instance field values."),
                    snapshot_param(),
                ],
                Some(text("ObjectInspection")),
            );
            proof {
                assert(t@ =~~= tool_spec(m));
            }
            t
        },
        McpMethod::CreateAiSession => {
            let t = tool(
                m,
                "create_ai_session",
                "Analyze a heap once and persist an AI follow-up session.",
                vec![
                    param("heap_path", "string", true, "Path to the heap dump."),
                    param("min_severity", "string", false, "Optional minimum leak severity override."),
                    param("packages", "array<string>", false, "Optional package prefix filters."),
                    param("leak_types", "array<string>", false, "Optional leak-kind filter list."),
                ],
                None,
            );
            proof {
                assert(t@ =~~= tool_spec(m));
            }
            t
        },
        McpMethod::ResumeAiSession => {
            let t = tool(
                m,
                "resume_ai_session",
                "Resume a persisted AI follow-up session by session_id.",
                vec![
                    param("session_id", "string", true, "Persisted AI session identifier."),
                ],
                None,
            );
            proof {
                assert(t@ =~~= tool_spec(m));
            }
            t
        },
        McpMethod::GetAiSession => {
            let t = tool(
                m,
                "get_ai_session",
                "Inspect compact metadata for a persisted AI session.",
                vec![
                    param("session_id", "string", true, "Persisted AI session identifier."),
                ],
                None,
            );
            proof {
                assert(t@ =~~= tool_spec(m));
            }
            t
        },
        McpMethod::CloseAiSession => {
            let t = tool(
                m,
                "close_ai_session",
                "Delete a persisted AI follow-up session.",
                vec![
                    param("session_id", "string", true, "Persisted AI session identifier."),
                ],
                None,
            );
            proof {
                assert(t@ =~~= tool_spec(m));
            }
            t
        },
        McpMethod::ChatSession => {
            let t = tool(
                m,
                "chat_session",
                "Ask a follow-up AI question against a persisted session.",
                vec![
                    param("session_id", "string", true, "Persisted AI session identifier."),
                    param("question", "string", true, "Follow-up question to ask."),
                    param("focus_leak_id", "string", false, "Optional leak identifier to focus the turn."),
                ],
                None,
            );
            proof {
                assert(t@ =~~= tool_spec(m));
            }
            t
        },
        McpMethod::ExplainLeak => {
            let t = tool(
                m,
                "explain_leak",
                "Generate AI-backed leak explanations from a heap path or a persisted AI session.",
                vec![
                    param("heap_path", "string", false, "Path to the heap dump. Exactly one of heap_path or session_id is required."),
                    param("session_id", "string", false, "Persisted AI session identifier. Exactly one of heap_path or session_id is required."),
                    param("leak_id", "string", false, "Optional leak identifier to focus the explanation."),
                    param("min_severity", "string", false, "Optional minimum leak severity override for the heap_path flow only."),
                ],
                None,
            );
            proof {
                assert(t@ =~~= tool_spec(m));
            }
            t
        },
        McpMethod::ProposeFix => {
            let t = tool(
                m,
                "propose_fix",
                "Generate AI-backed fix suggestions from a heap path or a persisted AI session when provider mode and source context are available, otherwise fall back to heuristic guidance.",
                vec![
                    param("heap_path", "string", false, "Path to the heap dump. Exactly one of heap_path or session_id is required."),
                    param("session_id", "string", false, "Persisted AI session identifier. Exactly one of heap_path or session_id is required."),
                    param("leak_id", "string", false, "Optional leak identifier to narrow the suggestion set."),
                    param("project_root", "string", false, "Optional project directory used for file targeting."),
                    param("style", "string", false, "Patch style: Minimal, Defensive, or Comprehensive."),
                ],
                None,
            );
            proof {
                assert(t@ =~~= tool_spec(m));
            }
            t
        },
        McpMethod::OpenSnapshot => {
            let t = tool(
                m,
                "open_snapshot",
                "Load a previously saved snapshot cache entry and return its manifest (does not itself run any analysis -- pairs with the snapshot param on analyze_heap/parse_heap/find_gc_path/inspect_object/query_heap).",
                vec![
                    param("key", "string", true, "SHA-256 hash or direct snapshot file path."),
                ],
                Some(text("SnapshotManifest")),
            );
            proof {
                assert(t@ =~~= tool_spec(m));
            }
            t
        },
        McpMethod::ListSnapshots => {
            let t = tool(
                m,
                "list_snapshots",
                "List the manifests of every snapshot currently in the cache.",
                Vec::new(),
                Some(text("Vec<SnapshotManifest>")),
            );
            proof {
                assert(t@ =~~= tool_spec(m));
            }
            t
        },
        McpMethod::DetectClassloaderLeaks => {
            let t = tool(
                m,
                "detect_classloader_leaks",
                "Cross-loader duplicate-class detection -- the classic Tomcat/Jetty/Spring hot-redeploy leak pattern.",
                vec![
                    param("heap_path", "string", true, "Path to the heap dump."),
                ],
                Some(text("Vec<DuplicateClassGroup>")),
            );
            proof {
                assert(t@ =~~= tool_spec(m));
            }
            t
        },
        McpMethod::DescribeWorkflow => {
            let t = tool(
                m,
                "describe_workflow",
                "Introspect a workflow kind's fixed step sequence and each step's expected input/underlying primitives, without creating any workflow state.",
                vec![
                    param("kind", "string", true, "One of: triage_memory_leak, tune_gc, traverse_object_graph, compare_snapshots."),
                ],
                Some(text("WorkflowDescription")),
            );
            proof {
                assert(t@ =~~= tool_spec(m));
            }
            t
        },
        McpMethod::StartWorkflow => {
            let t = tool(
                m,
                "start_workflow",
                "Create a new workflow instance of the given kind, run its first step, and persist the resulting state.",
                vec![
                    param("kind", "string", true, "One of: triage_memory_leak, tune_gc, traverse_object_graph, compare_snapshots."),
                    param("heap_path", "string", false, "Required for triage_memory_leak/tune_gc/traverse_object_graph. Not used by compare_snapshots (see params below)."),
                    param("object_id", "string", false, "traverse_object_graph only: the starting object."),
                    param("before_heap_path", "string", false, "compare_snapshots only."),
                    param("after_heap_path", "string", false, "compare_snapshots only."),
                    param("before_snapshot_key", "string", false, "compare_snapshots only, alternative to before_heap_path."),
                    param("after_snapshot_key", "string", false, "compare_snapshots only, alternative to after_heap_path."),
                ],
                Some(text("{ workflow_id: string, current_step: string, step_result: object, next_expected_input: object }")),
            );
            proof {
                assert(t@ =~~= tool_spec(m));
            }
            t
        },
        McpMethod::NextStep => {
            let t = tool(
                m,
                "next_step",
                "Advance an in-flight workflow by executing whatever step current_step names, using step_input as that step's parameters.",
                vec![
                    param("workflow_id", "string", true, "Workflow instance identifier returned by start_workflow."),
                    param("step_input", "object", false, "Shape depends on the current step -- see describe_workflow."),
                ],
                Some(text("same shape as start_workflow's output, or { current_step: \"complete\", ... } when done")),
            );
            proof {
                assert(t@ =~~= tool_spec(m));
            }
            t
        },
        McpMethod::GetWorkflow => {
            let t = tool(
                m,
                "get_workflow",
                "Read-only dump of a workflow instance's full persisted state and step history.",
                vec![
                    param("workflow_id", "string", true, "Workflow instance identifier returned by start_workflow."),
                ],
                Some(text("WorkflowState")),
            );
            proof {
                assert(t@ =~~= tool_spec(m));
            }
            t
        },
        McpMethod::CloseWorkflow => {
            let t = tool(
                m,
                "close_workflow",
                "Delete a persisted workflow instance's state.",
                vec![
                    param("workflow_id", "string", true, "Workflow instance identifier returned by start_workflow."),
                ],
                Some(text("{ closed: true }")),
            );
            proof {
                assert(t@ =~~= tool_spec(m));
            }
            t
        },
    }
}

/// Every tool the server answers, each once, in the catalog's order; each
/// is listed under the method name that selects it.
pub fn tool_catalog() -> (tools: Vec<ToolDescriptor>)
    ensures
        tools@.len() == catalog_order().len(),
        forall|i: int| 0 <= i < tools@.len() ==> (#[trigger] tools@[i]).method == catalog_order()[i]
            && tools@[i].name@ == method_name(tools@[i].method) && tools@[i]@ == tool_spec(catalog_order()[i]),
        forall|m: McpMethod| #[trigger] catalog_index(m) < tools@.len() && tools@[catalog_index(m)].method == m,
        forall|i: int, j: int| 0 <= i < j < tools@.len() ==> (#[trigger] tools@[i]).method != (#[trigger] tools@[j]).method,
{
    let mut tools: Vec<ToolDescriptor> = Vec::new();
    tools.push(descriptor(McpMethod::ListTools));
    tools.push(descriptor(McpMethod::ParseHeap));
    tools.push(descriptor(McpMethod::DetectLeaks));
    tools.push(descriptor(McpMethod::AnalyzeHeap));
    tools.push(descriptor(McpMethod::DiffHeaps));
    tools.push(descriptor(McpMethod::QueryHeap));
    tools.push(descriptor(McpMethod::MapToCode));
    tools.push(descriptor(McpMethod::FindGcPath));
    tools.push(descriptor(McpMethod::InspectObject));
    tools.push(descriptor(McpMethod::CreateAiSession));
    tools.push(descriptor(McpMethod::ResumeAiSession));
    tools.push(descriptor(McpMethod::GetAiSession));
    tools.push(descriptor(McpMethod::CloseAiSession));
    tools.push(descriptor(McpMethod::ChatSession));
    tools.push(descriptor(McpMethod::ExplainLeak));
    tools.push(descriptor(McpMethod::ProposeFix));
    tools.push(descriptor(McpMethod::OpenSnapshot));
    tools.push(descriptor(McpMethod::ListSnapshots));
    tools.push(descriptor(McpMethod::DetectClassloaderLeaks));
    tools.push(descriptor(McpMethod::DescribeWorkflow));
    tools.push(descriptor(McpMethod::StartWorkflow));
    tools.push(descriptor(McpMethod::NextStep));
    tools.push(descriptor(McpMethod::GetWorkflow));
    tools.push(descriptor(McpMethod::CloseWorkflow));
    proof {
        assert forall|i: int| 0 <= i < tools@.len() implies catalog_index(#[trigger] tools@[i].method) == i by {}
    }
    tools
}

} // verus!
