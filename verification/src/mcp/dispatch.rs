//! The decisions the tool server makes before it runs a request: which tool
//! a method name selects, which source a leak explanation or fix proposal
//! reads, which GC-path search is asked for, and the overview limits.

use vstd::prelude::*;
use crate::errors::CoreError;
use crate::hprof::overview::{
    OverviewOptions, DEFAULT_MAX_CLASS_TABLE_SIZE, DEFAULT_MAX_THREAD_FRAMES,
    DEFAULT_TOP_N_CLASSES, DEFAULT_TOP_N_INSTANCES,
};
use crate::text::{chars_of, push_str, str_eq, string_from_chars};

verus! {

/// The tools the server answers, one per method name.
#[derive(Debug, Clone, Copy, PartialEq, Eq, Structural)]
pub enum McpMethod {
    ListTools,
    OpenSnapshot,
    ListSnapshots,
    ParseHeap,
    DetectLeaks,
    CreateAiSession,
    ResumeAiSession,
    GetAiSession,
    CloseAiSession,
    ChatSession,
    AnalyzeHeap,
    DiffHeaps,
    QueryHeap,
    MapToCode,
    FindGcPath,
    InspectObject,
    DetectClassloaderLeaks,
    ExplainLeak,
    ProposeFix,
    DescribeWorkflow,
    StartWorkflow,
    NextStep,
    GetWorkflow,
    CloseWorkflow,
}

/// The method name that selects a tool.
pub open spec fn method_name(m: McpMethod) -> Seq<char> {
    match m {
        McpMethod::ListTools => "list_tools"@,
        McpMethod::OpenSnapshot => "open_snapshot"@,
        McpMethod::ListSnapshots => "list_snapshots"@,
        McpMethod::ParseHeap => "parse_heap"@,
        McpMethod::DetectLeaks => "detect_leaks"@,
        McpMethod::CreateAiSession => "create_ai_session"@,
        McpMethod::ResumeAiSession => "resume_ai_session"@,
        McpMethod::GetAiSession => "get_ai_session"@,
        McpMethod::CloseAiSession => "close_ai_session"@,
        McpMethod::ChatSession => "chat_session"@,
        McpMethod::AnalyzeHeap => "analyze_heap"@,
        McpMethod::DiffHeaps => "diff_heaps"@,
        McpMethod::QueryHeap => "query_heap"@,
        McpMethod::MapToCode => "map_to_code"@,
        McpMethod::FindGcPath => "find_gc_path"@,
        McpMethod::InspectObject => "inspect_object"@,
        McpMethod::DetectClassloaderLeaks => "detect_classloader_leaks"@,
        McpMethod::ExplainLeak => "explain_leak"@,
        McpMethod::ProposeFix => "propose_fix"@,
        McpMethod::DescribeWorkflow => "describe_workflow"@,
        McpMethod::StartWorkflow => "start_workflow"@,
        McpMethod::NextStep => "next_step"@,
        McpMethod::GetWorkflow => "get_workflow"@,
        McpMethod::CloseWorkflow => "close_workflow"@,
    }
}

/// An error whose message is the given text.
pub open spec fn invalid_input_is(e: CoreError, text: Seq<char>) -> bool {
    e matches CoreError::InvalidInput(msg) && msg@ == text
}

fn invalid_input(text: &str) -> (e: CoreError)
    ensures
        invalid_input_is(e, text@),
{
    CoreError::InvalidInput(string_from_chars(&chars_of(text)))
}

/// The tool a request's method name selects; any other name is refused as
/// an unsupported method, naming it.
pub fn route_method(method: &str) -> (r: Result<McpMethod, CoreError>)
    ensures
        match r {
            Ok(m) => method@ == method_name(m),
            Err(e) => {
                &&& forall|m: McpMethod| method@ != #[trigger] method_name(m)
                &&& invalid_input_is(e, "unsupported MCP method: "@ + method@)
            },
        },
{
    if str_eq(method, "list_tools") { return Ok(McpMethod::ListTools); }
    if str_eq(method, "open_snapshot") { return Ok(McpMethod::OpenSnapshot); }
    if str_eq(method, "list_snapshots") { return Ok(McpMethod::ListSnapshots); }
    if str_eq(method, "parse_heap") { return Ok(McpMethod::ParseHeap); }
    if str_eq(method, "detect_leaks") { return Ok(McpMethod::DetectLeaks); }
    if str_eq(method, "create_ai_session") { return Ok(McpMethod::CreateAiSession); }
    if str_eq(method, "resume_ai_session") { return Ok(McpMethod::ResumeAiSession); }
    if str_eq(method, "get_ai_session") { return Ok(McpMethod::GetAiSession); }
    if str_eq(method, "close_ai_session") { return Ok(McpMethod::CloseAiSession); }
    if str_eq(method, "chat_session") { return Ok(McpMethod::ChatSession); }
    if str_eq(method, "analyze_heap") { return Ok(McpMethod::AnalyzeHeap); }
    if str_eq(method, "diff_heaps") { return Ok(McpMethod::DiffHeaps); }
    if str_eq(method, "query_heap") { return Ok(McpMethod::QueryHeap); }
    if str_eq(method, "map_to_code") { return Ok(McpMethod::MapToCode); }
    if str_eq(method, "find_gc_path") { return Ok(McpMethod::FindGcPath); }
    if str_eq(method, "inspect_object") { return Ok(McpMethod::InspectObject); }
    if str_eq(method, "detect_classloader_leaks") {
        return Ok(McpMethod::DetectClassloaderLeaks);
    }
    if str_eq(method, "explain_leak") { return Ok(McpMethod::ExplainLeak); }
    if str_eq(method, "propose_fix") { return Ok(McpMethod::ProposeFix); }
    if str_eq(method, "describe_workflow") { return Ok(McpMethod::DescribeWorkflow); }
    if str_eq(method, "start_workflow") { return Ok(McpMethod::StartWorkflow); }
    if str_eq(method, "next_step") { return Ok(McpMethod::NextStep); }
    if str_eq(method, "get_workflow") { return Ok(McpMethod::GetWorkflow); }
    if str_eq(method, "close_workflow") { return Ok(McpMethod::CloseWorkflow); }
    let mut text: Vec<char> = Vec::new();
    push_str(&mut text, "unsupported MCP method: ");
    push_str(&mut text, method);
    Err(CoreError::InvalidInput(string_from_chars(&text)))
}

/// Where a leak explanation or a fix proposal reads its leaks from.
#[derive(Debug, Clone, PartialEq, Eq)]
pub enum LeakSource {
    /// A fresh analysis of the heap dump at this path.
    HeapPath(String),
    /// The stored analysis of this AI session.
    Session(String),
}

/// Exactly one of a heap path and a session id names the source; both or
/// neither is refused.
pub fn leak_source(heap_path: Option<String>, session_id: Option<String>) -> (r: Result<LeakSource, CoreError>)
    ensures
        match (heap_path, session_id) {
            (Some(h), None) => r == Ok::<LeakSource, CoreError>(LeakSource::HeapPath(h)),
            (None, Some(s)) => r == Ok::<LeakSource, CoreError>(LeakSource::Session(s)),
            _ => r matches Err(e)
                && invalid_input_is(e, "exactly one of heap_path or session_id is required"@),
        },
{
    match (heap_path, session_id) {
        (Some(h), None) => Ok(LeakSource::HeapPath(h)),
        (None, Some(s)) => Ok(LeakSource::Session(s)),
        _ => Err(invalid_input("exactly one of heap_path or session_id is required")),
    }
}

/// The source of a leak explanation: as `leak_source`, and a minimum
/// severity is refused for a session-backed explanation (the session's
/// analysis already fixed it).
pub fn explain_leak_source<S>(
    heap_path: Option<String>,
    session_id: Option<String>,
    min_severity: &Option<S>,
) -> (r: Result<LeakSource, CoreError>)
    ensures
        match (heap_path, session_id) {
            (Some(h), None) => r == Ok::<LeakSource, CoreError>(LeakSource::HeapPath(h)),
            (None, Some(s)) => if min_severity.is_some() {
                r matches Err(e) && invalid_input_is(
                    e,
                    "min_severity is not supported for session-backed explain_leak"@,
                )
            } else {
                r == Ok::<LeakSource, CoreError>(LeakSource::Session(s))
            },
            _ => r matches Err(e)
                && invalid_input_is(e, "exactly one of heap_path or session_id is required"@),
        },
{
    let source = leak_source(heap_path, session_id)?;
    match source {
        LeakSource::Session(_) => {
            if min_severity.is_some() {
                return Err(invalid_input(
                    "min_severity is not supported for session-backed explain_leak",
                ));
            }
            Ok(source)
        },
        LeakSource::HeapPath(_) => Ok(source),
    }
}

/// Which GC-path search a request asks for.
#[derive(Debug, Clone, PartialEq, Eq)]
pub enum GcPathMode {
    /// Every path, to one object or to every instance of a class.
    AllPaths,
    /// The shortest path to the object with this id.
    Single(String),
}

/// All paths when `all_paths` is set or a class is named; otherwise the
/// single path to `object_id`, which is then required.
pub fn gc_path_mode(all_paths: bool, by_class: &Option<String>, object_id: Option<String>) -> (r: Result<GcPathMode, CoreError>)
    ensures
        all_paths || by_class.is_some() ==> r == Ok::<GcPathMode, CoreError>(GcPathMode::AllPaths),
        !(all_paths || by_class.is_some()) ==> match object_id {
            Some(id) => r == Ok::<GcPathMode, CoreError>(GcPathMode::Single(id)),
            None => r matches Err(e) && invalid_input_is(
                e,
                "object_id is required unless all_paths or by_class is set"@,
            ),
        },
{
    if all_paths || by_class.is_some() {
        return Ok(GcPathMode::AllPaths);
    }
    match object_id {
        Some(id) => Ok(GcPathMode::Single(id)),
        None => Err(invalid_input("object_id is required unless all_paths or by_class is set")),
    }
}

/// The overview limits of a request: a given `top_n` bounds both the class
/// and the instance listings; everything else keeps its default.
pub fn overview_options(top_n: Option<usize>) -> (o: OverviewOptions)
    ensures
        o.top_n_classes == (match top_n { Some(n) => n, None => DEFAULT_TOP_N_CLASSES }),
        o.top_n_instances == (match top_n { Some(n) => n, None => DEFAULT_TOP_N_INSTANCES }),
        o.max_class_table_size == DEFAULT_MAX_CLASS_TABLE_SIZE,
        o.max_thread_frames == DEFAULT_MAX_THREAD_FRAMES,
{
    let defaults = OverviewOptions::default();
    match top_n {
        Some(n) => OverviewOptions { top_n_classes: n, top_n_instances: n, ..defaults },
        None => defaults,
    }
}

} // verus!
