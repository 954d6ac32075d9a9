use mnemosyne_core::errors::CoreError;
use mnemosyne_core::hprof::overview::{
    DEFAULT_MAX_CLASS_TABLE_SIZE, DEFAULT_MAX_THREAD_FRAMES, DEFAULT_TOP_N_CLASSES,
    DEFAULT_TOP_N_INSTANCES,
};
use mnemosyne_core::mcp::dispatch::{
    explain_leak_source, gc_path_mode, leak_source, overview_options, route_method, GcPathMode,
    LeakSource, McpMethod,
};

#[test]
fn every_tool_name_routes_to_its_tool() {
    let cases = [
        ("list_tools", McpMethod::ListTools),
        ("open_snapshot", McpMethod::OpenSnapshot),
        ("list_snapshots", McpMethod::ListSnapshots),
        ("parse_heap", McpMethod::ParseHeap),
        ("detect_leaks", McpMethod::DetectLeaks),
        ("create_ai_session", McpMethod::CreateAiSession),
        ("resume_ai_session", McpMethod::ResumeAiSession),
        ("get_ai_session", McpMethod::GetAiSession),
        ("close_ai_session", McpMethod::CloseAiSession),
        ("chat_session", McpMethod::ChatSession),
        ("analyze_heap", McpMethod::AnalyzeHeap),
        ("diff_heaps", McpMethod::DiffHeaps),
        ("query_heap", McpMethod::QueryHeap),
        ("map_to_code", McpMethod::MapToCode),
        ("find_gc_path", McpMethod::FindGcPath),
        ("inspect_object", McpMethod::InspectObject),
        ("detect_classloader_leaks", McpMethod::DetectClassloaderLeaks),
        ("explain_leak", McpMethod::ExplainLeak),
        ("propose_fix", McpMethod::ProposeFix),
        ("describe_workflow", McpMethod::DescribeWorkflow),
        ("start_workflow", McpMethod::StartWorkflow),
        ("next_step", McpMethod::NextStep),
        ("get_workflow", McpMethod::GetWorkflow),
        ("close_workflow", McpMethod::CloseWorkflow),
    ];
    for (name, method) in cases {
        assert_eq!(route_method(name), Ok(method), "{name}");
    }
}

#[test]
fn unknown_method_is_refused_by_name() {
    assert_eq!(
        route_method("drop_tables"),
        Err(CoreError::InvalidInput("unsupported MCP method: drop_tables".into()))
    );
    assert_eq!(
        route_method("List_Tools"),
        Err(CoreError::InvalidInput("unsupported MCP method: List_Tools".into()))
    );
    assert_eq!(
        route_method(""),
        Err(CoreError::InvalidInput("unsupported MCP method: ".into()))
    );
}

#[test]
fn leak_source_needs_exactly_one_origin() {
    assert_eq!(
        leak_source(Some("heap.hprof".into()), None),
        Ok(LeakSource::HeapPath("heap.hprof".into()))
    );
    assert_eq!(
        leak_source(None, Some("abc".into())),
        Ok(LeakSource::Session("abc".into()))
    );
    let both = leak_source(Some("heap.hprof".into()), Some("abc".into()));
    let neither = leak_source(None, None);
    let expected = CoreError::InvalidInput("exactly one of heap_path or session_id is required".into());
    assert_eq!(both, Err(expected.clone()));
    assert_eq!(neither, Err(expected));
}

#[test]
fn session_backed_explanations_refuse_a_severity() {
    assert_eq!(
        explain_leak_source(None, Some("abc".into()), &Some(3u8)),
        Err(CoreError::InvalidInput(
            "min_severity is not supported for session-backed explain_leak".into()
        ))
    );
    assert_eq!(
        explain_leak_source::<u8>(None, Some("abc".into()), &None),
        Ok(LeakSource::Session("abc".into()))
    );
    assert_eq!(
        explain_leak_source(Some("heap.hprof".into()), None, &Some(3u8)),
        Ok(LeakSource::HeapPath("heap.hprof".into()))
    );
    assert_eq!(
        explain_leak_source(None, None, &Some(3u8)),
        Err(CoreError::InvalidInput("exactly one of heap_path or session_id is required".into()))
    );
}

#[test]
fn gc_path_mode_requires_an_object_for_a_single_path() {
    assert_eq!(gc_path_mode(true, &None, None), Ok(GcPathMode::AllPaths));
    assert_eq!(gc_path_mode(false, &Some("com.example.Cache".into()), None), Ok(GcPathMode::AllPaths));
    assert_eq!(gc_path_mode(true, &None, Some("0x10".into())), Ok(GcPathMode::AllPaths));
    assert_eq!(
        gc_path_mode(false, &None, Some("0x10".into())),
        Ok(GcPathMode::Single("0x10".into()))
    );
    assert_eq!(
        gc_path_mode(false, &None, None),
        Err(CoreError::InvalidInput(
            "object_id is required unless all_paths or by_class is set".into()
        ))
    );
}

#[test]
fn overview_options_apply_top_n_to_both_listings() {
    let o = overview_options(Some(7));
    assert_eq!(o.top_n_classes, 7);
    assert_eq!(o.top_n_instances, 7);
    assert_eq!(o.max_class_table_size, DEFAULT_MAX_CLASS_TABLE_SIZE);
    assert_eq!(o.max_thread_frames, DEFAULT_MAX_THREAD_FRAMES);
    let d = overview_options(None);
    assert_eq!(d.top_n_classes, DEFAULT_TOP_N_CLASSES);
    assert_eq!(d.top_n_instances, DEFAULT_TOP_N_INSTANCES);
    assert_eq!(d.max_class_table_size, DEFAULT_MAX_CLASS_TABLE_SIZE);
    assert_eq!(d.max_thread_frames, DEFAULT_MAX_THREAD_FRAMES);
}
