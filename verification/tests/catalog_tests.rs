use mnemosyne_core::mcp::catalog::{descriptor, tool_catalog, ParamDefault, ToolDescriptor, ToolParam};
use mnemosyne_core::mcp::dispatch::{route_method, McpMethod};

fn find<'a>(tools: &'a [ToolDescriptor], name: &str) -> &'a ToolDescriptor {
    tools.iter().find(|t| t.name == name).expect("tool")
}

fn param<'a>(tool: &'a ToolDescriptor, name: &str) -> &'a ToolParam {
    tool.params.iter().find(|p| p.name == name).expect("param")
}

#[test]
fn catalog_lists_every_tool_once_in_order() {
    let tools = tool_catalog();
    assert_eq!(tools.len(), 24);
    assert_eq!(tools[0].name, "list_tools");
    assert_eq!(tools[23].name, "close_workflow");
    for (i, a) in tools.iter().enumerate() {
        for b in tools.iter().skip(i + 1) {
            assert_ne!(a.name, b.name);
            assert_ne!(a.method, b.method);
        }
    }
}

#[test]
fn every_catalog_name_routes_to_its_tool() {
    for tool in tool_catalog() {
        assert_eq!(route_method(&tool.name), Ok(tool.method));
        assert_eq!(descriptor(tool.method), tool);
    }
}

#[test]
fn mcp_list_tools_advertises_mode_parameter() {
    let tools = tool_catalog();
    let analyze = find(&tools, "analyze_heap");
    let mode = param(analyze, "mode");
    assert_eq!(mode.choices, vec!["auto", "deep", "overview"]);
    assert!(!mode.required);
    assert_eq!(mode.default, Some(ParamDefault::Text("auto".to_string())));
    assert!(analyze.description.contains("streaming"));
    assert!(analyze.description.contains("no object graph"));
    assert!(analyze.description.contains("approximate"));
}

#[test]
fn handle_request_list_tools_returns_descriptions() {
    let tools = tool_catalog();
    assert!(find(&tools, "analyze_heap").description.contains("full analysis"));
    assert!(find(&tools, "list_tools").params.is_empty());
    assert!(find(&tools, "query_heap").description.contains("instance fields"));
}

#[test]
fn handle_request_list_tools_includes_ai_session_methods() {
    let tools = tool_catalog();
    for name in ["create_ai_session", "resume_ai_session", "get_ai_session", "close_ai_session", "chat_session"] {
        assert!(tools.iter().any(|t| t.name == name), "missing {name}");
    }
}

#[test]
fn list_tools_includes_diff_heaps() {
    let tools = tool_catalog();
    let diff = find(&tools, "diff_heaps");
    assert_eq!(
        diff.output_schema.as_deref(),
        Some("HeapDiff (existing) extended with optional object_diff: ObjectDiffReport")
    );
    let before = param(diff, "before");
    assert_eq!(before.kind, "string");
    assert!(before.required);
    assert_eq!(before.description, "Path to the BEFORE heap dump.");
    let mode = param(diff, "mode");
    assert_eq!(mode.default, Some(ParamDefault::Text("class".to_string())));
    assert_eq!(mode.choices, vec!["class", "object"]);
    assert_eq!(mode.description, "'class' (default) or 'object'.");
    let strategy = param(diff, "identity_strategy");
    assert_eq!(strategy.default, Some(ParamDefault::Text("class+dominator".to_string())));
    assert_eq!(strategy.choices, vec!["class+retained", "class+dominator", "full-fingerprint"]);
    assert_eq!(param(diff, "retained_bucket_bits").default, Some(ParamDefault::Number(10)));
    assert_eq!(param(diff, "retained_change_threshold").default, Some(ParamDefault::Number(1048576)));
    assert_eq!(param(diff, "top_n").default, Some(ParamDefault::Number(50)));
    assert_eq!(param(diff, "object_diff_min_retained").default, Some(ParamDefault::Number(4096)));
    let retain = param(diff, "retain_field_data");
    assert_eq!(retain.kind, "boolean");
    assert_eq!(retain.default, Some(ParamDefault::Flag(false)));
}

#[test]
fn mcp_list_tools_advertises_find_gc_path_new_params() {
    let tools = tool_catalog();
    let gc = find(&tools, "find_gc_path");
    for expected in ["all_paths", "by_class", "max_paths"] {
        assert!(gc.params.iter().any(|p| p.name == expected));
    }
}

#[test]
fn mcp_list_tools_advertises_inspect_object() {
    let tools = tool_catalog();
    let inspect = find(&tools, "inspect_object");
    for expected in ["heap_path", "object_id", "retain_field_data"] {
        assert!(inspect.params.iter().any(|p| p.name == expected));
    }
    assert_eq!(inspect.output_schema.as_deref(), Some("ObjectInspection"));
}

#[test]
fn mcp_list_tools_includes_open_snapshot_and_list_snapshots() {
    let tools = tool_catalog();
    let open = find(&tools, "open_snapshot");
    let key = param(open, "key");
    assert_eq!(key.kind, "string");
    assert!(key.required);
    assert_eq!(key.description, "SHA-256 hash or direct snapshot file path.");
    assert_eq!(open.output_schema.as_deref(), Some("SnapshotManifest"));
    let list = find(&tools, "list_snapshots");
    assert_eq!(list.output_schema.as_deref(), Some("Vec<SnapshotManifest>"));
}

#[test]
fn mcp_list_tools_advertises_snapshot_param_on_existing_tools() {
    let tools = tool_catalog();
    for name in ["analyze_heap", "parse_heap", "find_gc_path", "inspect_object", "query_heap"] {
        let tool = find(&tools, name);
        assert!(tool.params.iter().any(|p| p.name == "snapshot"), "{name}");
    }
}

#[test]
fn mcp_list_tools_includes_detect_classloader_leaks() {
    let tools = tool_catalog();
    let tool = find(&tools, "detect_classloader_leaks");
    let heap = param(tool, "heap_path");
    assert_eq!(heap.kind, "string");
    assert!(heap.required);
    assert_eq!(heap.description, "Path to the heap dump.");
    assert_eq!(tool.output_schema.as_deref(), Some("Vec<DuplicateClassGroup>"));
}

#[test]
fn mcp_list_tools_includes_workflow_tools() {
    let tools = tool_catalog();
    for expected in ["describe_workflow", "start_workflow", "next_step", "get_workflow", "close_workflow"] {
        assert!(tools.iter().any(|t| t.name == expected), "list_tools missing {expected}");
    }
    let start = find(&tools, "start_workflow");
    let names: Vec<&str> = start.params.iter().map(|p| p.name.as_str()).collect();
    assert_eq!(
        names,
        vec!["kind", "heap_path", "object_id", "before_heap_path", "after_heap_path", "before_snapshot_key", "after_snapshot_key"]
    );
    let next = find(&tools, "next_step");
    assert_eq!(next.params[0].name, "workflow_id");
    assert_eq!(next.params[1].name, "step_input");
    assert_eq!(descriptor(McpMethod::ListTools).params.len(), 0);
}
