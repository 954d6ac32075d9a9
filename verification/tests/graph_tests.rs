use mnemosyne_core::graph::dominator::{build_dominator_tree, tree_from_idoms, VIRTUAL_ROOT_ID};
use mnemosyne_core::graph::gc_root_path::shortest_gc_root_path;
use mnemosyne_core::graph::metrics::{
    build_graph_metrics_from_dominator, build_histogram, extract_package_name, find_unreachable_objects,
    resolve_class_loader_name, resolve_superclass_chain, HistogramGroupBy, MAX_SUPERCLASS_CHAIN_DEPTH,
};
use mnemosyne_core::hprof::object_graph::{ClassInfo, GcRoot, GcRootType, HeapObject, ObjectGraph, ObjectKind};
use mnemosyne_core::hprof::overview::GcRootKind;

fn make_graph(objects: &[(u64, u32, &[u64])], gc_root_ids: &[u64]) -> ObjectGraph {
    let mut graph = ObjectGraph::new(8);
    for &(id, shallow_size, refs) in objects {
        graph.objects.insert(
            id,
            HeapObject {
                id,
                class_id: 0x100,
                shallow_size,
                references: refs.to_vec(),
                field_data: Vec::new(),
                kind: ObjectKind::Instance,
            },
        );
    }
    for &id in gc_root_ids {
        graph.gc_roots.push(GcRoot { object_id: id, root_type: GcRootType::StickyClass });
    }
    graph
}

#[test]
fn test_empty_graph() {
    let graph = ObjectGraph::new(8);
    let tree = build_dominator_tree(&graph);
    assert_eq!(tree.node_count(), 0);
    assert!(tree.top_retained(10).is_empty());
}

#[test]
fn test_dominator_tree_linear_chain() {
    let graph = make_graph(&[(1, 10, &[2]), (2, 20, &[3]), (3, 30, &[])], &[1]);
    let tree = build_dominator_tree(&graph);
    assert_eq!(tree.node_count(), 3);
    assert_eq!(tree.immediate_dominator(1), Some(VIRTUAL_ROOT_ID));
    assert_eq!(tree.immediate_dominator(2), Some(1));
    assert_eq!(tree.immediate_dominator(3), Some(2));
    assert_eq!(tree.retained_size(3), 30);
    assert_eq!(tree.retained_size(2), 50);
    assert_eq!(tree.retained_size(1), 60);
}

#[test]
fn test_retained_sizes() {
    let graph = make_graph(&[(1, 10, &[2, 3]), (2, 20, &[4]), (3, 30, &[]), (4, 40, &[])], &[1]);
    let tree = build_dominator_tree(&graph);
    assert_eq!(tree.retained_size(4), 40);
    assert_eq!(tree.retained_size(2), 60);
    assert_eq!(tree.retained_size(3), 30);
    assert_eq!(tree.retained_size(1), 100);
}

#[test]
fn test_top_retained() {
    let graph = make_graph(&[(1, 10, &[2, 3]), (2, 20, &[4]), (3, 30, &[]), (4, 40, &[])], &[1]);
    let tree = build_dominator_tree(&graph);
    let top2 = tree.top_retained(2);
    assert_eq!(top2.len(), 2);
    assert_eq!(top2[0], (1, 100));
    assert_eq!(top2[1], (2, 60));
}

#[test]
fn top_retained_breaks_ties_by_id() {
    let graph = make_graph(&[(7, 10, &[]), (3, 10, &[]), (5, 20, &[])], &[7, 3, 5]);
    let tree = build_dominator_tree(&graph);
    assert_eq!(tree.top_retained(10), vec![(5, 20), (3, 10), (7, 10)]);
}

#[test]
fn test_diamond_graph() {
    let graph = make_graph(&[(1, 10, &[2, 3]), (2, 20, &[4]), (3, 30, &[4]), (4, 40, &[])], &[1]);
    let tree = build_dominator_tree(&graph);
    assert_eq!(tree.immediate_dominator(4), Some(1));
    assert!(tree.dominated_by(2).is_empty() || !tree.dominated_by(2).contains(&4));
    assert!(tree.dominated_by(3).is_empty() || !tree.dominated_by(3).contains(&4));
    assert!(tree.dominated_by(1).contains(&4));
}

#[test]
fn test_gc_root_not_in_objects() {
    let graph = make_graph(&[(1, 10, &[2]), (2, 20, &[])], &[0x9999, 1]);
    let tree = build_dominator_tree(&graph);
    assert_eq!(tree.node_count(), 2);
    assert_eq!(tree.immediate_dominator(1), Some(VIRTUAL_ROOT_ID));
    assert_eq!(tree.immediate_dominator(2), Some(1));
}

#[test]
fn test_unreachable_objects() {
    let graph = make_graph(&[(1, 10, &[2]), (2, 20, &[]), (3, 30, &[])], &[1]);
    let tree = build_dominator_tree(&graph);
    assert_eq!(tree.node_count(), 2);
    assert_eq!(tree.immediate_dominator(3), None);
    assert_eq!(tree.retained_size(3), 0);
}

#[test]
fn test_duplicate_gc_roots() {
    let graph = make_graph(&[(1, 10, &[])], &[1, 1]);
    let tree = build_dominator_tree(&graph);
    assert_eq!(tree.node_count(), 1);
    assert_eq!(tree.retained_size(1), 10);
}

#[test]
fn test_multiple_gc_roots() {
    let graph = make_graph(&[(1, 10, &[3]), (2, 20, &[4]), (3, 30, &[]), (4, 40, &[])], &[1, 2]);
    let tree = build_dominator_tree(&graph);
    assert_eq!(tree.node_count(), 4);
    assert_eq!(tree.immediate_dominator(1), Some(VIRTUAL_ROOT_ID));
    assert_eq!(tree.immediate_dominator(2), Some(VIRTUAL_ROOT_ID));
    assert_eq!(tree.immediate_dominator(3), Some(1));
    assert_eq!(tree.immediate_dominator(4), Some(2));
    assert_eq!(tree.retained_size(1), 40);
    assert_eq!(tree.retained_size(2), 60);
}

#[test]
fn retained_size_of_virtual_root_covers_every_reachable_object() {
    let graph = make_graph(&[(1, 10, &[3]), (2, 20, &[4]), (3, 30, &[]), (4, 40, &[]), (5, 50, &[])], &[1, 2]);
    let tree = build_dominator_tree(&graph);
    assert_eq!(tree.retained_size(VIRTUAL_ROOT_ID), 100);
    let kids = tree.dominated_by(VIRTUAL_ROOT_ID);
    let sum: u64 = kids.iter().map(|k| tree.retained_size(*k)).sum();
    assert_eq!(sum, tree.retained_size(VIRTUAL_ROOT_ID));
}

fn add_class(graph: &mut ObjectGraph, class_id: u64, super_class_id: u64, name: &str, instance_size: u32, loader: u64) {
    graph.classes.insert(
        class_id,
        ClassInfo {
            class_obj_id: class_id,
            super_class_id,
            class_loader_id: loader,
            instance_size,
            name: Some(name.into()),
            instance_fields: Vec::new(),
            static_references: Vec::new(),
        },
    );
}

fn add_object(graph: &mut ObjectGraph, object_id: u64, class_id: u64, shallow_size: u32, references: &[u64]) {
    graph.objects.insert(
        object_id,
        HeapObject {
            id: object_id,
            class_id,
            shallow_size,
            references: references.to_vec(),
            field_data: Vec::new(),
            kind: ObjectKind::Instance,
        },
    );
}

fn synthetic_graph() -> ObjectGraph {
    let mut graph = ObjectGraph::new(8);
    add_class(&mut graph, 0x100, 0, "java.lang.Object", 8, 0);
    add_class(&mut graph, 0x200, 0x100, "com.example.Root", 16, 0);
    add_class(&mut graph, 0x300, 0x100, "com.example.Middle", 24, 0);
    add_class(&mut graph, 0x400, 0x100, "com.example.Target", 24, 0);
    add_class(&mut graph, 0x500, 0x100, "com.example.Unreachable", 24, 0);
    add_object(&mut graph, 1, 0x200, 16, &[2]);
    add_object(&mut graph, 2, 0x300, 24, &[3]);
    add_object(&mut graph, 3, 0x400, 32, &[]);
    add_object(&mut graph, 99, 0x500, 32, &[]);
    graph.gc_roots.push(GcRoot { object_id: 1, root_type: GcRootType::StickyClass });
    graph
}

#[test]
fn shortest_gc_root_path_finds_known_path_in_synthetic_graph() {
    let graph = synthetic_graph();
    let path = shortest_gc_root_path(&graph, 3, 8).expect("path should exist");
    assert_eq!(path.root_kind, GcRootKind::StickyClass);
    assert_eq!(path.frames, vec![1, 2, 3]);
}

#[test]
fn shortest_gc_root_path_returns_none_for_unreachable() {
    let graph = synthetic_graph();
    assert_eq!(shortest_gc_root_path(&graph, 99, 8), None);
}

#[test]
fn shortest_gc_root_path_respects_max_depth() {
    let graph = synthetic_graph();
    assert_eq!(shortest_gc_root_path(&graph, 3, 2), None);
    assert!(shortest_gc_root_path(&graph, 3, 3).is_some());
}

#[test]
fn shortest_gc_root_path_prefers_shorter_chain_and_first_root_kind() {
    let mut graph = synthetic_graph();
    add_object(&mut graph, 4, 0x300, 8, &[3]);
    graph.gc_roots.push(GcRoot { object_id: 4, root_type: GcRootType::JniGlobal });
    graph.gc_roots.push(GcRoot { object_id: 4, root_type: GcRootType::MonitorUsed });
    let path = shortest_gc_root_path(&graph, 3, 8).unwrap();
    assert_eq!(path.frames, vec![4, 3]);
    assert_eq!(path.root_kind, GcRootKind::JniGlobal);
    assert_eq!(shortest_gc_root_path(&graph, 3, 0), None);
}

fn make_test_graph(objects: &[(u64, u64, u32, &[u64])], gc_roots: &[u64]) -> ObjectGraph {
    let mut graph = ObjectGraph::new(8);
    for &(id, class_id, size, refs) in objects {
        add_object(&mut graph, id, class_id, size, refs);
    }
    for &root_id in gc_roots {
        graph.gc_roots.push(GcRoot { object_id: root_id, root_type: GcRootType::StickyClass });
    }
    graph
}

#[test]
fn build_graph_metrics_from_dominator_populates_retained_size() {
    let obj_graph = make_test_graph(&[(1, 0x100, 10, &[2]), (2, 0x100, 20, &[3]), (3, 0x100, 30, &[])], &[1]);
    let dom = build_dominator_tree(&obj_graph);
    let metrics = build_graph_metrics_from_dominator(&dom, &obj_graph);
    assert_eq!(metrics.node_count, 3);
    assert_eq!(metrics.edge_count, 2);
    assert!(!metrics.dominators.is_empty());
    assert_eq!(metrics.dominators[0].retained_size, 60);
    assert_eq!(metrics.dominators[1].retained_size, 50);
    assert_eq!(metrics.dominators[2].retained_size, 30);
}

#[test]
fn build_graph_metrics_from_dominator_exposes_browser_navigation_fields() {
    let mut obj_graph = make_test_graph(
        &[(0x1000, 0x100, 10, &[0x2000]), (0x2000, 0x200, 20, &[0x3000]), (0x3000, 0x300, 30, &[])],
        &[0x1000],
    );
    add_class(&mut obj_graph, 0x100, 0, "com.example.Root", 16, 0);
    add_class(&mut obj_graph, 0x200, 0, "com.example.Parent", 16, 0);
    add_class(&mut obj_graph, 0x300, 0, "com.example.Child", 16, 0);
    let dom = build_dominator_tree(&obj_graph);
    let metrics = build_graph_metrics_from_dominator(&dom, &obj_graph);
    assert_eq!(metrics.dominators.len(), 3);
    assert_eq!(metrics.dominators[0].name, "com.example.Root");
    assert_eq!(metrics.dominators[0].class_name, "com.example.Root");
    assert_eq!(metrics.dominators[0].object_id, "0x0000000000001000");
    assert_eq!(metrics.dominators[0].shallow_size, 10);
    assert_eq!(metrics.dominators[1].name, "com.example.Parent");
    assert_eq!(metrics.dominators[1].class_name, "com.example.Parent");
    assert_eq!(metrics.dominators[1].object_id, "0x0000000000002000");
    assert_eq!(metrics.dominators[1].immediate_dominator.as_deref(), Some("com.example.Root"));
    assert_eq!(metrics.dominators[1].shallow_size, 20);
    assert_eq!(metrics.dominators[2].name, "com.example.Child");
    assert_eq!(metrics.dominators[2].class_name, "com.example.Child");
    assert_eq!(metrics.dominators[2].object_id, "0x0000000000003000");
    assert_eq!(metrics.dominators[2].immediate_dominator.as_deref(), Some("com.example.Parent"));
    assert_eq!(metrics.dominators[2].shallow_size, 30);
}

#[test]
fn histogram_groups_by_class() {
    let mut graph = make_test_graph(&[(1, 100, 10, &[2]), (2, 100, 20, &[]), (3, 200, 30, &[])], &[1, 3]);
    add_class(&mut graph, 100, 0, "com.example.Cache", 16, 0);
    add_class(&mut graph, 200, 0, "com.example.Listener", 16, 0);
    let dom = build_dominator_tree(&graph);
    let histogram = build_histogram(&graph, &dom, HistogramGroupBy::Class);
    assert_eq!(histogram.total_instances, 3);
    assert_eq!(histogram.total_shallow_size, 60);
    assert_eq!(histogram.entries.len(), 2);
    assert_eq!(histogram.entries[0].key, "com.example.Cache");
    assert_eq!(histogram.entries[0].instance_count, 2);
    assert_eq!(histogram.entries[0].shallow_size, 30);
    assert_eq!(histogram.entries[0].retained_size, 50);
    assert_eq!(histogram.entries[1].key, "com.example.Listener");
}

#[test]
fn histogram_groups_by_package_prefix() {
    let mut graph = make_test_graph(&[(1, 100, 10, &[]), (2, 200, 20, &[]), (3, 300, 30, &[])], &[1, 2, 3]);
    add_class(&mut graph, 100, 0, "com.example.cache.CacheA", 16, 0);
    add_class(&mut graph, 200, 0, "com.example.cache.CacheB", 16, 0);
    add_class(&mut graph, 300, 0, "DefaultClass", 16, 0);
    let dom = build_dominator_tree(&graph);
    let histogram = build_histogram(&graph, &dom, HistogramGroupBy::Package);
    assert_eq!(histogram.entries.len(), 2);
    let cache_group = histogram.entries.iter().find(|entry| entry.key == "com.example.cache").unwrap();
    let default_group = histogram.entries.iter().find(|entry| entry.key == "<default>").unwrap();
    assert_eq!(cache_group.instance_count, 2);
    assert_eq!(default_group.instance_count, 1);
}

#[test]
fn histogram_groups_by_class_loader() {
    let mut graph = make_test_graph(&[(1, 100, 10, &[]), (2, 200, 20, &[]), (7, 300, 5, &[])], &[1, 2, 7]);
    add_class(&mut graph, 100, 0, "com.example.A", 16, 0);
    add_class(&mut graph, 200, 0, "com.example.B", 16, 7);
    add_class(&mut graph, 300, 0, "app.Loader", 16, 0);
    let dom = build_dominator_tree(&graph);
    let histogram = build_histogram(&graph, &dom, HistogramGroupBy::ClassLoader);
    let boot = histogram.entries.iter().find(|e| e.key == "<bootstrap>").unwrap();
    assert_eq!(boot.instance_count, 2);
    let app = histogram.entries.iter().find(|e| e.key == "app.Loader").unwrap();
    assert_eq!(app.instance_count, 1);
    assert_eq!(resolve_class_loader_name(&graph, 0x77), "<loader:119>");
}

#[test]
fn histogram_handles_empty_graph() {
    let graph = ObjectGraph::new(8);
    let dom = build_dominator_tree(&graph);
    let histogram = build_histogram(&graph, &dom, HistogramGroupBy::Class);
    assert_eq!(histogram.total_instances, 0);
    assert_eq!(histogram.total_shallow_size, 0);
    assert!(histogram.entries.is_empty());
}

#[test]
fn histogram_groups_by_immediate_superclass_across_a_three_level_hierarchy() {
    let mut graph = make_test_graph(
        &[(1, 300, 10, &[]), (2, 300, 20, &[]), (3, 200, 30, &[]), (4, 100, 40, &[]), (5, 350, 5, &[])],
        &[1, 2, 3, 4, 5],
    );
    add_class(&mut graph, 100, 0, "com.example.Root", 16, 0);
    add_class(&mut graph, 200, 100, "com.example.Mid", 16, 0);
    add_class(&mut graph, 300, 200, "com.example.Leaf", 16, 0);
    add_class(&mut graph, 350, 200, "com.example.OtherLeaf", 16, 0);
    let dom = build_dominator_tree(&graph);
    let histogram = build_histogram(&graph, &dom, HistogramGroupBy::Superclass);
    assert_eq!(histogram.total_instances, 5);
    assert_eq!(histogram.total_shallow_size, 105);
    let mid_group = histogram.entries.iter().find(|entry| entry.key == "com.example.Mid").unwrap();
    assert_eq!(mid_group.instance_count, 3);
    assert_eq!(mid_group.shallow_size, 35);
    let root_group = histogram.entries.iter().find(|entry| entry.key == "com.example.Root").unwrap();
    assert_eq!(root_group.instance_count, 1);
    assert_eq!(root_group.shallow_size, 30);
    let object_group = histogram.entries.iter().find(|entry| entry.key == "<java.lang.Object>").unwrap();
    assert_eq!(object_group.instance_count, 1);
    assert_eq!(object_group.shallow_size, 40);
}

#[test]
fn histogram_group_by_superclass_falls_back_to_unknown_for_unresolved_class() {
    let graph = make_test_graph(&[(1, 999, 10, &[])], &[1]);
    let dom = build_dominator_tree(&graph);
    let histogram = build_histogram(&graph, &dom, HistogramGroupBy::Superclass);
    assert_eq!(histogram.entries.len(), 1);
    assert_eq!(histogram.entries[0].key, "<unknown>");
}

#[test]
fn histogram_group_by_superclass_names_unnamed_superclass_by_id() {
    let mut graph = make_test_graph(&[(1, 300, 10, &[])], &[1]);
    add_class(&mut graph, 300, 77, "com.example.Leaf", 16, 0);
    let dom = build_dominator_tree(&graph);
    let histogram = build_histogram(&graph, &dom, HistogramGroupBy::Superclass);
    assert_eq!(histogram.entries[0].key, "<class:77>");
}

#[test]
fn resolve_superclass_chain_self_referential_class_does_not_hang_and_returns_empty() {
    let mut graph = ObjectGraph::new(8);
    add_class(&mut graph, 100, 100, "com.example.SelfLoopClass", 16, 0);
    let chain = resolve_superclass_chain(&graph, 100, MAX_SUPERCLASS_CHAIN_DEPTH);
    assert!(chain.is_empty());
}

#[test]
fn histogram_group_by_superclass_on_self_referential_class_does_not_hang() {
    let mut graph = make_test_graph(&[(1, 100, 10, &[])], &[1]);
    add_class(&mut graph, 100, 100, "com.example.SelfLoopClass", 16, 0);
    let dom = build_dominator_tree(&graph);
    let histogram = build_histogram(&graph, &dom, HistogramGroupBy::Superclass);
    assert_eq!(histogram.total_instances, 1);
    assert_eq!(histogram.entries.len(), 1);
    assert_eq!(histogram.entries[0].key, "<java.lang.Object>");
}

#[test]
fn resolve_superclass_chain_two_node_cycle_terminates_after_first_repeat() {
    let mut graph = ObjectGraph::new(8);
    add_class(&mut graph, 100, 200, "com.example.X", 16, 0);
    add_class(&mut graph, 200, 100, "com.example.Y", 16, 0);
    let chain = resolve_superclass_chain(&graph, 100, MAX_SUPERCLASS_CHAIN_DEPTH);
    assert_eq!(chain, vec![200]);
    assert!(chain.len() < MAX_SUPERCLASS_CHAIN_DEPTH);
}

#[test]
fn resolve_superclass_chain_respects_max_depth_on_a_longer_acyclic_chain() {
    let mut graph = ObjectGraph::new(8);
    add_class(&mut graph, 1, 0, "com.example.Gen0", 16, 0);
    add_class(&mut graph, 2, 1, "com.example.Gen1", 16, 0);
    add_class(&mut graph, 3, 2, "com.example.Gen2", 16, 0);
    add_class(&mut graph, 4, 3, "com.example.Gen3", 16, 0);
    add_class(&mut graph, 5, 4, "com.example.Gen4", 16, 0);
    let full_chain = resolve_superclass_chain(&graph, 5, MAX_SUPERCLASS_CHAIN_DEPTH);
    assert_eq!(full_chain, vec![4, 3, 2, 1]);
    let truncated = resolve_superclass_chain(&graph, 5, 3);
    assert_eq!(truncated, vec![4, 3, 2]);
    assert_eq!(truncated.len(), 3);
}

#[test]
fn extract_package_name_handles_separators() {
    assert_eq!(extract_package_name("com/example/Node"), "com/example");
    assert_eq!(extract_package_name("com.example.Node"), "com.example");
    assert_eq!(extract_package_name("Node"), "<default>");
    assert_eq!(extract_package_name(".Node"), "<default>");
}

#[test]
fn finds_unreachable_objects() {
    let mut graph = make_test_graph(
        &[(1, 100, 10, &[2]), (2, 200, 20, &[]), (3, 300, 30, &[4]), (4, 300, 40, &[])],
        &[1],
    );
    add_class(&mut graph, 100, 0, "com.example.Root", 16, 0);
    add_class(&mut graph, 200, 0, "com.example.Live", 16, 0);
    add_class(&mut graph, 300, 0, "com.example.Dead", 16, 0);
    let unreachable = find_unreachable_objects(&graph);
    assert_eq!(unreachable.total_count, 2);
    assert_eq!(unreachable.total_shallow_size, 70);
    assert_eq!(unreachable.by_class.len(), 1);
    assert_eq!(unreachable.by_class[0].class_name, "com.example.Dead");
    assert_eq!(unreachable.by_class[0].count, 2);
    assert_eq!(unreachable.by_class[0].shallow_size, 70);
}

#[test]
fn fully_reachable_graph_has_no_unreachable_objects() {
    let mut graph = make_test_graph(&[(1, 100, 10, &[2]), (2, 200, 20, &[])], &[1]);
    add_class(&mut graph, 100, 0, "com.example.Root", 16, 0);
    add_class(&mut graph, 200, 0, "com.example.Live", 16, 0);
    let unreachable = find_unreachable_objects(&graph);
    assert_eq!(unreachable.total_count, 0);
    assert_eq!(unreachable.total_shallow_size, 0);
    assert!(unreachable.by_class.is_empty());
}

#[test]
fn unreachable_classes_sorted_by_size_then_count_then_name() {
    let graph = make_test_graph(&[(1, 1, 10, &[]), (2, 2, 10, &[]), (3, 3, 30, &[])], &[]);
    let unreachable = find_unreachable_objects(&graph);
    assert_eq!(unreachable.total_count, 3);
    assert_eq!(unreachable.by_class.len(), 1);
    assert_eq!(unreachable.by_class[0].class_name, "<unknown>");
    assert_eq!(unreachable.by_class[0].shallow_size, 50);
}

fn summary_with(classes: Vec<mnemosyne_core::heap::ClassStat>, records: Vec<mnemosyne_core::heap::RecordStat>) -> mnemosyne_core::heap::HeapSummary {
    mnemosyne_core::heap::HeapSummary {
        heap_path: "test.hprof".into(),
        total_objects: 1,
        total_size_bytes: 100,
        classes,
        header: None,
        total_records: 0,
        record_stats: records,
    }
}

#[test]
fn summarize_graph_sets_zero_retained_size() {
    let summary = summary_with(
        vec![mnemosyne_core::heap::ClassStat {
            name: "com.example.Foo".into(),
            instances: 1,
            total_size_bytes: 100,
        }],
        Vec::new(),
    );
    let labels = vec!["com.example.Foo (100.0% / 0.00 MB)".to_string()];
    let metrics = mnemosyne_core::graph::metrics::summarize_graph(&summary, &labels);
    for node in &metrics.dominators {
        assert_eq!(node.retained_size, 0, "summarize_graph nodes must have zero retained_size");
    }
}

#[test]
fn summarize_graph_roots_every_source() {
    let records: Vec<mnemosyne_core::heap::RecordStat> = (0..14u8)
        .map(|i| mnemosyne_core::heap::RecordStat { tag: i, name: format!("R{i}"), count: i as u64 * 2, bytes: 0 })
        .collect();
    let metrics = mnemosyne_core::graph::metrics::summarize_graph(&summary_with(Vec::new(), records), &Vec::new());
    assert_eq!(metrics.node_count, 13);
    assert_eq!(metrics.edge_count, 23);
    assert_eq!(metrics.dominators.len(), 12);
    assert_eq!(metrics.dominators[3].name, "R3");
    assert_eq!(metrics.dominators[3].dominates, 6);
    for node in &metrics.dominators {
        assert_eq!(node.immediate_dominator.as_deref(), Some("<heap-root>"));
    }
    let empty = mnemosyne_core::graph::metrics::summarize_graph(&summary_with(Vec::new(), Vec::new()), &Vec::new());
    assert_eq!(empty.node_count, 0);
    assert!(empty.dominators.is_empty());
}

#[test]
fn tree_from_given_immediate_dominators() {
    // Diamond 1 -> {2, 3} -> 4, numbered 1..=4 after the virtual root 0.
    let graph = make_graph(&[(1, 10, &[2, 3]), (2, 20, &[4]), (3, 30, &[4]), (4, 40, &[])], &[1]);
    let ids: Vec<u64> = vec![1, 2, 3, 4];
    let idoms: Vec<Option<u32>> = vec![None, Some(0), Some(1), Some(1), Some(1)];
    let tree = tree_from_idoms(&graph.objects, &ids, &idoms);
    assert_eq!(tree.immediate_dominator(1), Some(VIRTUAL_ROOT_ID));
    assert_eq!(tree.immediate_dominator(2), Some(1));
    assert_eq!(tree.immediate_dominator(3), Some(1));
    assert_eq!(tree.immediate_dominator(4), Some(1));
    assert_eq!(tree.retained_size(4), 40);
    assert_eq!(tree.retained_size(1), 100);
    let mut children = tree.dominated_by(1);
    children.sort();
    assert_eq!(children, vec![2, 3, 4]);
}

#[test]
fn tree_from_idoms_leaves_unreached_objects_out() {
    let graph = make_graph(&[(1, 10, &[]), (2, 20, &[])], &[1]);
    let ids: Vec<u64> = vec![1, 2];
    let idoms: Vec<Option<u32>> = vec![None, Some(0), None];
    let tree = tree_from_idoms(&graph.objects, &ids, &idoms);
    assert_eq!(tree.immediate_dominator(1), Some(VIRTUAL_ROOT_ID));
    assert_eq!(tree.immediate_dominator(2), None);
    assert_eq!(tree.retained_size(2), 0);
    assert_eq!(tree.retained_size(1), 10);
}

#[test]
fn shortest_path_is_preferred_over_a_longer_one() {
    // Root 1 reaches 4 directly and through 2 -> 3.
    let graph = make_graph(&[(1, 10, &[2, 4]), (2, 20, &[3]), (3, 30, &[4]), (4, 40, &[])], &[1]);
    let path = shortest_gc_root_path(&graph, 4, 8).expect("path");
    assert_eq!(path.frames, vec![1, 4]);
    assert_eq!(shortest_gc_root_path(&graph, 4, 1), None);
}

#[test]
fn objects_without_a_root_chain_have_no_dominator() {
    // 1 is a root and references 2; 3 references 2 but nothing reaches 3.
    let graph = make_graph(&[(1, 10, &[2]), (2, 20, &[]), (3, 30, &[2])], &[1]);
    let tree = build_dominator_tree(&graph);
    assert_eq!(tree.immediate_dominator(1), Some(VIRTUAL_ROOT_ID));
    assert_eq!(tree.immediate_dominator(2), Some(1));
    assert_eq!(tree.immediate_dominator(3), None);
    assert_eq!(tree.retained_size(3), 0);
    assert_eq!(tree.node_count(), 2);
}

#[test]
fn histogram_group_counts_and_sizes_add_up_to_the_totals() {
    let mut graph = make_test_graph(
        &[(1, 100, 10, &[2]), (2, 200, 20, &[]), (3, 300, 30, &[]), (4, 100, 7, &[])],
        &[1, 3, 4],
    );
    add_class(&mut graph, 100, 0, "com.example.cache.CacheA", 16, 0);
    add_class(&mut graph, 200, 0, "com.example.cache.CacheB", 16, 0);
    add_class(&mut graph, 300, 0, "DefaultClass", 16, 0);
    let dom = build_dominator_tree(&graph);
    for group_by in [HistogramGroupBy::Class, HistogramGroupBy::Package, HistogramGroupBy::ClassLoader] {
        let histogram = build_histogram(&graph, &dom, group_by);
        let count: u64 = histogram.entries.iter().map(|e| e.instance_count).sum();
        let shallow: u64 = histogram.entries.iter().map(|e| e.shallow_size).sum();
        assert_eq!(count, 4);
        assert_eq!(histogram.total_instances, 4);
        assert_eq!(shallow, 67);
        assert_eq!(histogram.total_shallow_size, 67);
    }
}
