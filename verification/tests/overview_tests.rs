use mnemosyne_core::hprof::overview::{
    ClassAccumulator, GcRootCounter, GcRootKind, OverviewAccumulators, OverviewInstanceStat,
    OverviewOptions, OverviewSummary, OverviewThreadFrame, ThreadFrameBuffer, TopNCollector,
};
use std::collections::HashMap;

fn instance_stat(
    object_id: u64,
    class_id: u64,
    class_name: &str,
    approx_retained_bytes: u64,
) -> OverviewInstanceStat {
    OverviewInstanceStat {
        object_id,
        class_id,
        class_name: class_name.to_string(),
        approx_retained_bytes,
    }
}

fn thread_frame(thread_serial: u32, class_name: &str, method_name: &str) -> OverviewThreadFrame {
    OverviewThreadFrame {
        thread_serial,
        class_name: class_name.to_string(),
        method_name: method_name.to_string(),
        source_file: String::from("Example.java"),
        line_number: 42,
    }
}

#[test]
fn bounded_top_n_keeps_only_largest() {
    let mut collector = TopNCollector::new(3);
    collector.push(10, 10u64);
    collector.push(30, 30u64);
    collector.push(20, 20u64);
    collector.push(50, 50u64);
    collector.push(40, 40u64);

    assert_eq!(collector.into_sorted_vec_desc(), vec![50, 40, 30]);
}

#[test]
fn class_accumulator_groups_by_class_id() {
    let mut accumulator = ClassAccumulator::new(10);
    for _ in 0..40 {
        accumulator.add(0x1, 4);
    }
    for _ in 0..35 {
        accumulator.add(0x2, 8);
    }
    for _ in 0..25 {
        accumulator.add(0x3, 2);
    }

    let class_names = HashMap::from([
        (0x1, String::from("alpha")),
        (0x2, String::from("beta")),
        (0x3, String::from("gamma")),
    ]);
    let stats = accumulator.into_top_class_stats(&class_names, 10);
    let by_id = stats
        .entries
        .into_iter()
        .map(|entry| (entry.class_id, entry))
        .collect::<HashMap<_, _>>();

    assert!(!stats.truncated);
    assert_eq!(by_id.len(), 3);
    assert_eq!(by_id.get(&0x1).map(|entry| entry.instance_count), Some(40));
    assert_eq!(by_id.get(&0x1).map(|entry| entry.approx_shallow_bytes), Some(160));
    assert_eq!(by_id.get(&0x2).map(|entry| entry.instance_count), Some(35));
    assert_eq!(by_id.get(&0x2).map(|entry| entry.approx_shallow_bytes), Some(280));
    assert_eq!(by_id.get(&0x3).map(|entry| entry.instance_count), Some(25));
    assert_eq!(by_id.get(&0x3).map(|entry| entry.approx_shallow_bytes), Some(50));
}

#[test]
fn class_accumulator_truncates_when_full() {
    let mut accumulator = ClassAccumulator::new(2);
    accumulator.add(0x1, 10);
    accumulator.add(0x2, 20);
    accumulator.add(0x3, 30);
    accumulator.add(0x1, 40);

    let stats = accumulator.into_top_class_stats(&HashMap::new(), 10);

    assert!(stats.truncated);
    assert_eq!(stats.entries.len(), 2);
    assert!(stats.entries.iter().all(|entry| entry.class_id != 0x3));
    assert!(stats.entries.iter().any(|entry| {
        entry.class_id == 0x1 && entry.instance_count == 2 && entry.approx_shallow_bytes == 50
    }));
}

#[test]
fn class_accumulator_fallback_class_name() {
    let mut accumulator = ClassAccumulator::new(10);
    accumulator.add(0xbeef, 64);

    let stats = accumulator.into_top_class_stats(&HashMap::new(), 10);

    assert_eq!(stats.entries.len(), 1);
    assert_eq!(stats.entries[0].class_name, "<unresolved class id 0xbeef>");
}

#[test]
fn gc_root_counts_aggregate_by_kind() {
    let mut counter = GcRootCounter::default();
    counter.increment(GcRootKind::JniGlobal);
    counter.increment(GcRootKind::JniGlobal);
    counter.increment(GcRootKind::ThreadObject);

    let counts = counter.into_counts();

    assert_eq!(counts.get(&GcRootKind::JniGlobal), Some(&2));
    assert_eq!(counts.get(&GcRootKind::ThreadObject), Some(&1));
    assert_eq!(counts.get(&GcRootKind::StickyClass), None);
}

#[test]
fn thread_frame_buffer_keeps_most_recent() {
    let mut buffer = ThreadFrameBuffer::new(2);
    buffer.push(thread_frame(1, "alpha", "a"));
    buffer.push(thread_frame(2, "beta", "b"));
    buffer.push(thread_frame(3, "gamma", "c"));

    let (frames, truncated) = buffer.into_frames();

    assert!(truncated);
    assert_eq!(frames.len(), 2);
    assert_eq!(frames[0].method_name, "b");
    assert_eq!(frames[1].method_name, "c");
}

#[test]
fn overview_summary_merges_accumulators() {
    let options = OverviewOptions {
        top_n_classes: 2,
        top_n_instances: 2,
        max_class_table_size: 10,
        max_thread_frames: 2,
    };
    let mut accumulators = OverviewAccumulators::new(options.clone());
    accumulators.record_class_name(0x1, "alpha");
    accumulators.record_class_name(0x2, "beta");
    accumulators.add_class_instance(0x1, 64);
    accumulators.add_class_instance(0x1, 32);
    accumulators.add_class_instance(0x2, 16);
    accumulators.add_top_instance(instance_stat(0x10, 0x1, "alpha", 100));
    accumulators.add_top_instance(instance_stat(0x11, 0x2, "beta", 200));
    accumulators.add_top_instance(instance_stat(0x12, 0x1, "alpha", 300));
    accumulators.increment_gc_root(GcRootKind::ThreadObject);
    accumulators.increment_gc_root(GcRootKind::ThreadObject);
    accumulators.push_thread_frame(thread_frame(1, "alpha", "first"));
    accumulators.push_thread_frame(thread_frame(2, "beta", "second"));
    accumulators.push_thread_frame(thread_frame(3, "gamma", "third"));

    let summary = OverviewSummary::from_accumulators("heap.hprof", 2048, 17, accumulators);

    assert_eq!(summary.heap_path, "heap.hprof");
    assert_eq!(summary.total_bytes_processed, 2048);
    assert_eq!(summary.total_record_count, 17);
    assert_eq!(summary.options, options);
    assert_eq!(summary.class_stats.entries.len(), 2);
    assert_eq!(summary.top_instances.len(), 2);
    assert_eq!(summary.top_instances[0].object_id, 0x12);
    assert_eq!(summary.top_instances[1].object_id, 0x11);
    assert_eq!(summary.gc_root_counts.get(&GcRootKind::ThreadObject), Some(&2));
    assert_eq!(summary.thread_frames.len(), 2);
    assert_eq!(summary.thread_frames[0].method_name, "second");
    assert_eq!(summary.thread_frames[1].method_name, "third");
    assert!(summary.truncated);
}

#[test]
fn overview_summary_populates_policy_fields() {
    let options = OverviewOptions {
        top_n_classes: 4,
        top_n_instances: 4,
        max_class_table_size: 10,
        max_thread_frames: 4,
    };
    let mut accumulators = OverviewAccumulators::new(options);
    accumulators.record_class_name(0x1, "alpha");
    accumulators.record_class_name(0x2, "beta");
    accumulators.add_class_instance(0x1, 64);
    accumulators.add_class_instance(0x1, 32);
    accumulators.add_class_instance(0x2, 16);

    let summary = OverviewSummary::from_accumulators("heap.hprof", 2048, 17, accumulators);

    assert_eq!(summary.total_size_bytes, 2048);
    assert_eq!(summary.loaded_class_count, 2);
    assert_eq!(summary.total_instances, 3);
}

#[test]
fn top_n_ties_keep_the_later_items() {
    let mut collector = TopNCollector::new(2);
    collector.push(5, "first");
    collector.push(5, "second");
    collector.push(5, "third");
    assert_eq!(collector.into_sorted_vec_desc(), vec!["second", "third"]);
}

#[test]
fn zero_capacity_collectors_keep_nothing() {
    let mut collector = TopNCollector::new(0);
    collector.push(1, 1u8);
    assert!(collector.into_sorted_vec_desc().is_empty());

    let mut buffer = ThreadFrameBuffer::new(0);
    buffer.push(thread_frame(1, "a", "b"));
    let (frames, truncated) = buffer.into_frames();
    assert!(frames.is_empty());
    assert!(truncated);
}
