use mnemosyne_core::errors::CoreError;
use mnemosyne_core::heap::{
    scan_hprof_records, summarize_class_stats, summarize_heap_bytes, HeapDiff, HeapSummary, RecordStat,
};

fn record(tag: u8, body: &[u8]) -> Vec<u8> {
    let mut out = vec![tag];
    out.extend_from_slice(&0u32.to_be_bytes());
    out.extend_from_slice(&(body.len() as u32).to_be_bytes());
    out.extend_from_slice(body);
    out
}

fn image(records: &[Vec<u8>]) -> Vec<u8> {
    let mut out = b"JAVA PROFILE 1.0.2\0".to_vec();
    out.extend_from_slice(&8u32.to_be_bytes());
    out.extend_from_slice(&1_700_000_000_000u64.to_be_bytes());
    for r in records {
        out.extend_from_slice(r);
    }
    out
}

#[test]
fn summarizes_class_stats_from_records() {
    let record_stats = vec![
        RecordStat { tag: 0x21, name: "INSTANCE_DUMP".into(), count: 10, bytes: 512 },
        RecordStat { tag: 0x07, name: "HEAP_SUMMARY".into(), count: 1, bytes: 128 },
        RecordStat { tag: 0x22, name: "OBJECT_ARRAY_DUMP".into(), count: 4, bytes: 256 },
    ];

    let classes = summarize_class_stats(&record_stats, 1024);
    assert_eq!(2, classes.len());
    assert_eq!("INSTANCE_DUMP", classes[0].name);
    assert_eq!(10, classes[0].instances);
    let percentage = (classes[0].total_size_bytes as f64 / 1024.0 * 100.0) as f32;
    assert!(percentage > 45.0 && percentage < 55.0);
    assert_eq!("OBJECT_ARRAY_DUMP", classes[1].name);
}

#[test]
fn handles_zero_length_heaps() {
    let classes = summarize_class_stats(&[], 0);
    assert!(classes.is_empty());
}

#[test]
fn scan_counts_tags_largest_first() {
    let data = image(&[
        record(0x01, &[1, 2, 3]),
        record(0x21, &[0; 10]),
        record(0x01, &[4]),
        record(0x23, &[0; 2]),
        record(0x21, &[0; 5]),
    ]);
    let start = 19 + 12;
    let (total, stats, guess) = scan_hprof_records(&data, start).unwrap();
    assert_eq!(total, 5);
    assert_eq!(guess, 3);
    let view: Vec<(u8, &str, u64, u64)> =
        stats.iter().map(|s| (s.tag, s.name.as_str(), s.count, s.bytes)).collect();
    assert_eq!(
        view,
        vec![
            (0x21, "INSTANCE_DUMP", 2, 15),
            (0x01, "STRING_IN_UTF8", 2, 4),
            (0x23, "PRIMITIVE_ARRAY_DUMP", 1, 2),
        ]
    );
}

#[test]
fn scan_ties_keep_first_appearance() {
    let data = image(&[record(0x05, &[0; 4]), record(0x04, &[0; 4]), record(0x99, &[0; 4])]);
    let (_, stats, guess) = scan_hprof_records(&data, 31).unwrap();
    let tags: Vec<u8> = stats.iter().map(|s| s.tag).collect();
    assert_eq!(tags, vec![0x05, 0x04, 0x99]);
    assert_eq!(stats[2].name, "UNKNOWN");
    assert_eq!(guess, 0);
}

#[test]
fn scan_rejects_cut_records() {
    let mut data = image(&[record(0x01, &[1, 2, 3])]);
    data.pop();
    assert_eq!(scan_hprof_records(&data, 31), Err(CoreError::UnexpectedEof));
    let mut data = image(&[]);
    data.extend_from_slice(&[0x01, 0, 0]);
    assert_eq!(scan_hprof_records(&data, 31), Err(CoreError::UnexpectedEof));
}

#[test]
fn summary_of_whole_image() {
    let data = image(&[record(0x21, &[0; 10]), record(0x01, &[0; 3]), record(0x22, &[0; 6])]);
    let summary = summarize_heap_bytes("heap.hprof", &data).unwrap();
    assert_eq!(summary.heap_path, "heap.hprof");
    assert_eq!(summary.total_size_bytes, data.len() as u64);
    assert_eq!(summary.total_records, 3);
    assert_eq!(summary.total_objects, 2);
    let header = summary.header.unwrap();
    assert_eq!(header.format, "JAVA PROFILE 1.0.2");
    assert_eq!(header.identifier_size, 8);
    assert_eq!(header.timestamp_millis, 1_700_000_000_000);
    let names: Vec<&str> = summary.classes.iter().map(|c| c.name.as_str()).collect();
    assert_eq!(names, vec!["INSTANCE_DUMP", "OBJECT_ARRAY_DUMP"]);
}

#[test]
fn summary_without_object_records_counts_all() {
    let data = image(&[record(0x01, &[0; 3]), record(0x02, &[0; 3])]);
    let summary = summarize_heap_bytes("x", &data).unwrap();
    assert_eq!(summary.total_objects, 2);
    assert!(summary.classes.is_empty());
}

#[test]
fn summary_reports_header_errors() {
    let err = summarize_heap_bytes("x", b"JAVA").unwrap_err();
    assert_eq!(
        err,
        CoreError::HprofParseError {
            phase: "header".into(),
            detail: "unexpected EOF while reading header".into()
        }
    );
    let long = vec![b'A'; 2000];
    let err = summarize_heap_bytes("x", &long).unwrap_err();
    assert_eq!(
        err,
        CoreError::HprofParseError {
            phase: "header".into(),
            detail: "header string exceeded 1024 bytes — this may not be an HPROF file".into()
        }
    );
    let err = summarize_heap_bytes("x", b"JAVA\0\0\0").unwrap_err();
    assert_eq!(err, CoreError::UnexpectedEof);
}

#[test]
fn placeholders_hold_example_figures() {
    let s = HeapSummary::placeholder("a.hprof");
    assert_eq!(s.heap_path, "a.hprof");
    assert_eq!(s.classes[0].name, "java.lang.String");
    let d = HeapDiff::placeholder("a", "b");
    assert_eq!(d.delta_bytes, -347_000_000);
    assert_eq!(d.changed_classes[0].name, "com.example.UserSession");
}

#[test]
fn record_stats_label_segments_and_cpu_samples() {
    let data = image(&[record(0x1C, &[0; 4]), record(0x0D, &[0; 2])]);
    let start = 19 + 12;
    let (_total, stats, _guess) = scan_hprof_records(&data, start).unwrap();
    let names: Vec<(u8, &str)> = stats.iter().map(|s| (s.tag, s.name.as_str())).collect();
    assert!(names.contains(&(0x1C, "HEAP_DUMP_SEGMENT")));
    assert!(names.contains(&(0x0D, "CPU_SAMPLES")));
}
