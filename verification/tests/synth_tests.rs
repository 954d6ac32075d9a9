use mnemosyne_core::hprof::object_graph::{
    ClassInfo, FieldDescriptor, HeapObject, ObjectGraph, ObjectKind, FIELD_TYPE_BYTE,
    FIELD_TYPE_CHAR, FIELD_TYPE_OBJECT,
};
use mnemosyne_core::query::synth::{synth_to_string, truncate_string};
use mnemosyne_core::query::types::CellValue;

fn add_class(graph: &mut ObjectGraph, class_id: u64, super_class_id: u64, name: &str, fields: Vec<FieldDescriptor>) {
    graph.classes.insert(
        class_id,
        ClassInfo {
            class_obj_id: class_id,
            super_class_id,
            class_loader_id: 0,
            instance_size: 0,
            name: Some(name.into()),
            instance_fields: fields,
            static_references: Vec::new(),
        },
    );
}

fn object_ref_bytes(id: u64) -> Vec<u8> {
    id.to_be_bytes().to_vec()
}

fn string_field_bytes(value_array_id: u64, coder: i8) -> Vec<u8> {
    let mut bytes = object_ref_bytes(value_array_id);
    bytes.push(coder as u8);
    bytes
}

fn make_graph() -> ObjectGraph {
    let mut graph = ObjectGraph::new(8);
    add_class(&mut graph, 1, 0, "java.lang.Object", Vec::new());
    add_class(
        &mut graph,
        2,
        1,
        "java.lang.String",
        vec![
            FieldDescriptor {
                name: Some("value".into()),
                field_type: FIELD_TYPE_OBJECT,
            },
            FieldDescriptor {
                name: Some("coder".into()),
                field_type: FIELD_TYPE_BYTE,
            },
        ],
    );
    add_class(&mut graph, 3, 1, "com.example.Cache", Vec::new());

    graph.objects.insert(
        10,
        HeapObject {
            id: 10,
            class_id: 2,
            shallow_size: 24,
            references: vec![100],
            field_data: string_field_bytes(100, 0),
            kind: ObjectKind::Instance,
        },
    );
    graph.objects.insert(
        11,
        HeapObject {
            id: 11,
            class_id: 2,
            shallow_size: 24,
            references: vec![101],
            field_data: string_field_bytes(101, 0),
            kind: ObjectKind::Instance,
        },
    );
    graph.objects.insert(
        20,
        HeapObject {
            id: 20,
            class_id: 3,
            shallow_size: 16,
            references: Vec::new(),
            field_data: Vec::new(),
            kind: ObjectKind::Instance,
        },
    );
    graph.objects.insert(
        100,
        HeapObject {
            id: 100,
            class_id: 0,
            shallow_size: 8,
            references: Vec::new(),
            field_data: b"hello".to_vec(),
            kind: ObjectKind::PrimitiveArray {
                element_type: FIELD_TYPE_BYTE,
                length: 5,
            },
        },
    );
    graph.objects.insert(
        101,
        HeapObject {
            id: 101,
            class_id: 0,
            shallow_size: 260,
            references: Vec::new(),
            field_data: vec![b'a'; 300],
            kind: ObjectKind::PrimitiveArray {
                element_type: FIELD_TYPE_BYTE,
                length: 300,
            },
        },
    );

    graph
}

#[test]
fn synth_to_string_for_string_returns_actual_content() {
    let graph = make_graph();

    assert_eq!(synth_to_string(&graph, 10), CellValue::Str("hello".into()));
}

#[test]
fn synth_to_string_truncates_long_strings() {
    let graph = make_graph();

    let CellValue::Str(value) = synth_to_string(&graph, 11) else {
        panic!("expected string cell value");
    };

    assert_eq!(value.chars().count(), 257);
    assert!(value.starts_with(&"a".repeat(256)));
    assert!(value.ends_with('\u{2026}'));
}

#[test]
fn synth_to_string_for_other_class_returns_class_at_id_format() {
    let graph = make_graph();

    assert_eq!(
        synth_to_string(&graph, 20),
        CellValue::Str("com.example.Cache@20".into())
    );
}

#[test]
fn synth_to_string_for_null_returns_null() {
    let graph = make_graph();

    assert_eq!(synth_to_string(&graph, 999), CellValue::Null);
}

#[test]
fn char_array_and_utf16_strings_decode() {
    let mut graph = make_graph();
    graph.objects.insert(
        12,
        HeapObject {
            id: 12,
            class_id: 2,
            shallow_size: 24,
            references: vec![102],
            field_data: string_field_bytes(102, 1),
            kind: ObjectKind::Instance,
        },
    );
    graph.objects.insert(
        102,
        HeapObject {
            id: 102,
            class_id: 0,
            shallow_size: 8,
            references: Vec::new(),
            field_data: vec![b'h', 0, 0xe9, 0],
            kind: ObjectKind::PrimitiveArray {
                element_type: FIELD_TYPE_BYTE,
                length: 4,
            },
        },
    );
    assert_eq!(synth_to_string(&graph, 12), CellValue::Str("hé".into()));

    graph.objects.insert(
        103,
        HeapObject {
            id: 103,
            class_id: 0,
            shallow_size: 8,
            references: Vec::new(),
            field_data: vec![0, b'o', 0, b'k'],
            kind: ObjectKind::PrimitiveArray {
                element_type: FIELD_TYPE_CHAR,
                length: 2,
            },
        },
    );
    graph.objects.insert(
        13,
        HeapObject {
            id: 13,
            class_id: 2,
            shallow_size: 24,
            references: vec![103],
            field_data: string_field_bytes(103, 0),
            kind: ObjectKind::Instance,
        },
    );
    assert_eq!(synth_to_string(&graph, 13), CellValue::Str("ok".into()));
}

#[test]
fn truncation_keeps_short_texts() {
    assert_eq!(truncate_string("abc".into()), "abc");
    let exact: String = "x".repeat(256);
    assert_eq!(truncate_string(exact.clone()), exact);
}

#[test]
fn utf16_surrogate_pairs_join_and_lone_surrogates_are_replaced() {
    let mut graph = make_graph();
    // U+1F600 as a surrogate pair, then a lone high surrogate, then 'A'.
    graph.objects.insert(
        104,
        HeapObject {
            id: 104,
            class_id: 0,
            shallow_size: 8,
            references: Vec::new(),
            field_data: vec![0xD8, 0x3D, 0xDE, 0x00, 0xD8, 0x00, 0x00, b'A'],
            kind: ObjectKind::PrimitiveArray {
                element_type: FIELD_TYPE_CHAR,
                length: 4,
            },
        },
    );
    graph.objects.insert(
        14,
        HeapObject {
            id: 14,
            class_id: 2,
            shallow_size: 24,
            references: vec![104],
            field_data: string_field_bytes(104, 0),
            kind: ObjectKind::Instance,
        },
    );
    assert_eq!(synth_to_string(&graph, 14), CellValue::Str("\u{1F600}\u{FFFD}A".into()));
}
