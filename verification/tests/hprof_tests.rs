use std::collections::HashMap;

use mnemosyne_core::hprof::binary_parser::{
    parse_hprof, parse_hprof_with_options, ParseOptions, MAX_RETAINED_PRIMITIVE_ARRAY_BYTES,
};
use mnemosyne_core::hprof::fields::{read_all_fields, read_field, FieldValue};
use mnemosyne_core::hprof::object_graph::{
    ClassInfo, FieldDescriptor, GcRootType, HeapObject, ObjectGraph, ObjectKind, FIELD_TYPE_BOOLEAN,
    FIELD_TYPE_INT, FIELD_TYPE_OBJECT,
};
use mnemosyne_core::hprof::tags::{tag_name, TAG_HEAP_DUMP, TAG_HEAP_DUMP_SEGMENT};
use mnemosyne_core::hprof::overview::{GcRootKind, OverviewOptions};
use mnemosyne_core::hprof::overview_parser::parse_hprof_overview;
use mnemosyne_core::heap::parse_hprof_header;
use std::collections::HashSet;

struct HprofBuilder {
    id_size: u32,
    body: Vec<u8>,
}

fn encode_id(id_size: u32, v: u64) -> Vec<u8> {
    if id_size == 4 {
        (v as u32).to_be_bytes().to_vec()
    } else {
        v.to_be_bytes().to_vec()
    }
}

impl HprofBuilder {
    fn new(id_size: u32) -> Self {
        HprofBuilder { id_size, body: Vec::new() }
    }

    fn record(&mut self, tag: u8, body: &[u8]) -> &mut Self {
        self.body.push(tag);
        self.body.extend_from_slice(&0u32.to_be_bytes());
        self.body.extend_from_slice(&(body.len() as u32).to_be_bytes());
        self.body.extend_from_slice(body);
        self
    }

    fn add_string(&mut self, id: u64, s: &str) -> &mut Self {
        let mut b = encode_id(self.id_size, id);
        b.extend_from_slice(s.as_bytes());
        self.record(0x01, &b)
    }

    fn add_load_class(&mut self, serial: u32, class_id: u64, stack_serial: u32, name_id: u64) -> &mut Self {
        let mut b = serial.to_be_bytes().to_vec();
        b.extend(encode_id(self.id_size, class_id));
        b.extend_from_slice(&stack_serial.to_be_bytes());
        b.extend(encode_id(self.id_size, name_id));
        self.record(0x02, &b)
    }

    fn add_stack_frame(
        &mut self,
        frame_id: u64,
        method_id: u64,
        sig_id: u64,
        source_id: u64,
        class_serial: u32,
        line: i32,
    ) -> &mut Self {
        let mut b = encode_id(self.id_size, frame_id);
        b.extend(encode_id(self.id_size, method_id));
        b.extend(encode_id(self.id_size, sig_id));
        b.extend(encode_id(self.id_size, source_id));
        b.extend_from_slice(&class_serial.to_be_bytes());
        b.extend_from_slice(&line.to_be_bytes());
        self.record(0x04, &b)
    }

    fn add_stack_trace(&mut self, serial: u32, thread_serial: u32, frames: &[u64]) -> &mut Self {
        let mut b = serial.to_be_bytes().to_vec();
        b.extend_from_slice(&thread_serial.to_be_bytes());
        b.extend_from_slice(&(frames.len() as u32).to_be_bytes());
        for f in frames {
            b.extend(encode_id(self.id_size, *f));
        }
        self.record(0x05, &b)
    }

    fn add_heap_dump(&mut self, body: Vec<u8>) -> &mut Self {
        self.record(0x0C, &body)
    }

    fn add_heap_dump_segment(&mut self, body: Vec<u8>) -> &mut Self {
        self.record(0x1C, &body)
    }

    fn build(&self) -> Vec<u8> {
        let mut out = b"JAVA PROFILE 1.0.2\0".to_vec();
        out.extend_from_slice(&self.id_size.to_be_bytes());
        out.extend_from_slice(&0u64.to_be_bytes());
        out.extend_from_slice(&self.body);
        out
    }
}

struct HeapDumpBuilder {
    id_size: u32,
    buf: Vec<u8>,
}

impl HeapDumpBuilder {
    fn new(id_size: u32) -> Self {
        HeapDumpBuilder { id_size, buf: Vec::new() }
    }

    fn id(&mut self, v: u64) {
        let b = encode_id(self.id_size, v);
        self.buf.extend(b);
    }

    fn add_gc_root_thread_obj(&mut self, id: u64, thread_serial: u32, stack_serial: u32) -> &mut Self {
        self.buf.push(0x08);
        self.id(id);
        self.buf.extend_from_slice(&thread_serial.to_be_bytes());
        self.buf.extend_from_slice(&stack_serial.to_be_bytes());
        self
    }

    fn add_gc_root_java_frame(&mut self, id: u64, thread_serial: u32, frame: u32) -> &mut Self {
        self.buf.push(0x03);
        self.id(id);
        self.buf.extend_from_slice(&thread_serial.to_be_bytes());
        self.buf.extend_from_slice(&frame.to_be_bytes());
        self
    }

    fn add_class_dump(&mut self, class_id: u64, super_id: u64, instance_size: u32, fields: &[(u64, u8)]) -> &mut Self {
        self.buf.push(0x20);
        self.id(class_id);
        self.buf.extend_from_slice(&0u32.to_be_bytes());
        self.id(super_id);
        for _ in 0..5 {
            self.id(0);
        }
        self.buf.extend_from_slice(&instance_size.to_be_bytes());
        self.buf.extend_from_slice(&0u16.to_be_bytes());
        self.buf.extend_from_slice(&0u16.to_be_bytes());
        self.buf.extend_from_slice(&(fields.len() as u16).to_be_bytes());
        for (name, ty) in fields {
            self.id(*name);
            self.buf.push(*ty);
        }
        self
    }

    fn add_instance_dump(&mut self, id: u64, class_id: u64, data: &[u8]) -> &mut Self {
        self.buf.push(0x21);
        self.id(id);
        self.buf.extend_from_slice(&0u32.to_be_bytes());
        self.id(class_id);
        self.buf.extend_from_slice(&(data.len() as u32).to_be_bytes());
        self.buf.extend_from_slice(data);
        self
    }

    fn add_obj_array_dump(&mut self, id: u64, class_id: u64, elems: &[u64]) -> &mut Self {
        self.buf.push(0x22);
        self.id(id);
        self.buf.extend_from_slice(&0u32.to_be_bytes());
        self.buf.extend_from_slice(&(elems.len() as u32).to_be_bytes());
        self.id(class_id);
        for e in elems {
            self.id(*e);
        }
        self
    }

    fn add_prim_array(&mut self, id: u64, elem_type: u8, count: u32, data: &[u8]) -> &mut Self {
        self.buf.push(0x23);
        self.id(id);
        self.buf.extend_from_slice(&0u32.to_be_bytes());
        self.buf.extend_from_slice(&count.to_be_bytes());
        self.buf.push(elem_type);
        self.buf.extend_from_slice(data);
        self
    }

    fn add_prim_array_dump_i32(&mut self, id: u64, vals: &[i32]) -> &mut Self {
        let mut data = Vec::new();
        for v in vals {
            data.extend_from_slice(&v.to_be_bytes());
        }
        self.add_prim_array(id, 10, vals.len() as u32, &data)
    }

    fn add_prim_array_dump_bytes(&mut self, id: u64, bytes: &[u8]) -> &mut Self {
        self.add_prim_array(id, 8, bytes.len() as u32, bytes)
    }

    fn add_prim_array_dump_chars(&mut self, id: u64, chars: &[u16]) -> &mut Self {
        let mut data = Vec::new();
        for c in chars {
            data.extend_from_slice(&c.to_be_bytes());
        }
        self.add_prim_array(id, 5, chars.len() as u32, &data)
    }

    fn build(&self) -> Vec<u8> {
        self.buf.clone()
    }
}

fn encode_node_instance(next_id: u64, value: i32) -> Vec<u8> {
    let mut bytes = Vec::new();
    bytes.extend_from_slice(&next_id.to_be_bytes());
    bytes.extend_from_slice(&value.to_be_bytes());
    bytes.extend_from_slice(&0u32.to_be_bytes());
    bytes
}

fn fixture_builder() -> (HprofBuilder, HeapDumpBuilder) {
    let mut builder = HprofBuilder::new(8);
    builder
        .add_string(1, "java/lang/Object")
        .add_string(2, "com/example/Node")
        .add_string(3, "next")
        .add_string(4, "value")
        .add_string(5, "[Lcom/example/Node;")
        .add_load_class(1, 0x100, 0, 1)
        .add_load_class(2, 0x200, 0, 2)
        .add_load_class(3, 0x300, 0, 5);
    let mut heap = HeapDumpBuilder::new(8);
    heap.add_gc_root_thread_obj(0x1000, 1, 0)
        .add_class_dump(0x100, 0, 0, &[])
        .add_class_dump(0x200, 0x100, 16, &[(3, FIELD_TYPE_OBJECT), (4, FIELD_TYPE_INT)])
        .add_instance_dump(0x2001, 0x200, &encode_node_instance(0x2002, 42))
        .add_instance_dump(0x2002, 0x200, &encode_node_instance(0x2003, 7))
        .add_instance_dump(0x2003, 0x200, &encode_node_instance(0, 9))
        .add_obj_array_dump(0x3000, 0x300, &[0x2001, 0x2002])
        .add_prim_array_dump_i32(0x4000, &[1, 2, 3]);
    (builder, heap)
}

fn build_simple_fixture() -> Vec<u8> {
    let (mut builder, heap) = fixture_builder();
    builder.add_heap_dump(heap.build());
    builder.build()
}

fn build_segment_fixture() -> Vec<u8> {
    let (mut builder, heap) = fixture_builder();
    builder.add_heap_dump_segment(heap.build());
    builder.build()
}

#[test]
fn test_tag_constants_match_hprof_spec() {
    assert_eq!(TAG_HEAP_DUMP, 0x0C);
    assert_eq!(TAG_HEAP_DUMP_SEGMENT, 0x1C);
}

#[test]
fn tag_names_cover_heap_records() {
    assert_eq!(tag_name(0x0C), "HEAP_DUMP");
    assert_eq!(tag_name(0x1C), "HEAP_DUMP_SEGMENT");
}

#[test]
fn test_parse_simple_fixture_header() {
    let data = build_simple_fixture();
    let graph = parse_hprof(&data).expect("parse should succeed");
    assert_eq!(graph.identifier_size, 8);
}

#[test]
fn test_parse_heap_dump_segment() {
    let data = build_segment_fixture();
    let graph = parse_hprof(&data).expect("segment parse should succeed");
    assert!(!graph.objects.is_empty());
    let node_class = graph.classes.get(&0x200).expect("Node class should exist in segment fixture");
    assert_eq!(node_class.name.as_deref(), Some("com/example/Node"));
    assert_eq!(node_class.instance_fields.len(), 2);
}

#[test]
fn test_parse_strings() {
    let data = build_simple_fixture();
    let graph = parse_hprof(&data).unwrap();
    assert_eq!(graph.strings.get(&1).unwrap(), "java/lang/Object");
    assert_eq!(graph.strings.get(&2).unwrap(), "com/example/Node");
    assert_eq!(graph.strings.get(&3).unwrap(), "next");
    assert_eq!(graph.strings.get(&4).unwrap(), "value");
    assert_eq!(graph.strings.get(&5).unwrap(), "[Lcom/example/Node;");
    assert_eq!(graph.strings.len(), 5);
}

#[test]
fn test_parse_loaded_classes() {
    let data = build_simple_fixture();
    let graph = parse_hprof(&data).unwrap();
    assert_eq!(graph.loaded_classes.len(), 3);
    let lc1 = graph.loaded_classes.get(&1).unwrap();
    assert_eq!(lc1.class_obj_id, 0x100);
    assert_eq!(lc1.name_string_id, 1);
    let lc2 = graph.loaded_classes.get(&2).unwrap();
    assert_eq!(lc2.class_obj_id, 0x200);
    assert_eq!(lc2.name_string_id, 2);
    let lc3 = graph.loaded_classes.get(&3).unwrap();
    assert_eq!(lc3.class_obj_id, 0x300);
    assert_eq!(lc3.name_string_id, 5);
}

#[test]
fn test_parse_class_info() {
    let data = build_simple_fixture();
    let graph = parse_hprof(&data).unwrap();
    let node_class = graph.classes.get(&0x200).expect("Node class should exist");
    assert_eq!(node_class.super_class_id, 0x100);
    assert_eq!(node_class.instance_size, 16);
    assert_eq!(node_class.instance_fields.len(), 2);
    assert_eq!(node_class.name.as_deref(), Some("com/example/Node"));
    let f0 = &node_class.instance_fields[0];
    assert_eq!(f0.name.as_deref(), Some("next"));
    assert_eq!(f0.field_type, FIELD_TYPE_OBJECT);
    let f1 = &node_class.instance_fields[1];
    assert_eq!(f1.name.as_deref(), Some("value"));
    assert_eq!(f1.field_type, FIELD_TYPE_INT);
}

#[test]
fn test_parse_instances() {
    let data = build_simple_fixture();
    let graph = parse_hprof(&data).unwrap();
    let obj1 = graph.objects.get(&0x2001).expect("0x2001 should exist");
    assert_eq!(obj1.class_id, 0x200);
    assert_eq!(obj1.kind, ObjectKind::Instance);
    assert_eq!(obj1.references, vec![0x2002]);
    assert!(obj1.field_data.is_empty());

    let graph = parse_hprof_with_options(&data, ParseOptions { retain_field_data: true }).expect("parse should succeed");
    let obj1 = graph.objects.get(&0x2001).expect("0x2001 should exist");
    assert_eq!(obj1.field_data, encode_node_instance(0x2002, 42));
    let obj2 = graph.objects.get(&0x2002).expect("0x2002 should exist");
    assert_eq!(obj2.class_id, 0x200);
    assert_eq!(obj2.references, vec![0x2003]);
    let obj3 = graph.objects.get(&0x2003).expect("0x2003 should exist");
    assert_eq!(obj3.class_id, 0x200);
    assert!(obj3.references.is_empty());
}

#[test]
fn test_parse_object_array() {
    let data = build_simple_fixture();
    let graph = parse_hprof(&data).unwrap();
    let arr = graph.objects.get(&0x3000).expect("0x3000 should exist");
    assert_eq!(arr.kind, ObjectKind::ObjectArray { length: 2 });
    assert_eq!(arr.references, vec![0x2001, 0x2002]);
}

#[test]
fn test_parse_primitive_array() {
    let data = build_simple_fixture();
    let graph = parse_hprof(&data).unwrap();
    let arr = graph.objects.get(&0x4000).expect("0x4000 should exist");
    assert_eq!(arr.kind, ObjectKind::PrimitiveArray { element_type: FIELD_TYPE_INT, length: 3 });
    assert!(arr.references.is_empty());
    assert!(arr.field_data.is_empty());
}

#[test]
fn test_parse_small_byte_array_retains_field_data() {
    let mut builder = HprofBuilder::new(8);
    let mut heap = HeapDumpBuilder::new(8);
    heap.add_prim_array_dump_bytes(0x5000, b"hello");
    builder.add_heap_dump(heap.build());
    let graph = parse_hprof_with_options(&builder.build(), ParseOptions { retain_field_data: true })
        .expect("parse should succeed");
    let array = graph.objects.get(&0x5000).expect("byte array should exist");
    assert_eq!(array.field_data, b"hello");
}

#[test]
fn test_parse_small_char_array_retains_field_data() {
    let mut builder = HprofBuilder::new(8);
    let mut heap = HeapDumpBuilder::new(8);
    heap.add_prim_array_dump_chars(0x5002, &[b'H' as u16, b'i' as u16]);
    builder.add_heap_dump(heap.build());
    let graph = parse_hprof_with_options(&builder.build(), ParseOptions { retain_field_data: true })
        .expect("parse should succeed");
    let array = graph.objects.get(&0x5002).expect("char array should exist");
    assert_eq!(array.field_data, vec![0, b'H', 0, b'i']);
}

#[test]
fn test_parse_oversized_byte_array_skips_field_data() {
    let oversized = vec![0xAB; (MAX_RETAINED_PRIMITIVE_ARRAY_BYTES as usize) + 1];
    let mut builder = HprofBuilder::new(8);
    let mut heap = HeapDumpBuilder::new(8);
    heap.add_prim_array_dump_bytes(0x5001, &oversized);
    builder.add_heap_dump(heap.build());
    let graph = parse_hprof_with_options(&builder.build(), ParseOptions { retain_field_data: true })
        .expect("parse should succeed");
    let array = graph.objects.get(&0x5001).expect("byte array should exist");
    assert!(array.field_data.is_empty());
}

#[test]
fn test_parse_defaults_to_not_retaining_field_data() {
    let data = build_simple_fixture();
    let graph = parse_hprof(&data).expect("parse should succeed");
    let instance = graph.objects.get(&0x2001).expect("instance should exist");
    assert!(instance.field_data.is_empty());

    let mut builder = HprofBuilder::new(8);
    let mut heap = HeapDumpBuilder::new(8);
    heap.add_prim_array_dump_bytes(0x5000, b"hello");
    builder.add_heap_dump(heap.build());
    let graph = parse_hprof(&builder.build()).expect("parse should succeed");
    let array = graph.objects.get(&0x5000).expect("byte array should exist");
    assert!(array.field_data.is_empty());
}

#[test]
fn test_parse_stack_frame_and_trace_records() {
    let mut builder = HprofBuilder::new(8);
    builder
        .add_string(1, "com/example/Worker")
        .add_string(2, "run")
        .add_string(3, "()V")
        .add_string(4, "Worker.java")
        .add_load_class(7, 0x200, 0, 1)
        .add_stack_frame(0x9000, 2, 3, 4, 7, 123)
        .add_stack_trace(77, 9, &[0x9000]);
    let graph = parse_hprof(&builder.build()).expect("parse should succeed");
    let frame = graph.stack_frames.get(&0x9000).expect("stack frame should be parsed");
    assert_eq!(frame.frame_id, 0x9000);
    assert_eq!(frame.method_name, "run");
    assert_eq!(frame.class_name, "com/example/Worker");
    assert_eq!(frame.source_file.as_deref(), Some("Worker.java"));
    assert_eq!(frame.line_number, 123);
    let trace = graph.stack_traces.get(&77).expect("stack trace should be parsed");
    assert_eq!(trace.serial, 77);
    assert_eq!(trace.thread_serial, 9);
    assert_eq!(trace.frame_ids, vec![0x9000]);
}

#[test]
fn test_parse_gc_roots() {
    let data = build_simple_fixture();
    let graph = parse_hprof(&data).unwrap();
    let thread_root = graph.gc_roots.iter().find(|r| r.object_id == 0x1000).expect("should have GC root for 0x1000");
    assert!(matches!(thread_root.root_type, GcRootType::ThreadObject { .. }));
}

#[test]
fn test_object_count() {
    let data = build_simple_fixture();
    let graph = parse_hprof(&data).unwrap();
    assert_eq!(graph.object_count(), 5);
}

#[test]
fn test_class_name_resolution() {
    let data = build_simple_fixture();
    let graph = parse_hprof(&data).unwrap();
    assert_eq!(graph.class_name(0x200), Some("com/example/Node"));
    assert_eq!(graph.class_name(0x100), Some("java/lang/Object"));
}

#[test]
fn parse_rejects_unterminated_header() {
    let data = vec![b'J'; 10];
    assert!(parse_hprof(&data).is_err());
}

#[test]
fn parse_rejects_unsupported_identifier_size() {
    let mut data = b"JAVA PROFILE 1.0.2\0".to_vec();
    data.extend_from_slice(&2u32.to_be_bytes());
    data.extend_from_slice(&0u64.to_be_bytes());
    assert!(parse_hprof(&data).is_err());
}

#[test]
fn parse_reads_four_byte_identifiers() {
    let mut builder = HprofBuilder::new(4);
    let mut heap = HeapDumpBuilder::new(4);
    heap.add_gc_root_java_frame(0x10, 1, 0).add_obj_array_dump(0x20, 0x30, &[0x10, 0]);
    builder.add_string(9, "x").add_heap_dump(heap.build());
    let graph = parse_hprof(&builder.build()).unwrap();
    assert_eq!(graph.identifier_size, 4);
    assert_eq!(graph.objects.get(&0x20).unwrap().references, vec![0x10]);
    assert_eq!(graph.objects.get(&0x20).unwrap().shallow_size, 8);
    assert_eq!(graph.gc_roots.len(), 1);
}

fn make_test_graph() -> ObjectGraph {
    let mut graph = ObjectGraph::new(8);
    for (id, size, refs) in [(1u64, 32u32, vec![2u64, 3]), (2, 16, vec![3]), (3, 8, vec![])] {
        graph.objects.insert(
            id,
            HeapObject { id, class_id: 100, shallow_size: size, references: refs, field_data: Vec::new(), kind: ObjectKind::Instance },
        );
    }
    graph
}

#[test]
fn get_object_returns_existing() {
    let graph = make_test_graph();
    let obj = graph.get_object(1).unwrap();
    assert_eq!(obj.id, 1);
    assert_eq!(obj.shallow_size, 32);
    assert!(graph.get_object(999).is_none());
}

#[test]
fn get_references_returns_outgoing() {
    let graph = make_test_graph();
    let refs = graph.get_references(1);
    assert_eq!(refs, vec![2, 3]);
    let refs2 = graph.get_references(3);
    assert!(refs2.is_empty());
    let refs_missing = graph.get_references(999);
    assert!(refs_missing.is_empty());
}

#[test]
fn get_referrers_returns_incoming() {
    let graph = make_test_graph();
    let mut referrers = graph.get_referrers(3);
    referrers.sort();
    assert_eq!(referrers, vec![1, 2]);
    let referrers1 = graph.get_referrers(1);
    assert!(referrers1.is_empty());
}

#[test]
fn total_shallow_size_sums_all_objects() {
    let graph = make_test_graph();
    assert_eq!(graph.total_shallow_size(), 56);
}

fn add_field_class(graph: &mut ObjectGraph, class_obj_id: u64, super_class_id: u64, fields: Vec<FieldDescriptor>) {
    graph.classes.insert(
        class_obj_id,
        ClassInfo {
            class_obj_id,
            super_class_id,
            class_loader_id: 0,
            instance_size: 0,
            name: Some(format!("Class{class_obj_id}")),
            instance_fields: fields,
            static_references: Vec::new(),
        },
    );
}

fn encode_test_field_data() -> Vec<u8> {
    let mut bytes = Vec::new();
    bytes.extend_from_slice(&42i32.to_be_bytes());
    bytes.extend_from_slice(&0x99u64.to_be_bytes());
    bytes.push(1);
    bytes
}

fn field_graph() -> (ObjectGraph, HeapObject) {
    let mut graph = ObjectGraph::new(8);
    add_field_class(&mut graph, 100, 0, vec![FieldDescriptor { name: Some("count".into()), field_type: FIELD_TYPE_INT }]);
    add_field_class(
        &mut graph,
        200,
        100,
        vec![
            FieldDescriptor { name: Some("next".into()), field_type: FIELD_TYPE_OBJECT },
            FieldDescriptor { name: Some("active".into()), field_type: FIELD_TYPE_BOOLEAN },
        ],
    );
    let object = HeapObject {
        id: 1,
        class_id: 200,
        shallow_size: 0,
        references: vec![0x99],
        field_data: encode_test_field_data(),
        kind: ObjectKind::Instance,
    };
    (graph, object)
}

#[test]
fn read_field_walks_inherited_layout() {
    let (graph, object) = field_graph();
    let classes: &HashMap<u64, ClassInfo> = &graph.classes;
    assert_eq!(read_field(&object, classes, "count", 8), Some(FieldValue::Int(42)));
    assert_eq!(read_field(&object, classes, "next", 8), Some(FieldValue::ObjectRef(Some(0x99))));
    assert_eq!(read_field(&object, classes, "active", 8), Some(FieldValue::Boolean(true)));
    assert_eq!(read_field(&object, classes, "missing", 8), None);
}

#[test]
fn read_all_fields_returns_declared_order() {
    let (graph, object) = field_graph();
    let fields = read_all_fields(&object, &graph.classes, 8);
    assert_eq!(fields.len(), 3);
    assert_eq!(fields[0], ("count".into(), FieldValue::Int(42)));
    assert_eq!(fields[1], ("next".into(), FieldValue::ObjectRef(Some(0x99))));
    assert_eq!(fields[2], ("active".into(), FieldValue::Boolean(true)));
}

fn build_gc_root_fixture() -> Vec<u8> {
    let mut builder = HprofBuilder::new(4);
    let mut heap = HeapDumpBuilder::new(4);
    heap.add_gc_root_java_frame(0x1000, 7, 0)
        .add_gc_root_java_frame(0x1001, 7, 1)
        .add_gc_root_thread_obj(0x1002, 7, 42);
    builder.add_heap_dump_segment(heap.build());
    builder.build()
}

fn build_top_instance_fixture() -> Vec<u8> {
    let mut builder = HprofBuilder::new(8);
    builder
        .add_string(1, "java/lang/Object")
        .add_string(2, "com/example/Node")
        .add_string(3, "next")
        .add_string(4, "value")
        .add_string(5, "[Lcom/example/Node;")
        .add_load_class(1, 0x100, 0, 1)
        .add_load_class(2, 0x200, 0, 2)
        .add_load_class(3, 0x300, 0, 5);

    let mut heap = HeapDumpBuilder::new(8);
    heap.add_class_dump(0x100, 0, 0, &[])
        .add_class_dump(0x200, 0x100, 16, &[(3, 2), (4, 10)])
        .add_instance_dump(0x2001, 0x200, &encode_node_instance(0, 7))
        .add_obj_array_dump(0x3000, 0x300, &[0x2001, 0, 0, 0, 0])
        .add_prim_array_dump_i32(0x4000, &[1, 2, 3, 4, 5, 6, 7, 8, 9, 10]);

    builder.add_heap_dump_segment(heap.build());
    builder.build()
}

fn build_thread_stack_fixture() -> Vec<u8> {
    let mut builder = HprofBuilder::new(8);
    builder
        .add_string(1, "com/example/Worker")
        .add_string(2, "run")
        .add_string(3, "Worker.java")
        .add_load_class(9, 0x900, 0, 1)
        .add_stack_frame(0x70, 2, 0, 3, 9, 12)
        .add_stack_frame(0x71, 2, 0, 0, 99, -1)
        .add_stack_trace(1, 5, &[0x70, 0x71, 0x72]);
    let mut heap = HeapDumpBuilder::new(8);
    heap.add_gc_root_thread_obj(0x1002, 5, 1);
    builder.add_heap_dump_segment(heap.build());
    builder.build()
}

#[test]
fn overview_parses_synthetic_segment_fixture() {
    let bytes = build_segment_fixture();

    let summary = parse_hprof_overview(&bytes, &OverviewOptions::default(), "segment-fixture.hprof")
        .expect("overview parser should handle heap dump segments");

    assert!(summary.total_record_count > 0);
    assert!(summary.total_bytes_processed > 0);
    assert!(!summary.class_stats.entries.is_empty());
    assert_eq!(summary.total_bytes_processed, bytes.len() as u64);
}

#[test]
fn overview_preserves_thread_stack_frames() {
    let bytes = build_thread_stack_fixture();

    let summary = parse_hprof_overview(&bytes, &OverviewOptions::default(), "thread-stack-fixture.hprof")
        .expect("overview parser should preserve bounded stack frames");

    assert!(!summary.thread_frames.is_empty());
    assert!(summary.gc_root_counts.get(&GcRootKind::ThreadObject).copied().unwrap_or_default() > 0);
    assert_eq!(summary.thread_frames.len(), 2);
    assert_eq!(summary.thread_frames[0].class_name, "com/example/Worker");
    assert_eq!(summary.thread_frames[0].method_name, "run");
    assert_eq!(summary.thread_frames[0].source_file, "Worker.java");
    assert_eq!(summary.thread_frames[0].line_number, 12);
    assert_eq!(summary.thread_frames[1].class_name, "<unknown_class_serial_99>");
    assert_eq!(summary.thread_frames[1].source_file, "");
    assert_eq!(summary.thread_frames[1].thread_serial, 5);
}

#[test]
fn overview_class_set_matches_deep_class_set_on_small_fixture() {
    let bytes = build_segment_fixture();
    let summary = parse_hprof_overview(&bytes, &OverviewOptions::default(), "segment-fixture.hprof")
        .expect("overview parser should succeed");
    let graph = parse_hprof(&bytes).expect("deep parser should succeed on the same fixture");

    let overview_classes = summary
        .class_stats
        .entries
        .iter()
        .map(|entry| entry.class_name.clone())
        .filter(|class_name| !class_name.starts_with('<'))
        .collect::<HashSet<_>>();
    let deep_class_name_ids = graph
        .loaded_classes
        .values()
        .map(|loaded_class| (loaded_class.class_obj_id, loaded_class.name_string_id))
        .collect::<HashMap<_, _>>();
    let deep_classes = graph
        .objects
        .values()
        .filter_map(|object| (object.class_id != 0).then_some(object.class_id))
        .filter_map(|class_id| deep_class_name_ids.get(&class_id))
        .filter_map(|string_id| graph.strings.get(string_id).cloned())
        .collect::<HashSet<_>>();

    assert_eq!(overview_classes, deep_classes);
}

#[test]
fn overview_handles_truncation_when_class_table_overflows() {
    let bytes = build_segment_fixture();
    let options = OverviewOptions {
        max_class_table_size: 1,
        ..OverviewOptions::default()
    };

    let summary = parse_hprof_overview(&bytes, &options, "overflow-fixture.hprof")
        .expect("overview parser should report truncation instead of failing");

    assert!(summary.truncated);
    assert!(summary.class_stats.entries.len() <= 1);
}

#[test]
fn overview_aggregates_gc_roots() {
    let bytes = build_gc_root_fixture();

    let summary = parse_hprof_overview(&bytes, &OverviewOptions::default(), "gc-roots-fixture.hprof")
        .expect("overview parser should aggregate GC roots");

    assert_eq!(summary.gc_root_counts.get(&GcRootKind::JavaFrame), Some(&2));
    assert_eq!(summary.gc_root_counts.get(&GcRootKind::ThreadObject), Some(&1));
}

#[test]
fn overview_records_top_n_instances_in_size_order() {
    let bytes = build_top_instance_fixture();
    let options = OverviewOptions {
        top_n_instances: 3,
        ..OverviewOptions::default()
    };

    let summary = parse_hprof_overview(&bytes, &options, "top-instances.hprof")
        .expect("overview parser should rank the largest instances first");

    let ranked_ids = summary.top_instances.iter().map(|entry| entry.object_id).collect::<Vec<_>>();
    let ranked_sizes = summary
        .top_instances
        .iter()
        .map(|entry| entry.approx_retained_bytes)
        .collect::<Vec<_>>();

    assert_eq!(ranked_ids, vec![0x3000, 0x4000, 0x2001]);
    assert_eq!(ranked_sizes, vec![64, 57, 40]);
}

#[test]
fn overview_skips_heap_dump_segment_subrecords_correctly() {
    let bytes = build_segment_fixture();
    let summary = parse_hprof_overview(&bytes, &OverviewOptions::default(), "segment-dispatch-fixture.hprof")
        .expect("overview parser should dispatch nested heap dump segment records");

    let class_names = summary
        .class_stats
        .entries
        .iter()
        .map(|entry| entry.class_name.as_str())
        .collect::<HashSet<_>>();

    assert!(class_names.contains("com/example/Node"));
    assert!(class_names.contains("[Lcom/example/Node;"));
    assert!(summary.top_instances.len() >= 3);
}

#[test]
fn overview_rejects_bad_identifier_sizes_and_sub_tags() {
    let mut bytes = b"JAVA PROFILE 1.0.2\0".to_vec();
    bytes.extend_from_slice(&6u32.to_be_bytes());
    bytes.extend_from_slice(&0u64.to_be_bytes());
    assert!(parse_hprof_overview(&bytes, &OverviewOptions::default(), "x").is_err());

    let mut builder = HprofBuilder::new(8);
    builder.add_heap_dump_segment(vec![0x42]);
    let err = parse_hprof_overview(&builder.build(), &OverviewOptions::default(), "x").unwrap_err();
    assert!(format!("{err:?}").contains("unsupported HEAP_DUMP sub-tag 0x42"));
}

#[test]
fn header_parse_reports_lengths_and_eof() {
    let bytes = build_simple_fixture();
    let (header, len) = parse_hprof_header(&bytes).expect("header");
    assert_eq!(header.identifier_size, 8);
    assert_eq!(len, header.format.len() + 13);
    assert!(parse_hprof_header(b"JAVA").is_err());
}

#[test]
fn unsupported_identifier_size_is_reported_with_its_value() {
    let mut data = b"JAVA PROFILE 1.0.2\0".to_vec();
    data.extend_from_slice(&2u32.to_be_bytes());
    data.extend_from_slice(&0u64.to_be_bytes());
    match parse_hprof(&data) {
        Err(mnemosyne_core::errors::CoreError::InvalidInput(m)) => {
            assert_eq!(m, "unsupported HPROF identifier size: 2")
        }
        other => panic!("unexpected result: {:?}", other.map(|g| g.objects.len())),
    }
}
