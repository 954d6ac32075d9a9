use mnemosyne_core::graph::dominator::build_dominator_tree;
use mnemosyne_core::hprof::object_graph::{
    ClassInfo, FieldDescriptor, GcRoot, GcRootType, HeapObject, ObjectGraph, ObjectKind,
    FIELD_TYPE_BYTE, FIELD_TYPE_INT, FIELD_TYPE_OBJECT,
};
use mnemosyne_core::query::executor::{compare_values, execute_query, execute_query_statement};
use mnemosyne_core::query::parser::{parse_query, parse_query_statement};
use mnemosyne_core::query::types::{
    CellValue, ComparisonOp, QueryError, QueryResult, Value,
};

fn field(name: &str, field_type: u8) -> FieldDescriptor {
    FieldDescriptor { name: Some(name.into()), field_type }
}

fn add_class(graph: &mut ObjectGraph, id: u64, super_id: u64, name: &str, fields: Vec<FieldDescriptor>) {
    graph.classes.insert(
        id,
        ClassInfo {
            class_obj_id: id,
            super_class_id: super_id,
            class_loader_id: 0,
            instance_size: 0,
            name: Some(name.into()),
            instance_fields: fields,
            static_references: Vec::new(),
        },
    );
}

fn add_object(graph: &mut ObjectGraph, id: u64, class_id: u64, shallow: u32, refs: Vec<u64>, data: Vec<u8>) {
    graph.objects.insert(
        id,
        HeapObject {
            id,
            class_id,
            shallow_size: shallow,
            references: refs,
            field_data: data,
            kind: ObjectKind::Instance,
        },
    );
}

/// Cache fields: `map` (reference), `size` (int).
fn cache_data(map: u64, size: i32) -> Vec<u8> {
    let mut d = map.to_be_bytes().to_vec();
    d.extend_from_slice(&size.to_be_bytes());
    d
}

fn sample_graph() -> ObjectGraph {
    let mut g = ObjectGraph::new(8);
    add_class(&mut g, 1, 0, "java.lang.Object", Vec::new());
    add_class(
        &mut g,
        2,
        1,
        "java.lang.String",
        vec![field("value", FIELD_TYPE_OBJECT), field("coder", FIELD_TYPE_BYTE)],
    );
    add_class(
        &mut g,
        3,
        1,
        "com/example/Cache",
        vec![field("map", FIELD_TYPE_OBJECT), field("size", FIELD_TYPE_INT)],
    );
    add_class(&mut g, 4, 3, "com/example/SubCache", Vec::new());
    add_class(&mut g, 6, 1, "byte[]", Vec::new());

    let mut s = 100u64.to_be_bytes().to_vec();
    s.push(0);
    add_object(&mut g, 10, 2, 24, vec![100], s);
    g.objects.insert(
        100,
        HeapObject {
            id: 100,
            class_id: 6,
            shallow_size: 21,
            references: Vec::new(),
            field_data: b"hello".to_vec(),
            kind: ObjectKind::PrimitiveArray { element_type: 8, length: 5 },
        },
    );
    add_object(&mut g, 20, 3, 32, vec![30], cache_data(30, 5));
    add_object(&mut g, 21, 3, 32, Vec::new(), cache_data(0, 7));
    add_object(&mut g, 30, 4, 40, vec![10], cache_data(10, 1));
    g.gc_roots.push(GcRoot { object_id: 20, root_type: GcRootType::JniGlobal });
    g.gc_roots.push(GcRoot { object_id: 21, root_type: GcRootType::JniGlobal });
    g
}

fn ids_of(result: &QueryResult) -> Vec<u64> {
    result
        .rows
        .iter()
        .map(|row| match &row[0] {
            CellValue::Id(id) => *id,
            other => panic!("expected an id, got {:?}", other),
        })
        .collect()
}

fn run(text: &str, g: &ObjectGraph, deep: bool) -> Result<QueryResult, QueryError> {
    let query = parse_query(text).expect("query should parse");
    if deep {
        let dom = build_dominator_tree(g);
        execute_query(&query, g, Some(&dom))
    } else {
        execute_query(&query, g, None)
    }
}

#[test]
fn exact_class_selects_only_that_class() {
    let g = sample_graph();
    let r = run(r#"SELECT * FROM "com.example.Cache""#, &g, false).unwrap();
    assert_eq!(r.columns, vec!["@objectId".to_string(), "@className".to_string()]);
    assert_eq!(ids_of(&r), vec![20, 21]);
    assert_eq!(r.rows[0][1], CellValue::Str("com.example.Cache".into()));
    assert_eq!(r.total_matched, 2);
    assert!(!r.truncated);
}

#[test]
fn instanceof_includes_subclasses() {
    let g = sample_graph();
    let r = run(r#"SELECT * FROM INSTANCEOF "com.example.Cache""#, &g, false).unwrap();
    assert_eq!(ids_of(&r), vec![20, 21, 30]);
}

#[test]
fn glob_and_multi_patterns() {
    let g = sample_graph();
    let r = run(r#"SELECT @objectId FROM "com.example.*""#, &g, false).unwrap();
    assert_eq!(ids_of(&r), vec![20, 21, 30]);
    let r = run(r#"SELECT @objectId FROM "java.lang.String", 'com.*.SubCache'"#, &g, false).unwrap();
    assert_eq!(ids_of(&r), vec![10, 30]);
}

#[test]
fn where_on_int_field_and_projection() {
    let g = sample_graph();
    let r = run(r#"SELECT @objectId, size FROM "com.example.Cache" WHERE size > 5"#, &g, false).unwrap();
    assert_eq!(r.columns, vec!["@objectId".to_string(), "size".to_string()]);
    assert_eq!(r.rows, vec![vec![CellValue::Id(21), CellValue::Int(7)]]);
}

#[test]
fn reference_to_string_shows_text() {
    let g = sample_graph();
    let r = run(r#"SELECT map FROM "com.example.SubCache""#, &g, false).unwrap();
    assert_eq!(r.rows, vec![vec![CellValue::Str("hello".into())]]);
    let r = run(r#"SELECT map FROM "com.example.Cache""#, &g, false).unwrap();
    assert_eq!(r.rows, vec![vec![CellValue::Id(30)], vec![CellValue::Null]]);
}

#[test]
fn object_address_is_padded_upper_hex() {
    let g = sample_graph();
    let r = run(r#"SELECT @objectAddress, @shallowSize FROM "com.example.SubCache""#, &g, false).unwrap();
    assert_eq!(r.rows, vec![vec![CellValue::Str("0x0000001E".into()), CellValue::Int(40)]]);
}

#[test]
fn to_string_needs_deep_mode() {
    let g = sample_graph();
    let err = run(r#"SELECT @toString FROM "java.lang.String""#, &g, false).unwrap_err();
    assert_eq!(
        err,
        QueryError::FeatureUnavailableInOverviewMode {
            feature: "@toString".into(),
            hint: "re-run with --mode deep; @toString requires deep-mode field data.".into(),
        }
    );
    let r = run(r#"SELECT @toString FROM "java.lang.String""#, &g, true).unwrap();
    assert_eq!(r.rows, vec![vec![CellValue::Str("hello".into())]]);
}

#[test]
fn like_contains_and_regex_on_class_name() {
    let g = sample_graph();
    let r = run(r#"SELECT @objectId FROM "com.*" WHERE @className LIKE "com.example.Sub%""#, &g, false).unwrap();
    assert_eq!(ids_of(&r), vec![30]);
    let r = run(r#"SELECT @objectId FROM "com.*" WHERE @className LIKE "com_example_Cache""#, &g, false).unwrap();
    assert_eq!(ids_of(&r), vec![20, 21]);
    let r = run(r#"SELECT @objectId FROM "com.*" WHERE @className CONTAINS "Sub""#, &g, false).unwrap();
    assert_eq!(ids_of(&r), vec![30]);
    let r = run(r#"SELECT @objectId FROM "com.*" WHERE @className =~ "Cache$""#, &g, false).unwrap();
    assert_eq!(ids_of(&r), vec![20, 21, 30]);
}

#[test]
fn like_escapes_regex_characters() {
    let left = CellValue::Str("a.b".into());
    assert!(compare_values(&left, ComparisonOp::Like, &Value::Str("a.b".into())));
    let other = CellValue::Str("axb".into());
    assert!(!compare_values(&other, ComparisonOp::Like, &Value::Str("a.b".into())));
    assert!(compare_values(&other, ComparisonOp::Like, &Value::Str("a_b".into())));
}

#[test]
fn compare_values_mismatched_kinds() {
    assert!(compare_values(&CellValue::Id(5), ComparisonOp::Ne, &Value::Null));
    assert!(compare_values(&CellValue::Null, ComparisonOp::Eq, &Value::Null));
    assert!(!compare_values(&CellValue::Int(1), ComparisonOp::Eq, &Value::Str("1".into())));
    assert!(compare_values(&CellValue::Id(7), ComparisonOp::Ge, &Value::Int(7)));
    assert!(compare_values(&CellValue::Bool(true), ComparisonOp::Ne, &Value::Bool(false)));
}

#[test]
fn invalid_regex_built_directly_is_rejected() {
    let g = sample_graph();
    let mut query = parse_query(r#"SELECT * FROM "com.*" WHERE @className =~ "x""#).unwrap();
    query.filter.as_mut().unwrap().conditions[0].value = Value::Str("(".into());
    let err = execute_query(&query, &g, None).unwrap_err();
    match err {
        QueryError::Unsupported(m) => assert!(m.starts_with("invalid regex pattern '(': ")),
        other => panic!("unexpected {:?}", other),
    }
    query.filter.as_mut().unwrap().conditions[0].value = Value::Int(3);
    let err = execute_query(&query, &g, None).unwrap_err();
    assert_eq!(err, QueryError::Unsupported("=~ requires a string regex pattern".into()));
}

#[test]
fn null_predicates_on_reference_and_primitive_fields() {
    let g = sample_graph();
    let r = run(r#"SELECT @objectId FROM "com.example.Cache" WHERE map IS NULL"#, &g, true).unwrap();
    assert_eq!(ids_of(&r), vec![21]);
    let r = run(r#"SELECT @objectId FROM "com.example.Cache" WHERE map IS NOT NULL"#, &g, true).unwrap();
    assert_eq!(ids_of(&r), vec![20]);
    let err = run(r#"SELECT @objectId FROM "com.example.Cache" WHERE size IS NULL"#, &g, true).unwrap_err();
    assert_eq!(
        err,
        QueryError::Unsupported(
            "IS NULL not applicable to primitive field 'size' on class 'com.example.Cache'".into()
        )
    );
    let err = run(r#"SELECT @objectId FROM "com.example.Cache" WHERE nope IS NOT NULL"#, &g, true).unwrap_err();
    assert_eq!(
        err,
        QueryError::Unsupported("IS NOT NULL field 'nope' does not exist on class 'com.example.Cache'".into())
    );
    let err = run(r#"SELECT @objectId FROM "com.example.Cache" WHERE map IS NULL"#, &g, false).unwrap_err();
    assert!(matches!(err, QueryError::FeatureUnavailableInOverviewMode { .. }));
}

#[test]
fn objects_projection_follows_references() {
    let g = sample_graph();
    let r = run(r#"SELECT OBJECTS map FROM INSTANCEOF "com.example.Cache""#, &g, true).unwrap();
    assert_eq!(ids_of(&r), vec![30, 10]);
    assert_eq!(r.rows[1][1], CellValue::Str("java.lang.String".into()));
    let r = run(r#"SELECT OBJECTS c.map FROM INSTANCEOF "com.example.Cache""#, &g, true).unwrap();
    assert_eq!(ids_of(&r), vec![30, 10]);
    let err = run(r#"SELECT OBJECTS size FROM "com.example.Cache""#, &g, true).unwrap_err();
    assert_eq!(
        err,
        QueryError::Unsupported(
            "OBJECTS field 'size' on class 'com.example.Cache' is not an object-reference field".into()
        )
    );
    let err = run(r#"SELECT OBJECTS a.b.map FROM "com.example.Cache""#, &g, true).unwrap_err();
    assert_eq!(err, QueryError::NotImplemented("multi-hop OBJECTS not yet supported: 'a.b.map'".into()));
    let err = run(r#"SELECT OBJECTS map FROM "com.example.Cache""#, &g, false).unwrap_err();
    assert!(matches!(err, QueryError::FeatureUnavailableInOverviewMode { ref feature, .. } if feature == "OBJECTS"));
}

#[test]
fn distinct_objects_keeps_first_of_each() {
    let mut g = sample_graph();
    add_object(&mut g, 22, 3, 32, vec![30], cache_data(30, 2));
    let r = run(r#"SELECT OBJECTS map FROM "com.example.Cache""#, &g, true).unwrap();
    assert_eq!(ids_of(&r), vec![30, 30]);
    let r = run(r#"SELECT DISTINCT OBJECTS map FROM "com.example.Cache""#, &g, true).unwrap();
    assert_eq!(ids_of(&r), vec![30]);
}

#[test]
fn limit_marks_truncation() {
    let g = sample_graph();
    let r = run(r#"SELECT * FROM INSTANCEOF "com.example.Cache" LIMIT 2"#, &g, false).unwrap();
    assert_eq!(ids_of(&r), vec![20, 21]);
    assert_eq!(r.total_matched, 2);
    assert!(r.truncated);
    let r = run(r#"SELECT * FROM INSTANCEOF "com.example.Cache" LIMIT 3"#, &g, false).unwrap();
    assert_eq!(r.total_matched, 3);
    assert!(!r.truncated);
}

#[test]
fn traversal_sources() {
    let g = sample_graph();
    let r = run("SELECT * FROM outbounds(20)", &g, false).unwrap();
    assert_eq!(ids_of(&r), vec![30]);
    let r = run("SELECT * FROM inbounds(10)", &g, false).unwrap();
    assert_eq!(ids_of(&r), vec![30]);
    let r = run("SELECT * FROM outbounds(999)", &g, false).unwrap();
    assert!(r.rows.is_empty());
    let err = run("SELECT * FROM dominators(30)", &g, false).unwrap_err();
    assert!(matches!(err, QueryError::FeatureUnavailableInOverviewMode { ref feature, .. } if feature == "dominators(...)"));
    let r = run("SELECT * FROM dominators(10)", &g, true).unwrap();
    assert_eq!(ids_of(&r), vec![20, 30]);
}

#[test]
fn subquery_feeds_outer_filter() {
    let g = sample_graph();
    let r = run(
        r#"SELECT @objectId FROM OBJECTS (SELECT * FROM INSTANCEOF "com.example.Cache" WHERE size < 6) WHERE @shallowSize > 32"#,
        &g,
        false,
    )
    .unwrap();
    assert_eq!(ids_of(&r), vec![30]);
}

#[test]
fn union_merges_without_repeats() {
    let g = sample_graph();
    let statement = parse_query_statement(
        r#"SELECT * FROM "com.example.Cache" UNION SELECT * FROM INSTANCEOF "com.example.Cache" LIMIT 1"#,
    )
    .unwrap();
    let r = execute_query_statement(&statement, &g, None).unwrap();
    assert_eq!(ids_of(&r), vec![20, 21]);
    assert!(!r.truncated);
}

#[test]
fn gc_root_path_text() {
    let g = sample_graph();
    let r = run(r#"SELECT @gcRootPath FROM "java.lang.String""#, &g, true).unwrap();
    assert_eq!(
        r.rows,
        vec![vec![CellValue::Str(
            "GcRoot/JniGlobal -> com.example.Cache -> com.example.SubCache -> java.lang.String".into()
        )]]
    );
    let err = run(r#"SELECT @gcRootPath FROM "java.lang.String""#, &g, false).unwrap_err();
    assert!(matches!(err, QueryError::FeatureUnavailableInOverviewMode { ref feature, .. } if feature == "@gcRootPath"));
}
