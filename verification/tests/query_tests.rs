use mnemosyne_core::query::parser::{parse_query, parse_query_statement, Parser};
use mnemosyne_core::query::types::{
    BuiltInField, ClassPattern, ComparisonOp, FieldRef, FromClause, QueryStatement, SelectClause,
    TraversalFunction, Value,
};

#[test]
fn lexer_recognizes_objects_keyword() {
    let mut parser = Parser::new("OBJECTS");

    assert!(parser.consume_keyword("OBJECTS"));
    assert!(parser.is_eof());
}

#[test]
fn lexer_recognizes_contains_operator() {
    let mut parser = Parser::new("CONTAINS");

    assert!(parser.consume_keyword("CONTAINS"));
    assert!(parser.is_eof());
}

#[test]
fn lexer_recognizes_is_null_and_is_not_null_sequence() {
    let mut is_null = Parser::new("IS NULL");
    assert!(is_null.consume_keyword("IS"));
    assert!(is_null.consume_keyword("NULL"));
    assert!(is_null.is_eof());

    let mut is_not_null = Parser::new("IS NOT NULL");
    assert!(is_not_null.consume_keyword("IS"));
    assert!(is_not_null.consume_keyword("NOT"));
    assert!(is_not_null.consume_keyword("NULL"));
    assert!(is_not_null.is_eof());
}

#[test]
fn lexer_recognizes_at_retained_size_pseudo_attribute() {
    let field = Parser::new("@retainedSize")
        .parse_field_ref()
        .expect("field should parse");

    assert_eq!(field, FieldRef::BuiltIn(BuiltInField::RetainedSize));
}

#[test]
fn lexer_recognizes_at_to_string_pseudo_attribute() {
    let field = Parser::new("@toString")
        .parse_field_ref()
        .expect("field should parse");

    assert_eq!(field, FieldRef::BuiltIn(BuiltInField::ToString));
}

#[test]
fn lexer_recognizes_at_gc_root_path_pseudo_attribute() {
    let field = Parser::new("@gcRootPath")
        .parse_field_ref()
        .expect("field should parse");

    assert_eq!(format!("{field:?}"), "BuiltIn(GcRootPath)");
}

#[test]
fn parser_constructs_objects_select_clause() {
    let query = parse_query(r#"SELECT OBJECTS entries FROM "com.example.BigCache""#)
        .expect("query should parse");

    assert!(format!("{:?}", query.select).contains("Objects"));
    assert!(format!("{:?}", query.select).contains("entries"));
}

#[test]
fn parser_constructs_is_null_condition() {
    let query =
        parse_query(r#"SELECT @objectId FROM "com.example.BigCache" WHERE entries IS NULL"#)
            .expect("query should parse");

    assert!(format!("{:?}", query.filter).contains("IsNull"));
}

#[test]
fn parser_constructs_pseudo_attribute_field_ref() {
    let query = parse_query(r#"SELECT @gcRootPath FROM "com.example.BigCache""#)
        .expect("query should parse");

    assert!(format!("{:?}", query.select).contains("GcRootPath"));
}

#[test]
fn parser_constructs_outbounds_traversal_from_clause() {
    let query = parse_query("SELECT * FROM outbounds(12345)").expect("query should parse");

    assert_eq!(
        query.from,
        FromClause {
            class_pattern: ClassPattern::Traversal(TraversalFunction::Outbounds(12345)),
            instanceof: false,
        }
    );
}

#[test]
fn parser_constructs_inbounds_traversal_from_clause() {
    let query = parse_query("SELECT * FROM inbounds(999)").expect("query should parse");

    assert_eq!(
        query.from,
        FromClause {
            class_pattern: ClassPattern::Traversal(TraversalFunction::Inbounds(999)),
            instanceof: false,
        }
    );
}

#[test]
fn parser_constructs_dominators_traversal_from_clause() {
    let query = parse_query("SELECT * FROM dominators(42)").expect("query should parse");

    assert_eq!(
        query.from,
        FromClause {
            class_pattern: ClassPattern::Traversal(TraversalFunction::Dominators(42)),
            instanceof: false,
        }
    );
}

#[test]
fn parser_supports_traversal_from_combined_with_where_and_limit() {
    let query =
        parse_query(r#"SELECT @objectId FROM outbounds(1) WHERE @shallowSize > 0 LIMIT 5"#)
            .expect("query should parse");

    assert_eq!(
        query.from.class_pattern,
        ClassPattern::Traversal(TraversalFunction::Outbounds(1))
    );
    assert!(query.filter.is_some());
    assert_eq!(query.limit, Some(5));
}

#[test]
fn parser_rejects_traversal_function_missing_open_paren() {
    let error = parse_query("SELECT * FROM outbounds 12345)").expect_err("should fail");
    assert!(error.to_string().contains("expected '('"));
}

#[test]
fn parser_rejects_traversal_function_missing_close_paren() {
    let error = parse_query("SELECT * FROM outbounds(12345").expect_err("should fail");
    assert!(error.to_string().contains("expected ')'"));
}

#[test]
fn parser_rejects_traversal_function_non_integer_argument() {
    let error = parse_query(r#"SELECT * FROM outbounds("abc")"#).expect_err("should fail");
    assert!(error.to_string().contains("expected object id"));
}

#[test]
fn parser_rejects_negative_object_id_in_traversal_function() {
    let error = parse_query("SELECT * FROM outbounds(-1)").expect_err("should fail");
    assert!(error.to_string().contains("expected object id"));
}

#[test]
fn error_reports_byte_offset_after_multibyte_characters() {
    // "é" takes two bytes, so the input ends at byte 17.
    let error = parse_query("SELECT * FROM \"é").expect_err("should fail");
    assert_eq!(error.to_string(), "unterminated quoted string at byte 17");
}

#[test]
fn keywords_ignore_ascii_case_and_need_a_boundary() {
    let mut parser = Parser::new("  select");
    assert!(parser.consume_keyword("SELECT"));
    assert!(parser.is_eof());

    let mut glued = Parser::new("SELECTED");
    assert!(!glued.consume_keyword("SELECT"));
    assert!(!glued.is_eof());
}

#[test]
fn class_pattern_lists_become_multi_and_globs_are_detected() {
    let query = parse_query(r#"SELECT * FROM "a.B", 'c.*'"#).expect("query should parse");
    assert_eq!(
        query.from.class_pattern,
        ClassPattern::Multi(vec![
            ClassPattern::Exact("a.B".to_string()),
            ClassPattern::Glob("c.*".to_string()),
        ])
    );
    let query = parse_query(r#"SELECT * FROM INSTANCEOF "a.B""#).expect("query should parse");
    assert!(query.from.instanceof);
}

#[test]
fn class_pattern_list_limit_is_enforced() {
    let ok = r#"SELECT * FROM "a","b","c","d","e","f","g","h""#;
    assert!(parse_query(ok).is_ok());
    let too_many = r#"SELECT * FROM "a","b","c","d","e","f","g","h","i""#;
    let error = parse_query(too_many).expect_err("should fail");
    assert!(error
        .to_string()
        .starts_with("multi-class FROM list exceeds limit of 8 class patterns at byte"));
}

#[test]
fn empty_class_pattern_is_rejected() {
    let error = parse_query(r#"SELECT * FROM """#).expect_err("should fail");
    assert_eq!(
        error.to_string(),
        "expected non-empty quoted class pattern at byte 16"
    );
}

#[test]
fn select_objects_hop_limit_is_enforced() {
    assert!(parse_query(r#"SELECT OBJECTS c.a.b.d FROM "X""#).is_ok());
    let error = parse_query(r#"SELECT OBJECTS c.a.b.d.e FROM "X""#).expect_err("should fail");
    assert_eq!(
        error.to_string(),
        "multi-hop OBJECTS exceeds limit of 3 field hops: 'c.a.b.d.e'"
    );
}

#[test]
fn distinct_requires_objects() {
    let query = parse_query(r#"SELECT DISTINCT OBJECTS next FROM "X""#).expect("should parse");
    assert!(matches!(query.select, SelectClause::DistinctObjects(_)));
    let error = parse_query(r#"SELECT DISTINCT * FROM "X""#).expect_err("should fail");
    assert!(error.to_string().starts_with("DISTINCT is only supported with OBJECTS projection"));
}

#[test]
fn subqueries_nest_one_level_only() {
    let query = parse_query(r#"SELECT * FROM OBJECTS (SELECT OBJECTS next FROM "X")"#)
        .expect("one level should parse");
    assert!(matches!(query.from.class_pattern, ClassPattern::Subquery(_)));
    let error = parse_query(
        r#"SELECT * FROM OBJECTS (SELECT * FROM OBJECTS (SELECT * FROM "X"))"#,
    )
    .expect_err("two levels should fail");
    assert!(error
        .to_string()
        .starts_with("subquery nesting depth exceeded"));
}

#[test]
fn where_values_and_operators() {
    let query = parse_query(
        r#"SELECT * FROM "X" WHERE a = -9223372036854775808 AND b != 'x' OR c LIKE "p%" AND d = true"#,
    )
    .expect("should parse");
    let filter = query.filter.expect("filter");
    assert_eq!(filter.conditions.len(), 4);
    assert_eq!(filter.operators.len(), 3);
    assert_eq!(filter.conditions[0].value, Value::Int(i64::MIN));
    assert_eq!(filter.conditions[1].op, ComparisonOp::Ne);
    assert_eq!(filter.conditions[2].op, ComparisonOp::Like);
    assert_eq!(filter.conditions[3].value, Value::Bool(true));

    let error = parse_query(r#"SELECT * FROM "X" WHERE a = 9223372036854775808"#)
        .expect_err("should fail");
    assert_eq!(
        error.to_string(),
        "invalid integer literal '9223372036854775808' at byte 47"
    );
}

#[test]
fn regex_conditions_are_checked_when_parsed() {
    let query = parse_query(r#"SELECT * FROM "X" WHERE @className =~ "java\..*""#)
        .expect("valid regex");
    let filter = query.filter.expect("filter");
    assert_eq!(filter.conditions[0].op, ComparisonOp::RegexMatch);

    let error = parse_query(r#"SELECT * FROM "X" WHERE @className =~ "(""#)
        .expect_err("invalid regex");
    assert!(error.to_string().starts_with("invalid regex pattern '(':"));

    let error = parse_query(r#"SELECT * FROM "X" WHERE @className =~ 3"#)
        .expect_err("regex must be quoted");
    assert!(error
        .to_string()
        .starts_with("=~ requires a quoted regex pattern"));
}

#[test]
fn unknown_builtin_and_trailing_input_are_rejected() {
    let error = parse_query(r#"SELECT @nope FROM "X""#).expect_err("should fail");
    assert_eq!(error.to_string(), "invalid built-in field '@nope' at byte 12");
    let error = parse_query(r#"SELECT * FROM "X" extra"#).expect_err("should fail");
    assert_eq!(error.to_string(), "expected end of query at byte 18");
}

#[test]
fn union_statements_parse_both_sides() {
    let statement = parse_query_statement(r#"SELECT * FROM "A" UNION SELECT * FROM "B""#)
        .expect("should parse");
    assert!(matches!(statement, QueryStatement::Union(_, _)));
    let statement = parse_query_statement(r#"SELECT * FROM "A""#).expect("should parse");
    assert!(matches!(statement, QueryStatement::Single(_)));
    assert!(parse_query(r#"SELECT * FROM "A" UNION SELECT * FROM "B""#).is_err());
}

#[test]
fn parse_errors_name_the_first_part_that_does_not_read() {
    let cases = [
        ("SELECT * FROM outbounds(5", "expected ')' to close 'outbounds(...)' at byte 25"),
        ("SELECT * FROM \"A\" WHERE x >", "expected value at byte 27"),
        ("SELECT * FROM \"A\" LIMIT x", "expected integer at byte 24"),
        ("SELECT * FROM OBJECTS \"x\"", "expected '(' after 'OBJECTS' at byte 22"),
        ("SELECT * \"A\"", "expected keyword 'FROM' at byte 9"),
        ("SELECT * FROM \"A\" WHERE x = 1 AND", "expected identifier at byte 33"),
        ("FROM \"A\"", "expected keyword 'SELECT' at byte 0"),
    ];
    for (input, expected) in cases {
        let error = parse_query(input).unwrap_err();
        assert_eq!(error.to_string(), expected, "{input}");
    }
}
