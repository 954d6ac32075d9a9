//! Evaluation of object queries against an object graph.

use vstd::prelude::*;
use std::collections::HashSet;
use crate::graph::dominator::{DominatorTree, VIRTUAL_ROOT_ID};
use crate::graph::gc_root_path::{shortest_gc_root_path, is_root_path};
use crate::graph::metrics::{resolve_superclass_chain, superclass_chain};
use crate::hprof::fields::{field_of, read_field, FieldValue};
use crate::hprof::object_graph::{ClassInfo, FieldDescriptor, ObjectGraph};
use crate::hprof::overview::GcRootKind;
use crate::pattern::{regex_check, regex_compile_error, regex_is_match, regex_match};
use crate::query::semantics::{
    CellView, ValueView, ErrView, Outcome, class_label, address_text, retained_of, char_cell,
    field_cell, cell_spec, kind_name, frame_label, joined_labels, path_text, GC_ROOT_PATH_MAX_DEPTH,
    gc_cell_ok, cell_ok, star_from, first_star, glob_spec, pattern_key, class_matches, class_line,
    any_class_matches, class_pattern_matches, any_pattern_matches, type_in_fields, type_in_line,
    field_type_of, like_piece, is_meta, like_body, like_regex, int_compare, compare_spec,
    ref_target, instanceof_spec, null_op_name, null_outcome, cond_outcome, outcome_is, where_shape,
    fold_filter, filter_outcome, cond_reads_path, filter_path_free, ascending, is_ascending_of,
    sorted_ids, referrer_set, dom_chain, DOMINATOR_CHAIN_MAX_DEPTH, scan_patterns, sift,
    nesting_message, multi_limit_message, dominators_hint, resolve_spec, bounded_spec,
    select_mentions, some_field_condition, some_null_condition, is_null_op, mentions,
    text_predicate_field, first_text_predicate, overview_fault, regex_condition_fault,
    first_regex_fault, regex_fault, field_label, row_fields, columns_spec, row_ok, path_segments,
    objects_field_name, objects_target, objects_targets, dedup_first, kept_count, table_of,
    query_shape, query_path_free, ids_result_is, column_view, finalize_ok, query_outcome,
    union_outcome,
};
use crate::query::parser::{from_flat_ok, query_flat_ok, query_ok};
use crate::query::synth::{dotted, dotted_name, extract_string_value, string_value, synth_to_string};
use crate::query::types::{
    BuiltInField, CellValue, ClassPattern, ComparisonOp, Condition, FieldRef, LogicalOp, Query,
    QueryError, QueryResult, QueryStatement, SelectClause, TraversalFunction, Value, WhereClause,
};
use crate::text::{
    chars_of, contains_text, find_text, push_chars, push_decimal, push_hex, push_str, push_zero_padded,
    str_eq, string_from_chars,
};
use crate::util::{ids_sorted, map_keys, sort_ids};

use crate::text::char_from_scalar;

verus! {

broadcast use vstd::std_specs::hash::group_hash_axioms;

// ---------------------------------------------------------------------------
// Attributes.

/// The dotted class name of a class, or `<unknown>`.
fn class_label_chars(graph: &ObjectGraph, class_id: u64) -> (out: Vec<char>)
    ensures
        out@ == class_label(graph.classes@, class_id),
{
    match graph.class_name(class_id) {
        Some(n) => dotted_name(n),
        None => {
            let out = chars_of("<unknown>");
            proof {
                assert(out@ == dotted("<unknown>"@)) by {
                    reveal_strlit("<unknown>");
                    assert(dotted("<unknown>"@) =~= "<unknown>"@);
                }
            }
            out
        },
    }
}

/// `0x` and eight or more upper-case hexadecimal digits.
fn address_chars(id: u64) -> (out: Vec<char>)
    ensures
        out@ == address_text(id),
{
    let mut hex: Vec<char> = Vec::new();
    push_hex(&mut hex, id, true);
    let mut out = chars_of("0x");
    push_zero_padded(&mut out, &hex, 8);
    out
}

/// The cell for a decoded instance field.
fn field_cell_value(graph: &ObjectGraph, v: Option<FieldValue>) -> (c: CellValue)
    ensures
        c@ == field_cell(*graph, v),
{
    match v {
        Some(FieldValue::Boolean(b)) => CellValue::Bool(b),
        Some(FieldValue::Byte(x)) => CellValue::Int(x as i64),
        Some(FieldValue::Short(x)) => CellValue::Int(x as i64),
        Some(FieldValue::Int(x)) => CellValue::Int(x as i64),
        Some(FieldValue::Long(x)) => CellValue::Int(x),
        Some(FieldValue::Char(u)) => match char_from_scalar(u as u32) {
            Some(ch) => {
                let mut cs: Vec<char> = Vec::new();
                cs.push(ch);
                proof {
                    assert(cs@ =~= seq![u as char]);
                }
                CellValue::Str(string_from_chars(&cs))
            },
            None => CellValue::Null,
        },
        Some(FieldValue::ObjectRef(Some(r))) => {
            if graph.get_object(r).is_some() {
                match extract_string_value(graph, r) {
                    Some(s) => CellValue::Str(s),
                    None => CellValue::Id(r),
                }
            } else {
                CellValue::Id(r)
            }
        },
        _ => CellValue::Null,
    }
}

/// The `Debug` name of a root kind.
fn kind_name_str(k: GcRootKind) -> (s: &'static str)
    ensures
        s@ == kind_name(k),
{
    match k {
        GcRootKind::JniGlobal => "JniGlobal",
        GcRootKind::JniLocal => "JniLocal",
        GcRootKind::JavaFrame => "JavaFrame",
        GcRootKind::NativeStack => "NativeStack",
        GcRootKind::StickyClass => "StickyClass",
        GcRootKind::ThreadBlock => "ThreadBlock",
        GcRootKind::MonitorUsed => "MonitorUsed",
        GcRootKind::ThreadObject => "ThreadObject",
        GcRootKind::Unknown => "Unknown",
    }
}

/// How an object on a root path is shown.
fn frame_label_chars(graph: &ObjectGraph, id: u64) -> (out: Vec<char>)
    ensures
        out@ == frame_label(*graph, id),
{
    match graph.get_object(id) {
        Some(o) => class_label_chars(graph, o.class_id),
        None => {
            let mut out = chars_of("<unknown object id=");
            push_decimal(&mut out, id);
            push_str(&mut out, ">");
            out
        },
    }
}

/// `@gcRootPath`: a shortest root path to the object, as text, or null.
fn gc_root_path_cell(graph: &ObjectGraph, id: u64) -> (c: CellValue)
    ensures
        gc_cell_ok(*graph, id, c@),
{
    match shortest_gc_root_path(graph, id, GC_ROOT_PATH_MAX_DEPTH) {
        None => CellValue::Null,
        Some(p) => {
            let mut out = chars_of("GcRoot/");
            push_str(&mut out, kind_name_str(p.root_kind));
            let ghost head = out@;
            let mut i: usize = 0;
            while i < p.frames.len()
                invariant
                    i <= p.frames@.len(),
                    out@ == head + joined_labels(*graph, p.frames@.take(i as int)),
                decreases p.frames.len() - i,
            {
                push_str(&mut out, " -> ");
                let label = frame_label_chars(graph, p.frames[i]);
                push_chars(&mut out, &label);
                proof {
                    assert(p.frames@.take(i + 1).drop_last() =~= p.frames@.take(i as int));
                }
                i = i + 1;
            }
            proof {
                assert(p.frames@.take(i as int) =~= p.frames@);
                assert(out@ == path_text(*graph, p.root_kind, p.frames@));
            }
            CellValue::Str(string_from_chars(&out))
        },
    }
}

/// The value of an attribute of an object.
pub fn resolve_field_value(
    field: &FieldRef,
    graph: &ObjectGraph,
    dominator: Option<&DominatorTree>,
    object_id: u64,
) -> (c: CellValue)
    ensures
        cell_ok(*field, *graph, dominator, object_id, c@),
{
    let object = match graph.get_object(object_id) {
        Some(o) => o,
        None => return CellValue::Null,
    };
    match field {
        FieldRef::BuiltIn(BuiltInField::ObjectId) => CellValue::Id(object_id),
        FieldRef::BuiltIn(BuiltInField::ClassName) => CellValue::Str(
            string_from_chars(&class_label_chars(graph, object.class_id)),
        ),
        FieldRef::BuiltIn(BuiltInField::ShallowSize) => CellValue::Int(object.shallow_size as i64),
        FieldRef::BuiltIn(BuiltInField::RetainedSize) => {
            let retained = match dominator {
                Some(d) => d.retained_size(object_id),
                None => 0,
            };
            CellValue::Int(retained as i64)
        },
        FieldRef::BuiltIn(BuiltInField::ObjectAddress) => CellValue::Str(string_from_chars(&address_chars(object_id))),
        FieldRef::BuiltIn(BuiltInField::ToString) => synth_to_string(graph, object_id),
        FieldRef::BuiltIn(BuiltInField::GcRootPath) => gc_root_path_cell(graph, object_id),
        FieldRef::InstanceField(name) => {
            let v = read_field(object, &graph.classes, name.as_str(), graph.identifier_size);
            field_cell_value(graph, v)
        },
    }
}


// ---------------------------------------------------------------------------
// Class patterns.

/// Index of the first `*`.
fn first_star_index(p: &Vec<char>) -> (k: Option<usize>)
    ensures
        match k {
            Some(i) => first_star(p@) == Some(i as int),
            None => first_star(p@) is None,
        },
{
    let mut i: usize = 0;
    while i < p.len()
        invariant
            i <= p@.len(),
            star_from(p@, 0) == star_from(p@, i as int),
        decreases p.len() - i,
    {
        if p[i] == '*' {
            return Some(i);
        }
        i = i + 1;
    }
    None
}

/// `v[vs..vs + n]` equals `p[ps..ps + n]`.
fn same_run(v: &Vec<char>, vs: usize, p: &Vec<char>, ps: usize, n: usize) -> (b: bool)
    requires
        vs + n <= v.len(),
        ps + n <= p.len(),
    ensures
        b == (v@.subrange(vs as int, vs + n) == p@.subrange(ps as int, ps + n)),
{
    let mut j: usize = 0;
    while j < n
        invariant
            j <= n,
            vs + n <= v.len(),
            ps + n <= p.len(),
            v@.subrange(vs as int, vs + j) =~= p@.subrange(ps as int, ps + j),
        decreases n - j,
    {
        if v[vs + j] != p[ps + j] {
            proof {
                assert(v@.subrange(vs as int, vs + n)[j as int] != p@.subrange(ps as int, ps + n)[j as int]);
            }
            return false;
        }
        proof {
            assert(v@.subrange(vs as int, vs + j + 1) =~= v@.subrange(vs as int, vs + j).push(v@[vs + j]));
            assert(p@.subrange(ps as int, ps + j + 1) =~= p@.subrange(ps as int, ps + j).push(p@[ps + j]));
        }
        j = j + 1;
    }
    true
}

/// Glob match with one wildcard; without `*`, equality.
fn glob_match(pattern: &Vec<char>, value: &Vec<char>) -> (b: bool)
    ensures
        b == glob_spec(pattern@, value@),
{
    match first_star_index(pattern) {
        Some(k) => {
            proof {
                lemma_star_found(pattern@, 0);
            }
            let suf_len = pattern.len() - k - 1;
            if k > value.len() || suf_len > value.len() {
                return false;
            }
            let pre_ok = same_run(value, 0, pattern, 0, k);
            let suf_ok = same_run(value, value.len() - suf_len, pattern, k + 1, suf_len);
            proof {
                assert(pattern@.take(k as int) =~= pattern@.subrange(0, k as int));
                assert(value@.take(k as int) =~= value@.subrange(0, k as int));
                assert(pattern@.skip(k + 1) =~= pattern@.subrange(k + 1, k + 1 + suf_len));
                assert(value@.skip(value@.len() - suf_len) =~= value@.subrange(
                    value@.len() - suf_len,
                    value@.len() - suf_len + suf_len,
                ));
            }
            pre_ok && suf_ok
        },
        None => {
            if pattern.len() != value.len() {
                return false;
            }
            let same = same_run(value, 0, pattern, 0, value.len());
            proof {
                assert(value@.subrange(0, value@.len() as int) =~= value@);
                assert(pattern@.subrange(0, pattern@.len() as int) =~= pattern@);
            }
            same
        },
    }
}

/// The class's dotted name equals `text`, or matches it as a glob.
fn class_matches_key(graph: &ObjectGraph, cid: u64, glob: bool, text: &Vec<char>) -> (b: bool)
    ensures
        b == class_matches(graph.classes@, cid, (glob, text@)),
{
    match graph.class_name(cid) {
        None => false,
        Some(n) => {
            let name = dotted_name(n);
            if glob {
                glob_match(text, &name)
            } else {
                if name.len() != text.len() {
                    return false;
                }
                let same = same_run(&name, 0, text, 0, name.len());
                proof {
                    assert(name@.subrange(0, name@.len() as int) =~= name@);
                    assert(text@.subrange(0, text@.len() as int) =~= text@);
                }
                same
            }
        },
    }
}

/// The class, followed by its superclasses when `sup` holds.
fn class_line_ids(graph: &ObjectGraph, cid: u64, sup: bool) -> (line: Vec<u64>)
    ensures
        line@ == class_line(graph.classes@, cid, sup),
{
    let mut line: Vec<u64> = Vec::new();
    line.push(cid);
    if sup {
        let chain = resolve_superclass_chain(graph, cid, graph.classes.len());
        let mut i: usize = 0;
        while i < chain.len()
            invariant
                i <= chain@.len(),
                line@ == seq![cid] + chain@.take(i as int),
            decreases chain.len() - i,
        {
            line.push(chain[i]);
            i = i + 1;
            proof {
                assert(line@ =~= seq![cid] + chain@.take(i as int));
            }
        }
        proof {
            assert(chain@.take(i as int) =~= chain@);
        }
    } else {
        proof {
            assert(line@ =~= seq![cid]);
        }
    }
    line
}

/// Some class of the class line matches.
fn line_matches(graph: &ObjectGraph, cid: u64, glob: bool, text: &Vec<char>, sup: bool) -> (b: bool)
    ensures
        b == any_class_matches(graph.classes@, class_line(graph.classes@, cid, sup), (glob, text@)),
{
    let line = class_line_ids(graph, cid, sup);
    let mut found = false;
    let mut i: usize = 0;
    while i < line.len()
        invariant
            i <= line@.len(),
            found == any_class_matches(graph.classes@, line@.take(i as int), (glob, text@)),
        decreases line.len() - i,
    {
        let m = class_matches_key(graph, line[i], glob, text);
        proof {
            assert(line@.take(i + 1).drop_last() =~= line@.take(i as int));
        }
        found = found || m;
        i = i + 1;
    }
    proof {
        assert(line@.take(i as int) =~= line@);
    }
    found
}

/// The class (or, with `sup`, a superclass) matches the pattern.
fn matches_class_pattern(graph: &ObjectGraph, cid: u64, pattern: &ClassPattern, sup: bool) -> (b: bool)
    ensures
        b == class_pattern_matches(graph.classes@, cid, *pattern, sup),
{
    match pattern {
        ClassPattern::Exact(e) => line_matches(graph, cid, false, &chars_of(e.as_str()), sup),
        ClassPattern::Glob(g) => line_matches(graph, cid, true, &chars_of(g.as_str()), sup),
        _ => false,
    }
}

/// Some pattern of the list matches the class.
fn matches_any_pattern(graph: &ObjectGraph, cid: u64, patterns: &Vec<ClassPattern>, sup: bool) -> (b: bool)
    ensures
        b == any_pattern_matches(graph.classes@, cid, patterns@, sup),
{
    let mut found = false;
    let mut i: usize = 0;
    while i < patterns.len()
        invariant
            i <= patterns@.len(),
            found == any_pattern_matches(graph.classes@, cid, patterns@.take(i as int), sup),
        decreases patterns.len() - i,
    {
        let m = matches_class_pattern(graph, cid, &patterns[i], sup);
        proof {
            assert(patterns@.take(i + 1).drop_last() =~= patterns@.take(i as int));
        }
        found = found || m;
        i = i + 1;
    }
    proof {
        assert(patterns@.take(i as int) =~= patterns@);
    }
    found
}

// ---------------------------------------------------------------------------
// Declared field types.

/// Type of the first field named `name` in a field list.
fn type_in_field_list(fields: &Vec<FieldDescriptor>, name: &str) -> (t: Option<u8>)
    ensures
        t == type_in_fields(fields@, name@),
{
    let mut j: usize = 0;
    proof {
        assert(fields@.skip(0) =~= fields@);
    }
    while j < fields.len()
        invariant
            j <= fields@.len(),
            type_in_fields(fields@, name@) == type_in_fields(fields@.skip(j as int), name@),
        decreases fields.len() - j,
    {
        proof {
            assert(fields@.skip(j as int).drop_first() =~= fields@.skip(j + 1));
            assert(fields@.skip(j as int)[0] == fields@[j as int]);
        }
        let matches = match &fields[j].name {
            Some(n) => str_eq(n.as_str(), name),
            None => false,
        };
        if matches {
            return Some(fields[j].field_type);
        }
        j = j + 1;
    }
    None
}

/// The declared type of an instance field of a class or an ancestor, the
/// most distant ancestor searched first.
fn lookup_instance_field_type(graph: &ObjectGraph, class_id: u64, field_name: &str) -> (t: Option<u8>)
    ensures
        t == field_type_of(graph.classes@, class_id, field_name@),
{
    if class_id == 0 || graph.classes.get(&class_id).is_none() {
        return None;
    }
    let line = class_line_ids(graph, class_id, true);
    let mut i: usize = line.len();
    proof {
        assert(line@.take(i as int) =~= line@);
    }
    while i > 0
        invariant
            i <= line@.len(),
            class_id != 0,
            graph.classes@.contains_key(class_id),
            line@ == class_line(graph.classes@, class_id, true),
            type_in_line(graph.classes@, line@, field_name@) == type_in_line(
                graph.classes@,
                line@.take(i as int),
                field_name@,
            ),
        decreases i,
    {
        let c = line[i - 1];
        proof {
            assert(line@.take(i as int).drop_last() =~= line@.take(i - 1));
            assert(line@.take(i as int).last() == c);
        }
        match graph.classes.get(&c) {
            Some(info) => match type_in_field_list(&info.instance_fields, field_name) {
                Some(t) => {
                    proof {
                        assert(graph.classes@.contains_key(c));
                        assert(type_in_fields(graph.classes@[c].instance_fields@, field_name@) == Some(t));
                        assert(type_in_line(graph.classes@, line@.take(i as int), field_name@) == Some(t));
                    }
                    return Some(t);
                },
                None => {},
            },
            None => {},
        }
        i = i - 1;
    }
    None
}

// ---------------------------------------------------------------------------
// Conditions.

/// The characters that `regex::escape` escapes.
fn is_meta_char(c: char) -> (b: bool)
    ensures
        b == is_meta(c),
{
    c == '\\' || c == '.' || c == '+' || c == '*' || c == '?' || c == '(' || c == ')' || c == '|'
        || c == '[' || c == ']' || c == '{' || c == '}' || c == '^' || c == '$' || c == '#' || c == '&'
        || c == '-' || c == '~'
}

/// The whole-text regular expression for a `LIKE` pattern: `%` is any run,
/// `_` any one character, everything else literal.
fn like_regex_string(pattern: &str) -> (r: String)
    ensures
        r@ == like_regex(pattern@),
{
    let cs = chars_of(pattern);
    let mut out = chars_of("(?s)^");
    let ghost head = out@;
    let mut i: usize = 0;
    while i < cs.len()
        invariant
            i <= cs@.len(),
            out@ == head + like_body(cs@.take(i as int)),
        decreases cs.len() - i,
    {
        let c = cs[i];
        let ghost before = out@;
        if c == '%' {
            push_str(&mut out, ".*");
        } else if c == '_' {
            out.push('.');
            proof {
                assert(out@ =~= before + seq!['.']);
            }
        } else {
            if is_meta_char(c) {
                out.push('\\');
                out.push(c);
                proof {
                    assert(out@ =~= before + seq!['\\', c]);
                }
            } else {
                out.push(c);
                proof {
                    assert(out@ =~= before + seq![c]);
                }
            }
        }
        proof {
            assert(cs@.take(i + 1).drop_last() =~= cs@.take(i as int));
            assert(out@ == before + like_piece(c));
        }
        i = i + 1;
    }
    push_str(&mut out, "$");
    proof {
        assert(cs@.take(i as int) =~= cs@);
    }
    string_from_chars(&out)
}

/// SQL `LIKE` on the whole text, through the `regex` crate.
fn like_match(pattern: &str, value: &str) -> (b: bool)
    ensures
        b == (regex_compile_error(like_regex(pattern@)) is None && regex_match(like_regex(pattern@), value@)),
{
    let re = like_regex_string(pattern);
    match regex_check(re.as_str()) {
        Some(_) => false,
        None => regex_is_match(re.as_str(), value),
    }
}

/// An ordering comparison between signed integers.
fn compare_i64(op: ComparisonOp, l: i64, r: i64) -> (b: bool)
    ensures
        b == int_compare(op, l as int, r as int),
{
    match op {
        ComparisonOp::Eq => l == r,
        ComparisonOp::Ne => l != r,
        ComparisonOp::Gt => l > r,
        ComparisonOp::Lt => l < r,
        ComparisonOp::Ge => l >= r,
        ComparisonOp::Le => l <= r,
        _ => false,
    }
}

/// An ordering comparison between unsigned integers.
fn compare_u64(op: ComparisonOp, l: u64, r: u64) -> (b: bool)
    ensures
        b == int_compare(op, l as int, r as int),
{
    match op {
        ComparisonOp::Eq => l == r,
        ComparisonOp::Ne => l != r,
        ComparisonOp::Gt => l > r,
        ComparisonOp::Lt => l < r,
        ComparisonOp::Ge => l >= r,
        ComparisonOp::Le => l <= r,
        _ => false,
    }
}

/// Does a cell satisfy `op value`?
pub fn compare_values(left: &CellValue, op: ComparisonOp, right: &Value) -> (b: bool)
    ensures
        b == compare_spec(left@, op, right@),
{
    match (left, right) {
        (CellValue::Int(l), Value::Int(r)) => compare_i64(op, *l, *r),
        (CellValue::Str(l), Value::Str(r)) => match op {
            ComparisonOp::Eq => str_eq(l.as_str(), r.as_str()),
            ComparisonOp::Ne => !str_eq(l.as_str(), r.as_str()),
            ComparisonOp::Like => like_match(r.as_str(), l.as_str()),
            ComparisonOp::Contains => find_text(&chars_of(l.as_str()), &chars_of(r.as_str())),
            ComparisonOp::RegexMatch => match regex_check(r.as_str()) {
                Some(_) => false,
                None => regex_is_match(r.as_str(), l.as_str()),
            },
            _ => false,
        },
        (CellValue::Bool(l), Value::Bool(r)) => match op {
            ComparisonOp::Eq => *l == *r,
            ComparisonOp::Ne => *l != *r,
            _ => false,
        },
        (CellValue::Null, Value::Null) => op == ComparisonOp::Eq,
        (CellValue::Id(_), Value::Null) => op == ComparisonOp::Ne,
        (CellValue::Str(_), Value::Null) => op == ComparisonOp::Ne,
        (CellValue::Id(l), Value::Int(r)) => compare_u64(op, *l, *r as u64),
        _ => false,
    }
}

/// The object a reference field of an object points to.
fn resolve_reference_target(field: &FieldRef, graph: &ObjectGraph, object_id: u64) -> (t: Option<u64>)
    ensures
        t == ref_target(*field, *graph, object_id),
{
    let object = match graph.get_object(object_id) {
        Some(o) => o,
        None => return None,
    };
    match field {
        FieldRef::BuiltIn(_) => None,
        FieldRef::InstanceField(name) => match read_field(object, &graph.classes, name.as_str(), graph.identifier_size) {
            Some(FieldValue::ObjectRef(Some(r))) => Some(r),
            _ => None,
        },
    }
}

/// Whether a text has a `*`.
fn has_star(cs: &Vec<char>) -> (b: bool)
    ensures
        b == cs@.contains('*'),
{
    match first_star_index(cs) {
        Some(k) => {
            proof {
                lemma_star_found(cs@, 0);
            }
            true
        },
        None => {
            proof {
                lemma_star_found(cs@, 0);
            }
            false
        },
    }
}

proof fn lemma_star_found(p: Seq<char>, i: int)
    requires
        0 <= i <= p.len(),
    ensures
        star_from(p, i) is Some <==> exists|k: int| i <= k < p.len() && p[k] == '*',
        star_from(p, i) matches Some(k) ==> i <= k < p.len() && p[k] == '*',
    decreases p.len() - i,
{
    if i < p.len() {
        lemma_star_found(p, i + 1);
    }
}

/// `field INSTANCEOF "Class"`.
fn matches_instanceof_condition(field: &FieldRef, value: &Value, graph: &ObjectGraph, object_id: u64) -> (b: bool)
    ensures
        b == instanceof_spec(*field, value@, *graph, object_id),
{
    let expected = match value {
        Value::Str(s) => s,
        _ => return false,
    };
    let target = match resolve_reference_target(field, graph, object_id) {
        Some(t) => t,
        None => return false,
    };
    let target_object = match graph.get_object(target) {
        Some(o) => o,
        None => return false,
    };
    let text = chars_of(expected.as_str());
    let glob = has_star(&text);
    line_matches(graph, target_object.class_id, glob, &text, true)
}

/// An `Unsupported` error with the given characters.
fn unsupported(cs: &Vec<char>) -> (e: QueryError)
    ensures
        e@ == ErrView::Unsupported(cs@),
{
    QueryError::Unsupported(string_from_chars(cs))
}

/// `IS [NOT] NULL` on an instance field.
fn evaluate_null_field(field_name: &str, op: ComparisonOp, graph: &ObjectGraph, object_id: u64) -> (r: Result<bool, QueryError>)
    ensures
        outcome_is(r, null_outcome(field_name@, op, *graph, object_id)),
{
    let object = match graph.get_object(object_id) {
        Some(o) => o,
        None => return Ok(false),
    };
    let cl = class_label_chars(graph, object.class_id);
    let opn = if op == ComparisonOp::IsNotNull { "IS NOT NULL" } else { "IS NULL" };
    let mut not_ref = chars_of(opn);
    push_str(&mut not_ref, " not applicable to primitive field '");
    push_str(&mut not_ref, field_name);
    push_str(&mut not_ref, "' on class '");
    push_chars(&mut not_ref, &cl);
    push_str(&mut not_ref, "'");
    match lookup_instance_field_type(graph, object.class_id, field_name) {
        None => {
            let mut m = chars_of(opn);
            push_str(&mut m, " field '");
            push_str(&mut m, field_name);
            push_str(&mut m, "' does not exist on class '");
            push_chars(&mut m, &cl);
            push_str(&mut m, "'");
            Err(unsupported(&m))
        },
        Some(t) => {
            if t != 2 {
                return Err(unsupported(&not_ref));
            }
            match read_field(object, &graph.classes, field_name, graph.identifier_size) {
                Some(FieldValue::ObjectRef(r)) => {
                    let is_null = r.is_none();
                    Ok(if op == ComparisonOp::IsNotNull { !is_null } else { is_null })
                },
                Some(_) => Err(unsupported(&not_ref)),
                None => {
                    let mut m = chars_of(opn);
                    push_str(&mut m, " field '");
                    push_str(&mut m, field_name);
                    push_str(&mut m, "' could not be read from class '");
                    push_chars(&mut m, &cl);
                    push_str(&mut m, "'");
                    Err(unsupported(&m))
                },
            }
        },
    }
}

/// Decides one condition for one object.
fn evaluate_condition(
    condition: &Condition,
    graph: &ObjectGraph,
    dominator: Option<&DominatorTree>,
    object_id: u64,
) -> (r: Result<bool, QueryError>)
    ensures
        !cond_reads_path(*condition) ==> outcome_is(r, cond_outcome(*condition, *graph, dominator, object_id)),
{
    if condition.op == ComparisonOp::InstanceOf {
        return Ok(matches_instanceof_condition(&condition.field, &condition.value, graph, object_id));
    }
    if condition.op == ComparisonOp::IsNull || condition.op == ComparisonOp::IsNotNull {
        return match &condition.field {
            FieldRef::InstanceField(n) => evaluate_null_field(n.as_str(), condition.op, graph, object_id),
            FieldRef::BuiltIn(_) => {
                let c = resolve_field_value(&condition.field, graph, dominator, object_id);
                let is_null = match c {
                    CellValue::Null => true,
                    _ => false,
                };
                Ok(if condition.op == ComparisonOp::IsNotNull { !is_null } else { is_null })
            },
        };
    }
    let left = resolve_field_value(&condition.field, graph, dominator, object_id);
    Ok(compare_values(&left, condition.op, &condition.value))
}

/// Once a condition fails, the whole clause fails with its message.
proof fn lemma_fold_fails(w: WhereClause, graph: ObjectGraph, dom: Option<&DominatorTree>, id: u64, k: nat, k2: nat)
    requires
        k <= k2,
        fold_filter(w, graph, dom, id, k) is Fails,
    ensures
        fold_filter(w, graph, dom, id, k2) == fold_filter(w, graph, dom, id, k),
    decreases k2,
{
    if k2 > k {
        lemma_fold_fails(w, graph, dom, id, k, (k2 - 1) as nat);
    }
}

/// Decides a `WHERE` clause for one object: every condition in turn,
/// joined left to right.
fn matches_filter(
    filter: &Option<WhereClause>,
    graph: &ObjectGraph,
    dominator: Option<&DominatorTree>,
    object_id: u64,
) -> (r: Result<bool, QueryError>)
    requires
        filter is Some ==> where_shape(filter->0),
    ensures
        filter_path_free(*filter) ==> outcome_is(r, filter_outcome(*filter, *graph, dominator, object_id)),
{
    let w = match filter {
        None => return Ok(true),
        Some(w) => w,
    };
    let mut acc = match evaluate_condition(&w.conditions[0], graph, dominator, object_id) {
        Ok(b) => b,
        Err(e) => {
            proof {
                if filter_path_free(Some(*w)) {
                    assert(!cond_reads_path(w.conditions@[0]));
                    lemma_fold_fails(*w, *graph, dominator, object_id, 0, w.operators@.len());
                }
            }
            return Err(e);
        },
    };
    proof {
        if filter_path_free(Some(*w)) {
            assert(!cond_reads_path(w.conditions@[0]));
        }
    }
    let mut k: usize = 0;
    while k < w.operators.len()
        invariant
            *filter == Some(*w),
            where_shape(*w),
            k <= w.operators@.len(),
            filter_path_free(Some(*w)) ==> fold_filter(*w, *graph, dominator, object_id, k as nat) == Outcome::Verdict(acc),
        decreases w.operators.len() - k,
    {
        let next = match evaluate_condition(&w.conditions[k + 1], graph, dominator, object_id) {
            Ok(b) => b,
            Err(e) => {
                proof {
                    if filter_path_free(Some(*w)) {
                        assert(!cond_reads_path(w.conditions@[k + 1]));
                        let co = cond_outcome(w.conditions@[k + 1], *graph, dominator, object_id);
                        assert(co is Fails);
                        assert(fold_filter(*w, *graph, dominator, object_id, (k + 1) as nat) == co);
                        lemma_fold_fails(*w, *graph, dominator, object_id, (k + 1) as nat, w.operators@.len());
                    }
                }
                return Err(e);
            },
        };
        proof {
            if filter_path_free(Some(*w)) {
                assert(!cond_reads_path(w.conditions@[k + 1]));
            }
        }
        acc = match w.operators[k] {
            LogicalOp::And => acc && next,
            LogicalOp::Or => acc || next,
        };
        k = k + 1;
    }
    Ok(acc)
}


// ---------------------------------------------------------------------------
// Orderings.

/// `<=` on ids, as a relation.
pub open spec fn id_le() -> spec_fn(u64, u64) -> bool {
    |a: u64, b: u64| a <= b
}

proof fn lemma_id_le_total()
    ensures
        vstd::relations::total_ordering(id_le()),
{
}

/// A sequence sorted by `ids_sorted` is sorted by `id_le`.
proof fn lemma_sorted_by_id_le(t: Seq<u64>)
    requires
        ids_sorted(t),
    ensures
        vstd::relations::sorted_by(t, id_le()),
{
}

/// Two ascending sequences with the same multiset are equal.
proof fn lemma_sorted_unique(a: Seq<u64>, b: Seq<u64>)
    requires
        ids_sorted(a),
        ids_sorted(b),
        a.to_multiset() == b.to_multiset(),
    ensures
        a == b,
{
    lemma_id_le_total();
    lemma_sorted_by_id_le(a);
    lemma_sorted_by_id_le(b);
    vstd::seq_lib::lemma_sorted_unique(a, b, id_le());
}

/// A sorted permutation of `s` is `sorted_ids(s)`.
proof fn lemma_sorted_ids_is(t: Seq<u64>, s: Seq<u64>)
    requires
        ids_sorted(t),
        t.to_multiset() == s.to_multiset(),
    ensures
        t == sorted_ids(s),
{
    let c = sorted_ids(s);
    assert(ids_sorted(c) && c.to_multiset() == s.to_multiset());
    lemma_sorted_unique(t, c);
}

/// Duplicate-free sequences with the same elements have the same multiset.
proof fn lemma_same_elements_multiset(a: Seq<u64>, b: Seq<u64>)
    requires
        a.no_duplicates(),
        b.no_duplicates(),
        forall|x: u64| a.contains(x) <==> b.contains(x),
    ensures
        a.to_multiset() == b.to_multiset(),
{
    broadcast use vstd::seq_lib::group_to_multiset_ensures, vstd::multiset::group_multiset_axioms;
    a.lemma_multiset_has_no_duplicates();
    b.lemma_multiset_has_no_duplicates();
    assert forall|x: u64| a.to_multiset().count(x) == b.to_multiset().count(x) by {
        if a.contains(x) {
            assert(a.to_multiset().contains(x));
            assert(b.to_multiset().contains(x));
        } else {
            assert(!b.contains(x));
        }
    }
    assert(a.to_multiset() =~= b.to_multiset());
}

/// Ascending listings of one set are `ascending` of it.
proof fn lemma_ascending_is(t: Seq<u64>, s: Set<u64>)
    requires
        is_ascending_of(t, s),
    ensures
        t == ascending(s),
{
    let c = ascending(s);
    assert(is_ascending_of(c, s));
    assert forall|x: u64| t.contains(x) <==> c.contains(x) by {
        assert(t.contains(x) <==> s.contains(x));
        assert(c.contains(x) <==> s.contains(x));
    }
    lemma_same_elements_multiset(t, c);
    lemma_sorted_unique(t, c);
}

/// Sorting a duplicate-free list of the elements of `s` lists `s` ascending.
proof fn lemma_sort_lists_set(keys: Seq<u64>, sorted: Seq<u64>, s: Set<u64>)
    requires
        keys.no_duplicates(),
        forall|x: u64| #[trigger] keys.contains(x) <==> s.contains(x),
        ids_sorted(sorted),
        sorted.to_multiset() == keys.to_multiset(),
    ensures
        sorted == ascending(s),
{
    broadcast use vstd::seq_lib::group_to_multiset_ensures, vstd::multiset::group_multiset_axioms;
    keys.lemma_multiset_has_no_duplicates();
    assert forall|x: u64| sorted.to_multiset().contains(x) implies sorted.to_multiset().count(x) == 1 by {
        assert(keys.to_multiset().contains(x));
    }
    sorted.lemma_multiset_has_no_duplicates_conv();
    assert forall|x: u64| #[trigger] sorted.contains(x) <==> s.contains(x) by {
        crate::util::lemma_same_multiset_contains(sorted, keys, x);
    }
    lemma_ascending_is(sorted, s);
}

// ---------------------------------------------------------------------------
// Candidates.

/// Every object id, ascending.
fn all_ids_ascending(graph: &ObjectGraph) -> (ids: Vec<u64>)
    ensures
        ids@ == ascending(graph.objects@.dom()),
{
    let keys = map_keys(&graph.objects);
    let sorted = sort_ids(&keys);
    proof {
        assert forall|x: u64| #[trigger] keys@.contains(x) <==> graph.objects@.dom().contains(x) by {
            if keys@.contains(x) {
                assert(keys@.to_set().contains(x));
            }
            if graph.objects@.dom().contains(x) {
                assert(keys@.to_set().contains(x));
            }
        }
        lemma_sort_lists_set(keys@, sorted@, graph.objects@.dom());
    }
    sorted
}

/// Objects that reference `id`, ascending.
fn referrers_ascending(graph: &ObjectGraph, id: u64) -> (ids: Vec<u64>)
    ensures
        ids@ == ascending(referrer_set(*graph, id)),
{
    let refs = graph.get_referrers(id);
    let sorted = sort_ids(&refs);
    proof {
        assert forall|x: u64| #[trigger] refs@.contains(x) <==> referrer_set(*graph, id).contains(x) by {}
        lemma_sort_lists_set(refs@, sorted@, referrer_set(*graph, id));
    }
    sorted
}

/// Immediate dominators upward from `object_id`, nearest first.
fn resolve_dominator_chain(dominator: &DominatorTree, object_id: u64, max_depth: usize) -> (chain: Vec<u64>)
    ensures
        chain@ == dom_chain(dominator.idom_view(), object_id, set![object_id], max_depth as nat),
{
    let mut chain: Vec<u64> = Vec::new();
    let mut visited: HashSet<u64> = HashSet::new();
    visited.insert(object_id);
    let mut current = object_id;
    proof {
        assert(visited@ =~= set![object_id]);
    }
    while chain.len() < max_depth
        invariant_except_break
            chain@ + dom_chain(dominator.idom_view(), current, visited@, (max_depth - chain@.len()) as nat)
                == dom_chain(dominator.idom_view(), object_id, set![object_id], max_depth as nat),
        invariant
            chain@.len() <= max_depth,
        ensures
            chain@ == dom_chain(dominator.idom_view(), object_id, set![object_id], max_depth as nat),
        decreases max_depth - chain@.len(),
    {
        let next = match dominator.immediate_dominator(current) {
            Some(n) => n,
            None => {
                proof {
                    assert(chain@ =~= chain@ + Seq::<u64>::empty());
                }
                break;
            },
        };
        if next == VIRTUAL_ROOT_ID {
            proof {
                assert(chain@ =~= chain@ + Seq::<u64>::empty());
            }
            break;
        }
        if !visited.insert(next) {
            proof {
                assert(chain@ =~= chain@ + Seq::<u64>::empty());
            }
            break;
        }
        let ghost rest = dom_chain(dominator.idom_view(), next, visited@, (max_depth - chain@.len() - 1) as nat);
        chain.push(next);
        current = next;
        proof {
            assert(chain@ + rest =~= chain@.drop_last() + (seq![next] + rest));
        }
    }
    proof {
        if chain@.len() == max_depth {
            assert(chain@ =~= chain@ + Seq::<u64>::empty());
        }
    }
    chain
}

/// Which class patterns a candidate must match, if any.
enum Scan<'a> {
    Everything,
    One(&'a ClassPattern),
    Many(&'a Vec<ClassPattern>),
}

spec fn scan_view(s: Scan) -> Option<Seq<ClassPattern>> {
    match s {
        Scan::Everything => None,
        Scan::One(p) => Some(seq![*p]),
        Scan::Many(ps) => Some(ps@),
    }
}

/// An error of an earlier candidate is the error of the whole list.
proof fn lemma_sift_err(
    q: Query,
    graph: ObjectGraph,
    dom: Option<&DominatorTree>,
    cands: Seq<u64>,
    scan: Option<Seq<ClassPattern>>,
    k: int,
)
    requires
        0 <= k <= cands.len(),
        sift(q, graph, dom, cands.take(k), scan) is Err,
    ensures
        sift(q, graph, dom, cands, scan) == sift(q, graph, dom, cands.take(k), scan),
    decreases cands.len() - k,
{
    if k < cands.len() {
        assert(cands.take(k + 1).drop_last() =~= cands.take(k));
        lemma_sift_err(q, graph, dom, cands, scan, k + 1);
    } else {
        assert(cands.take(k) =~= cands);
    }
}

/// Keeps, in order, the candidates that exist, pass the class scan and
/// satisfy the query's filter.
fn sift_candidates(
    query: &Query,
    graph: &ObjectGraph,
    dominator: Option<&DominatorTree>,
    cands: &Vec<u64>,
    scan: Scan,
) -> (r: Result<Vec<u64>, QueryError>)
    requires
        query.filter is Some ==> where_shape(query.filter->0),
    ensures
        filter_path_free(query.filter) ==> ids_result_is(r, sift(*query, *graph, dominator, cands@, scan_view(scan))),
{
    let mut out: Vec<u64> = Vec::new();
    let mut i: usize = 0;
    while i < cands.len()
        invariant
            i <= cands@.len(),
            query.filter is Some ==> where_shape(query.filter->0),
            filter_path_free(query.filter) ==> sift(*query, *graph, dominator, cands@.take(i as int), scan_view(scan))
                == Ok::<Seq<u64>, ErrView>(out@),
        decreases cands.len() - i,
    {
        let x = cands[i];
        proof {
            assert(cands@.take(i + 1).drop_last() =~= cands@.take(i as int));
            assert(cands@.take(i + 1).last() == x);
        }
        let object = match graph.get_object(x) {
            Some(o) => o,
            None => {
                i = i + 1;
                continue;
            },
        };
        let passes = match scan {
            Scan::Everything => true,
            Scan::One(p) => {
                let m = matches_class_pattern(graph, object.class_id, p, query.from.instanceof);
                proof {
                    assert(seq![*p].drop_last() =~= Seq::<ClassPattern>::empty());
                    assert(seq![*p].last() == *p);
                    assert(!any_pattern_matches(graph.classes@, object.class_id, Seq::<ClassPattern>::empty(), query.from.instanceof));
                    assert(any_pattern_matches(graph.classes@, object.class_id, seq![*p], query.from.instanceof) == m);
                }
                m
            },
            Scan::Many(ps) => matches_any_pattern(graph, object.class_id, ps, query.from.instanceof),
        };
        if !passes {
            i = i + 1;
            continue;
        }
        match matches_filter(&query.filter, graph, dominator, x) {
            Err(e) => {
                proof {
                    if filter_path_free(query.filter) {
                        lemma_sift_err(*query, *graph, dominator, cands@, scan_view(scan), i + 1);
                    }
                }
                return Err(e);
            },
            Ok(b) => {
                if b {
                    out.push(x);
                }
            },
        }
        i = i + 1;
    }
    proof {
        assert(cands@.take(i as int) =~= cands@);
    }
    Ok(out)
}

// ---------------------------------------------------------------------------
// Up-front checks.

/// `SELECT` mentions the attribute.
fn select_mentions_exec(select: &SelectClause, b: BuiltInField) -> (m: bool)
    ensures
        m == select_mentions(*select, b),
{
    match select {
        SelectClause::All => false,
        SelectClause::Fields(fs) => {
            let mut i: usize = 0;
            while i < fs.len()
                invariant
                    i <= fs@.len(),
                    select_mentions(*select, b) == fs@.contains(FieldRef::BuiltIn(b)),
                    forall|j: int| 0 <= j < i ==> fs@[j] != FieldRef::BuiltIn(b),
                decreases fs.len() - i,
            {
                let hit = match &fs[i] {
                    FieldRef::BuiltIn(x) => *x == b,
                    _ => false,
                };
                if hit {
                    proof {
                        assert(fs@[i as int] == FieldRef::BuiltIn(b));
                    }
                    return true;
                }
                i = i + 1;
            }
            false
        },
        SelectClause::Objects(f) => match f {
            FieldRef::BuiltIn(x) => *x == b,
            _ => false,
        },
        SelectClause::DistinctObjects(f) => match f {
            FieldRef::BuiltIn(x) => *x == b,
            _ => false,
        },
    }
}

/// Some condition reads the attribute.
fn some_field_condition_exec(filter: &Option<WhereClause>, b: BuiltInField) -> (m: bool)
    ensures
        m == some_field_condition(*filter, b),
{
    let w = match filter {
        None => return false,
        Some(w) => w,
    };
    let mut i: usize = 0;
    while i < w.conditions.len()
        invariant
            i <= w.conditions@.len(),
            *filter == Some(*w),
            forall|j: int| 0 <= j < i ==> (#[trigger] w.conditions@[j]).field != FieldRef::BuiltIn(b),
        decreases w.conditions.len() - i,
    {
        let hit = match &w.conditions[i].field {
            FieldRef::BuiltIn(x) => *x == b,
            _ => false,
        };
        if hit {
            proof {
                assert(w.conditions@[i as int].field == FieldRef::BuiltIn(b));
            }
            return true;
        }
        i = i + 1;
    }
    false
}

/// Some condition is `IS NULL` or `IS NOT NULL`.
fn some_null_condition_exec(filter: &Option<WhereClause>) -> (m: bool)
    ensures
        m == some_null_condition(*filter),
{
    let w = match filter {
        None => return false,
        Some(w) => w,
    };
    let mut i: usize = 0;
    while i < w.conditions.len()
        invariant
            i <= w.conditions@.len(),
            *filter == Some(*w),
            forall|j: int| 0 <= j < i ==> !is_null_op((#[trigger] w.conditions@[j]).op),
        decreases w.conditions.len() - i,
    {
        let op = w.conditions[i].op;
        if op == ComparisonOp::IsNull || op == ComparisonOp::IsNotNull {
            proof {
                assert(is_null_op(w.conditions@[i as int].op));
            }
            return true;
        }
        i = i + 1;
    }
    false
}

/// The field of the first text predicate on an instance field.
fn first_text_predicate_exec(filter: &Option<WhereClause>) -> (n: Option<String>)
    ensures
        match n {
            Some(s) => filter is Some && first_text_predicate(filter->0.conditions@, 0) == Some(s@),
            None => filter is None || first_text_predicate(filter->0.conditions@, 0) is None,
        },
{
    let w = match filter {
        None => return None,
        Some(w) => w,
    };
    let mut i: usize = 0;
    while i < w.conditions.len()
        invariant
            i <= w.conditions@.len(),
            *filter == Some(*w),
            first_text_predicate(w.conditions@, 0) == first_text_predicate(w.conditions@, i as int),
        decreases w.conditions.len() - i,
    {
        let c = &w.conditions[i];
        if c.op == ComparisonOp::Like || c.op == ComparisonOp::Contains || c.op == ComparisonOp::RegexMatch {
            match &c.field {
                FieldRef::InstanceField(name) => return Some(name.clone()),
                _ => {},
            }
        }
        i = i + 1;
    }
    None
}

/// Rejects, without a dominator tree, the features that need the full
/// object graph.
fn validate_supported_query(query: &Query, dominator: Option<&DominatorTree>) -> (r: Result<(), QueryError>)
    ensures
        match r {
            Ok(_) => overview_fault(*query, dominator) is None,
            Err(e) => overview_fault(*query, dominator) == Some(e@),
        },
{
    if dominator.is_some() {
        return Ok(());
    }
    if select_mentions_exec(&query.select, BuiltInField::GcRootPath) || some_field_condition_exec(
        &query.filter,
        BuiltInField::GcRootPath,
    ) {
        return Err(QueryError::feature_unavailable_in_overview_mode(
            "@gcRootPath",
            "re-run with --mode deep; @gcRootPath requires deep-mode object graph traversal.",
        ));
    }
    let objects = match &query.select {
        SelectClause::Objects(_) => true,
        SelectClause::DistinctObjects(_) => true,
        _ => false,
    };
    if objects {
        return Err(QueryError::feature_unavailable_in_overview_mode(
            "OBJECTS",
            "re-run with --mode deep; OBJECTS requires deep-mode object field traversal.",
        ));
    }
    if some_null_condition_exec(&query.filter) {
        return Err(QueryError::feature_unavailable_in_overview_mode(
            "IS NULL / IS NOT NULL",
            "re-run with --mode deep; IS NULL and IS NOT NULL require deep-mode instance field data.",
        ));
    }
    if select_mentions_exec(&query.select, BuiltInField::RetainedSize) || some_field_condition_exec(
        &query.filter,
        BuiltInField::RetainedSize,
    ) {
        return Err(QueryError::feature_unavailable_in_overview_mode(
            "@retainedSize",
            "re-run with --mode deep or use @shallowSize for a per-object approximation.",
        ));
    }
    if select_mentions_exec(&query.select, BuiltInField::ToString) || some_field_condition_exec(
        &query.filter,
        BuiltInField::ToString,
    ) {
        return Err(QueryError::feature_unavailable_in_overview_mode(
            "@toString",
            "re-run with --mode deep; @toString requires deep-mode field data.",
        ));
    }
    match first_text_predicate_exec(&query.filter) {
        Some(name) => {
            return Err(QueryError::feature_unavailable_in_overview_mode(
                name.as_str(),
                "re-run with --mode deep; LIKE, CONTAINS, and =~ on instance fields require deep-mode field data.",
            ));
        },
        None => {},
    }
    match &query.from.class_pattern {
        ClassPattern::Traversal(TraversalFunction::Dominators(_)) => {
            return Err(QueryError::feature_unavailable_in_overview_mode(
                "dominators(...)",
                "re-run with --mode deep; dominators(...) requires a deep-mode dominator tree.",
            ));
        },
        _ => {},
    }
    Ok(())
}

/// The first `=~` condition whose pattern is not a usable regular
/// expression, as the message of the error it causes.
fn check_regex_conditions(filter: &Option<WhereClause>) -> (m: Option<String>)
    ensures
        match m {
            Some(s) => regex_fault(*filter) == Some(s@),
            None => regex_fault(*filter) is None,
        },
{
    let w = match filter {
        None => return None,
        Some(w) => w,
    };
    let mut i: usize = 0;
    while i < w.conditions.len()
        invariant
            i <= w.conditions@.len(),
            *filter == Some(*w),
            first_regex_fault(w.conditions@, 0) == first_regex_fault(w.conditions@, i as int),
        decreases w.conditions.len() - i,
    {
        let c = &w.conditions[i];
        if c.op == ComparisonOp::RegexMatch {
            match &c.value {
                Value::Str(p) => match regex_check(p.as_str()) {
                    Some(err) => {
                        let mut out = chars_of("invalid regex pattern '");
                        push_str(&mut out, p.as_str());
                        push_str(&mut out, "': ");
                        push_str(&mut out, err.as_str());
                        return Some(string_from_chars(&out));
                    },
                    None => {},
                },
                _ => return Some("=~ requires a string regex pattern".to_string()),
            }
        }
        i = i + 1;
    }
    None
}

// ---------------------------------------------------------------------------
// Resolution.

/// The matched ids of a query's own `FROM` and `WHERE`, in evaluation
/// order; `depth` counts enclosing subqueries.
fn resolve_matched_ids_at_depth(
    query: &Query,
    graph: &ObjectGraph,
    dominator: Option<&DominatorTree>,
    depth: usize,
) -> (r: Result<Vec<u64>, QueryError>)
    requires
        query.filter is Some ==> where_shape(query.filter->0),
        depth == 0 ==> query_shape(*query),
        depth <= 1,
    ensures
        filter_path_free(query.filter) && (depth == 0 ==> query_path_free(*query)) ==> ids_result_is(
            r,
            resolve_spec(*query, *graph, dominator, depth as nat),
        ),
    decreases (if depth == 0 { 1nat } else { 0nat }), 0nat,
{
    match &query.from.class_pattern {
        ClassPattern::Traversal(TraversalFunction::Outbounds(id)) => {
            let cands = graph.get_references(*id);
            proof {
                if !graph.objects@.contains_key(*id) {
                    assert(cands@ =~= Seq::<u64>::empty());
                }
            }
            sift_candidates(query, graph, dominator, &cands, Scan::Everything)
        },
        ClassPattern::Traversal(TraversalFunction::Inbounds(id)) => {
            let cands = referrers_ascending(graph, *id);
            sift_candidates(query, graph, dominator, &cands, Scan::Everything)
        },
        ClassPattern::Traversal(TraversalFunction::Dominators(id)) => match dominator {
            Some(d) => {
                let cands = resolve_dominator_chain(d, *id, DOMINATOR_CHAIN_MAX_DEPTH);
                sift_candidates(query, graph, dominator, &cands, Scan::Everything)
            },
            None => Err(QueryError::feature_unavailable_in_overview_mode(
                "dominators(...)",
                "re-run with --mode deep; dominators(...) requires a deep-mode dominator tree.",
            )),
        },
        ClassPattern::Subquery(inner) => {
            if depth >= 1 {
                return Err(QueryError::Unsupported(
                    "subquery nesting depth exceeded: OQL subqueries support only one level of nesting".to_string(),
                ));
            }
            let cands = match resolve_ids_bounded_by_own_limit(inner, graph, dominator, depth + 1) {
                Ok(c) => c,
                Err(e) => return Err(e),
            };
            sift_candidates(query, graph, dominator, &cands, Scan::Everything)
        },
        ClassPattern::Multi(patterns) => {
            if patterns.len() > 8 {
                return Err(QueryError::Unsupported(
                    "multi-class FROM list exceeds limit of 8 class patterns".to_string(),
                ));
            }
            let cands = all_ids_ascending(graph);
            sift_candidates(query, graph, dominator, &cands, Scan::Many(patterns))
        },
        _ => {
            let cands = all_ids_ascending(graph);
            sift_candidates(query, graph, dominator, &cands, Scan::One(&query.from.class_pattern))
        },
    }
}

/// The ids a query contributes on its own: checked, resolved, sorted and
/// cut to its own `LIMIT`.
fn resolve_ids_bounded_by_own_limit(
    query: &Query,
    graph: &ObjectGraph,
    dominator: Option<&DominatorTree>,
    depth: usize,
) -> (r: Result<Vec<u64>, QueryError>)
    requires
        query.filter is Some ==> where_shape(query.filter->0),
        depth == 0 ==> query_shape(*query),
        depth <= 1,
    ensures
        filter_path_free(query.filter) && (depth == 0 ==> query_path_free(*query)) ==> ids_result_is(
            r,
            bounded_spec(*query, *graph, dominator, depth as nat),
        ),
    decreases (if depth == 0 { 1nat } else { 0nat }), 1nat,
{
    match validate_supported_query(query, dominator) {
        Err(e) => return Err(e),
        Ok(_) => {},
    }
    match check_regex_conditions(&query.filter) {
        Some(m) => return Err(QueryError::Unsupported(m)),
        None => {},
    }
    let ids = match resolve_matched_ids_at_depth(query, graph, dominator, depth) {
        Ok(ids) => ids,
        Err(e) => return Err(e),
    };
    let sorted = sort_ids(&ids);
    proof {
        lemma_sorted_ids_is(sorted@, ids@);
    }
    match query.limit {
        Some(limit) => {
            if limit < sorted.len() {
                let mut cut: Vec<u64> = Vec::new();
                let mut i: usize = 0;
                while i < limit
                    invariant
                        i <= limit < sorted@.len(),
                        cut@ == sorted@.take(i as int),
                    decreases limit - i,
                {
                    cut.push(sorted[i]);
                    i = i + 1;
                    proof {
                        assert(cut@ =~= sorted@.take(i as int));
                    }
                }
                Ok(cut)
            } else {
                Ok(sorted)
            }
        },
        None => Ok(sorted),
    }
}


// ---------------------------------------------------------------------------
// Projection.

/// Column label of an attribute.
fn field_label_string(f: &FieldRef) -> (s: String)
    ensures
        s@ == field_label(*f),
{
    match f {
        FieldRef::BuiltIn(BuiltInField::ObjectId) => "@objectId".to_string(),
        FieldRef::BuiltIn(BuiltInField::ClassName) => "@className".to_string(),
        FieldRef::BuiltIn(BuiltInField::ShallowSize) => "@shallowSize".to_string(),
        FieldRef::BuiltIn(BuiltInField::RetainedSize) => "@retainedSize".to_string(),
        FieldRef::BuiltIn(BuiltInField::ObjectAddress) => "@objectAddress".to_string(),
        FieldRef::BuiltIn(BuiltInField::ToString) => "@toString".to_string(),
        FieldRef::BuiltIn(BuiltInField::GcRootPath) => "@gcRootPath".to_string(),
        FieldRef::InstanceField(n) => n.clone(),
    }
}

/// `@objectId`, `@className`: what `SELECT *` and `OBJECTS` project.
fn identity_fields() -> (fs: Vec<FieldRef>)
    ensures
        fs@ == row_fields(SelectClause::All),
{
    let mut fs: Vec<FieldRef> = Vec::new();
    fs.push(FieldRef::BuiltIn(BuiltInField::ObjectId));
    fs.push(FieldRef::BuiltIn(BuiltInField::ClassName));
    proof {
        assert(fs@ =~= row_fields(SelectClause::All));
    }
    fs
}

/// The column labels of a list of attributes.
fn labels_of(fields: &Vec<FieldRef>) -> (cols: Vec<String>)
    ensures
        cols@.map_values(|c: String| c@) == fields@.map_values(|f: FieldRef| field_label(f)),
{
    let mut cols: Vec<String> = Vec::new();
    let mut i: usize = 0;
    while i < fields.len()
        invariant
            i <= fields@.len(),
            cols@.map_values(|c: String| c@) == fields@.take(i as int).map_values(|f: FieldRef| field_label(f)),
        decreases fields.len() - i,
    {
        let label = field_label_string(&fields[i]);
        let ghost prev = cols@;
        let ghost lv = label@;
        cols.push(label);
        proof {
            assert(cols@ == prev.push(cols@.last()));
            assert(cols@.map_values(|c: String| c@) =~= prev.map_values(|c: String| c@).push(lv));
            assert(fields@.take(i + 1).map_values(|f: FieldRef| field_label(f)) =~= fields@.take(i as int).map_values(
                |f: FieldRef| field_label(f),
            ).push(field_label(fields@[i as int])));
        }
        i = i + 1;
    }
    proof {
        assert(fields@.take(i as int) =~= fields@);
    }
    cols
}

/// The cells of one row.
fn project_row(
    fields: &Vec<FieldRef>,
    graph: &ObjectGraph,
    dominator: Option<&DominatorTree>,
    object_id: u64,
) -> (row: Vec<CellValue>)
    ensures
        row_ok(fields@, *graph, dominator, object_id, row@),
{
    let mut row: Vec<CellValue> = Vec::new();
    let mut j: usize = 0;
    while j < fields.len()
        invariant
            j <= fields@.len(),
            row@.len() == j,
            forall|k: int| 0 <= k < j ==> cell_ok(fields@[k], *graph, dominator, object_id, (#[trigger] row@[k])@),
        decreases fields.len() - j,
    {
        let c = resolve_field_value(&fields[j], graph, dominator, object_id);
        row.push(c);
        j = j + 1;
    }
    row
}

/// The rows of the first `LIMIT` ids, with the count and the cut mark.
fn tabulate(
    columns: Vec<String>,
    fields: &Vec<FieldRef>,
    graph: &ObjectGraph,
    dominator: Option<&DominatorTree>,
    ids: &Vec<u64>,
    limit: Option<usize>,
) -> (r: QueryResult)
    ensures
        r.columns == columns,
        table_of(r, fields@, *graph, dominator, ids@, limit),
{
    let n = match limit {
        Some(l) => if l < ids.len() { l } else { ids.len() },
        None => ids.len(),
    };
    let mut rows: Vec<Vec<CellValue>> = Vec::new();
    let mut i: usize = 0;
    while i < n
        invariant
            n <= ids@.len(),
            i <= n,
            rows@.len() == i,
            forall|k: int| 0 <= k < i ==> row_ok(fields@, *graph, dominator, ids@[k], (#[trigger] rows@[k])@),
        decreases n - i,
    {
        let row = project_row(fields, graph, dominator, ids[i]);
        rows.push(row);
        i = i + 1;
    }
    let truncated = match limit {
        Some(l) => ids.len() > l,
        None => false,
    };
    QueryResult { columns, rows, total_matched: n, truncated }
}

/// Each id once, at its first place.
fn dedup_keep_first(v: &Vec<u64>) -> (out: Vec<u64>)
    ensures
        out@ == dedup_first(v@),
{
    let mut out: Vec<u64> = Vec::new();
    let mut seen: HashSet<u64> = HashSet::new();
    let mut i: usize = 0;
    while i < v.len()
        invariant
            i <= v@.len(),
            out@ == dedup_first(v@.take(i as int)),
            forall|x: u64| seen@.contains(x) <==> out@.contains(x),
        decreases v.len() - i,
    {
        let x = v[i];
        proof {
            assert(v@.take(i + 1).drop_last() =~= v@.take(i as int));
            assert(v@.take(i + 1).last() == x);
        }
        let ghost seen_before = seen@;
        let ghost out_before = out@;
        if seen.insert(x) {
            out.push(x);
            proof {
                assert(out@.drop_last() =~= out_before);
                assert forall|y: u64| seen@.contains(y) <==> out@.contains(y) by {
                    assert(seen@.contains(y) <==> (seen_before.contains(y) || y == x));
                    assert(out@.contains(y) <==> (out_before.contains(y) || y == x)) by {
                        if out@.contains(y) {
                            let k = choose|k: int| 0 <= k < out@.len() && out@[k] == y;
                            if k < out@.len() - 1 {
                                assert(out_before[k] == y);
                            }
                        }
                        if out_before.contains(y) {
                            let k = choose|k: int| 0 <= k < out_before.len() && out_before[k] == y;
                            assert(out@[k] == y);
                        }
                        if y == x {
                            assert(out@[out@.len() - 1] == y);
                        }
                    }
                }
            }
        }
        i = i + 1;
    }
    proof {
        assert(v@.take(i as int) =~= v@);
    }
    out
}

/// The non-empty `.`-separated segments of a path.
fn split_path(path: &str) -> (segs: Vec<Vec<char>>)
    ensures
        segs@.map_values(|v: Vec<char>| v@) == path_segments(path@),
{
    let cs = chars_of(path);
    let mut segs: Vec<Vec<char>> = Vec::new();
    let mut i: usize = 0;
    while i < cs.len()
        invariant
            i <= cs@.len(),
            segs@.map_values(|v: Vec<char>| v@) == path_segments(cs@.take(i as int)),
        decreases cs.len() - i,
    {
        let c = cs[i];
        let ghost prev = path_segments(cs@.take(i as int));
        proof {
            assert(cs@.take(i + 1).drop_last() =~= cs@.take(i as int));
            assert(cs@.take(i + 1).last() == c);
        }
        if c != '.' {
            if i >= 1 && cs[i - 1] != '.' {
                proof {
                    assert(cs@.take(i + 1)[i - 1] == cs@[i - 1]);
                    assert(segs@.len() == prev.len());
                    assert(prev.len() > 0) by {
                        lemma_segments_nonempty(cs@.take(i as int));
                    }
                }
                let last = segs.len() - 1;
                let mut seg = segs[last].clone();
                proof {
                    assert(seg@ == segs@[last as int]@);
                }
                seg.push(c);
                segs.set(last, seg);
                proof {
                    assert(segs@.map_values(|v: Vec<char>| v@) =~= prev.update(prev.len() - 1, prev.last().push(c)));
                }
            } else {
                let mut seg: Vec<char> = Vec::new();
                seg.push(c);
                segs.push(seg);
                proof {
                    assert(segs@.map_values(|v: Vec<char>| v@) =~= prev.push(seq![c]));
                }
            }
        }
        i = i + 1;
    }
    proof {
        assert(cs@.take(i as int) =~= cs@);
    }
    segs
}

/// A path that ends in a non-dot character has a segment.
proof fn lemma_segments_nonempty(p: Seq<char>)
    requires
        p.len() >= 1,
        p.last() != '.',
    ensures
        path_segments(p).len() > 0,
    decreases p.len(),
{
    let prev = path_segments(p.drop_last());
    if p.len() >= 2 && p[p.len() - 2] != '.' {
        assert(p.drop_last().last() == p[p.len() - 2]);
        lemma_segments_nonempty(p.drop_last());
    }
}

/// The field an `OBJECTS` path reads.
fn normalize_objects_field_name(path: &str) -> (name: Option<Vec<char>>)
    ensures
        match name {
            Some(n) => objects_field_name(path@) == Some(n@),
            None => objects_field_name(path@) is None,
        },
{
    let segs = split_path(path);
    proof {
        assert(segs@.map_values(|v: Vec<char>| v@).len() == segs@.len());
    }
    if segs.len() == 1 {
        proof {
            assert(segs@.map_values(|v: Vec<char>| v@)[0] == segs@[0]@);
        }
        Some(segs[0].clone())
    } else if segs.len() == 2 {
        proof {
            assert(segs@.map_values(|v: Vec<char>| v@)[1] == segs@[1]@);
        }
        Some(segs[1].clone())
    } else {
        None
    }
}

/// The object an `OBJECTS` row projects for one matched object.
fn resolve_objects_projection_target(
    field: &FieldRef,
    graph: &ObjectGraph,
    object_id: u64,
) -> (r: Result<Option<u64>, QueryError>)
    ensures
        match r {
            Ok(t) => objects_target(*field, *graph, object_id) == Ok::<Option<u64>, ErrView>(t),
            Err(e) => objects_target(*field, *graph, object_id) == Err::<Option<u64>, ErrView>(e@),
        },
{
    let path = match field {
        FieldRef::InstanceField(p) => p,
        FieldRef::BuiltIn(_) => {
            return Err(QueryError::Unsupported("OBJECTS requires an instance field expression".to_string()));
        },
    };
    let name = match normalize_objects_field_name(path.as_str()) {
        Some(n) => n,
        None => {
            let mut m = chars_of("multi-hop OBJECTS not yet supported: '");
            push_str(&mut m, path.as_str());
            push_str(&mut m, "'");
            return Err(QueryError::NotImplemented(string_from_chars(&m)));
        },
    };
    let object = match graph.get_object(object_id) {
        Some(o) => o,
        None => return Ok(None),
    };
    let cl = class_label_chars(graph, object.class_id);
    let name_text = string_from_chars(&name);
    let mut not_ref = chars_of("OBJECTS field '");
    push_chars(&mut not_ref, &name);
    push_str(&mut not_ref, "' on class '");
    push_chars(&mut not_ref, &cl);
    push_str(&mut not_ref, "' is not an object-reference field");
    match lookup_instance_field_type(graph, object.class_id, name_text.as_str()) {
        None => {
            let mut m = chars_of("OBJECTS field '");
            push_chars(&mut m, &name);
            push_str(&mut m, "' does not exist on class '");
            push_chars(&mut m, &cl);
            push_str(&mut m, "'");
            Err(unsupported(&m))
        },
        Some(t) => {
            if t != 2 {
                return Err(unsupported(&not_ref));
            }
            match read_field(object, &graph.classes, name_text.as_str(), graph.identifier_size) {
                Some(FieldValue::ObjectRef(Some(target))) => {
                    if graph.get_object(target).is_some() {
                        Ok(Some(target))
                    } else {
                        Ok(None)
                    }
                },
                Some(FieldValue::ObjectRef(None)) => Ok(None),
                Some(_) => Err(unsupported(&not_ref)),
                None => {
                    let mut m = chars_of("OBJECTS field '");
                    push_chars(&mut m, &name);
                    push_str(&mut m, "' could not be read from class '");
                    push_chars(&mut m, &cl);
                    push_str(&mut m, "'");
                    Err(unsupported(&m))
                },
            }
        },
    }
}

/// The referenced objects of the matched objects, in order.
fn objects_projection_targets(field: &FieldRef, graph: &ObjectGraph, ids: &Vec<u64>) -> (r: Result<Vec<u64>, QueryError>)
    ensures
        ids_result_is(r, objects_targets(*field, *graph, ids@)),
{
    let mut out: Vec<u64> = Vec::new();
    let mut i: usize = 0;
    while i < ids.len()
        invariant
            i <= ids@.len(),
            objects_targets(*field, *graph, ids@.take(i as int)) == Ok::<Seq<u64>, ErrView>(out@),
        decreases ids.len() - i,
    {
        proof {
            assert(ids@.take(i + 1).drop_last() =~= ids@.take(i as int));
            assert(ids@.take(i + 1).last() == ids@[i as int]);
        }
        match resolve_objects_projection_target(field, graph, ids[i]) {
            Err(e) => {
                proof {
                    lemma_targets_err(*field, *graph, ids@, i + 1);
                }
                return Err(e);
            },
            Ok(None) => {},
            Ok(Some(t)) => out.push(t),
        }
        i = i + 1;
    }
    proof {
        assert(ids@.take(i as int) =~= ids@);
    }
    Ok(out)
}

/// An error for an earlier object is the error of the whole projection.
proof fn lemma_targets_err(field: FieldRef, graph: ObjectGraph, ids: Seq<u64>, k: int)
    requires
        0 <= k <= ids.len(),
        objects_targets(field, graph, ids.take(k)) is Err,
    ensures
        objects_targets(field, graph, ids) == objects_targets(field, graph, ids.take(k)),
    decreases ids.len() - k,
{
    if k < ids.len() {
        assert(ids.take(k + 1).drop_last() =~= ids.take(k));
        lemma_targets_err(field, graph, ids, k + 1);
    } else {
        assert(ids.take(k) =~= ids);
    }
}

/// Projects the sorted matched ids through `select`, cut to `limit`.
fn finalize_query_result(
    select: &SelectClause,
    limit: Option<usize>,
    graph: &ObjectGraph,
    dominator: Option<&DominatorTree>,
    ids: &Vec<u64>,
) -> (r: Result<QueryResult, QueryError>)
    ensures
        finalize_ok(r, *select, limit, *graph, dominator, ids@),
{
    match select {
        SelectClause::Objects(field) => {
            let targets = match objects_projection_targets(field, graph, ids) {
                Ok(t) => t,
                Err(e) => return Err(e),
            };
            let fields = identity_fields();
            let columns = labels_of(&fields);
            Ok(tabulate(columns, &fields, graph, None, &targets, limit))
        },
        SelectClause::DistinctObjects(field) => {
            let targets = match objects_projection_targets(field, graph, ids) {
                Ok(t) => t,
                Err(e) => return Err(e),
            };
            let distinct = dedup_keep_first(&targets);
            let fields = identity_fields();
            let columns = labels_of(&fields);
            Ok(tabulate(columns, &fields, graph, None, &distinct, limit))
        },
        SelectClause::Fields(fs) => {
            let columns = labels_of(fs);
            Ok(tabulate(columns, fs, graph, dominator, ids, limit))
        },
        SelectClause::All => {
            let fields = identity_fields();
            let columns = labels_of(&fields);
            Ok(tabulate(columns, &fields, graph, dominator, ids, limit))
        },
    }
}

// ---------------------------------------------------------------------------
// Entry points.

/// Evaluates a query: rejects features that need a dominator tree when
/// there is none, checks its regular expressions, resolves its candidates,
/// and projects the matched objects in ascending id order.
pub fn execute_query(
    query: &Query,
    graph: &ObjectGraph,
    dominator: Option<&DominatorTree>,
) -> (r: Result<QueryResult, QueryError>)
    requires
        query_shape(*query),
    ensures
        query_path_free(*query) ==> query_outcome(r, *query, *graph, dominator),
{
    match validate_supported_query(query, dominator) {
        Err(e) => return Err(e),
        Ok(_) => {},
    }
    match check_regex_conditions(&query.filter) {
        Some(m) => return Err(QueryError::Unsupported(m)),
        None => {},
    }
    let ids = match resolve_matched_ids_at_depth(query, graph, dominator, 0) {
        Ok(ids) => ids,
        Err(e) => return Err(e),
    };
    let sorted = sort_ids(&ids);
    proof {
        lemma_sorted_ids_is(sorted@, ids@);
    }
    finalize_query_result(&query.select, query.limit, graph, dominator, &sorted)
}

/// Both sides of a statement can be evaluated.
pub open spec fn statement_shape(s: QueryStatement) -> bool {
    match s {
        QueryStatement::Single(q) => query_shape(q),
        QueryStatement::Union(l, r) => query_shape(l) && query_shape(r),
    }
}

/// Evaluates a single query, or two joined by `UNION`.
pub fn execute_query_statement(
    statement: &QueryStatement,
    graph: &ObjectGraph,
    dominator: Option<&DominatorTree>,
) -> (r: Result<QueryResult, QueryError>)
    requires
        statement_shape(*statement),
    ensures
        match statement {
            QueryStatement::Single(q) => query_path_free(*q) ==> query_outcome(r, *q, *graph, dominator),
            QueryStatement::Union(a, b) => query_path_free(*a) && query_path_free(*b) ==> union_outcome(
                r,
                *a,
                *b,
                *graph,
                dominator,
            ),
        },
{
    match statement {
        QueryStatement::Single(query) => execute_query(query, graph, dominator),
        QueryStatement::Union(left, right) => execute_union_query(left, right, graph, dominator),
    }
}

/// `left UNION right`: each side's own ids, merged without repeats,
/// projected through the left side's `SELECT`.
fn execute_union_query(
    left: &Query,
    right: &Query,
    graph: &ObjectGraph,
    dominator: Option<&DominatorTree>,
) -> (r: Result<QueryResult, QueryError>)
    requires
        query_shape(*left),
        query_shape(*right),
    ensures
        query_path_free(*left) && query_path_free(*right) ==> union_outcome(r, *left, *right, *graph, dominator),
{
    let left_ids = match resolve_ids_bounded_by_own_limit(left, graph, dominator, 0) {
        Ok(ids) => ids,
        Err(e) => return Err(e),
    };
    let right_ids = match resolve_ids_bounded_by_own_limit(right, graph, dominator, 0) {
        Ok(ids) => ids,
        Err(e) => return Err(e),
    };
    let mut both: Vec<u64> = Vec::new();
    let mut i: usize = 0;
    while i < left_ids.len()
        invariant
            i <= left_ids@.len(),
            both@ == left_ids@.take(i as int),
        decreases left_ids.len() - i,
    {
        both.push(left_ids[i]);
        i = i + 1;
        proof {
            assert(both@ =~= left_ids@.take(i as int));
        }
    }
    let mut j: usize = 0;
    while j < right_ids.len()
        invariant
            j <= right_ids@.len(),
            both@ == left_ids@ + right_ids@.take(j as int),
        decreases right_ids.len() - j,
    {
        both.push(right_ids[j]);
        j = j + 1;
        proof {
            assert(both@ =~= left_ids@ + right_ids@.take(j as int));
        }
    }
    proof {
        assert(left_ids@.take(left_ids@.len() as int) =~= left_ids@);
        assert(right_ids@.take(j as int) =~= right_ids@);
    }
    let merged = dedup_keep_first(&both);
    let sorted = sort_ids(&merged);
    proof {
        lemma_sorted_ids_is(sorted@, merged@);
    }
    finalize_query_result(&left.select, None, graph, dominator, &sorted)
}


/// Every query the parser accepts can be evaluated: its `WHERE` clauses,
/// and its subquery's, join one more condition than operators.
pub proof fn lemma_parsed_query_executable(q: Query)
    requires
        query_ok(q, 0),
    ensures
        query_shape(q),
{
    if q.from.class_pattern is Subquery {
        if !from_flat_ok(q.from) {
            let inner = q.from.class_pattern->Subquery_0;
            assert(query_flat_ok(*inner));
        }
    }
}

/// Every statement the parser accepts can be evaluated.
pub proof fn lemma_parsed_statement_executable(s: QueryStatement)
    requires
        match s {
            QueryStatement::Single(q) => query_ok(q, 0),
            QueryStatement::Union(a, b) => query_ok(a, 0) && query_ok(b, 0),
        },
    ensures
        statement_shape(s),
{
    match s {
        QueryStatement::Single(q) => lemma_parsed_query_executable(q),
        QueryStatement::Union(a, b) => {
            lemma_parsed_query_executable(a);
            lemma_parsed_query_executable(b);
        },
    }
}


/// `dedup_first` keeps each element once, and only elements of its input.
proof fn lemma_dedup_first(s: Seq<u64>)
    ensures
        dedup_first(s).no_duplicates(),
        forall|x: u64| #[trigger] dedup_first(s).contains(x) <==> s.contains(x),
    decreases s.len(),
{
    if s.len() > 0 {
        lemma_dedup_first(s.drop_last());
        let p = dedup_first(s.drop_last());
        assert forall|x: u64| #[trigger] dedup_first(s).contains(x) <==> s.contains(x) by {
            assert(s.contains(x) <==> (s.drop_last().contains(x) || s.last() == x)) by {
                if s.contains(x) {
                    let k = choose|k: int| 0 <= k < s.len() && s[k] == x;
                    if k < s.len() - 1 {
                        assert(s.drop_last()[k] == x);
                    }
                }
                if s.drop_last().contains(x) {
                    let k = choose|k: int| 0 <= k < s.drop_last().len() && s.drop_last()[k] == x;
                    assert(s[k] == x);
                }
                if s.last() == x {
                    assert(s[s.len() - 1] == x);
                }
            }
            if !p.contains(s.last()) {
                let q = p.push(s.last());
                assert(q.contains(x) <==> (p.contains(x) || x == s.last())) by {
                    if q.contains(x) {
                        let k = choose|k: int| 0 <= k < q.len() && q[k] == x;
                        if k < p.len() {
                            assert(p[k] == x);
                        }
                    }
                    if p.contains(x) {
                        let k = choose|k: int| 0 <= k < p.len() && p[k] == x;
                        assert(q[k] == x);
                    }
                    if x == s.last() {
                        assert(q[p.len() as int] == x);
                    }
                }
            }
        }
    }
}

/// `UNION` gives every id of either side, each once, in ascending order.
pub proof fn lemma_union_ids(l: Seq<u64>, r: Seq<u64>)
    ensures
        ids_sorted(sorted_ids(dedup_first(l + r))),
        sorted_ids(dedup_first(l + r)).no_duplicates(),
        forall|x: u64| #[trigger] sorted_ids(dedup_first(l + r)).contains(x) <==> (l.contains(x) || r.contains(x)),
{
    broadcast use vstd::seq_lib::group_to_multiset_ensures, vstd::multiset::group_multiset_axioms;
    let d = dedup_first(l + r);
    lemma_dedup_first(l + r);
    let w = d.sort_by(id_le());
    lemma_id_le_total();
    d.lemma_sort_by_ensures(id_le());
    assert(ids_sorted(w)) by {
        assert forall|i: int, j: int| 0 <= i < j < w.len() implies w[i] <= w[j] by {
            assert(id_le()(w[i], w[j]));
        }
    }
    let t = sorted_ids(d);
    assert(ids_sorted(t) && t.to_multiset() == d.to_multiset());
    d.lemma_multiset_has_no_duplicates();
    assert forall|x: u64| t.to_multiset().contains(x) implies t.to_multiset().count(x) == 1 by {}
    t.lemma_multiset_has_no_duplicates_conv();
    assert forall|x: u64| #[trigger] t.contains(x) <==> (l.contains(x) || r.contains(x)) by {
        crate::util::lemma_same_multiset_contains(t, d, x);
        assert((l + r).contains(x) <==> (l.contains(x) || r.contains(x))) by {
            if (l + r).contains(x) {
                let k = choose|k: int| 0 <= k < (l + r).len() && (l + r)[k] == x;
                if k < l.len() {
                    assert(l[k] == x);
                } else {
                    assert(r[k - l.len()] == x);
                }
            }
            if l.contains(x) {
                let k = choose|k: int| 0 <= k < l.len() && l[k] == x;
                assert((l + r)[k] == x);
            }
            if r.contains(x) {
                let k = choose|k: int| 0 <= k < r.len() && r[k] == x;
                assert((l + r)[k + l.len()] == x);
            }
        }
    }
}

/// A `LIMIT` bounds the rows of a result, and `truncated` says whether
/// anything was cut.
pub proof fn lemma_limit_bounds_rows(
    r: QueryResult,
    fields: Seq<FieldRef>,
    graph: ObjectGraph,
    dom: Option<&DominatorTree>,
    ids: Seq<u64>,
    limit: usize,
)
    requires
        table_of(r, fields, graph, dom, ids, Some(limit)),
    ensures
        r.rows@.len() <= limit,
        r.rows@.len() == r.total_matched,
        r.truncated <==> r.rows@.len() < ids.len(),
{
}

} // verus!
