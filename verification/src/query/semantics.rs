//! What an object query means: the candidate objects it selects, how each
//! condition is decided, and the table it produces, as spec functions over
//! the object graph.

use vstd::prelude::*;
use crate::graph::dominator::{DominatorTree, VIRTUAL_ROOT_ID};
use crate::graph::gc_root_path::is_root_path;
use crate::graph::metrics::{name_or_unknown, superclass_chain};
use crate::hprof::fields::{field_of, name_is, FieldValue};
use crate::hprof::object_graph::{class_name_of, ClassInfo, FieldDescriptor, ObjectGraph};
use crate::hprof::overview::GcRootKind;
use crate::pattern::{regex_compile_error, regex_match};
use crate::query::synth::{dotted, string_value, synth_text};
use crate::query::types::{
    BuiltInField, CellValue, ClassPattern, ComparisonOp, Condition, FieldRef, LogicalOp, Query,
    QueryError, QueryResult, SelectClause, TraversalFunction, Value, WhereClause,
};
use crate::text::{contains_text, dec_chars, hex_chars, zero_padded};
use crate::util::ids_sorted;

verus! {

/// A result cell as a mathematical value.
pub enum CellView {
    Id(u64),
    Str(Seq<char>),
    Int(int),
    Bool(bool),
    Null,
}

impl View for CellValue {
    type V = CellView;

    open spec fn view(&self) -> CellView {
        match self {
            CellValue::Id(x) => CellView::Id(*x),
            CellValue::Str(s) => CellView::Str(s@),
            CellValue::Int(x) => CellView::Int(*x as int),
            CellValue::Bool(b) => CellView::Bool(*b),
            CellValue::Null => CellView::Null,
        }
    }
}

/// A literal as a mathematical value.
pub enum ValueView {
    Int(int),
    Str(Seq<char>),
    Null,
    Bool(bool),
}

impl View for Value {
    type V = ValueView;

    open spec fn view(&self) -> ValueView {
        match self {
            Value::Int(x) => ValueView::Int(*x as int),
            Value::Str(s) => ValueView::Str(s@),
            Value::Null => ValueView::Null,
            Value::Bool(b) => ValueView::Bool(*b),
        }
    }
}

/// A query error as a mathematical value.
pub enum ErrView {
    Feature(Seq<char>, Seq<char>),
    NotImplemented(Seq<char>),
    Unsupported(Seq<char>),
}

impl View for QueryError {
    type V = ErrView;

    open spec fn view(&self) -> ErrView {
        match self {
            QueryError::FeatureUnavailableInOverviewMode { feature, hint } => ErrView::Feature(feature@, hint@),
            QueryError::NotImplemented(m) => ErrView::NotImplemented(m@),
            QueryError::Unsupported(m) => ErrView::Unsupported(m@),
        }
    }
}

/// How one condition, or a whole `WHERE` clause, came out for one object.
pub enum Outcome {
    Verdict(bool),
    Fails(Seq<char>),
}

// ---------------------------------------------------------------------------
// Attributes of an object.

/// A class's name with `/` written as `.`, or `<unknown>`.
pub open spec fn class_label(classes: Map<u64, ClassInfo>, class_id: u64) -> Seq<char> {
    dotted(name_or_unknown(class_name_of(classes, class_id)))
}

/// `0x` and the id in upper-case hexadecimal, at least eight digits.
pub open spec fn address_text(id: u64) -> Seq<char> {
    "0x"@ + zero_padded(hex_chars(id as nat, true), 8)
}

/// Retained size from the dominator tree, zero without one.
pub open spec fn retained_of(dom: Option<&DominatorTree>, id: u64) -> u64 {
    match dom {
        Some(t) => if t.retained_view().contains_key(id) { t.retained_view()[id] } else { 0 },
        None => 0,
    }
}

/// A UTF-16 `char` field: the character, null for a lone surrogate.
pub open spec fn char_cell(u: u16) -> CellView {
    if 0xD800 <= u <= 0xDFFF {
        CellView::Null
    } else {
        CellView::Str(seq![u as char])
    }
}

/// The cell for a decoded instance field: references to strings show their
/// text, other references their id; floating-point fields are null.
pub open spec fn field_cell(graph: ObjectGraph, v: Option<FieldValue>) -> CellView {
    match v {
        Some(FieldValue::Boolean(b)) => CellView::Bool(b),
        Some(FieldValue::Byte(x)) => CellView::Int(x as int),
        Some(FieldValue::Short(x)) => CellView::Int(x as int),
        Some(FieldValue::Int(x)) => CellView::Int(x as int),
        Some(FieldValue::Long(x)) => CellView::Int(x as int),
        Some(FieldValue::Char(u)) => char_cell(u),
        Some(FieldValue::ObjectRef(Some(r))) => if graph.objects@.contains_key(r) && string_value(graph, r) is Some {
            CellView::Str(string_value(graph, r)->0)
        } else {
            CellView::Id(r)
        },
        _ => CellView::Null,
    }
}

/// The value of an attribute of an object, for every attribute but
/// `@gcRootPath`; null for a missing object.
pub open spec fn cell_spec(field: FieldRef, graph: ObjectGraph, dom: Option<&DominatorTree>, id: u64) -> CellView {
    if !graph.objects@.contains_key(id) {
        CellView::Null
    } else {
        let o = graph.objects@[id];
        match field {
            FieldRef::BuiltIn(BuiltInField::ObjectId) => CellView::Id(id),
            FieldRef::BuiltIn(BuiltInField::ClassName) => CellView::Str(class_label(graph.classes@, o.class_id)),
            FieldRef::BuiltIn(BuiltInField::ShallowSize) => CellView::Int(o.shallow_size as int),
            FieldRef::BuiltIn(BuiltInField::RetainedSize) => CellView::Int(retained_of(dom, id) as i64 as int),
            FieldRef::BuiltIn(BuiltInField::ObjectAddress) => CellView::Str(address_text(id)),
            FieldRef::BuiltIn(BuiltInField::ToString) => match synth_text(graph, id) {
                Some(t) => CellView::Str(t),
                None => CellView::Null,
            },
            FieldRef::BuiltIn(BuiltInField::GcRootPath) => CellView::Null,
            FieldRef::InstanceField(name) => field_cell(
                graph,
                field_of(o, graph.classes@, name@, graph.identifier_size),
            ),
        }
    }
}

/// The `Debug` name of a root kind.
pub open spec fn kind_name(k: GcRootKind) -> Seq<char> {
    match k {
        GcRootKind::JniGlobal => "JniGlobal"@,
        GcRootKind::JniLocal => "JniLocal"@,
        GcRootKind::JavaFrame => "JavaFrame"@,
        GcRootKind::NativeStack => "NativeStack"@,
        GcRootKind::StickyClass => "StickyClass"@,
        GcRootKind::ThreadBlock => "ThreadBlock"@,
        GcRootKind::MonitorUsed => "MonitorUsed"@,
        GcRootKind::ThreadObject => "ThreadObject"@,
        GcRootKind::Unknown => "Unknown"@,
    }
}

/// How an object on a root path is shown.
pub open spec fn frame_label(graph: ObjectGraph, id: u64) -> Seq<char> {
    if graph.objects@.contains_key(id) {
        class_label(graph.classes@, graph.objects@[id].class_id)
    } else {
        "<unknown object id="@ + dec_chars(id as nat) + ">"@
    }
}

/// ` -> label` for each object of a path.
pub open spec fn joined_labels(graph: ObjectGraph, frames: Seq<u64>) -> Seq<char>
    decreases frames.len(),
{
    if frames.len() == 0 {
        Seq::empty()
    } else {
        joined_labels(graph, frames.drop_last()) + " -> "@ + frame_label(graph, frames.last())
    }
}

/// `GcRoot/<kind> -> <class> -> …` for a root path.
pub open spec fn path_text(graph: ObjectGraph, kind: GcRootKind, frames: Seq<u64>) -> Seq<char> {
    "GcRoot/"@ + kind_name(kind) + joined_labels(graph, frames)
}

/// Longest root path that `@gcRootPath` looks for.
pub const GC_ROOT_PATH_MAX_DEPTH: usize = 32;

/// An acceptable `@gcRootPath` cell: when a root path of at most
/// `GC_ROOT_PATH_MAX_DEPTH` objects ends at the object, the text of a
/// shortest one (which of several equally short ones is left open);
/// otherwise null.
pub open spec fn gc_cell_ok(graph: ObjectGraph, id: u64, c: CellView) -> bool {
    if exists|f: Seq<u64>, k: GcRootKind| #[trigger] is_root_path(graph.objects@, graph.gc_roots@, f, k, id)
        && f.len() <= GC_ROOT_PATH_MAX_DEPTH {
        exists|frames: Seq<u64>, kind: GcRootKind| {
            &&& is_root_path(graph.objects@, graph.gc_roots@, frames, kind, id)
            &&& frames.len() <= GC_ROOT_PATH_MAX_DEPTH
            &&& forall|f: Seq<u64>, k: GcRootKind| #[trigger] is_root_path(graph.objects@, graph.gc_roots@, f, k, id)
                ==> frames.len() <= f.len()
            &&& c == CellView::Str(#[trigger] path_text(graph, kind, frames))
        }
    } else {
        c == CellView::Null
    }
}

/// An acceptable cell for an attribute of an object.
pub open spec fn cell_ok(field: FieldRef, graph: ObjectGraph, dom: Option<&DominatorTree>, id: u64, c: CellView) -> bool {
    if field == FieldRef::BuiltIn(BuiltInField::GcRootPath) && graph.objects@.contains_key(id) {
        gc_cell_ok(graph, id, c)
    } else {
        c == cell_spec(field, graph, dom, id)
    }
}

// ---------------------------------------------------------------------------
// Class patterns.

/// Index of the first `*` at or after `i`.
pub open spec fn star_from(p: Seq<char>, i: int) -> Option<int>
    decreases p.len() - i,
{
    if i < 0 || i >= p.len() {
        None
    } else if p[i] == '*' {
        Some(i)
    } else {
        star_from(p, i + 1)
    }
}

/// Index of the first `*`.
pub open spec fn first_star(p: Seq<char>) -> Option<int> {
    star_from(p, 0)
}

/// A glob with one wildcard: the text starts with what comes before the
/// first `*` and ends with what comes after it; without `*`, equality.
pub open spec fn glob_spec(p: Seq<char>, v: Seq<char>) -> bool {
    match first_star(p) {
        Some(k) => {
            let pre = p.take(k);
            let suf = p.skip(k + 1);
            &&& pre.len() <= v.len()
            &&& v.take(pre.len() as int) == pre
            &&& suf.len() <= v.len()
            &&& v.skip(v.len() - suf.len()) == suf
        },
        None => p == v,
    }
}

/// The exact name or glob a pattern stands for (`true` for a glob); other
/// `FROM` sources match no class.
pub open spec fn pattern_key(p: ClassPattern) -> Option<(bool, Seq<char>)> {
    match p {
        ClassPattern::Exact(e) => Some((false, e@)),
        ClassPattern::Glob(g) => Some((true, g@)),
        _ => None,
    }
}

/// The class's dotted name equals the text, or matches it as a glob.
pub open spec fn class_matches(classes: Map<u64, ClassInfo>, cid: u64, key: (bool, Seq<char>)) -> bool {
    match class_name_of(classes, cid) {
        None => false,
        Some(n) => if key.0 { glob_spec(key.1, dotted(n)) } else { dotted(n) == key.1 },
    }
}

/// The class, followed by its superclasses when `sup` holds.
pub open spec fn class_line(classes: Map<u64, ClassInfo>, cid: u64, sup: bool) -> Seq<u64> {
    if sup {
        seq![cid] + superclass_chain(classes, cid, set![cid], classes.len())
    } else {
        seq![cid]
    }
}

/// Some class of `line` matches.
pub open spec fn any_class_matches(classes: Map<u64, ClassInfo>, line: Seq<u64>, key: (bool, Seq<char>)) -> bool
    decreases line.len(),
{
    if line.len() == 0 {
        false
    } else {
        any_class_matches(classes, line.drop_last(), key) || class_matches(classes, line.last(), key)
    }
}

/// The class (or, with `sup`, one of its superclasses) matches the pattern.
pub open spec fn class_pattern_matches(classes: Map<u64, ClassInfo>, cid: u64, pattern: ClassPattern, sup: bool) -> bool {
    match pattern_key(pattern) {
        Some(key) => any_class_matches(classes, class_line(classes, cid, sup), key),
        None => false,
    }
}

/// Some pattern of the list matches the class.
pub open spec fn any_pattern_matches(classes: Map<u64, ClassInfo>, cid: u64, patterns: Seq<ClassPattern>, sup: bool) -> bool
    decreases patterns.len(),
{
    if patterns.len() == 0 {
        false
    } else {
        any_pattern_matches(classes, cid, patterns.drop_last(), sup) || class_pattern_matches(
            classes,
            cid,
            patterns.last(),
            sup,
        )
    }
}

// ---------------------------------------------------------------------------
// Declared field types.

/// Type of the first field named `name` in a field list.
pub open spec fn type_in_fields(fields: Seq<FieldDescriptor>, name: Seq<char>) -> Option<u8>
    decreases fields.len(),
{
    if fields.len() == 0 {
        None
    } else if name_is(fields[0].name, name) {
        Some(fields[0].field_type)
    } else {
        type_in_fields(fields.drop_first(), name)
    }
}

/// Type of the field `name` along a class line, the most distant ancestor
/// searched first.
pub open spec fn type_in_line(classes: Map<u64, ClassInfo>, line: Seq<u64>, name: Seq<char>) -> Option<u8>
    decreases line.len(),
{
    if line.len() == 0 {
        None
    } else {
        let c = line.last();
        let here = if classes.contains_key(c) { type_in_fields(classes[c].instance_fields@, name) } else { None };
        match here {
            Some(t) => Some(t),
            None => type_in_line(classes, line.drop_last(), name),
        }
    }
}

/// The declared type of instance field `name` of a class or an ancestor.
pub open spec fn field_type_of(classes: Map<u64, ClassInfo>, cid: u64, name: Seq<char>) -> Option<u8> {
    if cid == 0 || !classes.contains_key(cid) {
        None
    } else {
        type_in_line(classes, class_line(classes, cid, true), name)
    }
}

// ---------------------------------------------------------------------------
// Conditions.

/// `LIKE` piece for one pattern character.
pub open spec fn like_piece(c: char) -> Seq<char> {
    if c == '%' {
        ".*"@
    } else if c == '_' {
        seq!['.']
    } else if is_meta(c) {
        seq!['\\', c]
    } else {
        seq![c]
    }
}

/// The characters that `regex::escape` escapes.
pub open spec fn is_meta(c: char) -> bool {
    c == '\\' || c == '.' || c == '+' || c == '*' || c == '?' || c == '(' || c == ')' || c == '|'
        || c == '[' || c == ']' || c == '{' || c == '}' || c == '^' || c == '$' || c == '#' || c == '&'
        || c == '-' || c == '~'
}

/// The translated body of a `LIKE` pattern.
pub open spec fn like_body(p: Seq<char>) -> Seq<char>
    decreases p.len(),
{
    if p.len() == 0 {
        Seq::empty()
    } else {
        like_body(p.drop_last()) + like_piece(p.last())
    }
}

/// The whole-text regular expression for a `LIKE` pattern.
pub open spec fn like_regex(p: Seq<char>) -> Seq<char> {
    "(?s)^"@ + like_body(p) + "$"@
}

/// An ordering comparison between integers.
pub open spec fn int_compare(op: ComparisonOp, l: int, r: int) -> bool {
    match op {
        ComparisonOp::Eq => l == r,
        ComparisonOp::Ne => l != r,
        ComparisonOp::Gt => l > r,
        ComparisonOp::Lt => l < r,
        ComparisonOp::Ge => l >= r,
        ComparisonOp::Le => l <= r,
        _ => false,
    }
}

/// Does a cell satisfy `op value`? Mismatched kinds never do, but a null
/// literal is unequal to any id or text.
pub open spec fn compare_spec(left: CellView, op: ComparisonOp, right: ValueView) -> bool {
    match (left, right) {
        (CellView::Int(l), ValueView::Int(r)) => int_compare(op, l, r),
        (CellView::Str(l), ValueView::Str(r)) => match op {
            ComparisonOp::Eq => l == r,
            ComparisonOp::Ne => l != r,
            ComparisonOp::Like => regex_compile_error(like_regex(r)) is None && regex_match(like_regex(r), l),
            ComparisonOp::Contains => contains_text(l, r),
            ComparisonOp::RegexMatch => regex_compile_error(r) is None && regex_match(r, l),
            _ => false,
        },
        (CellView::Bool(l), ValueView::Bool(r)) => match op {
            ComparisonOp::Eq => l == r,
            ComparisonOp::Ne => l != r,
            _ => false,
        },
        (CellView::Null, ValueView::Null) => op == ComparisonOp::Eq,
        (CellView::Id(_), ValueView::Null) => op == ComparisonOp::Ne,
        (CellView::Str(_), ValueView::Null) => op == ComparisonOp::Ne,
        (CellView::Id(l), ValueView::Int(r)) => int_compare(op, l as int, (r as u64) as int),
        _ => false,
    }
}

/// Ordering comparisons mean what they say: an integer cell compared with
/// an integer literal holds exactly when its value stands in that order to
/// the literal, and so does an object id compared with a literal that is a
/// valid id. Each comparison is also the negation of its opposite.
pub proof fn lemma_integer_cell_comparisons(v: int, k: int, id: u64)
    ensures
        compare_spec(CellView::Int(v), ComparisonOp::Eq, ValueView::Int(k)) <==> v == k,
        compare_spec(CellView::Int(v), ComparisonOp::Ne, ValueView::Int(k)) <==> v != k,
        compare_spec(CellView::Int(v), ComparisonOp::Lt, ValueView::Int(k)) <==> v < k,
        compare_spec(CellView::Int(v), ComparisonOp::Le, ValueView::Int(k)) <==> v <= k,
        compare_spec(CellView::Int(v), ComparisonOp::Gt, ValueView::Int(k)) <==> v > k,
        compare_spec(CellView::Int(v), ComparisonOp::Ge, ValueView::Int(k)) <==> v >= k,
        compare_spec(CellView::Int(v), ComparisonOp::Le, ValueView::Int(k))
            <==> !compare_spec(CellView::Int(v), ComparisonOp::Gt, ValueView::Int(k)),
        compare_spec(CellView::Int(v), ComparisonOp::Ge, ValueView::Int(k))
            <==> !compare_spec(CellView::Int(v), ComparisonOp::Lt, ValueView::Int(k)),
        0 <= k <= u64::MAX ==> {
            &&& compare_spec(CellView::Id(id), ComparisonOp::Eq, ValueView::Int(k)) <==> id == k
            &&& compare_spec(CellView::Id(id), ComparisonOp::Ne, ValueView::Int(k)) <==> id != k
            &&& compare_spec(CellView::Id(id), ComparisonOp::Lt, ValueView::Int(k)) <==> id < k
            &&& compare_spec(CellView::Id(id), ComparisonOp::Le, ValueView::Int(k)) <==> id <= k
            &&& compare_spec(CellView::Id(id), ComparisonOp::Gt, ValueView::Int(k)) <==> id > k
            &&& compare_spec(CellView::Id(id), ComparisonOp::Ge, ValueView::Int(k)) <==> id >= k
        },
{
    if 0 <= k <= u64::MAX {
        assert((k as u64) as int == k);
    }
}

/// Equality comparisons of texts and booleans mean equality, `!=` means
/// the opposite, and ordering comparisons never hold between texts or
/// booleans.
pub proof fn lemma_text_and_bool_comparisons(a: Seq<char>, b: Seq<char>, x: bool, y: bool)
    ensures
        compare_spec(CellView::Str(a), ComparisonOp::Eq, ValueView::Str(b)) <==> a == b,
        compare_spec(CellView::Str(a), ComparisonOp::Ne, ValueView::Str(b)) <==> a != b,
        compare_spec(CellView::Bool(x), ComparisonOp::Eq, ValueView::Bool(y)) <==> x == y,
        compare_spec(CellView::Bool(x), ComparisonOp::Ne, ValueView::Bool(y)) <==> x != y,
        !compare_spec(CellView::Str(a), ComparisonOp::Lt, ValueView::Str(b)),
        !compare_spec(CellView::Str(a), ComparisonOp::Gt, ValueView::Str(b)),
        !compare_spec(CellView::Bool(x), ComparisonOp::Lt, ValueView::Bool(y)),
        !compare_spec(CellView::Bool(x), ComparisonOp::Gt, ValueView::Bool(y)),
{
}

/// A WHERE condition that orders an integer-valued field against an
/// integer literal keeps an object exactly when the object's value stands
/// in that order to the literal: `f <= k` keeps it iff its `f` is at most
/// `k`, and so on for the other orderings.
pub proof fn lemma_where_integer_order(
    c: Condition,
    graph: ObjectGraph,
    dom: Option<&DominatorTree>,
    id: u64,
    v: int,
    k: int,
)
    requires
        cell_spec(c.field, graph, dom, id) == CellView::Int(v),
        c.value@ == ValueView::Int(k),
    ensures
        c.op == ComparisonOp::Eq ==> cond_outcome(c, graph, dom, id) == Outcome::Verdict(v == k),
        c.op == ComparisonOp::Ne ==> cond_outcome(c, graph, dom, id) == Outcome::Verdict(v != k),
        c.op == ComparisonOp::Lt ==> cond_outcome(c, graph, dom, id) == Outcome::Verdict(v < k),
        c.op == ComparisonOp::Le ==> cond_outcome(c, graph, dom, id) == Outcome::Verdict(v <= k),
        c.op == ComparisonOp::Gt ==> cond_outcome(c, graph, dom, id) == Outcome::Verdict(v > k),
        c.op == ComparisonOp::Ge ==> cond_outcome(c, graph, dom, id) == Outcome::Verdict(v >= k),
{
    lemma_integer_cell_comparisons(v, k, 0);
}

/// The object a reference field of an object points to.
pub open spec fn ref_target(field: FieldRef, graph: ObjectGraph, id: u64) -> Option<u64> {
    if !graph.objects@.contains_key(id) {
        None
    } else {
        match field {
            FieldRef::BuiltIn(_) => None,
            FieldRef::InstanceField(name) => match field_of(
                graph.objects@[id],
                graph.classes@,
                name@,
                graph.identifier_size,
            ) {
                Some(FieldValue::ObjectRef(Some(r))) => Some(r),
                _ => None,
            },
        }
    }
}

/// `field INSTANCEOF "Class"`: the referenced object's class, or one of its
/// superclasses, matches the (glob when it has `*`) class name.
pub open spec fn instanceof_spec(field: FieldRef, value: ValueView, graph: ObjectGraph, id: u64) -> bool {
    match value {
        ValueView::Str(ec) => match ref_target(field, graph, id) {
            Some(t) => graph.objects@.contains_key(t) && any_class_matches(
                graph.classes@,
                class_line(graph.classes@, graph.objects@[t].class_id, true),
                (ec.contains('*'), ec),
            ),
            None => false,
        },
        _ => false,
    }
}

/// `IS NULL` or `IS NOT NULL`.
pub open spec fn null_op_name(op: ComparisonOp) -> Seq<char> {
    if op == ComparisonOp::IsNotNull { "IS NOT NULL"@ } else { "IS NULL"@ }
}

/// `IS [NOT] NULL` on an instance field: the field must be a declared
/// reference field that can be read.
pub open spec fn null_outcome(name: Seq<char>, op: ComparisonOp, graph: ObjectGraph, id: u64) -> Outcome {
    if !graph.objects@.contains_key(id) {
        Outcome::Verdict(false)
    } else {
        let o = graph.objects@[id];
        let cl = class_label(graph.classes@, o.class_id);
        let opn = null_op_name(op);
        let not_ref = opn + " not applicable to primitive field '"@ + name + "' on class '"@ + cl + "'"@;
        match field_type_of(graph.classes@, o.class_id, name) {
            None => Outcome::Fails(opn + " field '"@ + name + "' does not exist on class '"@ + cl + "'"@),
            Some(t) => if t != 2 {
                Outcome::Fails(not_ref)
            } else {
                match field_of(o, graph.classes@, name, graph.identifier_size) {
                    Some(FieldValue::ObjectRef(r)) => Outcome::Verdict((r is None) != (op == ComparisonOp::IsNotNull)),
                    Some(_) => Outcome::Fails(not_ref),
                    None => Outcome::Fails(opn + " field '"@ + name + "' could not be read from class '"@ + cl + "'"@),
                }
            },
        }
    }
}

/// How one condition comes out for one object (`@gcRootPath` read as null).
pub open spec fn cond_outcome(c: Condition, graph: ObjectGraph, dom: Option<&DominatorTree>, id: u64) -> Outcome {
    if c.op == ComparisonOp::InstanceOf {
        Outcome::Verdict(instanceof_spec(c.field, c.value@, graph, id))
    } else if c.op == ComparisonOp::IsNull || c.op == ComparisonOp::IsNotNull {
        match c.field {
            FieldRef::InstanceField(n) => null_outcome(n@, c.op, graph, id),
            _ => Outcome::Verdict((cell_spec(c.field, graph, dom, id) == CellView::Null) != (c.op
                == ComparisonOp::IsNotNull)),
        }
    } else {
        Outcome::Verdict(compare_spec(cell_spec(c.field, graph, dom, id), c.op, c.value@))
    }
}

/// An evaluation result carries the outcome: the verdict, or an
/// `Unsupported` error with the message.
pub open spec fn outcome_is(r: Result<bool, QueryError>, o: Outcome) -> bool {
    match (r, o) {
        (Ok(b), Outcome::Verdict(v)) => b == v,
        (Err(QueryError::Unsupported(m)), Outcome::Fails(f)) => m@ == f,
        _ => false,
    }
}

/// The conditions can be joined: one more condition than operators.
pub open spec fn where_shape(w: WhereClause) -> bool {
    w.conditions@.len() >= 1 && w.operators@.len() < w.conditions@.len()
}

/// Conditions `0..=k` joined left to right; the first failure stops.
pub open spec fn fold_filter(w: WhereClause, graph: ObjectGraph, dom: Option<&DominatorTree>, id: u64, k: nat) -> Outcome
    decreases k,
{
    if k == 0 {
        cond_outcome(w.conditions@[0], graph, dom, id)
    } else {
        match fold_filter(w, graph, dom, id, (k - 1) as nat) {
            Outcome::Fails(m) => Outcome::Fails(m),
            Outcome::Verdict(acc) => match cond_outcome(w.conditions@[k as int], graph, dom, id) {
                Outcome::Fails(m) => Outcome::Fails(m),
                Outcome::Verdict(v) => Outcome::Verdict(
                    if w.operators@[k - 1] == LogicalOp::And { acc && v } else { acc || v },
                ),
            },
        }
    }
}

/// How a query's `WHERE` clause comes out for one object.
pub open spec fn filter_outcome(filter: Option<WhereClause>, graph: ObjectGraph, dom: Option<&DominatorTree>, id: u64) -> Outcome {
    match filter {
        None => Outcome::Verdict(true),
        Some(w) => fold_filter(w, graph, dom, id, w.operators@.len()),
    }
}

/// The condition reads `@gcRootPath`.
pub open spec fn cond_reads_path(c: Condition) -> bool {
    c.field == FieldRef::BuiltIn(BuiltInField::GcRootPath)
}

/// No condition reads `@gcRootPath`.
pub open spec fn filter_path_free(filter: Option<WhereClause>) -> bool {
    match filter {
        None => true,
        Some(w) => forall|i: int| 0 <= i < w.conditions@.len() ==> !cond_reads_path(#[trigger] w.conditions@[i]),
    }
}

// ---------------------------------------------------------------------------
// Candidates.

/// The ascending, duplicate-free sequence of the ids in `s`.
pub open spec fn ascending(s: Set<u64>) -> Seq<u64> {
    choose|t: Seq<u64>| is_ascending_of(t, s)
}

/// `t` lists the ids of `s` in ascending order, each once.
pub open spec fn is_ascending_of(t: Seq<u64>, s: Set<u64>) -> bool {
    &&& ids_sorted(t)
    &&& t.no_duplicates()
    &&& forall|x: u64| #[trigger] t.contains(x) <==> s.contains(x)
}

/// The same ids, each as often, in ascending order.
pub open spec fn sorted_ids(s: Seq<u64>) -> Seq<u64> {
    choose|t: Seq<u64>| ids_sorted(t) && t.to_multiset() == s.to_multiset()
}

/// Objects that reference `id`.
pub open spec fn referrer_set(graph: ObjectGraph, id: u64) -> Set<u64> {
    Set::new(|x: u64| graph.objects@.contains_key(x) && graph.objects@[x].references@.contains(id))
}

/// Immediate dominators upward from `cur`, nearest first: the walk stops at
/// an object without one, at the virtual root, at an object already seen,
/// or after `remaining` entries.
pub open spec fn dom_chain(idom: Map<u64, u64>, cur: u64, visited: Set<u64>, remaining: nat) -> Seq<u64>
    decreases remaining,
{
    if remaining == 0 || !idom.contains_key(cur) {
        Seq::empty()
    } else {
        let n = idom[cur];
        if n == VIRTUAL_ROOT_ID || visited.contains(n) {
            Seq::empty()
        } else {
            seq![n] + dom_chain(idom, n, visited.insert(n), (remaining - 1) as nat)
        }
    }
}

/// Longest dominator chain that `dominators(id)` lists.
pub const DOMINATOR_CHAIN_MAX_DEPTH: usize = 64;

/// The class patterns that a `FROM` source scans for.
pub open spec fn scan_patterns(p: ClassPattern) -> Seq<ClassPattern> {
    match p {
        ClassPattern::Multi(ps) => ps@,
        _ => seq![p],
    }
}

/// Keep, in order, the candidates that exist, pass `scan` (when given),
/// and satisfy the filter; the first failing filter stops.
pub open spec fn sift(
    q: Query,
    graph: ObjectGraph,
    dom: Option<&DominatorTree>,
    cands: Seq<u64>,
    scan: Option<Seq<ClassPattern>>,
) -> Result<Seq<u64>, ErrView>
    decreases cands.len(),
{
    if cands.len() == 0 {
        Ok(Seq::empty())
    } else {
        match sift(q, graph, dom, cands.drop_last(), scan) {
            Err(e) => Err(e),
            Ok(s) => {
                let x = cands.last();
                if !graph.objects@.contains_key(x) {
                    Ok(s)
                } else if scan is Some && !any_pattern_matches(
                    graph.classes@,
                    graph.objects@[x].class_id,
                    scan->0,
                    q.from.instanceof,
                ) {
                    Ok(s)
                } else {
                    match filter_outcome(q.filter, graph, dom, x) {
                        Outcome::Fails(m) => Err(ErrView::Unsupported(m)),
                        Outcome::Verdict(b) => Ok(if b { s.push(x) } else { s }),
                    }
                }
            },
        }
    }
}

/// Message for a subquery inside a subquery.
pub open spec fn nesting_message() -> Seq<char> {
    "subquery nesting depth exceeded: OQL subqueries support only one level of nesting"@
}

/// Message for an over-long `FROM` list.
pub open spec fn multi_limit_message() -> Seq<char> {
    "multi-class FROM list exceeds limit of 8 class patterns"@
}

/// Hint for `dominators(...)` without a dominator tree.
pub open spec fn dominators_hint() -> Seq<char> {
    "re-run with --mode deep; dominators(...) requires a deep-mode dominator tree."@
}

/// The matched ids of a query's own `FROM` and `WHERE`, in evaluation
/// order; `depth` counts enclosing subqueries.
pub open spec fn resolve_spec(q: Query, graph: ObjectGraph, dom: Option<&DominatorTree>, depth: nat) -> Result<Seq<u64>, ErrView>
    decreases (if depth == 0 { 1nat } else { 0nat }), 0nat,
{
    match q.from.class_pattern {
        ClassPattern::Traversal(TraversalFunction::Outbounds(id)) => sift(
            q,
            graph,
            dom,
            if graph.objects@.contains_key(id) { graph.objects@[id].references@ } else { Seq::empty() },
            None,
        ),
        ClassPattern::Traversal(TraversalFunction::Inbounds(id)) => sift(
            q,
            graph,
            dom,
            ascending(referrer_set(graph, id)),
            None,
        ),
        ClassPattern::Traversal(TraversalFunction::Dominators(id)) => match dom {
            None => Err(ErrView::Feature("dominators(...)"@, dominators_hint())),
            Some(t) => sift(q, graph, dom, dom_chain(t.idom_view(), id, set![id], DOMINATOR_CHAIN_MAX_DEPTH as nat), None),
        },
        ClassPattern::Subquery(inner) => if depth >= 1 {
            Err(ErrView::Unsupported(nesting_message()))
        } else {
            match bounded_spec(*inner, graph, dom, 1) {
                Err(e) => Err(e),
                Ok(cands) => sift(q, graph, dom, cands, None),
            }
        },
        ClassPattern::Multi(ps) => if ps@.len() > 8 {
            Err(ErrView::Unsupported(multi_limit_message()))
        } else {
            sift(q, graph, dom, ascending(graph.objects@.dom()), Some(ps@))
        },
        _ => sift(q, graph, dom, ascending(graph.objects@.dom()), Some(seq![q.from.class_pattern])),
    }
}

/// The ids a query contributes on its own (as a subquery or one side of a
/// `UNION`): checked, resolved, sorted and cut to its `LIMIT`.
pub open spec fn bounded_spec(q: Query, graph: ObjectGraph, dom: Option<&DominatorTree>, depth: nat) -> Result<Seq<u64>, ErrView>
    decreases (if depth == 0 { 1nat } else { 0nat }), 1nat,
{
    match overview_fault(q, dom) {
        Some(e) => Err(e),
        None => match regex_fault(q.filter) {
            Some(m) => Err(ErrView::Unsupported(m)),
            None => match resolve_spec(q, graph, dom, depth) {
                Err(e) => Err(e),
                Ok(ids) => {
                    let s = sorted_ids(ids);
                    Ok(
                        match q.limit {
                            Some(l) => if l < s.len() { s.take(l as int) } else { s },
                            None => s,
                        },
                    )
                },
            },
        },
    }
}

// ---------------------------------------------------------------------------
// Up-front checks.

/// `SELECT` mentions the attribute.
pub open spec fn select_mentions(select: SelectClause, b: BuiltInField) -> bool {
    match select {
        SelectClause::All => false,
        SelectClause::Fields(fs) => fs@.contains(FieldRef::BuiltIn(b)),
        SelectClause::Objects(f) => f == FieldRef::BuiltIn(b),
        SelectClause::DistinctObjects(f) => f == FieldRef::BuiltIn(b),
    }
}

/// Some condition reads the attribute.
pub open spec fn some_field_condition(filter: Option<WhereClause>, b: BuiltInField) -> bool {
    match filter {
        None => false,
        Some(w) => exists|i: int| 0 <= i < w.conditions@.len() && (#[trigger] w.conditions@[i]).field == FieldRef::BuiltIn(b),
    }
}

/// Some condition is `IS NULL` or `IS NOT NULL`.
pub open spec fn some_null_condition(filter: Option<WhereClause>) -> bool {
    match filter {
        None => false,
        Some(w) => exists|i: int| 0 <= i < w.conditions@.len() && is_null_op((#[trigger] w.conditions@[i]).op),
    }
}

/// `IS NULL` or `IS NOT NULL`.
pub open spec fn is_null_op(op: ComparisonOp) -> bool {
    op == ComparisonOp::IsNull || op == ComparisonOp::IsNotNull
}

/// The query mentions the attribute in `SELECT` or `WHERE`.
pub open spec fn mentions(q: Query, b: BuiltInField) -> bool {
    select_mentions(q.select, b) || some_field_condition(q.filter, b)
}

/// A text predicate on an instance field.
pub open spec fn text_predicate_field(c: Condition) -> Option<Seq<char>> {
    if c.op == ComparisonOp::Like || c.op == ComparisonOp::Contains || c.op == ComparisonOp::RegexMatch {
        match c.field {
            FieldRef::InstanceField(n) => Some(n@),
            _ => None,
        }
    } else {
        None
    }
}

/// The field of the first text predicate on an instance field, from
/// condition `k` on.
pub open spec fn first_text_predicate(conds: Seq<Condition>, k: int) -> Option<Seq<char>>
    decreases conds.len() - k,
{
    if k < 0 || k >= conds.len() {
        None
    } else {
        match text_predicate_field(conds[k]) {
            Some(n) => Some(n),
            None => first_text_predicate(conds, k + 1),
        }
    }
}

/// The first feature that needs the full object graph, when there is none.
pub open spec fn overview_fault(q: Query, dom: Option<&DominatorTree>) -> Option<ErrView> {
    if dom is Some {
        None
    } else if mentions(q, BuiltInField::GcRootPath) {
        Some(ErrView::Feature("@gcRootPath"@,
            "re-run with --mode deep; @gcRootPath requires deep-mode object graph traversal."@))
    } else if q.select is Objects || q.select is DistinctObjects {
        Some(ErrView::Feature("OBJECTS"@, "re-run with --mode deep; OBJECTS requires deep-mode object field traversal."@))
    } else if some_null_condition(q.filter) {
        Some(ErrView::Feature("IS NULL / IS NOT NULL"@,
            "re-run with --mode deep; IS NULL and IS NOT NULL require deep-mode instance field data."@))
    } else if mentions(q, BuiltInField::RetainedSize) {
        Some(ErrView::Feature("@retainedSize"@,
            "re-run with --mode deep or use @shallowSize for a per-object approximation."@))
    } else if mentions(q, BuiltInField::ToString) {
        Some(ErrView::Feature("@toString"@, "re-run with --mode deep; @toString requires deep-mode field data."@))
    } else if q.filter is Some && first_text_predicate(q.filter->0.conditions@, 0) is Some {
        Some(ErrView::Feature(first_text_predicate(q.filter->0.conditions@, 0)->0,
            "re-run with --mode deep; LIKE, CONTAINS, and =~ on instance fields require deep-mode field data."@))
    } else if q.from.class_pattern matches ClassPattern::Traversal(TraversalFunction::Dominators(_)) {
        Some(ErrView::Feature("dominators(...)"@, dominators_hint()))
    } else {
        None
    }
}

/// Why a `=~` condition cannot be used, if one cannot.
pub open spec fn regex_condition_fault(c: Condition) -> Option<Seq<char>> {
    if c.op != ComparisonOp::RegexMatch {
        None
    } else {
        match c.value {
            Value::Str(p) => match regex_compile_error(p@) {
                Some(err) => Some("invalid regex pattern '"@ + p@ + "': "@ + err),
                None => None,
            },
            _ => Some("=~ requires a string regex pattern"@),
        }
    }
}

/// The first unusable `=~` condition from condition `k` on.
pub open spec fn first_regex_fault(conds: Seq<Condition>, k: int) -> Option<Seq<char>>
    decreases conds.len() - k,
{
    if k < 0 || k >= conds.len() {
        None
    } else {
        match regex_condition_fault(conds[k]) {
            Some(m) => Some(m),
            None => first_regex_fault(conds, k + 1),
        }
    }
}

/// The first unusable `=~` condition of a `WHERE` clause.
pub open spec fn regex_fault(filter: Option<WhereClause>) -> Option<Seq<char>> {
    match filter {
        None => None,
        Some(w) => first_regex_fault(w.conditions@, 0),
    }
}

// ---------------------------------------------------------------------------
// Projection.

/// Column label of an attribute.
pub open spec fn field_label(f: FieldRef) -> Seq<char> {
    match f {
        FieldRef::BuiltIn(BuiltInField::ObjectId) => "@objectId"@,
        FieldRef::BuiltIn(BuiltInField::ClassName) => "@className"@,
        FieldRef::BuiltIn(BuiltInField::ShallowSize) => "@shallowSize"@,
        FieldRef::BuiltIn(BuiltInField::RetainedSize) => "@retainedSize"@,
        FieldRef::BuiltIn(BuiltInField::ObjectAddress) => "@objectAddress"@,
        FieldRef::BuiltIn(BuiltInField::ToString) => "@toString"@,
        FieldRef::BuiltIn(BuiltInField::GcRootPath) => "@gcRootPath"@,
        FieldRef::InstanceField(n) => n@,
    }
}

/// The attributes a `SELECT` projects for each row.
pub open spec fn row_fields(select: SelectClause) -> Seq<FieldRef> {
    match select {
        SelectClause::Fields(fs) => fs@,
        _ => seq![FieldRef::BuiltIn(BuiltInField::ObjectId), FieldRef::BuiltIn(BuiltInField::ClassName)],
    }
}

/// The column labels of a `SELECT`.
pub open spec fn columns_spec(select: SelectClause) -> Seq<Seq<char>> {
    row_fields(select).map_values(|f: FieldRef| field_label(f))
}

/// Every cell of a row is acceptable for its attribute and object.
pub open spec fn row_ok(fields: Seq<FieldRef>, graph: ObjectGraph, dom: Option<&DominatorTree>, id: u64, row: Seq<CellValue>) -> bool {
    &&& row.len() == fields.len()
    &&& forall|j: int| 0 <= j < row.len() ==> cell_ok(fields[j], graph, dom, id, (#[trigger] row[j])@)
}

/// The non-empty `.`-separated segments of a path.
pub open spec fn path_segments(p: Seq<char>) -> Seq<Seq<char>>
    decreases p.len(),
{
    if p.len() == 0 {
        Seq::empty()
    } else {
        let prev = path_segments(p.drop_last());
        if p.last() == '.' {
            prev
        } else if p.len() >= 2 && p[p.len() - 2] != '.' {
            prev.update(prev.len() - 1, prev.last().push(p.last()))
        } else {
            prev.push(seq![p.last()])
        }
    }
}

/// The field an `OBJECTS` path reads: the only segment, or the second of two.
pub open spec fn objects_field_name(p: Seq<char>) -> Option<Seq<char>> {
    let s = path_segments(p);
    if s.len() == 1 {
        Some(s[0])
    } else if s.len() == 2 {
        Some(s[1])
    } else {
        None
    }
}

/// The object an `OBJECTS` row projects for one matched object: `Ok(None)`
/// for a null or dangling reference.
pub open spec fn objects_target(field: FieldRef, graph: ObjectGraph, id: u64) -> Result<Option<u64>, ErrView> {
    match field {
        FieldRef::BuiltIn(_) => Err(ErrView::Unsupported("OBJECTS requires an instance field expression"@)),
        FieldRef::InstanceField(path) => match objects_field_name(path@) {
            None => Err(ErrView::NotImplemented("multi-hop OBJECTS not yet supported: '"@ + path@ + "'"@)),
            Some(name) => if !graph.objects@.contains_key(id) {
                Ok(None)
            } else {
                let o = graph.objects@[id];
                let cl = class_label(graph.classes@, o.class_id);
                let not_ref = "OBJECTS field '"@ + name + "' on class '"@ + cl + "' is not an object-reference field"@;
                match field_type_of(graph.classes@, o.class_id, name) {
                    None => Err(ErrView::Unsupported("OBJECTS field '"@ + name + "' does not exist on class '"@ + cl + "'"@)),
                    Some(t) => if t != 2 {
                        Err(ErrView::Unsupported(not_ref))
                    } else {
                        match field_of(o, graph.classes@, name, graph.identifier_size) {
                            Some(FieldValue::ObjectRef(Some(r))) => Ok(
                                if graph.objects@.contains_key(r) { Some(r) } else { None },
                            ),
                            Some(FieldValue::ObjectRef(None)) => Ok(None),
                            Some(_) => Err(ErrView::Unsupported(not_ref)),
                            None => Err(ErrView::Unsupported(
                                "OBJECTS field '"@ + name + "' could not be read from class '"@ + cl + "'"@,
                            )),
                        }
                    },
                }
            },
        },
    }
}

/// The targets of the matched objects, in order, null targets skipped; the
/// first error stops.
pub open spec fn objects_targets(field: FieldRef, graph: ObjectGraph, ids: Seq<u64>) -> Result<Seq<u64>, ErrView>
    decreases ids.len(),
{
    if ids.len() == 0 {
        Ok(Seq::empty())
    } else {
        match objects_targets(field, graph, ids.drop_last()) {
            Err(e) => Err(e),
            Ok(s) => match objects_target(field, graph, ids.last()) {
                Err(e) => Err(e),
                Ok(None) => Ok(s),
                Ok(Some(t)) => Ok(s.push(t)),
            },
        }
    }
}

/// Each id once, at its first place.
pub open spec fn dedup_first(s: Seq<u64>) -> Seq<u64>
    decreases s.len(),
{
    if s.len() == 0 {
        Seq::empty()
    } else {
        let p = dedup_first(s.drop_last());
        if p.contains(s.last()) { p } else { p.push(s.last()) }
    }
}

/// How many of `n` rows a `LIMIT` keeps.
pub open spec fn kept_count(n: nat, limit: Option<usize>) -> nat {
    match limit {
        Some(l) => if (l as nat) < n { l as nat } else { n },
        None => n,
    }
}

/// `r` projects `ids` (the rows before `LIMIT`) with `fields`, and counts
/// and marks the cut.
pub open spec fn table_of(
    r: QueryResult,
    fields: Seq<FieldRef>,
    graph: ObjectGraph,
    dom: Option<&DominatorTree>,
    ids: Seq<u64>,
    limit: Option<usize>,
) -> bool {
    let n = kept_count(ids.len(), limit);
    &&& r.rows@.len() == n
    &&& r.total_matched == n
    &&& r.truncated == (limit is Some && ids.len() > limit->0)
    &&& forall|i: int| 0 <= i < n ==> row_ok(fields, graph, dom, ids[i], (#[trigger] r.rows@[i])@)
}

/// The `WHERE` clauses of the query and of its subquery can be joined.
pub open spec fn query_shape(q: Query) -> bool {
    &&& (q.filter is Some ==> where_shape(q.filter->0))
    &&& (q.from.class_pattern matches ClassPattern::Subquery(inner) ==> (inner.filter is Some ==> where_shape(
        inner.filter->0,
    )))
}

/// Neither the query's nor its subquery's conditions read `@gcRootPath`.
pub open spec fn query_path_free(q: Query) -> bool {
    &&& filter_path_free(q.filter)
    &&& (q.from.class_pattern matches ClassPattern::Subquery(inner) ==> filter_path_free(inner.filter))
}

/// An id list result carries the specified ids or error.
pub open spec fn ids_result_is(r: Result<Vec<u64>, QueryError>, s: Result<Seq<u64>, ErrView>) -> bool {
    match (r, s) {
        (Ok(v), Ok(t)) => v@ == t,
        (Err(e), Err(f)) => e@ == f,
        _ => false,
    }
}

/// A result's column labels.
pub open spec fn column_view(r: QueryResult) -> Seq<Seq<char>> {
    r.columns@.map_values(|c: String| c@)
}

/// The projection of the sorted matched ids `ids` through `select`, cut to
/// `limit`: `OBJECTS` projects each matched object's referenced object
/// (once each for `DISTINCT`), any error of that stops the query.
pub open spec fn finalize_ok(
    r: Result<QueryResult, QueryError>,
    select: SelectClause,
    limit: Option<usize>,
    graph: ObjectGraph,
    dom: Option<&DominatorTree>,
    ids: Seq<u64>,
) -> bool {
    match select {
        SelectClause::Objects(f) => match objects_targets(f, graph, ids) {
            Err(e) => r is Err && r->Err_0@ == e,
            Ok(ts) => r is Ok && column_view(r->Ok_0) == columns_spec(select) && table_of(
                r->Ok_0,
                row_fields(SelectClause::All),
                graph,
                None,
                ts,
                limit,
            ),
        },
        SelectClause::DistinctObjects(f) => match objects_targets(f, graph, ids) {
            Err(e) => r is Err && r->Err_0@ == e,
            Ok(ts) => r is Ok && column_view(r->Ok_0) == columns_spec(select) && table_of(
                r->Ok_0,
                row_fields(SelectClause::All),
                graph,
                None,
                dedup_first(ts),
                limit,
            ),
        },
        _ => r is Ok && column_view(r->Ok_0) == columns_spec(select) && table_of(
            r->Ok_0,
            row_fields(select),
            graph,
            dom,
            ids,
            limit,
        ),
    }
}

/// What evaluating a query gives: the first overview-mode or `=~` fault,
/// else the error of resolving its candidates, else the projection of the
/// matched ids in ascending order.
pub open spec fn query_outcome(r: Result<QueryResult, QueryError>, q: Query, graph: ObjectGraph, dom: Option<&DominatorTree>) -> bool {
    match overview_fault(q, dom) {
        Some(e) => r is Err && r->Err_0@ == e,
        None => match regex_fault(q.filter) {
            Some(m) => r is Err && r->Err_0@ == ErrView::Unsupported(m),
            None => match resolve_spec(q, graph, dom, 0) {
                Err(e) => r is Err && r->Err_0@ == e,
                Ok(ids) => finalize_ok(r, q.select, q.limit, graph, dom, sorted_ids(ids)),
            },
        },
    }
}

/// What evaluating `left UNION right` gives: each side's own ids (each cut
/// to its own `LIMIT`), merged without repeats, ascending, projected
/// through the left side's `SELECT` with no further limit.
pub open spec fn union_outcome(
    r: Result<QueryResult, QueryError>,
    left: Query,
    right: Query,
    graph: ObjectGraph,
    dom: Option<&DominatorTree>,
) -> bool {
    match bounded_spec(left, graph, dom, 0) {
        Err(e) => r is Err && r->Err_0@ == e,
        Ok(l) => match bounded_spec(right, graph, dom, 0) {
            Err(e) => r is Err && r->Err_0@ == e,
            Ok(rr) => finalize_ok(r, left.select, None, graph, dom, sorted_ids(dedup_first(l + rr))),
        },
    }
}

} // verus!
