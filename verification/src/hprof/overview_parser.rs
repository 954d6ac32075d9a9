//! The single pass over an HPROF image that builds an [`OverviewSummary`]
//! without materialising the object graph.

use vstd::prelude::*;
use std::collections::HashMap;
use crate::errors::CoreError;
use crate::heap::{first_zero, header_error_is, header_ok, parse_hprof_header};
use crate::util::be_value;
use crate::hprof::binary_parser::{
    be_at, root_record, class_dump_end, decode_utf8_lossy, dump_pool, dump_statics, dump_unreadable, entries_end,
    lemma_after_pool, lemma_after_statics, lemma_entries_grow, lemma_entries_start, lemma_short_head, record_next,
    trace_frame_ids,
    utf8_lossy,
};
use crate::hprof::object_graph::{field_value_size, value_width};
use crate::hprof::overview::{
    kind_of, is_listing, key_below, listed_before, renamed_listing, top_class_stats, ClassTally, Ranked, GcRootKind, OverviewAccumulators, OverviewInstanceStat, OverviewOptions, OverviewSummary,
    OverviewThreadFrame, unresolved_class_name, unresolved_name,
};
use crate::hprof::reader::ByteReader;
use crate::text::{hex_chars, push_chars, push_decimal, push_hex, push_str, string_from_chars, zero_padded};

verus! {

broadcast use vstd::std_specs::hash::group_hash_axioms;

/// Class ids given to primitive arrays: this base with the element type in
/// the low byte.
pub const PRIMITIVE_ARRAY_CLASS_ID_BASE: u64 = 0xffff_ffff_ffff_ff00;

/// An offered instance as the bytes give it: object id, class id and
/// approximate size.
pub open spec fn offer_of(h: (u64, OverviewInstanceStat)) -> (u64, u64, u64) {
    (h.1.object_id, h.1.class_id, h.1.approx_retained_bytes)
}

/// The offers of an instance history.
pub open spec fn offers_of(h: Seq<(u64, OverviewInstanceStat)>) -> Seq<(u64, u64, u64)> {
    h.map_values(|x: (u64, OverviewInstanceStat)| offer_of(x))
}

/// The class table after the offers `offers`, for a table of at most
/// `limit` classes: the tallies and whether a class was turned away.
pub open spec fn table_of(offers: Seq<(u64, u64, u64)>, limit: nat) -> (Map<u64, ClassTally>, bool)
    decreases offers.len(),
{
    if offers.len() == 0 {
        (Map::empty(), false)
    } else {
        let prev = table_of(offers.drop_last(), limit);
        let o = offers.last();
        (
            tallies_after(prev.0, limit, o.1, o.2),
            prev.1 || (!prev.0.contains_key(o.1) && prev.0.len() >= limit),
        )
    }
}

/// Names as texts.
pub open spec fn names_view(m: Map<u64, String>) -> Map<u64, Seq<char>> {
    m.map_values(|s: String| s@)
}

proof fn lemma_names_view_insert(old_m: Map<u64, String>, new_m: Map<u64, String>, k: u64, v: Seq<char>)
    requires
        new_m.contains_key(k),
        new_m[k]@ == v,
        new_m.remove(k) == old_m.remove(k),
    ensures
        names_view(new_m) == names_view(old_m).insert(k, v),
{
    assert(new_m =~= old_m.insert(k, new_m[k])) by {
        assert forall|c: u64| c != k implies (new_m.contains_key(c) <==> old_m.contains_key(c)) by {
            assert(new_m.remove(k).contains_key(c) == new_m.contains_key(c));
            assert(old_m.remove(k).contains_key(c) == old_m.contains_key(c));
        }
        assert forall|c: u64| c != k && new_m.contains_key(c) implies new_m[c] == old_m[c] by {
            assert(new_m.remove(k)[c] == new_m[c]);
            assert(old_m.remove(k)[c] == old_m[c]);
        }
    }
    assert(names_view(old_m.insert(k, new_m[k])) =~= names_view(old_m).insert(k, v));
}

/// The accumulators' class table and offered instances agree: the table is
/// what the offers build, each offer is ranked by its size, and an offer of
/// a class without a name carries the placeholder name.
pub open spec fn offers_tracked(a: OverviewAccumulators) -> bool {
    let h = a.instances().history();
    &&& (a.class_table().tallies(), a.class_table().is_truncated()) == table_of(offers_of(h), a.class_table().limit())
    &&& forall|k: int| 0 <= k < h.len() ==> (#[trigger] h[k]).0 == h[k].1.approx_retained_bytes
    &&& forall|k: int| 0 <= k < h.len() && !a.names().contains_key((#[trigger] h[k]).1.class_id)
        ==> h[k].1.class_name@ == unresolved_name(h[k].1.class_id)
}

/// The counters of the accumulators stay within `budget`, the number of
/// input bytes consumed so far: each counted item took at least one byte
/// and each size counted took at least as many bytes.
pub open spec fn acc_bounded(a: OverviewAccumulators, budget: int) -> bool {
    &&& a.instance_total() <= budget
    &&& a.instances().history().len() <= budget
    &&& forall|k: GcRootKind| #[trigger] a.roots().counts().contains_key(k) ==> a.roots().counts()[k] <= budget
    &&& forall|c: u64| #[trigger] a.class_table().tallies().contains_key(c) ==> {
        &&& a.class_table().tallies()[c].instance_count <= budget
        &&& a.class_table().tallies()[c].approx_shallow_bytes <= budget
    }
}

/// What the parse keeps across steps.
pub open spec fn acc_ok(a: OverviewAccumulators, options: OverviewOptions, budget: int) -> bool {
    &&& a.wf()
    &&& offers_tracked(a)
    &&& a.options_of() == options
    &&& acc_bounded(a, budget)
    &&& budget <= usize::MAX
}

/// The class id of a primitive array.
pub open spec fn primitive_array_class(element_type: u8) -> u64 {
    (PRIMITIVE_ARRAY_CLASS_ID_BASE + element_type) as u64
}

/// The name of a primitive array type.
pub open spec fn primitive_array_label(element_type: u8) -> Seq<char> {
    let t = if element_type == 4 {
        "boolean"@
    } else if element_type == 5 {
        "char"@
    } else if element_type == 6 {
        "float"@
    } else if element_type == 7 {
        "double"@
    } else if element_type == 8 {
        "byte"@
    } else if element_type == 9 {
        "short"@
    } else if element_type == 10 {
        "int"@
    } else if element_type == 11 {
        "long"@
    } else {
        "unknown"@
    };
    "<"@ + t + "[]>"@
}

fn primitive_array_class_name(element_type: u8) -> (s: String)
    ensures
        s@ == primitive_array_label(element_type),
{
    let t = if element_type == 4 {
        "boolean"
    } else if element_type == 5 {
        "char"
    } else if element_type == 6 {
        "float"
    } else if element_type == 7 {
        "double"
    } else if element_type == 8 {
        "byte"
    } else if element_type == 9 {
        "short"
    } else if element_type == 10 {
        "int"
    } else if element_type == 11 {
        "long"
    } else {
        "unknown"
    };
    let mut m: Vec<char> = Vec::new();
    push_str(&mut m, "<");
    push_str(&mut m, t);
    push_str(&mut m, "[]>");
    proof {
        assert(m@ =~= primitive_array_label(element_type));
    }
    string_from_chars(&m)
}

/// `prefix`, then two uppercase hexadecimal digits of `value`.
pub(crate) fn message_with_hex_byte(prefix: &str, value: u8) -> (m: String)
    ensures
        m@ == prefix@ + zero_padded(hex_chars(value as nat, true), 2),
{
    let mut digits: Vec<char> = Vec::new();
    push_hex(&mut digits, value as u64, true);
    let mut m: Vec<char> = Vec::new();
    push_str(&mut m, prefix);
    crate::text::push_zero_padded(&mut m, &digits, 2);
    string_from_chars(&m)
}

/// The recorded name of a class, or the placeholder naming its id.
fn class_name_or_placeholder(acc: &OverviewAccumulators, class_id: u64) -> (s: String)
    ensures
        s@ == (if acc.names().contains_key(class_id) { acc.names()[class_id]@ } else { unresolved_name(class_id) }),
{
    match acc.class_name_of(class_id) {
        Some(n) => n,
        None => unresolved_class_name(class_id),
    }
}

/// The class tallies after one more instance of `class_id` of `bytes`
/// bytes: a known class grows; a new class joins while the table is below
/// its limit, and is otherwise left out.
pub open spec fn tallies_after(t: Map<u64, ClassTally>, limit: nat, class_id: u64, bytes: u64) -> Map<u64, ClassTally> {
    if t.contains_key(class_id) {
        t.insert(class_id, ClassTally {
            instance_count: (t[class_id].instance_count + 1) as u64,
            approx_shallow_bytes: (t[class_id].approx_shallow_bytes + bytes) as u64,
        })
    } else if t.len() < limit {
        t.insert(class_id, ClassTally { instance_count: 1, approx_shallow_bytes: bytes })
    } else {
        t
    }
}

/// Counts one object of `class_id` of `approx` bytes, and offers it to the
/// largest-instances list.
fn count_object(
    acc: &mut OverviewAccumulators,
    object_id: u64,
    class_id: u64,
    approx: u64,
    class_name: String,
    Ghost(options): Ghost<OverviewOptions>,
    Ghost(before): Ghost<int>,
    Ghost(after): Ghost<int>,
)
    requires
        acc_ok(*old(acc), options, before),
        !old(acc).names().contains_key(class_id) ==> class_name@ == unresolved_name(class_id),
        before + approx <= after,
        before < after <= usize::MAX,
    ensures
        acc_ok(*final(acc), options, after),
        final(acc).instance_total() == old(acc).instance_total() + 1,
        final(acc).instances().history() == old(acc).instances().history().push(
            (approx, OverviewInstanceStat { object_id, class_id, class_name, approx_retained_bytes: approx }),
        ),
        final(acc).class_table().tallies() == tallies_after(old(acc).class_table().tallies(), old(acc).class_table().limit(), class_id, approx),
        final(acc).names() == old(acc).names(),
        final(acc).roots() == old(acc).roots(),
        final(acc).frames() == old(acc).frames(),
{
    proof {
        assert(usize::MAX <= u64::MAX);
    }
    let ghost h0 = acc.instances().history();
    acc.add_class_instance(class_id, approx);
    let stat = OverviewInstanceStat { object_id, class_id, class_name, approx_retained_bytes: approx };
    acc.add_top_instance(stat);
    proof {
        let h1 = acc.instances().history();
        assert(h1 == h0.push((approx, stat)));
        assert(offers_of(h1).drop_last() =~= offers_of(h0));
        assert(offers_of(h1).last() == (object_id, class_id, approx));
    }
}

/// Counts one GC root.
fn count_root(
    acc: &mut OverviewAccumulators,
    kind: GcRootKind,
    Ghost(options): Ghost<OverviewOptions>,
    Ghost(before): Ghost<int>,
    Ghost(after): Ghost<int>,
)
    requires
        acc_ok(*old(acc), options, before),
        before < after <= usize::MAX,
    ensures
        acc_ok(*final(acc), options, after),
        final(acc).roots().counts() == old(acc).roots().counts().insert(
            kind,
            if old(acc).roots().counts().contains_key(kind) { (old(acc).roots().counts()[kind] + 1) as u64 } else { 1u64 },
        ),
        final(acc).names() == old(acc).names(),
        final(acc).instance_total() == old(acc).instance_total(),
        final(acc).class_table() == old(acc).class_table(),
        final(acc).instances() == old(acc).instances(),
        final(acc).frames() == old(acc).frames(),
{
    proof {
        assert(usize::MAX <= u64::MAX);
    }
    acc.increment_gc_root(kind);
}

/// The GC-root kind a sub-record tag counts, if it is a root record.
pub open spec fn overview_root_kind(tag: u8) -> Option<GcRootKind> {
    if tag == 0x01 { Some(GcRootKind::JniGlobal) }
    else if tag == 0x02 { Some(GcRootKind::JniLocal) }
    else if tag == 0x03 { Some(GcRootKind::JavaFrame) }
    else if tag == 0x08 { Some(GcRootKind::ThreadObject) }
    else if tag == 0x04 { Some(GcRootKind::NativeStack) }
    else if tag == 0x06 { Some(GcRootKind::ThreadBlock) }
    else if tag == 0x05 { Some(GcRootKind::StickyClass) }
    else if tag == 0x07 { Some(GcRootKind::MonitorUsed) }
    else if 0x09 <= tag <= 0x10 { Some(GcRootKind::Unknown) }
    else { None }
}

/// The length of a sub-record body at `q` with tag `tag`, where it is
/// known from its head (class dumps and primitive arrays of an unknown
/// element type have none here).
pub open spec fn overview_sub_len(d: Seq<u8>, q: int, n: int, tag: u8) -> Option<int> {
    if tag == 0x01 { Some(2 * n) }
    else if tag == 0x02 || tag == 0x03 || tag == 0x08 || tag == 0x0F { Some(n + 8) }
    else if tag == 0x04 || tag == 0x06 || tag == 0xFE { Some(n + 4) }
    else if tag == 0x05 || tag == 0x07 || (0x09 <= tag <= 0x10) { Some(n) }
    else if tag == 0xFF { Some(n + 9) }
    else if tag == 0x21 { Some(2 * n + 8 + be_at(d, q + 2 * n + 4, 4)) }
    else if tag == 0x22 { Some(2 * n + 8 + be_at(d, q + n + 4, 4) * n) }
    else if tag == 0x23 {
        match value_width(d[q + n + 8], n as u8) {
            Some(w) => Some(n + 9 + be_at(d, q + n + 4, 4) * w),
            None => None,
        }
    }
    else { None }
}

/// Where a sub-record whose body starts at `q` ends; none for an unknown
/// tag, a primitive array of an unknown element type, or a class dump that
/// lists a value of an unknown type.
pub open spec fn overview_sub_end(d: Seq<u8>, q: int, n: int, tag: u8) -> Option<int> {
    if tag == 0x20 {
        class_dump_end(d, q, n, false)
    } else {
        match overview_sub_len(d, q, n, tag) {
            Some(len) => Some(q + len),
            None => None,
        }
    }
}

/// The sub-records of a segment `b`, from `pos` on, are all read whole
/// within it.
pub open spec fn overview_segment_ok(b: Seq<u8>, pos: int, n: int) -> bool
    decreases b.len() - pos,
{
    if pos < 0 || pos >= b.len() {
        pos == b.len()
    } else {
        match overview_sub_end(b, pos + 1, n, b[pos]) {
            Some(e) => pos + 1 <= e <= b.len() && overview_segment_ok(b, e, n),
            None => false,
        }
    }
}

/// Root counts with one more root of kind `k`.
pub open spec fn bump_root(c: Map<GcRootKind, u64>, k: GcRootKind) -> Map<GcRootKind, u64> {
    c.insert(k, if c.contains_key(k) { (c[k] + 1) as u64 } else { 1u64 })
}

/// The GC-root counts after the root sub-records of segment `b` from `p`
/// on are counted into `c`.
pub open spec fn segment_roots(b: Seq<u8>, p: int, n: int, c: Map<GcRootKind, u64>) -> Map<GcRootKind, u64>
    decreases b.len() - p,
{
    if p < 0 || p >= b.len() {
        c
    } else {
        match overview_sub_end(b, p + 1, n, b[p]) {
            Some(e) => if p < e <= b.len() {
                segment_roots(b, e, n, match overview_root_kind(b[p]) {
                    Some(k) => bump_root(c, k),
                    None => c,
                })
            } else {
                c
            },
            None => c,
        }
    }
}

/// How many of something a root-count map holds for kind `k`.
pub open spec fn root_count(c: Map<GcRootKind, u64>, k: GcRootKind) -> int {
    if c.contains_key(k) { c[k] as int } else { 0 }
}

/// How many sub-records of segment `b`, from `p` on, the full heap parse
/// decodes as GC roots of kind `k`.
pub open spec fn segment_kind_count(b: Seq<u8>, p: int, n: int, k: GcRootKind) -> nat
    decreases b.len() - p,
{
    if p < 0 || p >= b.len() {
        0
    } else {
        match overview_sub_end(b, p + 1, n, b[p]) {
            Some(e) => if p < e <= b.len() {
                (if root_record(b, p + 1, n, b[p]) matches Some(r) && kind_of(r.root_type) == k { 1nat } else { 0nat })
                    + segment_kind_count(b, e, n, k)
            } else {
                0
            },
            None => 0,
        }
    }
}

/// The overview counts a sub-record under the kind that the full heap parse
/// gives the root it decodes, and counts nothing for other sub-records.
pub proof fn lemma_overview_root_kind_agrees(d: Seq<u8>, q: int, n: int, tag: u8)
    ensures
        overview_root_kind(tag) == match root_record(d, q, n, tag) {
            Some(r) => Some(kind_of(r.root_type)),
            None => None::<GcRootKind>,
        },
{
}

/// Reading a segment adds to each kind's root count exactly the number of
/// its sub-records that the full heap parse decodes as roots of that kind
/// (so each ROOT JNI LOCAL sub-record adds one to the JNI-local count and
/// to no other).
pub proof fn lemma_segment_root_counts(b: Seq<u8>, p: int, n: int, c: Map<GcRootKind, u64>, k: GcRootKind)
    requires
        root_count(c, k) + segment_kind_count(b, p, n, k) <= u64::MAX,
    ensures
        root_count(segment_roots(b, p, n, c), k) == root_count(c, k) + segment_kind_count(b, p, n, k),
    decreases b.len() - p,
{
    if 0 <= p < b.len() {
        match overview_sub_end(b, p + 1, n, b[p]) {
            Some(e) => if p < e <= b.len() {
                lemma_overview_root_kind_agrees(b, p + 1, n, b[p]);
                let c1 = match overview_root_kind(b[p]) {
                    Some(k2) => bump_root(c, k2),
                    None => c,
                };
                assert(root_count(c1, k) == root_count(c, k) + (if root_record(b, p + 1, n, b[p]) matches Some(r)
                    && kind_of(r.root_type) == k { 1int } else { 0int }));
                lemma_segment_root_counts(b, e, n, c1, k);
            },
            None => {},
        }
    }
}

/// How many object sub-records (instances and arrays) segment `b` holds
/// from `p` on.
pub open spec fn segment_objects(b: Seq<u8>, p: int, n: int) -> nat
    decreases b.len() - p,
{
    if p < 0 || p >= b.len() {
        0
    } else {
        match overview_sub_end(b, p + 1, n, b[p]) {
            Some(e) => if p < e <= b.len() {
                (if b[p] == 0x21 || b[p] == 0x22 || b[p] == 0x23 { 1nat } else { 0nat }) + segment_objects(b, e, n)
            } else {
                0
            },
            None => 0,
        }
    }
}

/// The instance a sub-record whose body starts at `q` offers, if it is an
/// instance, an object array or a primitive array of a known element type.
pub open spec fn sub_offers(d: Seq<u8>, q: int, n: int, tag: u8) -> Seq<(u64, u64, u64)> {
    if tag == 0x21 {
        seq![(be_at(d, q, n as nat) as u64, be_at(d, q + n + 4, n as nat) as u64, (2 * n + 8 + be_at(d, q + 2 * n + 4, 4)) as u64)]
    } else if tag == 0x22 {
        seq![(be_at(d, q, n as nat) as u64, be_at(d, q + n + 8, n as nat) as u64, (2 * n + 8 + be_at(d, q + n + 4, 4) * n) as u64)]
    } else if tag == 0x23 {
        match value_width(d[q + n + 8], n as u8) {
            Some(w) => seq![(be_at(d, q, n as nat) as u64, primitive_array_class(d[q + n + 8]), (n + 9 + be_at(d, q + n + 4, 4) * w) as u64)],
            None => Seq::empty(),
        }
    } else {
        Seq::empty()
    }
}

/// The class names after a sub-record whose body starts at `q`: a
/// primitive array names its array class.
pub open spec fn sub_names(d: Seq<u8>, q: int, n: int, tag: u8, names: Map<u64, Seq<char>>) -> Map<u64, Seq<char>> {
    if tag == 0x23 && value_width(d[q + n + 8], n as u8) is Some {
        names.insert(primitive_array_class(d[q + n + 8]), primitive_array_label(d[q + n + 8]))
    } else {
        names
    }
}

/// The instances offered by the sub-records of segment `b` from `p` on.
pub open spec fn segment_offers(b: Seq<u8>, p: int, n: int) -> Seq<(u64, u64, u64)>
    decreases b.len() - p,
{
    if p < 0 || p >= b.len() {
        Seq::empty()
    } else {
        match overview_sub_end(b, p + 1, n, b[p]) {
            Some(e) => if p < e <= b.len() {
                sub_offers(b, p + 1, n, b[p]) + segment_offers(b, e, n)
            } else {
                Seq::empty()
            },
            None => Seq::empty(),
        }
    }
}

/// The class names after the sub-records of segment `b` from `p` on.
pub open spec fn segment_names(b: Seq<u8>, p: int, n: int, names: Map<u64, Seq<char>>) -> Map<u64, Seq<char>>
    decreases b.len() - p,
{
    if p < 0 || p >= b.len() {
        names
    } else {
        match overview_sub_end(b, p + 1, n, b[p]) {
            Some(e) => if p < e <= b.len() {
                segment_names(b, e, n, sub_names(b, p + 1, n, b[p], names))
            } else {
                names
            },
            None => names,
        }
    }
}

/// Reads one heap-dump sub-record after its tag, counting roots and
/// objects; `base` is the offset of the cursor's bytes in the image.
#[verifier::rlimit(80)]
#[verifier::spinoff_prover]
fn parse_heap_subrecord(
    cursor: &mut ByteReader,
    id_size: u8,
    sub_tag: u8,
    acc: &mut OverviewAccumulators,
    Ghost(options): Ghost<OverviewOptions>,
    Ghost(base): Ghost<int>,
) -> (res: Result<(), CoreError>)
    requires
        old(cursor).wf(),
        id_size == 4 || id_size == 8,
        base >= 0,
        base + old(cursor).data@.len() <= usize::MAX,
        acc_ok(*old(acc), options, base + old(cursor).pos),
    ensures
        final(cursor).wf(),
        final(cursor).data == old(cursor).data,
        res is Ok ==> final(cursor).pos > old(cursor).pos,
        final(cursor).pos >= old(cursor).pos,
        acc_ok(*final(acc), options, base + final(cursor).pos),
        final(acc).frames() == old(acc).frames(),
        ({
            let d = old(cursor).data@;
            let q = old(cursor).pos as int;
            let n = id_size as int;
            &&& overview_sub_len(d, q, n, sub_tag) matches Some(len) ==> {
                &&& res is Ok <==> q + len <= d.len()
                &&& res is Ok ==> final(cursor).pos == q + len
            }
            &&& res is Ok <==> (overview_sub_end(d, q, n, sub_tag) is Some && overview_sub_end(d, q, n, sub_tag)->0 <= d.len())
            &&& res is Ok ==> final(cursor).pos == overview_sub_end(d, q, n, sub_tag)->0
            &&& res is Ok ==> offers_of(final(acc).instances().history()) == offers_of(old(acc).instances().history())
                + sub_offers(d, q, n, sub_tag)
            &&& res is Ok ==> names_view(final(acc).names()) == sub_names(d, q, n, sub_tag, names_view(old(acc).names()))
            &&& res is Ok ==> match overview_root_kind(sub_tag) {
                Some(k) => final(acc).roots().counts() == old(acc).roots().counts().insert(
                    k,
                    if old(acc).roots().counts().contains_key(k) { (old(acc).roots().counts()[k] + 1) as u64 } else { 1u64 },
                ) && final(acc).instance_total() == old(acc).instance_total(),
                None => final(acc).roots() == old(acc).roots() && final(acc).instance_total() == old(acc).instance_total()
                    + if sub_tag == 0x21 || sub_tag == 0x22 || sub_tag == 0x23 { 1int } else { 0int },
            }
            &&& (sub_tag == 0x23 && q + n + 9 <= d.len() && value_width(d[q + n + 8], id_size) is None) ==> (res matches Err(
                CoreError::HprofParseError { phase, detail },
            ) && phase@ == "primitive_array"@)
            &&& !(0x01 <= sub_tag <= 0x10 || sub_tag == 0xFE || sub_tag == 0xFF || 0x20 <= sub_tag <= 0x23) ==> (res matches Err(
                CoreError::Unsupported(m),
            ) && m@ == "unsupported HEAP_DUMP sub-tag 0x"@ + zero_padded(hex_chars(sub_tag as nat, true), 2))
        }),
{
    let ghost start = base + cursor.pos;
    let ghost d = cursor.data@;
    let ghost q = cursor.pos as int;
    let ghost h_start = acc.instances().history();
    let ghost names_start = acc.names();
    match sub_tag {
        0x09 | 0x0A | 0x0B | 0x0C | 0x0D | 0x0E | 0x10 => {
            let _id = cursor.read_id(id_size)?;
            count_root(acc, GcRootKind::Unknown, Ghost(options), Ghost(start), Ghost(base + cursor.pos));
        },
        0x01 => {
            let _id = cursor.read_id(id_size)?;
            let _referrer = cursor.read_id(id_size)?;
            count_root(acc, GcRootKind::JniGlobal, Ghost(options), Ghost(start), Ghost(base + cursor.pos));
        },
        0x02 | 0x03 | 0x08 | 0x0F => {
            let _id = cursor.read_id(id_size)?;
            let _thread = cursor.read_u32()?;
            let _frame = cursor.read_u32()?;
            let kind = if sub_tag == 0x02 {
                GcRootKind::JniLocal
            } else if sub_tag == 0x03 {
                GcRootKind::JavaFrame
            } else if sub_tag == 0x08 {
                GcRootKind::ThreadObject
            } else {
                GcRootKind::Unknown
            };
            count_root(acc, kind, Ghost(options), Ghost(start), Ghost(base + cursor.pos));
        },
        0x04 | 0x06 => {
            let _id = cursor.read_id(id_size)?;
            let _thread = cursor.read_u32()?;
            let kind = if sub_tag == 0x04 { GcRootKind::NativeStack } else { GcRootKind::ThreadBlock };
            count_root(acc, kind, Ghost(options), Ghost(start), Ghost(base + cursor.pos));
        },
        0x05 | 0x07 => {
            let _id = cursor.read_id(id_size)?;
            let kind = if sub_tag == 0x05 { GcRootKind::StickyClass } else { GcRootKind::MonitorUsed };
            count_root(acc, kind, Ghost(options), Ghost(start), Ghost(base + cursor.pos));
        },
        0xFE => {
            let _heap = cursor.read_u32()?;
            let _name = cursor.read_id(id_size)?;
        },
        0xFF => {
            let _id = cursor.read_id(id_size)?;
            let _stack = cursor.read_u32()?;
            let _count = cursor.read_u32()?;
            let _type = cursor.read_u8()?;
        },
        0x20 => skip_class_dump(cursor, id_size)?,
        0x21 => {
            let object_id = cursor.read_id(id_size)?;
            let _stack = cursor.read_u32()?;
            let class_id = cursor.read_id(id_size)?;
            let data_len = cursor.read_u32()?;
            cursor.skip(data_len as u64)?;
            let approx = id_size as u64 + 4 + id_size as u64 + 4 + data_len as u64;
            let name = class_name_or_placeholder(acc, class_id);
            count_object(acc, object_id, class_id, approx, name, Ghost(options), Ghost(start), Ghost(base + cursor.pos));
        },
        0x22 => {
            let object_id = cursor.read_id(id_size)?;
            let _stack = cursor.read_u32()?;
            let num_elements = cursor.read_u32()?;
            let class_id = cursor.read_id(id_size)?;
            let element_bytes = num_elements as u64 * id_size as u64;
            cursor.skip(element_bytes)?;
            let approx = id_size as u64 + 4 + 4 + id_size as u64 + element_bytes;
            let name = class_name_or_placeholder(acc, class_id);
            count_object(acc, object_id, class_id, approx, name, Ghost(options), Ghost(start), Ghost(base + cursor.pos));
        },
        0x23 => {
            let object_id = cursor.read_id(id_size)?;
            let _stack = cursor.read_u32()?;
            let num_elements = cursor.read_u32()?;
            let element_type = cursor.read_u8()?;
            let width = match field_value_size(element_type, id_size) {
                Some(w) => w,
                None => {
                    return Err(CoreError::HprofParseError {
                        phase: "primitive_array".to_owned(),
                        detail: message_with_hex_byte("unsupported primitive array type 0x", element_type),
                    });
                },
            };
            proof {
                assert(width <= 8);
                assert(num_elements as u64 * width as u64 <= 0xffff_ffffu64 * 8) by (nonlinear_arith)
                    requires
                        width <= 8,
                        num_elements <= 0xffff_ffffu32,
                ;
            }
            let data_bytes = num_elements as u64 * width as u64;
            cursor.skip(data_bytes)?;
            let class_id = PRIMITIVE_ARRAY_CLASS_ID_BASE + element_type as u64;
            let class_name = primitive_array_class_name(element_type);
            let approx = id_size as u64 + 4 + 4 + 1 + data_bytes;
            acc.record_class_name(class_id, class_name.as_str());
            count_object(acc, object_id, class_id, approx, class_name, Ghost(options), Ghost(start), Ghost(base + cursor.pos));
            proof {
                assert(element_type == d[q + id_size + 8]);
                assert(class_id == primitive_array_class(element_type));
                lemma_names_view_insert(names_start, acc.names(), class_id, primitive_array_label(element_type));
            }
        },
        _ => {
            return Err(CoreError::Unsupported(message_with_hex_byte("unsupported HEAP_DUMP sub-tag 0x", sub_tag)));
        },
    }
    proof {
        assert(offers_of(acc.instances().history()) =~= offers_of(h_start) + sub_offers(d, q, id_size as int, sub_tag));
        assert(names_view(acc.names()) =~= sub_names(d, q, id_size as int, sub_tag, names_view(names_start)));
    }
    Ok(())
}

/// Skips a value of an HPROF basic type.
fn skip_value(cursor: &mut ByteReader, value_type: u8, id_size: u8) -> (res: Result<(), CoreError>)
    requires
        old(cursor).wf(),
        id_size == 4 || id_size == 8,
    ensures
        final(cursor).wf(),
        final(cursor).data == old(cursor).data,
        final(cursor).pos >= old(cursor).pos,
        match value_width(value_type, id_size) {
            Some(w) => match res {
                Ok(_) => final(cursor).pos == old(cursor).pos + w,
                Err(e) => e == CoreError::UnexpectedEof && old(cursor).pos + w > old(cursor).data@.len(),
            },
            None => res matches Err(CoreError::HprofParseError { phase, detail }) && phase@ == "class_dump"@
                && detail@ == "unsupported field type 0x"@ + zero_padded(hex_chars(value_type as nat, true), 2),
        },
{
    match field_value_size(value_type, id_size) {
        Some(w) => cursor.skip(w as u64),
        None => {
            let mut d: Vec<char> = Vec::new();
            push_str(&mut d, "unsupported field type 0x");
            let mut digits: Vec<char> = Vec::new();
            push_hex(&mut digits, value_type as u64, true);
            crate::text::push_zero_padded(&mut d, &digits, 2);
            Err(CoreError::HprofParseError { phase: "class_dump".to_owned(), detail: string_from_chars(&d) })
        },
    }
}

/// Skips a CLASS_DUMP sub-record after its tag.
#[verifier::spinoff_prover]
fn skip_class_dump(cursor: &mut ByteReader, id_size: u8) -> (res: Result<(), CoreError>)
    requires
        old(cursor).wf(),
        id_size == 4 || id_size == 8,
    ensures
        final(cursor).wf(),
        final(cursor).data == old(cursor).data,
        final(cursor).pos >= old(cursor).pos,
        res is Ok ==> final(cursor).pos > old(cursor).pos,
        res is Ok <==> !dump_unreadable(old(cursor).data@, old(cursor).pos as int, id_size as int, false),
        res is Ok ==> final(cursor).pos == class_dump_end(old(cursor).data@, old(cursor).pos as int, id_size as int, false)->0,
{
    let ghost d = old(cursor).data@;
    let ghost q = old(cursor).pos as int;
    let ghost n = id_size as int;
    proof {
        if q + 7 * n + 10 > d.len() {
            lemma_short_head(d, q, n, false);
        }
    }
    let _class = cursor.read_id(id_size)?;
    let _stack = cursor.read_u32()?;
    let _super = cursor.read_id(id_size)?;
    let mut k: usize = 0;
    while k < 5
        invariant
            cursor.wf(),
            cursor.data == old(cursor).data,
            cursor.pos > old(cursor).pos,
            id_size == 4 || id_size == 8,
            d == old(cursor).data@,
            q == old(cursor).pos as int,
            n == id_size as int,
            k <= 5,
            cursor.pos == q + 2 * n + 4 + k * n,
            q + 7 * n + 10 > d.len() ==> dump_unreadable(d, q, n, false),
        decreases 5 - k,
    {
        let _id = cursor.read_id(id_size)?;
        k = k + 1;
    }
    let _instance_size = cursor.read_u32()?;
    let pool = cursor.read_u16()?;
    let ghost pool_start = cursor.pos as int;
    proof {
        lemma_entries_start(d, pool_start, n, pool as nat, 0, false);
    }
    let mut i: u16 = 0;
    while i < pool
        invariant
            cursor.wf(),
            cursor.data == old(cursor).data,
            cursor.pos > old(cursor).pos,
            id_size == 4 || id_size == 8,
            d == old(cursor).data@,
            q == old(cursor).pos as int,
            n == id_size as int,
            pool_start == q + 7 * n + 10,
            pool as nat == be_at(d, q + 7 * n + 8, 2),
            i <= pool,
            entries_end(d, pool_start, n, i as nat, 0, false) == Some(cursor.pos as int),
        decreases pool - i,
    {
        proof {
            lemma_entries_grow(d, pool_start, n, (i + 1) as nat, pool as nat, 0, false);
            if entries_end(d, pool_start, n, (i + 1) as nat, 0, false) is None
                || entries_end(d, pool_start, n, (i + 1) as nat, 0, false)->0 > d.len() {
                lemma_after_pool(d, q, n, false);
            }
        }
        let _index = cursor.read_u16()?;
        let value_type = cursor.read_u8()?;
        skip_value(cursor, value_type, id_size)?;
        i = i + 1;
    }
    let ghost e1 = cursor.pos as int;
    proof {
        if e1 + 2 > d.len() {
            lemma_after_pool(d, q, n, false);
        }
    }
    let statics = cursor.read_u16()?;
    proof {
        lemma_entries_start(d, e1 + 2, n, statics as nat, 1, false);
    }
    let mut j: u16 = 0;
    while j < statics
        invariant
            cursor.wf(),
            cursor.data == old(cursor).data,
            cursor.pos > old(cursor).pos,
            id_size == 4 || id_size == 8,
            d == old(cursor).data@,
            q == old(cursor).pos as int,
            n == id_size as int,
            dump_pool(d, q, n, false) == Some(e1),
            statics as nat == be_at(d, e1, 2),
            j <= statics,
            entries_end(d, e1 + 2, n, j as nat, 1, false) == Some(cursor.pos as int),
        decreases statics - j,
    {
        proof {
            lemma_entries_grow(d, e1 + 2, n, (j + 1) as nat, statics as nat, 1, false);
            if entries_end(d, e1 + 2, n, (j + 1) as nat, 1, false) is None
                || entries_end(d, e1 + 2, n, (j + 1) as nat, 1, false)->0 > d.len() {
                lemma_after_statics(d, q, n, false);
            }
        }
        let _name = cursor.read_id(id_size)?;
        let value_type = cursor.read_u8()?;
        skip_value(cursor, value_type, id_size)?;
        j = j + 1;
    }
    let ghost e2 = cursor.pos as int;
    proof {
        if e2 + 2 > d.len() {
            lemma_after_statics(d, q, n, false);
        }
    }
    let fields = cursor.read_u16()?;
    proof {
        lemma_entries_start(d, e2 + 2, n, fields as nat, 2, false);
    }
    let mut f: u16 = 0;
    while f < fields
        invariant
            cursor.wf(),
            cursor.data == old(cursor).data,
            cursor.pos > old(cursor).pos,
            id_size == 4 || id_size == 8,
            d == old(cursor).data@,
            q == old(cursor).pos as int,
            n == id_size as int,
            dump_pool(d, q, n, false) == Some(e1),
            dump_statics(d, e1, n, false) == Some(e2),
            fields as nat == be_at(d, e2, 2),
            f <= fields,
            entries_end(d, e2 + 2, n, f as nat, 2, false) == Some(cursor.pos as int),
        decreases fields - f,
    {
        proof {
            lemma_entries_grow(d, e2 + 2, n, (f + 1) as nat, fields as nat, 2, false);
        }
        let _name = cursor.read_id(id_size)?;
        let _type = cursor.read_u8()?;
        f = f + 1;
    }
    Ok(())
}


proof fn lemma_bounded_mono(a: OverviewAccumulators, b1: int, b2: int)
    requires
        acc_bounded(a, b1),
        b1 <= b2,
    ensures
        acc_bounded(a, b2),
{
}

/// A STACK_FRAME record, kept until the traces that use it.
#[derive(Debug, Clone, Copy)]
struct RawStackFrame {
    method_name_id: u64,
    source_file_id: u64,
    class_serial: u32,
    line_number: i32,
}

/// The state of an overview pass.
struct OverviewState {
    acc: OverviewAccumulators,
    strings: HashMap<u64, String>,
    pending: HashMap<u64, Vec<u64>>,
    class_name_ids: HashMap<u32, u64>,
    frames: HashMap<u64, RawStackFrame>,
}

/// A recorded stack frame's values.
spec fn raw_view(f: RawStackFrame) -> (u64, u64, u32, i32) {
    (f.method_name_id, f.source_file_id, f.class_serial, f.line_number)
}

/// What an overview state knows, as values.
spec fn pass_view(st: OverviewState) -> PassView {
    PassView {
        strings: names_view(st.strings@),
        pending: st.pending@.map_values(|v: Vec<u64>| v@),
        names: names_view(st.acc.names()),
        class_name_ids: st.class_name_ids@,
        frames: st.frames@.map_values(|f: RawStackFrame| raw_view(f)),
        offers: offers_of(st.acc.instances().history()),
        thread_frames: st.acc.frames().history().map_values(|f: OverviewThreadFrame| frame_view(f)),
    }
}

/// Reads a HEAP_DUMP or HEAP_DUMP_SEGMENT body of `length` bytes.
#[verifier::spinoff_prover]
fn parse_segment(
    reader: &mut ByteReader,
    id_size: u8,
    length: u32,
    state: &mut OverviewState,
    Ghost(options): Ghost<OverviewOptions>,
) -> (res: Result<(), CoreError>)
    requires
        old(reader).wf(),
        old(reader).data@.len() <= usize::MAX,
        id_size == 4 || id_size == 8,
        acc_ok(old(state).acc, options, old(reader).pos as int),
    ensures
        final(reader).wf(),
        final(reader).data == old(reader).data,
        final(reader).pos >= old(reader).pos,
        acc_ok(final(state).acc, options, final(reader).pos as int),
        res is Ok ==> old(reader).pos + length <= old(reader).data@.len()
            && final(reader).pos == old(reader).pos + length,
        old(reader).pos + length > old(reader).data@.len() ==> res is Err,
        res is Ok <==> old(reader).pos + length <= old(reader).data@.len() && overview_segment_ok(
            old(reader).data@.subrange(old(reader).pos as int, old(reader).pos + length),
            0,
            id_size as int,
        ),
        final(state).strings@ == old(state).strings@,
        final(state).pending@ == old(state).pending@,
        final(state).class_name_ids@ == old(state).class_name_ids@,
        final(state).frames@ == old(state).frames@,
        res is Ok ==> final(state).acc.roots().counts() == segment_roots(
            old(reader).data@.subrange(old(reader).pos as int, old(reader).pos + length),
            0,
            id_size as int,
            old(state).acc.roots().counts(),
        ),
        res is Ok ==> final(state).acc.instance_total() == old(state).acc.instance_total() + segment_objects(
            old(reader).data@.subrange(old(reader).pos as int, old(reader).pos + length),
            0,
            id_size as int,
        ),
        res is Ok ==> offers_of(final(state).acc.instances().history()) == offers_of(old(state).acc.instances().history())
            + segment_offers(old(reader).data@.subrange(old(reader).pos as int, old(reader).pos + length), 0, id_size as int),
        res is Ok ==> names_view(final(state).acc.names()) == segment_names(
            old(reader).data@.subrange(old(reader).pos as int, old(reader).pos + length),
            0,
            id_size as int,
            names_view(old(state).acc.names()),
        ),
        res is Ok ==> pass_view(*final(state)) == record_step(
            old(reader).data@,
            old(reader).pos as int,
            id_size as int,
            0x0C,
            length as nat,
            pass_view(*old(state)),
        ),
{
    let segment = reader.read_vec(length as usize)?;
    let ghost base = reader.pos - segment@.len();
    let mut cursor = ByteReader::new(segment.as_slice());
    proof {
        lemma_bounded_mono(state.acc, old(reader).pos as int, base);
    }
    while !cursor.is_at_end()
        invariant
            cursor.wf(),
            cursor.data@ == segment@,
            base >= 0,
            base + segment@.len() == reader.pos,
            reader.wf(),
            reader.data == old(reader).data,
            reader.pos >= old(reader).pos,
            reader.pos <= reader.data@.len(),
            reader.data@.len() <= usize::MAX,
            id_size == 4 || id_size == 8,
            acc_ok(state.acc, options, base + cursor.pos),
            reader.pos == old(reader).pos + length,
            state.strings@ == old(state).strings@,
            state.pending@ == old(state).pending@,
            state.class_name_ids@ == old(state).class_name_ids@,
            state.frames@ == old(state).frames@,
            state.acc.frames() == old(state).acc.frames(),
            segment@ == old(reader).data@.subrange(old(reader).pos as int, old(reader).pos + length),
            overview_segment_ok(segment@, 0, id_size as int) == overview_segment_ok(segment@, cursor.pos as int, id_size as int),
            segment_roots(segment@, 0, id_size as int, old(state).acc.roots().counts())
                == segment_roots(segment@, cursor.pos as int, id_size as int, state.acc.roots().counts()),
            old(state).acc.instance_total() + segment_objects(segment@, 0, id_size as int)
                == state.acc.instance_total() + segment_objects(segment@, cursor.pos as int, id_size as int),
            offers_of(old(state).acc.instances().history()) + segment_offers(segment@, 0, id_size as int)
                == offers_of(state.acc.instances().history()) + segment_offers(segment@, cursor.pos as int, id_size as int),
            segment_names(segment@, 0, id_size as int, names_view(old(state).acc.names()))
                == segment_names(segment@, cursor.pos as int, id_size as int, names_view(state.acc.names())),
        decreases segment@.len() - cursor.pos,
    {
        let ghost at = cursor.pos as int;
        let ghost h_before = offers_of(state.acc.instances().history());
        let sub_tag = cursor.read_u8()?;
        proof {
            lemma_bounded_mono(state.acc, base + cursor.pos - 1, base + cursor.pos);
        }
        let r = parse_heap_subrecord(&mut cursor, id_size, sub_tag, &mut state.acc, Ghost(options), Ghost(base));
        proof {
            assert(sub_tag == segment@[at]);
            assert(overview_segment_ok(segment@, at, id_size as int) == (r is Ok && overview_segment_ok(segment@, cursor.pos as int, id_size as int)));
            if r is Ok {
                let sub = sub_offers(segment@, at + 1, id_size as int, sub_tag);
                assert(h_before + (sub + segment_offers(segment@, cursor.pos as int, id_size as int))
                    =~= (h_before + sub) + segment_offers(segment@, cursor.pos as int, id_size as int));
            }
        }
        r?;
    }
    proof {
        let h = offers_of(state.acc.instances().history());
        assert(h + segment_offers(segment@, cursor.pos as int, id_size as int) =~= h);
        let rs = record_step(old(reader).data@, old(reader).pos as int, id_size as int, 0x0C, length as nat, pass_view(*old(state)));
        assert(pass_view(*state) =~= rs);
    }
    Ok(())
}

proof fn lemma_push_contains(s: Seq<u64>, x: u64, c: u64)
    ensures
        s.push(x).contains(c) <==> (s.contains(c) || c == x),
{
    if s.contains(c) {
        let k = choose|k: int| 0 <= k < s.len() && s[k] == c;
        assert(s.push(x)[k] == c);
    }
    if c == x {
        assert(s.push(x)[s.len() as int] == c);
    }
    if s.push(x).contains(c) {
        let k = choose|k: int| 0 <= k < s.len() + 1 && s.push(x)[k] == c;
        if k < s.len() {
            assert(s[k] == c);
        }
    }
}

/// Reads a STRING_IN_UTF8 record and names the classes that waited for it.
#[verifier::spinoff_prover]
fn parse_string_record(
    reader: &mut ByteReader,
    id_size: u8,
    length: u32,
    state: &mut OverviewState,
    Ghost(options): Ghost<OverviewOptions>,
) -> (res: Result<(), CoreError>)
    requires
        old(reader).wf(),
        id_size == 4 || id_size == 8,
        acc_ok(old(state).acc, options, old(reader).pos as int),
    ensures
        final(reader).wf(),
        final(reader).data == old(reader).data,
        final(reader).pos >= old(reader).pos,
        acc_ok(final(state).acc, options, final(reader).pos as int),
        ({
            let d = old(reader).data@;
            let p = old(reader).pos as int;
            let n = id_size as int;
            let id = be_at(d, p, n as nat) as u64;
            let text = utf8_lossy(d.subrange(p + n, p + length));
            let waiting = old(state).pending@;
            &&& res is Ok <==> n <= length && p + length <= d.len()
            &&& res is Ok ==> {
                &&& final(reader).pos == p + length
                &&& final(state).strings@.contains_key(id)
                &&& final(state).strings@[id]@ == text
                &&& final(state).strings@.remove(id) == old(state).strings@.remove(id)
                &&& final(state).pending@ == waiting.remove(id)
                &&& forall|c: u64| #[trigger] final(state).acc.names().contains_key(c) <==>
                    (old(state).acc.names().contains_key(c) || (waiting.contains_key(id) && waiting[id]@.contains(c)))
                &&& forall|c: u64| #[trigger] final(state).acc.names().contains_key(c) ==>
                    final(state).acc.names()[c]@ == if waiting.contains_key(id) && waiting[id]@.contains(c) {
                        text
                    } else {
                        old(state).acc.names()[c]@
                    }
                &&& final(state).class_name_ids@ == old(state).class_name_ids@
                &&& final(state).frames@ == old(state).frames@
                &&& final(state).acc.roots() == old(state).acc.roots()
                &&& final(state).acc.instance_total() == old(state).acc.instance_total()
                &&& pass_view(*final(state)) == record_step(d, p, n, 0x01, length as nat, pass_view(*old(state)))
            }
        }),
{
    if length < id_size as u32 {
        return Err(CoreError::HprofParseError {
            phase: "string".to_owned(),
            detail: "STRING_IN_UTF8 record shorter than identifier".to_owned(),
        });
    }
    let string_id = reader.read_id(id_size)?;
    let ghost p = old(reader).pos as int;
    let bytes = reader.read_vec((length - id_size as u32) as usize)?;
    proof {
        assert(bytes@ == old(reader).data@.subrange(p + id_size, p + length));
    }
    let value = decode_utf8_lossy(bytes.as_slice());
    state.strings.insert(string_id, value.as_str().to_owned());
    proof {
        assert(state.strings@.remove(string_id) =~= old(state).strings@.remove(string_id));
    }
    proof {
        lemma_bounded_mono(state.acc, old(reader).pos as int, reader.pos as int);
    }
    let ghost names0 = state.acc.names();
    let ghost strings1 = state.strings@;
    let ghost pending0 = state.pending@;
    let ghost ids0 = state.class_name_ids@;
    let ghost frames0 = state.frames@;
    match state.pending.remove(&string_id) {
        Some(class_ids) => {
            let mut i: usize = 0;
            while i < class_ids.len()
                invariant
                    i <= class_ids@.len(),
                    acc_ok(state.acc, options, reader.pos as int),
                    state.strings@ == strings1,
                    state.pending@ == pending0.remove(string_id),
                    state.class_name_ids@ == ids0,
                    state.frames@ == frames0,
                    state.acc.roots() == old(state).acc.roots(),
                    state.acc.instance_total() == old(state).acc.instance_total(),
                    state.acc.instances() == old(state).acc.instances(),
                    state.acc.frames() == old(state).acc.frames(),
                    forall|c: u64| #[trigger] state.acc.names().contains_key(c) <==>
                        (names0.contains_key(c) || class_ids@.take(i as int).contains(c)),
                    forall|c: u64| #[trigger] state.acc.names().contains_key(c) ==>
                        state.acc.names()[c]@ == if class_ids@.take(i as int).contains(c) { value@ } else { names0[c]@ },
                decreases class_ids.len() - i,
            {
                let ghost before = state.acc.names();
                state.acc.record_class_name(class_ids[i], value.as_str());
                proof {
                    let c0 = class_ids@[i as int];
                    assert(class_ids@.take(i + 1) =~= class_ids@.take(i as int).push(c0));
                    assert forall|c: u64| #[trigger] state.acc.names().contains_key(c) <==>
                        (names0.contains_key(c) || class_ids@.take(i + 1).contains(c)) by {
                        lemma_push_contains(class_ids@.take(i as int), c0, c);
                        if c != c0 {
                            assert(state.acc.names().remove(c0).contains_key(c) == before.remove(c0).contains_key(c));
                        }
                    }
                    assert forall|c: u64| #[trigger] state.acc.names().contains_key(c) implies
                        state.acc.names()[c]@ == if class_ids@.take(i + 1).contains(c) { value@ } else { names0[c]@ } by {
                        lemma_push_contains(class_ids@.take(i as int), c0, c);
                        if c != c0 {
                            assert(state.acc.names().remove(c0).contains_key(c));
                            assert(before.remove(c0).contains_key(c));
                            assert(state.acc.names().remove(c0)[c] == before.remove(c0)[c]);
                        }
                    }
                }
                i = i + 1;
            }
            proof {
                assert(class_ids@.take(i as int) =~= class_ids@);
            }
        },
        None => {},
    }
    proof {
        let waiting = old(state).pending@;
        assert(state.pending@ == waiting.remove(string_id));
        assert(state.strings@[string_id]@ == value@);
        assert(forall|c: u64| #[trigger] state.acc.names().contains_key(c) <==>
                    (old(state).acc.names().contains_key(c) || (waiting.contains_key(string_id) && waiting[string_id]@.contains(c))));
        let d = old(reader).data@;
        let n = id_size as int;
        let v0 = pass_view(*old(state));
        let v1 = pass_view(*state);
        let rs = record_step(d, p, n, 0x01, length as nat, v0);
        assert(string_id == be_at(d, p, n as nat) as u64);
        lemma_names_view_insert(old(state).strings@, state.strings@, string_id, value@);
        assert(v1.strings == rs.strings);
        assert(v1.pending =~= rs.pending);
        let w = if v0.pending.contains_key(string_id) { v0.pending[string_id] } else { Seq::<u64>::empty() };
        assert forall|c: u64| v1.names.contains_key(c) <==> rs.names.contains_key(c) by {
            assert(v1.names.contains_key(c) == state.acc.names().contains_key(c));
            assert(v0.names.contains_key(c) == old(state).acc.names().contains_key(c));
            if waiting.contains_key(string_id) {
                assert(w == waiting[string_id]@);
            }
        }
        assert forall|c: u64| v1.names.contains_key(c) implies v1.names[c] == rs.names[c] by {
            if waiting.contains_key(string_id) {
                assert(w == waiting[string_id]@);
            }
        }
        assert(v1.names =~= rs.names);
        assert(v1.offers == rs.offers);
        assert(v1 =~= rs);
    }
    Ok(())
}

/// Reads a LOAD_CLASS record: names the class now if its name string is
/// known, else when the string arrives.
fn parse_load_class_record(
    reader: &mut ByteReader,
    id_size: u8,
    state: &mut OverviewState,
    Ghost(options): Ghost<OverviewOptions>,
) -> (res: Result<(), CoreError>)
    requires
        old(reader).wf(),
        id_size == 4 || id_size == 8,
        acc_ok(old(state).acc, options, old(reader).pos as int),
    ensures
        final(reader).wf(),
        final(reader).data == old(reader).data,
        final(reader).pos >= old(reader).pos,
        acc_ok(final(state).acc, options, final(reader).pos as int),
        ({
            let d = old(reader).data@;
            let p = old(reader).pos as int;
            let n = id_size as int;
            let serial = be_at(d, p, 4) as u32;
            let class_id = be_at(d, p + 4, n as nat) as u64;
            let name_id = be_at(d, p + 8 + n, n as nat) as u64;
            let s0 = old(state);
            &&& res is Ok <==> p + 8 + 2 * n <= d.len()
            &&& res is Ok ==> {
                &&& final(reader).pos == p + 8 + 2 * n
                &&& final(state).class_name_ids@ == s0.class_name_ids@.insert(serial, name_id)
                &&& final(state).strings@ == s0.strings@
                &&& final(state).frames@ == s0.frames@
                &&& final(state).acc.roots() == s0.acc.roots()
                &&& final(state).acc.instance_total() == s0.acc.instance_total()
                &&& pass_view(*final(state)) == record_step(d, p, n, 0x02, 0, pass_view(*s0))
                &&& if s0.strings@.contains_key(name_id) {
                    &&& final(state).acc.names().contains_key(class_id)
                    &&& final(state).acc.names()[class_id]@ == s0.strings@[name_id]@
                    &&& final(state).acc.names().remove(class_id) == s0.acc.names().remove(class_id)
                    &&& final(state).pending@ == s0.pending@
                } else {
                    &&& final(state).acc.names() == s0.acc.names()
                    &&& final(state).pending@.remove(name_id) == s0.pending@.remove(name_id)
                    &&& final(state).pending@.contains_key(name_id)
                    &&& final(state).pending@[name_id]@ == (if s0.pending@.contains_key(name_id) {
                        s0.pending@[name_id]@
                    } else {
                        Seq::empty()
                    }).push(class_id)
                }
            }
        }),
{
    let serial = reader.read_u32()?;
    let class_id = reader.read_id(id_size)?;
    let _stack_serial = reader.read_u32()?;
    let name_string_id = reader.read_id(id_size)?;
    proof {
        lemma_bounded_mono(state.acc, old(reader).pos as int, reader.pos as int);
    }
    state.class_name_ids.insert(serial, name_string_id);
    match state.strings.get(&name_string_id) {
        Some(name) => {
            state.acc.record_class_name(class_id, name.as_str());
        },
        None => {
            let mut waiting: Vec<u64> = match state.pending.remove(&name_string_id) {
                Some(v) => v,
                None => Vec::new(),
            };
            waiting.push(class_id);
            state.pending.insert(name_string_id, waiting);
            proof {
                assert(state.pending@.remove(name_string_id) =~= old(state).pending@.remove(name_string_id));
            }
        },
    }
    proof {
        let d = old(reader).data@;
        let p = old(reader).pos as int;
        let n = id_size as int;
        let v0 = pass_view(*old(state));
        let v1 = pass_view(*state);
        let rs = record_step(d, p, n, 0x02, 0, v0);
        assert(v0.strings.contains_key(name_string_id) == old(state).strings@.contains_key(name_string_id));
        if old(state).strings@.contains_key(name_string_id) {
            lemma_names_view_insert(old(state).acc.names(), state.acc.names(), class_id, old(state).strings@[name_string_id]@);
            assert(v1.names == rs.names);
            assert(v1.pending =~= rs.pending);
        } else {
            assert(state.pending@ =~= old(state).pending@.insert(name_string_id, state.pending@[name_string_id]));
            assert(v1.pending =~= rs.pending);
        }
        assert(v1.class_name_ids =~= rs.class_name_ids);
        assert(v1 =~= rs);
    }
    Ok(())
}

/// Reads a STACK_FRAME record.
fn parse_stack_frame_record(
    reader: &mut ByteReader,
    id_size: u8,
    length: u32,
    state: &mut OverviewState,
    Ghost(options): Ghost<OverviewOptions>,
) -> (res: Result<(), CoreError>)
    requires
        old(reader).wf(),
        id_size == 4 || id_size == 8,
        acc_ok(old(state).acc, options, old(reader).pos as int),
    ensures
        final(reader).wf(),
        final(reader).data == old(reader).data,
        final(reader).pos >= old(reader).pos,
        acc_ok(final(state).acc, options, final(reader).pos as int),
        ({
            let d = old(reader).data@;
            let p = old(reader).pos as int;
            let n = id_size as int;
            let b = d.subrange(p, p + length);
            let s0 = old(state);
            &&& res is Ok <==> p + length <= d.len() && 4 * n + 8 <= length
            &&& res is Ok ==> {
                &&& final(reader).pos == p + length
                &&& final(state).frames@ == s0.frames@.insert(be_at(b, 0, n as nat) as u64, RawStackFrame {
                    method_name_id: be_at(b, n, n as nat) as u64,
                    source_file_id: be_at(b, 3 * n, n as nat) as u64,
                    class_serial: be_at(b, 4 * n, 4) as u32,
                    line_number: be_at(b, 4 * n + 4, 4) as u32 as i32,
                })
                &&& final(state).strings@ == s0.strings@
                &&& final(state).pending@ == s0.pending@
                &&& final(state).class_name_ids@ == s0.class_name_ids@
                &&& final(state).acc == s0.acc
                &&& pass_view(*final(state)) == record_step(d, p, n, 0x04, length as nat, pass_view(*s0))
            }
        }),
{
    let body = reader.read_vec(length as usize)?;
    proof {
        lemma_bounded_mono(state.acc, old(reader).pos as int, reader.pos as int);
    }
    let mut cursor = ByteReader::new(body.as_slice());
    let frame_id = cursor.read_id(id_size)?;
    let method_name_id = cursor.read_id(id_size)?;
    let _signature_id = cursor.read_id(id_size)?;
    let source_file_id = cursor.read_id(id_size)?;
    let class_serial = cursor.read_u32()?;
    let line = cursor.read_u32()?;
    let line_number = #[verifier::truncate] (line as i32);
    let frame = RawStackFrame { method_name_id, source_file_id, class_serial, line_number };
    state.frames.insert(frame_id, frame);
    proof {
        let v0 = pass_view(*old(state));
        let v1 = pass_view(*state);
        let rs = record_step(old(reader).data@, old(reader).pos as int, id_size as int, 0x04, length as nat, v0);
        assert(v1.frames =~= v0.frames.insert(frame_id, raw_view(frame)));
        assert(v1 =~= rs);
    }
    Ok(())
}

/// `prefix`, a decimal number and `>`.
fn placeholder(prefix: &str, n: u64) -> (s: String)
    ensures
        s@ == prefix@ + crate::text::dec_chars(n as nat) + ">"@,
{
    let mut m: Vec<char> = Vec::new();
    push_str(&mut m, prefix);
    push_decimal(&mut m, n);
    push_str(&mut m, ">");
    string_from_chars(&m)
}

fn known_string(strings: &HashMap<u64, String>, id: u64) -> (s: Option<String>)
    ensures
        match s {
            Some(v) => strings@.contains_key(id) && v@ == strings@[id]@,
            None => !strings@.contains_key(id),
        },
{
    match strings.get(&id) {
        Some(v) => Some(v.as_str().to_owned()),
        None => None,
    }
}

/// The frame ids among `ids` that name a recorded STACK_FRAME, in order.
spec fn known_frame_ids(frames: Map<u64, RawStackFrame>, ids: Seq<u64>) -> Seq<u64>
    decreases ids.len(),
{
    if ids.len() == 0 {
        Seq::empty()
    } else {
        let prev = known_frame_ids(frames, ids.drop_last());
        if frames.contains_key(ids.last()) { prev.push(ids.last()) } else { prev }
    }
}

/// A text known by id, or `prefix`, `n` and `>`.
spec fn known_or(strings: Map<u64, String>, id: u64, prefix: Seq<char>, n: nat) -> Seq<char> {
    if strings.contains_key(id) { strings[id]@ } else { prefix + crate::text::dec_chars(n) + ">"@ }
}

/// `out` is the thread frame that a recorded frame `f` of thread
/// `thread_serial` becomes, its names resolved from what is known.
spec fn thread_frame_of(st: OverviewState, f: RawStackFrame, thread_serial: u32, out: OverviewThreadFrame) -> bool {
    let serial_text = "<unknown_class_serial_"@ + crate::text::dec_chars(f.class_serial as nat) + ">"@;
    &&& out.thread_serial == thread_serial
    &&& out.line_number == f.line_number
    &&& out.method_name@ == known_or(st.strings@, f.method_name_id, "<unknown_method_"@, f.method_name_id as nat)
    &&& out.class_name@ == if st.class_name_ids@.contains_key(f.class_serial) {
        known_or(st.strings@, st.class_name_ids@[f.class_serial], "<unknown_class_serial_"@, f.class_serial as nat)
    } else {
        serial_text
    }
    &&& out.source_file@ == if f.source_file_id == 0 {
        Seq::<char>::empty()
    } else {
        known_or(st.strings@, f.source_file_id, "<unknown_source_"@, f.source_file_id as nat)
    }
}

/// Reads a STACK_TRACE record and keeps its frames, resolving the names
/// known so far.
#[verifier::spinoff_prover]
fn parse_stack_trace_record(
    reader: &mut ByteReader,
    id_size: u8,
    length: u32,
    state: &mut OverviewState,
    Ghost(options): Ghost<OverviewOptions>,
) -> (res: Result<(), CoreError>)
    requires
        old(reader).wf(),
        id_size == 4 || id_size == 8,
        acc_ok(old(state).acc, options, old(reader).pos as int),
    ensures
        final(reader).wf(),
        final(reader).data == old(reader).data,
        final(reader).pos >= old(reader).pos,
        acc_ok(final(state).acc, options, final(reader).pos as int),
        ({
            let d = old(reader).data@;
            let p = old(reader).pos as int;
            let n = id_size as int;
            let b = d.subrange(p, p + length);
            let count = be_at(b, 8, 4);
            let s0 = old(state);
            &&& res is Ok <==> p + length <= d.len() && 12 <= length && 12 + count * n <= length
            &&& res is Ok ==> {
                &&& final(reader).pos == p + length
                &&& final(state).strings@ == s0.strings@
                &&& final(state).pending@ == s0.pending@
                &&& final(state).class_name_ids@ == s0.class_name_ids@
                &&& final(state).frames@ == s0.frames@
                &&& final(state).acc.names() == s0.acc.names()
                &&& final(state).acc.instances() == s0.acc.instances()
                &&& final(state).acc.class_table() == s0.acc.class_table()
                &&& final(state).acc.roots() == s0.acc.roots()
                &&& final(state).acc.instance_total() == s0.acc.instance_total()
                &&& ({
                    let known = known_frame_ids(s0.frames@, trace_frame_ids(b, n as nat, count));
                    let h0 = s0.acc.frames().history();
                    let h1 = final(state).acc.frames().history();
                    &&& h1.len() == h0.len() + known.len()
                    &&& h1.take(h0.len() as int) == h0
                    &&& forall|k: int| 0 <= k < known.len() ==> thread_frame_of(
                        *s0, s0.frames@[known[k]], be_at(b, 4, 4) as u32, #[trigger] h1[h0.len() + k])
                })
                &&& pass_view(*final(state)) == record_step(d, p, n, 0x05, length as nat, pass_view(*s0))
            }
        }),
{
    let body = reader.read_vec(length as usize)?;
    proof {
        lemma_bounded_mono(state.acc, old(reader).pos as int, reader.pos as int);
    }
    let mut cursor = ByteReader::new(body.as_slice());
    let _serial = cursor.read_u32()?;
    let thread_serial = cursor.read_u32()?;
    let frame_count = cursor.read_u32()?;
    let mut k: u32 = 0;
    while k < frame_count
        invariant
            cursor.wf(),
            reader.wf(),
            reader.data == old(reader).data,
            reader.pos >= old(reader).pos,
            id_size == 4 || id_size == 8,
            acc_ok(state.acc, options, reader.pos as int),
            cursor.data@ == old(reader).data@.subrange(old(reader).pos as int, old(reader).pos + length),
            old(reader).pos + length <= old(reader).data@.len(),
            reader.pos == old(reader).pos + length,
            k <= frame_count,
            frame_count as nat == be_at(cursor.data@, 8, 4),
            cursor.pos == 12 + k * id_size,
            state.strings@ == old(state).strings@,
            state.pending@ == old(state).pending@,
            state.class_name_ids@ == old(state).class_name_ids@,
            state.frames@ == old(state).frames@,
            state.acc.names() == old(state).acc.names(),
            state.acc.instances() == old(state).acc.instances(),
            state.acc.class_table() == old(state).acc.class_table(),
            state.acc.roots() == old(state).acc.roots(),
            state.acc.instance_total() == old(state).acc.instance_total(),
            thread_serial as nat == be_at(cursor.data@, 4, 4),
            ({
                let known = known_frame_ids(old(state).frames@, trace_frame_ids(cursor.data@, id_size as nat, k as nat));
                let h0 = old(state).acc.frames().history();
                let h1 = state.acc.frames().history();
                &&& h1.len() == h0.len() + known.len()
                &&& h1.take(h0.len() as int) == h0
                &&& forall|j: int| 0 <= j < known.len() ==> thread_frame_of(
                    *old(state), old(state).frames@[known[j]], thread_serial, #[trigger] h1[h0.len() + j])
            }),
            state.acc.frames().history().map_values(|f: OverviewThreadFrame| frame_view(f))
                == old(state).acc.frames().history().map_values(|f: OverviewThreadFrame| frame_view(f))
                + trace_frames(pass_view(*old(state)), trace_frame_ids(cursor.data@, id_size as nat, k as nat), thread_serial),
        decreases frame_count - k,
    {
        proof {
            assert((k + 1) * id_size == k * id_size + id_size) by (nonlinear_arith);
            assert(k * id_size + id_size <= frame_count * id_size) by (nonlinear_arith)
                requires k + 1 <= frame_count;
        }
        let ghost h_before = state.acc.frames().history();
        let ghost ids_before = trace_frame_ids(cursor.data@, id_size as nat, k as nat);
        let frame_id = cursor.read_id(id_size)?;
        proof {
            assert(trace_frame_ids(cursor.data@, id_size as nat, (k + 1) as nat) =~= ids_before.push(frame_id));
            assert(trace_frame_ids(cursor.data@, id_size as nat, (k + 1) as nat).drop_last() =~= ids_before);
        }
        match state.frames.get(&frame_id) {
            None => {
                proof {
                    let v0 = pass_view(*old(state));
                    assert(!v0.frames.contains_key(frame_id));
                    let ids1 = trace_frame_ids(cursor.data@, id_size as nat, (k + 1) as nat);
                    assert(ids1.last() == frame_id);
                    assert(trace_frames(v0, ids1, thread_serial) == trace_frames(v0, ids_before, thread_serial));
                }
            },
            Some(frame) => {
                let frame = *frame;
                let class_name = match state.class_name_ids.get(&frame.class_serial) {
                    Some(string_id) => match known_string(&state.strings, *string_id) {
                        Some(n) => n,
                        None => placeholder("<unknown_class_serial_", frame.class_serial as u64),
                    },
                    None => placeholder("<unknown_class_serial_", frame.class_serial as u64),
                };
                let method_name = match known_string(&state.strings, frame.method_name_id) {
                    Some(n) => n,
                    None => placeholder("<unknown_method_", frame.method_name_id),
                };
                let source_file = if frame.source_file_id == 0 {
                    String::new()
                } else {
                    match known_string(&state.strings, frame.source_file_id) {
                        Some(n) => n,
                        None => placeholder("<unknown_source_", frame.source_file_id),
                    }
                };
                let out = OverviewThreadFrame {
                    thread_serial,
                    class_name,
                    method_name,
                    source_file,
                    line_number: frame.line_number,
                };
                proof {
                    assert(thread_frame_of(*old(state), frame, thread_serial, out));
                }
                let ghost fv_before = state.acc.frames().history().map_values(|f: OverviewThreadFrame| frame_view(f));
                state.acc.push_thread_frame(out);
                proof {
                    let v0 = pass_view(*old(state));
                    assert(v0.frames.contains_key(frame_id));
                    assert(v0.frames[frame_id] == raw_view(frame));
                    assert(v0.strings.contains_key(frame.method_name_id) == old(state).strings@.contains_key(frame.method_name_id));
                    assert(v0.strings.contains_key(frame.source_file_id) == old(state).strings@.contains_key(frame.source_file_id));
                    if old(state).class_name_ids@.contains_key(frame.class_serial) {
                        let sid = old(state).class_name_ids@[frame.class_serial];
                        assert(v0.strings.contains_key(sid) == old(state).strings@.contains_key(sid));
                    }
                    assert(frame_view(out) =~~= frame_at(v0, raw_view(frame), thread_serial));
                    let ids1 = trace_frame_ids(cursor.data@, id_size as nat, (k + 1) as nat);
                    assert(ids1.last() == frame_id);
                    assert(state.acc.frames().history().map_values(|f: OverviewThreadFrame| frame_view(f))
                        =~= fv_before.push(frame_view(out)));
                    let base = old(state).acc.frames().history().map_values(|f: OverviewThreadFrame| frame_view(f));
                    assert(base + trace_frames(v0, ids1, thread_serial)
                        =~= (base + trace_frames(v0, ids_before, thread_serial)).push(frame_view(out)));
                }
                proof {
                    let known = known_frame_ids(old(state).frames@, ids_before);
                    let h0 = old(state).acc.frames().history();
                    let h1 = state.acc.frames().history();
                    assert(h1 == h_before.push(out));
                    assert(h1.take(h0.len() as int) =~= h0) by {
                        assert(h_before.take(h0.len() as int) == h0);
                    }
                    assert forall|j: int| 0 <= j < known.len() + 1 implies thread_frame_of(
                        *old(state), old(state).frames@[known.push(frame_id)[j]], thread_serial, #[trigger] h1[h0.len() + j]) by {
                        if j < known.len() {
                            assert(h1[h0.len() + j] == h_before[h0.len() + j]);
                        }
                    }
                }
            },
        }
        k = k + 1;
    }
    Ok(())
}

/// A top-level record whose body of `length` bytes starts at `q` is read
/// whole by the overview pass.
pub open spec fn overview_record_ok(d: Seq<u8>, q: int, n: int, tag: u8, length: nat) -> bool {
    if tag == 0x02 {
        q + 8 + 2 * n <= d.len()
    } else {
        &&& q + length <= d.len()
        &&& tag == 0x01 ==> n <= length
        &&& tag == 0x04 ==> 4 * n + 8 <= length
        &&& tag == 0x05 ==> 12 <= length && 12 + be_at(d.subrange(q, q + length), 8, 4) * n <= length
        &&& (tag == 0x0C || tag == 0x1C) ==> overview_segment_ok(d.subrange(q, q + length), 0, n)
    }
}

/// The records from `r` to the end of the image are all read whole by the
/// overview pass.
pub open spec fn overview_records_ok(d: Seq<u8>, r: int, n: int) -> bool
    decreases d.len() - r,
{
    if r < 0 || r >= d.len() {
        r == d.len()
    } else {
        let tag = d[r];
        let length = be_at(d, r + 5, 4);
        &&& r + 9 <= d.len()
        &&& n >= 0
        &&& overview_record_ok(d, r + 9, n, tag, length)
        &&& overview_records_ok(d, record_next(r + 9, n, tag, length), n)
    }
}

/// How many records the overview pass reads from `r` to the end of the
/// image.
pub open spec fn overview_record_count(d: Seq<u8>, r: int, n: int) -> nat
    decreases d.len() - r,
{
    if r < 0 || r >= d.len() {
        0
    } else {
        let next = record_next(r + 9, n, d[r], be_at(d, r + 5, 4));
        if r < next <= d.len() { 1 + overview_record_count(d, next, n) } else { 1 }
    }
}

/// The GC-root counts after the heap-dump records of the image from `r` on
/// are counted into `c`.
pub open spec fn records_roots(d: Seq<u8>, r: int, n: int, c: Map<GcRootKind, u64>) -> Map<GcRootKind, u64>
    decreases d.len() - r,
{
    if r < 0 || r >= d.len() {
        c
    } else {
        let tag = d[r];
        let length = be_at(d, r + 5, 4);
        let next = record_next(r + 9, n, tag, length);
        let c1 = if tag == 0x0C || tag == 0x1C { segment_roots(d.subrange(r + 9, r + 9 + length), 0, n, c) } else { c };
        if r < next <= d.len() { records_roots(d, next, n, c1) } else { c1 }
    }
}

/// How many sub-records of the heap-dump records of the image, from `r` on,
/// the full heap parse decodes as GC roots of kind `k`.
pub open spec fn records_kind_count(d: Seq<u8>, r: int, n: int, k: GcRootKind) -> nat
    decreases d.len() - r,
{
    if r < 0 || r >= d.len() {
        0
    } else {
        let tag = d[r];
        let length = be_at(d, r + 5, 4);
        let next = record_next(r + 9, n, tag, length);
        let here = if tag == 0x0C || tag == 0x1C { segment_kind_count(d.subrange(r + 9, r + 9 + length), 0, n, k) } else { 0 };
        if r < next <= d.len() { here + records_kind_count(d, next, n, k) } else { here }
    }
}

/// How many sub-records of the heap-dump records of image `d` (after its
/// header) the full heap parse decodes as GC roots of kind `k`.
pub open spec fn overview_kind_count(d: Seq<u8>, k: GcRootKind) -> nat {
    let z = first_zero(d)->0;
    records_kind_count(d, z + 13, be_value(d.subrange(z + 1, z + 5)) as int, k)
}

/// The overview's count of roots of kind `k` over the records from `r` on
/// is the count it started from plus the number of sub-records the full
/// heap parse decodes as roots of that kind.
pub proof fn lemma_records_root_counts(d: Seq<u8>, r: int, n: int, c: Map<GcRootKind, u64>, k: GcRootKind)
    requires
        root_count(c, k) + records_kind_count(d, r, n, k) <= u64::MAX,
    ensures
        root_count(records_roots(d, r, n, c), k) == root_count(c, k) + records_kind_count(d, r, n, k),
    decreases d.len() - r,
{
    if 0 <= r < d.len() {
        let tag = d[r];
        let length = be_at(d, r + 5, 4);
        let next = record_next(r + 9, n, tag, length);
        let c1 = if tag == 0x0C || tag == 0x1C {
            lemma_segment_root_counts(d.subrange(r + 9, r + 9 + length), 0, n, c, k);
            segment_roots(d.subrange(r + 9, r + 9 + length), 0, n, c)
        } else {
            c
        };
        if r < next <= d.len() {
            lemma_records_root_counts(d, next, n, c1, k);
        }
    }
}

/// How many object sub-records the heap-dump records of the image hold
/// from `r` on.
pub open spec fn records_objects(d: Seq<u8>, r: int, n: int) -> nat
    decreases d.len() - r,
{
    if r < 0 || r >= d.len() {
        0
    } else {
        let tag = d[r];
        let length = be_at(d, r + 5, 4);
        let next = record_next(r + 9, n, tag, length);
        let here = if tag == 0x0C || tag == 0x1C { segment_objects(d.subrange(r + 9, r + 9 + length), 0, n) } else { 0 };
        if r < next <= d.len() { here + records_objects(d, next, n) } else { here }
    }
}

/// A thread frame as values.
#[verifier::ext_equal]
pub struct FrameView {
    pub thread_serial: u32,
    pub line_number: i32,
    pub method_name: Seq<char>,
    pub class_name: Seq<char>,
    pub source_file: Seq<char>,
}

/// A thread frame's values.
pub open spec fn frame_view(f: OverviewThreadFrame) -> FrameView {
    FrameView {
        thread_serial: f.thread_serial,
        line_number: f.line_number,
        method_name: f.method_name@,
        class_name: f.class_name@,
        source_file: f.source_file@,
    }
}

/// What the overview pass has learnt after a prefix of the records: the
/// strings by id, the classes waiting for a name string, the class names,
/// the name string of each class serial, the stack frames by id (method
/// name id, source file id, class serial, line), the instances offered and
/// the thread frames kept, in order.
#[verifier::ext_equal]
pub struct PassView {
    pub strings: Map<u64, Seq<char>>,
    pub pending: Map<u64, Seq<u64>>,
    pub names: Map<u64, Seq<char>>,
    pub class_name_ids: Map<u32, u64>,
    pub frames: Map<u64, (u64, u64, u32, i32)>,
    pub offers: Seq<(u64, u64, u64)>,
    pub thread_frames: Seq<FrameView>,
}

/// Before any record.
pub open spec fn empty_pass() -> PassView {
    PassView {
        strings: Map::empty(),
        pending: Map::empty(),
        names: Map::empty(),
        class_name_ids: Map::empty(),
        frames: Map::empty(),
        offers: Seq::empty(),
        thread_frames: Seq::empty(),
    }
}

/// A text known by id, or `prefix`, `n` and `>`.
pub open spec fn known_text(strings: Map<u64, Seq<char>>, id: u64, prefix: Seq<char>, n: nat) -> Seq<char> {
    if strings.contains_key(id) { strings[id] } else { prefix + crate::text::dec_chars(n) + ">"@ }
}

/// The thread frame that recorded frame `f` of thread `serial` becomes,
/// its names resolved from what `v` knows.
pub open spec fn frame_at(v: PassView, f: (u64, u64, u32, i32), serial: u32) -> FrameView {
    FrameView {
        thread_serial: serial,
        line_number: f.3,
        method_name: known_text(v.strings, f.0, "<unknown_method_"@, f.0 as nat),
        class_name: if v.class_name_ids.contains_key(f.2) {
            known_text(v.strings, v.class_name_ids[f.2], "<unknown_class_serial_"@, f.2 as nat)
        } else {
            "<unknown_class_serial_"@ + crate::text::dec_chars(f.2 as nat) + ">"@
        },
        source_file: if f.1 == 0 {
            Seq::<char>::empty()
        } else {
            known_text(v.strings, f.1, "<unknown_source_"@, f.1 as nat)
        },
    }
}

/// The thread frames a trace of thread `serial` listing frame ids `ids`
/// yields: one per id of a recorded frame, in order.
pub open spec fn trace_frames(v: PassView, ids: Seq<u64>, serial: u32) -> Seq<FrameView>
    decreases ids.len(),
{
    if ids.len() == 0 {
        Seq::empty()
    } else {
        let prev = trace_frames(v, ids.drop_last(), serial);
        if v.frames.contains_key(ids.last()) { prev.push(frame_at(v, v.frames[ids.last()], serial)) } else { prev }
    }
}

/// What the pass knows after the record with tag `tag` whose body of
/// `length` bytes starts at `p`.
pub open spec fn record_step(d: Seq<u8>, p: int, n: int, tag: u8, length: nat, v: PassView) -> PassView {
    if tag == 0x01 {
        let id = be_at(d, p, n as nat) as u64;
        let text = utf8_lossy(d.subrange(p + n, p + length));
        let waiting = if v.pending.contains_key(id) { v.pending[id] } else { Seq::empty() };
        PassView {
            strings: v.strings.insert(id, text),
            pending: v.pending.remove(id),
            names: Map::new(
                |c: u64| v.names.contains_key(c) || waiting.contains(c),
                |c: u64| if waiting.contains(c) { text } else { v.names[c] },
            ),
            ..v
        }
    } else if tag == 0x02 {
        let serial = be_at(d, p, 4) as u32;
        let class_id = be_at(d, p + 4, n as nat) as u64;
        let name_id = be_at(d, p + 8 + n, n as nat) as u64;
        if v.strings.contains_key(name_id) {
            PassView {
                class_name_ids: v.class_name_ids.insert(serial, name_id),
                names: v.names.insert(class_id, v.strings[name_id]),
                ..v
            }
        } else {
            PassView {
                class_name_ids: v.class_name_ids.insert(serial, name_id),
                pending: v.pending.insert(
                    name_id,
                    (if v.pending.contains_key(name_id) { v.pending[name_id] } else { Seq::empty() }).push(class_id),
                ),
                ..v
            }
        }
    } else if tag == 0x04 {
        let b = d.subrange(p, p + length);
        PassView {
            frames: v.frames.insert(
                be_at(b, 0, n as nat) as u64,
                (
                    be_at(b, n, n as nat) as u64,
                    be_at(b, 3 * n, n as nat) as u64,
                    be_at(b, 4 * n, 4) as u32,
                    be_at(b, 4 * n + 4, 4) as u32 as i32,
                ),
            ),
            ..v
        }
    } else if tag == 0x05 {
        let b = d.subrange(p, p + length);
        PassView {
            thread_frames: v.thread_frames + trace_frames(v, trace_frame_ids(b, n as nat, be_at(b, 8, 4)), be_at(b, 4, 4) as u32),
            ..v
        }
    } else if tag == 0x0C || tag == 0x1C {
        let b = d.subrange(p, p + length);
        PassView { offers: v.offers + segment_offers(b, 0, n), names: segment_names(b, 0, n, v.names), ..v }
    } else {
        v
    }
}

/// What the pass knows after the records from `r` to the end of the image,
/// starting from `v`.
pub open spec fn records_pass(d: Seq<u8>, r: int, n: int, v: PassView) -> PassView
    decreases d.len() - r,
{
    if r < 0 || r >= d.len() {
        v
    } else {
        let tag = d[r];
        let length = be_at(d, r + 5, 4);
        let next = record_next(r + 9, n, tag, length);
        let v1 = record_step(d, r + 9, n, tag, length, v);
        if r < next <= d.len() { records_pass(d, next, n, v1) } else { v1 }
    }
}

/// `out` lists the `limit` largest of the offered instances `offers`
/// (ranked by size; of equal sizes the later offer ranks higher), largest
/// first and equal sizes in the order offered, each under its class name in
/// `names` or the placeholder.
pub open spec fn top_offers(
    out: Seq<OverviewInstanceStat>,
    offers: Seq<(u64, u64, u64)>,
    limit: nat,
    names: Map<u64, Seq<char>>,
) -> bool {
    exists|idx: Seq<int>| {
        &&& idx.len() == out.len()
        &&& out.len() == (if offers.len() < limit { offers.len() } else { limit })
        &&& forall|i: int| 0 <= i < idx.len() ==> {
            &&& 0 <= #[trigger] idx[i] < offers.len()
            &&& out[i].object_id == offers[idx[i]].0
            &&& out[i].class_id == offers[idx[i]].1
            &&& out[i].approx_retained_bytes == offers[idx[i]].2
            &&& out[i].class_name@ == (if names.contains_key(out[i].class_id) { names[out[i].class_id] } else {
                unresolved_name(out[i].class_id)
            })
        }
        &&& forall|i: int, j: int| 0 <= i < j < idx.len() ==> listed_before(
            offers[#[trigger] idx[i]].2, idx[i], offers[#[trigger] idx[j]].2, idx[j])
        &&& forall|j: int, i: int| 0 <= j < offers.len() && !idx.contains(j) && 0 <= i < idx.len()
            ==> key_below((#[trigger] offers[j]).2, j, offers[#[trigger] idx[i]].2, idx[i])
    }
}

/// `s` is what the records of the image `d` (after its header) give under
/// `options`: the class names learnt, the class tallies of the instances
/// offered, the largest of those instances, and the most recent thread
/// frames, with truncation marked when classes or frames were left out.
pub open spec fn overview_of_records(s: OverviewSummary, d: Seq<u8>, options: OverviewOptions) -> bool {
    let z = first_zero(d)->0;
    let v = records_pass(d, z + 13, be_value(d.subrange(z + 1, z + 5)) as int, empty_pass());
    let table = table_of(v.offers, options.max_class_table_size as nat);
    let frames = v.thread_frames;
    let kept = if frames.len() < options.max_thread_frames { frames.len() } else { options.max_thread_frames as nat };
    &&& s.loaded_class_count == v.names.len()
    &&& exists|names: Map<u64, String>| names_view(names) == v.names
        && #[trigger] top_class_stats(s.class_stats, table.0, table.1, names, options.top_n_classes)
    &&& top_offers(s.top_instances@, v.offers, options.top_n_instances as nat, v.names)
    &&& s.thread_frames@.map_values(|f: OverviewThreadFrame| frame_view(f)) == frames.skip(frames.len() - kept)
    &&& s.truncated == (s.class_stats.truncated || frames.len() > options.max_thread_frames)
}

proof fn lemma_top_offers(acc: OverviewAccumulators, out: Seq<OverviewInstanceStat>)
    requires
        acc.wf(),
        offers_tracked(acc),
        renamed_listing(out, acc.instances().kept(), acc.names()),
    ensures
        top_offers(out, offers_of(acc.instances().history()), acc.instances().limit(), names_view(acc.names())),
{
    let c = acc.instances();
    let h = c.history();
    let kept = c.kept();
    let offers = offers_of(h);
    let names = acc.names();
    let os = choose|os: Seq<Ranked<OverviewInstanceStat>>| #[trigger] is_listing(os, kept) && out.len() == os.len()
        && forall|i: int| 0 <= i < os.len() ==> {
            let o = os[i].item;
            let e = #[trigger] out[i];
            &&& e.object_id == o.object_id
            &&& e.class_id == o.class_id
            &&& e.approx_retained_bytes == o.approx_retained_bytes
            &&& e.class_name@ == (if names.contains_key(o.class_id) { names[o.class_id]@ } else { o.class_name@ })
        };
    let idx = Seq::new(os.len(), |i: int| os[i].insertion_order as int);
    assert forall|i: int| 0 <= i < os.len() implies {
        &&& 0 <= idx[i] < offers.len()
        &&& h[idx[i]].0 == os[i].rank
        &&& h[idx[i]].1 == os[i].item
    } by {
        assert(os.contains(os[i]));
        assert(kept.contains(os[i]));
        let k = choose|k: int| 0 <= k < kept.len() && kept[k] == os[i];
        assert(c.wf());
        assert(kept[k].insertion_order < h.len());
    }
    assert forall|i: int| 0 <= i < idx.len() implies {
        &&& 0 <= #[trigger] idx[i] < offers.len()
        &&& out[i].object_id == offers[idx[i]].0
        &&& out[i].class_id == offers[idx[i]].1
        &&& out[i].approx_retained_bytes == offers[idx[i]].2
        &&& out[i].class_name@ == (if names_view(names).contains_key(out[i].class_id) { names_view(names)[out[i].class_id] } else {
            unresolved_name(out[i].class_id)
        })
    } by {
        assert(h[idx[i]].0 == os[i].rank);
        assert(h[idx[i]].1 == os[i].item);
        assert(offers[idx[i]] == offer_of(h[idx[i]]));
        let o = os[i].item;
        assert(out[i].class_id == o.class_id);
        if !names.contains_key(o.class_id) {
            assert(!acc.names().contains_key(h[idx[i]].1.class_id));
        }
    }
    assert forall|i: int, j: int| 0 <= i < j < idx.len() implies listed_before(
        offers[#[trigger] idx[i]].2, idx[i], offers[#[trigger] idx[j]].2, idx[j]) by {
        assert(h[idx[i]].0 == os[i].rank);
        assert(h[idx[j]].0 == os[j].rank);
        assert(h[idx[i]].0 == h[idx[i]].1.approx_retained_bytes);
        assert(h[idx[j]].0 == h[idx[j]].1.approx_retained_bytes);
        assert(offers[idx[i]] == offer_of(h[idx[i]]));
        assert(offers[idx[j]] == offer_of(h[idx[j]]));
    }
    assert forall|j: int, i: int| 0 <= j < offers.len() && !idx.contains(j) && 0 <= i < idx.len()
        implies key_below((#[trigger] offers[j]).2, j, offers[#[trigger] idx[i]].2, idx[i]) by {
        if c.keeps(j) {
            let k = choose|k: int| 0 <= k < kept.len() && #[trigger] kept[k].insertion_order == j;
            assert(kept.contains(kept[k]));
            assert(os.contains(kept[k]));
            let i2 = choose|i2: int| 0 <= i2 < os.len() && os[i2] == kept[k];
            assert(idx[i2] == j);
            assert(idx.contains(j));
        }
        assert(os.contains(os[i]));
        assert(kept.contains(os[i]));
        let k = choose|k: int| 0 <= k < kept.len() && kept[k] == os[i];
        assert(key_below(h[j].0, j, kept[k].rank, kept[k].insertion_order as int));
        assert(h[idx[i]].0 == os[i].rank);
        assert(h[j].0 == h[j].1.approx_retained_bytes);
        assert(h[idx[i]].0 == h[idx[i]].1.approx_retained_bytes);
        assert(offers[j] == offer_of(h[j]));
        assert(offers[idx[i]] == offer_of(h[idx[i]]));
    }
}

/// Summarises an HPROF image in one pass, within the bounds of `options`:
/// class tallies, the largest instances, GC-root counts and the most recent
/// thread frames. Every record counts toward the totals, header included.
#[verifier::spinoff_prover]
#[verifier::rlimit(80)]
pub fn parse_hprof_overview(data: &[u8], options: &OverviewOptions, heap_path: &str) -> (res: Result<OverviewSummary, CoreError>)
    ensures
        res matches Ok(s) ==> {
            &&& s.total_bytes_processed == data@.len()
            &&& s.total_size_bytes == data@.len()
            &&& s.heap_path@ == heap_path@
            &&& s.options == *options
            &&& s.provenance@.len() == 0
            &&& s.total_record_count == overview_record_count(data@, first_zero(data@)->0 + 13,
                be_value(data@.subrange(first_zero(data@)->0 + 1, first_zero(data@)->0 + 5)) as int)
            &&& s.gc_root_counts.counts() == records_roots(data@, first_zero(data@)->0 + 13,
                be_value(data@.subrange(first_zero(data@)->0 + 1, first_zero(data@)->0 + 5)) as int,
                Map::<GcRootKind, u64>::empty())
            &&& s.total_instances == records_objects(data@, first_zero(data@)->0 + 13,
                be_value(data@.subrange(first_zero(data@)->0 + 1, first_zero(data@)->0 + 5)) as int)
            &&& first_zero(data@) matches Some(z) && {
                let declared = be_value(data@.subrange(z + 1, z + 5));
                declared == 4 || declared == 8
            }
            &&& overview_of_records(s, data@, *options)
            &&& forall|k: GcRootKind| #[trigger] overview_kind_count(data@, k) <= u64::MAX
                ==> root_count(s.gc_root_counts.counts(), k) == overview_kind_count(data@, k)
        },
        first_zero(data@) is None ==> res is Err,
        !header_ok(data@) ==> (res matches Err(e) && header_error_is(e, data@)),
        (header_ok(data@) && (first_zero(data@) matches Some(z) && data@.len() == z + 13 && {
            let declared = be_value(data@.subrange(z + 1, z + 5));
            declared == 4 || declared == 8
        })) ==> res is Ok,
        res is Ok <==> (header_ok(data@) && (first_zero(data@) matches Some(z) && {
            let declared = be_value(data@.subrange(z + 1, z + 5));
            &&& declared == 4 || declared == 8
            &&& overview_records_ok(data@, z + 13, declared as int)
        })),
{
    let _data_len = data.len();
    let (header, header_len) = parse_hprof_header(data)?;
    if header.identifier_size != 4 && header.identifier_size != 8 {
        let mut m: Vec<char> = Vec::new();
        push_str(&mut m, "unsupported HPROF identifier size: ");
        push_decimal(&mut m, header.identifier_size as u64);
        return Err(CoreError::InvalidInput(string_from_chars(&m)));
    }
    let id_size: u8 = if header.identifier_size == 4 { 4 } else { 8 };
    let mut reader = ByteReader { data, pos: header_len };
    let mut total_record_count: u64 = 0;
    let mut state = OverviewState {
        acc: OverviewAccumulators::new(*options),
        strings: HashMap::new(),
        pending: HashMap::new(),
        class_name_ids: HashMap::new(),
        frames: HashMap::new(),
    };
    let ghost opts = *options;
    let ghost header_only = data@.len() == header_len;
    proof {
        assert(pass_view(state) =~~= empty_pass());
    }
    loop
        invariant
            reader.wf(),
            reader.data@ == data@,
            header_only ==> reader.pos == data@.len(),
            header_only == (data@.len() == header_len),
            first_zero(data@) == Some((header_len - 13) as int),
            header_ok(data@),
            id_size as nat == be_value(data@.subrange(header_len - 12, header_len - 8)),
            header_len <= reader.pos,
            overview_records_ok(data@, header_len as int, id_size as int)
                == overview_records_ok(data@, reader.pos as int, id_size as int),
            data@.len() <= usize::MAX,
            id_size == 4 || id_size == 8,
            acc_ok(state.acc, opts, reader.pos as int),
            total_record_count <= reader.pos,
            total_record_count + overview_record_count(data@, reader.pos as int, id_size as int)
                == overview_record_count(data@, header_len as int, id_size as int),
            records_roots(data@, header_len as int, id_size as int, Map::<GcRootKind, u64>::empty())
                == records_roots(data@, reader.pos as int, id_size as int, state.acc.roots().counts()),
            state.acc.instance_total() + records_objects(data@, reader.pos as int, id_size as int)
                == records_objects(data@, header_len as int, id_size as int),
            records_pass(data@, header_len as int, id_size as int, empty_pass())
                == records_pass(data@, reader.pos as int, id_size as int, pass_view(state)),
        ensures
            reader.pos == data@.len(),
        decreases data@.len() - reader.pos,
    {
        if reader.is_at_end() {
            break;
        }
        let ghost r0 = reader.pos as int;
        let tag = reader.read_u8()?;
        let _time_delta = reader.read_u32()?;
        let length = reader.read_u32()?;
        proof {
            lemma_bounded_mono(state.acc, reader.pos - 9, reader.pos as int);
            assert(tag == data@[r0]);
            assert(length as nat == be_at(data@, r0 + 5, 4));
        }
        total_record_count = total_record_count + 1;
        let ghost body_start = reader.pos;
        let ghost v0 = pass_view(state);
        match tag {
            0x01 => parse_string_record(&mut reader, id_size, length, &mut state, Ghost(opts))?,
            0x02 => parse_load_class_record(&mut reader, id_size, &mut state, Ghost(opts))?,
            0x04 => parse_stack_frame_record(&mut reader, id_size, length, &mut state, Ghost(opts))?,
            0x05 => parse_stack_trace_record(&mut reader, id_size, length, &mut state, Ghost(opts))?,
            0x0C | 0x1C => parse_segment(&mut reader, id_size, length, &mut state, Ghost(opts))?,
            _ => {
                reader.skip(length as u64)?;
                proof {
                    lemma_bounded_mono(state.acc, body_start as int, reader.pos as int);
                }
            },
        }
        proof {
            assert(pass_view(state) == record_step(data@, body_start as int, id_size as int, tag, length as nat, v0));
        }
    }
    let total = data.len() as u64;
    let ghost acc = state.acc;
    let summary = OverviewSummary::from_accumulators(heap_path, total, total_record_count, state.acc);
    proof {
        let v = pass_view(state);
        let d = data@;
        let z = first_zero(d)->0;
        assert(z + 13 == header_len);
        assert(be_value(d.subrange(z + 1, z + 5)) as int == id_size as int);
        assert(records_pass(d, reader.pos as int, id_size as int, v) == v);
        assert(records_pass(d, z + 13, be_value(d.subrange(z + 1, z + 5)) as int, empty_pass()) == v);
        lemma_top_offers(acc, summary.top_instances@);
        assert(acc.instances().limit() == opts.top_n_instances);
        assert(table_of(v.offers, opts.max_class_table_size as nat) == (acc.class_table().tallies(), acc.class_table().is_truncated()));
        assert(names_view(acc.names()).dom() =~= acc.names().dom());
        let h = acc.frames().history();
        assert(summary.thread_frames@.map_values(|f: OverviewThreadFrame| frame_view(f))
            =~= v.thread_frames.skip(h.len() - (if h.len() < acc.frames().limit() { h.len() } else { acc.frames().limit() })));
        assert(v.thread_frames.len() == h.len());
        assert(acc.frames().limit() == opts.max_thread_frames);
        assert(summary.thread_frames@.map_values(|f: OverviewThreadFrame| frame_view(f)) == v.thread_frames.skip(
            v.thread_frames.len() - (if v.thread_frames.len() < opts.max_thread_frames { v.thread_frames.len() } else { opts.max_thread_frames as nat })));
        let table = table_of(v.offers, opts.max_class_table_size as nat);
        assert(names_view(acc.names()) == v.names && top_class_stats(summary.class_stats, table.0, table.1, acc.names(), opts.top_n_classes));
        assert(exists|names: Map<u64, String>| names_view(names) == v.names
            && #[trigger] top_class_stats(summary.class_stats, table.0, table.1, names, opts.top_n_classes));
        assert(overview_of_records(summary, d, opts));
        assert forall|k: GcRootKind| #[trigger] overview_kind_count(d, k) <= u64::MAX implies root_count(
            summary.gc_root_counts.counts(),
            k,
        ) == overview_kind_count(d, k) by {
            lemma_records_root_counts(d, z + 13, id_size as int, Map::<GcRootKind, u64>::empty(), k);
        }
    }
    Ok(summary)
}

} // verus!
