//! Decodes an HPROF heap dump held in memory into an [`ObjectGraph`].

use vstd::prelude::*;
use std::collections::HashMap;
use crate::errors::CoreError;
use crate::hprof::reader::ByteReader;
use crate::hprof::object_graph::{
    ObjectGraph, HeapObject, ObjectKind, ClassInfo, FieldDescriptor, GcRoot, GcRootType,
    LoadedClass, StackFrame, StackTrace, field_value_size, value_width,
};
use crate::text::{push_str, push_decimal, string_from_chars};
use crate::util::{be_value, map_keys, lemma_be_value_bound, lemma_pow256_values};

verus! {

broadcast use vstd::std_specs::hash::group_hash_axioms;

/// Largest primitive array whose bytes are kept when field data is retained.
pub const MAX_RETAINED_PRIMITIVE_ARRAY_BYTES: u64 = 1048576;

/// Longest accepted header format string.
pub const MAX_HEADER_LEN: usize = 1024;

/// Parsing switches.
#[derive(Debug, Clone, Copy)]
pub struct ParseOptions {
    /// Keep instance field bytes and small byte/char array contents.
    pub retain_field_data: bool,
}

impl Default for ParseOptions {
    fn default() -> (o: Self)
        ensures
            !o.retain_field_data,
    {
        ParseOptions { retain_field_data: false }
    }
}

/// Text of the bytes of a STRING_IN_UTF8 record, decoded as UTF-8 with each
/// invalid sequence replaced by U+FFFD.
pub uninterp spec fn utf8_lossy(bytes: Seq<u8>) -> Seq<char>;

/// Calls std `String::from_utf8_lossy`; its result is named by `utf8_lossy`.
#[verifier::external_body]
pub(crate) fn decode_utf8_lossy(bytes: &[u8]) -> (s: String)
    ensures
        s@ == utf8_lossy(bytes@),
{
    String::from_utf8_lossy(bytes).into_owned()
}

/// The big-endian number held by `n` bytes of `data` at `pos`.
pub open spec fn be_at(data: Seq<u8>, pos: int, n: nat) -> nat {
    be_value(data.subrange(pos, pos + n))
}

/// Index of the first zero byte at or after `from`, if any.
pub open spec fn first_zero_from(data: Seq<u8>, from: int) -> Option<int>
    decreases data.len() - from,
{
    if from < 0 || from >= data.len() {
        None
    } else if data[from] == 0 {
        Some(from)
    } else {
        first_zero_from(data, from + 1)
    }
}

/// Where the header's format string ends (its NUL terminator), when it is
/// terminated within the accepted length.
pub open spec fn header_terminator(data: Seq<u8>) -> Option<int> {
    match first_zero_from(data, 0) {
        Some(z) => if z <= MAX_HEADER_LEN { Some(z) } else { None },
        None => None,
    }
}

/// The identifier size that a header declares: the low byte of the u32
/// after the format string.
pub open spec fn declared_id_size(data: Seq<u8>, z: int) -> int {
    (be_at(data, z + 1, 4) % 256) as int
}

/// Structural facts that every decoded graph satisfies.
pub open spec fn graph_wf(g: ObjectGraph) -> bool {
    &&& (g.identifier_size == 4 || g.identifier_size == 8)
    &&& forall|id: u64| #[trigger] g.objects@.contains_key(id) ==> {
        &&& g.objects@[id].id == id
        &&& forall|j: int| 0 <= j < g.objects@[id].references@.len() ==> g.objects@[id].references@[j] != 0
    }
    &&& forall|c: u64| #[trigger] g.classes@.contains_key(c) ==> g.classes@[c].class_obj_id == c
    &&& forall|s: u32| #[trigger] g.loaded_classes@.contains_key(s) ==> g.loaded_classes@[s].serial == s
    &&& forall|s: u32| #[trigger] g.stack_traces@.contains_key(s) ==> g.stack_traces@[s].serial == s
    &&& forall|f: u64| #[trigger] g.stack_frames@.contains_key(f) ==> g.stack_frames@[f].frame_id == f
}

#[derive(Clone, Copy)]
struct RawFieldDescriptor {
    name_string_id: u64,
    field_type: u8,
}

struct RawClassInfo {
    super_class_id: u64,
    instance_fields: Vec<RawFieldDescriptor>,
}

struct ParserState {
    graph: ObjectGraph,
    raw_classes: HashMap<u64, RawClassInfo>,
    layout_cache: HashMap<u64, Vec<RawFieldDescriptor>>,
    retain_field_data: bool,
}

impl ParserState {
    spec fn inv(&self) -> bool {
        graph_wf(self.graph)
    }
}

/// A top-level record whose body of `length` bytes starts at `q` is read
/// whole: its fixed layout fits, and a heap dump's sub-records tile it.
pub open spec fn record_ok(d: Seq<u8>, q: int, n: int, tag: u8, length: nat) -> bool {
    if tag == 0x02 {
        q + 8 + 2 * n <= d.len()
    } else {
        &&& q + length <= d.len()
        &&& tag == 0x01 ==> n <= length
        &&& tag == 0x04 ==> 4 * n + 8 <= length
        &&& tag == 0x05 ==> 12 <= length && 12 + be_at(d.subrange(q, q + length), 8, 4) * n <= length
        &&& (tag == 0x0C || tag == 0x1C) ==> segment_ok(d.subrange(q, q + length), 0, n)
    }
}

/// Where the reader stands after a record: a LOAD_CLASS record is read by
/// its fixed layout, every other record by its declared length.
pub open spec fn record_next(q: int, n: int, tag: u8, length: nat) -> int {
    if tag == 0x02 { q + 8 + 2 * n } else { q + length }
}

/// The records from `r` to the end of the image are all read whole.
pub open spec fn records_ok(d: Seq<u8>, r: int, n: int) -> bool
    decreases d.len() - r,
{
    if r < 0 || r >= d.len() {
        r == d.len()
    } else {
        let tag = d[r];
        let length = be_at(d, r + 5, 4);
        &&& r + 9 <= d.len()
        &&& n >= 0
        &&& record_ok(d, r + 9, n, tag, length)
        &&& records_ok(d, record_next(r + 9, n, tag, length), n)
    }
}

/// A STRING record at `p` (body of `length` bytes) read into `g1`: the
/// string under its id, decoded leniently from UTF-8.
pub open spec fn string_record_read(d: Seq<u8>, p: int, n: int, length: nat, g0: ObjectGraph, g1: ObjectGraph) -> bool {
    let id = be_at(d, p, n as nat) as u64;
    &&& g1.strings@ == g0.strings@.insert(id, g1.strings@[id])
    &&& g1.strings@[id]@ == utf8_lossy(d.subrange(p + n, p + length))
    &&& tables_kept(g0, g1)
    &&& g1.loaded_classes@ == g0.loaded_classes@
    &&& g1.stack_frames@ == g0.stack_frames@
    &&& g1.stack_traces@ == g0.stack_traces@
}

/// A LOAD_CLASS record at `p` read into `g1`: the class under its serial.
pub open spec fn load_class_read(d: Seq<u8>, p: int, n: int, g0: ObjectGraph, g1: ObjectGraph) -> bool {
    &&& g1.loaded_classes@ == g0.loaded_classes@.insert(
        be_at(d, p, 4) as u32,
        LoadedClass {
            serial: be_at(d, p, 4) as u32,
            class_obj_id: be_at(d, p + 4, n as nat) as u64,
            name_string_id: be_at(d, p + 8 + n, n as nat) as u64,
        },
    )
    &&& tables_kept(g0, g1)
    &&& g1.strings@ == g0.strings@
    &&& g1.stack_frames@ == g0.stack_frames@
    &&& g1.stack_traces@ == g0.stack_traces@
}

/// A STACK_FRAME record at `p` read into `g1`: the frame under its id,
/// with its method, class and source names looked up in `g0`.
pub open spec fn frame_record_read(d: Seq<u8>, p: int, n: int, length: nat, g0: ObjectGraph, g1: ObjectGraph) -> bool {
    let b = d.subrange(p, p + length);
    let frame_id = be_at(b, 0, n as nat) as u64;
    let method_id = be_at(b, n, n as nat) as u64;
    let source_id = be_at(b, 3 * n, n as nat) as u64;
    let class_serial = be_at(b, 4 * n, 4) as u32;
    let f = g1.stack_frames@[frame_id];
    &&& g1.stack_frames@ == g0.stack_frames@.insert(frame_id, f)
    &&& f.frame_id == frame_id
    &&& f.line_number == be_at(b, 4 * n + 4, 4) as u32 as i32
    &&& f.method_name@ == name_or_placeholder(g0.strings@, method_id, "<unknown_method_"@, method_id as nat)
    &&& f.class_name@ == frame_class_name(g0, class_serial)
    &&& text_view(f.source_file) == frame_source_file(g0, source_id)
    &&& tables_kept(g0, g1)
    &&& g1.strings@ == g0.strings@
    &&& g1.loaded_classes@ == g0.loaded_classes@
    &&& g1.stack_traces@ == g0.stack_traces@
}

/// A STACK_TRACE record at `p` read into `g1`: the trace under its serial.
pub open spec fn trace_record_read(d: Seq<u8>, p: int, n: int, length: nat, g0: ObjectGraph, g1: ObjectGraph) -> bool {
    let b = d.subrange(p, p + length);
    let serial = be_at(b, 0, 4) as u32;
    let count = be_at(b, 8, 4);
    &&& g1.stack_traces@ == g0.stack_traces@.insert(serial, g1.stack_traces@[serial])
    &&& g1.stack_traces@[serial].serial == serial
    &&& g1.stack_traces@[serial].thread_serial == be_at(b, 4, 4) as u32
    &&& g1.stack_traces@[serial].frame_ids@ == trace_frame_ids(b, n as nat, count)
    &&& tables_kept(g0, g1)
    &&& g1.strings@ == g0.strings@
    &&& g1.loaded_classes@ == g0.loaded_classes@
    &&& g1.stack_frames@ == g0.stack_frames@
}

/// What a top-level record of tag `tag`, whose body of `length` bytes
/// starts at `q`, does to a graph; records of other tags leave it as it is.
pub open spec fn record_step(d: Seq<u8>, q: int, n: int, tag: u8, length: nat, retain: bool, g0: ObjectGraph, g1: ObjectGraph) -> bool {
    if tag == 0x01 {
        string_record_read(d, q, n, length, g0, g1)
    } else if tag == 0x02 {
        load_class_read(d, q, n, g0, g1)
    } else if tag == 0x04 {
        frame_record_read(d, q, n, length, g0, g1)
    } else if tag == 0x05 {
        trace_record_read(d, q, n, length, g0, g1)
    } else if tag == 0x0C || tag == 0x1C {
        segment_from(d.subrange(q, q + length), 0, n, retain, g0, g1)
    } else {
        g1 == g0
    }
}

/// Reading the records of `d` from `r` to its end takes graph `g` to `gf`.
pub open spec fn records_from(d: Seq<u8>, r: int, n: int, retain: bool, g: ObjectGraph, gf: ObjectGraph) -> bool
    decreases d.len() - r,
{
    if r < 0 || r >= d.len() {
        gf == g
    } else {
        let tag = d[r];
        let length = be_at(d, r + 5, 4);
        let next = record_next(r + 9, n, tag, length);
        r < next <= d.len() && exists|g1: ObjectGraph|
            #[trigger] record_step(d, r + 9, n, tag, length, retain, g, g1) && records_from(d, next, n, retain, g1, gf)
    }
}

/// A graph with no entries, of identifier size `n`.
pub open spec fn graph_empty(g: ObjectGraph, n: u8) -> bool {
    &&& g.objects@.len() == 0 && g.objects@ == Map::<u64, HeapObject>::empty()
    &&& g.classes@ == Map::<u64, ClassInfo>::empty()
    &&& g.gc_roots@ == Seq::<GcRoot>::empty()
    &&& g.strings@ == Map::<u64, String>::empty()
    &&& g.loaded_classes@ == Map::<u32, LoadedClass>::empty()
    &&& g.stack_traces@ == Map::<u32, StackTrace>::empty()
    &&& g.stack_frames@ == Map::<u64, StackFrame>::empty()
    &&& g.identifier_size == n
}

/// `g` is `pre` once class names and field layouts are resolved: the same
/// objects and tables, and the same classes.
pub open spec fn names_resolved_from(pre: ObjectGraph, g: ObjectGraph) -> bool {
    &&& g.objects@ == pre.objects@
    &&& non_object_tables_kept_but_classes(pre, g)
    &&& g.classes@.dom() == pre.classes@.dom()
    &&& g.identifier_size == pre.identifier_size
}

/// Decodes an HPROF image with default options.
pub fn parse_hprof(data: &[u8]) -> (res: Result<ObjectGraph, CoreError>)
    ensures
        match res {
            Ok(g) => {
                &&& graph_wf(g)
                &&& header_terminator(data@) is Some
                &&& g.identifier_size == declared_id_size(data@, header_terminator(data@)->0)
                &&& forall|id: u64| #[trigger] g.objects@.contains_key(id) ==> g.objects@[id].field_data@.len() == 0
            },
            Err(_) => true,
        },
        header_terminator(data@) is None ==> res is Err,
        (header_terminator(data@) matches Some(z) && z + 13 <= data@.len()
            && declared_id_size(data@, z) != 4 && declared_id_size(data@, z) != 8) ==> (res matches Err(
            CoreError::InvalidInput(m),
        ) && m@ == "unsupported HPROF identifier size: "@ + crate::text::dec_chars(declared_id_size(data@, header_terminator(data@)->0) as nat)),
        (header_terminator(data@) matches Some(z) && data@.len() == z + 13
            && (declared_id_size(data@, z) == 4 || declared_id_size(data@, z) == 8)) ==> res is Ok,
        res is Ok <==> (header_terminator(data@) matches Some(z) && z + 13 <= data@.len()
            && (declared_id_size(data@, z) == 4 || declared_id_size(data@, z) == 8)
            && records_ok(data@, z + 13, declared_id_size(data@, z))),
        res matches Ok(g) ==> exists|g0: ObjectGraph, pre: ObjectGraph| {
            &&& graph_empty(g0, g.identifier_size)
            &&& #[trigger] records_from(data@, header_terminator(data@)->0 + 13, g.identifier_size as int, false, g0, pre)
            &&& names_resolved_from(pre, g)
        },
{
    parse_hprof_with_options(data, ParseOptions::default())
}

/// Decodes an HPROF image into an object graph.
#[verifier::spinoff_prover]
pub fn parse_hprof_with_options(data: &[u8], options: ParseOptions) -> (res: Result<ObjectGraph, CoreError>)
    ensures
        match res {
            Ok(g) => {
                &&& graph_wf(g)
                &&& header_terminator(data@) is Some
                &&& g.identifier_size == declared_id_size(data@, header_terminator(data@)->0)
                &&& !options.retain_field_data ==> forall|id: u64| #[trigger] g.objects@.contains_key(id)
                    ==> g.objects@[id].field_data@.len() == 0
            },
            Err(_) => true,
        },
        header_terminator(data@) is None ==> res is Err,
        (header_terminator(data@) matches Some(z) && z + 5 <= data@.len()
            && declared_id_size(data@, z) != 4 && declared_id_size(data@, z) != 8) ==> res is Err,
        (header_terminator(data@) matches Some(z) && z + 13 <= data@.len()
            && declared_id_size(data@, z) != 4 && declared_id_size(data@, z) != 8) ==> (res matches Err(
            CoreError::InvalidInput(m),
        ) && m@ == "unsupported HPROF identifier size: "@ + crate::text::dec_chars(declared_id_size(data@, header_terminator(data@)->0) as nat)),
        (header_terminator(data@) matches Some(z) && data@.len() == z + 13
            && (declared_id_size(data@, z) == 4 || declared_id_size(data@, z) == 8)) ==> res is Ok,
        res is Ok <==> (header_terminator(data@) matches Some(z) && z + 13 <= data@.len()
            && (declared_id_size(data@, z) == 4 || declared_id_size(data@, z) == 8)
            && records_ok(data@, z + 13, declared_id_size(data@, z))),
        res matches Ok(g) ==> exists|g0: ObjectGraph, pre: ObjectGraph| {
            &&& graph_empty(g0, g.identifier_size)
            &&& #[trigger] records_from(data@, header_terminator(data@)->0 + 13, g.identifier_size as int,
                options.retain_field_data, g0, pre)
            &&& names_resolved_from(pre, g)
        },
{
    let mut reader = ByteReader::new(data);
    let mut header_len: usize = 0;
    loop
        invariant_except_break
            reader.pos == header_len,
        invariant
            reader.wf(),
            reader.data@ == data@,
            header_len <= MAX_HEADER_LEN,
            forall|k: int| 0 <= k < header_len ==> data@[k] != 0,
        ensures
            reader.wf(),
            reader.data@ == data@,
            header_terminator(data@) == Some(header_len as int),
            reader.pos == header_len + 1,
        decreases data@.len() - header_len,
    {
        let b = match reader.read_u8() {
            Ok(b) => b,
            Err(e) => {
                proof {
                    lemma_no_zero_before(data@, 0, header_len as int);
                }
                return Err(e);
            },
        };
        if b == 0 {
            proof {
                lemma_first_zero_at(data@, 0, header_len as int);
            }
            break;
        }
        header_len = header_len + 1;
        if header_len > MAX_HEADER_LEN {
            proof {
                lemma_no_zero_before(data@, 0, header_len as int);
            }
            return Err(CoreError::InvalidInput(string_from_literal("HPROF header exceeded expected length")));
        }
    }
    let ghost z = header_len as int;
    let raw_id_size = reader.read_u32()?;
    proof {
        assert(reader.data@.subrange(z + 1, z + 5) == data@.subrange(z + 1, z + 5));
    }
    let id_size = (raw_id_size % 256) as u8;
    let _timestamp = reader.read_u64()?;
    if id_size != 4 && id_size != 8 {
        return Err(CoreError::InvalidInput(message_with_number("unsupported HPROF identifier size: ", id_size as u64)));
    }
    let ghost header_only = data@.len() == z + 13;
    let mut state = ParserState {
        graph: ObjectGraph::new(id_size),
        raw_classes: HashMap::new(),
        layout_cache: HashMap::new(),
        retain_field_data: options.retain_field_data,
    };
    let ghost g_init = state.graph;
    let ghost n = id_size as int;
    let ghost retain = options.retain_field_data;
    proof {
        assert(graph_empty(g_init, id_size));
    }
    loop
        invariant
            n == id_size as int,
            retain == options.retain_field_data,
            forall|gf: ObjectGraph| #[trigger] records_from(data@, reader.pos as int, n, retain, state.graph, gf)
                ==> records_from(data@, z + 13, n, retain, g_init, gf),
            reader.wf(),
            reader.data@ == data@,
            state.inv(),
            state.graph.identifier_size == id_size,
            state.retain_field_data == options.retain_field_data,
            !options.retain_field_data ==> forall|id: u64| #[trigger] state.graph.objects@.contains_key(id)
                ==> state.graph.objects@[id].field_data@.len() == 0,
            header_only ==> reader.pos == data@.len(),
            header_terminator(data@) == Some(z),
            header_only == (data@.len() == z + 13),
            id_size as int == declared_id_size(data@, z),
            z + 13 <= reader.pos,
            records_ok(data@, z + 13, id_size as int) == records_ok(data@, reader.pos as int, id_size as int),
        ensures
            reader.pos == data@.len(),
        decreases data@.len() - reader.pos,
    {
        if reader.is_at_end() {
            break;
        }
        let ghost r0 = reader.pos as int;
        let ghost g_at = state.graph;
        let tag = reader.read_u8()?;
        let _time_delta = reader.read_u32()?;
        let length = reader.read_u32()?;
        let ghost q = reader.pos as int;
        let res = match tag {
            0x01 => read_string(&mut reader, &mut state, length),
            0x02 => read_load_class(&mut reader, &mut state, id_size),
            0x04 => read_stack_frame(&mut reader, &mut state, id_size, length),
            0x05 => read_stack_trace(&mut reader, &mut state, id_size, length),
            0x0C | 0x1C => read_heap_dump(&mut reader, &mut state, id_size, length),
            _ => reader.skip(length as u64),
        };
        proof {
            assert(q == r0 + 9);
            assert(tag == data@[r0]);
            assert(length as nat == be_at(data@, r0 + 5, 4));
            assert(res is Ok == record_ok(data@, q, id_size as int, tag, length as nat));
            assert(res is Ok ==> reader.pos == record_next(q, id_size as int, tag, length as nat));
            if res is Ok {
                let g1 = state.graph;
                let next = reader.pos as int;
                assert(record_step(data@, q, n, tag, length as nat, retain, g_at, g1));
                assert(r0 < next <= data@.len());
                assert forall|gf: ObjectGraph| #[trigger] records_from(data@, next, n, retain, g1, gf)
                    implies records_from(data@, z + 13, n, retain, g_init, gf) by {
                    assert(record_step(data@, r0 + 9, n, data@[r0], be_at(data@, r0 + 5, 4), retain, g_at, g1));
                    assert(records_from(data@, r0, n, retain, g_at, gf));
                }
            }
        }
        res?;
    }
    let ghost pre = state.graph;
    proof {
        assert(records_from(data@, reader.pos as int, n, retain, pre, pre));
        assert(records_from(data@, z + 13, n, retain, g_init, pre));
    }
    resolve_class_names(&mut state);
    proof {
        assert(names_resolved_from(pre, state.graph));
    }
    Ok(state.graph)
}

proof fn lemma_no_zero_before(data: Seq<u8>, from: int, upto: int)
    requires
        0 <= from <= upto,
        upto >= data.len() || upto > MAX_HEADER_LEN,
        forall|k: int| from <= k < upto && k < data.len() ==> data[k] != 0,
    ensures
        first_zero_from(data, from) is None || first_zero_from(data, from)->0 >= upto,
    decreases data.len() - from,
{
    if from < data.len() && from < upto {
        lemma_no_zero_before(data, from + 1, upto);
    } else {
        lemma_first_zero_ge(data, from);
    }
}

proof fn lemma_first_zero_ge(data: Seq<u8>, from: int)
    ensures
        first_zero_from(data, from) matches Some(k) ==> from <= k < data.len() && data[k] == 0,
    decreases data.len() - from,
{
    if 0 <= from < data.len() && data[from] != 0 {
        lemma_first_zero_ge(data, from + 1);
    }
}

proof fn lemma_first_zero_at(data: Seq<u8>, from: int, at: int)
    requires
        0 <= from <= at < data.len(),
        data[at] == 0,
        forall|k: int| from <= k < at ==> data[k] != 0,
    ensures
        first_zero_from(data, from) == Some(at),
    decreases at - from,
{
    if from < at {
        lemma_first_zero_at(data, from + 1, at);
    }
}

/// An owned copy of a string literal.
pub fn string_from_literal(s: &str) -> (r: String)
    ensures
        r@ == s@,
{
    s.to_owned()
}


/// `prefix` followed by the decimal digits of `n`.
pub fn message_with_number(prefix: &str, n: u64) -> (r: String)
    ensures
        r@ == prefix@ + crate::text::dec_chars(n as nat),
{
    let mut cs: Vec<char> = Vec::new();
    push_str(&mut cs, prefix);
    push_decimal(&mut cs, n);
    string_from_chars(&cs)
}

/// No object of `g` carries field bytes.
pub open spec fn no_field_data(g: ObjectGraph) -> bool {
    forall|id: u64| #[trigger] g.objects@.contains_key(id) ==> g.objects@[id].field_data@.len() == 0
}

/// Common post-state of the record readers.
spec fn reader_step(r0: ByteReader, r1: ByteReader) -> bool {
    &&& r1.wf()
    &&& r1.data@ == r0.data@
    &&& r1.pos >= r0.pos
}

spec fn state_step(s0: ParserState, s1: ParserState) -> bool {
    &&& s1.inv()
    &&& s1.graph.identifier_size == s0.graph.identifier_size
    &&& s1.retain_field_data == s0.retain_field_data
    &&& (!s1.retain_field_data && no_field_data(s0.graph)) ==> no_field_data(s1.graph)
}

/// The tables of `g1` other than those a record reader fills are those of
/// `g0`.
pub open spec fn tables_kept(g0: ObjectGraph, g1: ObjectGraph) -> bool {
    &&& g1.objects@ == g0.objects@
    &&& g1.classes@ == g0.classes@
    &&& g1.gc_roots@ == g0.gc_roots@
}

/// A text that names `id` in `strings`, or `prefix`, `n` and `>` when it
/// has none.
pub open spec fn name_or_placeholder(strings: Map<u64, String>, id: u64, prefix: Seq<char>, n: nat) -> Seq<char> {
    if strings.contains_key(id) { strings[id]@ } else { prefix + crate::text::dec_chars(n) + ">"@ }
}

/// The frame ids listed by a STACK_TRACE body: `count` identifiers after its
/// 12-byte head.
pub open spec fn trace_frame_ids(body: Seq<u8>, id_size: nat, count: nat) -> Seq<u64> {
    Seq::new(count, |k: int| be_at(body, 12 + k * id_size, id_size) as u64)
}

fn read_string(reader: &mut ByteReader, state: &mut ParserState, length: u32) -> (res: Result<(), CoreError>)
    requires
        old(reader).wf(),
        old(state).inv(),
    ensures
        reader_step(*old(reader), *final(reader)),
        state_step(*old(state), *final(state)),
        final(state).graph.objects@ == old(state).graph.objects@,
        ({
            let d = old(reader).data@;
            let p = old(reader).pos as int;
            let n = old(state).graph.identifier_size as int;
            let id = be_at(d, p, n as nat) as u64;
            match res {
                Ok(_) => {
                    &&& n <= length && p + length <= d.len()
                    &&& final(reader).pos == p + length
                    &&& final(state).graph.strings@ == old(state).graph.strings@.insert(id, final(state).graph.strings@[id])
                    &&& final(state).graph.strings@[id]@ == utf8_lossy(d.subrange(p + n, p + length))
                    &&& tables_kept(old(state).graph, final(state).graph)
                    &&& final(state).graph.loaded_classes@ == old(state).graph.loaded_classes@
                    &&& final(state).graph.stack_frames@ == old(state).graph.stack_frames@
                    &&& final(state).graph.stack_traces@ == old(state).graph.stack_traces@
                },
                Err(_) => length < n || p + length > d.len(),
            }
        }),
{
    let id_size = state.graph.identifier_size;
    if length < id_size as u32 {
        return Err(CoreError::InvalidInput(string_from_literal("STRING_IN_UTF8 record shorter than identifier")));
    }
    let id = reader.read_id(id_size)?;
    let str_len = (length - id_size as u32) as usize;
    let ghost p = old(reader).pos as int;
    let buf = reader.read_vec(str_len)?;
    proof {
        assert(buf@ == old(reader).data@.subrange(p + id_size, p + length));
    }
    let value = decode_utf8_lossy(buf.as_slice());
    state.graph.strings.insert(id, value);
    Ok(())
}

fn read_load_class(reader: &mut ByteReader, state: &mut ParserState, id_size: u8) -> (res: Result<(), CoreError>)
    requires
        old(reader).wf(),
        old(state).inv(),
        id_size == old(state).graph.identifier_size,
    ensures
        reader_step(*old(reader), *final(reader)),
        state_step(*old(state), *final(state)),
        final(state).graph.objects@ == old(state).graph.objects@,
        ({
            let d = old(reader).data@;
            let p = old(reader).pos as int;
            let n = id_size as int;
            match res {
                Ok(_) => {
                    &&& p + 8 + 2 * n <= d.len()
                    &&& final(reader).pos == p + 8 + 2 * n
                    &&& final(state).graph.loaded_classes@ == old(state).graph.loaded_classes@.insert(
                        be_at(d, p, 4) as u32,
                        LoadedClass {
                            serial: be_at(d, p, 4) as u32,
                            class_obj_id: be_at(d, p + 4, n as nat) as u64,
                            name_string_id: be_at(d, p + 8 + n, n as nat) as u64,
                        },
                    )
                    &&& tables_kept(old(state).graph, final(state).graph)
                    &&& final(state).graph.strings@ == old(state).graph.strings@
                    &&& final(state).graph.stack_frames@ == old(state).graph.stack_frames@
                    &&& final(state).graph.stack_traces@ == old(state).graph.stack_traces@
                },
                Err(_) => p + 8 + 2 * n > d.len(),
            }
        }),
{
    let serial = reader.read_u32()?;
    let class_obj_id = reader.read_id(id_size)?;
    let _stack_serial = reader.read_u32()?;
    let name_string_id = reader.read_id(id_size)?;
    state.graph.loaded_classes.insert(serial, LoadedClass { serial, class_obj_id, name_string_id });
    Ok(())
}

/// `<prefix{n}>`-style placeholder text.
fn placeholder(prefix: &str, n: u64) -> (r: String)
    ensures
        r@ == prefix@ + crate::text::dec_chars(n as nat) + ">"@,
{
    let mut cs: Vec<char> = Vec::new();
    push_str(&mut cs, prefix);
    push_decimal(&mut cs, n);
    push_str(&mut cs, ">");
    string_from_chars(&cs)
}

/// The class name a STACK_FRAME names through its class serial.
pub open spec fn frame_class_name(g: ObjectGraph, class_serial: u32) -> Seq<char> {
    let fallback = "<unknown_class_serial_"@ + crate::text::dec_chars(class_serial as nat) + ">"@;
    if g.loaded_classes@.contains_key(class_serial) {
        let lc = g.loaded_classes@[class_serial];
        if g.strings@.contains_key(lc.name_string_id) { g.strings@[lc.name_string_id]@ } else { fallback }
    } else {
        fallback
    }
}

/// An optional text as characters.
pub open spec fn text_view(o: Option<String>) -> Option<Seq<char>> {
    match o {
        Some(s) => Some(s@),
        None => None,
    }
}

/// The source file a STACK_FRAME names: none for id 0 or an unknown string.
pub open spec fn frame_source_file(g: ObjectGraph, source_file_id: u64) -> Option<Seq<char>> {
    if source_file_id != 0 && g.strings@.contains_key(source_file_id) {
        Some(g.strings@[source_file_id]@)
    } else {
        None
    }
}

fn read_stack_frame(reader: &mut ByteReader, state: &mut ParserState, id_size: u8, length: u32) -> (res: Result<(), CoreError>)
    requires
        old(reader).wf(),
        old(state).inv(),
        id_size == old(state).graph.identifier_size,
    ensures
        reader_step(*old(reader), *final(reader)),
        state_step(*old(state), *final(state)),
        final(state).graph.objects@ == old(state).graph.objects@,
        ({
            let d = old(reader).data@;
            let p = old(reader).pos as int;
            let n = id_size as int;
            let b = d.subrange(p, p + length);
            let frame_id = be_at(b, 0, n as nat) as u64;
            let method_id = be_at(b, n, n as nat) as u64;
            let source_id = be_at(b, 3 * n, n as nat) as u64;
            let class_serial = be_at(b, 4 * n, 4) as u32;
            let g0 = old(state).graph;
            let f = final(state).graph.stack_frames@[frame_id];
            match res {
                Ok(_) => {
                    &&& p + length <= d.len() && 4 * n + 8 <= length
                    &&& final(reader).pos == p + length
                    &&& final(state).graph.stack_frames@ == g0.stack_frames@.insert(frame_id, f)
                    &&& f.frame_id == frame_id
                    &&& f.line_number == be_at(b, 4 * n + 4, 4) as u32 as i32
                    &&& f.method_name@ == name_or_placeholder(g0.strings@, method_id, "<unknown_method_"@, method_id as nat)
                    &&& f.class_name@ == frame_class_name(g0, class_serial)
                    &&& text_view(f.source_file) == frame_source_file(g0, source_id)
                    &&& tables_kept(g0, final(state).graph)
                    &&& final(state).graph.strings@ == g0.strings@
                    &&& final(state).graph.loaded_classes@ == g0.loaded_classes@
                    &&& final(state).graph.stack_traces@ == g0.stack_traces@
                },
                Err(_) => p + length > d.len() || 4 * n + 8 > length,
            }
        }),
{
    let body = reader.read_vec(length as usize)?;
    let mut cursor = ByteReader::new(body.as_slice());
    let frame_id = cursor.read_id(id_size)?;
    let method_name_id = cursor.read_id(id_size)?;
    let _signature_id = cursor.read_id(id_size)?;
    let source_file_id = cursor.read_id(id_size)?;
    let class_serial = cursor.read_u32()?;
    let line = cursor.read_u32()?;
    let line_number = #[verifier::truncate] (line as i32);
    let method_name = match state.graph.strings.get(&method_name_id) {
        Some(s) => s.clone(),
        None => placeholder("<unknown_method_", method_name_id),
    };
    let class_name = match state.graph.loaded_classes.get(&class_serial) {
        Some(lc) => match state.graph.strings.get(&lc.name_string_id) {
            Some(s) => s.clone(),
            None => placeholder("<unknown_class_serial_", class_serial as u64),
        },
        None => placeholder("<unknown_class_serial_", class_serial as u64),
    };
    let source_file = if source_file_id == 0 {
        None
    } else {
        match state.graph.strings.get(&source_file_id) {
            Some(s) => Some(s.clone()),
            None => None,
        }
    };
    state.graph.stack_frames.insert(
        frame_id,
        StackFrame { frame_id, method_name, class_name, source_file, line_number },
    );
    Ok(())
}

fn read_stack_trace(reader: &mut ByteReader, state: &mut ParserState, id_size: u8, length: u32) -> (res: Result<(), CoreError>)
    requires
        old(reader).wf(),
        old(state).inv(),
        id_size == old(state).graph.identifier_size,
    ensures
        reader_step(*old(reader), *final(reader)),
        state_step(*old(state), *final(state)),
        final(state).graph.objects@ == old(state).graph.objects@,
        ({
            let d = old(reader).data@;
            let p = old(reader).pos as int;
            let n = id_size as int;
            let b = d.subrange(p, p + length);
            let serial = be_at(b, 0, 4) as u32;
            let count = be_at(b, 8, 4);
            let g0 = old(state).graph;
            match res {
                Ok(_) => {
                    &&& p + length <= d.len() && 12 <= length && 12 + count * n <= length
                    &&& final(reader).pos == p + length
                    &&& final(state).graph.stack_traces@ == g0.stack_traces@.insert(
                        serial,
                        final(state).graph.stack_traces@[serial],
                    )
                    &&& final(state).graph.stack_traces@[serial].serial == serial
                    &&& final(state).graph.stack_traces@[serial].thread_serial == be_at(b, 4, 4) as u32
                    &&& final(state).graph.stack_traces@[serial].frame_ids@ == trace_frame_ids(b, n as nat, count)
                    &&& tables_kept(g0, final(state).graph)
                    &&& final(state).graph.strings@ == g0.strings@
                    &&& final(state).graph.loaded_classes@ == g0.loaded_classes@
                    &&& final(state).graph.stack_frames@ == g0.stack_frames@
                },
                Err(_) => p + length > d.len() || 12 > length || 12 + count * n > length,
            }
        }),
{
    let body = reader.read_vec(length as usize)?;
    let mut cursor = ByteReader::new(body.as_slice());
    let serial = cursor.read_u32()?;
    let thread_serial = cursor.read_u32()?;
    let frame_count = cursor.read_u32()?;
    let ghost b = body@;
    let ghost n = id_size as int;
    let mut frame_ids: Vec<u64> = Vec::new();
    let mut k: u32 = 0;
    while k < frame_count
        invariant
            reader_step(*old(reader), *reader),
            *state == *old(state),
            state.inv(),
            cursor.wf(),
            cursor.data@ == b,
            b.len() == length,
            b == old(reader).data@.subrange(old(reader).pos as int, old(reader).pos + length),
            old(reader).pos + length <= old(reader).data@.len(),
            k <= frame_count,
            frame_count as nat == be_at(b, 8, 4),
            cursor.pos == 12 + k * n,
            n == id_size as int,
            frame_ids@ == trace_frame_ids(b, n as nat, k as nat),
            id_size == 4 || id_size == 8,
        decreases frame_count - k,
    {
        proof {
            assert((k + 1) * n == k * n + n) by (nonlinear_arith);
            assert(k * n + n <= frame_count * n) by (nonlinear_arith)
                requires k + 1 <= frame_count, n >= 0;
        }
        let f = cursor.read_id(id_size)?;
        frame_ids.push(f);
        k = k + 1;
        proof {
            assert(frame_ids@ =~= trace_frame_ids(b, n as nat, k as nat));
        }
    }
    state.graph.stack_traces.insert(serial, StackTrace { serial, thread_serial, frame_ids });
    Ok(())
}

/// Where a heap-dump sub-record whose body starts at `q` ends, by its tag;
/// none for an unknown tag or a class dump that lists what it may not.
pub open spec fn sub_record_end(d: Seq<u8>, q: int, n: int, tag: u8) -> Option<int> {
    match fixed_sub_record_len(tag, n) {
        Some(len) => Some(q + len),
        None => if tag == 0x20 {
            class_dump_end(d, q, n, true)
        } else if tag == 0x21 {
            Some(q + 2 * n + 8 + be_at(d, q + 2 * n + 4, 4))
        } else if tag == 0x22 {
            Some(q + 2 * n + 8 + be_at(d, q + n + 4, 4) * n)
        } else if tag == 0x23 {
            Some(q + n + 9 + be_at(d, q + n + 4, 4) * match value_width(d[q + n + 8], n as u8) {
                Some(w) => w as int,
                None => 0,
            })
        } else {
            None
        },
    }
}

/// The sub-records of a heap-dump segment `b`, from `pos` on, are all read
/// whole within it.
pub open spec fn segment_ok(b: Seq<u8>, pos: int, n: int) -> bool
    decreases b.len() - pos,
{
    if pos < 0 || pos >= b.len() {
        pos == b.len()
    } else {
        match sub_record_end(b, pos + 1, n, b[pos]) {
            Some(e) => pos + 1 <= e <= b.len() && segment_ok(b, e, n),
            None => false,
        }
    }
}

/// What a sub-record of tag `sub_tag`, whose body starts at `p`, does to a
/// graph when it is read whole, ending at `pos1`.
pub open spec fn sub_record_step(d: Seq<u8>, p: int, n: int, sub_tag: u8, retain: bool, g0: ObjectGraph, g1: ObjectGraph, pos1: int) -> bool {
    match fixed_sub_record_len(sub_tag, n) {
        Some(len) => {
            &&& pos1 == p + len
            &&& g1.objects@ == g0.objects@
            &&& g1.classes@ == g0.classes@
            &&& g1.strings@ == g0.strings@
            &&& g1.loaded_classes@ == g0.loaded_classes@
            &&& g1.stack_frames@ == g0.stack_frames@
            &&& g1.stack_traces@ == g0.stack_traces@
            &&& g1.gc_roots@ == match root_record(d, p, n, sub_tag) {
                Some(r) => g0.gc_roots@.push(r),
                None => g0.gc_roots@,
            }
        },
        None => if sub_tag == 0x22 {
            obj_array_read(d, p, n, g0, g1, pos1, true)
        } else if sub_tag == 0x23 {
            prim_array_read(d, p, n, retain, g0, g1, pos1, true)
        } else if sub_tag == 0x20 {
            class_dump_read(d, p, n, g0, g1, pos1, true)
        } else if sub_tag == 0x21 {
            instance_dump_read(d, p, n, retain, g0, g1, pos1, true)
        } else {
            false
        },
    }
}

/// Reading the sub-records of a heap-dump segment `b` from `p` to its end
/// takes graph `g` to `gf`: each sub-record is read in turn, where
/// `sub_record_end` puts its end.
pub open spec fn segment_from(b: Seq<u8>, p: int, n: int, retain: bool, g: ObjectGraph, gf: ObjectGraph) -> bool
    decreases b.len() - p,
{
    if p < 0 || p >= b.len() {
        gf == g
    } else {
        match sub_record_end(b, p + 1, n, b[p]) {
            Some(p1) => p < p1 <= b.len() && exists|g1: ObjectGraph|
                #[trigger] sub_record_step(b, p + 1, n, b[p], retain, g, g1, p1) && segment_from(b, p1, n, retain, g1, gf),
            None => false,
        }
    }
}

#[verifier::spinoff_prover]
fn read_heap_dump(reader: &mut ByteReader, state: &mut ParserState, id_size: u8, length: u32) -> (res: Result<(), CoreError>)
    requires
        old(reader).wf(),
        old(state).inv(),
        id_size == old(state).graph.identifier_size,
    ensures
        reader_step(*old(reader), *final(reader)),
        state_step(*old(state), *final(state)),
        res is Ok ==> old(reader).pos + length <= old(reader).data@.len()
            && final(reader).pos == old(reader).pos + length,
        old(reader).pos + length > old(reader).data@.len() ==> res is Err,
        res is Ok <==> old(reader).pos + length <= old(reader).data@.len() && segment_ok(
            old(reader).data@.subrange(old(reader).pos as int, old(reader).pos + length),
            0,
            id_size as int,
        ),
        res is Ok ==> segment_from(
            old(reader).data@.subrange(old(reader).pos as int, old(reader).pos + length),
            0,
            id_size as int,
            old(state).retain_field_data,
            old(state).graph,
            final(state).graph,
        ),
{
    let segment = reader.read_vec(length as usize)?;
    let mut cursor = ByteReader::new(segment.as_slice());
    let ghost s0 = *state;
    let ghost n = id_size as int;
    let ghost retain = state.retain_field_data;
    while !cursor.is_at_end()
        invariant
            n == id_size as int,
            retain == old(state).retain_field_data,
            state.retain_field_data == retain,
            forall|gf: ObjectGraph| #[trigger] segment_from(cursor.data@, cursor.pos as int, n, retain, state.graph, gf)
                ==> segment_from(cursor.data@, 0, n, retain, s0.graph, gf),
            cursor.wf(),
            cursor.data@.len() <= u32::MAX,
            id_size == state.graph.identifier_size,
            s0 == *old(state),
            state_step(s0, *state),
            reader_step(*old(reader), *reader),
            reader.pos == old(reader).pos + length,
            cursor.data@ == old(reader).data@.subrange(old(reader).pos as int, old(reader).pos + length),
            segment_ok(cursor.data@, 0, id_size as int) == segment_ok(cursor.data@, cursor.pos as int, id_size as int),
        decreases cursor.data@.len() - cursor.pos,
    {
        let ghost b = cursor.data@;
        let ghost at = cursor.pos as int;
        let ghost g_at = state.graph;
        let sub_tag = cursor.read_u8()?;
        let r = parse_heap_sub_record(&mut cursor, state, id_size, sub_tag);
        proof {
            assert(sub_tag == b[at]);
            assert(segment_ok(b, at, id_size as int) == (r is Ok && segment_ok(b, cursor.pos as int, id_size as int)));
            if r is Ok {
                let g1 = state.graph;
                let p1 = cursor.pos as int;
                assert(sub_record_step(b, at + 1, n, sub_tag, retain, g_at, g1, p1));
                assert forall|gf: ObjectGraph| #[trigger] segment_from(b, p1, n, retain, g1, gf)
                    implies segment_from(b, 0, n, retain, s0.graph, gf) by {
                    assert(sub_record_step(b, at + 1, n, b[at], retain, g_at, g1, p1));
                    assert(segment_from(b, at, n, retain, g_at, gf));
                }
            }
        }
        r?;
    }
    proof {
        assert(segment_from(cursor.data@, cursor.pos as int, n, retain, state.graph, state.graph));
    }
    Ok(())
}

fn push_root(state: &mut ParserState, object_id: u64, root_type: GcRootType)
    requires
        old(state).inv(),
    ensures
        state_step(*old(state), *final(state)),
        final(state).graph.objects@ == old(state).graph.objects@,
        final(state).graph.gc_roots@ == old(state).graph.gc_roots@.push(GcRoot { object_id, root_type }),
        final(state).graph.classes@ == old(state).graph.classes@,
        final(state).graph.strings@ == old(state).graph.strings@,
        final(state).graph.loaded_classes@ == old(state).graph.loaded_classes@,
        final(state).graph.stack_frames@ == old(state).graph.stack_frames@,
        final(state).graph.stack_traces@ == old(state).graph.stack_traces@,
{
    state.graph.gc_roots.push(GcRoot { object_id, root_type });
}

fn parse_heap_sub_record(reader: &mut ByteReader, state: &mut ParserState, id_size: u8, sub_tag: u8) -> (res: Result<(), CoreError>)
    requires
        old(reader).wf(),
        old(reader).data@.len() <= u32::MAX,
        old(state).inv(),
        id_size == old(state).graph.identifier_size,
    ensures
        reader_step(*old(reader), *final(reader)),
        state_step(*old(state), *final(state)),
        ({
            let d = old(reader).data@;
            let p = old(reader).pos as int;
            let n = id_size as int;
            let g0 = old(state).graph;
            let g1 = final(state).graph;
            match fixed_sub_record_len(sub_tag, n) {
                Some(len) => match res {
                    Ok(_) => {
                        &&& p + len <= d.len()
                        &&& final(reader).pos == p + len
                        &&& g1.objects@ == g0.objects@
                        &&& g1.classes@ == g0.classes@
                        &&& g1.strings@ == g0.strings@
                        &&& g1.loaded_classes@ == g0.loaded_classes@
                        &&& g1.stack_frames@ == g0.stack_frames@
                        &&& g1.stack_traces@ == g0.stack_traces@
                        &&& g1.gc_roots@ == match root_record(d, p, n, sub_tag) {
                            Some(r) => g0.gc_roots@.push(r),
                            None => g0.gc_roots@,
                        }
                    },
                    Err(_) => p + len > d.len(),
                },
                None => if sub_tag == 0x22 {
                    obj_array_read(d, p, n, g0, g1, final(reader).pos as int, res is Ok)
                } else if sub_tag == 0x23 {
                    prim_array_read(d, p, n, old(state).retain_field_data, g0, g1, final(reader).pos as int, res is Ok)
                } else if sub_tag == 0x20 || sub_tag == 0x21 {
                    &&& res is Ok <==> (sub_record_end(d, p, n, sub_tag) is Some
                        && sub_record_end(d, p, n, sub_tag)->0 <= d.len())
                    &&& res is Ok ==> final(reader).pos == sub_record_end(d, p, n, sub_tag)->0
                    &&& sub_tag == 0x20 ==> class_dump_read(d, p, n, g0, g1, final(reader).pos as int, res is Ok)
                    &&& sub_tag == 0x21 ==> instance_dump_read(d, p, n, old(state).retain_field_data, g0, g1,
                        final(reader).pos as int, res is Ok)
                } else {
                    res matches Err(CoreError::Unsupported(m))
                        && m@ == "unsupported HEAP_DUMP sub-tag 0x"@
                            + crate::text::zero_padded(crate::text::hex_chars(sub_tag as nat, true), 2)
                },
            }
        }),
{
    match sub_tag {
        0x01 => {
            let object_id = reader.read_id(id_size)?;
            let _referer = reader.read_id(id_size)?;
            push_root(state, object_id, GcRootType::JniGlobal);
        },
        0x02 => {
            let object_id = reader.read_id(id_size)?;
            let thread_serial = reader.read_u32()?;
            let frame = reader.read_u32()?;
            push_root(state, object_id, GcRootType::JniLocal { thread_serial, frame });
        },
        0x03 => {
            let object_id = reader.read_id(id_size)?;
            let thread_serial = reader.read_u32()?;
            let frame = reader.read_u32()?;
            push_root(state, object_id, GcRootType::JavaFrame { thread_serial, frame });
        },
        0x04 => {
            let object_id = reader.read_id(id_size)?;
            let thread_serial = reader.read_u32()?;
            push_root(state, object_id, GcRootType::NativeStack { thread_serial });
        },
        0x05 => {
            let object_id = reader.read_id(id_size)?;
            push_root(state, object_id, GcRootType::StickyClass);
        },
        0x06 => {
            let object_id = reader.read_id(id_size)?;
            let thread_serial = reader.read_u32()?;
            push_root(state, object_id, GcRootType::ThreadBlock { thread_serial });
        },
        0x07 => {
            let object_id = reader.read_id(id_size)?;
            push_root(state, object_id, GcRootType::MonitorUsed);
        },
        0x08 => {
            let object_id = reader.read_id(id_size)?;
            let thread_serial = reader.read_u32()?;
            let stack_trace_serial = reader.read_u32()?;
            push_root(state, object_id, GcRootType::ThreadObject { thread_serial, stack_trace_serial });
        },
        0x09..=0x10 => {
            let object_id = reader.read_id(id_size)?;
            push_root(state, object_id, GcRootType::Unknown(sub_tag));
        },
        0xFE => {
            let _heap_type = reader.read_u32()?;
            let _name_id = reader.read_id(id_size)?;
        },
        0xFF => {
            let _id = reader.read_id(id_size)?;
            let _stack_serial = reader.read_u32()?;
            let _elements = reader.read_u32()?;
            let _element_type = reader.read_u8()?;
        },
        0x20 => parse_class_dump(reader, state, id_size)?,
        0x21 => parse_instance_dump(reader, state, id_size)?,
        0x22 => parse_obj_array_dump(reader, state, id_size)?,
        0x23 => parse_prim_array_dump(reader, state, id_size)?,
        _ => {
            return Err(CoreError::Unsupported(crate::hprof::overview_parser::message_with_hex_byte("unsupported HEAP_DUMP sub-tag 0x", sub_tag)));
        },
    }
    Ok(())
}

fn skip_field_value(reader: &mut ByteReader, ty: u8, id_size: u8) -> (res: Result<(), CoreError>)
    requires
        old(reader).wf(),
    ensures
        reader_step(*old(reader), *final(reader)),
        res is Ok ==> final(reader).pos == old(reader).pos + match value_width(ty, id_size) {
            Some(w) => w as int,
            None => 0,
        },
        res is Ok <==> old(reader).pos + match value_width(ty, id_size) {
            Some(w) => w as int,
            None => 0,
        } <= old(reader).data@.len(),
{
    let width = match field_value_size(ty, id_size) {
        Some(w) => w,
        None => 0,
    };
    reader.skip(width as u64)
}

/// The bytes taken by one CLASS_DUMP list entry at `e`: constant-pool
/// entries (`kind` 0: index, type, value), static fields (`kind` 1: name,
/// type, value) and instance fields (`kind` 2: name, type). A value of an
/// unknown type takes no bytes when `lenient`, and is refused otherwise.
pub open spec fn entry_width(d: Seq<u8>, e: int, n: int, kind: int, lenient: bool) -> Option<int> {
    let head = if kind == 0 { 3 } else { n + 1 };
    if kind == 2 {
        Some(head)
    } else {
        match value_width(d[e + head - 1], n as u8) {
            Some(w) => Some(head + w),
            None => if lenient { Some(head) } else { None },
        }
    }
}

/// Where `count` entries of a CLASS_DUMP list that starts at `q` end.
pub open spec fn entries_end(d: Seq<u8>, q: int, n: int, count: nat, kind: int, lenient: bool) -> Option<int>
    decreases count,
{
    if count == 0 {
        Some(q)
    } else {
        match entries_end(d, q, n, (count - 1) as nat, kind, lenient) {
            Some(e) => match entry_width(d, e, n, kind, lenient) {
                Some(w) => Some(e + w),
                None => None,
            },
            None => None,
        }
    }
}

/// Where a CLASS_DUMP body at `q` ends: a head of `7 n + 8` bytes, then
/// the counted constant pool, static fields and instance fields.
pub open spec fn class_dump_end(d: Seq<u8>, q: int, n: int, lenient: bool) -> Option<int> {
    let pool_at = q + 7 * n + 8;
    match entries_end(d, pool_at + 2, n, be_at(d, pool_at, 2), 0, lenient) {
        Some(e1) => match entries_end(d, e1 + 2, n, be_at(d, e1, 2), 1, lenient) {
            Some(e2) => entries_end(d, e2 + 2, n, be_at(d, e2, 2), 2, lenient),
            None => None,
        },
        None => None,
    }
}

/// Entry lists only grow: a longer prefix ends no earlier, and a failing
/// prefix fails the whole list.
pub proof fn lemma_entries_grow(d: Seq<u8>, q: int, n: int, i: nat, count: nat, kind: int, lenient: bool)
    requires
        i <= count,
        n >= 0,
    ensures
        entries_end(d, q, n, i, kind, lenient) is None ==> entries_end(d, q, n, count, kind, lenient) is None,
        (entries_end(d, q, n, i, kind, lenient) is Some && entries_end(d, q, n, count, kind, lenient) is Some)
            ==> q <= entries_end(d, q, n, i, kind, lenient)->0 <= entries_end(d, q, n, count, kind, lenient)->0,
    decreases count - i,
{
    if i < count {
        lemma_entries_grow(d, q, n, i, (count - 1) as nat, kind, lenient);
    } else {
        lemma_entries_start(d, q, n, count, kind, lenient);
    }
}

/// A list ends no earlier than it starts.
pub proof fn lemma_entries_start(d: Seq<u8>, q: int, n: int, count: nat, kind: int, lenient: bool)
    requires
        n >= 0,
    ensures
        entries_end(d, q, n, count, kind, lenient) matches Some(a) ==> q <= a,
    decreases count,
{
    if count > 0 {
        lemma_entries_start(d, q, n, (count - 1) as nat, kind, lenient);
    }
}

/// The CLASS_DUMP body at `q` does not fit in `d`, or lists a value of a
/// type it may not.
pub open spec fn dump_unreadable(d: Seq<u8>, q: int, n: int, lenient: bool) -> bool {
    class_dump_end(d, q, n, lenient) is None || class_dump_end(d, q, n, lenient)->0 > d.len()
}

/// The constant pool of a CLASS_DUMP body.
pub open spec fn dump_pool(d: Seq<u8>, q: int, n: int, lenient: bool) -> Option<int> {
    let pool_at = q + 7 * n + 8;
    entries_end(d, pool_at + 2, n, be_at(d, pool_at, 2), 0, lenient)
}

/// The static fields of a CLASS_DUMP body whose pool ends at `e1`.
pub open spec fn dump_statics(d: Seq<u8>, e1: int, n: int, lenient: bool) -> Option<int> {
    entries_end(d, e1 + 2, n, be_at(d, e1, 2), 1, lenient)
}

/// A pool that fails, or leaves no room for the static count, fails the
/// body.
pub proof fn lemma_after_pool(d: Seq<u8>, q: int, n: int, lenient: bool)
    requires
        n >= 0,
        dump_pool(d, q, n, lenient) is None || dump_pool(d, q, n, lenient)->0 + 2 > d.len(),
    ensures
        dump_unreadable(d, q, n, lenient),
{
    if let Some(e1) = dump_pool(d, q, n, lenient) {
        lemma_entries_start(d, e1 + 2, n, be_at(d, e1, 2), 1, lenient);
        if let Some(e2) = dump_statics(d, e1, n, lenient) {
            lemma_entries_start(d, e2 + 2, n, be_at(d, e2, 2), 2, lenient);
        }
    }
}

/// Static fields that fail, or leave no room for the field count, fail the
/// body.
pub proof fn lemma_after_statics(d: Seq<u8>, q: int, n: int, lenient: bool)
    requires
        n >= 0,
        dump_pool(d, q, n, lenient) is Some,
        ({
            let e1 = dump_pool(d, q, n, lenient)->0;
            dump_statics(d, e1, n, lenient) is None || dump_statics(d, e1, n, lenient)->0 + 2 > d.len()
        }),
    ensures
        dump_unreadable(d, q, n, lenient),
{
    let e1 = dump_pool(d, q, n, lenient)->0;
    if let Some(e2) = dump_statics(d, e1, n, lenient) {
        lemma_entries_start(d, e2 + 2, n, be_at(d, e2, 2), 2, lenient);
    }
}

/// A head that does not fit fails the body.
pub proof fn lemma_short_head(d: Seq<u8>, q: int, n: int, lenient: bool)
    requires
        n >= 0,
        q + 7 * n + 10 > d.len(),
    ensures
        dump_unreadable(d, q, n, lenient),
{
    let pool_at = q + 7 * n + 8;
    lemma_entries_start(d, pool_at + 2, n, be_at(d, pool_at, 2), 0, lenient);
    lemma_after_pool(d, q, n, lenient);
}

#[verifier::spinoff_prover]
fn parse_class_dump(reader: &mut ByteReader, state: &mut ParserState, id_size: u8) -> (res: Result<(), CoreError>)
    requires
        old(reader).wf(),
        old(state).inv(),
        id_size == old(state).graph.identifier_size,
    ensures
        reader_step(*old(reader), *final(reader)),
        state_step(*old(state), *final(state)),
        final(state).graph.objects@ == old(state).graph.objects@,
        ({
            let d = old(reader).data@;
            let p = old(reader).pos as int;
            let n = id_size as int;
            let id = be_at(d, p, n as nat) as u64;
            let c = final(state).graph.classes@[id];
            &&& res is Ok ==> {
                &&& p + 7 * n + 10 <= d.len()
                &&& final(state).graph.classes@ == old(state).graph.classes@.insert(id, c)
                &&& c.class_obj_id == id
                &&& c.super_class_id == be_at(d, p + n + 4, n as nat) as u64
                &&& c.class_loader_id == be_at(d, p + 2 * n + 4, n as nat) as u64
                &&& c.instance_size == be_at(d, p + 7 * n + 4, 4) as u32
                &&& c.name is None
                &&& c.instance_fields@.len() == 0
                &&& final(state).graph.gc_roots@ == old(state).graph.gc_roots@
                &&& final(state).graph.strings@ == old(state).graph.strings@
                &&& final(state).graph.loaded_classes@ == old(state).graph.loaded_classes@
                &&& final(state).graph.stack_frames@ == old(state).graph.stack_frames@
                &&& final(state).graph.stack_traces@ == old(state).graph.stack_traces@
            }
            &&& p + 7 * n + 10 > d.len() ==> res is Err
            &&& res is Ok <==> !dump_unreadable(d, p, n, true)
            &&& res is Ok ==> final(reader).pos == class_dump_end(d, p, n, true)->0
        }),
{
    let ghost d = old(reader).data@;
    let ghost q = old(reader).pos as int;
    let ghost n = id_size as int;
    proof {
        if q + 7 * n + 10 > d.len() {
            lemma_short_head(d, q, n, true);
        }
    }
    let class_obj_id = reader.read_id(id_size)?;
    let _stack_serial = reader.read_u32()?;
    let super_class_id = reader.read_id(id_size)?;
    let class_loader_id = reader.read_id(id_size)?;
    let mut k: usize = 0;
    while k < 4
        invariant
            reader_step(*old(reader), *reader),
            *state == *old(state),
            state.inv(),
            reader.wf(),
            reader.data@ == old(reader).data@,
            reader.pos >= old(reader).pos,
            id_size == 4 || id_size == 8,
            k <= 4,
            reader.pos == old(reader).pos + 3 * id_size + 4 + k * id_size,
            d == old(reader).data@,
            q == old(reader).pos as int,
            n == id_size as int,
            q + 7 * n + 10 > d.len() ==> dump_unreadable(d, q, n, true),
        decreases 4 - k,
    {
        let _ = reader.read_id(id_size)?;
        k = k + 1;
    }
    let instance_size = reader.read_u32()?;
    let cp_count = reader.read_u16()?;
    let ghost pool_start = reader.pos as int;
    proof {
        lemma_entries_start(d, pool_start, n, cp_count as nat, 0, true);
    }
    let mut c: u16 = 0;
    while c < cp_count
        invariant
            reader_step(*old(reader), *reader),
            *state == *old(state),
            state.inv(),
            reader.wf(),
            reader.data@ == old(reader).data@,
            reader.pos >= old(reader).pos,
            d == old(reader).data@,
            q == old(reader).pos as int,
            n == id_size as int,
            id_size == 4 || id_size == 8,
            pool_start == q + 7 * n + 10,
            cp_count as nat == be_at(d, q + 7 * n + 8, 2),
            c <= cp_count,
            entries_end(d, pool_start, n, c as nat, 0, true) == Some(reader.pos as int),
        decreases cp_count - c,
    {
        proof {
            lemma_entries_grow(d, pool_start, n, (c + 1) as nat, cp_count as nat, 0, true);
            if entries_end(d, pool_start, n, (c + 1) as nat, 0, true) is None
                || entries_end(d, pool_start, n, (c + 1) as nat, 0, true)->0 > d.len() {
                lemma_after_pool(d, q, n, true);
            }
        }
        let _index = reader.read_u16()?;
        let ty = reader.read_u8()?;
        skip_field_value(reader, ty, id_size)?;
        c = c + 1;
    }
    let ghost e1 = reader.pos as int;
    proof {
        if e1 + 2 > d.len() {
            lemma_after_pool(d, q, n, true);
        }
    }
    let sf_count = reader.read_u16()?;
    proof {
        lemma_entries_start(d, e1 + 2, n, sf_count as nat, 1, true);
    }
    let mut static_references: Vec<u64> = Vec::new();
    let mut c: u16 = 0;
    while c < sf_count
        invariant
            reader_step(*old(reader), *reader),
            *state == *old(state),
            state.inv(),
            reader.wf(),
            reader.data@ == old(reader).data@,
            reader.pos >= old(reader).pos,
            id_size == 4 || id_size == 8,
            d == old(reader).data@,
            q == old(reader).pos as int,
            n == id_size as int,
            dump_pool(d, q, n, true) == Some(e1),
            sf_count as nat == be_at(d, e1, 2),
            c <= sf_count,
            entries_end(d, e1 + 2, n, c as nat, 1, true) == Some(reader.pos as int),
        decreases sf_count - c,
    {
        proof {
            lemma_entries_grow(d, e1 + 2, n, (c + 1) as nat, sf_count as nat, 1, true);
            if entries_end(d, e1 + 2, n, (c + 1) as nat, 1, true) is None
                || entries_end(d, e1 + 2, n, (c + 1) as nat, 1, true)->0 > d.len() {
                lemma_after_statics(d, q, n, true);
            }
        }
        let _name_id = reader.read_id(id_size)?;
        let ty = reader.read_u8()?;
        if ty == 2 {
            let ref_id = reader.read_id(id_size)?;
            if ref_id != 0 {
                static_references.push(ref_id);
            }
        } else {
            skip_field_value(reader, ty, id_size)?;
        }
        c = c + 1;
    }
    let ghost e2 = reader.pos as int;
    proof {
        if e2 + 2 > d.len() {
            lemma_after_statics(d, q, n, true);
        }
    }
    let if_count = reader.read_u16()?;
    proof {
        lemma_entries_start(d, e2 + 2, n, if_count as nat, 2, true);
    }
    let mut instance_fields: Vec<RawFieldDescriptor> = Vec::new();
    let mut c: u16 = 0;
    while c < if_count
        invariant
            reader_step(*old(reader), *reader),
            *state == *old(state),
            state.inv(),
            reader.wf(),
            reader.data@ == old(reader).data@,
            reader.pos >= old(reader).pos,
            id_size == 4 || id_size == 8,
            d == old(reader).data@,
            q == old(reader).pos as int,
            n == id_size as int,
            dump_pool(d, q, n, true) == Some(e1),
            dump_statics(d, e1, n, true) == Some(e2),
            if_count as nat == be_at(d, e2, 2),
            c <= if_count,
            entries_end(d, e2 + 2, n, c as nat, 2, true) == Some(reader.pos as int),
        decreases if_count - c,
    {
        proof {
            lemma_entries_grow(d, e2 + 2, n, (c + 1) as nat, if_count as nat, 2, true);
        }
        let name_string_id = reader.read_id(id_size)?;
        let field_type = reader.read_u8()?;
        instance_fields.push(RawFieldDescriptor { name_string_id, field_type });
        c = c + 1;
    }
    state.raw_classes.insert(class_obj_id, RawClassInfo { super_class_id, instance_fields });
    state.graph.classes.insert(
        class_obj_id,
        ClassInfo {
            class_obj_id,
            super_class_id,
            class_loader_id,
            instance_size,
            name: None,
            instance_fields: Vec::new(),
            static_references,
        },
    );
    Ok(())
}

/// The raw layout of a class, superclass fields first, memoised per class.
fn resolve_layout(
    raw_classes: &HashMap<u64, RawClassInfo>,
    cache: &mut HashMap<u64, Vec<RawFieldDescriptor>>,
    class_id: u64,
    fuel: u64,
) -> (res: Option<Vec<RawFieldDescriptor>>)
    ensures
        match res {
            None => !old(cache)@.contains_key(class_id) && !raw_classes@.contains_key(class_id),
            Some(f) => if old(cache)@.contains_key(class_id) {
                f@ == old(cache)@[class_id]@
            } else {
                &&& raw_classes@.contains_key(class_id)
                &&& f@.len() >= raw_classes@[class_id].instance_fields@.len()
                &&& f@.skip(f@.len() - raw_classes@[class_id].instance_fields@.len())
                    == raw_classes@[class_id].instance_fields@
            },
        },
        res matches Some(f) ==> final(cache)@.contains_key(class_id) && final(cache)@[class_id]@ == f@,
        res is None ==> final(cache)@ == old(cache)@,
    decreases fuel,
{
    match cache.get(&class_id) {
        Some(cached) => return Some(cached.clone()),
        None => {},
    }
    let raw = match raw_classes.get(&class_id) {
        Some(r) => r,
        None => return None,
    };
    let mut fields: Vec<RawFieldDescriptor> = Vec::new();
    if raw.super_class_id != 0 && fuel > 0 {
        match resolve_layout(raw_classes, cache, raw.super_class_id, fuel - 1) {
            Some(super_fields) => {
                let mut i: usize = 0;
                while i < super_fields.len()
                    decreases super_fields.len() - i,
                {
                    fields.push(super_fields[i]);
                    i = i + 1;
                }
            },
            None => {},
        }
    }
    let ghost pre = fields@;
    let mut i: usize = 0;
    while i < raw.instance_fields.len()
        invariant
            i <= raw.instance_fields@.len(),
            fields@ == pre + raw.instance_fields@.take(i as int),
        decreases raw.instance_fields.len() - i,
    {
        fields.push(raw.instance_fields[i]);
        i = i + 1;
        proof {
            assert(fields@ =~= pre + raw.instance_fields@.take(i as int));
        }
    }
    proof {
        assert(raw.instance_fields@.take(i as int) =~= raw.instance_fields@);
        assert(fields@.skip(fields@.len() - raw.instance_fields@.len()) =~= raw.instance_fields@);
    }
    cache.insert(class_id, fields.clone());
    Some(fields)
}

/// The references held by an instance's fields, given the field types in
/// layout order and the field values from `off` on (`rem` bytes of them):
/// each object-typed field whose identifier is not zero gives that
/// identifier, in order. Reading stops at a field of an unknown type or one
/// that does not fit in what is left.
pub open spec fn field_refs(d: Seq<u8>, off: int, rem: int, n: nat, types: Seq<u8>) -> Seq<u64>
    decreases types.len(),
{
    if types.len() == 0 {
        Seq::empty()
    } else {
        match value_width(types[0], n as u8) {
            None => Seq::empty(),
            Some(w) => if w > rem {
                Seq::empty()
            } else {
                let here = if types[0] == 2 {
                    let v = be_at(d, off, n) as u64;
                    if v != 0 { seq![v] } else { Seq::empty() }
                } else {
                    Seq::empty()
                };
                here + field_refs(d, off + w, rem - w, n, types.drop_first())
            },
        }
    }
}

/// The bytes that fields of the given types take, when every type is known.
pub open spec fn types_width(types: Seq<u8>, n: nat) -> Option<nat>
    decreases types.len(),
{
    if types.len() == 0 {
        Some(0)
    } else {
        match (value_width(types[0], n as u8), types_width(types.drop_first(), n)) {
            (Some(w), Some(rest)) => Some((w + rest) as nat),
            _ => None,
        }
    }
}

/// Reading the fields of a layout `a` followed by `b`, when all of `a` is
/// of known types and fits, yields the references of `a` followed by those
/// of `b` read after it: no object field's identifier is lost or repeated.
pub proof fn lemma_field_refs_split(d: Seq<u8>, off: int, rem: int, n: nat, a: Seq<u8>, b: Seq<u8>)
    requires
        types_width(a, n) matches Some(w) && w <= rem,
    ensures
        field_refs(d, off, rem, n, a + b) == field_refs(d, off, rem, n, a) + field_refs(
            d,
            off + types_width(a, n)->0,
            rem - types_width(a, n)->0,
            n,
            b,
        ),
    decreases a.len(),
{
    if a.len() == 0 {
        assert(a + b =~= b);
        assert(Seq::<u64>::empty() + field_refs(d, off, rem, n, b) =~= field_refs(d, off, rem, n, b));
    } else {
        let w = value_width(a[0], n as u8)->0;
        assert((a + b)[0] == a[0]);
        assert((a + b).drop_first() =~= a.drop_first() + b);
        lemma_field_refs_split(d, off + w, rem - w, n, a.drop_first(), b);
        let here = if a[0] == 2 {
            let v = be_at(d, off, n) as u64;
            if v != 0 { seq![v] } else { Seq::<u64>::empty() }
        } else {
            Seq::<u64>::empty()
        };
        let rest_a = field_refs(d, off + w, rem - w, n, a.drop_first());
        let tail = field_refs(d, off + types_width(a, n)->0, rem - types_width(a, n)->0, n, b);
        assert(here + (rest_a + tail) =~= (here + rest_a) + tail);
    }
}

/// One object-typed field that fits gives its identifier as a reference
/// when that is not zero, and nothing otherwise; a field of any other known
/// type that fits gives nothing.
pub proof fn lemma_field_refs_single(d: Seq<u8>, off: int, rem: int, n: nat, t: u8)
    requires
        value_width(t, n as u8) matches Some(w) && w <= rem,
    ensures
        field_refs(d, off, rem, n, seq![t]) == (if t == 2 && be_at(d, off, n) as u64 != 0 {
            seq![be_at(d, off, n) as u64]
        } else {
            Seq::<u64>::empty()
        }),
{
    let w = value_width(t, n as u8)->0;
    assert(seq![t][0] == t);
    assert(seq![t].drop_first() =~= Seq::<u8>::empty());
    assert(field_refs(d, off + w, rem - w, n, seq![t].drop_first()) == Seq::<u64>::empty());
    let here = if t == 2 {
        let v = be_at(d, off, n) as u64;
        if v != 0 { seq![v] } else { Seq::<u64>::empty() }
    } else {
        Seq::<u64>::empty()
    };
    assert(here + Seq::<u64>::empty() =~= here);
}

/// How many of the given field types are object references.
pub open spec fn object_field_count(types: Seq<u8>) -> nat
    decreases types.len(),
{
    if types.len() == 0 {
        0
    } else {
        (if types[0] == 2 { 1nat } else { 0nat }) + object_field_count(types.drop_first())
    }
}

/// Every reference read from an instance's fields is a non-zero identifier,
/// and there are never more of them than object-typed fields.
pub proof fn lemma_field_refs_nonzero(d: Seq<u8>, off: int, rem: int, n: nat, types: Seq<u8>)
    ensures
        forall|j: int| 0 <= j < field_refs(d, off, rem, n, types).len() ==> #[trigger] field_refs(d, off, rem, n, types)[j] != 0,
        field_refs(d, off, rem, n, types).len() <= object_field_count(types),
    decreases types.len(),
{
    if types.len() > 0 {
        match value_width(types[0], n as u8) {
            None => {},
            Some(w) => if w <= rem {
                lemma_field_refs_nonzero(d, off + w, rem - w, n, types.drop_first());
            },
        }
    }
}

/// The field types of a layout.
spec fn layout_types(f: Seq<RawFieldDescriptor>) -> Seq<u8> {
    f.map_values(|x: RawFieldDescriptor| x.field_type)
}

/// Big-endian value of an identifier held in a byte slice.
fn read_id_from_slice(buf: &[u8]) -> (v: u64)
    requires
        buf@.len() <= 8,
    ensures
        v as nat == be_value(buf@),
{
    let mut v: u64 = 0;
    let mut k: usize = 0;
    while k < buf.len()
        invariant
            k <= buf@.len() <= 8,
            v as nat == be_value(buf@.take(k as int)),
        decreases buf.len() - k,
    {
        proof {
            assert(buf@.take(k + 1).drop_last() =~= buf@.take(k as int));
            lemma_be_value_bound(buf@.take(k as int));
            crate::hprof::reader::lemma_pow256_mono(k as nat, 7);
            lemma_pow256_values();
        }
        v = v * 256 + buf[k] as u64;
        k = k + 1;
    }
    proof {
        assert(buf@.take(k as int) =~= buf@);
    }
    v
}

#[verifier::spinoff_prover]
fn parse_instance_dump(reader: &mut ByteReader, state: &mut ParserState, id_size: u8) -> (res: Result<(), CoreError>)
    requires
        old(reader).wf(),
        old(state).inv(),
        id_size == old(state).graph.identifier_size,
    ensures
        reader_step(*old(reader), *final(reader)),
        state_step(*old(state), *final(state)),
        ({
            let d = old(reader).data@;
            let p = old(reader).pos as int;
            let n = id_size as int;
            let id = be_at(d, p, n as nat) as u64;
            let class_id = be_at(d, p + n + 4, n as nat) as u64;
            let start = p + 2 * n + 8;
            let data_len = be_at(d, p + 2 * n + 4, 4);
            let g0 = old(state).graph;
            let o = final(state).graph.objects@[id];
            &&& res is Ok <==> start <= d.len() && start + data_len <= d.len()
            &&& res is Ok ==> {
                &&& final(reader).pos == start + data_len
                &&& final(state).graph.objects@ == g0.objects@.insert(id, o)
                &&& o.id == id
                &&& o.class_id == class_id
                &&& o.kind == ObjectKind::Instance
                &&& o.shallow_size == (if g0.classes@.contains_key(class_id) { g0.classes@[class_id].instance_size as int } else { data_len as int })
                &&& o.field_data@ == (if old(state).retain_field_data { d.subrange(start, start + data_len) } else { Seq::empty() })
                &&& o.references@ == (if final(state).layout_cache@.contains_key(class_id) {
                    field_refs(d, start, data_len as int, n as nat, layout_types(final(state).layout_cache@[class_id]@))
                } else {
                    Seq::empty()
                })
                &&& non_object_tables_kept(g0, final(state).graph)
            }
        }),
{
    let object_id = reader.read_id(id_size)?;
    let _stack_serial = reader.read_u32()?;
    let class_id = reader.read_id(id_size)?;
    let data_len = reader.read_u32()?;
    let ghost start = reader.pos as int;
    let fuel = state.raw_classes.len() as u64;
    let layout = resolve_layout(&state.raw_classes, &mut state.layout_cache, class_id, fuel);
    let ghost s_mid = *state;
    let ghost d0 = old(reader).data@;
    assert(state_step(*old(state), s_mid));
    let mut references: Vec<u64> = Vec::new();
    let field_data = if state.retain_field_data {
        let data = reader.read_vec(data_len as usize)?;
        match &layout {
            Some(fields) => {
                let mut offset: usize = 0;
                let mut i: usize = 0;
                proof {
                    assert(layout_types(fields@).skip(0) =~= layout_types(fields@));
                    assert(references@ + field_refs(d0, start, data_len as int, id_size as nat, layout_types(fields@))
                        =~= field_refs(d0, start, data_len as int, id_size as nat, layout_types(fields@)));
                }
                while i < fields.len()
                    invariant_except_break
                        references@ + field_refs(d0, start + offset, data_len - offset, id_size as nat, layout_types(fields@).skip(i as int))
                            == field_refs(d0, start, data_len as int, id_size as nat, layout_types(fields@)),
                    invariant
                        reader_step(*old(reader), *reader),
                        *state == s_mid,
                        state_step(*old(state), s_mid),
            state.inv(),
                        offset <= data@.len(),
                        i <= fields@.len(),
                        data@ == d0.subrange(start, start + data_len),
                        data@.len() == data_len,
                        0 <= start,
                        start + data_len <= d0.len(),
                        id_size == 4 || id_size == 8,
                        forall|j: int| 0 <= j < references@.len() ==> references@[j] != 0,
                    ensures
                        references@ == field_refs(d0, start, data_len as int, id_size as nat, layout_types(fields@)),
                    decreases fields.len() - i,
                {
                    let ghost ts = layout_types(fields@).skip(i as int);
                    proof {
                        assert(ts[0] == fields@[i as int].field_type);
                        assert(ts.drop_first() =~= layout_types(fields@).skip(i + 1));
                    }
                    let width = match field_value_size(fields[i].field_type, id_size) {
                        Some(w) => w as usize,
                        None => {
                            proof {
                                assert(field_refs(d0, start + offset, data_len - offset, id_size as nat, ts) == Seq::<u64>::empty());
                                assert(references@ + Seq::<u64>::empty() =~= references@);
                            }
                            break;
                        },
                    };
                    if width > data.len() - offset {
                        proof {
                            assert(field_refs(d0, start + offset, data_len - offset, id_size as nat, ts) == Seq::<u64>::empty());
                            assert(references@ + Seq::<u64>::empty() =~= references@);
                        }
                        break;
                    }
                    let ghost refs_before = references@;
                    if fields[i].field_type == 2 && width <= 8 {
                        let slice = crate::hprof::fields::slice_of(&data, offset, width);
                        proof {
                            assert(slice@ =~= d0.subrange(start + offset, start + offset + width));
                        }
                        let ref_id = read_id_from_slice(slice.as_slice());
                        if ref_id != 0 {
                            references.push(ref_id);
                        }
                    }
                    proof {
                        let here = if ts[0] == 2 {
                            let v = be_at(d0, start + offset, id_size as nat) as u64;
                            if v != 0 { seq![v] } else { Seq::<u64>::empty() }
                        } else {
                            Seq::<u64>::empty()
                        };
                        assert(references@ =~= refs_before + here);
                        assert(refs_before + (here + field_refs(d0, start + offset + width, data_len - offset - width, id_size as nat, ts.drop_first()))
                            =~= (refs_before + here) + field_refs(d0, start + offset + width, data_len - offset - width, id_size as nat, ts.drop_first()));
                    }
                    offset = offset + width;
                    i = i + 1;
                }
                proof {
                    if i == fields.len() {
                        assert(layout_types(fields@).skip(i as int) =~= Seq::<u8>::empty());
                        assert(references@ + Seq::<u64>::empty() =~= references@);
                    }
                }
            },
            None => {},
        }
        data
    } else {
        match &layout {
            Some(fields) => {
                let mut consumed: u32 = 0;
                let mut i: usize = 0;
                proof {
                    assert(layout_types(fields@).skip(0) =~= layout_types(fields@));
                    assert(references@ + field_refs(d0, start, data_len as int, id_size as nat, layout_types(fields@))
                        =~= field_refs(d0, start, data_len as int, id_size as nat, layout_types(fields@)));
                }
                while i < fields.len()
                    invariant_except_break
                        references@ + field_refs(d0, start + consumed, data_len - consumed, id_size as nat, layout_types(fields@).skip(i as int))
                            == field_refs(d0, start, data_len as int, id_size as nat, layout_types(fields@)),
                    invariant
                        reader_step(*old(reader), *reader),
                        *state == s_mid,
                        state_step(*old(state), s_mid),
            state.inv(),
                        reader.wf(),
                        reader.data@ == old(reader).data@,
                        reader.pos >= old(reader).pos,
                        reader.pos == start + consumed,
                        start == old(reader).pos + 2 * id_size + 8,
                        data_len as nat == be_at(old(reader).data@, old(reader).pos + 2 * id_size + 4, 4),
                        consumed <= data_len,
                        id_size == 4 || id_size == 8,
                        i <= fields@.len(),
                        d0 == old(reader).data@,
                        forall|j: int| 0 <= j < references@.len() ==> references@[j] != 0,
                    ensures
                        references@ == field_refs(d0, start, data_len as int, id_size as nat, layout_types(fields@)),
                    decreases fields.len() - i,
                {
                    let ghost ts = layout_types(fields@).skip(i as int);
                    proof {
                        assert(ts[0] == fields@[i as int].field_type);
                        assert(ts.drop_first() =~= layout_types(fields@).skip(i + 1));
                    }
                    let width = match field_value_size(fields[i].field_type, id_size) {
                        Some(w) => w as u32,
                        None => {
                            proof {
                                assert(field_refs(d0, start + consumed, data_len - consumed, id_size as nat, ts) == Seq::<u64>::empty());
                                assert(references@ + Seq::<u64>::empty() =~= references@);
                            }
                            break;
                        },
                    };
                    if width > data_len - consumed {
                        proof {
                            assert(field_refs(d0, start + consumed, data_len - consumed, id_size as nat, ts) == Seq::<u64>::empty());
                            assert(references@ + Seq::<u64>::empty() =~= references@);
                        }
                        break;
                    }
                    let ghost refs_before = references@;
                    if fields[i].field_type == 2 {
                        let ref_id = reader.read_id(id_size)?;
                        if ref_id != 0 {
                            references.push(ref_id);
                        }
                    } else {
                        reader.skip(width as u64)?;
                    }
                    proof {
                        let here = if ts[0] == 2 {
                            let v = be_at(d0, start + consumed, id_size as nat) as u64;
                            if v != 0 { seq![v] } else { Seq::<u64>::empty() }
                        } else {
                            Seq::<u64>::empty()
                        };
                        assert(references@ =~= refs_before + here);
                        assert(refs_before + (here + field_refs(d0, start + consumed + width, data_len - consumed - width, id_size as nat, ts.drop_first()))
                            =~= (refs_before + here) + field_refs(d0, start + consumed + width, data_len - consumed - width, id_size as nat, ts.drop_first()));
                    }
                    consumed = consumed + width;
                    i = i + 1;
                }
                proof {
                    if i == fields.len() {
                        assert(layout_types(fields@).skip(i as int) =~= Seq::<u8>::empty());
                        assert(references@ + Seq::<u64>::empty() =~= references@);
                    }
                }
                if consumed < data_len {
                    reader.skip((data_len - consumed) as u64)?;
                }
            },
            None => {
                reader.skip(data_len as u64)?;
            },
        }
        Vec::new()
    };
    let shallow_size = match state.graph.classes.get(&class_id) {
        Some(c) => c.instance_size,
        None => data_len,
    };
    state.graph.objects.insert(
        object_id,
        HeapObject {
            id: object_id,
            class_id,
            shallow_size,
            references,
            field_data,
            kind: ObjectKind::Instance,
        },
    );
    Ok(())
}

/// The non-zero identifiers among the first `k` of those stored from
/// `start` on, `n` bytes each, in order.
pub open spec fn nonzero_ids(d: Seq<u8>, start: int, n: nat, k: nat) -> Seq<u64>
    decreases k,
{
    if k == 0 {
        Seq::empty()
    } else {
        let prev = nonzero_ids(d, start, n, (k - 1) as nat);
        let v = be_at(d, start + (k - 1) * n, n) as u64;
        if v != 0 { prev.push(v) } else { prev }
    }
}

/// The references of an object array are exactly its non-zero elements: an
/// identifier is among them iff it is not zero and some element holds it.
pub proof fn lemma_nonzero_ids_members(d: Seq<u8>, start: int, n: nat, count: nat, x: u64)
    ensures
        nonzero_ids(d, start, n, count).contains(x) <==> (x != 0 && exists|k: int|
            0 <= k < count && #[trigger] be_at(d, start + k * n, n) as u64 == x),
    decreases count,
{
    if count > 0 {
        lemma_nonzero_ids_members(d, start, n, (count - 1) as nat, x);
        let prev = nonzero_ids(d, start, n, (count - 1) as nat);
        let v = be_at(d, start + (count - 1) * n, n) as u64;
        if v != 0 {
            assert(prev.push(v).contains(x) <==> (prev.contains(x) || x == v)) by {
                if prev.contains(x) {
                    let j = choose|j: int| 0 <= j < prev.len() && prev[j] == x;
                    assert(prev.push(v)[j] == x);
                }
                if x == v {
                    assert(prev.push(v)[prev.len() as int] == x);
                }
                if prev.push(v).contains(x) {
                    let j = choose|j: int| 0 <= j < prev.len() + 1 && prev.push(v)[j] == x;
                    if j < prev.len() {
                        assert(prev[j] == x);
                    }
                }
            }
        }
        if x != 0 && (exists|k: int| 0 <= k < count && #[trigger] be_at(d, start + k * n, n) as u64 == x) {
            let k = choose|k: int| 0 <= k < count && #[trigger] be_at(d, start + k * n, n) as u64 == x;
            if k < count - 1 {
                assert(exists|k2: int| 0 <= k2 < count - 1 && #[trigger] be_at(d, start + k2 * n, n) as u64 == x);
            }
        }
    }
}

/// The tables other than `objects` and `classes` are those of `g0`.
pub open spec fn non_object_tables_kept_but_classes(g0: ObjectGraph, g1: ObjectGraph) -> bool {
    &&& g1.gc_roots@ == g0.gc_roots@
    &&& g1.strings@ == g0.strings@
    &&& g1.loaded_classes@ == g0.loaded_classes@
    &&& g1.stack_frames@ == g0.stack_frames@
    &&& g1.stack_traces@ == g0.stack_traces@
}

/// The tables other than `objects` are those of `g0`.
pub open spec fn non_object_tables_kept(g0: ObjectGraph, g1: ObjectGraph) -> bool {
    &&& g1.classes@ == g0.classes@
    &&& g1.gc_roots@ == g0.gc_roots@
    &&& g1.strings@ == g0.strings@
    &&& g1.loaded_classes@ == g0.loaded_classes@
    &&& g1.stack_frames@ == g0.stack_frames@
    &&& g1.stack_traces@ == g0.stack_traces@
}

/// What a CLASS_DUMP body at `p` (identifier size `n`) does to a graph,
/// and where it ends; `ok` is whether it was read whole. The class is
/// recorded under its id with its superclass, loader and instance size;
/// its name comes later, from LOAD_CLASS.
pub open spec fn class_dump_read(d: Seq<u8>, p: int, n: int, g0: ObjectGraph, g1: ObjectGraph, pos1: int, ok: bool) -> bool {
    let id = be_at(d, p, n as nat) as u64;
    let c = g1.classes@[id];
    &&& g1.objects@ == g0.objects@
    &&& ok <==> !dump_unreadable(d, p, n, true)
    &&& ok ==> {
        &&& pos1 == class_dump_end(d, p, n, true)->0
        &&& g1.classes@ == g0.classes@.insert(id, c)
        &&& c.class_obj_id == id
        &&& c.super_class_id == be_at(d, p + n + 4, n as nat) as u64
        &&& c.class_loader_id == be_at(d, p + 2 * n + 4, n as nat) as u64
        &&& c.instance_size == be_at(d, p + 7 * n + 4, 4) as u32
        &&& c.name is None
        &&& c.instance_fields@.len() == 0
        &&& non_object_tables_kept_but_classes(g0, g1)
    }
}

/// What an INSTANCE_DUMP body at `p` does to a graph, and where it ends:
/// the object is recorded under its id, sized by its class when the class
/// is known and by its field bytes otherwise, keeping those bytes when
/// field data is retained.
pub open spec fn instance_dump_read(d: Seq<u8>, p: int, n: int, retain: bool, g0: ObjectGraph, g1: ObjectGraph, pos1: int, ok: bool) -> bool {
    let id = be_at(d, p, n as nat) as u64;
    let class_id = be_at(d, p + n + 4, n as nat) as u64;
    let start = p + 2 * n + 8;
    let data_len = be_at(d, p + 2 * n + 4, 4);
    let o = g1.objects@[id];
    &&& ok <==> start <= d.len() && start + data_len <= d.len()
    &&& ok ==> {
        &&& pos1 == start + data_len
        &&& g1.objects@ == g0.objects@.insert(id, o)
        &&& o.id == id
        &&& o.class_id == class_id
        &&& o.kind == ObjectKind::Instance
        &&& o.shallow_size == (if g0.classes@.contains_key(class_id) { g0.classes@[class_id].instance_size as int } else { data_len as int })
        &&& o.field_data@ == (if retain { d.subrange(start, start + data_len) } else { Seq::empty() })
        &&& non_object_tables_kept(g0, g1)
    }
}

/// What an OBJECT_ARRAY_DUMP body at `p` (identifier size `n`) does to a
/// graph, and where it ends; `ok` is whether it was read whole.
pub open spec fn obj_array_read(d: Seq<u8>, p: int, n: int, g0: ObjectGraph, g1: ObjectGraph, pos1: int, ok: bool) -> bool {
    let count = be_at(d, p + n + 4, 4);
    let start = p + 2 * n + 8;
    let id = be_at(d, p, n as nat) as u64;
    let o = g1.objects@[id];
    if ok {
        &&& start + count * n <= d.len()
        &&& pos1 == start + count * n
        &&& g1.objects@ == g0.objects@.insert(id, o)
        &&& o.id == id
        &&& o.class_id == be_at(d, p + n + 8, n as nat) as u64
        &&& o.shallow_size == count * n
        &&& o.references@ == nonzero_ids(d, start, n as nat, count)
        &&& o.field_data@.len() == 0
        &&& o.kind == ObjectKind::ObjectArray { length: count as u32 }
        &&& non_object_tables_kept(g0, g1)
    } else {
        start > d.len() || start + count * n > d.len()
    }
}

/// What a PRIMITIVE_ARRAY_DUMP body at `p` does to a graph, and where it
/// ends; its bytes are kept for small byte and char arrays when field data
/// is retained.
pub open spec fn prim_array_read(d: Seq<u8>, p: int, n: int, retain: bool, g0: ObjectGraph, g1: ObjectGraph, pos1: int, ok: bool) -> bool {
    let count = be_at(d, p + n + 4, 4);
    let ty = d[p + n + 8];
    let width = match value_width(ty, n as u8) { Some(w) => w as int, None => 0 };
    let total = count * width;
    let start = p + n + 9;
    let id = be_at(d, p, n as nat) as u64;
    let o = g1.objects@[id];
    let retained = retain && (ty == 8 || ty == 5) && total <= MAX_RETAINED_PRIMITIVE_ARRAY_BYTES;
    if ok {
        &&& start + total <= d.len()
        &&& pos1 == start + total
        &&& g1.objects@ == g0.objects@.insert(id, o)
        &&& o.id == id
        &&& o.class_id == 0
        &&& o.shallow_size == total as u32
        &&& o.references@.len() == 0
        &&& o.field_data@ == (if retained { d.subrange(start, start + total) } else { Seq::empty() })
        &&& o.kind == ObjectKind::PrimitiveArray { element_type: ty, length: count as u32 }
        &&& non_object_tables_kept(g0, g1)
    } else {
        start > d.len() || start + total > d.len()
    }
}

/// The length of a heap-dump sub-record that holds a GC root or is skipped
/// (heap info, primitive array without data), by its tag.
pub open spec fn fixed_sub_record_len(tag: u8, n: int) -> Option<int> {
    if tag == 0x01 { Some(2 * n) }
    else if tag == 0x02 || tag == 0x03 || tag == 0x08 { Some(n + 8) }
    else if tag == 0x04 || tag == 0x06 { Some(n + 4) }
    else if tag == 0x05 || tag == 0x07 || (0x09 <= tag <= 0x10) { Some(n) }
    else if tag == 0xFE { Some(n + 4) }
    else if tag == 0xFF { Some(n + 9) }
    else { None }
}

/// The GC root a fixed-length sub-record at `p` declares, if any.
pub open spec fn root_record(d: Seq<u8>, p: int, n: int, tag: u8) -> Option<GcRoot> {
    let object_id = be_at(d, p, n as nat) as u64;
    let a = be_at(d, p + n, 4) as u32;
    let b = be_at(d, p + n + 4, 4) as u32;
    let ty = if tag == 0x01 { Some(GcRootType::JniGlobal) }
        else if tag == 0x02 { Some(GcRootType::JniLocal { thread_serial: a, frame: b }) }
        else if tag == 0x03 { Some(GcRootType::JavaFrame { thread_serial: a, frame: b }) }
        else if tag == 0x04 { Some(GcRootType::NativeStack { thread_serial: a }) }
        else if tag == 0x05 { Some(GcRootType::StickyClass) }
        else if tag == 0x06 { Some(GcRootType::ThreadBlock { thread_serial: a }) }
        else if tag == 0x07 { Some(GcRootType::MonitorUsed) }
        else if tag == 0x08 { Some(GcRootType::ThreadObject { thread_serial: a, stack_trace_serial: b }) }
        else if 0x09 <= tag <= 0x10 { Some(GcRootType::Unknown(tag)) }
        else { None };
    match ty {
        Some(t) => Some(GcRoot { object_id, root_type: t }),
        None => None,
    }
}

fn parse_obj_array_dump(reader: &mut ByteReader, state: &mut ParserState, id_size: u8) -> (res: Result<(), CoreError>)
    requires
        old(reader).wf(),
        old(reader).data@.len() <= u32::MAX,
        old(state).inv(),
        id_size == old(state).graph.identifier_size,
    ensures
        reader_step(*old(reader), *final(reader)),
        state_step(*old(state), *final(state)),
        obj_array_read(old(reader).data@, old(reader).pos as int, id_size as int, old(state).graph,
            final(state).graph, final(reader).pos as int, res is Ok),
{
    let array_id = reader.read_id(id_size)?;
    let _stack_serial = reader.read_u32()?;
    let num_elements = reader.read_u32()?;
    let array_class_id = reader.read_id(id_size)?;
    let ghost d = old(reader).data@;
    let ghost n = id_size as int;
    let ghost start = reader.pos;
    let mut references: Vec<u64> = Vec::new();
    let mut k: u32 = 0;
    while k < num_elements
        invariant
            reader_step(*old(reader), *reader),
            *state == *old(state),
            state.inv(),
            reader.wf(),
            reader.data@ == old(reader).data@,
            reader.pos == start + k * id_size,
            start >= old(reader).pos,
            start == old(reader).pos + 2 * n + 8,
            d == old(reader).data@,
            n == id_size as int,
            num_elements as nat == be_at(d, old(reader).pos + n + 4, 4),
            k <= num_elements,
            id_size == 4 || id_size == 8,
            forall|j: int| 0 <= j < references@.len() ==> references@[j] != 0,
            references@ == nonzero_ids(d, start as int, n as nat, k as nat),
        decreases num_elements - k,
    {
        proof {
            assert((k + 1) * n == k * n + n) by (nonlinear_arith);
            assert(k * n + n <= num_elements * n) by (nonlinear_arith)
                requires k + 1 <= num_elements, n >= 0;
        }
        let elem = reader.read_id(id_size)?;
        if elem != 0 {
            references.push(elem);
        }
        k = k + 1;
    }
    proof {
        assert(num_elements * id_size <= reader.data@.len());
    }
    let shallow_size = num_elements * id_size as u32;
    state.graph.objects.insert(
        array_id,
        HeapObject {
            id: array_id,
            class_id: array_class_id,
            shallow_size,
            references,
            field_data: Vec::new(),
            kind: ObjectKind::ObjectArray { length: num_elements },
        },
    );
    Ok(())
}

fn parse_prim_array_dump(reader: &mut ByteReader, state: &mut ParserState, id_size: u8) -> (res: Result<(), CoreError>)
    requires
        old(reader).wf(),
        old(reader).data@.len() <= u32::MAX,
        old(state).inv(),
        id_size == old(state).graph.identifier_size,
    ensures
        reader_step(*old(reader), *final(reader)),
        state_step(*old(state), *final(state)),
        prim_array_read(old(reader).data@, old(reader).pos as int, id_size as int, old(state).retain_field_data,
            old(state).graph, final(state).graph, final(reader).pos as int, res is Ok),
{
    let ghost d = old(reader).data@;
    let array_id = reader.read_id(id_size)?;
    let _stack_serial = reader.read_u32()?;
    let num_elements = reader.read_u32()?;
    let element_type = reader.read_u8()?;
    let elem_width: u64 = match field_value_size(element_type, id_size) {
        Some(w) => w as u64,
        None => 0,
    };
    proof {
        assert(num_elements as u64 * elem_width <= 0xffff_ffffu64 * 8) by (nonlinear_arith)
            requires
                elem_width <= 8,
                num_elements <= 0xffff_ffffu32,
        ;
    }
    let total_data = num_elements as u64 * elem_width;
    let retain_data = state.retain_field_data && (element_type == 8 || element_type == 5)
        && total_data <= MAX_RETAINED_PRIMITIVE_ARRAY_BYTES;
    let field_data = if retain_data {
        reader.read_vec(total_data as usize)?
    } else {
        reader.skip(total_data)?;
        Vec::new()
    };
    proof {
        assert(total_data == num_elements * elem_width);
    }
    let shallow_size = #[verifier::truncate] (total_data as u32);
    state.graph.objects.insert(
        array_id,
        HeapObject {
            id: array_id,
            class_id: 0,
            shallow_size,
            references: Vec::new(),
            field_data,
            kind: ObjectKind::PrimitiveArray { element_type, length: num_elements },
        },
    );
    Ok(())
}

/// Attaches class names (from LOAD_CLASS and the string table) and named
/// field descriptors to every dumped class.
/// Some LOAD_CLASS record names class `c` through a known string.
pub open spec fn nameable(g: ObjectGraph, c: u64) -> bool {
    exists|s: u32| #[trigger] g.loaded_classes@.contains_key(s) && g.loaded_classes@[s].class_obj_id == c
        && g.strings@.contains_key(g.loaded_classes@[s].name_string_id)
}

/// Some LOAD_CLASS record names class `c` `n` through a known string.
pub open spec fn named_by(g: ObjectGraph, c: u64, n: Seq<char>) -> bool {
    exists|s: u32| #[trigger] g.loaded_classes@.contains_key(s) && g.loaded_classes@[s].class_obj_id == c
        && g.strings@.contains_key(g.loaded_classes@[s].name_string_id)
        && g.strings@[g.loaded_classes@[s].name_string_id]@ == n
}

/// The name of a field whose name string is `id`, where it is known.
pub open spec fn field_name_view(g: ObjectGraph, id: u64) -> Option<Seq<char>> {
    if g.strings@.contains_key(id) { Some(g.strings@[id]@) } else { None }
}

/// `ci` is `c0` with its name and its named instance fields resolved from
/// `g` and the raw field list `raw`.
spec fn class_resolved(g: ObjectGraph, c: u64, c0: ClassInfo, ci: ClassInfo, raw: Seq<RawFieldDescriptor>) -> bool {
    &&& ci.class_obj_id == c0.class_obj_id
    &&& ci.super_class_id == c0.super_class_id
    &&& ci.class_loader_id == c0.class_loader_id
    &&& ci.instance_size == c0.instance_size
    &&& ci.static_references@ == c0.static_references@
    &&& match ci.name {
        Some(n) => named_by(g, c, n@),
        None => !nameable(g, c),
    }
    &&& ci.instance_fields@.len() == raw.len()
    &&& forall|k: int| 0 <= k < raw.len() ==> {
        &&& (#[trigger] ci.instance_fields@[k]).field_type == raw[k].field_type
        &&& text_view(ci.instance_fields@[k].name) == field_name_view(g, raw[k].name_string_id)
    }
}

proof fn lemma_seq_push_contains(s: Seq<u64>, x: u64, c: u64)
    ensures
        s.push(x).contains(c) <==> (s.contains(c) || c == x),
{
    if s.contains(c) {
        let k = choose|k: int| 0 <= k < s.len() && s[k] == c;
        assert(s.push(x)[k] == c);
    }
    if c == x {
        assert(s.push(x)[s.len() as int] == c);
    }
    if s.push(x).contains(c) {
        let k = choose|k: int| 0 <= k < s.len() + 1 && s.push(x)[k] == c;
        if k < s.len() {
            assert(s[k] == c);
        }
    }
}

#[verifier::spinoff_prover]
fn resolve_class_names(state: &mut ParserState)
    requires
        old(state).inv(),
    ensures
        state_step(*old(state), *final(state)),
        final(state).graph.objects@ == old(state).graph.objects@,
        non_object_tables_kept_but_classes(old(state).graph, final(state).graph),
        final(state).graph.classes@.dom() == old(state).graph.classes@.dom(),
        forall|c: u64| #[trigger] old(state).graph.classes@.contains_key(c) ==> if old(state).raw_classes@.contains_key(c) {
            class_resolved(old(state).graph, c, old(state).graph.classes@[c], final(state).graph.classes@[c],
                old(state).raw_classes@[c].instance_fields@)
        } else {
            final(state).graph.classes@[c] == old(state).graph.classes@[c]
        },
{
    let ghost g = state.graph;
    let mut class_names: HashMap<u64, String> = HashMap::new();
    let serials = map_keys(&state.graph.loaded_classes);
    let mut i: usize = 0;
    while i < serials.len()
        invariant
            *state == *old(state),
            g == old(state).graph,
            serials@.to_set() == g.loaded_classes@.dom(),
            forall|k: int| 0 <= k < serials@.len() ==> g.loaded_classes@.contains_key(#[trigger] serials@[k]),
            i <= serials@.len(),
            forall|c: u64| #[trigger] class_names@.contains_key(c) ==> named_by(g, c, class_names@[c]@),
            forall|j: int| 0 <= j < i ==> {
                let lc = g.loaded_classes@[#[trigger] serials@[j]];
                g.strings@.contains_key(lc.name_string_id) ==> class_names@.contains_key(lc.class_obj_id)
            },
        decreases serials.len() - i,
    {
        match state.graph.loaded_classes.get(&serials[i]) {
            Some(lc) => match state.graph.strings.get(&lc.name_string_id) {
                Some(name) => {
                    let ghost before = class_names@;
                    class_names.insert(lc.class_obj_id, name.clone());
                    proof {
                        assert(named_by(g, lc.class_obj_id, name@));
                        assert forall|c: u64| #[trigger] class_names@.contains_key(c) implies named_by(g, c, class_names@[c]@) by {
                            if c != lc.class_obj_id {
                                assert(before.contains_key(c));
                            }
                        }
                    }
                },
                None => {},
            },
            None => {},
        }
        i = i + 1;
    }
    proof {
        assert forall|c: u64| nameable(g, c) implies #[trigger] class_names@.contains_key(c) by {
            let s = choose|s: u32| #[trigger] g.loaded_classes@.contains_key(s) && g.loaded_classes@[s].class_obj_id == c
                && g.strings@.contains_key(g.loaded_classes@[s].name_string_id);
            assert(serials@.to_set().contains(s));
            let j = choose|j: int| 0 <= j < serials@.len() && serials@[j] == s;
            assert(g.loaded_classes@[serials@[j]].class_obj_id == c);
        }
    }
    let ids = map_keys(&state.raw_classes);
    let ghost s0 = *state;
    let mut i: usize = 0;
    while i < ids.len()
        invariant
            state.inv(),
            state_step(*old(state), *state),
            state.graph.objects@ == old(state).graph.objects@,
            s0 == *old(state),
            g == old(state).graph,
            state.raw_classes@ == s0.raw_classes@,
            non_object_tables_kept_but_classes(g, state.graph),
            state.graph.classes@.dom() == g.classes@.dom(),
            ids@.to_set() == s0.raw_classes@.dom(),
            ids@.no_duplicates(),
            i <= ids@.len(),
            forall|c: u64| #[trigger] class_names@.contains_key(c) ==> named_by(g, c, class_names@[c]@),
            forall|c: u64| nameable(g, c) ==> #[trigger] class_names@.contains_key(c),
            forall|c: u64| #[trigger] g.classes@.contains_key(c) ==> if ids@.take(i as int).contains(c) {
                class_resolved(g, c, g.classes@[c], state.graph.classes@[c], s0.raw_classes@[c].instance_fields@)
            } else {
                state.graph.classes@[c] == g.classes@[c]
            },
        decreases ids.len() - i,
    {
        let class_id = ids[i];
        let ghost cls0 = state.graph.classes@;
        proof {
            assert(ids@.take(i + 1) =~= ids@.take(i as int).push(class_id));
            assert(!ids@.take(i as int).contains(class_id)) by {
                if ids@.take(i as int).contains(class_id) {
                    let k = choose|k: int| 0 <= k < i && ids@.take(i as int)[k] == class_id;
                    assert(ids@[k] == ids@[i as int]);
                }
            }
        }
        match state.raw_classes.get(&class_id) {
            Some(raw) => {
                let ghost before = state.graph.classes@;
                match state.graph.classes.remove(&class_id) {
                    Some(ci) => {
                        let name = match class_names.get(&class_id) {
                            Some(n) => Some(n.clone()),
                            None => None,
                        };
                        let mut instance_fields: Vec<FieldDescriptor> = Vec::new();
                        let mut j: usize = 0;
                        while j < raw.instance_fields.len()
                            invariant
                                j <= raw.instance_fields@.len(),
                                instance_fields@.len() == j,
                                state.graph.strings@ == g.strings@,
                                forall|k: int| 0 <= k < j ==> {
                                    &&& (#[trigger] instance_fields@[k]).field_type == raw.instance_fields@[k].field_type
                                    &&& text_view(instance_fields@[k].name) == field_name_view(g, raw.instance_fields@[k].name_string_id)
                                },
                            decreases raw.instance_fields.len() - j,
                        {
                            let f = raw.instance_fields[j];
                            let fname = match state.graph.strings.get(&f.name_string_id) {
                                Some(s) => Some(s.clone()),
                                None => None,
                            };
                            instance_fields.push(FieldDescriptor { name: fname, field_type: f.field_type });
                            j = j + 1;
                        }
                        let resolved = ClassInfo {
                            class_obj_id: ci.class_obj_id,
                            super_class_id: ci.super_class_id,
                            class_loader_id: ci.class_loader_id,
                            instance_size: ci.instance_size,
                            name,
                            instance_fields,
                            static_references: ci.static_references,
                        };
                        proof {
                            assert(class_resolved(g, class_id, g.classes@[class_id], resolved, s0.raw_classes@[class_id].instance_fields@));
                        }
                        state.graph.classes.insert(class_id, resolved);
                        proof {
                            assert(state.graph.classes@.dom() =~= g.classes@.dom());
                        }
                    },
                    None => {
                        proof {
                            assert(state.graph.classes@ =~= before);
                        }
                    },
                }
            },
            None => {},
        }
        proof {
            assert forall|c: u64| #[trigger] g.classes@.contains_key(c) implies (if ids@.take(i + 1).contains(c) {
                class_resolved(g, c, g.classes@[c], state.graph.classes@[c], s0.raw_classes@[c].instance_fields@)
            } else {
                state.graph.classes@[c] == g.classes@[c]
            }) by {
                lemma_seq_push_contains(ids@.take(i as int), class_id, c);
                if c != class_id {
                    assert(state.graph.classes@[c] == cls0[c]);
                }
            }
        }
        i = i + 1;
    }
    proof {
        assert forall|c: u64| #[trigger] g.classes@.contains_key(c) && s0.raw_classes@.contains_key(c)
            implies ids@.take(i as int).contains(c) by {
            assert(ids@.take(i as int) =~= ids@);
            assert(ids@.to_set().contains(c));
        }
        assert forall|c: u64| #[trigger] g.classes@.contains_key(c) && !s0.raw_classes@.contains_key(c)
            implies !ids@.take(i as int).contains(c) by {
            assert(ids@.take(i as int) =~= ids@);
            if ids@.contains(c) {
                assert(ids@.to_set().contains(c));
            }
        }
    }
}

} // verus!
