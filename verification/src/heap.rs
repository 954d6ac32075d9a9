//! Whole-file heap summaries: the HPROF header, per-tag record statistics
//! and the class-level figures derived from them.

use vstd::prelude::*;
use crate::errors::CoreError;
use crate::hprof::reader::ByteReader;
use crate::text::{push_str, string_from_chars};
use crate::util::be_value;

verus! {

/// The header of an HPROF file.
#[derive(Debug, Clone, PartialEq, Eq)]
pub struct HprofHeader {
    pub format: String,
    pub identifier_size: u32,
    pub timestamp_millis: u64,
}

/// Count and total body length of the records with one tag.
#[derive(Debug, Clone, PartialEq, Eq)]
pub struct RecordStat {
    pub tag: u8,
    pub name: String,
    pub count: u64,
    pub bytes: u64,
}

/// Instances and bytes attributed to one class (or record kind).
#[derive(Debug, Clone, PartialEq, Eq)]
pub struct ClassStat {
    pub name: String,
    pub instances: u64,
    pub total_size_bytes: u64,
}

/// A whole-file summary of a heap dump.
#[derive(Debug, Clone, PartialEq, Eq)]
pub struct HeapSummary {
    pub heap_path: String,
    pub total_objects: u64,
    pub total_size_bytes: u64,
    pub classes: Vec<ClassStat>,
    pub header: Option<HprofHeader>,
    pub total_records: u64,
    pub record_stats: Vec<RecordStat>,
}

/// The change of one class between two heaps.
#[derive(Debug, Clone, PartialEq, Eq)]
pub struct ClassDelta {
    pub name: String,
    pub before_bytes: u64,
    pub after_bytes: u64,
}

/// The difference between two heaps.
#[derive(Debug, Clone, PartialEq, Eq)]
pub struct HeapDiff {
    pub before: String,
    pub after: String,
    pub delta_bytes: i64,
    pub delta_objects: i64,
    pub changed_classes: Vec<ClassDelta>,
}

/// What to summarise.
#[derive(Debug, Clone, PartialEq, Eq)]
pub struct HeapParseJob {
    pub path: String,
    pub include_strings: bool,
    pub max_objects: Option<u64>,
}

impl HeapDiff {
    /// A fixed example difference between the two named heaps.
    pub fn placeholder(before: &str, after: &str) -> (d: Self)
        ensures
            d.before@ == before@,
            d.after@ == after@,
            d.delta_bytes == -347_000_000,
            d.delta_objects == -250_000,
            d.changed_classes@.len() == 1,
            d.changed_classes@[0].name@ == "com.example.UserSession"@,
            d.changed_classes@[0].before_bytes == 385_000_000,
            d.changed_classes@[0].after_bytes == 89_000_000,
    {
        let mut changed_classes: Vec<ClassDelta> = Vec::new();
        changed_classes.push(
            ClassDelta {
                name: "com.example.UserSession".to_owned(),
                before_bytes: 385_000_000,
                after_bytes: 89_000_000,
            },
        );
        HeapDiff {
            before: before.to_owned(),
            after: after.to_owned(),
            delta_bytes: -347_000_000,
            delta_objects: -250_000,
            changed_classes,
        }
    }
}


/// Longest header string accepted before the terminating zero byte.
pub const MAX_HEADER_STRING_LEN: usize = 1025;

/// What `String::from_utf8` makes of bytes: the text, or its error message.
pub uninterp spec fn utf8_decode(bytes: Seq<u8>) -> Result<Seq<char>, Seq<char>>;

/// Decodes bytes as UTF-8 with std `String::from_utf8`, giving the text or
/// the error's message; the outcome is named by `utf8_decode`.
#[verifier::external_body]
fn decode_utf8(bytes: Vec<u8>) -> (r: Result<String, String>)
    ensures
        match r {
            Ok(s) => utf8_decode(bytes@) == Ok::<Seq<char>, Seq<char>>(s@),
            Err(m) => utf8_decode(bytes@) == Err::<Seq<char>, Seq<char>>(m@),
        },
{
    match String::from_utf8(bytes) {
        Ok(s) => Ok(s),
        Err(e) => Err(format!("{}", e)),
    }
}

/// The index of the first zero byte, if any.
pub open spec fn first_zero(data: Seq<u8>) -> Option<int> {
    if exists|i: int| 0 <= i < data.len() && data[i] == 0 {
        Some(choose|i: int| 0 <= i < data.len() && data[i] == 0 && forall|j: int| 0 <= j < i ==> data[j] != 0)
    } else {
        None
    }
}

/// A zero byte has a first zero byte at or before it.
proof fn lemma_min_zero(data: Seq<u8>, i: int) -> (k: int)
    requires
        0 <= i < data.len(),
        data[i] == 0,
    ensures
        0 <= k <= i,
        data[k] == 0,
        forall|j: int| 0 <= j < k ==> data[j] != 0,
    decreases i,
{
    if exists|j: int| 0 <= j < i && data[j] == 0 {
        let j = choose|j: int| 0 <= j < i && data[j] == 0;
        lemma_min_zero(data, j)
    } else {
        i
    }
}

/// `first_zero` is the first zero byte.
proof fn lemma_first_zero(data: Seq<u8>)
    ensures
        first_zero(data) matches Some(z) ==> 0 <= z < data.len() && data[z] == 0 && forall|j: int|
            0 <= j < z ==> data[j] != 0,
        first_zero(data) is None ==> forall|j: int| 0 <= j < data.len() ==> data[j] != 0,
{
    if exists|i: int| 0 <= i < data.len() && data[i] == 0 {
        let i = choose|i: int| 0 <= i < data.len() && data[i] == 0;
        let k = lemma_min_zero(data, i);
        assert(0 <= k < data.len() && data[k] == 0 && forall|j: int| 0 <= j < k ==> data[j] != 0);
    }
}

/// The image starts with a well-formed header.
pub open spec fn header_ok(data: Seq<u8>) -> bool {
    match first_zero(data) {
        Some(z) => z <= MAX_HEADER_STRING_LEN && utf8_decode(data.take(z)) is Ok && z + 13 <= data.len(),
        None => false,
    }
}

/// A header error with the given detail.
pub open spec fn is_header_error(e: CoreError, detail: Seq<char>) -> bool {
    e matches CoreError::HprofParseError { phase, detail: d } && phase@ == "header"@ && d@ == detail
}

/// The error reported for an image without a well-formed header: a
/// missing terminator within reach, an over-long string, text that is not
/// UTF-8, or a cut-off identifier size or timestamp.
pub open spec fn header_error_is(e: CoreError, data: Seq<u8>) -> bool {
    match first_zero(data) {
        Some(z) if z <= MAX_HEADER_STRING_LEN => match utf8_decode(data.take(z)) {
            Err(m) => is_header_error(e, "invalid header string: "@ + m),
            Ok(_) => e == CoreError::UnexpectedEof,
        },
        _ => if data.len() > MAX_HEADER_STRING_LEN {
            is_header_error(e, "header string exceeded 1024 bytes — this may not be an HPROF file"@)
        } else {
            is_header_error(e, "unexpected EOF while reading header"@)
        },
    }
}

fn header_error(detail: Vec<char>) -> (e: CoreError)
    ensures
        e matches CoreError::HprofParseError { phase, detail: d } && phase@ == "header"@ && d@ == detail@,
{
    CoreError::HprofParseError { phase: "header".to_owned(), detail: string_from_chars(&detail) }
}

/// Reads the header of an HPROF image: a zero-terminated UTF-8 format
/// string of at most `MAX_HEADER_STRING_LEN` bytes, the identifier size and
/// the timestamp; gives the header and the number of bytes it takes.
pub fn parse_hprof_header(data: &[u8]) -> (r: Result<(HprofHeader, usize), CoreError>)
    ensures
        match r {
            Ok((h, n)) => {
                &&& first_zero(data@) == Some((n - 13) as int)
                &&& n - 13 <= MAX_HEADER_STRING_LEN
                &&& n <= data@.len()
                &&& utf8_decode(data@.take(n - 13)) == Ok::<Seq<char>, Seq<char>>(h.format@)
                &&& h.identifier_size as nat == be_value(data@.subrange(n - 12, n - 8))
                &&& h.timestamp_millis as nat == be_value(data@.subrange(n - 8, n as int))
            },
            Err(e) => header_error_is(e, data@),
        },
        r is Ok <==> header_ok(data@),
{
    let mut reader = ByteReader::new(data);
    let mut bytes: Vec<u8> = Vec::new();
    loop
        invariant_except_break
            reader.pos == bytes@.len(),
        invariant
            reader.wf(),
            reader.data@ == data@,
            bytes@ == data@.take(bytes@.len() as int),
            bytes@.len() <= MAX_HEADER_STRING_LEN,
            forall|k: int| 0 <= k < bytes@.len() ==> data@[k] != 0,
        ensures
            reader.wf(),
            reader.data@ == data@,
            reader.pos == bytes@.len() + 1,
            bytes@ == data@.take(bytes@.len() as int),
            bytes@.len() <= MAX_HEADER_STRING_LEN,
            data@[bytes@.len() as int] == 0,
            forall|k: int| 0 <= k < bytes@.len() ==> data@[k] != 0,
        decreases data@.len() - bytes@.len(),
    {
        let b = match reader.read_u8() {
            Ok(b) => b,
            Err(_) => {
                let mut m: Vec<char> = Vec::new();
                push_str(&mut m, "unexpected EOF while reading header");
                return Err(header_error(m));
            },
        };
        if b == 0 {
            break;
        }
        if bytes.len() >= MAX_HEADER_STRING_LEN {
            proof {
                lemma_first_zero(data@);
                assert(data@[bytes@.len() as int] != 0);
            }
            let mut m: Vec<char> = Vec::new();
            push_str(&mut m, "header string exceeded 1024 bytes — this may not be an HPROF file");
            return Err(header_error(m));
        }
        bytes.push(b);
        proof {
            assert(bytes@ =~= data@.take(bytes@.len() as int));
        }
    }
    let z = bytes.len();
    proof {
        assert(first_zero(data@) == Some(z as int)) by {
            assert(data@[z as int] == 0);
            let c = choose|i: int| 0 <= i < data@.len() && data@[i] == 0 && forall|j: int| 0 <= j < i ==> data@[j] != 0;
            assert(c == z as int) by {
                if c < z {
                    assert(data@[c] != 0);
                }
                if c > z {
                    assert(data@[z as int] != 0);
                }
            }
        }
    }
    let ghost taken = bytes@;
    let format = match decode_utf8(bytes) {
        Ok(s) => s,
        Err(msg) => {
            let mut m: Vec<char> = Vec::new();
            push_str(&mut m, "invalid header string: ");
            push_str(&mut m, msg.as_str());
            return Err(header_error(m));
        },
    };
    let identifier_size = reader.read_u32()?;
    let timestamp_millis = reader.read_u64()?;
    Ok((HprofHeader { format, identifier_size, timestamp_millis }, reader.pos))
}


// ---------------------------------------------------------------------------
// Record statistics.

/// Tag and body length of each record from `pos` to the end; `None` when a
/// record is cut short.
pub open spec fn record_list(data: Seq<u8>, pos: int) -> Option<Seq<(u8, nat)>>
    decreases data.len() - pos,
{
    if pos < 0 || pos >= data.len() {
        Some(Seq::empty())
    } else if pos + 9 > data.len() {
        None
    } else {
        let len = be_value(data.subrange(pos + 5, pos + 9));
        if pos + 9 + len > data.len() {
            None
        } else {
            match record_list(data, pos + 9 + len) {
                Some(rest) => Some(seq![(data[pos], len)] + rest),
                None => None,
            }
        }
    }
}

/// The HPROF name of a record tag.
pub open spec fn tag_name_spec(tag: u8) -> Seq<char> {
    if tag == 0x01 { "STRING_IN_UTF8"@ }
    else if tag == 0x02 { "LOAD_CLASS"@ }
    else if tag == 0x03 { "UNLOAD_CLASS"@ }
    else if tag == 0x04 { "STACK_FRAME"@ }
    else if tag == 0x05 { "STACK_TRACE"@ }
    else if tag == 0x06 { "ALLOC_SITES"@ }
    else if tag == 0x07 { "HEAP_SUMMARY"@ }
    else if tag == 0x0A { "START_THREAD"@ }
    else if tag == 0x0B { "END_THREAD"@ }
    else if tag == 0x0C { "HEAP_DUMP"@ }
    else if tag == 0x0D { "CPU_SAMPLES"@ }
    else if tag == 0x0E { "HEAP_DUMP_END"@ }
    else if tag == 0x1C { "HEAP_DUMP_SEGMENT"@ }
    else if tag == 0x1D { "CONTROL_SETTINGS"@ }
    else if tag == 0x1E { "ROOT_UNKNOWN"@ }
    else if tag == 0x1F { "ROOT_JNI_GLOBAL"@ }
    else if tag == 0x20 { "ROOT_JNI_LOCAL"@ }
    else if tag == 0x21 { "INSTANCE_DUMP"@ }
    else if tag == 0x22 { "OBJECT_ARRAY_DUMP"@ }
    else if tag == 0x23 { "PRIMITIVE_ARRAY_DUMP"@ }
    else if tag == 0x24 { "HEAP_DUMP_INFO"@ }
    else if tag == 0x2C { "HEAP_DUMP_SEGMENT_EXT"@ }
    else { "UNKNOWN"@ }
}

/// The HPROF name of a record tag.
fn tag_name(tag: u8) -> (s: &'static str)
    ensures
        s@ == tag_name_spec(tag),
{
    match tag {
        0x01 => "STRING_IN_UTF8",
        0x02 => "LOAD_CLASS",
        0x03 => "UNLOAD_CLASS",
        0x04 => "STACK_FRAME",
        0x05 => "STACK_TRACE",
        0x06 => "ALLOC_SITES",
        0x07 => "HEAP_SUMMARY",
        0x0A => "START_THREAD",
        0x0B => "END_THREAD",
        0x0C => "HEAP_DUMP",
        0x0D => "CPU_SAMPLES",
        0x0E => "HEAP_DUMP_END",
        0x1C => "HEAP_DUMP_SEGMENT",
        0x1D => "CONTROL_SETTINGS",
        0x1E => "ROOT_UNKNOWN",
        0x1F => "ROOT_JNI_GLOBAL",
        0x20 => "ROOT_JNI_LOCAL",
        0x21 => "INSTANCE_DUMP",
        0x22 => "OBJECT_ARRAY_DUMP",
        0x23 => "PRIMITIVE_ARRAY_DUMP",
        0x24 => "HEAP_DUMP_INFO",
        0x2C => "HEAP_DUMP_SEGMENT_EXT",
        _ => "UNKNOWN",
    }
}

/// Index of the entry for `tag`, if there is one.
pub open spec fn index_of_tag(s: Seq<(u8, nat, nat)>, tag: u8) -> Option<int>
    decreases s.len(),
{
    if s.len() == 0 {
        None
    } else {
        match index_of_tag(s.drop_last(), tag) {
            Some(i) => Some(i),
            None => if s.last().0 == tag { Some(s.len() - 1) } else { None },
        }
    }
}

/// `(tag, count, bytes)` per tag, tags in order of first appearance.
pub open spec fn first_seen_stats(recs: Seq<(u8, nat)>) -> Seq<(u8, nat, nat)>
    decreases recs.len(),
{
    if recs.len() == 0 {
        Seq::empty()
    } else {
        let s = first_seen_stats(recs.drop_last());
        let r = recs.last();
        match index_of_tag(s, r.0) {
            Some(i) => s.update(i, (r.0, s[i].1 + 1, s[i].2 + r.1)),
            None => s.push((r.0, 1nat, r.1)),
        }
    }
}

/// `x` placed after every entry with at least as many bytes.
pub open spec fn insert_by_bytes(sorted: Seq<(u8, nat, nat)>, x: (u8, nat, nat)) -> Seq<(u8, nat, nat)>
    decreases sorted.len(),
{
    if sorted.len() == 0 {
        seq![x]
    } else if sorted.last().2 >= x.2 {
        sorted.push(x)
    } else {
        insert_by_bytes(sorted.drop_last(), x).push(sorted.last())
    }
}

/// Entries by bytes, largest first; equal ones keep their order.
pub open spec fn sort_by_bytes(s: Seq<(u8, nat, nat)>) -> Seq<(u8, nat, nat)>
    decreases s.len(),
{
    if s.len() == 0 {
        Seq::empty()
    } else {
        insert_by_bytes(sort_by_bytes(s.drop_last()), s.last())
    }
}

/// Instance, object-array and primitive-array dump records.
pub open spec fn is_object_tag(tag: u8) -> bool {
    0x21 <= tag <= 0x23
}

/// Number of object dump records.
pub open spec fn object_record_count(recs: Seq<(u8, nat)>) -> nat
    decreases recs.len(),
{
    if recs.len() == 0 {
        0
    } else {
        object_record_count(recs.drop_last()) + if is_object_tag(recs.last().0) { 1nat } else { 0nat }
    }
}

/// A record statistic as `(tag, count, bytes)`.
pub open spec fn stat_view(r: RecordStat) -> (u8, nat, nat) {
    (r.tag, r.count as nat, r.bytes as nat)
}

/// The statistics carry the HPROF names of their tags.
pub open spec fn stats_named(s: Seq<RecordStat>) -> bool {
    forall|i: int| 0 <= i < s.len() ==> (#[trigger] s[i]).name@ == tag_name_spec(s[i].tag)
}

/// Per-tag record statistics, largest byte total first.
pub open spec fn record_stats_spec(recs: Seq<(u8, nat)>) -> Seq<(u8, nat, nat)> {
    sort_by_bytes(first_seen_stats(recs))
}

proof fn lemma_index_of_tag(s: Seq<(u8, nat, nat)>, tag: u8)
    ensures
        index_of_tag(s, tag) matches Some(i) ==> 0 <= i < s.len() && s[i].0 == tag && forall|j: int|
            0 <= j < i ==> s[j].0 != tag,
        index_of_tag(s, tag) is None ==> forall|j: int| 0 <= j < s.len() ==> s[j].0 != tag,
    decreases s.len(),
{
    if s.len() > 0 {
        lemma_index_of_tag(s.drop_last(), tag);
        if index_of_tag(s, tag) is Some {
            let i = index_of_tag(s, tag)->0;
            assert forall|j: int| 0 <= j < i implies s[j].0 != tag by {
                assert(s.drop_last()[j] == s[j]);
            }
        }
        if index_of_tag(s, tag) is None {
            assert forall|j: int| 0 <= j < s.len() implies s[j].0 != tag by {
                if j < s.len() - 1 {
                    assert(s.drop_last()[j] == s[j]);
                }
            }
        }
    }
}

/// Walks the records from `start` to the end of the image, counting each
/// tag's records and body bytes; gives the number of records, the per-tag
/// statistics (largest byte total first, ties in order of first
/// appearance) and the number of object dump records.
pub fn scan_hprof_records(data: &[u8], start: usize) -> (r: Result<(u64, Vec<RecordStat>, u64), CoreError>)
    requires
        start <= data@.len(),
    ensures
        match record_list(data@, start as int) {
            None => r == Err::<(u64, Vec<RecordStat>, u64), CoreError>(CoreError::UnexpectedEof),
            Some(recs) => r matches Ok((total, stats, guess)) && total == recs.len() && stats@.map_values(
                |x: RecordStat| stat_view(x),
            ) == record_stats_spec(recs) && stats_named(stats@) && guess == object_record_count(recs),
        },
{
    let mut reader = ByteReader::new(data);
    reader.pos = start;
    let mut firsts: Vec<RecordStat> = Vec::new();
    let mut total: u64 = 0;
    let mut guess: u64 = 0;
    let ghost mut done: Seq<(u8, nat)> = Seq::empty();
    while !reader.is_at_end()
        invariant
            reader.wf(),
            reader.data@ == data@,
            start <= reader.pos,
            record_list(data@, start as int) == (match record_list(data@, reader.pos as int) {
                Some(rest) => Some(done + rest),
                None => None::<Seq<(u8, nat)>>,
            }),
            total == done.len(),
            total <= reader.pos - start,
            guess == object_record_count(done),
            guess <= total,
            firsts@.map_values(|x: RecordStat| stat_view(x)) == first_seen_stats(done),
            stats_named(firsts@),
            forall|i: int| 0 <= i < firsts@.len() ==> (#[trigger] firsts@[i]).count <= total && firsts@[i].bytes
                <= reader.pos - start,
        decreases data@.len() - reader.pos,
    {
        let ghost p = reader.pos as int;
        let tag = match reader.read_u8() {
            Ok(t) => t,
            Err(e) => return Err(e),
        };
        let _time = match reader.read_u32() {
            Ok(t) => t,
            Err(e) => return Err(e),
        };
        let length = match reader.read_u32() {
            Ok(l) => l,
            Err(e) => return Err(e),
        };
        proof {
            assert(data@.subrange(p + 5, p + 9) == reader.data@.subrange(p + 5, p + 9));
        }
        match reader.skip(length as u64) {
            Ok(_) => {},
            Err(e) => return Err(e),
        }
        let ghost rec = (tag, length as nat);
        let ghost before = firsts@.map_values(|x: RecordStat| stat_view(x));
        proof {
            let rest = record_list(data@, reader.pos as int);
            if rest is Some {
                assert(seq![rec] + rest->0 =~= seq![rec] + rest->0);
                assert(done + (seq![rec] + rest->0) =~= done.push(rec) + rest->0);
            }
            assert(done.push(rec).drop_last() =~= done);
            lemma_index_of_tag(before, tag);
        }
        let mut k: usize = 0;
        while k < firsts.len() && firsts[k].tag != tag
            invariant
                k <= firsts@.len(),
                forall|j: int| 0 <= j < k ==> firsts@[j].tag != tag,
            decreases firsts.len() - k,
        {
            k = k + 1;
        }
        if k < firsts.len() {
            proof {
                assert(before[k as int].0 == tag);
                assert forall|j: int| 0 <= j < k implies before[j].0 != tag by {
                    assert(before[j].0 == firsts@[j].tag);
                }
                assert(index_of_tag(before, tag) == Some(k as int));
            }
            let mut entry = firsts.remove(k);
            entry.count = entry.count + 1;
            entry.bytes = entry.bytes + length as u64;
            firsts.insert(k, entry);
        } else {
            proof {
                assert forall|j: int| 0 <= j < before.len() implies before[j].0 != tag by {
                    assert(before[j].0 == firsts@[j].tag);
                }
                if index_of_tag(before, tag) is Some {
                    let w = index_of_tag(before, tag)->0;
                    assert(before[w].0 == tag);
                }
            }
            firsts.push(RecordStat { tag, name: tag_name(tag).to_owned(), count: 1, bytes: length as u64 });
        }
        total = total + 1;
        if 0x21 <= tag && tag <= 0x23 {
            guess = guess + 1;
        }
        proof {
            done = done.push(rec);
            assert(firsts@.map_values(|x: RecordStat| stat_view(x)) =~= first_seen_stats(done));
        }
    }
    proof {
        assert(done + Seq::<(u8, nat)>::empty() =~= done);
    }
    let sorted = sort_stats_by_bytes(firsts);
    Ok((total, sorted, guess))
}

/// A stable insertion sort of statistics by bytes, largest first.
fn sort_stats_by_bytes(stats: Vec<RecordStat>) -> (out: Vec<RecordStat>)
    requires
        stats_named(stats@),
    ensures
        out@.map_values(|x: RecordStat| stat_view(x)) == sort_by_bytes(stats@.map_values(|x: RecordStat| stat_view(x))),
        stats_named(out@),
{
    let ghost src = stats@.map_values(|x: RecordStat| stat_view(x));
    let mut input = stats;
    let mut out: Vec<RecordStat> = Vec::new();
    let mut i: usize = 0;
    let n = input.len();
    // Take the entries from the front, one at a time.
    let mut rev: Vec<RecordStat> = Vec::new();
    while input.len() > 0
        invariant
            input@.len() + rev@.len() == n,
            src == stats@.map_values(|x: RecordStat| stat_view(x)),
            stats@ =~= input@ + rev@.reverse(),
            stats_named(input@),
            stats_named(rev@),
        decreases input.len(),
    {
        let x = input.pop().unwrap();
        rev.push(x);
        proof {
            assert(stats@ =~= input@ + rev@.reverse());
        }
    }
    proof {
        assert(stats@ =~= rev@.reverse());
        assert forall|j: int| 0 <= j < rev@.len() implies stat_view(#[trigger] rev@[j]) == src[n - 1 - j] by {
            assert(stats@[n - 1 - j] == rev@[j]);
        }
        assert(src.take(0) =~= Seq::<(u8, nat, nat)>::empty());
    }
    while i < n
        invariant
            i <= n,
            rev@.len() == n - i,
            src == stats@.map_values(|x: RecordStat| stat_view(x)),
            src.len() == n,
            forall|j: int| 0 <= j < rev@.len() ==> stat_view(#[trigger] rev@[j]) == src[n - 1 - j],
            out@.map_values(|x: RecordStat| stat_view(x)) == sort_by_bytes(src.take(i as int)),
            stats_named(out@),
            stats_named(rev@),
        decreases n - i,
    {
        let x = rev.pop().unwrap();
        proof {
            assert(stat_view(x) == src[i as int]);
            assert(src.take(i + 1).drop_last() =~= src.take(i as int));
            assert(src.take(i + 1).last() == src[i as int]);
        }
        let ghost sorted_before = out@.map_values(|y: RecordStat| stat_view(y));
        let mut k: usize = out.len();
        proof {
            assert(sorted_before.take(k as int) =~= sorted_before);
            assert(sorted_before.skip(k as int) =~= Seq::<(u8, nat, nat)>::empty());
            assert(insert_by_bytes(sorted_before, stat_view(x)) + Seq::<(u8, nat, nat)>::empty() =~= insert_by_bytes(sorted_before, stat_view(x)));
        }
        while k > 0 && out[k - 1].bytes < x.bytes
            invariant
                k <= out@.len(),
                sorted_before == out@.map_values(|y: RecordStat| stat_view(y)),
                insert_by_bytes(sorted_before, stat_view(x)) == insert_by_bytes(sorted_before.take(k as int), stat_view(x))
                    + sorted_before.skip(k as int),
            decreases k,
        {
            proof {
                let t = sorted_before.take(k as int);
                assert(t.last() == sorted_before[k - 1]);
                assert(t.drop_last() =~= sorted_before.take(k - 1));
                assert(insert_by_bytes(t, stat_view(x)) == insert_by_bytes(t.drop_last(), stat_view(x)).push(t.last()));
                assert(sorted_before.skip(k - 1) =~= seq![sorted_before[k - 1]] + sorted_before.skip(k as int));
                assert(insert_by_bytes(sorted_before.take(k - 1), stat_view(x)).push(sorted_before[k - 1])
                    + sorted_before.skip(k as int) =~= insert_by_bytes(sorted_before.take(k - 1), stat_view(x))
                    + sorted_before.skip(k - 1));
            }
            k = k - 1;
        }
        proof {
            let t = sorted_before.take(k as int);
            if k == 0 {
                assert(t =~= Seq::<(u8, nat, nat)>::empty());
            } else {
                assert(t.last() == sorted_before[k - 1]);
            }
            assert(insert_by_bytes(t, stat_view(x)) =~= t.push(stat_view(x)));
        }
        let ghost out_before = out@;
        out.insert(k, x);
        proof {
            assert(out@.map_values(|y: RecordStat| stat_view(y)) =~= sorted_before.take(k as int).push(stat_view(x))
                + sorted_before.skip(k as int));
            assert forall|j: int| 0 <= j < out@.len() implies (#[trigger] out@[j]).name@ == tag_name_spec(out@[j].tag) by {
                if j < k {
                    assert(out@[j] == out_before[j]);
                } else if j > k {
                    assert(out@[j] == out_before[j - 1]);
                }
            }
        }
        i = i + 1;
    }
    proof {
        assert(src.take(n as int) =~= src);
    }
    out
}


/// `(name, instances, bytes)` of the object dump statistics, in order.
pub open spec fn class_stat_rows(stats: Seq<RecordStat>) -> Seq<(Seq<char>, u64, u64)>
    decreases stats.len(),
{
    if stats.len() == 0 {
        Seq::empty()
    } else {
        let rows = class_stat_rows(stats.drop_last());
        let x = stats.last();
        if is_object_tag(x.tag) { rows.push((x.name@, x.count, x.bytes)) } else { rows }
    }
}

/// A class statistic as `(name, instances, bytes)`.
pub open spec fn class_stat_view(c: ClassStat) -> (Seq<char>, u64, u64) {
    (c.name@, c.instances, c.total_size_bytes)
}

/// The object dump statistics (instance, object array, primitive array)
/// as class-level figures; none for an empty file.
pub fn summarize_class_stats(record_stats: &[RecordStat], total_size_bytes: u64) -> (out: Vec<ClassStat>)
    ensures
        total_size_bytes == 0 ==> out@.len() == 0,
        total_size_bytes != 0 ==> out@.map_values(|c: ClassStat| class_stat_view(c)) == class_stat_rows(record_stats@),
{
    let mut out: Vec<ClassStat> = Vec::new();
    if total_size_bytes == 0 {
        return out;
    }
    let mut i: usize = 0;
    while i < record_stats.len()
        invariant
            i <= record_stats@.len(),
            out@.map_values(|c: ClassStat| class_stat_view(c)) == class_stat_rows(record_stats@.take(i as int)),
        decreases record_stats.len() - i,
    {
        let stat = &record_stats[i];
        proof {
            assert(record_stats@.take(i + 1).drop_last() =~= record_stats@.take(i as int));
            assert(record_stats@.take(i + 1).last() == record_stats@[i as int]);
        }
        if 0x21 <= stat.tag && stat.tag <= 0x23 {
            let c = ClassStat { name: stat.name.clone(), instances: stat.count, total_size_bytes: stat.bytes };
            let ghost before = out@;
            out.push(c);
            proof {
                assert(out@.map_values(|c: ClassStat| class_stat_view(c)) =~= before.map_values(
                    |c: ClassStat| class_stat_view(c),
                ).push(class_stat_view(c)));
            }
        }
        i = i + 1;
    }
    proof {
        assert(record_stats@.take(i as int) =~= record_stats@);
    }
    out
}

/// Where the header of a well-formed image ends.
pub open spec fn header_end(data: Seq<u8>) -> int {
    first_zero(data)->0 + 13
}

/// Summarises a whole HPROF image read from `heap_path`: its header, the
/// per-tag record statistics, an object estimate (the object dump records,
/// or every record when there are none) and the class-level figures.
pub fn summarize_heap_bytes(heap_path: &str, data: &[u8]) -> (r: Result<HeapSummary, CoreError>)
    ensures
        !header_ok(data@) ==> (r matches Err(e) && header_error_is(e, data@)),
        header_ok(data@) && record_list(data@, header_end(data@)) is None ==> r == Err::<HeapSummary, CoreError>(
            CoreError::UnexpectedEof,
        ),
        header_ok(data@) && record_list(data@, header_end(data@)) is Some ==> (r matches Ok(h) && {
            let recs = record_list(data@, header_end(data@))->0;
            &&& h.heap_path@ == heap_path@
            &&& h.total_size_bytes == data@.len()
            &&& h.total_records == recs.len()
            &&& h.total_objects == (if object_record_count(recs) == 0 { recs.len() } else { object_record_count(recs) })
            &&& h.record_stats@.map_values(|x: RecordStat| stat_view(x)) == record_stats_spec(recs)
            &&& stats_named(h.record_stats@)
            &&& h.classes@.map_values(|c: ClassStat| class_stat_view(c)) == class_stat_rows(h.record_stats@)
            &&& h.header matches Some(hh) && utf8_decode(data@.take(first_zero(data@)->0)) == Ok::<Seq<char>, Seq<char>>(
                hh.format@,
            )
        }),
{
    let (header, start) = match parse_hprof_header(data) {
        Ok(x) => x,
        Err(e) => return Err(e),
    };
    let (total_records, record_stats, object_guess) = match scan_hprof_records(data, start) {
        Ok(x) => x,
        Err(e) => return Err(e),
    };
    let estimated_objects = if object_guess == 0 { total_records } else { object_guess };
    let total_size_bytes = data.len() as u64;
    let classes = summarize_class_stats(record_stats.as_slice(), total_size_bytes);
    Ok(HeapSummary {
        heap_path: heap_path.to_owned(),
        total_objects: estimated_objects,
        total_size_bytes,
        classes,
        header: Some(header),
        total_records,
        record_stats,
    })
}

/// `insert_by_bytes` keeps a run non-increasing in bytes.
proof fn lemma_insert_keeps_order(sorted: Seq<(u8, nat, nat)>, x: (u8, nat, nat))
    requires
        forall|i: int, j: int| 0 <= i < j < sorted.len() ==> sorted[i].2 >= sorted[j].2,
    ensures
        forall|i: int, j: int|
            0 <= i < j < insert_by_bytes(sorted, x).len() ==> insert_by_bytes(sorted, x)[i].2 >= insert_by_bytes(
                sorted,
                x,
            )[j].2,
        insert_by_bytes(sorted, x).len() == sorted.len() + 1,
        forall|k: int| 0 <= k < insert_by_bytes(sorted, x).len() ==> #[trigger] insert_by_bytes(sorted, x)[k].2 >= x.2
            || exists|m: int| 0 <= m < sorted.len() && sorted[m] == insert_by_bytes(sorted, x)[k],
    decreases sorted.len(),
{
    if sorted.len() > 0 && sorted.last().2 < x.2 {
        lemma_insert_keeps_order(sorted.drop_last(), x);
        let r = insert_by_bytes(sorted.drop_last(), x);
        let out = r.push(sorted.last());
        assert forall|k: int| 0 <= k < out.len() implies #[trigger] out[k].2 >= x.2 || exists|m: int|
            0 <= m < sorted.len() && sorted[m] == out[k] by {
            if k == out.len() - 1 {
                assert(sorted[sorted.len() - 1] == out[k]);
            } else {
                assert(r[k] == out[k]);
                if !(r[k].2 >= x.2) {
                    let m = choose|m: int| 0 <= m < sorted.drop_last().len() && sorted.drop_last()[m] == r[k];
                    assert(sorted[m] == out[k]);
                }
            }
        }
        assert forall|i: int, j: int| 0 <= i < j < out.len() implies out[i].2 >= out[j].2 by {
            if j == out.len() - 1 {
                assert(r[i] == out[i]);
                if r[i].2 >= x.2 {
                } else {
                    let m = choose|m: int| 0 <= m < sorted.drop_last().len() && sorted.drop_last()[m] == r[i];
                    assert(sorted[m] == r[i]);
                }
            } else {
                assert(r[i] == out[i] && r[j] == out[j]);
            }
        }
    } else if sorted.len() > 0 {
        let out = sorted.push(x);
        assert forall|k: int| 0 <= k < out.len() implies #[trigger] out[k].2 >= x.2 || exists|m: int|
            0 <= m < sorted.len() && sorted[m] == out[k] by {
            if k < sorted.len() {
                assert(sorted[k] == out[k]);
            }
        }
        assert forall|i: int, j: int| 0 <= i < j < out.len() implies out[i].2 >= out[j].2 by {
            if j == out.len() - 1 {
                assert(sorted[i].2 >= sorted.last().2);
            }
        }
    }
}

/// Record statistics come largest byte total first.
pub proof fn lemma_record_stats_by_bytes(recs: Seq<(u8, nat)>)
    ensures
        forall|i: int, j: int|
            0 <= i < j < record_stats_spec(recs).len() ==> record_stats_spec(recs)[i].2 >= record_stats_spec(recs)[j].2,
{
    lemma_sort_keeps_order(first_seen_stats(recs));
}

proof fn lemma_sort_keeps_order(s: Seq<(u8, nat, nat)>)
    ensures
        forall|i: int, j: int| 0 <= i < j < sort_by_bytes(s).len() ==> sort_by_bytes(s)[i].2 >= sort_by_bytes(s)[j].2,
    decreases s.len(),
{
    if s.len() > 0 {
        lemma_sort_keeps_order(s.drop_last());
        lemma_insert_keeps_order(sort_by_bytes(s.drop_last()), s.last());
    }
}

impl HeapSummary {
    /// A fixed example summary for the named heap.
    pub fn placeholder(path: &str) -> (h: Self)
        ensures
            h.heap_path@ == path@,
            h.total_objects == 1_234_567,
            h.total_size_bytes == 2_453_291_008,
            h.classes@.len() == 1,
            h.classes@[0].name@ == "java.lang.String"@,
            h.classes@[0].instances == 421_032,
            h.classes@[0].total_size_bytes == 441_651_200,
            h.header is None,
            h.total_records == 0,
            h.record_stats@.len() == 0,
    {
        let mut classes: Vec<ClassStat> = Vec::new();
        classes.push(
            ClassStat { name: "java.lang.String".to_owned(), instances: 421_032, total_size_bytes: 441_651_200 },
        );
        HeapSummary {
            heap_path: path.to_owned(),
            total_objects: 1_234_567,
            total_size_bytes: 2_453_291_008,
            classes,
            header: None,
            total_records: 0,
            record_stats: Vec::new(),
        }
    }
}

} // verus!
