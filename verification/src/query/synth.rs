//! The synthetic `@toString` attribute: the text of `java.lang.String`
//! objects, `class@id` for others.

use vstd::prelude::*;
use crate::hprof::fields::{field_of, read_field, FieldValue};
use crate::hprof::object_graph::{class_name_of, HeapObject, ObjectGraph, ObjectKind};
use crate::query::types::CellValue;
use crate::text::{char_from_scalar, chars_of, dec_chars, push_chars, push_decimal, push_str, str_eq, string_from_chars};

verus! {

/// Longest `@toString` text before it is cut.
pub const MAX_SYNTH_TO_STRING_CHARS: usize = 256;

/// A class name with `/` written as `.`.
pub open spec fn dotted(s: Seq<char>) -> Seq<char> {
    s.map_values(|c: char| if c == '/' { '.' } else { c })
}

/// Bytes read as ISO-8859-1 characters.
pub open spec fn latin1(bytes: Seq<u8>) -> Seq<char> {
    bytes.map_values(|b: u8| b as char)
}

/// UTF-16 code units decoded as `String::from_utf16_lossy` documents: a
/// high surrogate followed by a low one is one character, any other
/// surrogate becomes U+FFFD, and every other unit is its own character.
pub open spec fn utf16_lossy(units: Seq<u16>) -> Seq<char>
    decreases units.len(),
{
    if units.len() == 0 {
        Seq::empty()
    } else {
        let u = units[0];
        if 0xD800 <= u < 0xDC00 && units.len() >= 2 && 0xDC00 <= units[1] < 0xE000 {
            seq![(0x10000 + (u - 0xD800) * 0x400 + (units[1] - 0xDC00)) as char] + utf16_lossy(units.skip(2))
        } else if 0xD800 <= u < 0xE000 {
            seq!['\u{FFFD}'] + utf16_lossy(units.skip(1))
        } else {
            seq![u as char] + utf16_lossy(units.skip(1))
        }
    }
}

/// Byte pairs as code units, the first byte the high one.
pub open spec fn be_units(bytes: Seq<u8>) -> Seq<u16> {
    Seq::new(bytes.len() / 2, |i: int| (bytes[2 * i] as u16 * 256 + bytes[2 * i + 1] as u16) as u16)
}

/// Byte pairs as code units, the first byte the low one.
pub open spec fn le_units(bytes: Seq<u8>) -> Seq<u16> {
    Seq::new(bytes.len() / 2, |i: int| (bytes[2 * i + 1] as u16 * 256 + bytes[2 * i] as u16) as u16)
}

/// The text of a `java.lang.String` object: its `value` array read as
/// Latin-1 bytes, as UTF-16 bytes when `coder` is 1, or as UTF-16 chars
/// for a `char[]` value; `None` when there is no such array.
pub open spec fn string_value(graph: ObjectGraph, object_id: u64) -> Option<Seq<char>> {
    let o = graph.objects@[object_id];
    match field_of(o, graph.classes@, "value"@, graph.identifier_size) {
        Some(FieldValue::ObjectRef(Some(array_id))) => if graph.objects@.contains_key(array_id) {
            let a = graph.objects@[array_id];
            match a.kind {
                ObjectKind::PrimitiveArray { element_type, .. } => if element_type == 8 {
                    match field_of(o, graph.classes@, "coder"@, graph.identifier_size) {
                        Some(FieldValue::Byte(1)) => Some(utf16_lossy(le_units(a.field_data@))),
                        _ => Some(latin1(a.field_data@)),
                    }
                } else if element_type == 5 {
                    Some(utf16_lossy(be_units(a.field_data@)))
                } else {
                    None
                },
                _ => None,
            }
        } else {
            None
        },
        _ => None,
    }
}

/// A text cut to `MAX_SYNTH_TO_STRING_CHARS` characters, with an ellipsis
/// when something was cut.
pub open spec fn truncated_text(s: Seq<char>) -> Seq<char> {
    if s.len() > MAX_SYNTH_TO_STRING_CHARS {
        s.take(MAX_SYNTH_TO_STRING_CHARS as int).push('\u{2026}')
    } else {
        s
    }
}

/// The `@toString` text of an object, `None` for null.
pub open spec fn synth_text(graph: ObjectGraph, object_id: u64) -> Option<Seq<char>> {
    if !graph.objects@.contains_key(object_id) {
        None
    } else {
        match class_name_of(graph.classes@, graph.objects@[object_id].class_id) {
            None => None,
            Some(n) => if dotted(n) == "java.lang.String"@ {
                match string_value(graph, object_id) {
                    Some(t) => Some(truncated_text(t)),
                    None => None,
                }
            } else {
                Some(dotted(n) + "@"@ + dec_chars(object_id as nat))
            },
        }
    }
}

/// Decodes UTF-16 code units, replacing unpaired surrogates with U+FFFD.
fn decode_utf16_lossy(units: &Vec<u16>) -> (s: String)
    ensures
        s@ == utf16_lossy(units@),
{
    let mut out: Vec<char> = Vec::new();
    let mut i: usize = 0;
    proof {
        assert(units@.skip(0) =~= units@);
        assert(out@ + utf16_lossy(units@) =~= utf16_lossy(units@));
    }
    while i < units.len()
        invariant
            i <= units@.len(),
            out@ + utf16_lossy(units@.skip(i as int)) == utf16_lossy(units@),
        decreases units.len() - i,
    {
        let ghost rest = units@.skip(i as int);
        let u = units[i];
        if 0xD800 <= u && u < 0xDC00 && i + 1 < units.len() && 0xDC00 <= units[i + 1] && units[i + 1] < 0xE000 {
            let lo = units[i + 1];
            let cp: u32 = 0x10000 + (u as u32 - 0xD800) * 0x400 + (lo as u32 - 0xDC00);
            let c = match char_from_scalar(cp) {
                Some(c) => c,
                None => '\u{FFFD}',
            };
            proof {
                assert(rest[0] == u && rest[1] == lo);
                assert(rest.skip(2) =~= units@.skip(i + 2));
                assert(cp <= 0x10FFFF && cp >= 0x10000);
            }
            out.push(c);
            i = i + 2;
            proof {
                assert(out@ + utf16_lossy(units@.skip(i as int)) =~= out@.drop_last() + (seq![c] + utf16_lossy(rest.skip(2))));
            }
        } else {
            let c = if 0xD800 <= u && u < 0xE000 {
                '\u{FFFD}'
            } else {
                match char_from_scalar(u as u32) {
                    Some(c) => c,
                    None => '\u{FFFD}',
                }
            };
            proof {
                assert(rest[0] == u);
                assert(rest.skip(1) =~= units@.skip(i + 1));
            }
            out.push(c);
            i = i + 1;
            proof {
                assert(out@ + utf16_lossy(units@.skip(i as int)) =~= out@.drop_last() + (seq![c] + utf16_lossy(rest.skip(1))));
            }
        }
    }
    proof {
        assert(units@.skip(i as int) =~= Seq::<u16>::empty());
        assert(out@ + utf16_lossy(units@.skip(i as int)) =~= out@);
    }
    string_from_chars(&out)
}

pub(crate) fn dotted_name(name: &str) -> (out: Vec<char>)
    ensures
        out@ == dotted(name@),
{
    let cs = chars_of(name);
    let mut out: Vec<char> = Vec::new();
    let mut i: usize = 0;
    while i < cs.len()
        invariant
            i <= cs@.len(),
            cs@ == name@,
            out@ == cs@.take(i as int).map_values(|c: char| if c == '/' { '.' } else { c }),
        decreases cs.len() - i,
    {
        let c = cs[i];
        out.push(if c == '/' { '.' } else { c });
        i = i + 1;
        proof {
            assert(out@ =~= cs@.take(i as int).map_values(|c: char| if c == '/' { '.' } else { c }));
        }
    }
    proof {
        assert(cs@.take(cs@.len() as int) =~= cs@);
    }
    out
}

fn latin1_chars(bytes: &Vec<u8>) -> (out: Vec<char>)
    ensures
        out@ == latin1(bytes@),
{
    let mut out: Vec<char> = Vec::new();
    let mut i: usize = 0;
    while i < bytes.len()
        invariant
            i <= bytes@.len(),
            out@ == bytes@.take(i as int).map_values(|b: u8| b as char),
        decreases bytes.len() - i,
    {
        out.push(bytes[i] as char);
        i = i + 1;
        proof {
            assert(out@ =~= bytes@.take(i as int).map_values(|b: u8| b as char));
        }
    }
    proof {
        assert(bytes@.take(bytes@.len() as int) =~= bytes@);
    }
    out
}

fn code_units(bytes: &Vec<u8>, big_endian: bool) -> (units: Vec<u16>)
    ensures
        units@ == if big_endian { be_units(bytes@) } else { le_units(bytes@) },
{
    let n = bytes.len() / 2;
    let mut units: Vec<u16> = Vec::new();
    let mut i: usize = 0;
    while i < n
        invariant
            n == bytes@.len() / 2,
            bytes@.len() <= usize::MAX,
            i <= n,
            units@ == (if big_endian { be_units(bytes@) } else { le_units(bytes@) }).take(i as int),
        decreases n - i,
    {
        let hi = if big_endian { bytes[2 * i] } else { bytes[2 * i + 1] };
        let lo = if big_endian { bytes[2 * i + 1] } else { bytes[2 * i] };
        let u: u16 = (hi as u16) * 256 + (lo as u16);
        units.push(u);
        i = i + 1;
        proof {
            assert(units@ =~= (if big_endian { be_units(bytes@) } else { le_units(bytes@) }).take(i as int));
        }
    }
    proof {
        assert(units@ =~= if big_endian { be_units(bytes@) } else { le_units(bytes@) });
    }
    units
}

/// The text of a `java.lang.String` object, if its value array can be read.
pub fn extract_string_value(graph: &ObjectGraph, object_id: u64) -> (s: Option<String>)
    requires
        graph.objects@.contains_key(object_id),
    ensures
        match s {
            Some(t) => string_value(*graph, object_id) == Some(t@),
            None => string_value(*graph, object_id) is None,
        },
{
    let o = graph.objects.get(&object_id).unwrap();
    match read_field(o, &graph.classes, "value", graph.identifier_size) {
        Some(FieldValue::ObjectRef(Some(array_id))) => match graph.objects.get(&array_id) {
            Some(a) => match a.kind {
                ObjectKind::PrimitiveArray { element_type, .. } => {
                    if element_type == 8 {
                        match read_field(o, &graph.classes, "coder", graph.identifier_size) {
                            Some(FieldValue::Byte(1)) => Some(decode_utf16_lossy(&code_units(&a.field_data, false))),
                            _ => Some(string_from_chars(&latin1_chars(&a.field_data))),
                        }
                    } else if element_type == 5 {
                        Some(decode_utf16_lossy(&code_units(&a.field_data, true)))
                    } else {
                        None
                    }
                },
                _ => None,
            },
            None => None,
        },
        _ => None,
    }
}

/// Cuts a text to `MAX_SYNTH_TO_STRING_CHARS` characters and marks the cut
/// with an ellipsis.
pub fn truncate_string(value: String) -> (t: String)
    ensures
        t@ == truncated_text(value@),
{
    let cs = chars_of(value.as_str());
    if cs.len() > MAX_SYNTH_TO_STRING_CHARS {
        let mut out: Vec<char> = Vec::new();
        let mut i: usize = 0;
        while i < MAX_SYNTH_TO_STRING_CHARS
            invariant
                i <= MAX_SYNTH_TO_STRING_CHARS < cs@.len(),
                out@ == cs@.take(i as int),
            decreases MAX_SYNTH_TO_STRING_CHARS - i,
        {
            out.push(cs[i]);
            i = i + 1;
            proof {
                assert(out@ =~= cs@.take(i as int));
            }
        }
        out.push('\u{2026}');
        string_from_chars(&out)
    } else {
        value
    }
}

/// The `@toString` attribute of an object: null for a missing object or
/// class name, the (cut) text of a `java.lang.String`, else `class@id`.
pub fn synth_to_string(graph: &ObjectGraph, object_id: u64) -> (v: CellValue)
    ensures
        match v {
            CellValue::Null => synth_text(*graph, object_id) is None,
            CellValue::Str(s) => synth_text(*graph, object_id) == Some(s@),
            _ => false,
        },
{
    let object = match graph.get_object(object_id) {
        Some(o) => o,
        None => return CellValue::Null,
    };
    let name = match graph.class_name(object.class_id) {
        Some(n) => dotted_name(n),
        None => return CellValue::Null,
    };
    let name_text = string_from_chars(&name);
    if str_eq(name_text.as_str(), "java.lang.String") {
        return match extract_string_value(graph, object_id) {
            Some(s) => CellValue::Str(truncate_string(s)),
            None => CellValue::Null,
        };
    }
    let mut out = name;
    push_str(&mut out, "@");
    push_decimal(&mut out, object_id);
    CellValue::Str(string_from_chars(&out))
}

} // verus!
