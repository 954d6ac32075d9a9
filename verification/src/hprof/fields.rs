//! Decoding instance field values from retained field bytes.

use vstd::prelude::*;
use std::collections::HashMap;
use crate::hprof::object_graph::{ClassInfo, FieldDescriptor, HeapObject, value_width, field_value_size};
use crate::text::{str_eq, push_decimal, push_str, string_from_chars, dec_chars};
use crate::util::{be_value, lemma_be_value_bound, lemma_pow256_values};

verus! {

broadcast use vstd::std_specs::hash::group_hash_axioms;

/// A typed field value. Floating-point values are carried as their IEEE-754
/// bit patterns, exactly as they are stored in the dump.
#[derive(Debug, Clone, Copy, PartialEq, Eq, Structural)]
pub enum FieldValue {
    Boolean(bool),
    Byte(i8),
    Char(u16),
    Short(i16),
    Int(i32),
    Long(i64),
    FloatBits(u32),
    DoubleBits(u64),
    ObjectRef(Option<u64>),
}

pub open spec fn signed8(v: nat) -> int {
    if v >= 0x80 { v - 0x100 } else { v as int }
}

pub open spec fn signed16(v: nat) -> int {
    if v >= 0x8000 { v - 0x1_0000 } else { v as int }
}

pub open spec fn signed32(v: nat) -> int {
    if v >= 0x8000_0000 { v - 0x1_0000_0000 } else { v as int }
}

pub open spec fn signed64(v: nat) -> int {
    if v >= 0x8000_0000_0000_0000 { v - 0x1_0000_0000_0000_0000 } else { v as int }
}

/// The value that `bytes` (exactly one value wide) encode for a field type.
pub open spec fn decode_value(bytes: Seq<u8>, field_type: u8, id_size: u8) -> Option<FieldValue> {
    let v = be_value(bytes);
    if field_type == 4 && bytes.len() >= 1 {
        Some(FieldValue::Boolean(bytes[0] != 0))
    } else if field_type == 8 && bytes.len() >= 1 {
        Some(FieldValue::Byte(signed8(bytes[0] as nat) as i8))
    } else if field_type == 5 && bytes.len() == 2 {
        Some(FieldValue::Char(v as u16))
    } else if field_type == 9 && bytes.len() == 2 {
        Some(FieldValue::Short(signed16(v) as i16))
    } else if field_type == 10 && bytes.len() == 4 {
        Some(FieldValue::Int(signed32(v) as i32))
    } else if field_type == 11 && bytes.len() == 8 {
        Some(FieldValue::Long(signed64(v) as i64))
    } else if field_type == 6 && bytes.len() == 4 {
        Some(FieldValue::FloatBits(v as u32))
    } else if field_type == 7 && bytes.len() == 8 {
        Some(FieldValue::DoubleBits(v as u64))
    } else if field_type == 2 && (id_size == 4 || id_size == 8) && bytes.len() == id_size {
        Some(FieldValue::ObjectRef(if v == 0 { None } else { Some(v as u64) }))
    } else {
        None
    }
}

fn be_of(bytes: &[u8]) -> (v: u64)
    requires
        bytes@.len() <= 8,
    ensures
        v as nat == be_value(bytes@),
{
    let mut v: u64 = 0;
    let mut k: usize = 0;
    while k < bytes.len()
        invariant
            k <= bytes@.len() <= 8,
            v as nat == be_value(bytes@.take(k as int)),
        decreases bytes.len() - k,
    {
        proof {
            assert(bytes@.take(k + 1).drop_last() =~= bytes@.take(k as int));
            lemma_be_value_bound(bytes@.take(k as int));
            crate::hprof::reader::lemma_pow256_mono(k as nat, 7);
            lemma_pow256_values();
        }
        v = v * 256 + bytes[k] as u64;
        k = k + 1;
    }
    proof {
        assert(bytes@.take(k as int) =~= bytes@);
    }
    v
}

/// Decodes one value of the given type from exactly its bytes.
pub fn read_field_value(bytes: &[u8], field_type: u8, id_size: u8) -> (res: Option<FieldValue>)
    requires
        bytes@.len() <= 8,
    ensures
        res == decode_value(bytes@, field_type, id_size),
{
    let v = be_of(bytes);
    proof {
        lemma_be_value_bound(bytes@);
        lemma_pow256_values();
    }
    let n = bytes.len();
    if field_type == 4 && n >= 1 {
        Some(FieldValue::Boolean(bytes[0] != 0))
    } else if field_type == 8 && n >= 1 {
        let b = bytes[0];
        let r = #[verifier::truncate] (b as i8);
        proof {
            assert(r as int == (if b >= 0x80 { b - 0x100 } else { b as int })) by (bit_vector)
                requires r == b as i8;
        }
        Some(FieldValue::Byte(r))
    } else if field_type == 5 && n == 2 {
        Some(FieldValue::Char(v as u16))
    } else if field_type == 9 && n == 2 {
        let w = v as u16;
        let r = #[verifier::truncate] (w as i16);
        proof {
            assert(r as int == (if w >= 0x8000 { w - 0x1_0000 } else { w as int })) by (bit_vector)
                requires r == w as i16;
        }
        Some(FieldValue::Short(r))
    } else if field_type == 10 && n == 4 {
        let w = v as u32;
        let r = #[verifier::truncate] (w as i32);
        proof {
            assert(r as int == (if w >= 0x8000_0000 { w - 0x1_0000_0000 } else { w as int })) by (bit_vector)
                requires r == w as i32;
        }
        Some(FieldValue::Int(r))
    } else if field_type == 11 && n == 8 {
        let r = #[verifier::truncate] (v as i64);
        proof {
            assert(r as int == (if v >= 0x8000_0000_0000_0000 { v - 0x1_0000_0000_0000_0000 } else { v as int })) by (bit_vector)
                requires r == v as i64;
        }
        Some(FieldValue::Long(r))
    } else if field_type == 6 && n == 4 {
        Some(FieldValue::FloatBits(v as u32))
    } else if field_type == 7 && n == 8 {
        Some(FieldValue::DoubleBits(v))
    } else if field_type == 2 && (id_size == 4 || id_size == 8) && n == id_size as usize {
        Some(FieldValue::ObjectRef(if v == 0 { None } else { Some(v) }))
    } else {
        None
    }
}

/// Fields of a class and its superclasses, superclass fields first. The
/// walk stops at class id 0, at an unknown class, or after `fuel` steps.
pub open spec fn layout_spec(classes: Map<u64, ClassInfo>, class_id: u64, fuel: nat) -> Seq<FieldDescriptor>
    decreases fuel,
{
    if fuel == 0 || class_id == 0 || !classes.contains_key(class_id) {
        Seq::empty()
    } else {
        layout_spec(classes, classes[class_id].super_class_id, (fuel - 1) as nat)
            + classes[class_id].instance_fields@
    }
}

/// The references of a sequence, dereferenced.
pub open spec fn derefs<'a>(s: Seq<&'a FieldDescriptor>) -> Seq<FieldDescriptor> {
    Seq::new(s.len(), |i: int| *s[i])
}

/// The full field layout of a class: inherited fields first. A superclass
/// chain longer than the number of classes (which only a cycle can produce)
/// is cut after that many steps.
pub fn class_field_layout<'a>(classes: &'a HashMap<u64, ClassInfo>, class_id: u64) -> (res: Vec<&'a FieldDescriptor>)
    ensures
        derefs(res@) == layout_spec(classes@, class_id, classes@.len() as nat),
{
    let fuel = classes.len();
    layout_with_fuel(classes, class_id, fuel as u64)
}

fn layout_with_fuel<'a>(classes: &'a HashMap<u64, ClassInfo>, class_id: u64, fuel: u64) -> (res: Vec<&'a FieldDescriptor>)
    ensures
        derefs(res@) == layout_spec(classes@, class_id, fuel as nat),
    decreases fuel,
{
    if fuel == 0 || class_id == 0 {
        proof {
            assert(derefs(Seq::<&FieldDescriptor>::empty()) =~= Seq::<FieldDescriptor>::empty());
        }
        return Vec::new();
    }
    match classes.get(&class_id) {
        None => {
            proof {
                assert(derefs(Seq::<&FieldDescriptor>::empty()) =~= Seq::<FieldDescriptor>::empty());
            }
            Vec::new()
        },
        Some(info) => {
            let mut fields = layout_with_fuel(classes, info.super_class_id, fuel - 1);
            let mut i: usize = 0;
            let ghost base = derefs(fields@);
            while i < info.instance_fields.len()
                invariant
                    i <= info.instance_fields@.len(),
                    derefs(fields@) == base + info.instance_fields@.take(i as int),
                decreases info.instance_fields.len() - i,
            {
                let ghost before = fields@;
                fields.push(&info.instance_fields[i]);
                i = i + 1;
                proof {
                    assert(derefs(fields@) =~= derefs(before).push(info.instance_fields@[i - 1]));
                    assert(info.instance_fields@.take(i as int) =~= info.instance_fields@.take(i - 1).push(info.instance_fields@[i - 1]));
                }
            }
            proof {
                assert(info.instance_fields@.take(i as int) =~= info.instance_fields@);
            }
            fields
        },
    }
}


/// Does an optional name equal `name`?
pub open spec fn name_is(n: Option<String>, name: Seq<char>) -> bool {
    match n {
        Some(s) => s@ == name,
        None => false,
    }
}

/// The value of the first field named `name` in a layout, reading field
/// bytes from `offset` on; `None` when a width is unknown or the bytes run out
/// before that field.
pub open spec fn find_field(
    layout: Seq<FieldDescriptor>,
    data: Seq<u8>,
    name: Seq<char>,
    id_size: u8,
    idx: int,
    offset: int,
) -> Option<FieldValue>
    decreases layout.len() - idx,
{
    if idx < 0 || idx >= layout.len() {
        None
    } else {
        let d = layout[idx];
        match value_width(d.field_type, id_size) {
            None => None,
            Some(w) => if offset + w > data.len() {
                None
            } else if name_is(d.name, name) {
                decode_value(data.subrange(offset, offset + w), d.field_type, id_size)
            } else {
                find_field(layout, data, name, id_size, idx + 1, offset + w)
            },
        }
    }
}

/// What `read_field` returns.
pub open spec fn field_of(
    object: HeapObject,
    classes: Map<u64, ClassInfo>,
    name: Seq<char>,
    id_size: u8,
) -> Option<FieldValue> {
    if object.field_data@.len() == 0 {
        None
    } else {
        find_field(
            layout_spec(classes, object.class_id, classes.len() as nat),
            object.field_data@,
            name,
            id_size,
            0,
            0,
        )
    }
}

proof fn lemma_wide_values_undecodable(bytes: Seq<u8>, field_type: u8, id_size: u8, w: u8)
    requires
        value_width(field_type, id_size) == Some(w),
        w > 8,
        bytes.len() == w,
    ensures
        decode_value(bytes, field_type, id_size) is None,
{
}

/// Reads one named field of an object from its retained field bytes,
/// walking the inherited layout; `None` when the bytes were not retained,
/// the field does not exist, or the bytes run out.
pub fn read_field(
    object: &HeapObject,
    classes: &HashMap<u64, ClassInfo>,
    field_name: &str,
    id_size: u8,
) -> (res: Option<FieldValue>)
    ensures
        res == field_of(*object, classes@, field_name@, id_size),
{
    if object.field_data.len() == 0 {
        return None;
    }
    let layout = class_field_layout(classes, object.class_id);
    let ghost lay = derefs(layout@);
    let mut offset: usize = 0;
    let mut i: usize = 0;
    while i < layout.len()
        invariant
            i <= layout@.len(),
            lay == derefs(layout@),
            lay == layout_spec(classes@, object.class_id, classes@.len() as nat),
            offset <= object.field_data@.len(),
            find_field(lay, object.field_data@, field_name@, id_size, 0, 0) == find_field(
                lay,
                object.field_data@,
                field_name@,
                id_size,
                i as int,
                offset as int,
            ),
        decreases layout.len() - i,
    {
        let d = layout[i];
        proof {
            assert(*d == lay[i as int]);
        }
        let w = match field_value_size(d.field_type, id_size) {
            Some(w) => w as usize,
            None => return None,
        };
        if w > object.field_data.len() - offset {
            return None;
        }
        let matches = match &d.name {
            Some(n) => str_eq(n.as_str(), field_name),
            None => false,
        };
        if matches {
            if w > 8 {
                proof {
                    lemma_wide_values_undecodable(
                        object.field_data@.subrange(offset as int, offset + w),
                        d.field_type,
                        id_size,
                        w as u8,
                    );
                }
                return None;
            }
            let slice = slice_of(&object.field_data, offset, w);
            return read_field_value(&slice, d.field_type, id_size);
        }
        offset = offset + w;
        i = i + 1;
    }
    None
}

/// A copy of `len` bytes starting at `start`.
pub fn slice_of(v: &Vec<u8>, start: usize, len: usize) -> (res: Vec<u8>)
    requires
        start + len <= v@.len(),
    ensures
        res@ == v@.subrange(start as int, start + len),
{
    let mut out: Vec<u8> = Vec::new();
    let total = v.len();
    assert(start + len <= total);
    let mut k: usize = 0;
    while k < len
        invariant
            k <= len,
            start + len <= v@.len(),
            start + len <= usize::MAX,
            out@ == v@.subrange(start as int, start + k),
        decreases len - k,
    {
        out.push(v[start + k]);
        k = k + 1;
        proof {
            assert(out@ =~= v@.subrange(start as int, start + k));
        }
    }
    out
}

/// The label of a layout entry: its name, or `<unnamed_field_N>`.
pub open spec fn field_label(n: Option<String>, index: int) -> Seq<char> {
    match n {
        Some(s) => s@,
        None => "<unnamed_field_"@ + dec_chars(index as nat) + ">"@,
    }
}

/// Every decodable field from `idx`/`offset` on, stopping at the first
/// unknown width or at the end of the bytes.
pub open spec fn all_fields(
    layout: Seq<FieldDescriptor>,
    data: Seq<u8>,
    id_size: u8,
    idx: int,
    offset: int,
) -> Seq<(Seq<char>, FieldValue)>
    decreases layout.len() - idx,
{
    if idx < 0 || idx >= layout.len() {
        Seq::empty()
    } else {
        let d = layout[idx];
        match value_width(d.field_type, id_size) {
            None => Seq::empty(),
            Some(w) => if offset + w > data.len() {
                Seq::empty()
            } else {
                let rest = all_fields(layout, data, id_size, idx + 1, offset + w);
                match decode_value(data.subrange(offset, offset + w), d.field_type, id_size) {
                    Some(v) => seq![(field_label(d.name, idx), v)] + rest,
                    None => rest,
                }
            },
        }
    }
}

pub open spec fn labelled_view(v: Seq<(String, FieldValue)>) -> Seq<(Seq<char>, FieldValue)> {
    Seq::new(v.len(), |i: int| (v[i].0@, v[i].1))
}

/// Reads every field of an object in layout order.
pub fn read_all_fields(
    object: &HeapObject,
    classes: &HashMap<u64, ClassInfo>,
    id_size: u8,
) -> (res: Vec<(String, FieldValue)>)
    ensures
        object.field_data@.len() == 0 ==> res@.len() == 0,
        object.field_data@.len() > 0 ==> labelled_view(res@) == all_fields(
            layout_spec(classes@, object.class_id, classes@.len() as nat),
            object.field_data@,
            id_size,
            0,
            0,
        ),
{
    let mut out: Vec<(String, FieldValue)> = Vec::new();
    if object.field_data.len() == 0 {
        return out;
    }
    let layout = class_field_layout(classes, object.class_id);
    let ghost lay = derefs(layout@);
    let ghost target = all_fields(lay, object.field_data@, id_size, 0, 0);
    let mut offset: usize = 0;
    let mut i: usize = 0;
    while i < layout.len()
        invariant
            i <= layout@.len(),
            lay == derefs(layout@),
            lay == layout_spec(classes@, object.class_id, classes@.len() as nat),
            object.field_data@.len() > 0,
            offset <= object.field_data@.len(),
            target == all_fields(lay, object.field_data@, id_size, 0, 0),
            target == labelled_view(out@) + all_fields(
                lay,
                object.field_data@,
                id_size,
                i as int,
                offset as int,
            ),
        decreases layout.len() - i,
    {
        let d = layout[i];
        proof {
            assert(*d == lay[i as int]);
        }
        let w = match field_value_size(d.field_type, id_size) {
            Some(w) => w as usize,
            None => {
                proof {
                    assert(labelled_view(out@) =~= labelled_view(out@) + Seq::<(Seq<char>, FieldValue)>::empty());
                }
                return out;
            },
        };
        if w > object.field_data.len() - offset {
            proof {
                assert(labelled_view(out@) =~= labelled_view(out@) + Seq::<(Seq<char>, FieldValue)>::empty());
            }
            return out;
        }
        let value = if w > 8 {
            proof {
                lemma_wide_values_undecodable(
                    object.field_data@.subrange(offset as int, offset + w),
                    d.field_type,
                    id_size,
                    w as u8,
                );
            }
            None
        } else {
            let slice = slice_of(&object.field_data, offset, w);
            read_field_value(&slice, d.field_type, id_size)
        };
        let ghost before = out@;
        match value {
            Some(v) => {
                let label = match &d.name {
                    Some(n) => n.clone(),
                    None => {
                        let mut cs: Vec<char> = Vec::new();
                        push_str(&mut cs, "<unnamed_field_");
                        push_decimal(&mut cs, i as u64);
                        push_str(&mut cs, ">");
                        string_from_chars(&cs)
                    },
                };
                out.push((label, v));
                proof {
                    assert(labelled_view(out@) =~= labelled_view(before) + seq![(field_label(d.name, i as int), v)]);
                }
            },
            None => {},
        }
        offset = offset + w;
        i = i + 1;
    }
    proof {
        assert(labelled_view(out@) =~= labelled_view(out@) + Seq::<(Seq<char>, FieldValue)>::empty());
    }
    out
}

} // verus!
