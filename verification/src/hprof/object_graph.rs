//! The object graph decoded from a heap dump.

use vstd::prelude::*;
use std::collections::HashMap;
use crate::util::{
    map_keys, map_sum, lemma_map_sum_remove, lemma_map_sum_nonneg, lemma_take_push,
    lemma_filter_push_step, lemma_filter_no_dup, lemma_filter_contains_iff,
};

verus! {

broadcast use vstd::std_specs::hash::group_hash_axioms;

/// Identifier of a heap object (4- or 8-byte HPROF identifiers widened to u64).
pub type ObjectId = u64;

/// Identifier of a class: the object id of its `java.lang.Class` instance.
pub type ClassId = u64;

/// All objects, classes, roots, strings and stack data of one heap dump.
pub struct ObjectGraph {
    pub objects: HashMap<u64, HeapObject>,
    pub classes: HashMap<u64, ClassInfo>,
    pub gc_roots: Vec<GcRoot>,
    pub strings: HashMap<u64, String>,
    pub loaded_classes: HashMap<u32, LoadedClass>,
    pub stack_traces: HashMap<u32, StackTrace>,
    pub stack_frames: HashMap<u64, StackFrame>,
    pub identifier_size: u8,
}

/// One heap object: an instance, an object array or a primitive array.
#[derive(Debug, Clone)]
pub struct HeapObject {
    pub id: u64,
    pub class_id: u64,
    pub shallow_size: u32,
    /// Non-null object ids held by reference fields or array slots.
    pub references: Vec<u64>,
    /// Raw instance field bytes or primitive array content, when retained.
    pub field_data: Vec<u8>,
    pub kind: ObjectKind,
}

/// A STACK_TRACE record.
#[derive(Debug, Clone, PartialEq, Eq)]
pub struct StackTrace {
    pub serial: u32,
    pub thread_serial: u32,
    pub frame_ids: Vec<u64>,
}

/// A STACK_FRAME record with names resolved.
#[derive(Debug, Clone, PartialEq, Eq)]
pub struct StackFrame {
    pub frame_id: u64,
    pub method_name: String,
    pub class_name: String,
    pub source_file: Option<String>,
    pub line_number: i32,
}

/// What kind of heap object a record described.
#[derive(Debug, Clone, Copy, PartialEq, Eq, Structural)]
pub enum ObjectKind {
    Instance,
    ObjectArray { length: u32 },
    PrimitiveArray { element_type: u8, length: u32 },
}

/// Class metadata from CLASS_DUMP records.
#[derive(Debug, Clone)]
pub struct ClassInfo {
    pub class_obj_id: u64,
    pub super_class_id: u64,
    pub class_loader_id: u64,
    pub instance_size: u32,
    pub name: Option<String>,
    pub instance_fields: Vec<FieldDescriptor>,
    pub static_references: Vec<u64>,
}

/// One declared instance field.
#[derive(Debug, Clone)]
pub struct FieldDescriptor {
    pub name: Option<String>,
    pub field_type: u8,
}

/// An object held alive directly by the virtual machine.
#[derive(Debug, Clone)]
pub struct GcRoot {
    pub object_id: u64,
    pub root_type: GcRootType,
}

/// The HPROF root kinds, with the thread data each one carries.
#[derive(Debug, Clone, Copy, PartialEq, Eq, Structural)]
pub enum GcRootType {
    JniGlobal,
    JniLocal { thread_serial: u32, frame: u32 },
    JavaFrame { thread_serial: u32, frame: u32 },
    NativeStack { thread_serial: u32 },
    StickyClass,
    ThreadBlock { thread_serial: u32 },
    MonitorUsed,
    ThreadObject { thread_serial: u32, stack_trace_serial: u32 },
    Unknown(u8),
}

/// A LOAD_CLASS record.
#[derive(Debug, Clone, Copy, PartialEq, Eq, Structural)]
pub struct LoadedClass {
    pub serial: u32,
    pub class_obj_id: u64,
    pub name_string_id: u64,
}

/// HPROF basic type codes.
pub const FIELD_TYPE_OBJECT: u8 = 2;
pub const FIELD_TYPE_BOOLEAN: u8 = 4;
pub const FIELD_TYPE_CHAR: u8 = 5;
pub const FIELD_TYPE_FLOAT: u8 = 6;
pub const FIELD_TYPE_DOUBLE: u8 = 7;
pub const FIELD_TYPE_BYTE: u8 = 8;
pub const FIELD_TYPE_SHORT: u8 = 9;
pub const FIELD_TYPE_INT: u8 = 10;
pub const FIELD_TYPE_LONG: u8 = 11;

/// Byte width of a value of an HPROF basic type, if the type is known.
pub open spec fn value_width(field_type: u8, identifier_size: u8) -> Option<u8> {
    if field_type == 2 {
        Some(identifier_size)
    } else if field_type == 4 || field_type == 8 {
        Some(1u8)
    } else if field_type == 5 || field_type == 9 {
        Some(2u8)
    } else if field_type == 6 || field_type == 10 {
        Some(4u8)
    } else if field_type == 7 || field_type == 11 {
        Some(8u8)
    } else {
        None
    }
}

/// Size in bytes of a value of the given HPROF type; object references
/// take the identifier size.
pub fn field_value_size(field_type: u8, identifier_size: u8) -> (res: Option<u8>)
    ensures
        res == value_width(field_type, identifier_size),
{
    match field_type {
        2 => Some(identifier_size),
        4 | 8 => Some(1),
        5 | 9 => Some(2),
        6 | 10 => Some(4),
        7 | 11 => Some(8),
        _ => None,
    }
}

/// The class name recorded for a class id, if both class and name exist.
pub open spec fn class_name_of(classes: Map<u64, ClassInfo>, class_id: u64) -> Option<Seq<char>> {
    if classes.contains_key(class_id) {
        match classes[class_id].name {
            Some(n) => Some(n@),
            None => None,
        }
    } else {
        None
    }
}

/// Does `v` hold `x`?
pub open spec fn holds(v: Seq<u64>, x: u64) -> bool {
    v.contains(x)
}

pub open spec fn shallow_of(o: HeapObject) -> int {
    o.shallow_size as int
}

/// Sum of the shallow sizes of all objects of a map.
pub open spec fn total_shallow(objects: Map<u64, HeapObject>) -> int {
    map_sum(objects, |o: HeapObject| shallow_of(o))
}

/// Linear membership test on a vector of ids.
pub fn vec_contains(v: &Vec<u64>, x: u64) -> (b: bool)
    ensures
        b == v@.contains(x),
{
    let mut i: usize = 0;
    while i < v.len()
        invariant
            i <= v@.len(),
            forall|j: int| 0 <= j < i ==> v@[j] != x,
        decreases v.len() - i,
    {
        if v[i] == x {
            return true;
        }
        i = i + 1;
    }
    false
}

impl ObjectGraph {
    /// An empty graph for the given identifier size.
    pub fn new(identifier_size: u8) -> (g: Self)
        ensures
            g.objects@ == Map::<u64, HeapObject>::empty(),
            g.classes@ == Map::<u64, ClassInfo>::empty(),
            g.gc_roots@ == Seq::<GcRoot>::empty(),
            g.strings@ == Map::<u64, String>::empty(),
            g.loaded_classes@ == Map::<u32, LoadedClass>::empty(),
            g.stack_traces@ == Map::<u32, StackTrace>::empty(),
            g.stack_frames@ == Map::<u64, StackFrame>::empty(),
            g.identifier_size == identifier_size,
    {
        ObjectGraph {
            objects: HashMap::new(),
            classes: HashMap::new(),
            gc_roots: Vec::new(),
            strings: HashMap::new(),
            loaded_classes: HashMap::new(),
            stack_traces: HashMap::new(),
            stack_frames: HashMap::new(),
            identifier_size,
        }
    }

    /// The resolved name of a class, if known.
    pub fn class_name(&self, class_id: u64) -> (res: Option<&str>)
        ensures
            match res {
                Some(s) => class_name_of(self.classes@, class_id) == Some(s@),
                None => class_name_of(self.classes@, class_id) is None,
            },
    {
        match self.classes.get(&class_id) {
            Some(info) => match &info.name {
                Some(n) => Some(n.as_str()),
                None => None,
            },
            None => None,
        }
    }

    /// Ids of every object whose references include `target`, each once.
    pub fn referrers(&self, target: u64) -> (res: Vec<u64>)
        ensures
            res@.no_duplicates(),
            forall|id: u64|
                res@.contains(id) <==> (self.objects@.contains_key(id) && holds(
                    self.objects@[id].references@,
                    target,
                )),
    {
        let ids = map_keys(&self.objects);
        let ghost objs = self.objects@;
        let ghost p = |id: u64| objs.contains_key(id) && holds(objs[id].references@, target);
        let mut res: Vec<u64> = Vec::new();
        let mut i: usize = 0;
        while i < ids.len()
            invariant
                i <= ids@.len(),
                objs == self.objects@,
                p == (|id: u64| objs.contains_key(id) && holds(objs[id].references@, target)),
                forall|j: int| 0 <= j < ids@.len() ==> self.objects@.contains_key(#[trigger] ids@[j]),
                res@ == ids@.take(i as int).filter(p),
            decreases ids.len() - i,
        {
            let id = ids[i];
            proof {
                lemma_take_push(ids@, i as int);
                lemma_filter_push_step(ids@.take(i as int), id, p);
            }
            let obj = self.objects.get(&id).unwrap();
            if vec_contains(&obj.references, target) {
                res.push(id);
            }
            i = i + 1;
        }
        proof {
            assert(ids@.take(i as int) =~= ids@);
            lemma_filter_no_dup(ids@, p);
            lemma_filter_contains_iff(ids@, p);
            assert forall|id: u64|
                res@.contains(id) <==> (self.objects@.contains_key(id) && holds(
                    self.objects@[id].references@,
                    target,
                )) by {
                if self.objects@.contains_key(id) {
                    assert(ids@.to_set().contains(id));
                }
            }
        }
        res
    }

    /// Number of objects.
    pub fn object_count(&self) -> (n: usize)
        ensures
            n == self.objects@.len(),
    {
        self.objects.len()
    }

    /// Sum of the shallow sizes of all objects.
    pub fn total_shallow_size(&self) -> (total: u64)
        requires
            total_shallow(self.objects@) <= u64::MAX,
        ensures
            total == total_shallow(self.objects@),
    {
        let ids = map_keys(&self.objects);
        let ghost full = self.objects@;
        let ghost f = |o: HeapObject| shallow_of(o);
        let mut total: u64 = 0;
        let mut i: usize = 0;
        let ghost mut rest = full;
        proof {
            lemma_map_sum_nonneg(full, f);
        }
        while i < ids.len()
            invariant
                i <= ids@.len(),
                ids@.no_duplicates(),
                ids@.to_set() == full.dom(),
                full == self.objects@,
                f == (|o: HeapObject| shallow_of(o)),
                rest.dom() == full.dom().difference(ids@.subrange(0, i as int).to_set()),
                forall|k: u64| #[trigger] rest.contains_key(k) ==> rest[k] == full[k],
                total + map_sum(rest, f) == map_sum(full, f),
                map_sum(full, f) <= u64::MAX,
                rest.dom().finite(),
            decreases ids.len() - i,
        {
            let id = ids[i];
            proof {
                assert(ids@.to_set().contains(id));
                assert(!ids@.subrange(0, i as int).to_set().contains(id)) by {
                    if ids@.subrange(0, i as int).to_set().contains(id) {
                        let j = choose|j: int| 0 <= j < i && ids@.subrange(0, i as int)[j] == id;
                        assert(ids@[j] == ids@[i as int]);
                    }
                }
                assert(rest.contains_key(id));
                lemma_map_sum_remove(rest, f, id);
                lemma_map_sum_nonneg(rest.remove(id), f);
            }
            let obj = self.objects.get(&id).unwrap();
            total = total + obj.shallow_size as u64;
            proof {
                rest = rest.remove(id);
                assert(ids@.subrange(0, i + 1) =~= ids@.subrange(0, i as int).push(id));
                broadcast use vstd::seq_lib::group_seq_properties;
                assert(ids@.subrange(0, i + 1).to_set() =~= ids@.subrange(0, i as int).to_set().insert(id));
                assert(rest.dom() =~= full.dom().difference(ids@.subrange(0, i + 1).to_set()));
            }
            i = i + 1;
        }
        proof {
            assert(ids@.subrange(0, i as int) =~= ids@);
            assert(rest.dom() =~= Set::<u64>::empty());
        }
        total
    }

    /// The object with the given id, if present.
    pub fn get_object(&self, id: u64) -> (res: Option<&HeapObject>)
        ensures
            match res {
                Some(o) => self.objects@.contains_key(id) && *o == self.objects@[id],
                None => !self.objects@.contains_key(id),
            },
    {
        self.objects.get(&id)
    }

    /// Outgoing references of an object (empty when it is absent).
    pub fn get_references(&self, id: u64) -> (res: Vec<u64>)
        ensures
            self.objects@.contains_key(id) ==> res@ == self.objects@[id].references@,
            !self.objects@.contains_key(id) ==> res@.len() == 0,
    {
        match self.objects.get(&id) {
            Some(o) => o.references.clone(),
            None => Vec::new(),
        }
    }

    /// Objects that reference the given id; the same set as `referrers`.
    pub fn get_referrers(&self, id: u64) -> (res: Vec<u64>)
        ensures
            res@.no_duplicates(),
            forall|x: u64|
                res@.contains(x) <==> (self.objects@.contains_key(x) && holds(
                    self.objects@[x].references@,
                    id,
                )),
    {
        self.referrers(id)
    }
}

} // verus!
