//! Reports over the object graph: class histograms, unreachable objects and
//! the largest dominators.

use vstd::prelude::*;
use std::collections::{HashMap, HashSet};
use crate::hprof::object_graph::{ObjectGraph, HeapObject, ClassInfo, GcRoot, class_name_of};
use crate::graph::dominator::{DominatorTree, VIRTUAL_ROOT_ID, is_top_listing, lemma_top_listing_unique, rank_sorted, retained_entries, ranks_before, dominators_from_edges, edge_node_bound, simple_fast_idoms, lemma_edge_bound_le};
use crate::heap::HeapSummary;
use crate::util::{map_sum, lemma_map_sum_restrict_insert, lemma_map_sum_restrict_empty,
    lemma_map_sum_restrict_subset, lemma_map_sum_restrict_ones};
use crate::text::{chars_lt, lemma_chars_lt_transitive, lemma_chars_lt_total, lemma_chars_lt_asymmetric,
    lemma_chars_lt_irreflexive, 
    push_str, push_chars, push_decimal, push_hex, push_zero_padded, chars_of, string_from_chars,
    dec_chars, hex_chars, zero_padded,
};

verus! {

broadcast use vstd::std_specs::hash::group_hash_axioms;

/// Guard on the superclass walk against malformed (cyclic) hierarchies.
pub const MAX_SUPERCLASS_CHAIN_DEPTH: usize = 32;

/// How histogram entries are grouped.
#[derive(Debug, Clone, Copy, PartialEq, Eq, Structural)]
pub enum HistogramGroupBy {
    Class,
    Package,
    ClassLoader,
    Superclass,
}

/// A class name, or `<unknown>`.
pub open spec fn name_or_unknown(n: Option<Seq<char>>) -> Seq<char> {
    match n {
        Some(s) => s,
        None => "<unknown>"@,
    }
}

/// Ancestors of `current` by `super_class_id`, nearest first: the walk stops
/// at a missing class, at a zero superclass, at an id already in `visited`,
/// or after `remaining` entries.
pub open spec fn superclass_chain(
    classes: Map<u64, ClassInfo>,
    current: u64,
    visited: Set<u64>,
    remaining: nat,
) -> Seq<u64>
    decreases remaining,
{
    if remaining == 0 || !classes.contains_key(current) {
        Seq::empty()
    } else {
        let s = classes[current].super_class_id;
        if s == 0 || visited.contains(s) {
            Seq::empty()
        } else {
            seq![s] + superclass_chain(classes, s, visited.insert(s), (remaining - 1) as nat)
        }
    }
}

/// Walks `super_class_id` upward from `class_id`'s superclass, nearest
/// first, without `class_id` itself; stops at the root, at `max_depth`
/// entries, or before revisiting a class.
pub fn resolve_superclass_chain(graph: &ObjectGraph, class_id: u64, max_depth: usize) -> (chain: Vec<u64>)
    ensures
        chain@ == superclass_chain(graph.classes@, class_id, set![class_id], max_depth as nat),
{
    let mut chain: Vec<u64> = Vec::new();
    let mut visited: HashSet<u64> = HashSet::new();
    visited.insert(class_id);
    let mut current = class_id;
    proof {
        assert(visited@ =~= set![class_id]);
    }
    while chain.len() < max_depth
        invariant_except_break
            chain@ + superclass_chain(graph.classes@, current, visited@, (max_depth - chain@.len()) as nat)
                == superclass_chain(graph.classes@, class_id, set![class_id], max_depth as nat),
        invariant
            chain@.len() <= max_depth,
        ensures
            chain@ == superclass_chain(graph.classes@, class_id, set![class_id], max_depth as nat),
        decreases max_depth - chain@.len(),
    {
        let super_id = match graph.classes.get(&current) {
            Some(c) => c.super_class_id,
            None => {
                proof {
                    assert(chain@ =~= chain@ + Seq::<u64>::empty());
                }
                break;
            },
        };
        if super_id == 0 {
            proof {
                assert(chain@ =~= chain@ + Seq::<u64>::empty());
            }
            break;
        }
        if !visited.insert(super_id) {
            proof {
                assert(chain@ =~= chain@ + Seq::<u64>::empty());
            }
            break;
        }
        let ghost rest = superclass_chain(graph.classes@, super_id, visited@, (max_depth - chain@.len() - 1) as nat);
        chain.push(super_id);
        current = super_id;
        proof {
            assert(chain@ + rest =~= chain@.drop_last() + (seq![super_id] + rest));
        }
    }
    proof {
        if chain@.len() == max_depth {
            assert(chain@ =~= chain@ + Seq::<u64>::empty());
        }
    }
    chain
}

/// Index of the last `.` or `/` of a class name.
pub open spec fn last_separator(s: Seq<char>) -> Option<int>
    decreases s.len(),
{
    if s.len() == 0 {
        None
    } else if s.last() == '.' || s.last() == '/' {
        Some(s.len() - 1)
    } else {
        last_separator(s.drop_last())
    }
}

/// The package part of a class name: everything before the last `.` or
/// `/`, or `<default>` when that is empty or there is no separator.
pub open spec fn package_of(s: Seq<char>) -> Seq<char> {
    match last_separator(s) {
        Some(i) => if i > 0 { s.take(i) } else { "<default>"@ },
        None => "<default>"@,
    }
}

/// The package part of a class name (see `package_of`).
pub fn extract_package_name(class_name: &str) -> (pkg: String)
    ensures
        pkg@ == package_of(class_name@),
{
    let cs = chars_of(class_name);
    let mut i: usize = cs.len();
    proof {
        assert(cs@.take(i as int) =~= cs@);
    }
    while i > 0
        invariant
            i <= cs@.len(),
            cs@ == class_name@,
            last_separator(cs@) == last_separator(cs@.take(i as int)),
        decreases i,
    {
        let c = cs[i - 1];
        proof {
            assert(cs@.take(i as int).last() == c);
            assert(cs@.take(i as int).drop_last() =~= cs@.take(i - 1));
        }
        if c == '.' || c == '/' {
            let mut out: Vec<char> = Vec::new();
            if i - 1 == 0 {
                push_str(&mut out, "<default>");
            } else {
                let mut k: usize = 0;
                while k < i - 1
                    invariant
                        k <= i - 1,
                        i <= cs@.len(),
                        out@ == cs@.take(k as int),
                    decreases i - 1 - k,
                {
                    out.push(cs[k]);
                    k = k + 1;
                    proof {
                        assert(out@ =~= cs@.take(k as int));
                    }
                }
            }
            proof {
                assert(out@ =~= package_of(class_name@));
            }
            return string_from_chars(&out);
        }
        i = i - 1;
    }
    proof {
        assert(cs@.take(0) =~= Seq::<char>::empty());
    }
    let mut out: Vec<char> = Vec::new();
    push_str(&mut out, "<default>");
    string_from_chars(&out)
}

/// `<prefix>` + decimal digits of `n` + `>`.
pub open spec fn tagged_number(prefix: Seq<char>, n: nat) -> Seq<char> {
    prefix + dec_chars(n) + ">"@
}

fn tagged_number_string(prefix: &str, n: u64) -> (s: String)
    ensures
        s@ == tagged_number(prefix@, n as nat),
{
    let mut out: Vec<char> = Vec::new();
    push_str(&mut out, prefix);
    push_decimal(&mut out, n);
    push_str(&mut out, ">");
    string_from_chars(&out)
}

fn literal_string(s: &str) -> (r: String)
    ensures
        r@ == s@,
{
    let mut out: Vec<char> = Vec::new();
    push_str(&mut out, s);
    proof {
        assert(out@ =~= s@);
    }
    string_from_chars(&out)
}

/// The name of a class loader: `<bootstrap>` for id 0, else the class name
/// of the loader object, else `<loader:id>`.
pub open spec fn loader_name(objects: Map<u64, HeapObject>, classes: Map<u64, ClassInfo>, loader_id: u64) -> Seq<char> {
    if loader_id == 0 {
        "<bootstrap>"@
    } else if objects.contains_key(loader_id) && class_name_of(classes, objects[loader_id].class_id) is Some {
        class_name_of(classes, objects[loader_id].class_id)->0
    } else {
        tagged_number("<loader:"@, loader_id as nat)
    }
}

/// The name of a class loader (see `loader_name`).
pub fn resolve_class_loader_name(graph: &ObjectGraph, class_loader_id: u64) -> (name: String)
    ensures
        name@ == loader_name(graph.objects@, graph.classes@, class_loader_id),
{
    if class_loader_id == 0 {
        return literal_string("<bootstrap>");
    }
    match graph.objects.get(&class_loader_id) {
        Some(loader) => match graph.class_name(loader.class_id) {
            Some(n) => return literal_string(n),
            None => {},
        },
        None => {},
    }
    tagged_number_string("<loader:", class_loader_id)
}

/// The histogram key for grouping by superclass: the name of the nearest
/// superclass, `<class:id>` when it has no name, `<java.lang.Object>` when
/// there is none.
pub open spec fn superclass_key(classes: Map<u64, ClassInfo>, class_id: u64) -> Seq<char> {
    let chain = superclass_chain(classes, class_id, set![class_id], MAX_SUPERCLASS_CHAIN_DEPTH as nat);
    if chain.len() > 0 {
        match class_name_of(classes, chain[0]) {
            Some(n) => n,
            None => tagged_number("<class:"@, chain[0] as nat),
        }
    } else {
        "<java.lang.Object>"@
    }
}

fn resolve_superclass_key(graph: &ObjectGraph, class_id: u64) -> (key: String)
    ensures
        key@ == superclass_key(graph.classes@, class_id),
{
    let chain = resolve_superclass_chain(graph, class_id, MAX_SUPERCLASS_CHAIN_DEPTH);
    if chain.len() > 0 {
        let super_id = chain[0];
        match graph.class_name(super_id) {
            Some(n) => literal_string(n),
            None => tagged_number_string("<class:", super_id),
        }
    } else {
        literal_string("<java.lang.Object>")
    }
}

/// The histogram key of an object of class `class_id`.
pub open spec fn histogram_key(
    objects: Map<u64, HeapObject>,
    classes: Map<u64, ClassInfo>,
    class_id: u64,
    group_by: HistogramGroupBy,
) -> Seq<char> {
    match group_by {
        HistogramGroupBy::Class => name_or_unknown(class_name_of(classes, class_id)),
        HistogramGroupBy::Package => package_of(name_or_unknown(class_name_of(classes, class_id))),
        HistogramGroupBy::ClassLoader => if classes.contains_key(class_id) {
            loader_name(objects, classes, classes[class_id].class_loader_id)
        } else {
            "<unknown>"@
        },
        HistogramGroupBy::Superclass => if classes.contains_key(class_id) {
            superclass_key(classes, class_id)
        } else {
            "<unknown>"@
        },
    }
}

fn resolve_class_key(graph: &ObjectGraph, class_id: u64, group_by: HistogramGroupBy) -> (key: String)
    ensures
        key@ == histogram_key(graph.objects@, graph.classes@, class_id, group_by),
{
    match group_by {
        HistogramGroupBy::Class => match graph.class_name(class_id) {
            Some(n) => literal_string(n),
            None => literal_string("<unknown>"),
        },
        HistogramGroupBy::Package => match graph.class_name(class_id) {
            Some(n) => extract_package_name(n),
            None => extract_package_name("<unknown>"),
        },
        HistogramGroupBy::ClassLoader => match graph.classes.get(&class_id) {
            Some(c) => resolve_class_loader_name(graph, c.class_loader_id),
            None => literal_string("<unknown>"),
        },
        HistogramGroupBy::Superclass => if graph.classes.contains_key(&class_id) {
            resolve_superclass_key(graph, class_id)
        } else {
            literal_string("<unknown>")
        },
    }
}

/// `0x` followed by the uppercase hexadecimal id, zero-padded to two digits
/// per identifier byte.
pub open spec fn graph_object_id_text(object_id: u64, id_size: u8) -> Seq<char> {
    "0x"@ + zero_padded(hex_chars(object_id as nat, true), (id_size as nat) * 2)
}

fn format_graph_object_id(object_id: u64, id_size: u8) -> (s: String)
    ensures
        s@ == graph_object_id_text(object_id, id_size),
{
    let mut digits: Vec<char> = Vec::new();
    push_hex(&mut digits, object_id, true);
    let mut out: Vec<char> = Vec::new();
    push_str(&mut out, "0x");
    push_zero_padded(&mut out, &digits, id_size as usize * 2);
    string_from_chars(&out)
}


/// `x` is an object listed as a GC root.
pub open spec fn is_root_object(objects: Map<u64, HeapObject>, roots: Seq<GcRoot>, x: u64) -> bool {
    objects.contains_key(x) && exists|r: int| 0 <= r < roots.len() && #[trigger] roots[r].object_id == x
}

/// A chain of objects, each referencing the next.
pub open spec fn ref_chain(objects: Map<u64, HeapObject>, p: Seq<u64>) -> bool {
    &&& p.len() >= 1
    &&& forall|i: int| 0 <= i < p.len() ==> objects.contains_key(#[trigger] p[i])
    &&& forall|i: int| 0 <= i < p.len() - 1 ==> objects[#[trigger] p[i]].references@.contains(p[i + 1])
}

/// `x` can be reached from a GC root through references between objects.
pub open spec fn reachable(objects: Map<u64, HeapObject>, roots: Seq<GcRoot>, x: u64) -> bool {
    exists|p: Seq<u64>| #[trigger] ref_chain(objects, p) && is_root_object(objects, roots, p[0]) && p.last() == x
}

proof fn lemma_chain_stays_inside(objects: Map<u64, HeapObject>, set: Set<u64>, p: Seq<u64>, i: int)
    requires
        ref_chain(objects, p),
        set.contains(p[0]),
        forall|x: u64, y: u64| #![trigger set.contains(x), objects[x].references@.contains(y)]
            set.contains(x) && objects.contains_key(y) && objects[x].references@.contains(y) ==> set.contains(y),
        0 <= i < p.len(),
    ensures
        set.contains(p[i]),
    decreases i,
{
    if i > 0 {
        lemma_chain_stays_inside(objects, set, p, i - 1);
        assert(objects[p[i - 1]].references@.contains(p[i]));
    }
}

/// The set of objects reachable from the GC roots, by breadth-first search.
fn reachable_set(graph: &ObjectGraph) -> (reached: HashSet<u64>)
    ensures
        forall|x: u64| #[trigger] reached@.contains(x) <==> reachable(graph.objects@, graph.gc_roots@, x),
{
    let ghost objects = graph.objects@;
    let ghost roots = graph.gc_roots@;
    let mut reached: HashSet<u64> = HashSet::new();
    let mut queue: Vec<u64> = Vec::new();
    let ghost mut paths: Map<u64, Seq<u64>> = Map::empty();
    let mut r: usize = 0;
    while r < graph.gc_roots.len()
        invariant
            objects == graph.objects@,
            roots == graph.gc_roots@,
            r <= roots.len(),
            forall|x: u64| #[trigger] reached@.contains(x) ==> objects.contains_key(x),
            forall|x: u64| #[trigger] reached@.contains(x) ==> paths.contains_key(x) && ref_chain(objects, paths[x])
                && is_root_object(objects, roots, paths[x][0]) && paths[x].last() == x,
            forall|q: int| 0 <= q < queue@.len() ==> reached@.contains(#[trigger] queue@[q]),
            forall|x: u64| #[trigger] reached@.contains(x) ==> queue@.contains(x),
            queue@.no_duplicates(),
            forall|r2: int| 0 <= r2 < r && objects.contains_key(#[trigger] roots[r2].object_id) ==> reached@.contains(roots[r2].object_id),
        decreases roots.len() - r,
    {
        let oid = graph.gc_roots[r].object_id;
        if graph.objects.contains_key(&oid) {
            if reached.insert(oid) {
                let ghost before = queue@;
                queue.push(oid);
                proof {
                    paths = paths.insert(oid, seq![oid]);
                    assert(is_root_object(objects, roots, oid)) by {
                        assert(roots[r as int].object_id == oid);
                    }
                    assert(ref_chain(objects, seq![oid]));
                    assert(queue@[queue@.len() - 1] == oid);
                    assert(!before.contains(oid));
                    assert(queue@.no_duplicates()) by {
                        assert forall|a: int, b: int| 0 <= a < queue@.len() && 0 <= b < queue@.len() && a != b implies queue@[a] != queue@[b] by {
                            if a < before.len() && b < before.len() {
                                assert(before[a] != before[b]);
                            } else if a < before.len() {
                                assert(before.contains(before[a]));
                            } else {
                                assert(before.contains(before[b]));
                            }
                        }
                    }
                    assert forall|x: u64| #[trigger] reached@.contains(x) implies queue@.contains(x) by {
                        if x != oid {
                            let w = choose|w: int| 0 <= w < before.len() && before[w] == x;
                            assert(queue@[w] == x);
                        }
                    }
                }
            }
        }
        r = r + 1;
    }
    let mut head: usize = 0;
    while head < queue.len()
        invariant
            objects == graph.objects@,
            roots == graph.gc_roots@,
            objects.dom().finite(),
            forall|x: u64| #[trigger] reached@.contains(x) ==> objects.contains_key(x),
            forall|x: u64| #[trigger] reached@.contains(x) ==> paths.contains_key(x) && ref_chain(objects, paths[x])
                && is_root_object(objects, roots, paths[x][0]) && paths[x].last() == x,
            forall|q: int| 0 <= q < queue@.len() ==> reached@.contains(#[trigger] queue@[q]),
            forall|x: u64| #[trigger] reached@.contains(x) ==> queue@.contains(x),
            queue@.no_duplicates(),
            forall|r2: int| 0 <= r2 < roots.len() && objects.contains_key(#[trigger] roots[r2].object_id) ==> reached@.contains(roots[r2].object_id),
            head <= queue@.len(),
            forall|q: int, y: u64| 0 <= q < head && objects.contains_key(y) && objects[#[trigger] queue@[q]].references@.contains(y)
                ==> #[trigger] reached@.contains(y),
        decreases objects.dom().len() - head,
    {
        proof {
            assert(queue@.to_set().subset_of(objects.dom())) by {
                assert forall|x: u64| queue@.to_set().contains(x) implies objects.dom().contains(x) by {
                    let w = choose|w: int| 0 <= w < queue@.len() && queue@[w] == x;
                    assert(reached@.contains(queue@[w]));
                }
            }
            vstd::set_lib::lemma_len_subset(queue@.to_set(), objects.dom());
            queue@.unique_seq_to_set();
        }
        let current = queue[head];
        match graph.objects.get(&current) {
            Some(obj) => {
                let ghost queue_at_head = queue@;
                let mut t: usize = 0;
                while t < obj.references.len()
                    invariant
                        objects == graph.objects@,
                        roots == graph.gc_roots@,
                        *obj == objects[current],
                        objects.contains_key(current),
                        head < queue@.len(),
                        queue@[head as int] == current,
                        queue@.len() >= queue_at_head.len(),
                        forall|q: int| 0 <= q < queue_at_head.len() ==> queue@[q] == queue_at_head[q],
                        forall|x: u64| #[trigger] reached@.contains(x) ==> objects.contains_key(x),
                        forall|x: u64| #[trigger] reached@.contains(x) ==> paths.contains_key(x) && ref_chain(objects, paths[x])
                            && is_root_object(objects, roots, paths[x][0]) && paths[x].last() == x,
                        forall|q: int| 0 <= q < queue@.len() ==> reached@.contains(#[trigger] queue@[q]),
                        forall|x: u64| #[trigger] reached@.contains(x) ==> queue@.contains(x),
                        queue@.no_duplicates(),
                        forall|r2: int| 0 <= r2 < roots.len() && objects.contains_key(#[trigger] roots[r2].object_id) ==> reached@.contains(roots[r2].object_id),
                        forall|q: int, y: u64| 0 <= q < head && objects.contains_key(y) && objects[#[trigger] queue@[q]].references@.contains(y)
                            ==> #[trigger] reached@.contains(y),
                        forall|k: int| 0 <= k < t && objects.contains_key(#[trigger] obj.references@[k]) ==> reached@.contains(obj.references@[k]),
                    decreases obj.references@.len() - t,
                {
                    let y = obj.references[t];
                    if graph.objects.contains_key(&y) {
                        if reached.insert(y) {
                            let ghost before = queue@;
                            queue.push(y);
                            proof {
                                let pc = paths[current];
                                let py = pc.push(y);
                                assert(reached@.contains(current));
                                assert(ref_chain(objects, py)) by {
                                    assert forall|i: int| 0 <= i < py.len() - 1 implies objects[#[trigger] py[i]].references@.contains(py[i + 1]) by {
                                        if i < pc.len() - 1 {
                                            assert(py[i] == pc[i] && py[i + 1] == pc[i + 1]);
                                        } else {
                                            assert(py[i] == current);
                                            assert(obj.references@[t as int] == y);
                                        }
                                    }
                                }
                                paths = paths.insert(y, py);
                                assert(!before.contains(y));
                                assert(queue@.no_duplicates()) by {
                                    assert forall|a: int, b: int| 0 <= a < queue@.len() && 0 <= b < queue@.len() && a != b implies queue@[a] != queue@[b] by {
                                        if a < before.len() && b < before.len() {
                                            assert(before[a] != before[b]);
                                        } else if a < before.len() {
                                            assert(before.contains(before[a]));
                                        } else {
                                            assert(before.contains(before[b]));
                                        }
                                    }
                                }
                                assert forall|x: u64| #[trigger] reached@.contains(x) implies queue@.contains(x) by {
                                    if x != y {
                                        let w = choose|w: int| 0 <= w < before.len() && before[w] == x;
                                        assert(queue@[w] == x);
                                    } else {
                                        assert(queue@[queue@.len() - 1] == y);
                                    }
                                }
                            }
                        }
                    }
                    t = t + 1;
                }
                proof {
                    assert forall|q: int, y: u64| 0 <= q < head + 1 && objects.contains_key(y) && objects[#[trigger] queue@[q]].references@.contains(y)
                        implies #[trigger] reached@.contains(y) by {
                        if q == head {
                            let k = choose|k: int| 0 <= k < obj.references@.len() && obj.references@[k] == y;
                        }
                    }
                }
            },
            None => {
                proof {
                    assert(reached@.contains(queue@[head as int]));
                }
            },
        }
        head = head + 1;
    }
    proof {
        assert forall|x: u64| #[trigger] reached@.contains(x) <==> reachable(objects, roots, x) by {
            if reached@.contains(x) {
                assert(ref_chain(objects, paths[x]));
            }
            if reachable(objects, roots, x) {
                let p = choose|p: Seq<u64>| #[trigger] ref_chain(objects, p) && is_root_object(objects, roots, p[0]) && p.last() == x;
                let r2 = choose|r2: int| 0 <= r2 < roots.len() && #[trigger] roots[r2].object_id == p[0];
                assert(reached@.contains(p[0]));
                assert forall|a: u64, b: u64| #![trigger reached@.contains(a), objects[a].references@.contains(b)]
                    reached@.contains(a) && objects.contains_key(b) && objects[a].references@.contains(b)
                    implies reached@.contains(b) by {
                    let w = choose|w: int| 0 <= w < queue@.len() && queue@[w] == a;
                }
                lemma_chain_stays_inside(objects, reached@, p, p.len() - 1);
            }
        }
    }
    reached
}


/// Unreachable objects of one class name.
#[derive(Debug, Clone, PartialEq, Eq)]
pub struct UnreachableClassEntry {
    pub class_name: String,
    pub count: u64,
    pub shallow_size: u64,
}

/// Objects that no GC root reaches, in total and per class name.
#[derive(Debug, Clone, PartialEq, Eq)]
pub struct UnreachableSet {
    pub total_count: u64,
    pub total_shallow_size: u64,
    pub by_class: Vec<UnreachableClassEntry>,
}

/// One for every object.
pub open spec fn count_fn() -> spec_fn(HeapObject) -> int {
    |o: HeapObject| 1int
}

/// The shallow size of an object.
pub open spec fn shallow_fn() -> spec_fn(HeapObject) -> int {
    |o: HeapObject| o.shallow_size as int
}

/// Sum of `f` over the objects with the given ids.
pub open spec fn sum_over(objects: Map<u64, HeapObject>, d: Set<u64>, f: spec_fn(HeapObject) -> int) -> int {
    map_sum(objects.restrict(d), f)
}

/// The class name of an object, or `<unknown>`.
pub open spec fn object_class_name(objects: Map<u64, HeapObject>, classes: Map<u64, ClassInfo>, x: u64) -> Seq<char> {
    name_or_unknown(class_name_of(classes, objects[x].class_id))
}

/// Ids of the objects that no GC root reaches.
pub open spec fn dead_ids(objects: Map<u64, HeapObject>, roots: Seq<GcRoot>) -> Set<u64> {
    objects.dom().filter(|x: u64| !reachable(objects, roots, x))
}

/// Ids of the unreachable objects whose class name is `name`.
pub open spec fn dead_named(
    objects: Map<u64, HeapObject>,
    roots: Seq<GcRoot>,
    classes: Map<u64, ClassInfo>,
    name: Seq<char>,
) -> Set<u64> {
    dead_ids(objects, roots).filter(|x: u64| object_class_name(objects, classes, x) == name)
}

/// Listing order of unreachable classes: larger total size first, then
/// larger count, then name.
pub open spec fn dead_before(a: UnreachableClassEntry, b: UnreachableClassEntry) -> bool {
    ||| a.shallow_size > b.shallow_size
    ||| (a.shallow_size == b.shallow_size && a.count > b.count)
    ||| (a.shallow_size == b.shallow_size && a.count == b.count && chars_lt(a.class_name@, b.class_name@))
}

fn dead_before_exec(a: &UnreachableClassEntry, b: &UnreachableClassEntry) -> (r: bool)
    ensures
        r == dead_before(*a, *b),
{
    if a.shallow_size != b.shallow_size {
        return a.shallow_size > b.shallow_size;
    }
    if a.count != b.count {
        return a.count > b.count;
    }
    let an = chars_of(a.class_name.as_str());
    let bn = chars_of(b.class_name.as_str());
    crate::text::chars_less(&an, &bn)
}

proof fn lemma_dead_before_order(a: UnreachableClassEntry, b: UnreachableClassEntry, c: UnreachableClassEntry)
    ensures
        dead_before(a, b) && dead_before(b, c) ==> dead_before(a, c),
        dead_before(a, b) ==> !dead_before(b, a),
        a.class_name@ != b.class_name@ ==> dead_before(a, b) || dead_before(b, a),
{
    if dead_before(a, b) && dead_before(b, c) {
        if a.shallow_size == b.shallow_size && b.shallow_size == c.shallow_size && a.count == b.count && b.count == c.count {
            lemma_chars_lt_transitive(a.class_name@, b.class_name@, c.class_name@);
        }
    }
    if dead_before(a, b) && a.shallow_size == b.shallow_size && a.count == b.count {
        lemma_chars_lt_asymmetric(a.class_name@, b.class_name@);
    }
    if a.class_name@ != b.class_name@ {
        lemma_chars_lt_total(a.class_name@, b.class_name@);
    }
}

/// Sorts entries with distinct names into listing order.
fn sort_dead_entries(entries: Vec<UnreachableClassEntry>) -> (sorted: Vec<UnreachableClassEntry>)
    requires
        forall|i: int, j: int| 0 <= i < entries@.len() && 0 <= j < entries@.len() && i != j
            ==> (#[trigger] entries@[i]).class_name@ != (#[trigger] entries@[j]).class_name@,
    ensures
        sorted@.len() == entries@.len(),
        forall|x: UnreachableClassEntry| #[trigger] sorted@.contains(x) <==> entries@.contains(x),
        forall|i: int, j: int| 0 <= i < j < sorted@.len() ==> dead_before(#[trigger] sorted@[i], #[trigger] sorted@[j]),
{
    let mut sorted: Vec<UnreachableClassEntry> = Vec::new();
    let mut rest = entries;
    let ghost all = rest@;
    while rest.len() > 0
        invariant
            forall|i: int, j: int| 0 <= i < all.len() && 0 <= j < all.len() && i != j
                ==> (#[trigger] all[i]).class_name@ != (#[trigger] all[j]).class_name@,
            forall|x: UnreachableClassEntry| #[trigger] all.contains(x) <==> (sorted@.contains(x) || rest@.contains(x)),
            forall|j: int| 0 <= j < rest@.len() ==> all.contains(#[trigger] rest@[j]),
            forall|i: int, j: int| 0 <= i < rest@.len() && 0 <= j < rest@.len() && i != j
                ==> (#[trigger] rest@[i]).class_name@ != (#[trigger] rest@[j]).class_name@,
            forall|i: int, j: int| 0 <= i < j < sorted@.len() ==> dead_before(#[trigger] sorted@[i], #[trigger] sorted@[j]),
            forall|i: int, j: int| 0 <= i < sorted@.len() && 0 <= j < rest@.len() ==> dead_before(#[trigger] sorted@[i], #[trigger] rest@[j]),
            sorted@.len() + rest@.len() == all.len(),
        decreases rest@.len(),
    {
        let mut best: usize = 0;
        let mut i: usize = 1;
        while i < rest.len()
            invariant
                0 <= best < rest@.len(),
                1 <= i <= rest@.len(),
                best < i,
                forall|j: int| 0 <= j < i && j != best ==> dead_before(rest@[best as int], #[trigger] rest@[j]),
                forall|a: int, b: int| 0 <= a < rest@.len() && 0 <= b < rest@.len() && a != b
                    ==> (#[trigger] rest@[a]).class_name@ != (#[trigger] rest@[b]).class_name@,
            decreases rest@.len() - i,
        {
            if dead_before_exec(&rest[i], &rest[best]) {
                proof {
                    assert forall|j: int| 0 <= j < i + 1 && j != i implies dead_before(rest@[i as int], #[trigger] rest@[j]) by {
                        if j != best as int {
                            lemma_dead_before_order(rest@[i as int], rest@[best as int], rest@[j]);
                        }
                    }
                }
                best = i;
            } else {
                proof {
                    lemma_dead_before_order(rest@[best as int], rest@[i as int], rest@[i as int]);
                }
            }
            i = i + 1;
        }
        let ghost old_rest = rest@;
        let ghost old_sorted = sorted@;
        let e = rest.remove(best);
        sorted.push(e);
        proof {
            assert(rest@ == old_rest.remove(best as int));
            assert forall|j: int| 0 <= j < rest@.len() implies #[trigger] rest@[j] == old_rest[if j < best { j } else { j + 1 }] by {}
            assert forall|x: UnreachableClassEntry| #[trigger] all.contains(x) <==> (sorted@.contains(x) || rest@.contains(x)) by {
                if old_rest.contains(x) {
                    let w = choose|w: int| 0 <= w < old_rest.len() && old_rest[w] == x;
                    if w == best {
                        assert(sorted@[sorted@.len() - 1] == x);
                    } else if w < best {
                        assert(rest@[w] == x);
                    } else {
                        assert(rest@[w - 1] == x);
                    }
                }
                if old_sorted.contains(x) {
                    let w = choose|w: int| 0 <= w < old_sorted.len() && old_sorted[w] == x;
                    assert(sorted@[w] == x);
                }
                if sorted@.contains(x) {
                    let w = choose|w: int| 0 <= w < sorted@.len() && sorted@[w] == x;
                    if w < old_sorted.len() {
                        assert(old_sorted[w] == x);
                    } else {
                        assert(old_rest[best as int] == x);
                    }
                }
                if rest@.contains(x) {
                    let w = choose|w: int| 0 <= w < rest@.len() && rest@[w] == x;
                }
            }
            assert forall|i2: int, j: int| 0 <= i2 < j < sorted@.len() implies dead_before(#[trigger] sorted@[i2], #[trigger] sorted@[j]) by {
                if j == sorted@.len() - 1 {
                    assert(sorted@[i2] == old_sorted[i2]);
                    assert(dead_before(old_sorted[i2], old_rest[best as int]));
                }
            }
            assert forall|i2: int, j: int| 0 <= i2 < sorted@.len() && 0 <= j < rest@.len() implies dead_before(#[trigger] sorted@[i2], #[trigger] rest@[j]) by {
                let oj = if j < best { j } else { j + 1 };
                if i2 < old_sorted.len() {
                    assert(dead_before(old_sorted[i2], old_rest[oj]));
                } else {
                    assert(oj != best);
                }
            }
        }
    }
    sorted
}


/// The class name of an object as a `String`, or `<unknown>`.
fn object_class_name_string(graph: &ObjectGraph, class_id: u64) -> (n: String)
    ensures
        n@ == name_or_unknown(class_name_of(graph.classes@, class_id)),
{
    match graph.class_name(class_id) {
        Some(n) => literal_string(n),
        None => literal_string("<unknown>"),
    }
}

/// Index of the group named `name`, appended (empty) when there is none.
fn dead_group_index(groups: &mut Vec<UnreachableClassEntry>, name: String) -> (g: usize)
    ensures
        g < final(groups)@.len(),
        final(groups)@[g as int].class_name@ == name@,
        final(groups)@.len() >= old(groups)@.len(),
        forall|h: int| 0 <= h < old(groups)@.len() ==> #[trigger] final(groups)@[h] == old(groups)@[h],
        final(groups)@.len() > old(groups)@.len() ==> {
            &&& final(groups)@.len() == old(groups)@.len() + 1
            &&& g == old(groups)@.len()
            &&& final(groups)@[g as int].count == 0
            &&& final(groups)@[g as int].shallow_size == 0
            &&& forall|h: int| 0 <= h < old(groups)@.len() ==> (#[trigger] old(groups)@[h]).class_name@ != name@
        },
{
    let mut g: usize = 0;
    while g < groups.len()
        invariant
            g <= groups@.len(),
            groups@ == old(groups)@,
            forall|h: int| 0 <= h < g ==> (#[trigger] groups@[h]).class_name@ != name@,
        decreases groups@.len() - g,
    {
        if groups[g].class_name == name {
            return g;
        }
        g = g + 1;
    }
    groups.push(UnreachableClassEntry { class_name: name, count: 0, shallow_size: 0 });
    g
}

/// Objects that no GC root reaches, counted and sized per class name and
/// listed by decreasing total size, then count, then name.
pub fn find_unreachable_objects(graph: &ObjectGraph) -> (set: UnreachableSet)
    requires
        sum_over(graph.objects@, dead_ids(graph.objects@, graph.gc_roots@), shallow_fn()) <= u64::MAX,
    ensures
        set.total_count == dead_ids(graph.objects@, graph.gc_roots@).len(),
        set.total_shallow_size == sum_over(graph.objects@, dead_ids(graph.objects@, graph.gc_roots@), shallow_fn()),
        forall|g: int| 0 <= g < set.by_class@.len() ==> {
            let d = dead_named(graph.objects@, graph.gc_roots@, graph.classes@, (#[trigger] set.by_class@[g]).class_name@);
            &&& set.by_class@[g].count == d.len()
            &&& set.by_class@[g].shallow_size == sum_over(graph.objects@, d, shallow_fn())
            &&& d.len() > 0
        },
        forall|x: u64| #[trigger] dead_ids(graph.objects@, graph.gc_roots@).contains(x) ==> exists|g: int|
            0 <= g < set.by_class@.len() && set.by_class@[g].class_name@ == object_class_name(graph.objects@, graph.classes@, x),
        forall|i: int, j: int| 0 <= i < j < set.by_class@.len() ==> dead_before(#[trigger] set.by_class@[i], #[trigger] set.by_class@[j]),
{
    let ghost objects = graph.objects@;
    let ghost roots = graph.gc_roots@;
    let ghost classes = graph.classes@;
    let ghost dead = dead_ids(objects, roots);
    let reached = reachable_set(graph);
    let ids = crate::util::map_keys(&graph.objects);
    let mut groups: Vec<UnreachableClassEntry> = Vec::new();
    let mut cache: HashMap<u64, usize> = HashMap::new();
    let mut total_count: u64 = 0;
    let mut total_shallow: u64 = 0;
    let mut i: usize = 0;
    proof {
        lemma_map_sum_restrict_empty(objects, shallow_fn());
        assert(dead.finite());
        assert(ids@.take(0).to_set() =~= Set::<u64>::empty());
        assert(dead.intersect(Set::<u64>::empty()) =~= Set::<u64>::empty());
    }
    while i < ids.len()
        invariant
            objects == graph.objects@,
            roots == graph.gc_roots@,
            classes == graph.classes@,
            dead == dead_ids(objects, roots),
            sum_over(objects, dead, shallow_fn()) <= u64::MAX,
            forall|x: u64| #[trigger] reached@.contains(x) <==> reachable(objects, roots, x),
            i <= ids@.len(),
            ids@.to_set() == objects.dom(),
            ids@.no_duplicates(),
            forall|k: int| 0 <= k < ids@.len() ==> objects.contains_key(#[trigger] ids@[k]),
            total_count == dead.intersect(ids@.take(i as int).to_set()).len(),
            total_shallow == sum_over(objects, dead.intersect(ids@.take(i as int).to_set()), shallow_fn()),
            forall|g: int| 0 <= g < groups@.len() ==> {
                let d = dead_named(objects, roots, classes, (#[trigger] groups@[g]).class_name@).intersect(ids@.take(i as int).to_set());
                &&& groups@[g].count == d.len()
                &&& groups@[g].shallow_size == sum_over(objects, d, shallow_fn())
                &&& d.len() > 0
            },
            forall|a: int, b: int| 0 <= a < groups@.len() && 0 <= b < groups@.len() && a != b
                ==> (#[trigger] groups@[a]).class_name@ != (#[trigger] groups@[b]).class_name@,
            forall|x: u64| #[trigger] dead.contains(x) && ids@.take(i as int).contains(x) ==> exists|g: int|
                0 <= g < groups@.len() && groups@[g].class_name@ == object_class_name(objects, classes, x),
            forall|c: u64| #[trigger] cache@.contains_key(c) ==> cache@[c] < groups@.len()
                && groups@[cache@[c] as int].class_name@ == name_or_unknown(class_name_of(classes, c)),
        decreases ids@.len() - i,
    {
        let id = ids[i];
        let ghost pre = ids@.take(i as int).to_set();
        let ghost nxt = ids@.take(i + 1).to_set();
        proof {
            assert(ids@.take(i + 1) =~= ids@.take(i as int).push(id));
            assert(nxt =~= pre.insert(id)) by {
                broadcast use vstd::seq_lib::group_seq_properties;
            }
            assert(!pre.contains(id)) by {
                if pre.contains(id) {
                    let w = choose|w: int| 0 <= w < i && ids@.take(i as int)[w] == id;
                    assert(ids@[w] == ids@[i as int]);
                }
            }
            assert(pre.finite());
        }
        let obj = graph.objects.get(&id).unwrap();
        if !reached.contains(&id) {
            proof {
                assert(dead.contains(id));
                assert(dead.intersect(nxt) =~= dead.intersect(pre).insert(id));
                lemma_map_sum_restrict_insert(objects, dead.intersect(pre), id, shallow_fn());
                lemma_map_sum_restrict_subset(objects, dead.intersect(nxt), dead, shallow_fn());
            }
            let ghost before = groups@;
            let gi: usize = match cache.get(&obj.class_id) {
                Some(g) => *g,
                None => {
                    let name = object_class_name_string(graph, obj.class_id);
                    let g = dead_group_index(&mut groups, name);
                    proof {
                        if groups@.len() > before.len() {
                            let nm = groups@[g as int].class_name@;
                            let d = dead_named(objects, roots, classes, nm).intersect(pre);
                            assert(d =~= Set::<u64>::empty()) by {
                                assert forall|x: u64| !d.contains(x) by {
                                    if d.contains(x) {
                                        assert(dead.contains(x) && ids@.take(i as int).contains(x));
                                        let h = choose|h: int| 0 <= h < before.len() && before[h].class_name@ == object_class_name(objects, classes, x);
                                    }
                                }
                            }
                            lemma_map_sum_restrict_empty(objects, shallow_fn());
                        }
                    }
                    cache.insert(obj.class_id, g);
                    g
                },
            };
            let ghost mid = groups@;
            proof {
                assert(groups@[gi as int].class_name@ == object_class_name(objects, classes, id));
                let nm = groups@[gi as int].class_name@;
                let dg = dead_named(objects, roots, classes, nm);
                assert(dg.intersect(nxt) =~= dg.intersect(pre).insert(id));
                lemma_map_sum_restrict_insert(objects, dg.intersect(pre), id, shallow_fn());
                lemma_map_sum_restrict_subset(objects, dg.intersect(nxt), dead.intersect(nxt), shallow_fn());
                ids@.take(i + 1).unique_seq_to_set();
                vstd::set_lib::lemma_len_subset(dead.intersect(nxt), nxt);
                vstd::set_lib::lemma_len_subset(dg.intersect(nxt), dead.intersect(nxt));
                assert(dg.intersect(pre).finite());
            }
            let cnt = groups[gi].count;
            let sz = groups[gi].shallow_size;
            groups[gi].count = cnt + 1;
            groups[gi].shallow_size = sz + obj.shallow_size as u64;
            total_count = total_count + 1;
            total_shallow = total_shallow + obj.shallow_size as u64;
            proof {
                assert(groups@[gi as int].class_name == mid[gi as int].class_name);
                assert forall|g: int| 0 <= g < groups@.len() && g != gi implies #[trigger] groups@[g] == mid[g] by {}
                assert forall|g: int| 0 <= g < groups@.len() implies {
                    let d = dead_named(objects, roots, classes, (#[trigger] groups@[g]).class_name@).intersect(nxt);
                    &&& groups@[g].count == d.len()
                    &&& groups@[g].shallow_size == sum_over(objects, d, shallow_fn())
                    &&& d.len() > 0
                } by {
                    if g != gi {
                        let nm = groups@[g].class_name@;
                        assert(nm != mid[gi as int].class_name@);
                        assert(dead_named(objects, roots, classes, nm).intersect(nxt)
                            =~= dead_named(objects, roots, classes, nm).intersect(pre));
                    }
                }
                assert forall|x: u64| #[trigger] dead.contains(x) && ids@.take(i + 1).contains(x) implies exists|g: int|
                    0 <= g < groups@.len() && groups@[g].class_name@ == object_class_name(objects, classes, x) by {
                    if x == id {
                        assert(groups@[gi as int].class_name@ == object_class_name(objects, classes, x));
                    } else {
                        assert(nxt.contains(x));
                        assert(pre.contains(x));
                        assert(ids@.take(i as int).contains(x));
                        let h = choose|h: int| 0 <= h < before.len() && before[h].class_name@ == object_class_name(objects, classes, x);
                        assert(mid[h] == before[h]);
                        if h != gi {
                            assert(groups@[h] == mid[h]);
                        }
                        assert(groups@[h].class_name@ == mid[h].class_name@);
                    }
                }
            }
        } else {
            proof {
                assert(!dead.contains(id));
                assert(dead.intersect(nxt) =~= dead.intersect(pre));
                assert forall|g: int| 0 <= g < groups@.len() implies
                    dead_named(objects, roots, classes, (#[trigger] groups@[g]).class_name@).intersect(nxt)
                    =~= dead_named(objects, roots, classes, groups@[g].class_name@).intersect(pre) by {}
                assert forall|x: u64| #[trigger] dead.contains(x) && ids@.take(i + 1).contains(x) implies exists|g: int|
                    0 <= g < groups@.len() && groups@[g].class_name@ == object_class_name(objects, classes, x) by {
                    assert(nxt.contains(x));
                    assert(pre.contains(x));
                }
            }
        }
        i = i + 1;
    }
    proof {
        assert(ids@.take(i as int) =~= ids@);
        assert(dead.intersect(ids@.to_set()) =~= dead);
    }
    let ghost grouped = groups@;
    let by_class = sort_dead_entries(groups);
    let set = UnreachableSet { total_count, total_shallow_size: total_shallow, by_class };
    proof {
        assert forall|g: int| 0 <= g < set.by_class@.len() implies {
            let d = dead_named(objects, roots, classes, (#[trigger] set.by_class@[g]).class_name@);
            &&& set.by_class@[g].count == d.len()
            &&& set.by_class@[g].shallow_size == sum_over(objects, d, shallow_fn())
            &&& d.len() > 0
        } by {
            assert(set.by_class@.contains(set.by_class@[g]));
            let h = choose|h: int| 0 <= h < grouped.len() && grouped[h] == set.by_class@[g];
            let nm = grouped[h].class_name@;
            assert(dead_named(objects, roots, classes, nm).intersect(ids@.to_set()) =~= dead_named(objects, roots, classes, nm));
        }
        assert forall|x: u64| #[trigger] dead_ids(graph.objects@, graph.gc_roots@).contains(x) implies exists|g: int|
            0 <= g < set.by_class@.len() && set.by_class@[g].class_name@ == object_class_name(graph.objects@, graph.classes@, x) by {
            assert(dead.contains(x));
            assert(ids@.to_set().contains(x));
            assert(ids@.take(i as int).contains(x));
            let h = choose|h: int| 0 <= h < grouped.len() && grouped[h].class_name@ == object_class_name(objects, classes, x);
            assert(grouped.contains(grouped[h]));
            assert(set.by_class@.contains(grouped[h]));
            let g = choose|g: int| 0 <= g < set.by_class@.len() && set.by_class@[g] == grouped[h];
        }
    }
    set
}


/// One histogram group.
#[derive(Debug, Clone, PartialEq, Eq)]
pub struct HistogramEntry {
    pub key: String,
    pub instance_count: u64,
    pub shallow_size: u64,
    pub retained_size: u64,
}

/// Objects grouped by a key, with totals over all objects.
#[derive(Debug, Clone, PartialEq, Eq)]
pub struct HistogramResult {
    pub group_by: HistogramGroupBy,
    pub entries: Vec<HistogramEntry>,
    pub total_instances: u64,
    pub total_shallow_size: u64,
}

/// Retained size of each object (zero outside the tree), keyed by object id.
pub open spec fn retained_of_objects(objects: Map<u64, HeapObject>, tree: DominatorTree) -> Map<u64, u64> {
    objects.dom().mk_map(|k: u64| if tree.retained_view().contains_key(k) { tree.retained_view()[k] } else { 0u64 })
}

/// A number as an integer.
pub open spec fn value_fn() -> spec_fn(u64) -> int {
    |v: u64| v as int
}

/// Ids of the objects whose histogram key is `key`.
pub open spec fn keyed_ids(
    objects: Map<u64, HeapObject>,
    classes: Map<u64, ClassInfo>,
    group_by: HistogramGroupBy,
    key: Seq<char>,
) -> Set<u64> {
    objects.dom().filter(|x: u64| histogram_key(objects, classes, objects[x].class_id, group_by) == key)
}

/// Histogram order: larger retained size first, then larger shallow size,
/// then key.
pub open spec fn hist_before(a: HistogramEntry, b: HistogramEntry) -> bool {
    ||| a.retained_size > b.retained_size
    ||| (a.retained_size == b.retained_size && a.shallow_size > b.shallow_size)
    ||| (a.retained_size == b.retained_size && a.shallow_size == b.shallow_size && chars_lt(a.key@, b.key@))
}

fn hist_before_exec(a: &HistogramEntry, b: &HistogramEntry) -> (r: bool)
    ensures
        r == hist_before(*a, *b),
{
    if a.retained_size != b.retained_size {
        return a.retained_size > b.retained_size;
    }
    if a.shallow_size != b.shallow_size {
        return a.shallow_size > b.shallow_size;
    }
    let an = chars_of(a.key.as_str());
    let bn = chars_of(b.key.as_str());
    crate::text::chars_less(&an, &bn)
}

proof fn lemma_hist_before_order(a: HistogramEntry, b: HistogramEntry, c: HistogramEntry)
    ensures
        hist_before(a, b) && hist_before(b, c) ==> hist_before(a, c),
        hist_before(a, b) ==> !hist_before(b, a),
        a.key@ != b.key@ ==> hist_before(a, b) || hist_before(b, a),
{
    if hist_before(a, b) && hist_before(b, c) {
        if a.retained_size == b.retained_size && b.retained_size == c.retained_size && a.shallow_size == b.shallow_size && b.shallow_size == c.shallow_size {
            lemma_chars_lt_transitive(a.key@, b.key@, c.key@);
        }
    }
    if hist_before(a, b) && a.retained_size == b.retained_size && a.shallow_size == b.shallow_size {
        lemma_chars_lt_asymmetric(a.key@, b.key@);
    }
    if a.key@ != b.key@ {
        lemma_chars_lt_total(a.key@, b.key@);
    }
}

/// Sorts entries with distinct keys into histogram order.
fn sort_hist_entries(entries: Vec<HistogramEntry>) -> (sorted: Vec<HistogramEntry>)
    requires
        forall|i: int, j: int| 0 <= i < entries@.len() && 0 <= j < entries@.len() && i != j
            ==> (#[trigger] entries@[i]).key@ != (#[trigger] entries@[j]).key@,
    ensures
        sorted@.len() == entries@.len(),
        forall|x: HistogramEntry| #[trigger] sorted@.contains(x) <==> entries@.contains(x),
        forall|i: int, j: int| 0 <= i < j < sorted@.len() ==> hist_before(#[trigger] sorted@[i], #[trigger] sorted@[j]),
{
    let mut sorted: Vec<HistogramEntry> = Vec::new();
    let mut rest = entries;
    let ghost all = rest@;
    while rest.len() > 0
        invariant
            forall|i: int, j: int| 0 <= i < all.len() && 0 <= j < all.len() && i != j
                ==> (#[trigger] all[i]).key@ != (#[trigger] all[j]).key@,
            forall|x: HistogramEntry| #[trigger] all.contains(x) <==> (sorted@.contains(x) || rest@.contains(x)),
            forall|j: int| 0 <= j < rest@.len() ==> all.contains(#[trigger] rest@[j]),
            forall|i: int, j: int| 0 <= i < rest@.len() && 0 <= j < rest@.len() && i != j
                ==> (#[trigger] rest@[i]).key@ != (#[trigger] rest@[j]).key@,
            forall|i: int, j: int| 0 <= i < j < sorted@.len() ==> hist_before(#[trigger] sorted@[i], #[trigger] sorted@[j]),
            forall|i: int, j: int| 0 <= i < sorted@.len() && 0 <= j < rest@.len() ==> hist_before(#[trigger] sorted@[i], #[trigger] rest@[j]),
            sorted@.len() + rest@.len() == all.len(),
        decreases rest@.len(),
    {
        let mut best: usize = 0;
        let mut i: usize = 1;
        while i < rest.len()
            invariant
                0 <= best < rest@.len(),
                1 <= i <= rest@.len(),
                best < i,
                forall|j: int| 0 <= j < i && j != best ==> hist_before(rest@[best as int], #[trigger] rest@[j]),
                forall|a: int, b: int| 0 <= a < rest@.len() && 0 <= b < rest@.len() && a != b
                    ==> (#[trigger] rest@[a]).key@ != (#[trigger] rest@[b]).key@,
            decreases rest@.len() - i,
        {
            if hist_before_exec(&rest[i], &rest[best]) {
                proof {
                    assert forall|j: int| 0 <= j < i + 1 && j != i implies hist_before(rest@[i as int], #[trigger] rest@[j]) by {
                        if j != best as int {
                            lemma_hist_before_order(rest@[i as int], rest@[best as int], rest@[j]);
                        }
                    }
                }
                best = i;
            } else {
                proof {
                    lemma_hist_before_order(rest@[best as int], rest@[i as int], rest@[i as int]);
                }
            }
            i = i + 1;
        }
        let ghost old_rest = rest@;
        let ghost old_sorted = sorted@;
        let e = rest.remove(best);
        sorted.push(e);
        proof {
            assert(rest@ == old_rest.remove(best as int));
            assert forall|j: int| 0 <= j < rest@.len() implies #[trigger] rest@[j] == old_rest[if j < best { j } else { j + 1 }] by {}
            assert forall|x: HistogramEntry| #[trigger] all.contains(x) <==> (sorted@.contains(x) || rest@.contains(x)) by {
                if old_rest.contains(x) {
                    let w = choose|w: int| 0 <= w < old_rest.len() && old_rest[w] == x;
                    if w == best {
                        assert(sorted@[sorted@.len() - 1] == x);
                    } else if w < best {
                        assert(rest@[w] == x);
                    } else {
                        assert(rest@[w - 1] == x);
                    }
                }
                if old_sorted.contains(x) {
                    let w = choose|w: int| 0 <= w < old_sorted.len() && old_sorted[w] == x;
                    assert(sorted@[w] == x);
                }
                if sorted@.contains(x) {
                    let w = choose|w: int| 0 <= w < sorted@.len() && sorted@[w] == x;
                    if w < old_sorted.len() {
                        assert(old_sorted[w] == x);
                    } else {
                        assert(old_rest[best as int] == x);
                    }
                }
                if rest@.contains(x) {
                    let w = choose|w: int| 0 <= w < rest@.len() && rest@[w] == x;
                }
            }
            assert forall|i2: int, j: int| 0 <= i2 < j < sorted@.len() implies hist_before(#[trigger] sorted@[i2], #[trigger] sorted@[j]) by {
                if j == sorted@.len() - 1 {
                    assert(sorted@[i2] == old_sorted[i2]);
                    assert(hist_before(old_sorted[i2], old_rest[best as int]));
                }
            }
            assert forall|i2: int, j: int| 0 <= i2 < sorted@.len() && 0 <= j < rest@.len() implies hist_before(#[trigger] sorted@[i2], #[trigger] rest@[j]) by {
                let oj = if j < best { j } else { j + 1 };
                if i2 < old_sorted.len() {
                    assert(hist_before(old_sorted[i2], old_rest[oj]));
                } else {
                    assert(oj != best);
                }
            }
        }
    }
    sorted
}

/// Index of the group keyed `key`, appended (empty) when there is none.
fn hist_group_index(groups: &mut Vec<HistogramEntry>, key: String) -> (g: usize)
    ensures
        g < final(groups)@.len(),
        final(groups)@[g as int].key@ == key@,
        final(groups)@.len() >= old(groups)@.len(),
        forall|h: int| 0 <= h < old(groups)@.len() ==> #[trigger] final(groups)@[h] == old(groups)@[h],
        final(groups)@.len() > old(groups)@.len() ==> {
            &&& final(groups)@.len() == old(groups)@.len() + 1
            &&& g == old(groups)@.len()
            &&& final(groups)@[g as int].instance_count == 0
            &&& final(groups)@[g as int].shallow_size == 0
            &&& final(groups)@[g as int].retained_size == 0
            &&& forall|h: int| 0 <= h < old(groups)@.len() ==> (#[trigger] old(groups)@[h]).key@ != key@
        },
{
    let mut g: usize = 0;
    while g < groups.len()
        invariant
            g <= groups@.len(),
            groups@ == old(groups)@,
            forall|h: int| 0 <= h < g ==> (#[trigger] groups@[h]).key@ != key@,
        decreases groups@.len() - g,
    {
        if groups[g].key == key {
            return g;
        }
        g = g + 1;
    }
    groups.push(HistogramEntry { key, instance_count: 0, shallow_size: 0, retained_size: 0 });
    g
}


/// `h` is the histogram of the graph's objects grouped by `group_by`: its
/// totals, one entry per key with that key's count and sizes, every
/// object's key listed, in histogram order.
pub open spec fn histogram_of(graph: ObjectGraph, dom: DominatorTree, group_by: HistogramGroupBy, h: HistogramResult) -> bool {
    let objects = graph.objects@;
    let classes = graph.classes@;
    &&& h.group_by == group_by
    &&& h.total_instances == objects.len()
    &&& h.total_shallow_size == sum_over(objects, objects.dom(), shallow_fn())
    &&& forall|g: int| 0 <= g < h.entries@.len() ==> {
        let d = keyed_ids(objects, classes, group_by, (#[trigger] h.entries@[g]).key@);
        &&& h.entries@[g].instance_count == d.len()
        &&& h.entries@[g].shallow_size == sum_over(objects, d, shallow_fn())
        &&& h.entries@[g].retained_size == map_sum(retained_of_objects(objects, dom).restrict(d), value_fn())
        &&& d.len() > 0
    }
    &&& forall|x: u64| #[trigger] objects.contains_key(x) ==> exists|g: int|
        0 <= g < h.entries@.len() && h.entries@[g].key@ == histogram_key(objects, classes, objects[x].class_id, group_by)
    &&& forall|i: int, j: int| 0 <= i < j < h.entries@.len() ==> hist_before(#[trigger] h.entries@[i], #[trigger] h.entries@[j])
}

/// The total of `f` over a list of histogram entries.
pub open spec fn entries_total(entries: Seq<HistogramEntry>, f: spec_fn(HistogramEntry) -> int) -> int
    decreases entries.len(),
{
    if entries.len() == 0 {
        0
    } else {
        entries_total(entries.drop_last(), f) + f(entries.last())
    }
}

/// An entry's instance count.
pub open spec fn entry_count_fn() -> spec_fn(HistogramEntry) -> int {
    |e: HistogramEntry| e.instance_count as int
}

/// An entry's shallow size.
pub open spec fn entry_shallow_fn() -> spec_fn(HistogramEntry) -> int {
    |e: HistogramEntry| e.shallow_size as int
}

/// The objects whose key is that of one of the first `k` entries.
pub open spec fn keyed_prefix(
    objects: Map<u64, HeapObject>,
    classes: Map<u64, ClassInfo>,
    group_by: HistogramGroupBy,
    entries: Seq<HistogramEntry>,
    k: int,
) -> Set<u64> {
    objects.dom().filter(|x: u64| exists|g: int| 0 <= g < k
        && (#[trigger] entries[g]).key@ == histogram_key(objects, classes, objects[x].class_id, group_by))
}

proof fn lemma_map_sum_restrict_union<V>(m: Map<u64, V>, a: Set<u64>, b: Set<u64>, f: spec_fn(V) -> int)
    requires
        a.finite(),
        b.finite(),
        a.subset_of(m.dom()),
        b.subset_of(m.dom()),
        a.disjoint(b),
    ensures
        map_sum(m.restrict(a + b), f) == map_sum(m.restrict(a), f) + map_sum(m.restrict(b), f),
    decreases b.len(),
{
    if b.len() == 0 {
        assert(b =~= Set::<u64>::empty());
        assert(a + b =~= a);
        lemma_map_sum_restrict_empty(m, f);
    } else {
        let x = b.choose();
        let b2 = b.remove(x);
        lemma_map_sum_restrict_union(m, a, b2, f);
        assert((a + b2).insert(x) =~= a + b);
        assert(b2.insert(x) =~= b);
        lemma_map_sum_restrict_insert(m, a + b2, x, f);
        lemma_map_sum_restrict_insert(m, b2, x, f);
    }
}

proof fn lemma_keyed_prefix_totals(
    objects: Map<u64, HeapObject>,
    classes: Map<u64, ClassInfo>,
    group_by: HistogramGroupBy,
    entries: Seq<HistogramEntry>,
    k: int,
)
    requires
        objects.dom().finite(),
        0 <= k <= entries.len(),
        forall|g: int| 0 <= g < entries.len() ==> {
            let d = keyed_ids(objects, classes, group_by, (#[trigger] entries[g]).key@);
            &&& entries[g].instance_count == d.len()
            &&& entries[g].shallow_size == sum_over(objects, d, shallow_fn())
        },
        forall|i: int, j: int| 0 <= i < j < entries.len() ==> (#[trigger] entries[i]).key@ != (#[trigger] entries[j]).key@,
    ensures
        keyed_prefix(objects, classes, group_by, entries, k).finite(),
        keyed_prefix(objects, classes, group_by, entries, k).len() == entries_total(entries.take(k), entry_count_fn()),
        sum_over(objects, keyed_prefix(objects, classes, group_by, entries, k), shallow_fn())
            == entries_total(entries.take(k), entry_shallow_fn()),
    decreases k,
{
    let u = keyed_prefix(objects, classes, group_by, entries, k);
    if k == 0 {
        assert(u =~= Set::<u64>::empty());
        lemma_map_sum_restrict_empty(objects, shallow_fn());
    } else {
        lemma_keyed_prefix_totals(objects, classes, group_by, entries, k - 1);
        let u1 = keyed_prefix(objects, classes, group_by, entries, k - 1);
        let d = keyed_ids(objects, classes, group_by, entries[k - 1].key@);
        assert(u =~= u1 + d) by {
            assert forall|x: u64| u.contains(x) implies (u1 + d).contains(x) by {
                let g = choose|g: int| 0 <= g < k
                    && (#[trigger] entries[g]).key@ == histogram_key(objects, classes, objects[x].class_id, group_by);
                if g < k - 1 {
                    assert(u1.contains(x));
                } else {
                    assert(d.contains(x));
                }
            }
            assert forall|x: u64| (u1 + d).contains(x) implies u.contains(x) by {
                if d.contains(x) {
                    assert(entries[k - 1].key@ == histogram_key(objects, classes, objects[x].class_id, group_by));
                }
            }
        }
        assert(u1.disjoint(d)) by {
            assert forall|x: u64| u1.contains(x) implies !d.contains(x) by {
                let g = choose|g: int| 0 <= g < k - 1
                    && (#[trigger] entries[g]).key@ == histogram_key(objects, classes, objects[x].class_id, group_by);
                assert(entries[g].key@ != entries[k - 1].key@);
            }
        }
        assert(u1.subset_of(objects.dom()));
        assert(d.subset_of(objects.dom()));
        assert(d.finite()) by {
            vstd::set_lib::lemma_len_subset(d, objects.dom());
        }
        vstd::set_lib::lemma_set_disjoint_lens(u1, d);
        lemma_map_sum_restrict_union(objects, u1, d, shallow_fn());
        assert(entries.take(k).drop_last() =~= entries.take(k - 1));
        assert(entries.take(k).last() == entries[k - 1]);
    }
}

/// The groups of a histogram split the heap: their keys are distinct,
/// their instance counts add up to the total instance count, and their
/// shallow sizes to the total shallow size.
pub proof fn lemma_histogram_groups_add_up(
    graph: ObjectGraph,
    dom: DominatorTree,
    group_by: HistogramGroupBy,
    h: HistogramResult,
)
    requires
        histogram_of(graph, dom, group_by, h),
    ensures
        forall|i: int, j: int| 0 <= i < j < h.entries@.len() ==> (#[trigger] h.entries@[i]).key@ != (#[trigger] h.entries@[j]).key@,
        entries_total(h.entries@, entry_count_fn()) == h.total_instances,
        entries_total(h.entries@, entry_shallow_fn()) == h.total_shallow_size,
{
    let objects = graph.objects@;
    let classes = graph.classes@;
    let es = h.entries@;
    assert forall|i: int, j: int| 0 <= i < j < es.len() implies (#[trigger] es[i]).key@ != (#[trigger] es[j]).key@ by {
        if es[i].key@ == es[j].key@ {
            assert(hist_before(es[i], es[j]));
            lemma_chars_lt_irreflexive(es[i].key@);
        }
    }
    lemma_keyed_prefix_totals(objects, classes, group_by, es, es.len() as int);
    let u = keyed_prefix(objects, classes, group_by, es, es.len() as int);
    assert(u =~= objects.dom()) by {
        assert forall|x: u64| objects.dom().contains(x) implies u.contains(x) by {
            assert(objects.contains_key(x));
            let g = choose|g: int| 0 <= g < es.len()
                && es[g].key@ == histogram_key(objects, classes, objects[x].class_id, group_by);
            assert(es[g].key@ == histogram_key(objects, classes, objects[x].class_id, group_by));
        }
    }
    assert(es.take(es.len() as int) =~= es);
}

/// Groups every object by the chosen key, with count, shallow size and
/// retained size per group, listed by decreasing retained size, then
/// shallow size, then key.
pub fn build_histogram(graph: &ObjectGraph, dom: &DominatorTree, group_by: HistogramGroupBy) -> (h: HistogramResult)
    requires
        sum_over(graph.objects@, graph.objects@.dom(), shallow_fn()) <= u64::MAX,
        map_sum(retained_of_objects(graph.objects@, *dom), value_fn()) <= u64::MAX,
    ensures
        h.group_by == group_by,
        h.total_instances == graph.objects@.len(),
        h.total_shallow_size == sum_over(graph.objects@, graph.objects@.dom(), shallow_fn()),
        forall|g: int| 0 <= g < h.entries@.len() ==> {
            let d = keyed_ids(graph.objects@, graph.classes@, group_by, (#[trigger] h.entries@[g]).key@);
            &&& h.entries@[g].instance_count == d.len()
            &&& h.entries@[g].shallow_size == sum_over(graph.objects@, d, shallow_fn())
            &&& h.entries@[g].retained_size == map_sum(retained_of_objects(graph.objects@, *dom).restrict(d), value_fn())
            &&& d.len() > 0
        },
        forall|x: u64| #[trigger] graph.objects@.contains_key(x) ==> exists|g: int|
            0 <= g < h.entries@.len() && h.entries@[g].key@ == histogram_key(graph.objects@, graph.classes@, graph.objects@[x].class_id, group_by),
        forall|i: int, j: int| 0 <= i < j < h.entries@.len() ==> hist_before(#[trigger] h.entries@[i], #[trigger] h.entries@[j]),
        histogram_of(*graph, *dom, group_by, h),
{
    let ghost objects = graph.objects@;
    let ghost classes = graph.classes@;
    let ghost rm = retained_of_objects(objects, *dom);
    let ids = crate::util::map_keys(&graph.objects);
    let mut groups: Vec<HistogramEntry> = Vec::new();
    let mut cache: HashMap<u64, usize> = HashMap::new();
    let mut total_instances: u64 = 0;
    let mut total_shallow: u64 = 0;
    let mut i: usize = 0;
    proof {
        lemma_map_sum_restrict_empty(objects, shallow_fn());
        assert(ids@.take(0).to_set() =~= Set::<u64>::empty());
        assert(rm.dom() =~= objects.dom());
        assert(objects.restrict(objects.dom()) =~= objects);
        assert(rm.restrict(rm.dom()) =~= rm);
    }
    while i < ids.len()
        invariant
            objects == graph.objects@,
            classes == graph.classes@,
            rm == retained_of_objects(objects, *dom),
            rm.dom() == objects.dom(),
            sum_over(objects, objects.dom(), shallow_fn()) <= u64::MAX,
            map_sum(rm.restrict(rm.dom()), value_fn()) <= u64::MAX,
            i <= ids@.len(),
            ids@.to_set() == objects.dom(),
            ids@.no_duplicates(),
            forall|k: int| 0 <= k < ids@.len() ==> objects.contains_key(#[trigger] ids@[k]),
            total_instances == i,
            total_shallow == sum_over(objects, ids@.take(i as int).to_set(), shallow_fn()),
            forall|g: int| 0 <= g < groups@.len() ==> {
                let d = keyed_ids(objects, classes, group_by, (#[trigger] groups@[g]).key@).intersect(ids@.take(i as int).to_set());
                &&& groups@[g].instance_count == d.len()
                &&& groups@[g].shallow_size == sum_over(objects, d, shallow_fn())
                &&& groups@[g].retained_size == map_sum(rm.restrict(d), value_fn())
                &&& d.len() > 0
            },
            forall|a: int, b: int| 0 <= a < groups@.len() && 0 <= b < groups@.len() && a != b
                ==> (#[trigger] groups@[a]).key@ != (#[trigger] groups@[b]).key@,
            forall|x: u64| #[trigger] ids@.take(i as int).contains(x) ==> exists|g: int|
                0 <= g < groups@.len() && groups@[g].key@ == histogram_key(objects, classes, objects[x].class_id, group_by),
            forall|c: u64| #[trigger] cache@.contains_key(c) ==> cache@[c] < groups@.len()
                && groups@[cache@[c] as int].key@ == histogram_key(objects, classes, c, group_by),
        decreases ids@.len() - i,
    {
        let id = ids[i];
        let ghost pre = ids@.take(i as int).to_set();
        let ghost nxt = ids@.take(i + 1).to_set();
        proof {
            assert(ids@.take(i + 1) =~= ids@.take(i as int).push(id));
            assert(nxt =~= pre.insert(id)) by {
                broadcast use vstd::seq_lib::group_seq_properties;
            }
            assert(!pre.contains(id)) by {
                if pre.contains(id) {
                    let w = choose|w: int| 0 <= w < i && ids@.take(i as int)[w] == id;
                    assert(ids@[w] == ids@[i as int]);
                }
            }
            assert(pre.finite());
            assert(pre.subset_of(objects.dom())) by {
                assert forall|x: u64| pre.contains(x) implies objects.dom().contains(x) by {
                    let w = choose|w: int| 0 <= w < i && ids@.take(i as int)[w] == x;
                    assert(objects.contains_key(ids@[w]));
                }
            }
            lemma_map_sum_restrict_insert(objects, pre, id, shallow_fn());
            lemma_map_sum_restrict_subset(objects, nxt, objects.dom(), shallow_fn());
        }
        let obj = graph.objects.get(&id).unwrap();
        let retained = dom.retained_size(id);
        let ghost before = groups@;
        let gi: usize = match cache.get(&obj.class_id) {
            Some(g) => *g,
            None => {
                let key = resolve_class_key(graph, obj.class_id, group_by);
                let g = hist_group_index(&mut groups, key);
                proof {
                    if groups@.len() > before.len() {
                        let k = groups@[g as int].key@;
                        let d = keyed_ids(objects, classes, group_by, k).intersect(pre);
                        assert(d =~= Set::<u64>::empty()) by {
                            assert forall|x: u64| !d.contains(x) by {
                                if d.contains(x) {
                                    assert(ids@.take(i as int).contains(x));
                                    let h = choose|h: int| 0 <= h < before.len() && before[h].key@ == histogram_key(objects, classes, objects[x].class_id, group_by);
                                }
                            }
                        }
                        lemma_map_sum_restrict_empty(objects, shallow_fn());
                        lemma_map_sum_restrict_empty(rm, value_fn());
                    }
                }
                cache.insert(obj.class_id, g);
                g
            },
        };
        let ghost mid = groups@;
        proof {
            let k = groups@[gi as int].key@;
            let dg = keyed_ids(objects, classes, group_by, k);
            assert(dg.intersect(nxt) =~= dg.intersect(pre).insert(id));
            assert(dg.intersect(pre).finite());
            lemma_map_sum_restrict_insert(objects, dg.intersect(pre), id, shallow_fn());
            lemma_map_sum_restrict_subset(objects, dg.intersect(nxt), objects.dom(), shallow_fn());
            lemma_map_sum_restrict_insert(rm, dg.intersect(pre), id, value_fn());
            lemma_map_sum_restrict_subset(rm, dg.intersect(nxt), rm.dom(), value_fn());
            ids@.take(i + 1).unique_seq_to_set();
            vstd::set_lib::lemma_len_subset(dg.intersect(nxt), nxt);
            assert(rm[id] == retained);
        }
        let cnt = groups[gi].instance_count;
        let sz = groups[gi].shallow_size;
        let rt = groups[gi].retained_size;
        groups[gi].instance_count = cnt + 1;
        groups[gi].shallow_size = sz + obj.shallow_size as u64;
        groups[gi].retained_size = rt + retained;
        total_instances = total_instances + 1;
        total_shallow = total_shallow + obj.shallow_size as u64;
        proof {
            assert(groups@[gi as int].key == mid[gi as int].key);
            assert forall|g: int| 0 <= g < groups@.len() && g != gi implies #[trigger] groups@[g] == mid[g] by {}
            assert forall|g: int| 0 <= g < groups@.len() implies {
                let d = keyed_ids(objects, classes, group_by, (#[trigger] groups@[g]).key@).intersect(nxt);
                &&& groups@[g].instance_count == d.len()
                &&& groups@[g].shallow_size == sum_over(objects, d, shallow_fn())
                &&& groups@[g].retained_size == map_sum(rm.restrict(d), value_fn())
                &&& d.len() > 0
            } by {
                if g != gi {
                    let k = groups@[g].key@;
                    assert(k != mid[gi as int].key@);
                    assert(keyed_ids(objects, classes, group_by, k).intersect(nxt)
                        =~= keyed_ids(objects, classes, group_by, k).intersect(pre));
                }
            }
            assert forall|x: u64| #[trigger] ids@.take(i + 1).contains(x) implies exists|g: int|
                0 <= g < groups@.len() && groups@[g].key@ == histogram_key(objects, classes, objects[x].class_id, group_by) by {
                if x == id {
                    assert(groups@[gi as int].key@ == histogram_key(objects, classes, objects[x].class_id, group_by));
                } else {
                    assert(nxt.contains(x));
                    assert(pre.contains(x));
                    assert(ids@.take(i as int).contains(x));
                    let h = choose|h: int| 0 <= h < before.len() && before[h].key@ == histogram_key(objects, classes, objects[x].class_id, group_by);
                    assert(mid[h] == before[h]);
                    if h != gi {
                        assert(groups@[h] == mid[h]);
                    }
                    assert(groups@[h].key@ == mid[h].key@);
                }
            }
        }
        i = i + 1;
    }
    proof {
        assert(ids@.take(i as int) =~= ids@);
        ids@.unique_seq_to_set();
    }
    let ghost grouped = groups@;
    let entries = sort_hist_entries(groups);
    let h = HistogramResult { group_by, entries, total_instances, total_shallow_size: total_shallow };
    proof {
        assert forall|g: int| 0 <= g < h.entries@.len() implies {
            let d = keyed_ids(objects, classes, group_by, (#[trigger] h.entries@[g]).key@);
            &&& h.entries@[g].instance_count == d.len()
            &&& h.entries@[g].shallow_size == sum_over(objects, d, shallow_fn())
            &&& h.entries@[g].retained_size == map_sum(rm.restrict(d), value_fn())
            &&& d.len() > 0
        } by {
            assert(h.entries@.contains(h.entries@[g]));
            let w = choose|w: int| 0 <= w < grouped.len() && grouped[w] == h.entries@[g];
            let k = grouped[w].key@;
            assert(keyed_ids(objects, classes, group_by, k).intersect(ids@.to_set()) =~= keyed_ids(objects, classes, group_by, k));
        }
        assert forall|x: u64| #[trigger] graph.objects@.contains_key(x) implies exists|g: int|
            0 <= g < h.entries@.len() && h.entries@[g].key@ == histogram_key(graph.objects@, graph.classes@, graph.objects@[x].class_id, group_by) by {
            assert(ids@.to_set().contains(x));
            assert(ids@.take(i as int).contains(x));
            let w = choose|w: int| 0 <= w < grouped.len() && grouped[w].key@ == histogram_key(objects, classes, objects[x].class_id, group_by);
            assert(grouped.contains(grouped[w]));
            assert(h.entries@.contains(grouped[w]));
            let g = choose|g: int| 0 <= g < h.entries@.len() && h.entries@[g] == grouped[w];
        }
    }
    h
}


/// One object of the dominator report.
#[derive(Debug, Clone, PartialEq, Eq)]
pub struct DominatorNode {
    pub name: String,
    pub class_name: String,
    pub object_id: String,
    pub dominates: usize,
    pub immediate_dominator: Option<String>,
    pub retained_size: u64,
    pub shallow_size: u64,
}

/// The dominator report: tree size, reference count and the largest
/// dominators.
#[derive(Debug, Clone, PartialEq, Eq)]
pub struct GraphMetrics {
    pub node_count: usize,
    pub edge_count: usize,
    pub dominators: Vec<DominatorNode>,
}

/// Number of references an object holds.
pub open spec fn reference_count_fn() -> spec_fn(HeapObject) -> int {
    |o: HeapObject| o.references@.len() as int
}

/// The class name of an object id, or `<unknown>` (also for a missing object).
pub open spec fn id_class_name(objects: Map<u64, HeapObject>, classes: Map<u64, ClassInfo>, id: u64) -> Seq<char> {
    if objects.contains_key(id) { name_or_unknown(class_name_of(classes, objects[id].class_id)) } else { "<unknown>"@ }
}

/// The name of an object's immediate dominator, when that is an object of
/// a named class.
pub open spec fn idom_name(
    objects: Map<u64, HeapObject>,
    classes: Map<u64, ClassInfo>,
    idoms: Map<u64, u64>,
    id: u64,
) -> Option<Seq<char>> {
    if idoms.contains_key(id) && idoms[id] != VIRTUAL_ROOT_ID && objects.contains_key(idoms[id]) {
        class_name_of(classes, objects[idoms[id]].class_id)
    } else {
        None
    }
}

/// `n` reports the object `e.0` with retained size `e.1`.
pub open spec fn reports_entry(n: DominatorNode, graph: ObjectGraph, dom: DominatorTree, e: (u64, u64)) -> bool {
    &&& n.name@ == id_class_name(graph.objects@, graph.classes@, e.0)
    &&& n.class_name@ == n.name@
    &&& n.object_id@ == graph_object_id_text(e.0, graph.identifier_size)
    &&& n.dominates == dom.children_of(e.0).len()
    &&& match n.immediate_dominator {
        Some(s) => idom_name(graph.objects@, graph.classes@, dom.idom_view(), e.0) == Some(s@),
        None => idom_name(graph.objects@, graph.classes@, dom.idom_view(), e.0) is None,
    }
    &&& n.retained_size == e.1
    &&& n.shallow_size == (if graph.objects@.contains_key(e.0) { graph.objects@[e.0].shallow_size as u64 } else { 0u64 })
}

/// The dominator rows of `m` report, in order, a top listing of the
/// tree's retained entries of `DOMINATOR_REPORT_SIZE` rows.
pub open spec fn metrics_rows(m: GraphMetrics, graph: ObjectGraph, dom: DominatorTree) -> bool {
    exists|top: Seq<(u64, u64)>| {
        &&& #[trigger] is_top_listing(top, retained_entries(dom.retained_view()), DOMINATOR_REPORT_SIZE as nat)
        &&& m.dominators@.len() == top.len()
        &&& forall|i: int| 0 <= i < top.len() ==> reports_entry(#[trigger] m.dominators@[i], graph, dom, top[i])
    }
}

/// The dominator rows of graph metrics report exactly the entries that
/// `top_retained(DOMINATOR_REPORT_SIZE)` lists, in its order.
pub proof fn lemma_metrics_rows_are_top_retained(
    m: GraphMetrics,
    graph: ObjectGraph,
    dom: DominatorTree,
    top: Seq<(u64, u64)>,
)
    requires
        metrics_rows(m, graph, dom),
        is_top_listing(top, retained_entries(dom.retained_view()), DOMINATOR_REPORT_SIZE as nat),
    ensures
        m.dominators@.len() == top.len(),
        forall|i: int| 0 <= i < top.len() ==> reports_entry(#[trigger] m.dominators@[i], graph, dom, top[i]),
{
    let t = choose|t: Seq<(u64, u64)>| {
        &&& #[trigger] is_top_listing(t, retained_entries(dom.retained_view()), DOMINATOR_REPORT_SIZE as nat)
        &&& m.dominators@.len() == t.len()
        &&& forall|i: int| 0 <= i < t.len() ==> reports_entry(#[trigger] m.dominators@[i], graph, dom, t[i])
    };
    lemma_top_listing_unique(t, top, retained_entries(dom.retained_view()), DOMINATOR_REPORT_SIZE as nat);
}

/// Number of report rows.
pub const DOMINATOR_REPORT_SIZE: usize = 12;

/// Builds the dominator report from the tree: its size, the number of
/// references, and the twelve objects with the largest retained sizes.
pub fn build_graph_metrics_from_dominator(dom: &DominatorTree, graph: &ObjectGraph) -> (m: GraphMetrics)
    requires
        sum_over(graph.objects@, graph.objects@.dom(), reference_count_fn()) <= usize::MAX,
    ensures
        m.node_count == dom.idom_view().len(),
        m.edge_count == sum_over(graph.objects@, graph.objects@.dom(), reference_count_fn()),
        metrics_rows(m, *graph, *dom),
{
    let top = dom.top_retained(DOMINATOR_REPORT_SIZE);
    let mut dominators: Vec<DominatorNode> = Vec::new();
    let mut i: usize = 0;
    while i < top.len()
        invariant
            i <= top@.len(),
            dominators@.len() == i,
            forall|k: int| 0 <= k < i ==> reports_entry(#[trigger] dominators@[k], *graph, *dom, top@[k]),
        decreases top@.len() - i,
    {
        let (obj_id, retained) = top[i];
        let (class_name, shallow_size): (String, u64) = match graph.objects.get(&obj_id) {
            Some(o) => (object_class_name_string(graph, o.class_id), o.shallow_size as u64),
            None => (literal_string("<unknown>"), 0),
        };
        let dominates = dom.dominated_by(obj_id).len();
        let immediate: Option<String> = match dom.immediate_dominator(obj_id) {
            Some(idom) => if idom != VIRTUAL_ROOT_ID {
                match graph.objects.get(&idom) {
                    Some(o) => match graph.class_name(o.class_id) {
                        Some(n) => Some(literal_string(n)),
                        None => None,
                    },
                    None => None,
                }
            } else {
                None
            },
            None => None,
        };
        let object_id = format_graph_object_id(obj_id, graph.identifier_size);
        let name = class_name.clone();
        dominators.push(DominatorNode {
            name,
            class_name,
            object_id,
            dominates,
            immediate_dominator: immediate,
            retained_size: retained,
            shallow_size,
        });
        i = i + 1;
    }
    let ids = crate::util::map_keys(&graph.objects);
    let mut edge_count: usize = 0;
    let mut k: usize = 0;
    proof {
        lemma_map_sum_restrict_empty(graph.objects@, reference_count_fn());
        assert(ids@.take(0).to_set() =~= Set::<u64>::empty());
        assert(graph.objects@.restrict(graph.objects@.dom()) =~= graph.objects@);
    }
    while k < ids.len()
        invariant
            k <= ids@.len(),
            ids@.to_set() == graph.objects@.dom(),
            ids@.no_duplicates(),
            forall|j: int| 0 <= j < ids@.len() ==> graph.objects@.contains_key(#[trigger] ids@[j]),
            sum_over(graph.objects@, graph.objects@.dom(), reference_count_fn()) <= usize::MAX,
            edge_count == sum_over(graph.objects@, ids@.take(k as int).to_set(), reference_count_fn()),
        decreases ids@.len() - k,
    {
        let id = ids[k];
        let ghost pre = ids@.take(k as int).to_set();
        proof {
            assert(ids@.take(k + 1) =~= ids@.take(k as int).push(id));
            assert(ids@.take(k + 1).to_set() =~= pre.insert(id)) by {
                broadcast use vstd::seq_lib::group_seq_properties;
            }
            assert(!pre.contains(id)) by {
                if pre.contains(id) {
                    let w = choose|w: int| 0 <= w < k && ids@.take(k as int)[w] == id;
                    assert(ids@[w] == ids@[k as int]);
                }
            }
            assert(pre.subset_of(graph.objects@.dom())) by {
                assert forall|x: u64| pre.contains(x) implies graph.objects@.dom().contains(x) by {
                    let w = choose|w: int| 0 <= w < k && ids@.take(k as int)[w] == x;
                    assert(graph.objects@.contains_key(ids@[w]));
                }
            }
            lemma_map_sum_restrict_insert(graph.objects@, pre, id, reference_count_fn());
            lemma_map_sum_restrict_subset(graph.objects@, pre.insert(id), graph.objects@.dom(), reference_count_fn());
        }
        let o = graph.objects.get(&id).unwrap();
        edge_count = edge_count + o.references.len();
        k = k + 1;
    }
    proof {
        assert(ids@.take(k as int) =~= ids@);
    }
    let m = GraphMetrics { node_count: dom.node_count(), edge_count, dominators };
    proof {
        assert(m.dominators@.len() == top@.len());
        assert(forall|i2: int| 0 <= i2 < top@.len() ==> reports_entry(#[trigger] m.dominators@[i2], *graph, *dom, top@[i2]));
    }
    m
}


// ---------------------------------------------------------------------------
// The summary dominator view of a heap summary.

/// Sources of the summary view: at most twelve class statistics, or the
/// record statistics when there are none.
pub open spec fn source_count(summary: HeapSummary) -> nat {
    let n = if summary.classes@.len() == 0 { summary.record_stats@.len() } else { summary.classes@.len() };
    if n < 12 { n } else { 12 }
}

/// The edges of the summary view: the root to every source, then each
/// source to the next.
pub open spec fn summary_edges(k: nat) -> Seq<(u32, u32)> {
    Seq::new(k, |i: int| (0u32, (i + 1) as u32)) + Seq::new(
        if k >= 1 { (k - 1) as nat } else { 0nat },
        |i: int| ((i + 1) as u32, (i + 2) as u32),
    )
}

/// Name of source `i`.
pub open spec fn source_name(summary: HeapSummary, i: int) -> Seq<char> {
    if summary.classes@.len() == 0 { summary.record_stats@[i].name@ } else { summary.classes@[i].name@ }
}

/// What source `i` dominates: class bytes, or record count.
pub open spec fn source_weight(summary: HeapSummary, i: int) -> usize {
    if summary.classes@.len() == 0 {
        summary.record_stats@[i].count as usize
    } else {
        summary.classes@[i].total_size_bytes as usize
    }
}

/// Label of node `j` of the summary view: the root, a class label given by
/// the caller, or `name (count entries)` for a record statistic.
pub open spec fn node_label(summary: HeapSummary, class_labels: Seq<String>, j: int) -> Seq<char> {
    if j == 0 {
        "<heap-root>"@
    } else if summary.classes@.len() == 0 {
        summary.record_stats@[j - 1].name@ + " ("@ + dec_chars(summary.record_stats@[j - 1].count as nat)
            + " entries)"@
    } else {
        class_labels[j - 1]@
    }
}

/// An optional text as an optional character sequence.
pub open spec fn opt_chars(o: Option<String>) -> Option<Seq<char>> {
    match o {
        Some(s) => Some(s@),
        None => None,
    }
}

/// The immediate dominator reported for node `j`.
pub open spec fn summary_idom(summary: HeapSummary, class_labels: Seq<String>, idoms: Seq<Option<u32>>, j: int) -> Option<Seq<char>> {
    match idoms[j] {
        None => None,
        Some(x) => if x == j { None } else { Some(node_label(summary, class_labels, x as int)) },
    }
}

proof fn lemma_edge_bound(edges: Seq<(u32, u32)>, m: nat)
    requires
        forall|i: int| 0 <= i < edges.len() ==> (#[trigger] edges[i]).0 <= m && edges[i].1 <= m,
        exists|i: int| 0 <= i < edges.len() && (#[trigger] edges[i]).1 == m,
    ensures
        edge_node_bound(edges) == m + 1,
    decreases edges.len(),
{
    let rest = edges.drop_last();
    assert forall|i: int| 0 <= i < rest.len() implies (#[trigger] rest[i]).0 <= m && rest[i].1 <= m by {
        assert(rest[i] == edges[i]);
    }
    if edges.last().1 == m {
        lemma_edge_bound_le(rest, m);
    } else {
        let i = choose|i: int| 0 <= i < edges.len() && (#[trigger] edges[i]).1 == m;
        assert(rest[i] == edges[i]);
        lemma_edge_bound(rest, m);
    }
}

/// A quick dominator view of a heap summary: a root over up to twelve
/// sources (the class statistics, or the record statistics when there are
/// none), each source also pointing to the next, run through petgraph's
/// dominator algorithm. Class labels carry percentages and sizes that the
/// caller formats; retained and shallow sizes are zero.
pub fn summarize_graph(summary: &HeapSummary, class_labels: &Vec<String>) -> (m: GraphMetrics)
    requires
        summary.classes@.len() > 0 ==> class_labels@.len() >= source_count(*summary),
    ensures
        source_count(*summary) == 0 ==> m.node_count == 0 && m.edge_count == 0 && m.dominators@.len() == 0,
        source_count(*summary) > 0 ==> {
            let k = source_count(*summary);
            let idoms = simple_fast_idoms(summary_edges(k));
            &&& m.node_count == k + 1
            &&& m.edge_count == 2 * k - 1
            &&& m.dominators@.len() == k
            &&& forall|i: int| 0 <= i < k ==> {
                let d = #[trigger] m.dominators@[i];
                &&& d.name@ == source_name(*summary, i)
                &&& d.class_name@.len() == 0
                &&& d.object_id@.len() == 0
                &&& d.dominates == source_weight(*summary, i)
                &&& opt_chars(d.immediate_dominator) == summary_idom(*summary, class_labels@, idoms, i + 1)
                &&& d.retained_size == 0
                &&& d.shallow_size == 0
            }
        },
{
    let from_classes = summary.classes.len() > 0;
    let total = if from_classes { summary.classes.len() } else { summary.record_stats.len() };
    let k: usize = if total < 12 { total } else { 12 };
    if k == 0 {
        return GraphMetrics { node_count: 0, edge_count: 0, dominators: Vec::new() };
    }
    let mut edges: Vec<(u32, u32)> = Vec::new();
    let mut i: usize = 1;
    while i <= k
        invariant
            1 <= i <= k + 1,
            k <= 12,
            edges@.len() == i - 1,
            forall|j: int| 0 <= j < edges@.len() ==> #[trigger] edges@[j] == (0u32, (j + 1) as u32),
        decreases k + 1 - i,
    {
        edges.push((0u32, i as u32));
        i = i + 1;
    }
    let mut c: usize = 2;
    while c <= k
        invariant
            2 <= c <= k + 1,
            k <= 12,
            edges@.len() == k + c - 2,
            forall|j: int| 0 <= j < k ==> #[trigger] edges@[j] == (0u32, (j + 1) as u32),
            forall|j: int| k <= j < edges@.len() ==> #[trigger] edges@[j] == ((j - k + 1) as u32, (j - k + 2) as u32),
        decreases k + 1 - c,
    {
        edges.push(((c - 1) as u32, c as u32));
        c = c + 1;
    }
    proof {
        assert(edges@ =~= summary_edges(k as nat));
        assert(edges@[k - 1].1 == k);
        lemma_edge_bound(edges@, k as nat);
    }
    let idoms = dominators_from_edges(&edges);
    let mut dominators: Vec<DominatorNode> = Vec::new();
    let mut n: usize = 0;
    while n < k
        invariant
            n <= k,
            k == source_count(*summary),
            k <= 12,
            from_classes == (summary.classes@.len() > 0),
            summary.classes@.len() > 0 ==> class_labels@.len() >= k,
            idoms@ == simple_fast_idoms(summary_edges(k as nat)),
            idoms@.len() == k + 1,
            forall|q: int| 0 <= q < idoms@.len() ==> (#[trigger] idoms@[q] matches Some(d) ==> d < idoms@.len()),
            dominators@.len() == n,
            forall|i: int| 0 <= i < n ==> {
                let d = #[trigger] dominators@[i];
                &&& d.name@ == source_name(*summary, i)
                &&& d.class_name@.len() == 0
                &&& d.object_id@.len() == 0
                &&& d.dominates == source_weight(*summary, i)
                &&& opt_chars(d.immediate_dominator) == summary_idom(*summary, class_labels@, idoms@, i + 1)
                &&& d.retained_size == 0
                &&& d.shallow_size == 0
            },
        decreases k - n,
    {
        let node = n + 1;
        let immediate = match idoms[node] {
            None => None,
            Some(x) => {
                if x as usize == node {
                    None
                } else if x == 0 {
                    Some("<heap-root>".to_string())
                } else if from_classes {
                    Some(class_labels[(x - 1) as usize].clone())
                } else {
                    let r = &summary.record_stats[(x - 1) as usize];
                    let mut label = chars_of(r.name.as_str());
                    push_str(&mut label, " (");
                    push_decimal(&mut label, r.count);
                    push_str(&mut label, " entries)");
                    Some(string_from_chars(&label))
                }
            },
        };
        let (name, dominates) = if from_classes {
            (summary.classes[n].name.clone(), summary.classes[n].total_size_bytes as usize)
        } else {
            (summary.record_stats[n].name.clone(), summary.record_stats[n].count as usize)
        };
        dominators.push(
            DominatorNode {
                name,
                class_name: String::new(),
                object_id: String::new(),
                dominates,
                immediate_dominator: immediate,
                retained_size: 0,
                shallow_size: 0,
            },
        );
        n = n + 1;
    }
    GraphMetrics { node_count: k + 1, edge_count: 2 * k - 1, dominators }
}

} // verus!
