//! Shortest chains of references from a GC root to an object.

use vstd::prelude::*;
use std::collections::{HashMap, HashSet};
use crate::hprof::object_graph::{ObjectGraph, HeapObject, GcRoot};
use crate::hprof::overview::{GcRootKind, gc_root_kind, kind_of};
use crate::util::{sort_pairs, pairs_sorted};

verus! {

broadcast use vstd::std_specs::hash::group_hash_axioms;

/// A chain of objects from a GC root down to the requested object.
#[derive(Debug, Clone, PartialEq, Eq)]
pub struct GcRootPath {
    pub root_kind: GcRootKind,
    /// The root first, the requested object last; each references the next.
    pub frames: Vec<u64>,
}

/// `from` is an object whose references include `to`.
pub open spec fn refers(objects: Map<u64, HeapObject>, from: u64, to: u64) -> bool {
    objects.contains_key(from) && objects[from].references@.contains(to)
}

/// The kind of the first GC root entry for `x`, if any.
pub open spec fn first_root_kind(roots: Seq<GcRoot>, x: u64) -> Option<GcRootKind>
    decreases roots.len(),
{
    if roots.len() == 0 {
        None
    } else {
        match first_root_kind(roots.drop_last(), x) {
            Some(k) => Some(k),
            None => if roots.last().object_id == x { Some(kind_of(roots.last().root_type)) } else { None },
        }
    }
}

/// `frames` starts at a GC root (of kind `kind`), ends at `target`, and each
/// object references the next.
pub open spec fn is_root_path(
    objects: Map<u64, HeapObject>,
    roots: Seq<GcRoot>,
    frames: Seq<u64>,
    kind: GcRootKind,
    target: u64,
) -> bool {
    &&& frames.len() >= 1
    &&& frames.last() == target
    &&& first_root_kind(roots, frames[0]) == Some(kind)
    &&& forall|i: int| 0 <= i < frames.len() - 1 ==> #[trigger] refers(objects, frames[i], frames[i + 1])
}

/// Reverse references and the GC-root table of a graph, for repeated path
/// searches.
pub struct GcRootPathIndex {
    reverse_edges: HashMap<u64, Vec<u64>>,
    gc_roots: HashMap<u64, GcRootKind>,
}

/// The list recorded for `x`, or the empty list.
pub open spec fn list_at(m: Map<u64, Seq<u64>>, x: u64) -> Seq<u64> {
    if m.contains_key(x) { m[x] } else { Seq::empty() }
}

impl GcRootPathIndex {
    /// The referrers recorded for each object.
    pub closed spec fn referrers_view(&self) -> Map<u64, Seq<u64>> {
        self.reverse_edges@.map_values(|v: Vec<u64>| v@)
    }

    /// The GC-root kind recorded for each root object.
    pub closed spec fn roots_view(&self) -> Map<u64, GcRootKind> {
        self.gc_roots@
    }

    /// The index describes `graph`: the referrers of each object, in
    /// increasing order, and the kind of the first GC root entry of each
    /// root object.
    pub open spec fn indexes(&self, objects: Map<u64, HeapObject>, roots: Seq<GcRoot>) -> bool {
        &&& forall|x: u64, r: u64| #[trigger] list_at(self.referrers_view(), x).contains(r) <==> refers(objects, r, x)
        &&& forall|x: u64, i: int, j: int| 0 <= i < j < list_at(self.referrers_view(), x).len()
            ==> #[trigger] list_at(self.referrers_view(), x)[i] < #[trigger] list_at(self.referrers_view(), x)[j]
        &&& forall|x: u64| #[trigger] self.roots_view().contains_key(x) <==> first_root_kind(roots, x) is Some
        &&& forall|x: u64| #[trigger] self.roots_view().contains_key(x) ==> first_root_kind(roots, x) == Some(
            self.roots_view()[x],
        )
    }
}


/// The distinct values of a list, in increasing order.
pub fn sorted_distinct(list: &Vec<u64>) -> (r: Vec<u64>)
    ensures
        forall|i: int, j: int| 0 <= i < j < r@.len() ==> #[trigger] r@[i] < #[trigger] r@[j],
        forall|v: u64| #[trigger] r@.contains(v) <==> list@.contains(v),
{
    let mut pairs: Vec<(u64, u64)> = Vec::new();
    let mut i: usize = 0;
    while i < list.len()
        invariant
            i <= list@.len(),
            pairs@.len() == i,
            forall|k: int| 0 <= k < i ==> #[trigger] pairs@[k] == (list@[k], 0u64),
        decreases list.len() - i,
    {
        pairs.push((list[i], 0u64));
        i = i + 1;
    }
    let ghost unsorted = pairs@;
    sort_pairs(&mut pairs);
    proof {
        broadcast use vstd::seq_lib::group_to_multiset_ensures;
        assert forall|x: (u64, u64)| pairs@.contains(x) <==> unsorted.contains(x) by {
            assert(pairs@.contains(x) <==> pairs@.to_multiset().count(x) > 0);
            assert(unsorted.contains(x) <==> unsorted.to_multiset().count(x) > 0);
        }
        assert forall|x: (u64, u64)| pairs@.contains(x) implies x.1 == 0 by {
            assert(unsorted.contains(x));
            let w = choose|w: int| 0 <= w < unsorted.len() && unsorted[w] == x;
        }
    }
    let mut r: Vec<u64> = Vec::new();
    let mut k: usize = 0;
    while k < pairs.len()
        invariant
            k <= pairs@.len(),
            pairs_sorted(pairs@),
            forall|a: int, b: int| 0 <= a < b < r@.len() ==> #[trigger] r@[a] < #[trigger] r@[b],
            forall|a: int| 0 <= a < r@.len() ==> pairs@.take(k as int).contains((#[trigger] r@[a], 0u64)),
            forall|a: int| 0 <= a < k ==> r@.contains(#[trigger] pairs@[a].0),
            r@.len() > 0 ==> k > 0 && r@.last() == pairs@[k - 1].0,
            forall|x: (u64, u64)| pairs@.contains(x) ==> x.1 == 0,
            forall|x: (u64, u64)| pairs@.contains(x) <==> unsorted.contains(x),
            unsorted.len() == list@.len(),
            forall|t: int| 0 <= t < list@.len() ==> #[trigger] unsorted[t] == (list@[t], 0u64),
        decreases pairs@.len() - k,
    {
        let v = pairs[k].0;
        let ghost before = r@;
        if r.len() == 0 || r[r.len() - 1] != v {
            proof {
                if r@.len() > 0 {
                    assert(crate::util::pair_le(pairs@[k - 1], pairs@[k as int]));
                    assert(pairs@.contains(pairs@[k - 1]));
                    assert(pairs@.contains(pairs@[k as int]));
                }
            }
            r.push(v);
            proof {
                assert forall|a: int, b: int| 0 <= a < b < r@.len() implies #[trigger] r@[a] < #[trigger] r@[b] by {
                    if b == r@.len() - 1 && a < b {
                        if a < before.len() - 1 {
                            assert(before[a] < before[before.len() - 1]);
                        }
                    }
                }
            }
        }
        proof {
            let nxt = pairs@.take(k + 1);
            assert(nxt[k as int] == pairs@[k as int]);
            assert(pairs@.contains(pairs@[k as int]));
            assert forall|a: int| 0 <= a < r@.len() implies nxt.contains((#[trigger] r@[a], 0u64)) by {
                if a < before.len() {
                    let w = choose|w: int| 0 <= w < k && pairs@.take(k as int)[w] == (before[a], 0u64);
                    assert(nxt[w] == (r@[a], 0u64));
                } else {
                    assert(nxt[k as int] == (r@[a], 0u64));
                }
            }
            assert forall|a: int| 0 <= a <= k implies r@.contains(#[trigger] pairs@[a].0) by {
                if a < k {
                    assert(before.contains(pairs@[a].0));
                    let w = choose|w: int| 0 <= w < before.len() && before[w] == pairs@[a].0;
                    assert(r@[w] == pairs@[a].0);
                } else {
                    assert(r@[r@.len() - 1] == v);
                }
            }
        }
        k = k + 1;
    }
    proof {
        assert(pairs@.take(k as int) =~= pairs@);
        assert forall|v: u64| #[trigger] r@.contains(v) <==> list@.contains(v) by {
            if r@.contains(v) {
                let a = choose|a: int| 0 <= a < r@.len() && r@[a] == v;
                assert(pairs@.take(k as int).contains((r@[a], 0u64)));
                let w2 = choose|w2: int| 0 <= w2 < pairs@.take(k as int).len() && pairs@.take(k as int)[w2] == (v, 0u64);
                assert(k == pairs@.len());
                assert(0 <= w2 < pairs@.len());
                assert(pairs@[w2] == (v, 0u64));
                assert(pairs@.contains((v, 0u64)));
                assert(unsorted.contains((v, 0u64)));
                let w = choose|w: int| 0 <= w < unsorted.len() && unsorted[w] == (v, 0u64);
                assert(list@[w] == v);
            }
            if list@.contains(v) {
                let w = choose|w: int| 0 <= w < list@.len() && list@[w] == v;
                assert(unsorted[w] == (v, 0u64));
                assert(unsorted.contains((v, 0u64)));
                assert(pairs@.contains((v, 0u64)));
                let a = choose|a: int| 0 <= a < pairs@.len() && pairs@[a] == (v, 0u64);
                assert(r@.contains(pairs@[a].0));
            }
        }
    }
    r
}

fn build_gc_root_lookup(roots: &Vec<GcRoot>) -> (m: HashMap<u64, GcRootKind>)
    ensures
        forall|x: u64| #[trigger] m@.contains_key(x) <==> first_root_kind(roots@, x) is Some,
        forall|x: u64| #[trigger] m@.contains_key(x) ==> first_root_kind(roots@, x) == Some(m@[x]),
{
    let mut m: HashMap<u64, GcRootKind> = HashMap::new();
    let mut i: usize = 0;
    while i < roots.len()
        invariant
            i <= roots@.len(),
            forall|x: u64| #[trigger] m@.contains_key(x) <==> first_root_kind(roots@.take(i as int), x) is Some,
            forall|x: u64| #[trigger] m@.contains_key(x) ==> first_root_kind(roots@.take(i as int), x) == Some(m@[x]),
        decreases roots.len() - i,
    {
        let oid = roots[i].object_id;
        proof {
            assert(roots@.take(i + 1).drop_last() =~= roots@.take(i as int));
            assert(roots@.take(i + 1).last() == roots@[i as int]);
        }
        if !m.contains_key(&oid) {
            let k = gc_root_kind(roots[i].root_type);
            m.insert(oid, k);
        }
        i = i + 1;
    }
    proof {
        assert(roots@.take(i as int) =~= roots@);
    }
    m
}


/// The vector recorded for `x`, as a sequence, or the empty sequence.
pub open spec fn vlist(m: Map<u64, Vec<u64>>, x: u64) -> Seq<u64> {
    if m.contains_key(x) { m[x]@ } else { Seq::empty() }
}

fn build_reverse_edges(objects: &HashMap<u64, HeapObject>) -> (m: HashMap<u64, Vec<u64>>)
    ensures
        forall|x: u64, r: u64| #[trigger] vlist(m@, x).contains(r) <==> refers(objects@, r, x),
        forall|x: u64, i: int, j: int| 0 <= i < j < vlist(m@, x).len() ==> #[trigger] vlist(m@, x)[i]
            < #[trigger] vlist(m@, x)[j],
{
    let ids = crate::util::map_keys(objects);
    let mut raw: HashMap<u64, Vec<u64>> = HashMap::new();
    let mut i: usize = 0;
    while i < ids.len()
        invariant
            i <= ids@.len(),
            ids@.to_set() == objects@.dom(),
            forall|k: int| 0 <= k < ids@.len() ==> objects@.contains_key(#[trigger] ids@[k]),
            forall|x: u64, r: u64| #[trigger] vlist(raw@, x).contains(r) <==> (ids@.take(i as int).contains(r)
                && objects@[r].references@.contains(x)),
        decreases ids.len() - i,
    {
        let id = ids[i];
        let obj = objects.get(&id).unwrap();
        let ghost pre = ids@.take(i as int);
        let mut t: usize = 0;
        while t < obj.references.len()
            invariant
                t <= obj.references@.len(),
                i < ids@.len(),
                id == ids@[i as int],
                *obj == objects@[id],
                pre == ids@.take(i as int),
                forall|x: u64, r: u64| #[trigger] vlist(raw@, x).contains(r) <==> ((pre.contains(r)
                    && objects@[r].references@.contains(x)) || (r == id && obj.references@.take(t as int).contains(x))),
            decreases obj.references@.len() - t,
        {
            let x = obj.references[t];
            let ghost before = raw@;
            let mut l: Vec<u64> = match raw.remove(&x) {
                Some(l) => l,
                None => Vec::new(),
            };
            proof {
                assert(l@ == vlist(before, x));
            }
            l.push(id);
            raw.insert(x, l);
            proof {
                let nt = obj.references@.take(t + 1);
                assert(nt =~= obj.references@.take(t as int).push(x));
                assert forall|y: u64, r: u64| #[trigger] vlist(raw@, y).contains(r) <==> ((pre.contains(r)
                    && objects@[r].references@.contains(y)) || (r == id && nt.contains(y))) by {
                    if y == x {
                        assert(vlist(raw@, y) == vlist(before, x).push(id));
                        if vlist(raw@, y).contains(r) && r != id {
                            let w = choose|w: int| 0 <= w < vlist(raw@, y).len() && vlist(raw@, y)[w] == r;
                            assert(vlist(before, x)[w] == r);
                        }
                        if vlist(before, x).contains(r) {
                            let w = choose|w: int| 0 <= w < vlist(before, x).len() && vlist(before, x)[w] == r;
                            assert(vlist(raw@, y)[w] == r);
                        }
                        assert(vlist(raw@, y)[vlist(raw@, y).len() - 1] == id);
                        assert(nt[t as int] == x);
                    } else {
                        assert(vlist(raw@, y) == vlist(before, y));
                        if nt.contains(y) {
                            let w = choose|w: int| 0 <= w < nt.len() && nt[w] == y;
                            assert(w < t);
                            assert(obj.references@.take(t as int)[w] == y);
                        }
                        if obj.references@.take(t as int).contains(y) {
                            let w = choose|w: int| 0 <= w < t && obj.references@.take(t as int)[w] == y;
                            assert(nt[w] == y);
                        }
                    }
                }
            }
            t = t + 1;
        }
        proof {
            let nxt = ids@.take(i + 1);
            assert(obj.references@.take(t as int) =~= obj.references@);
            assert(nxt =~= pre.push(id));
            assert forall|x: u64, r: u64| #[trigger] vlist(raw@, x).contains(r) <==> (nxt.contains(r)
                && objects@[r].references@.contains(x)) by {
                if nxt.contains(r) && r != id {
                    let w = choose|w: int| 0 <= w < nxt.len() && nxt[w] == r;
                    assert(pre[w] == r);
                }
                if pre.contains(r) {
                    let w = choose|w: int| 0 <= w < pre.len() && pre[w] == r;
                    assert(nxt[w] == r);
                }
                assert(nxt[i as int] == id);
            }
        }
        i = i + 1;
    }
    proof {
        assert(ids@.take(i as int) =~= ids@);
    }
    let keys = crate::util::map_keys(&raw);
    let mut m: HashMap<u64, Vec<u64>> = HashMap::new();
    let mut j: usize = 0;
    while j < keys.len()
        invariant
            j <= keys@.len(),
            keys@.to_set() == raw@.dom(),
            keys@.no_duplicates(),
            forall|k: int| 0 <= k < keys@.len() ==> raw@.contains_key(#[trigger] keys@[k]),
            forall|x: u64| #[trigger] m@.contains_key(x) ==> keys@.take(j as int).contains(x),
            forall|k: int| 0 <= k < j ==> m@.contains_key(#[trigger] keys@[k]),
            forall|x: u64, r: u64| m@.contains_key(x) ==> (#[trigger] vlist(m@, x).contains(r) <==> vlist(raw@, x).contains(r)),
            forall|x: u64, a: int, b: int| 0 <= a < b < vlist(m@, x).len() ==> #[trigger] vlist(m@, x)[a]
                < #[trigger] vlist(m@, x)[b],
            ids@.to_set() == objects@.dom(),
            forall|x: u64, r: u64| #[trigger] vlist(raw@, x).contains(r) <==> (ids@.contains(r)
                && objects@[r].references@.contains(x)),
        decreases keys.len() - j,
    {
        let x = keys[j];
        let l = raw.get(&x).unwrap();
        let sorted = sorted_distinct(l);
        let ghost before = m@;
        m.insert(x, sorted);
        proof {
            let nxt = keys@.take(j + 1);
            assert(nxt[j as int] == x);
            assert forall|y: u64| #[trigger] m@.contains_key(y) implies nxt.contains(y) by {
                if y != x {
                    let w = choose|w: int| 0 <= w < j && keys@.take(j as int)[w] == y;
                    assert(nxt[w] == y);
                }
            }
            assert forall|k: int| 0 <= k < j + 1 implies m@.contains_key(#[trigger] keys@[k]) by {}
            assert forall|y: u64, r: u64| m@.contains_key(y) implies (#[trigger] vlist(m@, y).contains(r) <==> vlist(raw@, y).contains(r)) by {
                if y != x {
                    assert(vlist(m@, y) == vlist(before, y));
                }
            }
            assert forall|y: u64, a: int, b: int| 0 <= a < b < vlist(m@, y).len() implies #[trigger] vlist(m@, y)[a]
                < #[trigger] vlist(m@, y)[b] by {
                if y != x {
                    assert(vlist(m@, y) == vlist(before, y));
                }
            }
        }
        j = j + 1;
    }
    proof {
        assert forall|x: u64, r: u64| #[trigger] vlist(m@, x).contains(r) <==> refers(objects@, r, x) by {
            if raw@.contains_key(x) {
                assert(keys@.to_set().contains(x));
                let w = choose|w: int| 0 <= w < keys@.len() && keys@[w] == x;
                assert(m@.contains_key(keys@[w]));
            } else {
                if m@.contains_key(x) {
                    assert(keys@.take(j as int).contains(x));
                    let w = choose|w: int| 0 <= w < j && keys@.take(j as int)[w] == x;
                    assert(raw@.contains_key(keys@[w]));
                }
            }
            if refers(objects@, r, x) {
                assert(ids@.to_set().contains(r));
                assert(vlist(raw@, x).contains(r));
            }
            if vlist(m@, x).contains(r) {
                assert(vlist(raw@, x).contains(r));
                assert(ids@.to_set().contains(r));
            }
        }
    }
    m
}


/// Breadth-first bookkeeping: every visited object other than the target
/// knows the next object toward the target, which it references and which
/// lies one step closer.
pub open spec fn toward_target(
    rev: Map<u64, Seq<u64>>,
    next: Map<u64, u64>,
    dist: Map<u64, nat>,
    target: u64,
) -> bool {
    &&& dist.contains_key(target)
    &&& dist[target] == 1
    &&& forall|v: u64| #[trigger] dist.contains_key(v) ==> dist[v] >= 1
    &&& forall|v: u64| #[trigger] dist.contains_key(v) && dist[v] == 1 ==> v == target
    &&& forall|v: u64| #[trigger] dist.contains_key(v) && v != target ==> {
        &&& next.contains_key(v)
        &&& dist.contains_key(next[v])
        &&& dist[next[v]] + 1 == dist[v]
        &&& list_at(rev, next[v]).contains(v)
    }
}

/// The queue's depths never fall.
#[verifier::opaque]
pub open spec fn queue_sorted(queue: Seq<(u64, usize)>) -> bool {
    forall|a: int, b: int| 0 <= a <= b < queue.len() ==> #[trigger] queue[a].1 <= #[trigger] queue[b].1
}

/// Every visited object stands in the queue.
#[verifier::opaque]
pub open spec fn queue_covers(queue: Seq<(u64, usize)>, dist: Map<u64, nat>) -> bool {
    forall|v: u64| #[trigger] dist.contains_key(v) ==> exists|q: int| 0 <= q < queue.len() && #[trigger] queue[q].0 == v
}

/// The first `upto` queue entries below `max_depth` had all their referrers
/// visited, at most one step further.
#[verifier::opaque]
pub open spec fn closed_below(
    rev: Map<u64, Seq<u64>>,
    queue: Seq<(u64, usize)>,
    dist: Map<u64, nat>,
    upto: int,
    max_depth: int,
) -> bool {
    forall|q: int, r: u64|
        #![trigger queue[q], list_at(rev, queue[q].0).contains(r)]
        0 <= q < upto && queue[q].1 < max_depth && list_at(rev, queue[q].0).contains(r)
            ==> dist.contains_key(r) && dist[r] <= queue[q].1 + 1
}

/// None of the first `upto` queue entries is a recorded GC root.
#[verifier::opaque]
pub open spec fn none_rooted(roots: Map<u64, GcRootKind>, queue: Seq<(u64, usize)>, upto: int) -> bool {
    forall|q: int| 0 <= q < upto ==> !roots.contains_key(#[trigger] queue[q].0)
}

/// The queue records the visited objects with their distances.
#[verifier::opaque]
pub open spec fn queue_matches(queue: Seq<(u64, usize)>, dist: Map<u64, nat>) -> bool {
    forall|q: int| 0 <= q < queue.len() ==> dist.contains_key((#[trigger] queue[q]).0) && dist[queue[q].0] == queue[q].1
}

/// Along a chain of referrers that ends at `target`, with at most `bound`
/// and at most `max_depth` objects, every object was visited, no further
/// than its distance along the chain, when every visited object closer than
/// `bound` and `max_depth` had its referrers visited.
proof fn lemma_chain_visited(
    rev: Map<u64, Seq<u64>>,
    dist: Map<u64, nat>,
    frames: Seq<u64>,
    target: u64,
    bound: int,
    max_depth: int,
    j: int,
)
    requires
        dist.contains_key(target),
        dist[target] == 1,
        frames.len() >= 1,
        frames.last() == target,
        forall|i: int| 0 <= i < frames.len() - 1 ==> #[trigger] list_at(rev, frames[i + 1]).contains(frames[i]),
        frames.len() <= bound,
        frames.len() <= max_depth,
        forall|v: u64, r: u64|
            #![trigger dist.contains_key(v), list_at(rev, v).contains(r)]
            dist.contains_key(v) && dist[v] < bound && dist[v] < max_depth && list_at(rev, v).contains(r)
                ==> dist.contains_key(r) && dist[r] <= dist[v] + 1,
        0 <= j < frames.len(),
    ensures
        dist.contains_key(frames[j]),
        dist[frames[j]] <= frames.len() - j,
    decreases frames.len() - j,
{
    if j < frames.len() - 1 {
        lemma_chain_visited(rev, dist, frames, target, bound, max_depth, j + 1);
        assert(list_at(rev, frames[j + 1]).contains(frames[j]));
        assert(dist.contains_key(frames[j + 1]));
    }
}

/// Visited objects closer than `bound` stand before `upto` in a sorted
/// queue whose entries from `upto` on are no closer than `bound`; so they
/// had their referrers visited and are not roots.
proof fn lemma_closer_processed(
    rev: Map<u64, Seq<u64>>,
    roots: Map<u64, GcRootKind>,
    queue: Seq<(u64, usize)>,
    dist: Map<u64, nat>,
    upto: int,
    bound: int,
    max_depth: int,
)
    requires
        queue_covers(queue, dist),
        queue_matches(queue, dist),
        closed_below(rev, queue, dist, upto, max_depth),
        none_rooted(roots, queue, upto),
        forall|q: int| upto <= q < queue.len() ==> #[trigger] queue[q].1 >= bound,
    ensures
        forall|v: u64, r: u64|
            #![trigger dist.contains_key(v), list_at(rev, v).contains(r)]
            dist.contains_key(v) && dist[v] < bound && dist[v] < max_depth && list_at(rev, v).contains(r)
                ==> dist.contains_key(r) && dist[r] <= dist[v] + 1,
        forall|v: u64| #[trigger] dist.contains_key(v) && dist[v] < bound ==> !roots.contains_key(v),
{
    reveal(queue_covers);
    reveal(queue_matches);
    reveal(closed_below);
    reveal(none_rooted);
    assert forall|v: u64, r: u64|
        #![trigger dist.contains_key(v), list_at(rev, v).contains(r)]
        dist.contains_key(v) && dist[v] < bound && dist[v] < max_depth && list_at(rev, v).contains(r)
            implies dist.contains_key(r) && dist[r] <= dist[v] + 1 by {
        let q = choose|q: int| 0 <= q < queue.len() && #[trigger] queue[q].0 == v;
        assert(dist[queue[q].0] == queue[q].1);
        if q >= upto {
            assert(queue[q].1 >= bound);
        }
        assert(list_at(rev, queue[q].0).contains(r));
    }
    assert forall|v: u64| #[trigger] dist.contains_key(v) && dist[v] < bound implies !roots.contains_key(v) by {
        let q = choose|q: int| 0 <= q < queue.len() && #[trigger] queue[q].0 == v;
        assert(dist[queue[q].0] == queue[q].1);
        if q >= upto {
            assert(queue[q].1 >= bound);
        }
    }
}

/// From `head` on, no queue entry is more than one step beyond the head's.
#[verifier::opaque]
pub open spec fn queue_spread(queue: Seq<(u64, usize)>, head: int) -> bool {
    head < queue.len() ==> forall|b: int| 0 <= b < queue.len() ==> #[trigger] queue[b].1 <= queue[head].1 + 1
}

/// The queue as it starts: the target alone, at distance 1.
proof fn lemma_queue_start(rev: Map<u64, Seq<u64>>, roots: Map<u64, GcRootKind>, queue: Seq<(u64, usize)>, dist: Map<u64, nat>, target: u64, max_depth: int)
    requires
        queue == seq![(target, 1usize)],
        dist == Map::<u64, nat>::empty().insert(target, 1nat),
    ensures
        queue_sorted(queue),
        queue_covers(queue, dist),
        queue_matches(queue, dist),
        closed_below(rev, queue, dist, 0, max_depth),
        none_rooted(roots, queue, 0),
        queue_spread(queue, 0),
{
    reveal(queue_sorted);
    reveal(queue_covers);
    reveal(queue_matches);
    reveal(closed_below);
    reveal(none_rooted);
    reveal(queue_spread);
    assert(queue[0].0 == target);
}

/// Entries from `head` on are no closer than the head's.
proof fn lemma_sorted_from(queue: Seq<(u64, usize)>, head: int)
    requires
        queue_sorted(queue),
        0 <= head < queue.len(),
    ensures
        forall|q: int| head <= q < queue.len() ==> #[trigger] queue[q].1 >= queue[head].1,
        forall|b: int| 0 <= b < queue.len() ==> #[trigger] queue[b].1 >= queue[0].1,
{
    reveal(queue_sorted);
}

/// Moving past a head that is no root.
proof fn lemma_advance(roots: Map<u64, GcRootKind>, queue: Seq<(u64, usize)>, head: int)
    requires
        queue_sorted(queue),
        queue_spread(queue, head),
        none_rooted(roots, queue, head),
        0 <= head < queue.len(),
        !roots.contains_key(queue[head].0),
    ensures
        none_rooted(roots, queue, head + 1),
        queue_spread(queue, head + 1),
        forall|b: int| 0 <= b < queue.len() ==> #[trigger] queue[b].1 <= queue[head].1 + 1,
{
    reveal(queue_sorted);
    reveal(queue_spread);
    reveal(none_rooted);
    if head + 1 < queue.len() {
        assert forall|b: int| 0 <= b < queue.len() implies #[trigger] queue[b].1 <= queue[head + 1].1 + 1 by {
            assert(queue[head].1 <= queue[head + 1].1);
        }
    }
}

/// An entry at the depth limit has no referrers to visit.
proof fn lemma_close_deep(rev: Map<u64, Seq<u64>>, queue: Seq<(u64, usize)>, dist: Map<u64, nat>, head: int, max_depth: int)
    requires
        closed_below(rev, queue, dist, head, max_depth),
        0 <= head < queue.len(),
        queue[head].1 >= max_depth,
    ensures
        closed_below(rev, queue, dist, head + 1, max_depth),
{
    reveal(closed_below);
}

/// An entry whose referrers were all visited, one step further.
proof fn lemma_close_current(
    rev: Map<u64, Seq<u64>>,
    queue: Seq<(u64, usize)>,
    dist: Map<u64, nat>,
    head: int,
    max_depth: int,
    refs: Seq<u64>,
)
    requires
        closed_below(rev, queue, dist, head, max_depth),
        0 <= head < queue.len(),
        list_at(rev, queue[head].0) == refs,
        forall|j: int| 0 <= j < refs.len() ==> dist.contains_key(#[trigger] refs[j]) && dist[refs[j]] <= queue[head].1 + 1,
    ensures
        closed_below(rev, queue, dist, head + 1, max_depth),
{
    reveal(closed_below);
    assert forall|q: int, r: u64|
        #![trigger queue[q], list_at(rev, queue[q].0).contains(r)]
        0 <= q < head + 1 && queue[q].1 < max_depth && list_at(rev, queue[q].0).contains(r)
            implies dist.contains_key(r) && dist[r] <= queue[q].1 + 1 by {
        if q == head {
            let j = choose|j: int| 0 <= j < refs.len() && refs[j] == r;
            assert(dist.contains_key(refs[j]));
        }
    }
}

/// A referrer seen before is at most one step beyond the entries.
proof fn lemma_seen(queue: Seq<(u64, usize)>, dist: Map<u64, nat>, referrer: u64, depth: int)
    requires
        queue_covers(queue, dist),
        queue_matches(queue, dist),
        forall|b: int| 0 <= b < queue.len() ==> #[trigger] queue[b].1 <= depth + 1,
        dist.contains_key(referrer),
    ensures
        dist[referrer] <= depth + 1,
{
    reveal(queue_covers);
    reveal(queue_matches);
    let q = choose|q: int| 0 <= q < queue.len() && #[trigger] queue[q].0 == referrer;
    assert(dist[queue[q].0] == queue[q].1);
}

/// After the head's referrers are enqueued, the next head's spread holds.
proof fn lemma_spread_next(queue: Seq<(u64, usize)>, head: int, depth: int)
    requires
        queue_sorted(queue),
        1 <= head <= queue.len(),
        queue[head - 1].1 == depth,
        forall|b: int| 0 <= b < queue.len() ==> #[trigger] queue[b].1 <= depth + 1,
    ensures
        queue_spread(queue, head),
{
    reveal(queue_sorted);
    reveal(queue_spread);
    if head < queue.len() {
        assert forall|b: int| 0 <= b < queue.len() implies #[trigger] queue[b].1 <= queue[head].1 + 1 by {
            assert(queue[head - 1].1 <= queue[head].1);
        }
    }
}

/// Enqueuing a newly seen referrer one step beyond `depth` keeps the
/// queue's bookkeeping.
proof fn lemma_enqueue(
    rev: Map<u64, Seq<u64>>,
    roots: Map<u64, GcRootKind>,
    q0: Seq<(u64, usize)>,
    d0: Map<u64, nat>,
    referrer: u64,
    depth: usize,
    next_depth: usize,
    head: int,
    max_depth: int,
    refs: Seq<u64>,
    i: int,
)
    requires
        next_depth == depth + 1,
        queue_sorted(q0),
        queue_covers(q0, d0),
        queue_matches(q0, d0),
        closed_below(rev, q0, d0, head - 1, max_depth),
        none_rooted(roots, q0, head),
        forall|b: int| 0 <= b < q0.len() ==> #[trigger] q0[b].1 <= depth + 1,
        forall|j: int| 0 <= j < i ==> d0.contains_key(#[trigger] refs[j]) && d0[refs[j]] <= depth + 1,
        !d0.contains_key(referrer),
        0 <= i < refs.len(),
        refs[i] == referrer,
        1 <= head <= q0.len(),
    ensures
        ({
            let q1 = q0.push((referrer, next_depth));
            let d1 = d0.insert(referrer, next_depth as nat);
            &&& queue_sorted(q1)
            &&& queue_covers(q1, d1)
            &&& queue_matches(q1, d1)
            &&& closed_below(rev, q1, d1, head - 1, max_depth)
            &&& none_rooted(roots, q1, head)
            &&& forall|b: int| 0 <= b < q1.len() ==> #[trigger] q1[b].1 <= depth + 1
            &&& forall|j: int| 0 <= j < i + 1 ==> d1.contains_key(#[trigger] refs[j]) && d1[refs[j]] <= depth + 1
        }),
{
    reveal(queue_sorted);
    reveal(queue_covers);
    reveal(queue_matches);
    reveal(closed_below);
    reveal(none_rooted);
    let q1 = q0.push((referrer, next_depth));
    let d1 = d0.insert(referrer, next_depth as nat);
    assert forall|a: int, b: int| 0 <= a <= b < q1.len() implies #[trigger] q1[a].1 <= #[trigger] q1[b].1 by {
        if b < q0.len() {
            assert(q0[a].1 <= q0[b].1);
        } else if a < q0.len() {
            assert(q0[a].1 <= depth + 1);
        }
    }
    assert forall|v: u64| #[trigger] d1.contains_key(v) implies exists|q: int| 0 <= q < q1.len() && #[trigger] q1[q].0 == v by {
        if v == referrer {
            assert(q1[q0.len() as int].0 == v);
        } else {
            let q = choose|q: int| 0 <= q < q0.len() && #[trigger] q0[q].0 == v;
            assert(q1[q].0 == v);
        }
    }
    assert forall|q: int| 0 <= q < q1.len() implies d1.contains_key((#[trigger] q1[q]).0) && d1[q1[q].0] == q1[q].1 by {
        if q < q0.len() {
            assert(q1[q] == q0[q]);
            assert(d0.contains_key(q0[q].0));
        }
    }
    assert forall|q: int, r: u64|
        #![trigger q1[q], list_at(rev, q1[q].0).contains(r)]
        0 <= q < head - 1 && q1[q].1 < max_depth && list_at(rev, q1[q].0).contains(r)
            implies d1.contains_key(r) && d1[r] <= q1[q].1 + 1 by {
        assert(q1[q] == q0[q]);
        assert(list_at(rev, q0[q].0).contains(r));
    }
    assert forall|q: int| 0 <= q < head implies !roots.contains_key(#[trigger] q1[q].0) by {
        assert(q1[q] == q0[q]);
    }
    assert forall|b: int| 0 <= b < q1.len() implies #[trigger] q1[b].1 <= depth + 1 by {
        if b < q0.len() {
            assert(q1[b] == q0[b]);
        }
    }
    assert forall|j: int| 0 <= j < i + 1 implies d1.contains_key(#[trigger] refs[j]) && d1[refs[j]] <= depth + 1 by {
        if j < i {
            assert(d0.contains_key(refs[j]));
        }
    }
}

impl GcRootPathIndex {
    /// `frames` starts at a recorded GC root of kind `kind`, ends at
    /// `target`, and each object is a recorded referrer of the next.
    pub open spec fn index_path(&self, frames: Seq<u64>, kind: GcRootKind, target: u64) -> bool {
        &&& frames.len() >= 1
        &&& frames.last() == target
        &&& self.roots_view().contains_key(frames[0])
        &&& self.roots_view()[frames[0]] == kind
        &&& forall|i: int| 0 <= i < frames.len() - 1 ==> #[trigger] list_at(self.referrers_view(), frames[i + 1]).contains(frames[i])
    }

    /// Builds the referrer lists and root table of a graph.
    pub fn new(graph: &ObjectGraph) -> (idx: Self)
        ensures
            idx.indexes(graph.objects@, graph.gc_roots@),
    {
        let reverse_edges = build_reverse_edges(&graph.objects);
        let gc_roots = build_gc_root_lookup(&graph.gc_roots);
        let idx = GcRootPathIndex { reverse_edges, gc_roots };
        proof {
            assert forall|x: u64| list_at(idx.referrers_view(), x) == vlist(idx.reverse_edges@, x) by {}
        }
        idx
    }

    /// Whether an object is a GC root.
    pub fn is_gc_root(&self, object_id: u64) -> (b: bool)
        ensures
            b == self.roots_view().contains_key(object_id),
    {
        self.gc_roots.contains_key(&object_id)
    }
}

fn reconstruct_path(
    root_id: u64,
    target: u64,
    next_toward_target: &HashMap<u64, u64>,
    Ghost(rev): Ghost<Map<u64, Seq<u64>>>,
    Ghost(dist): Ghost<Map<u64, nat>>,
) -> (path: Vec<u64>)
    requires
        toward_target(rev, next_toward_target@, dist, target),
        dist.contains_key(root_id),
    ensures
        path@.len() == dist[root_id],
        path@[0] == root_id,
        path@.last() == target,
        forall|i: int| 0 <= i < path@.len() - 1 ==> #[trigger] list_at(rev, path@[i + 1]).contains(path@[i]),
{
    let mut path: Vec<u64> = Vec::new();
    path.push(root_id);
    let mut current = root_id;
    while current != target
        invariant
            toward_target(rev, next_toward_target@, dist, target),
            dist.contains_key(root_id),
            dist.contains_key(current),
            path@.len() >= 1,
            path@[0] == root_id,
            path@.last() == current,
            dist[current] + path@.len() - 1 == dist[root_id],
            forall|i: int| 0 <= i < path@.len() - 1 ==> #[trigger] list_at(rev, path@[i + 1]).contains(path@[i]),
        decreases dist[current],
    {
        match next_toward_target.get(&current) {
            Some(n) => {
                let ghost prev = path@;
                current = *n;
                path.push(current);
                proof {
                    assert forall|i: int| 0 <= i < path@.len() - 1 implies #[trigger] list_at(rev, path@[i + 1]).contains(path@[i]) by {
                        if i < prev.len() - 1 {
                            assert(path@[i] == prev[i] && path@[i + 1] == prev[i + 1]);
                        } else {
                            assert(path@[i] == prev.last());
                        }
                    }
                }
            },
            None => {
                proof {
                    assert(next_toward_target@.contains_key(current));
                }
                return path;
            },
        }
    }
    path
}


impl GcRootPathIndex {
    /// Breadth-first search backwards from `target` along referrers, for a
    /// GC root at most `max_depth` objects away (counting both ends).
    #[verifier::spinoff_prover]
    pub(crate) fn shortest_gc_root_path(
        &self,
        target: u64,
        max_depth: usize,
        Ghost(objects): Ghost<Map<u64, HeapObject>>,
        Ghost(roots): Ghost<Seq<GcRoot>>,
    ) -> (res: Option<GcRootPath>)
        requires
            self.indexes(objects, roots),
            objects.dom().finite(),
        ensures
            res matches Some(p) ==> self.index_path(p.frames@, p.root_kind, target) && p.frames@.len() <= max_depth,
            res matches Some(p) ==> forall|f: Seq<u64>, k: GcRootKind| #[trigger] self.index_path(f, k, target)
                ==> p.frames@.len() <= f.len(),
            res is None ==> forall|f: Seq<u64>, k: GcRootKind| #[trigger] self.index_path(f, k, target)
                ==> f.len() > max_depth,
            max_depth == 0 ==> res is None,
            max_depth >= 1 && self.roots_view().contains_key(target) ==> (res matches Some(p)
                && p.frames@ == seq![target] && p.root_kind == self.roots_view()[target]),
    {
        if max_depth == 0 {
            return None;
        }
        let ghost rev = self.referrers_view();
        let ghost roots_view = self.roots_view();
        let ghost bound = objects.dom().insert(target);
        let mut queue: Vec<(u64, usize)> = Vec::new();
        queue.push((target, 1));
        let mut head: usize = 0;
        let mut visited: HashSet<u64> = HashSet::new();
        visited.insert(target);
        let mut next_toward_target: HashMap<u64, u64> = HashMap::new();
        let ghost mut dist: Map<u64, nat> = Map::empty().insert(target, 1nat);
        proof {
            assert(visited@ =~= dist.dom());
            assert(dist.dom() =~= Set::empty().insert(target));
            assert(queue@ =~= seq![(target, 1usize)]);
            lemma_queue_start(rev, roots_view, queue@, dist, target, max_depth as int);
        }
        while head < queue.len()
            invariant
                self.indexes(objects, roots),
                rev == self.referrers_view(),
                roots_view == self.roots_view(),
                bound == objects.dom().insert(target),
                bound.finite(),
                1 <= max_depth,
                toward_target(rev, next_toward_target@, dist, target),
                visited@ == dist.dom(),
                dist.dom().subset_of(bound),
                dist.dom().finite(),
                queue@.len() == dist.dom().len(),
                head <= queue@.len(),
                forall|q: int| 0 <= q < queue@.len() ==> dist.contains_key((#[trigger] queue@[q]).0)
                    && dist[queue@[q].0] == queue@[q].1 && 1 <= queue@[q].1 <= max_depth,
                queue@.len() >= 1,
                queue@[0].0 == target,
                dist.contains_key(target) && dist[target] == 1,
                roots_view.contains_key(target) ==> head == 0,
                queue_sorted(queue@),
                queue_covers(queue@, dist),
                queue_matches(queue@, dist),
                closed_below(rev, queue@, dist, head as int, max_depth as int),
                none_rooted(roots_view, queue@, head as int),
                queue_spread(queue@, head as int),
            decreases bound.len() - head,
        {
            proof {
                vstd::set_lib::lemma_len_subset(dist.dom(), bound);
            }
            let (current, depth) = queue[head];
            match self.gc_roots.get(&current) {
                Some(kind) => {
                    let frames = reconstruct_path(current, target, &next_toward_target, Ghost(rev), Ghost(dist));
                    proof {
                        if current == target {
                            assert(frames@ =~= seq![target]);
                        }
                        lemma_sorted_from(queue@, head as int);
                        lemma_closer_processed(rev, roots_view, queue@, dist, head as int, depth as int, max_depth as int);
                        assert forall|f: Seq<u64>, k: GcRootKind| #[trigger] self.index_path(f, k, target)
                            implies frames@.len() <= f.len() by {
                            if f.len() < depth {
                                lemma_chain_visited(rev, dist, f, target, depth as int, max_depth as int, 0);
                            }
                        }
                    }
                    return Some(GcRootPath { root_kind: *kind, frames });
                },
                None => {},
            }
            proof {
                lemma_advance(roots_view, queue@, head as int);
            }
            head = head + 1;
            if depth >= max_depth {
                proof {
                    lemma_close_deep(rev, queue@, dist, head - 1, max_depth as int);
                }
                continue;
            }
            let ghost refs: Seq<u64> = list_at(rev, current);
            match self.reverse_edges.get(&current) {
                Some(referrers) => {
                    proof {
                        assert(referrers@ == list_at(rev, current));
                    }
                    let mut i: usize = 0;
                    while i < referrers.len()
                        invariant
                            self.indexes(objects, roots),
                            rev == self.referrers_view(),
                            roots_view == self.roots_view(),
                            referrers@ == list_at(rev, current),
                            refs == referrers@,
                            bound == objects.dom().insert(target),
                            bound.finite(),
                            1 <= max_depth,
                            depth < max_depth,
                            dist.contains_key(current),
                            dist[current] == depth,
                            toward_target(rev, next_toward_target@, dist, target),
                            visited@ == dist.dom(),
                            dist.dom().subset_of(bound),
                            dist.dom().finite(),
                            queue@.len() == dist.dom().len(),
                            head <= queue@.len(),
                            forall|q: int| 0 <= q < queue@.len() ==> dist.contains_key((#[trigger] queue@[q]).0)
                                && dist[queue@[q].0] == queue@[q].1 && 1 <= queue@[q].1 <= max_depth,
                            queue@.len() >= 1,
                            queue@[0].0 == target,
                            dist.contains_key(target) && dist[target] == 1,
                            roots_view.contains_key(target) ==> head == 0,
                            head >= 1,
                            queue@[head - 1] == (current, depth),
                            queue_sorted(queue@),
                            queue_covers(queue@, dist),
                            queue_matches(queue@, dist),
                            closed_below(rev, queue@, dist, head - 1, max_depth as int),
                            none_rooted(roots_view, queue@, head as int),
                            forall|b: int| 0 <= b < queue@.len() ==> #[trigger] queue@[b].1 <= depth + 1,
                            forall|j: int| 0 <= j < i ==> dist.contains_key(#[trigger] referrers@[j])
                                && dist[referrers@[j]] <= depth + 1,
                        decreases referrers@.len() - i,
                    {
                        let referrer = referrers[i];
                        proof {
                            assert(list_at(rev, current).contains(referrer));
                            assert(refers(objects, referrer, current));
                        }
                        let ghost q_before = queue@;
                        let ghost d_before = dist;
                        if visited.insert(referrer) {
                            next_toward_target.insert(referrer, current);
                            queue.push((referrer, depth + 1));
                            proof {
                                lemma_enqueue(rev, roots_view, q_before, d_before, referrer, depth, (depth + 1) as usize,
                                    head as int, max_depth as int, referrers@, i as int);
                                let old_dist = dist;
                                dist = dist.insert(referrer, (depth + 1) as nat);
                                assert(dist.dom() =~= old_dist.dom().insert(referrer));
                                assert(!old_dist.dom().contains(referrer));
                                assert(visited@ =~= dist.dom());
                                assert forall|v: u64| #[trigger] dist.contains_key(v) && v != target implies {
                                    &&& next_toward_target@.contains_key(v)
                                    &&& dist.contains_key(next_toward_target@[v])
                                    &&& dist[next_toward_target@[v]] + 1 == dist[v]
                                    &&& list_at(rev, next_toward_target@[v]).contains(v)
                                } by {
                                    if v != referrer {
                                        assert(old_dist.contains_key(v));
                                    }
                                }
                                assert forall|q: int| 0 <= q < queue@.len() implies dist.contains_key((#[trigger] queue@[q]).0)
                                    && dist[queue@[q].0] == queue@[q].1 && 1 <= queue@[q].1 <= max_depth by {
                                    if q < queue@.len() - 1 {
                                        assert(old_dist.contains_key(queue@[q].0));
                                        assert(queue@[q].0 != referrer);
                                    }
                                }
                            }
                        } else {
                            proof {
                                lemma_seen(queue@, dist, referrer, depth as int);
                                assert forall|j: int| 0 <= j < i + 1 implies dist.contains_key(#[trigger] referrers@[j])
                                    && dist[referrers@[j]] <= depth + 1 by {}
                            }
                        }
                        i = i + 1;
                    }
                    proof {
                        lemma_close_current(rev, queue@, dist, head - 1, max_depth as int, refs);
                    }
                },
                None => {
                    proof {
                        assert(refs.len() == 0);
                        lemma_close_current(rev, queue@, dist, head - 1, max_depth as int, refs);
                    }
                },
            }
            proof {
                lemma_spread_next(queue@, head as int, depth as int);
            }
        }
        proof {
            lemma_closer_processed(rev, roots_view, queue@, dist, head as int, max_depth + 1, max_depth as int);
            assert forall|f: Seq<u64>, k: GcRootKind| #[trigger] self.index_path(f, k, target) implies f.len() > max_depth by {
                if f.len() <= max_depth {
                    lemma_chain_visited(rev, dist, f, target, max_depth + 1, max_depth as int, 0);
                }
            }
        }
        None
    }
}

/// The shortest chain of references from a GC root to `target` with at
/// most `max_depth` objects, both ends included.
pub fn shortest_gc_root_path(graph: &ObjectGraph, target: u64, max_depth: usize) -> (res: Option<GcRootPath>)
    ensures
        res matches Some(p) ==> is_root_path(graph.objects@, graph.gc_roots@, p.frames@, p.root_kind, target)
            && p.frames@.len() <= max_depth,
        res matches Some(p) ==> forall|f: Seq<u64>, k: GcRootKind| #[trigger] is_root_path(graph.objects@, graph.gc_roots@, f, k, target)
            ==> p.frames@.len() <= f.len(),
        res is None <==> forall|f: Seq<u64>, k: GcRootKind| #[trigger] is_root_path(graph.objects@, graph.gc_roots@, f, k, target)
            ==> f.len() > max_depth,
        max_depth == 0 ==> res is None,
        max_depth >= 1 && first_root_kind(graph.gc_roots@, target) is Some ==> (res matches Some(p)
            && p.frames@ == seq![target] && first_root_kind(graph.gc_roots@, target) == Some(p.root_kind)),
{
    let idx = GcRootPathIndex::new(graph);
    let res = idx.shortest_gc_root_path(target, max_depth, Ghost(graph.objects@), Ghost(graph.gc_roots@));
    proof {
        assert forall|f: Seq<u64>, k: GcRootKind| #[trigger] is_root_path(graph.objects@, graph.gc_roots@, f, k, target)
            implies idx.index_path(f, k, target) by {
            assert forall|i: int| 0 <= i < f.len() - 1 implies #[trigger] list_at(idx.referrers_view(), f[i + 1]).contains(f[i]) by {
                assert(refers(graph.objects@, f[i], f[i + 1]));
            }
            assert(idx.roots_view().contains_key(f[0]));
        }
        if res is Some {
            let p = res->0;
            assert forall|i: int| 0 <= i < p.frames@.len() - 1 implies #[trigger] refers(
                graph.objects@, p.frames@[i], p.frames@[i + 1]) by {
                assert(list_at(idx.referrers_view(), p.frames@[i + 1]).contains(p.frames@[i]));
            }
            assert(is_root_path(graph.objects@, graph.gc_roots@, p.frames@, p.root_kind, target));
        }
    }
    res
}

} // verus!
