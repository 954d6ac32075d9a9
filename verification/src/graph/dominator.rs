//! The dominator tree of the object graph and the retained size of each
//! object: the shallow sizes of everything it dominates, itself included.

use vstd::prelude::*;
use std::collections::HashMap;
use petgraph::algo::dominators::simple_fast;
use petgraph::graph::{DiGraph, NodeIndex};
use crate::hprof::object_graph::{ObjectGraph, HeapObject, GcRoot};
use crate::graph::metrics::reference_count_fn;
use crate::util::{map_sum, lemma_map_sum_restrict_insert, lemma_map_sum_restrict_empty};

verus! {

broadcast use vstd::std_specs::hash::group_hash_axioms;

/// Identifier of the virtual super-root that owns every GC root.
pub const VIRTUAL_ROOT_ID: u64 = 0xFFFF_FFFF_FFFF_FFFFu64;

/// One more than the largest node index named by an edge list.
pub open spec fn edge_node_bound(edges: Seq<(u32, u32)>) -> nat
    decreases edges.len(),
{
    if edges.len() == 0 {
        0
    } else {
        let rest = edge_node_bound(edges.drop_last());
        let (a, b) = edges.last();
        let m = if a >= b { a as nat + 1 } else { b as nat + 1 };
        if m > rest { m } else { rest }
    }
}

/// The node bound of edges whose endpoints are at most `m`.
pub proof fn lemma_edge_bound_le(edges: Seq<(u32, u32)>, m: nat)
    requires
        forall|i: int| 0 <= i < edges.len() ==> (#[trigger] edges[i]).0 <= m && edges[i].1 <= m,
    ensures
        edge_node_bound(edges) <= m + 1,
    decreases edges.len(),
{
    if edges.len() > 0 {
        let rest = edges.drop_last();
        assert forall|i: int| 0 <= i < rest.len() implies (#[trigger] rest[i]).0 <= m && rest[i].1 <= m by {
            assert(rest[i] == edges[i]);
        }
        lemma_edge_bound_le(rest, m);
    }
}

/// Following computed immediate dominators never cycles, and a chain of
/// them ends at node 0: the immediate dominator of a node is node 0 or a
/// node that has one itself, and a rank falls along each step.
pub open spec fn idoms_form_tree(idoms: Seq<Option<u32>>) -> bool {
    &&& forall|k: int| 0 <= k < idoms.len() ==> (#[trigger] idoms[k] matches Some(d) ==> d == 0
        || (d < idoms.len() && idoms[d as int] is Some))
    &&& exists|rank: Seq<nat>| #[trigger] rank_falls(idoms, rank)
}

/// `rank` gives each node a number that falls from a node's immediate
/// dominator to the node.
pub open spec fn rank_falls(idoms: Seq<Option<u32>>, rank: Seq<nat>) -> bool {
    &&& rank.len() == idoms.len()
    &&& forall|k: int| 0 <= k < idoms.len() ==> (#[trigger] idoms[k] matches Some(d) ==> d < idoms.len()
        && rank[d as int] < rank[k])
}

/// `path` follows `edges` from node 0.
pub open spec fn edge_path(edges: Seq<(u32, u32)>, path: Seq<u32>) -> bool {
    &&& path.len() >= 1
    &&& path[0] == 0
    &&& forall|i: int| 0 <= i < path.len() - 1 ==> edges.contains((#[trigger] path[i], path[i + 1]))
}

/// Node `k` can be reached from node 0 along `edges`.
pub open spec fn edge_reachable(edges: Seq<(u32, u32)>, k: u32) -> bool {
    exists|path: Seq<u32>| #[trigger] edge_path(edges, path) && path.last() == k
}

/// Every endpoint of an edge lies below the node bound.
pub proof fn lemma_edge_in_bound(edges: Seq<(u32, u32)>, j: int)
    requires
        0 <= j < edges.len(),
    ensures
        edges[j].0 < edge_node_bound(edges),
        edges[j].1 < edge_node_bound(edges),
    decreases edges.len(),
{
    if j < edges.len() - 1 {
        let rest = edges.drop_last();
        lemma_edge_in_bound(rest, j);
        assert(rest[j] == edges[j]);
    }
}

/// A node other than 0 at or beyond the node bound cannot be reached.
pub proof fn lemma_beyond_bound_unreached(edges: Seq<(u32, u32)>, k: u32)
    requires
        k != 0,
        k >= edge_node_bound(edges),
    ensures
        !edge_reachable(edges, k),
{
    if edge_reachable(edges, k) {
        let path = choose|path: Seq<u32>| #[trigger] edge_path(edges, path) && path.last() == k;
        let i = path.len() - 2;
        assert(edges.contains((path[i], path[i + 1])));
        let j = choose|j: int| 0 <= j < edges.len() && edges[j] == (path[i], path[i + 1]);
        lemma_edge_in_bound(edges, j);
    }
}

/// Node `a` lies on every path from node 0 to node `b`.
pub open spec fn node_dominates(edges: Seq<(u32, u32)>, a: u32, b: u32) -> bool {
    forall|path: Seq<u32>| #[trigger] edge_path(edges, path) && path.last() == b ==> path.contains(a)
}

/// Immediate dominators, per node index, of the graph with the given edges
/// and node 0 as root, as computed by petgraph's `simple_fast`.
pub uninterp spec fn simple_fast_idoms(edges: Seq<(u32, u32)>) -> Seq<Option<u32>>;

/// Builds a petgraph `Graph` from `edges` with `Graph::from_edges` (which
/// adds nodes up to the largest index named) and runs
/// `petgraph::algo::dominators::simple_fast` from node 0, reporting
/// `Dominators::immediate_dominator` for every node. Claimed: the result
/// is named by `simple_fast_idoms`, has one entry per node, the root has no
/// immediate dominator, and an immediate dominator is another node of the
/// graph, and the immediate dominators form a tree under node 0 (simple_fast
/// ranks nodes in post-order, and a dominator always ranks above what it
/// dominates). A node other than the root has an immediate dominator exactly
/// when it can be reached from the root (`Dominators::immediate_dominator`
/// documents `None` for the root and for unreachable nodes), and it is what
/// petgraph's module documentation defines an immediate dominator to be: a
/// node other than the node itself that lies on every path from the root to
/// it, such that every other node lying on all those paths also lies on
/// every path to the immediate dominator. Every endpoint
/// must be below `u32::MAX`, and there must be fewer than `u32::MAX` edges:
/// petgraph's node and edge index limits, where adding a node or an edge
/// panics.
#[verifier::external_body]
pub(crate) fn dominators_from_edges(edges: &Vec<(u32, u32)>) -> (idoms: Vec<Option<u32>>)
    requires
        edges@.len() > 0,
        forall|k: int| 0 <= k < edges@.len() ==> (#[trigger] edges@[k]).0 < u32::MAX && edges@[k].1 < u32::MAX,
        edges@.len() < u32::MAX,
    ensures
        idoms@ == simple_fast_idoms(edges@),
        idoms@.len() == edge_node_bound(edges@),
        idoms@[0] is None,
        forall|k: int| 0 <= k < idoms@.len() ==> (#[trigger] idoms@[k] matches Some(d) ==> d
            < idoms@.len() && d != k),
        idoms_form_tree(idoms@),
        forall|k: int| 0 < k < idoms@.len() ==> (#[trigger] idoms@[k] is Some <==> edge_reachable(edges@, k as u32)),
        forall|k: int| 0 < k < idoms@.len() && #[trigger] idoms@[k] is Some ==> node_dominates(edges@, idoms@[k]->0, k as u32),
        forall|k: int, c: u32| 0 < k < idoms@.len() && #[trigger] idoms@[k] is Some && c != k && #[trigger] node_dominates(edges@, c, k as u32)
            ==> node_dominates(edges@, c, idoms@[k]->0),
{
    let g: DiGraph<(), ()> = DiGraph::from_edges(edges.iter().copied());
    let doms = simple_fast(&g, NodeIndex::new(0));
    (0..g.node_count()).map(|k| doms.immediate_dominator(NodeIndex::new(k)).map(|d| d.index() as u32)).collect()
}


/// Immediate dominator index of node `k` among the nodes `0..=n`, when the
/// computed entry names another node of that range.
pub open spec fn parent_index(n: int, idoms: Seq<Option<u32>>, k: int) -> Option<int> {
    if 1 <= k <= n && k < idoms.len() {
        match idoms[k] {
            Some(d) => if (d as int) <= n && d as int != k { Some(d as int) } else { None },
            None => None,
        }
    } else {
        None
    }
}

/// A parent table: node 0 has no parent, every parent is another node.
pub open spec fn parents_wf(parents: Seq<Option<usize>>) -> bool {
    &&& parents.len() >= 1
    &&& parents[0] is None
    &&& forall|k: int| 0 <= k < parents.len() ==> (#[trigger] parents[k] matches Some(p) ==> p
        < parents.len() && p != k)
}

fn parent_table(n: usize, idoms: &Vec<Option<u32>>) -> (parents: Vec<Option<usize>>)
    requires
        n < usize::MAX,
    ensures
        parents@.len() == n + 1,
        parents_wf(parents@),
        forall|k: int| 0 <= k <= n ==> match #[trigger] parents@[k] {
            Some(p) => parent_index(n as int, idoms@, k) == Some(p as int),
            None => parent_index(n as int, idoms@, k) is None,
        },
{
    let mut parents: Vec<Option<usize>> = Vec::new();
    let mut k: usize = 0;
    while k <= n
        invariant
            k <= n + 1,
            n < usize::MAX,
            parents@.len() == k,
            forall|j: int| 0 <= j < k ==> match #[trigger] parents@[j] {
                Some(p) => parent_index(n as int, idoms@, j) == Some(p as int),
                None => parent_index(n as int, idoms@, j) is None,
            },
        decreases n + 1 - k,
    {
        let entry: Option<usize> = if k >= 1 && k < idoms.len() {
            match idoms[k] {
                Some(d) => if (d as usize) <= n && d as usize != k {
                    Some(d as usize)
                } else {
                    None
                },
                None => None,
            }
        } else {
            None
        };
        parents.push(entry);
        k = k + 1;
    }
    parents
}

/// For each node, the nodes whose parent it is, in increasing order.
fn child_lists(parents: &Vec<Option<usize>>) -> (kids: Vec<Vec<usize>>)
    requires
        parents_wf(parents@),
    ensures
        kids@.len() == parents@.len(),
        forall|p: int, i: int|
            0 <= p < kids@.len() && 0 <= i < kids@[p]@.len() ==> (#[trigger] kids@[p]@[i]) < parents@.len()
                && parents@[kids@[p]@[i] as int] == Some(p as usize),
        forall|c: int| 0 <= c < parents@.len() ==> (#[trigger] parents@[c] matches Some(p) ==> kids@[p as int]@.contains(c as usize)),
        forall|p: int| 0 <= p < kids@.len() ==> (#[trigger] kids@[p])@.no_duplicates(),
{
    let len = parents.len();
    let mut kids: Vec<Vec<usize>> = Vec::new();
    let mut k: usize = 0;
    while k < len
        invariant
            k <= len == parents@.len(),
            kids@.len() == k,
            forall|p: int| 0 <= p < k ==> (#[trigger] kids@[p])@.len() == 0,
        decreases len - k,
    {
        kids.push(Vec::new());
        k = k + 1;
    }
    let mut c: usize = 0;
    while c < len
        invariant
            c <= len == parents@.len(),
            parents_wf(parents@),
            kids@.len() == len,
            forall|p: int, i: int|
                0 <= p < len && 0 <= i < kids@[p]@.len() ==> (#[trigger] kids@[p]@[i]) < c
                    && parents@[kids@[p]@[i] as int] == Some(p as usize),
            forall|p: int, i: int, j: int|
                0 <= p < len && 0 <= i < j < kids@[p]@.len() ==> #[trigger] kids@[p]@[i] < #[trigger] kids@[p]@[j],
            forall|d: int| 0 <= d < c ==> (#[trigger] parents@[d] matches Some(p) ==> kids@[p as int]@.contains(d as usize)),
        decreases len - c,
    {
        match parents[c] {
            Some(p) => {
                let ghost before = kids@;
                kids[p].push(c);
                proof {
                    assert forall|q: int| 0 <= q < len && q != p implies kids@[q] == before[q] by {}
                    assert(kids@[p as int]@ == before[p as int]@.push(c));
                    assert(kids@[p as int]@[kids@[p as int]@.len() - 1] == c);
                    assert(kids@[p as int]@.contains(c));
                    assert forall|d: int| 0 <= d < c implies (#[trigger] parents@[d] matches Some(q)
                        ==> kids@[q as int]@.contains(d as usize)) by {
                        if let Some(q) = parents@[d] {
                            if q == p {
                                let i = choose|i: int| 0 <= i < before[p as int]@.len() && before[p as int]@[i] == d as usize;
                                assert(kids@[p as int]@[i] == d as usize);
                            }
                        }
                    }
                }
            },
            None => {},
        }
        c = c + 1;
    }
    proof {
        assert forall|p: int| 0 <= p < kids@.len() implies (#[trigger] kids@[p])@.no_duplicates() by {
            assert forall|i: int, j: int| 0 <= i < kids@[p]@.len() && 0 <= j < kids@[p]@.len() && i != j implies
                kids@[p]@[i] != kids@[p]@[j] by {
                if i < j {
                    assert(kids@[p]@[i] < kids@[p]@[j]);
                } else {
                    assert(kids@[p]@[j] < kids@[p]@[i]);
                }
            }
        }
    }
    kids
}


/// Child lists that agree with a parent table.
pub open spec fn kids_wf(kids: Seq<Vec<usize>>, parents: Seq<Option<usize>>) -> bool {
    &&& kids.len() == parents.len()
    &&& forall|p: int, i: int|
        0 <= p < kids.len() && 0 <= i < kids[p]@.len() ==> (#[trigger] kids[p]@[i]) < parents.len()
            && parents[kids[p]@[i] as int] == Some(p as usize)
    &&& forall|c: int| 0 <= c < parents.len() ==> (#[trigger] parents[c] matches Some(p)
        ==> kids[p as int]@.contains(c as usize))
    &&& forall|p: int| 0 <= p < kids.len() ==> (#[trigger] kids[p])@.no_duplicates()
}

/// A visiting order of the tree: it starts at node 0, names each node at
/// most once, contains the children of every node it contains, and lists
/// every node after its parent.
pub open spec fn order_wf(order: Seq<usize>, kids: Seq<Vec<usize>>, parents: Seq<Option<usize>>) -> bool {
    &&& order.len() >= 1
    &&& order[0] == 0
    &&& order.no_duplicates()
    &&& forall|q: int| 0 <= q < order.len() ==> (#[trigger] order[q]) < parents.len()
    &&& forall|j: int, i: int|
        0 <= j < order.len() && 0 <= i < kids[order[j] as int]@.len() ==> order.contains(
            #[trigger] kids[order[j] as int]@[i],
        )
    &&& forall|q: int|
        0 < q < order.len() ==> (#[trigger] parents[order[q] as int] matches Some(p) && exists|r: int|
            0 <= r < q && order[r] == p)
}

proof fn lemma_distinct_bounded(s: Seq<usize>, n: nat)
    requires
        s.no_duplicates(),
        forall|i: int| 0 <= i < s.len() ==> (s[i] as nat) < n,
    ensures
        s.len() <= n,
    decreases n,
{
    if n == 0 {
        if s.len() > 0 {
            assert((s[0] as nat) < 0);
        }
    } else if exists|j: int| 0 <= j < s.len() && s[j] as int == n - 1 {
        let j = choose|j: int| 0 <= j < s.len() && s[j] as int == n - 1;
        let t = s.subrange(0, j) + s.subrange(j + 1, s.len() as int);
        assert forall|i: int| 0 <= i < t.len() implies (t[i] as nat) < n - 1 by {
            if i < j {
                assert(t[i] == s[i]);
                assert(s[i] != s[j]);
            } else {
                assert(t[i] == s[i + 1]);
                assert(s[i + 1] != s[j]);
            }
        }
        assert forall|a: int, b: int| 0 <= a < t.len() && 0 <= b < t.len() && a != b implies t[a] != t[b] by {
            let sa = if a < j { a } else { a + 1 };
            let sb = if b < j { b } else { b + 1 };
            assert(t[a] == s[sa]);
            assert(t[b] == s[sb]);
        }
        lemma_distinct_bounded(t, (n - 1) as nat);
    } else {
        lemma_distinct_bounded(s, (n - 1) as nat);
    }
}

/// Breadth-first order of the nodes reachable from node 0 through the
/// child lists.
fn tree_order(kids: &Vec<Vec<usize>>, parents: &Vec<Option<usize>>) -> (order: Vec<usize>)
    requires
        parents_wf(parents@),
        kids_wf(kids@, parents@),
    ensures
        order_wf(order@, kids@, parents@),
{
    let len = parents.len();
    let mut visited: Vec<bool> = Vec::new();
    let mut k: usize = 0;
    while k < len
        invariant
            k <= len == parents@.len(),
            visited@.len() == k,
            forall|v: int| 0 <= v < k ==> !(#[trigger] visited@[v]),
        decreases len - k,
    {
        visited.push(false);
        k = k + 1;
    }
    let mut order: Vec<usize> = Vec::new();
    order.push(0);
    visited[0] = true;
    let mut head: usize = 0;
    proof {
        assert(order@[0] == 0);
    }
    while head < order.len()
        invariant
            len == parents@.len(),
            parents_wf(parents@),
            kids_wf(kids@, parents@),
            visited@.len() == len,
            order@.len() >= 1,
            order@[0] == 0,
            order@.no_duplicates(),
            forall|q: int| 0 <= q < order@.len() ==> (#[trigger] order@[q]) < len,
            forall|v: int| 0 <= v < len ==> (#[trigger] visited@[v] <==> order@.contains(v as usize)),
            head <= order@.len(),
            forall|j: int, i: int|
                0 <= j < head && 0 <= i < kids@[order@[j] as int]@.len() ==> order@.contains(
                    #[trigger] kids@[order@[j] as int]@[i],
                ),
            forall|q: int|
                0 < q < order@.len() ==> (#[trigger] parents@[order@[q] as int] matches Some(p) && exists|r: int|
                    0 <= r < q && order@[r] == p),
        decreases len - head,
    {
        proof {
            lemma_distinct_bounded(order@, len as nat);
        }
        let x = order[head];
        let ghost order_at_head = order@;
        let mut i: usize = 0;
        while i < kids[x].len()
            invariant
                len == parents@.len(),
                parents_wf(parents@),
                kids_wf(kids@, parents@),
                x < len,
                head < order@.len(),
                order@[head as int] == x,
                order@.len() >= 1,
                order@[0] == 0,
                order@.no_duplicates(),
                forall|q: int| 0 <= q < order@.len() ==> (#[trigger] order@[q]) < len,
                visited@.len() == len,
                forall|v: int| 0 <= v < len ==> (#[trigger] visited@[v] <==> order@.contains(v as usize)),
                order@.len() >= order_at_head.len(),
                forall|q: int| 0 <= q < order_at_head.len() ==> order@[q] == order_at_head[q],
                forall|j: int, i2: int|
                    0 <= j < head && 0 <= i2 < kids@[order@[j] as int]@.len() ==> order@.contains(
                        #[trigger] kids@[order@[j] as int]@[i2],
                    ),
                forall|i2: int| 0 <= i2 < i ==> order@.contains(#[trigger] kids@[x as int]@[i2]),
                i <= kids@[x as int]@.len(),
                forall|q: int|
                    0 < q < order@.len() ==> (#[trigger] parents@[order@[q] as int] matches Some(p) && exists|r: int|
                        0 <= r < q && order@[r] == p),
            decreases kids@[x as int]@.len() - i,
        {
            let c = kids[x][i];
            if !visited[c] {
                let ghost prev = order@;
                proof {
                    assert(!order@.contains(c));
                }
                order.push(c);
                visited[c] = true;
                proof {
                    assert(order@.last() == c);
                    assert forall|v: int| 0 <= v < len implies (#[trigger] visited@[v] <==> order@.contains(v as usize)) by {
                        if v == c as int {
                            assert(order@[order@.len() - 1] == c);
                        } else {
                            if order@.contains(v as usize) {
                                let w = choose|w: int| 0 <= w < order@.len() && order@[w] == v as usize;
                                assert(w < prev.len());
                                assert(prev[w] == v as usize);
                            }
                            if prev.contains(v as usize) {
                                let w = choose|w: int| 0 <= w < prev.len() && prev[w] == v as usize;
                                assert(order@[w] == v as usize);
                            }
                        }
                    }
                    assert(order@.no_duplicates()) by {
                        assert forall|a: int, b: int| 0 <= a < order@.len() && 0 <= b < order@.len() && a != b implies order@[a] != order@[b] by {
                            if a < prev.len() && b < prev.len() {
                                assert(prev[a] != prev[b]);
                            } else if a < prev.len() {
                                assert(prev.contains(prev[a]));
                            } else if b < prev.len() {
                                assert(prev.contains(prev[b]));
                            }
                        }
                    }
                    assert(parents@[c as int] == Some(x));
                    let q_new = order@.len() - 1;
                    assert(order@[head as int] == x && head < q_new);
                    assert forall|q: int| 0 < q < order@.len() implies (#[trigger] parents@[order@[q] as int] matches Some(p) && exists|r: int|
                        0 <= r < q && order@[r] == p) by {
                        if q < prev.len() {
                            assert(order@[q] == prev[q]);
                            let p = parents@[order@[q] as int]->0;
                            let r = choose|r: int| 0 <= r < q && prev[r] == p;
                            assert(order@[r] == p);
                        } else {
                            assert(order@[head as int] == x);
                        }
                    }
                    assert forall|j: int, i2: int|
                        0 <= j < head && 0 <= i2 < kids@[order@[j] as int]@.len() implies order@.contains(
                            #[trigger] kids@[order@[j] as int]@[i2]) by {
                        assert(order@[j] == prev[j]);
                        let y = kids@[order@[j] as int]@[i2];
                        assert(prev.contains(y));
                        let w = choose|w: int| 0 <= w < prev.len() && prev[w] == y;
                        assert(order@[w] == y);
                    }
                    assert forall|i2: int| 0 <= i2 <= i implies order@.contains(#[trigger] kids@[x as int]@[i2]) by {
                        if i2 < i {
                            let y = kids@[x as int]@[i2];
                            assert(prev.contains(y));
                            let w = choose|w: int| 0 <= w < prev.len() && prev[w] == y;
                            assert(order@[w] == y);
                        } else {
                            assert(order@[q_new] == c);
                        }
                    }
                }
            } else {
                proof {
                    assert(order@.contains(c));
                }
            }
            i = i + 1;
        }
        head = head + 1;
    }
    order
}


/// `x` capped at the largest `u64`.
pub open spec fn sat(x: int) -> int {
    if x > u64::MAX { u64::MAX as int } else { x }
}

/// Sum of `ret` at the given node indices.
pub open spec fn sum_at(ret: Seq<u64>, cs: Seq<usize>) -> int
    decreases cs.len(),
{
    if cs.len() == 0 {
        0
    } else {
        sum_at(ret, cs.drop_last()) + ret[cs.last() as int]
    }
}

/// Retained size of node `y`: its shallow size plus the retained sizes of
/// its children, capped at the largest `u64`.
pub open spec fn ret_formula(ret: Seq<u64>, shallow: Seq<u64>, kids: Seq<Vec<usize>>, y: int) -> int {
    sat(shallow[y] + sum_at(ret, kids[y]@))
}

proof fn lemma_sum_at_update(ret: Seq<u64>, cs: Seq<usize>, x: usize, v: u64)
    requires
        !cs.contains(x),
        x < ret.len(),
        forall|i: int| 0 <= i < cs.len() ==> (cs[i] as int) < ret.len(),
    ensures
        sum_at(ret.update(x as int, v), cs) == sum_at(ret, cs),
    decreases cs.len(),
{
    if cs.len() > 0 {
        assert(cs.drop_last().len() < cs.len());
        assert forall|i: int| 0 <= i < cs.drop_last().len() implies (cs.drop_last()[i] as int) < ret.len() by {
            assert(cs.drop_last()[i] == cs[i]);
        }
        if cs.drop_last().contains(x) {
            let w = choose|w: int| 0 <= w < cs.drop_last().len() && cs.drop_last()[w] == x;
            assert(cs[w] == x);
        }
        assert(cs.last() == cs[cs.len() - 1]);
        lemma_sum_at_update(ret, cs.drop_last(), x, v);
    }
}

proof fn lemma_sum_at_nonneg(ret: Seq<u64>, cs: Seq<usize>)
    ensures
        sum_at(ret, cs) >= 0,
    decreases cs.len(),
{
    if cs.len() > 0 {
        lemma_sum_at_nonneg(ret, cs.drop_last());
    }
}

proof fn lemma_not_kid_of_later(
    order: Seq<usize>,
    kids: Seq<Vec<usize>>,
    parents: Seq<Option<usize>>,
    j: int,
    q: int,
)
    requires
        parents_wf(parents),
        kids_wf(kids, parents),
        order_wf(order, kids, parents),
        0 <= j < q < order.len(),
    ensures
        !kids[order[q] as int]@.contains(order[j]),
{
    if kids[order[q] as int]@.contains(order[j]) {
        let i = choose|i: int| 0 <= i < kids[order[q] as int]@.len() && kids[order[q] as int]@[i] == order[j];
        assert(kids[order[q] as int]@[i] < parents.len());
        assert(parents[order[j] as int] == Some(order[q]));
        if j == 0 {
            assert(parents[0] is None);
        } else {
            assert(parents[order[j] as int] matches Some(p) && exists|r: int| 0 <= r < j && order[r] == p);
            let r = choose|r: int| 0 <= r < j && order[r] == order[q];
            assert(order[r] == order[q]);
        }
    }
}

/// Retained size of every node of the order, children before parents.
fn retained_by_index(
    order: &Vec<usize>,
    kids: &Vec<Vec<usize>>,
    parents: &Vec<Option<usize>>,
    shallow: &Vec<u64>,
) -> (ret: Vec<u64>)
    requires
        parents_wf(parents@),
        kids_wf(kids@, parents@),
        order_wf(order@, kids@, parents@),
        shallow@.len() == parents@.len(),
    ensures
        ret@.len() == parents@.len(),
        forall|q: int| 0 <= q < order@.len() ==> (#[trigger] ret@[order@[q] as int]) == ret_formula(
            ret@,
            shallow@,
            kids@,
            order@[q] as int,
        ),
{
    let len = parents.len();
    let mut ret: Vec<u64> = Vec::new();
    let mut k: usize = 0;
    while k < len
        invariant
            k <= len == parents@.len(),
            ret@.len() == k,
        decreases len - k,
    {
        ret.push(0);
        k = k + 1;
    }
    let mut j: usize = order.len();
    while j > 0
        invariant
            len == parents@.len(),
            parents_wf(parents@),
            kids_wf(kids@, parents@),
            order_wf(order@, kids@, parents@),
            shallow@.len() == len,
            ret@.len() == len,
            j <= order@.len(),
            forall|q: int| j <= q < order@.len() ==> (#[trigger] ret@[order@[q] as int]) == ret_formula(
                ret@,
                shallow@,
                kids@,
                order@[q] as int,
            ),
        decreases j,
    {
        j = j - 1;
        let x = order[j];
        let mut acc: u64 = shallow[x];
        let mut i: usize = 0;
        while i < kids[x].len()
            invariant
                kids_wf(kids@, parents@),
                x < len == parents@.len(),
                ret@.len() == len,
                shallow@.len() == len,
                i <= kids@[x as int]@.len(),
                acc == sat(shallow@[x as int] + sum_at(ret@, kids@[x as int]@.take(i as int))),
            decreases kids@[x as int]@.len() - i,
        {
            let c = kids[x][i];
            let v = ret[c];
            proof {
                let cs = kids@[x as int]@;
                assert(cs.take(i + 1).drop_last() =~= cs.take(i as int));
                assert(cs.take(i + 1).last() == c);
                lemma_sum_at_nonneg(ret@, cs.take(i as int));
            }
            acc = if acc > u64::MAX - v { u64::MAX } else { acc + v };
            i = i + 1;
        }
        proof {
            assert(kids@[x as int]@.take(i as int) =~= kids@[x as int]@);
        }
        let ghost before = ret@;
        ret[x] = acc;
        proof {
            assert forall|i2: int| 0 <= i2 < kids@[x as int]@.len() implies (kids@[x as int]@[i2] as int) < before.len() by {}
            if kids@[x as int]@.contains(x) {
                let i2 = choose|i2: int| 0 <= i2 < kids@[x as int]@.len() && kids@[x as int]@[i2] == x;
                assert(parents@[x as int] == Some(x));
            }
            lemma_sum_at_update(before, kids@[x as int]@, x, acc);
            assert forall|q: int| j <= q < order@.len() implies (#[trigger] ret@[order@[q] as int]) == ret_formula(
                ret@,
                shallow@,
                kids@,
                order@[q] as int,
            ) by {
                if q > j {
                    lemma_not_kid_of_later(order@, kids@, parents@, j as int, q);
                    let y = order@[q] as int;
                    assert forall|i2: int| 0 <= i2 < kids@[y]@.len() implies (kids@[y]@[i2] as int) < before.len() by {}
                    lemma_sum_at_update(before, kids@[y]@, x, acc);
                    assert(order@[q] != x);
                }
            }
        }
    }
    ret
}


/// Object id of node `k`: node 0 is the virtual root, node `k` is `ids[k - 1]`.
pub open spec fn node_id(ids: Seq<u64>, k: int) -> u64 {
    if k == 0 { VIRTUAL_ROOT_ID } else { ids[k - 1] }
}

/// The node ids are distinct and none is the virtual root.
pub open spec fn ids_wf(ids: Seq<u64>) -> bool {
    &&& ids.no_duplicates()
    &&& !ids.contains(VIRTUAL_ROOT_ID)
}

/// Whether `x` names a node: the virtual root or one of the ids.
pub open spec fn is_node(ids: Seq<u64>, x: u64) -> bool {
    x == VIRTUAL_ROOT_ID || ids.contains(x)
}

proof fn lemma_node_id_injective(ids: Seq<u64>, a: int, b: int)
    requires
        ids_wf(ids),
        0 <= a <= ids.len(),
        0 <= b <= ids.len(),
        a != b,
    ensures
        node_id(ids, a) != node_id(ids, b),
{
    if a == 0 {
        assert(ids[b - 1] != VIRTUAL_ROOT_ID) by {
            if ids[b - 1] == VIRTUAL_ROOT_ID {
                assert(ids.contains(ids[b - 1]));
            }
        }
    } else if b == 0 {
        assert(ids[a - 1] != VIRTUAL_ROOT_ID) by {
            if ids[a - 1] == VIRTUAL_ROOT_ID {
                assert(ids.contains(ids[a - 1]));
            }
        }
    } else {
        assert(ids[a - 1] != ids[b - 1]);
    }
}

fn node_of(ids: &Vec<u64>, k: usize) -> (x: u64)
    requires
        k <= ids@.len(),
    ensures
        x == node_id(ids@, k as int),
{
    if k == 0 { VIRTUAL_ROOT_ID } else { ids[k - 1] }
}

/// The object ids of a list of node indices.
fn ids_of_nodes(ids: &Vec<u64>, nodes: &Vec<usize>) -> (r: Vec<u64>)
    requires
        forall|i: int| 0 <= i < nodes@.len() ==> nodes@[i] <= ids@.len(),
    ensures
        r@ == nodes@.map_values(|c: usize| node_id(ids@, c as int)),
{
    let mut r: Vec<u64> = Vec::new();
    let mut i: usize = 0;
    while i < nodes.len()
        invariant
            i <= nodes@.len(),
            forall|i2: int| 0 <= i2 < nodes@.len() ==> nodes@[i2] <= ids@.len(),
            r@ == nodes@.take(i as int).map_values(|c: usize| node_id(ids@, c as int)),
        decreases nodes.len() - i,
    {
        let x = node_of(ids, nodes[i]);
        r.push(x);
        i = i + 1;
        proof {
            assert(r@ =~= nodes@.take(i as int).map_values(|c: usize| node_id(ids@, c as int)));
        }
    }
    proof {
        assert(nodes@.take(i as int) =~= nodes@);
    }
    r
}


fn idom_map(ids: &Vec<u64>, parents: &Vec<Option<usize>>) -> (m: HashMap<u64, u64>)
    requires
        ids_wf(ids@),
        ids@.len() < usize::MAX,
        parents@.len() == ids@.len() + 1,
        parents_wf(parents@),
    ensures
        forall|k: int| 1 <= k <= ids@.len() ==> match #[trigger] parents@[k] {
            Some(p) => m@.contains_key(ids@[k - 1]) && m@[ids@[k - 1]] == node_id(ids@, p as int),
            None => !m@.contains_key(ids@[k - 1]),
        },
        forall|x: u64| #[trigger] m@.contains_key(x) ==> ids@.contains(x),
{
    let n = ids.len();
    let mut m: HashMap<u64, u64> = HashMap::new();
    let mut k: usize = 1;
    while k <= n
        invariant
            1 <= k <= n + 1,
            n == ids@.len(),
            n < usize::MAX,
            ids_wf(ids@),
            parents@.len() == n + 1,
            parents_wf(parents@),
            forall|k2: int| 1 <= k2 < k ==> match #[trigger] parents@[k2] {
                Some(p) => m@.contains_key(ids@[k2 - 1]) && m@[ids@[k2 - 1]] == node_id(ids@, p as int),
                None => !m@.contains_key(ids@[k2 - 1]),
            },
            forall|x: u64| #[trigger] m@.contains_key(x) ==> ids@.subrange(0, k - 1).contains(x),
        decreases n + 1 - k,
    {
        let ghost before = m@;
        let ghost pre = ids@.subrange(0, k - 1);
        match parents[k] {
            Some(p) => {
                let v = node_of(ids, p);
                m.insert(ids[k - 1], v);
            },
            None => {},
        }
        proof {
            assert forall|k2: int| 1 <= k2 < k implies #[trigger] ids@[k2 - 1] != ids@[k - 1] by {}
            assert forall|x: u64| #[trigger] m@.contains_key(x) implies ids@.subrange(0, k as int).contains(x) by {
                if x == ids@[k - 1] {
                    assert(ids@.subrange(0, k as int)[k - 1] == x);
                } else {
                    assert(before.contains_key(x));
                    let w = choose|w: int| 0 <= w < pre.len() && pre[w] == x;
                    assert(ids@.subrange(0, k as int)[w] == x);
                }
            }
            assert forall|k2: int| 1 <= k2 <= k implies match #[trigger] parents@[k2] {
                Some(p) => m@.contains_key(ids@[k2 - 1]) && m@[ids@[k2 - 1]] == node_id(ids@, p as int),
                None => !m@.contains_key(ids@[k2 - 1]),
            } by {
                if k2 < k {
                    assert(ids@[k2 - 1] != ids@[k - 1]);
                } else {
                    if parents@[k2] is None {
                        if before.contains_key(ids@[k - 1]) {
                            let w = choose|w: int| 0 <= w < pre.len() && pre[w] == ids@[k - 1];
                            assert(ids@[w] == ids@[k - 1]);
                        }
                    }
                }
            }
        }
        k = k + 1;
    }
    proof {
        assert(ids@.subrange(0, n as int) =~= ids@);
    }
    m
}

fn children_map(ids: &Vec<u64>, kids: &Vec<Vec<usize>>) -> (m: HashMap<u64, Vec<u64>>)
    requires
        ids_wf(ids@),
        ids@.len() < usize::MAX,
        kids@.len() == ids@.len() + 1,
        forall|p: int, i: int| 0 <= p < kids@.len() && 0 <= i < kids@[p]@.len() ==> (#[trigger] kids@[p]@[i]) <= ids@.len(),
    ensures
        forall|k: int| 0 <= k <= ids@.len() ==> {
            &&& (#[trigger] kids@[k])@.len() > 0 ==> m@.contains_key(node_id(ids@, k)) && m@[node_id(ids@, k)]@
                == kids@[k]@.map_values(|c: usize| node_id(ids@, c as int))
            &&& kids@[k]@.len() == 0 ==> !m@.contains_key(node_id(ids@, k))
        },
        forall|x: u64| #[trigger] m@.contains_key(x) ==> is_node(ids@, x),
{
    let n = ids.len();
    let mut m: HashMap<u64, Vec<u64>> = HashMap::new();
    let mut k: usize = 0;
    while k <= n
        invariant
            k <= n + 1,
            n == ids@.len(),
            n < usize::MAX,
            ids_wf(ids@),
            kids@.len() == n + 1,
            forall|p: int, i: int| 0 <= p < kids@.len() && 0 <= i < kids@[p]@.len() ==> (#[trigger] kids@[p]@[i]) <= ids@.len(),
            forall|k2: int| 0 <= k2 < k ==> {
                &&& (#[trigger] kids@[k2])@.len() > 0 ==> m@.contains_key(node_id(ids@, k2)) && m@[node_id(ids@, k2)]@
                    == kids@[k2]@.map_values(|c: usize| node_id(ids@, c as int))
                &&& kids@[k2]@.len() == 0 ==> !m@.contains_key(node_id(ids@, k2))
            },
            forall|k2: int| k <= k2 <= n ==> !m@.contains_key(#[trigger] node_id(ids@, k2)),
            forall|x: u64| #[trigger] m@.contains_key(x) ==> is_node(ids@, x),
        decreases n + 1 - k,
    {
        let ghost before = m@;
        if kids[k].len() > 0 {
            let list = ids_of_nodes(ids, &kids[k]);
            let key = node_of(ids, k);
            m.insert(key, list);
            proof {
                if k > 0 {
                    assert(ids@.contains(ids@[k - 1]));
                }
            }
        }
        proof {
            assert forall|k2: int| 0 <= k2 <= n && k2 != k implies node_id(ids@, k2) != node_id(ids@, k as int) by {
                lemma_node_id_injective(ids@, k2, k as int);
            }
        }
        k = k + 1;
    }
    m
}

fn retained_map(ids: &Vec<u64>, order: &Vec<usize>, ret: &Vec<u64>) -> (m: HashMap<u64, u64>)
    requires
        ids_wf(ids@),
        order@.no_duplicates(),
        ret@.len() == ids@.len() + 1,
        forall|q: int| 0 <= q < order@.len() ==> (#[trigger] order@[q]) <= ids@.len(),
    ensures
        forall|q: int| 0 <= q < order@.len() ==> m@.contains_key(node_id(ids@, #[trigger] order@[q] as int))
            && m@[node_id(ids@, order@[q] as int)] == ret@[order@[q] as int],
        forall|x: u64| #[trigger] m@.contains_key(x) ==> exists|q: int| 0 <= q < order@.len() && x == node_id(ids@, order@[q] as int),
{
    let mut m: HashMap<u64, u64> = HashMap::new();
    let mut q: usize = 0;
    while q < order.len()
        invariant
            q <= order@.len(),
            ids_wf(ids@),
            order@.no_duplicates(),
            ret@.len() == ids@.len() + 1,
            forall|q2: int| 0 <= q2 < order@.len() ==> (#[trigger] order@[q2]) <= ids@.len(),
            forall|q2: int| 0 <= q2 < q ==> m@.contains_key(node_id(ids@, #[trigger] order@[q2] as int))
                && m@[node_id(ids@, order@[q2] as int)] == ret@[order@[q2] as int],
            forall|x: u64| #[trigger] m@.contains_key(x) ==> exists|q2: int| 0 <= q2 < q && x == node_id(ids@, order@[q2] as int),
        decreases order@.len() - q,
    {
        let ghost before = m@;
        let y = order[q];
        let key = node_of(ids, y);
        m.insert(key, ret[y]);
        proof {
            assert forall|q2: int| 0 <= q2 < q implies node_id(ids@, order@[q2] as int) != key by {
                assert(order@[q2] != order@[q as int]);
                lemma_node_id_injective(ids@, order@[q2] as int, y as int);
            }
            assert forall|x: u64| #[trigger] m@.contains_key(x) implies exists|q2: int| 0 <= q2 < q + 1 && x == node_id(ids@, order@[q2] as int) by {
                if x != key {
                    assert(before.contains_key(x));
                } else {
                    assert(x == node_id(ids@, order@[q as int] as int));
                }
            }
        }
        q = q + 1;
    }
    m
}


/// The list recorded for `x`, or the empty list.
pub open spec fn child_seq(cv: Map<u64, Seq<u64>>, x: u64) -> Seq<u64> {
    if cv.contains_key(x) { cv[x] } else { Seq::empty() }
}

/// Shallow size of an object; zero for an id that is not an object.
pub open spec fn shallow_at(objects: Map<u64, HeapObject>, x: u64) -> int {
    if objects.contains_key(x) { objects[x].shallow_size as int } else { 0 }
}

/// Sum of the retained sizes recorded for the given ids.
pub open spec fn sum_retained(m: Map<u64, u64>, cs: Seq<u64>) -> int
    decreases cs.len(),
{
    if cs.len() == 0 {
        0
    } else {
        sum_retained(m, cs.drop_last()) + m[cs.last()]
    }
}

/// The dominator tree of an object graph under a virtual root, with the
/// retained size of every object it reaches.
pub struct DominatorTree {
    immediate_dominators: HashMap<u64, u64>,
    dominated_children: HashMap<u64, Vec<u64>>,
    retained_sizes: HashMap<u64, u64>,
}

impl DominatorTree {
    /// Immediate dominator of each object in the tree.
    pub closed spec fn idom_view(&self) -> Map<u64, u64> {
        self.immediate_dominators@
    }

    /// Objects immediately dominated by each object that dominates any.
    pub closed spec fn children_view(&self) -> Map<u64, Seq<u64>> {
        self.dominated_children@.map_values(|v: Vec<u64>| v@)
    }

    /// Retained size of each object of the tree, the virtual root included.
    pub closed spec fn retained_view(&self) -> Map<u64, u64> {
        self.retained_sizes@
    }

    /// Objects immediately dominated by `id` (none when it dominates none).
    pub open spec fn children_of(&self, id: u64) -> Seq<u64> {
        child_seq(self.children_view(), id)
    }
}

/// Parent and child maps describe the same tree, and every object with a
/// retained size other than the virtual root hangs below one that has one.
pub open spec fn tree_shape(t: DominatorTree) -> bool {
    &&& forall|p: u64, c: u64| #[trigger] t.children_of(p).contains(c) <==> (t.idom_view().contains_key(c)
        && t.idom_view()[c] == p)
    &&& forall|p: u64| (#[trigger] t.children_of(p)).no_duplicates()
    &&& forall|c: u64| #[trigger] t.idom_view().contains_key(c) ==> t.idom_view()[c] != c
    &&& !t.idom_view().contains_key(VIRTUAL_ROOT_ID)
    &&& forall|x: u64| #[trigger] t.retained_view().contains_key(x) && x != VIRTUAL_ROOT_ID
        ==> t.idom_view().contains_key(x) && t.retained_view().contains_key(t.idom_view()[x])
}

/// The retained size of an object is its shallow size plus the retained
/// sizes of the objects it immediately dominates (capped at `u64::MAX`),
/// and those all have retained sizes.
pub open spec fn retained_law(t: DominatorTree, objects: Map<u64, HeapObject>) -> bool {
    forall|x: u64| #[trigger] t.retained_view().contains_key(x) ==> {
        &&& forall|i: int| 0 <= i < t.children_of(x).len() ==> t.retained_view().contains_key(
            #[trigger] t.children_of(x)[i],
        )
        &&& t.retained_view()[x] as int == sat(
            shallow_at(objects, x) + sum_retained(t.retained_view(), t.children_of(x)),
        )
    }
}

proof fn lemma_sum_retained_of_nodes(m: Map<u64, u64>, ret: Seq<u64>, ids: Seq<u64>, cs: Seq<usize>)
    requires
        forall|i: int| 0 <= i < cs.len() ==> m[node_id(ids, #[trigger] cs[i] as int)] == ret[cs[i] as int],
    ensures
        sum_retained(m, cs.map_values(|c: usize| node_id(ids, c as int))) == sum_at(ret, cs),
    decreases cs.len(),
{
    if cs.len() > 0 {
        let f = |c: usize| node_id(ids, c as int);
        assert(cs.map_values(f).drop_last() =~= cs.drop_last().map_values(f));
        assert forall|i: int| 0 <= i < cs.drop_last().len() implies m[node_id(ids, #[trigger] cs.drop_last()[i] as int)]
            == ret[cs.drop_last()[i] as int] by {
            assert(cs.drop_last()[i] == cs[i]);
        }
        lemma_sum_retained_of_nodes(m, ret, ids, cs.drop_last());
        assert(cs.map_values(f).last() == f(cs.last()));
        assert(m[node_id(ids, cs[cs.len() - 1] as int)] == ret[cs[cs.len() - 1] as int]);
    }
}

fn shallow_table(objects: &HashMap<u64, HeapObject>, ids: &Vec<u64>) -> (shallow: Vec<u64>)
    requires
        forall|i: int| 0 <= i < ids@.len() ==> objects@.contains_key(#[trigger] ids@[i]),
        ids@.len() < usize::MAX,
    ensures
        shallow@.len() == ids@.len() + 1,
        shallow@[0] == 0,
        forall|k: int| 1 <= k <= ids@.len() ==> #[trigger] shallow@[k] == objects@[ids@[k - 1]].shallow_size,
{
    let mut shallow: Vec<u64> = Vec::new();
    shallow.push(0);
    let mut i: usize = 0;
    while i < ids.len()
        invariant
            i <= ids@.len(),
            forall|i2: int| 0 <= i2 < ids@.len() ==> objects@.contains_key(#[trigger] ids@[i2]),
            shallow@.len() == i + 1,
            shallow@[0] == 0,
            forall|k: int| 1 <= k <= i ==> #[trigger] shallow@[k] == objects@[ids@[k - 1]].shallow_size,
        decreases ids.len() - i,
    {
        let o = objects.get(&ids[i]).unwrap();
        shallow.push(o.shallow_size as u64);
        i = i + 1;
    }
    shallow
}



/// What the index-level construction establishes about the three maps.
pub open spec fn built_from(
    ids: Seq<u64>,
    parents: Seq<Option<usize>>,
    kids: Seq<Vec<usize>>,
    order: Seq<usize>,
    ret: Seq<u64>,
    im: Map<u64, u64>,
    cv: Map<u64, Seq<u64>>,
    rm: Map<u64, u64>,
) -> bool {
    &&& ids_wf(ids)
    &&& ids.len() < usize::MAX
    &&& parents.len() == ids.len() + 1
    &&& parents_wf(parents)
    &&& kids_wf(kids, parents)
    &&& order_wf(order, kids, parents)
    &&& ret.len() == parents.len()
    &&& forall|k: int| 1 <= k <= ids.len() ==> match #[trigger] parents[k] {
        Some(p) => im.contains_key(ids[k - 1]) && im[ids[k - 1]] == node_id(ids, p as int),
        None => !im.contains_key(ids[k - 1]),
    }
    &&& forall|x: u64| #[trigger] im.contains_key(x) ==> ids.contains(x)
    &&& forall|k: int| 0 <= k <= ids.len() ==> {
        &&& (#[trigger] kids[k])@.len() > 0 ==> cv.contains_key(node_id(ids, k)) && cv[node_id(ids, k)]
            == kids[k]@.map_values(|c: usize| node_id(ids, c as int))
        &&& kids[k]@.len() == 0 ==> !cv.contains_key(node_id(ids, k))
    }
    &&& forall|x: u64| #[trigger] cv.contains_key(x) ==> is_node(ids, x)
    &&& forall|q: int| 0 <= q < order.len() ==> rm.contains_key(node_id(ids, #[trigger] order[q] as int))
        && rm[node_id(ids, order[q] as int)] == ret[order[q] as int]
    &&& forall|x: u64| #[trigger] rm.contains_key(x) ==> exists|q: int| 0 <= q < order.len() && x == node_id(ids, order[q] as int)
}

proof fn lemma_node_index(ids: Seq<u64>, x: u64) -> (k: int)
    requires
        is_node(ids, x),
    ensures
        0 <= k <= ids.len(),
        node_id(ids, k) == x,
{
    if x == VIRTUAL_ROOT_ID {
        0
    } else {
        let w = choose|w: int| 0 <= w < ids.len() && ids[w] == x;
        w + 1
    }
}

proof fn lemma_child_seq_of_node(
    ids: Seq<u64>,
    parents: Seq<Option<usize>>,
    kids: Seq<Vec<usize>>,
    order: Seq<usize>,
    ret: Seq<u64>,
    im: Map<u64, u64>,
    cv: Map<u64, Seq<u64>>,
    rm: Map<u64, u64>,
    k: int,
)
    requires
        built_from(ids, parents, kids, order, ret, im, cv, rm),
        0 <= k <= ids.len(),
    ensures
        child_seq(cv, node_id(ids, k)) == kids[k]@.map_values(|c: usize| node_id(ids, c as int)),
{
    if kids[k]@.len() == 0 {
        assert(kids[k]@.map_values(|c: usize| node_id(ids, c as int)) =~= Seq::<u64>::empty());
    }
}

proof fn lemma_built_shape(
    ids: Seq<u64>,
    parents: Seq<Option<usize>>,
    kids: Seq<Vec<usize>>,
    order: Seq<usize>,
    ret: Seq<u64>,
    im: Map<u64, u64>,
    cv: Map<u64, Seq<u64>>,
    rm: Map<u64, u64>,
)
    requires
        built_from(ids, parents, kids, order, ret, im, cv, rm),
    ensures
        forall|p: u64, c: u64| #[trigger] child_seq(cv, p).contains(c) <==> (im.contains_key(c) && im[c] == p),
        forall|p: u64| (#[trigger] child_seq(cv, p)).no_duplicates(),
        forall|c: u64| #[trigger] im.contains_key(c) ==> im[c] != c,
        !im.contains_key(VIRTUAL_ROOT_ID),
{
    let n = ids.len() as int;
    let nid = |c: usize| node_id(ids, c as int);
    assert forall|p: u64, c: u64| #[trigger] child_seq(cv, p).contains(c) <==> (im.contains_key(c) && im[c] == p) by {
        if child_seq(cv, p).contains(c) {
            assert(cv.contains_key(p));
            let kp = lemma_node_index(ids, p);
            lemma_child_seq_of_node(ids, parents, kids, order, ret, im, cv, rm, kp);
            let i = choose|i: int| 0 <= i < child_seq(cv, p).len() && child_seq(cv, p)[i] == c;
            let kc = kids[kp]@[i];
            assert(parents[kc as int] == Some(kp as usize));
            assert(kc != 0);
            assert(c == ids[kc - 1]);
        }
        if im.contains_key(c) && im[c] == p {
            let w = choose|w: int| 0 <= w < ids.len() && ids[w] == c;
            let kc = w + 1;
            assert(kc < usize::MAX);
            let kcu = kc as usize;
            assert(kcu as int == kc);
            assert(parents[kc] matches Some(_));
            let kp = parents[kc]->0;
            assert(p == node_id(ids, kp as int));
            assert(kids[kp as int]@.contains(kcu));
            let i = choose|i: int| 0 <= i < kids[kp as int]@.len() && kids[kp as int]@[i] == kcu;
            lemma_child_seq_of_node(ids, parents, kids, order, ret, im, cv, rm, kp as int);
            assert(child_seq(cv, p)[i] == node_id(ids, kcu as int));
            assert(child_seq(cv, p).contains(c));
        }
    }
    assert forall|p: u64| (#[trigger] child_seq(cv, p)).no_duplicates() by {
        if cv.contains_key(p) {
            let kp = lemma_node_index(ids, p);
            lemma_child_seq_of_node(ids, parents, kids, order, ret, im, cv, rm, kp);
            let cs = kids[kp]@;
            assert forall|a: int, b: int| 0 <= a < cs.len() && 0 <= b < cs.len() && a != b implies
                child_seq(cv, p)[a] != child_seq(cv, p)[b] by {
                assert(cs[a] != cs[b]);
                lemma_node_id_injective(ids, cs[a] as int, cs[b] as int);
            }
        }
    }
    assert forall|c: u64| #[trigger] im.contains_key(c) implies im[c] != c by {
        let w = choose|w: int| 0 <= w < ids.len() && ids[w] == c;
        assert(parents[w + 1] matches Some(_));
        let kp = parents[w + 1]->0;
        lemma_node_id_injective(ids, kp as int, w + 1);
    }
}

proof fn lemma_built_retained(
    objects: Map<u64, HeapObject>,
    ids: Seq<u64>,
    parents: Seq<Option<usize>>,
    kids: Seq<Vec<usize>>,
    order: Seq<usize>,
    shallow: Seq<u64>,
    ret: Seq<u64>,
    im: Map<u64, u64>,
    cv: Map<u64, Seq<u64>>,
    rm: Map<u64, u64>,
)
    requires
        built_from(ids, parents, kids, order, ret, im, cv, rm),
        shallow.len() == ids.len() + 1,
        shallow[0] == 0,
        forall|k: int| 1 <= k <= ids.len() ==> #[trigger] shallow[k] == objects[ids[k - 1]].shallow_size,
        forall|i: int| 0 <= i < ids.len() ==> objects.contains_key(#[trigger] ids[i]),
        !objects.contains_key(VIRTUAL_ROOT_ID),
        forall|q: int| 0 <= q < order.len() ==> (#[trigger] ret[order[q] as int]) == ret_formula(
            ret,
            shallow,
            kids,
            order[q] as int,
        ),
    ensures
        forall|x: u64| #[trigger] rm.contains_key(x) ==> {
            &&& forall|i: int| 0 <= i < child_seq(cv, x).len() ==> rm.contains_key(#[trigger] child_seq(cv, x)[i])
            &&& rm[x] as int == sat(shallow_at(objects, x) + sum_retained(rm, child_seq(cv, x)))
        },
        forall|x: u64| #[trigger] rm.contains_key(x) && x != VIRTUAL_ROOT_ID ==> im.contains_key(x)
            && rm.contains_key(im[x]),
        rm.contains_key(VIRTUAL_ROOT_ID),
        forall|x: u64| #[trigger] rm.contains_key(x) ==> is_node(ids, x),
{
    assert forall|x: u64| #[trigger] rm.contains_key(x) implies {
        &&& forall|i: int| 0 <= i < child_seq(cv, x).len() ==> rm.contains_key(#[trigger] child_seq(cv, x)[i])
        &&& rm[x] as int == sat(shallow_at(objects, x) + sum_retained(rm, child_seq(cv, x)))
    } by {
        let q = choose|q: int| 0 <= q < order.len() && x == node_id(ids, order[q] as int);
        let y = order[q] as int;
        lemma_child_seq_of_node(ids, parents, kids, order, ret, im, cv, rm, y);
        assert forall|i: int| 0 <= i < kids[y]@.len() implies rm[node_id(ids, #[trigger] kids[y]@[i] as int)]
            == ret[kids[y]@[i] as int] && rm.contains_key(node_id(ids, kids[y]@[i] as int)) by {
            let c = kids[y]@[i];
            assert(order.contains(c));
            let qc = choose|qc: int| 0 <= qc < order.len() && order[qc] == c;
            assert(rm.contains_key(node_id(ids, order[qc] as int)));
        }
        assert forall|i: int| 0 <= i < child_seq(cv, x).len() implies rm.contains_key(#[trigger] child_seq(cv, x)[i]) by {
            assert(child_seq(cv, x)[i] == node_id(ids, kids[y]@[i] as int));
        }
        lemma_sum_retained_of_nodes(rm, ret, ids, kids[y]@);
        assert(ret[order[q] as int] == ret_formula(ret, shallow, kids, order[q] as int));
        if y == 0 {
            assert(shallow_at(objects, x) == 0);
        } else {
            assert(ids.contains(ids[y - 1]));
            assert(shallow_at(objects, x) == shallow[y]);
        }
    }
    assert forall|x: u64| #[trigger] rm.contains_key(x) && x != VIRTUAL_ROOT_ID implies im.contains_key(x)
        && rm.contains_key(im[x]) by {
        let q = choose|q: int| 0 <= q < order.len() && x == node_id(ids, order[q] as int);
        let y = order[q];
        assert(y != 0);
        assert(q != 0);
        assert(parents[y as int] matches Some(p) && exists|r: int| 0 <= r < q && order[r] == p);
        let p = parents[y as int]->0;
        let r = choose|r: int| 0 <= r < q && order[r] == p;
        assert(im[x] == node_id(ids, p as int));
        assert(rm.contains_key(node_id(ids, order[r] as int)));
    }
    assert(rm.contains_key(node_id(ids, order[0] as int)));
    assert forall|x: u64| #[trigger] rm.contains_key(x) implies is_node(ids, x) by {
        let q = choose|q: int| 0 <= q < order.len() && x == node_id(ids, order[q] as int);
        let y = order[q] as int;
        if y != 0 {
            assert(ids.contains(ids[y - 1]));
        }
    }
}

/// Assembles the dominator tree from the immediate dominator of every node:
/// node 0 is the virtual root and node `k` is the object `ids[k - 1]`.
pub fn tree_from_idoms(
    objects: &HashMap<u64, HeapObject>,
    ids: &Vec<u64>,
    idoms: &Vec<Option<u32>>,
) -> (t: DominatorTree)
    requires
        ids_wf(ids@),
        ids@.len() < usize::MAX,
        forall|i: int| 0 <= i < ids@.len() ==> objects@.contains_key(#[trigger] ids@[i]),
        !objects@.contains_key(VIRTUAL_ROOT_ID),
        idoms_form_tree(idoms@),
        idoms@.len() <= ids@.len() + 1,
    ensures
        forall|x: u64| #[trigger] t.idom_view().contains_key(x) ==> t.retained_view().contains_key(x),
        forall|k: int| 1 <= k <= ids@.len() ==> match #[trigger] parent_index(ids@.len() as int, idoms@, k) {
            Some(p) => t.idom_view().contains_key(ids@[k - 1]) && t.idom_view()[ids@[k - 1]] == node_id(ids@, p),
            None => !t.idom_view().contains_key(ids@[k - 1]),
        },
        forall|x: u64| #[trigger] t.idom_view().contains_key(x) ==> ids@.contains(x),
        tree_shape(t),
        retained_law(t, objects@),
        t.retained_view().contains_key(VIRTUAL_ROOT_ID),
        forall|x: u64| #[trigger] t.retained_view().contains_key(x) ==> is_node(ids@, x),
{
    let n = ids.len();
    let parents = parent_table(n, idoms);
    let kids = child_lists(&parents);
    let order = tree_order(&kids, &parents);
    let shallow = shallow_table(objects, ids);
    let ret = retained_by_index(&order, &kids, &parents, &shallow);
    let immediate_dominators = idom_map(ids, &parents);
    let dominated_children = children_map(ids, &kids);
    let retained_sizes = retained_map(ids, &order, &ret);
    let t = DominatorTree { immediate_dominators, dominated_children, retained_sizes };
    proof {
        let im = t.idom_view();
        let cv = t.children_view();
        let rm = t.retained_view();
        assert forall|k: int| 0 <= k <= ids@.len() implies {
            &&& (#[trigger] kids@[k])@.len() > 0 ==> cv.contains_key(node_id(ids@, k)) && cv[node_id(ids@, k)]
                == kids@[k]@.map_values(|c: usize| node_id(ids@, c as int))
            &&& kids@[k]@.len() == 0 ==> !cv.contains_key(node_id(ids@, k))
        } by {}
        assert(built_from(ids@, parents@, kids@, order@, ret@, im, cv, rm));
        lemma_built_shape(ids@, parents@, kids@, order@, ret@, im, cv, rm);
        lemma_built_retained(objects@, ids@, parents@, kids@, order@, shallow@, ret@, im, cv, rm);
        assert forall|k: int| 1 <= k <= ids@.len() implies match #[trigger] parent_index(n as int, idoms@, k) {
            Some(p) => im.contains_key(ids@[k - 1]) && im[ids@[k - 1]] == node_id(ids@, p),
            None => !im.contains_key(ids@[k - 1]),
        } by {
            assert(match parents@[k] {
                Some(p) => parent_index(n as int, idoms@, k) == Some(p as int),
                None => parent_index(n as int, idoms@, k) is None,
            });
        }
        let rank = choose|rank: Seq<nat>| #[trigger] rank_falls(idoms@, rank);
        assert forall|x: u64| #[trigger] im.contains_key(x) implies rm.contains_key(x) by {
            let w = choose|w: int| 0 <= w < ids@.len() && ids@[w] == x;
            let k = w + 1;
            if parents@[k] is None {
                assert(parent_index(n as int, idoms@, k) is None);
                assert(!im.contains_key(ids@[k - 1]));
            }
            lemma_parented_in_order(n as int, idoms@, rank, parents@, kids@, order@, k);
            let q = choose|q: int| 0 <= q < order@.len() && order@[q] == k as usize;
            assert(rm.contains_key(node_id(ids@, order@[q] as int)));
        }
    }
    t
}

/// A node with a parent is visited by the tree order, when the computed
/// immediate dominators form a tree.
proof fn lemma_parented_in_order(
    n: int,
    idoms: Seq<Option<u32>>,
    rank: Seq<nat>,
    parents: Seq<Option<usize>>,
    kids: Seq<Vec<usize>>,
    order: Seq<usize>,
    k: int,
)
    requires
        parents.len() == n + 1,
        kids_wf(kids, parents),
        order_wf(order, kids, parents),
        forall|k2: int| 0 <= k2 <= n ==> match #[trigger] parents[k2] {
            Some(p) => parent_index(n, idoms, k2) == Some(p as int),
            None => parent_index(n, idoms, k2) is None,
        },
        idoms.len() <= n + 1,
        forall|k2: int| 0 <= k2 < idoms.len() ==> (#[trigger] idoms[k2] matches Some(d) ==> d == 0
            || (d < idoms.len() && idoms[d as int] is Some)),
        rank.len() == idoms.len(),
        forall|k2: int| 0 <= k2 < idoms.len() ==> (#[trigger] idoms[k2] matches Some(d) ==> d < idoms.len()
            && rank[d as int] < rank[k2]),
        0 <= k <= n,
        parents[k] is Some,
    ensures
        order.contains(k as usize),
    decreases rank[k],
{
    let p = parents[k]->0 as int;
    assert(parent_index(n, idoms, k) == Some(p));
    assert(idoms[k] == Some(p as u32));
    assert(kids[p]@.contains(k as usize));
    let i = choose|i: int| 0 <= i < kids[p]@.len() && kids[p]@[i] == k as usize;
    if p == 0 {
        assert(order[0] == 0);
        assert(order.contains(kids[order[0] as int]@[i]));
    } else {
        let d2 = idoms[p]->0;
        assert(idoms[p] is Some);
        assert(rank[d2 as int] < rank[p]);
        assert(parent_index(n, idoms, p) == Some(d2 as int));
        if parents[p] is None {
            assert(false);
        }
        lemma_parented_in_order(n, idoms, rank, parents, kids, order, p);
        let j = choose|j: int| 0 <= j < order.len() && order[j] == p as usize;
        assert(order.contains(kids[order[j] as int]@[i]));
    }
}


/// The sort key of an entry: larger sizes first, then smaller ids.
pub open spec fn entry_key(e: (u64, u64)) -> (u64, u64) {
    ((u64::MAX - e.1) as u64, e.0)
}

/// The entry of a sort key.
pub open spec fn key_entry(p: (u64, u64)) -> (u64, u64) {
    (p.1, (u64::MAX - p.0) as u64)
}

/// `a` is listed before `b`: larger retained size first, then smaller id.
pub open spec fn ranks_before(a: (u64, u64), b: (u64, u64)) -> bool {
    a.1 > b.1 || (a.1 == b.1 && a.0 < b.0)
}

/// Entries listed in strictly increasing rank order.
pub open spec fn rank_sorted(s: Seq<(u64, u64)>) -> bool {
    forall|i: int, j: int| 0 <= i < j < s.len() ==> ranks_before(#[trigger] s[i], #[trigger] s[j])
}

/// The `(id, retained size)` entries of every object of the tree.
pub open spec fn retained_entries(m: Map<u64, u64>) -> Set<(u64, u64)> {
    Set::new(|e: (u64, u64)| m.contains_key(e.0) && e.0 != VIRTUAL_ROOT_ID && m[e.0] == e.1)
}

/// `top` lists `n` of the entries `es` (all of them when there are fewer),
/// in rank order, and every entry left out ranks below each listed one.
pub open spec fn is_top_listing(top: Seq<(u64, u64)>, es: Set<(u64, u64)>, n: nat) -> bool {
    &&& rank_sorted(top)
    &&& forall|i: int| 0 <= i < top.len() ==> es.contains(#[trigger] top[i])
    &&& top.len() == (if n < es.len() { n as int } else { es.len() as int })
    &&& forall|e: (u64, u64)| #[trigger] es.contains(e) && !top.contains(e)
        ==> forall|i: int| 0 <= i < top.len() ==> ranks_before(#[trigger] top[i], e)
}

/// There is one top listing of `n` entries: two listings of the same
/// entries are equal.
pub proof fn lemma_top_listing_unique(a: Seq<(u64, u64)>, b: Seq<(u64, u64)>, es: Set<(u64, u64)>, n: nat)
    requires
        is_top_listing(a, es, n),
        is_top_listing(b, es, n),
    ensures
        a == b,
{
    assert forall|k: int| 0 <= k < a.len() implies a[k] == b[k] by {
        lemma_top_listing_prefix(a, b, es, n, k);
    }
    assert(a =~= b);
}

proof fn lemma_top_listing_prefix(a: Seq<(u64, u64)>, b: Seq<(u64, u64)>, es: Set<(u64, u64)>, n: nat, k: int)
    requires
        is_top_listing(a, es, n),
        is_top_listing(b, es, n),
        0 <= k < a.len(),
    ensures
        a[k] == b[k],
    decreases k,
{
    if k > 0 {
        lemma_top_listing_prefix(a, b, es, n, k - 1);
    }
    assert forall|j: int| 0 <= j < k implies a[j] == b[j] by {
        if j < k {
            lemma_top_listing_prefix(a, b, es, n, j);
        }
    }
    if a[k] != b[k] {
        assert(ranks_before(a[k], b[k])) by {
            if a.contains(b[k]) {
                let j = choose|j: int| 0 <= j < a.len() && a[j] == b[k];
                if j < k {
                    assert(b[j] == b[k]);
                    assert(ranks_before(b[j], b[k]));
                } else {
                    assert(j != k);
                    assert(ranks_before(a[k], a[j]));
                }
            } else {
                assert(es.contains(b[k]));
            }
        }
        assert(ranks_before(b[k], a[k])) by {
            if b.contains(a[k]) {
                let j = choose|j: int| 0 <= j < b.len() && b[j] == a[k];
                if j < k {
                    assert(a[j] == a[k]);
                    assert(ranks_before(a[j], a[k]));
                } else {
                    assert(j != k);
                    assert(ranks_before(b[k], b[j]));
                }
            } else {
                assert(es.contains(a[k]));
            }
        }
    }
}

/// In a tree whose shape holds and whose dominated objects all have a
/// retained size (as `build_dominator_tree` makes them), the entries
/// `top_retained` ranks are exactly the objects with an immediate
/// dominator, each with its retained size; the virtual root is never one.
pub proof fn lemma_ranked_entries_are_dominated(t: DominatorTree)
    requires
        tree_shape(t),
        forall|x: u64| #[trigger] t.idom_view().contains_key(x) ==> t.retained_view().contains_key(x),
    ensures
        forall|e: (u64, u64)| #[trigger] retained_entries(t.retained_view()).contains(e) <==> (t.idom_view().contains_key(e.0)
            && e.1 == t.retained_view()[e.0]),
        forall|e: (u64, u64)| #[trigger] retained_entries(t.retained_view()).contains(e) ==> e.0 != VIRTUAL_ROOT_ID,
{
}

impl DominatorTree {
    /// The immediate dominator of an object; `None` when the object is not
    /// in the tree or is the virtual root.
    pub fn immediate_dominator(&self, id: u64) -> (res: Option<u64>)
        ensures
            res == (if self.idom_view().contains_key(id) { Some(self.idom_view()[id]) } else { None::<u64> }),
    {
        match self.immediate_dominators.get(&id) {
            Some(d) => Some(*d),
            None => None,
        }
    }

    /// The objects immediately dominated by an object.
    pub fn dominated_by(&self, id: u64) -> (res: Vec<u64>)
        ensures
            res@ == self.children_of(id),
    {
        match self.dominated_children.get(&id) {
            Some(v) => v.clone(),
            None => Vec::new(),
        }
    }

    /// Retained size of an object: the shallow sizes of its dominated
    /// subtree, itself included; zero for an object outside the tree.
    pub fn retained_size(&self, id: u64) -> (size: u64)
        ensures
            size == (if self.retained_view().contains_key(id) { self.retained_view()[id] } else { 0 }),
    {
        match self.retained_sizes.get(&id) {
            Some(v) => *v,
            None => 0,
        }
    }

    /// Number of objects in the tree, the virtual root excluded.
    pub fn node_count(&self) -> (n: usize)
        ensures
            n == self.idom_view().len(),
    {
        self.immediate_dominators.len()
    }

    /// The `n` objects with the largest retained sizes, largest first, ties
    /// by increasing id.
    pub fn top_retained(&self, n: usize) -> (top: Vec<(u64, u64)>)
        ensures
            rank_sorted(top@),
            forall|i: int| 0 <= i < top@.len() ==> retained_entries(self.retained_view()).contains(#[trigger] top@[i]),
            top@.len() == (if n < retained_entries(self.retained_view()).len() { n as int } else {
                retained_entries(self.retained_view()).len() as int
            }),
            forall|e: (u64, u64)| #[trigger] retained_entries(self.retained_view()).contains(e) && !top@.contains(e)
                ==> forall|i: int| 0 <= i < top@.len() ==> ranks_before(#[trigger] top@[i], e),
            is_top_listing(top@, retained_entries(self.retained_view()), n as nat),
    {
        let keys = crate::util::map_keys(&self.retained_sizes);
        let ghost m = self.retained_view();
        let ghost entries = retained_entries(m);
        let mut pairs: Vec<(u64, u64)> = Vec::new();
        let mut i: usize = 0;
        while i < keys.len()
            invariant
                i <= keys@.len(),
                m == self.retained_view(),
                entries == retained_entries(m),
                keys@.to_set() == m.dom(),
                keys@.no_duplicates(),
                forall|k: int| 0 <= k < keys@.len() ==> m.contains_key(#[trigger] keys@[k]),
                forall|j: int| 0 <= j < pairs@.len() ==> entries.contains(key_entry(#[trigger] pairs@[j]))
                    && keys@.take(i as int).contains(pairs@[j].1),
                pairs@.no_duplicates(),
                forall|e: (u64, u64)| #[trigger] entries.contains(e) && keys@.take(i as int).contains(e.0)
                    ==> pairs@.contains(entry_key(e)),
            decreases keys@.len() - i,
        {
            let id = keys[i];
            let ghost pre = keys@.take(i as int);
            let ghost nxt = keys@.take(i + 1);
            proof {
                assert(nxt =~= pre.push(id));
                assert(!pre.contains(id)) by {
                    if pre.contains(id) {
                        let w = choose|w: int| 0 <= w < pre.len() && pre[w] == id;
                        assert(keys@[w] == keys@[i as int]);
                    }
                }
                assert forall|x: u64| pre.contains(x) implies nxt.contains(x) by {
                    let w = choose|w: int| 0 <= w < pre.len() && pre[w] == x;
                    assert(nxt[w] == x);
                }
                assert(nxt[i as int] == id);
            }
            if id != VIRTUAL_ROOT_ID {
                let size = *self.retained_sizes.get(&id).unwrap();
                let ghost before = pairs@;
                pairs.push((u64::MAX - size, id));
                proof {
                    assert(key_entry(((u64::MAX - size) as u64, id)) == (id, size));
                    assert(pairs@.no_duplicates()) by {
                        assert forall|a: int, b: int| 0 <= a < pairs@.len() && 0 <= b < pairs@.len() && a != b
                            implies pairs@[a] != pairs@[b] by {
                            if a < before.len() && b < before.len() {
                                assert(before[a] != before[b]);
                            } else if a < before.len() {
                                assert(pre.contains(before[a].1));
                            } else {
                                assert(pre.contains(before[b].1));
                            }
                        }
                    }
                    assert forall|e: (u64, u64)| #[trigger] entries.contains(e) && nxt.contains(e.0)
                        implies pairs@.contains(entry_key(e)) by {
                        if e.0 == id {
                            assert(e.1 == size);
                            assert(pairs@[pairs@.len() - 1] == entry_key(e));
                        } else {
                            let w = choose|w: int| 0 <= w < nxt.len() && nxt[w] == e.0;
                            assert(pre[w] == e.0);
                            assert(before.contains(entry_key(e)));
                            let j = choose|j: int| 0 <= j < before.len() && before[j] == entry_key(e);
                            assert(pairs@[j] == entry_key(e));
                        }
                    }
                }
            } else {
                proof {
                    assert forall|e: (u64, u64)| #[trigger] entries.contains(e) && nxt.contains(e.0)
                        implies pairs@.contains(entry_key(e)) by {
                        let w = choose|w: int| 0 <= w < nxt.len() && nxt[w] == e.0;
                        assert(pre[w] == e.0);
                    }
                }
            }
            i = i + 1;
        }
        proof {
            assert(keys@.take(i as int) =~= keys@);
            assert forall|e: (u64, u64)| entries.contains(e) implies keys@.contains(e.0) by {
                assert(keys@.to_set().contains(e.0));
            }
        }
        let ghost unsorted = pairs@;
        crate::util::sort_pairs(&mut pairs);
        let ghost sorted = pairs@;
        proof {
            broadcast use vstd::seq_lib::group_to_multiset_ensures;
            assert forall|x: (u64, u64)| sorted.contains(x) <==> unsorted.contains(x) by {
                assert(sorted.contains(x) <==> sorted.to_multiset().count(x) > 0);
                assert(unsorted.contains(x) <==> unsorted.to_multiset().count(x) > 0);
            }
            unsorted.lemma_multiset_has_no_duplicates();
            assert(sorted.to_multiset() == unsorted.to_multiset());
            sorted.lemma_multiset_has_no_duplicates_conv();
            assert forall|a: int, b: int| 0 <= a < b < sorted.len() implies ranks_before(
                key_entry(#[trigger] sorted[a]),
                key_entry(#[trigger] sorted[b]),
            ) by {
                assert(crate::util::pair_le(sorted[a], sorted[b]));
                assert(sorted[a] != sorted[b]);
            }
            let f = |p: (u64, u64)| key_entry(p);
            assert(vstd::relations::injective_on(f, sorted.to_set())) by {
                assert forall|x: (u64, u64), y: (u64, u64)| sorted.to_set().contains(x) && sorted.to_set().contains(y)
                    && #[trigger] f(x) == #[trigger] f(y) implies x == y by {
                    assert(x.0 == (u64::MAX - f(x).1) as u64);
                    assert(y.0 == (u64::MAX - f(y).1) as u64);
                }
            }
            assert forall|e: (u64, u64)| sorted.to_set().map(f).contains(e) <==> entries.contains(e) by {
                if entries.contains(e) {
                    assert(unsorted.contains(entry_key(e)));
                    assert(sorted.to_set().contains(entry_key(e)));
                    assert(f(entry_key(e)) == e);
                }
                if sorted.to_set().map(f).contains(e) {
                    let p = choose|p: (u64, u64)| sorted.to_set().contains(p) && f(p) == e;
                    assert(unsorted.contains(p));
                    let j = choose|j: int| 0 <= j < unsorted.len() && unsorted[j] == p;
                }
            }
            assert(sorted.to_set().map(f) =~= entries);
            vstd::set_lib::lemma_map_size(sorted.to_set(), entries, f);
            sorted.unique_seq_to_set();
        }
        let count = if n < pairs.len() { n } else { pairs.len() };
        let mut top: Vec<(u64, u64)> = Vec::new();
        let mut j: usize = 0;
        while j < count
            invariant
                j <= count <= pairs@.len(),
                pairs@ == sorted,
                top@.len() == j,
                forall|t: int| 0 <= t < j ==> #[trigger] top@[t] == key_entry(sorted[t]),
            decreases count - j,
        {
            let p = pairs[j];
            top.push((p.1, u64::MAX - p.0));
            j = j + 1;
        }
        proof {
            assert forall|a: int, b: int| 0 <= a < b < top@.len() implies ranks_before(#[trigger] top@[a], #[trigger] top@[b]) by {
                assert(ranks_before(key_entry(sorted[a]), key_entry(sorted[b])));
            }
            assert forall|t: int| 0 <= t < top@.len() implies entries.contains(#[trigger] top@[t]) by {
                assert(sorted.contains(sorted[t]));
                assert(unsorted.contains(sorted[t]));
                let w = choose|w: int| 0 <= w < unsorted.len() && unsorted[w] == sorted[t];
            }
            assert forall|e: (u64, u64)| #[trigger] entries.contains(e) && !top@.contains(e)
                implies forall|t: int| 0 <= t < top@.len() ==> ranks_before(#[trigger] top@[t], e) by {
                assert(unsorted.contains(entry_key(e)));
                assert(sorted.contains(entry_key(e)));
                let w = choose|w: int| 0 <= w < sorted.len() && sorted[w] == entry_key(e);
                assert(key_entry(sorted[w]) == e);
                if w < top@.len() {
                    assert(top@[w] == e);
                }
                assert forall|t: int| 0 <= t < top@.len() implies ranks_before(#[trigger] top@[t], e) by {
                    assert(ranks_before(key_entry(sorted[t]), key_entry(sorted[w])));
                }
            }
        }
        top
    }
}


/// Node index of every id: `ids[i]` is node `i + 1`.
fn index_of_ids(ids: &Vec<u64>) -> (m: HashMap<u64, u32>)
    requires
        ids@.no_duplicates(),
        ids@.len() < u32::MAX,
    ensures
        forall|i: int| 0 <= i < ids@.len() ==> m@.contains_key(#[trigger] ids@[i]) && m@[ids@[i]] == i + 1,
        forall|x: u64| #[trigger] m@.contains_key(x) ==> ids@.contains(x),
{
    let mut m: HashMap<u64, u32> = HashMap::new();
    let mut i: usize = 0;
    while i < ids.len()
        invariant
            i <= ids@.len() < u32::MAX,
            ids@.no_duplicates(),
            forall|i2: int| 0 <= i2 < i ==> m@.contains_key(#[trigger] ids@[i2]) && m@[ids@[i2]] == i2 + 1,
            forall|x: u64| #[trigger] m@.contains_key(x) ==> ids@.take(i as int).contains(x),
        decreases ids.len() - i,
    {
        let ghost before = m@;
        let ghost pre = ids@.take(i as int);
        m.insert(ids[i], (i + 1) as u32);
        proof {
            assert forall|i2: int| 0 <= i2 < i implies #[trigger] ids@[i2] != ids@[i as int] by {}
            let nxt = ids@.take(i + 1);
            assert forall|x: u64| #[trigger] m@.contains_key(x) implies nxt.contains(x) by {
                if x == ids@[i as int] {
                    assert(nxt[i as int] == x);
                } else {
                    assert(before.contains_key(x));
                    let w = choose|w: int| 0 <= w < pre.len() && pre[w] == x;
                    assert(nxt[w] == x);
                }
            }
        }
        i = i + 1;
    }
    proof {
        assert(ids@.take(i as int) =~= ids@);
    }
    m
}

/// Edges of the graph whose dominators are computed: node 0 (the virtual
/// root) to every GC root that is an object, each once, and node `i + 1` to
/// node `k + 1` for every reference from `ids[i]` to the object `ids[k]`.
/// The position of `x` among the node ids (meaningful when it is one).
pub open spec fn id_index(ids: Seq<u64>, x: u64) -> int {
    choose|w: int| 0 <= w < ids.len() && ids[w] == x
}

/// The edges from the virtual root (node 0) to the GC roots that are
/// objects, each root node once, in the order the roots are listed.
pub open spec fn root_edge_list(roots: Seq<GcRoot>, ids: Seq<u64>) -> Seq<(u32, u32)>
    decreases roots.len(),
{
    if roots.len() == 0 {
        Seq::empty()
    } else {
        let prev = root_edge_list(roots.drop_last(), ids);
        let oid = roots.last().object_id;
        let e = (0u32, (id_index(ids, oid) + 1) as u32);
        if ids.contains(oid) && !prev.contains(e) { prev.push(e) } else { prev }
    }
}

/// The edges from node `i + 1` to the objects among `refs`, in order.
pub open spec fn object_edge_list(ids: Seq<u64>, i: int, refs: Seq<u64>) -> Seq<(u32, u32)>
    decreases refs.len(),
{
    if refs.len() == 0 {
        Seq::empty()
    } else {
        let prev = object_edge_list(ids, i, refs.drop_last());
        let t = refs.last();
        if ids.contains(t) { prev.push(((i + 1) as u32, (id_index(ids, t) + 1) as u32)) } else { prev }
    }
}

/// The reference edges of the first `n` objects, object by object.
pub open spec fn ref_edge_list(objects: Map<u64, HeapObject>, ids: Seq<u64>, n: int) -> Seq<(u32, u32)>
    decreases n,
{
    if n <= 0 {
        Seq::empty()
    } else {
        ref_edge_list(objects, ids, n - 1) + object_edge_list(ids, n - 1, objects[ids[n - 1]].references@)
    }
}

/// The edge list handed to the dominator computation: node `k + 1` is
/// `ids[k]`, node 0 the virtual root.
pub open spec fn graph_edge_list(graph: ObjectGraph, ids: Seq<u64>) -> Seq<(u32, u32)> {
    root_edge_list(graph.gc_roots@, ids) + ref_edge_list(graph.objects@, ids, ids.len() as int)
}

/// The immediate dominators computed for an edge list (none without edges).
pub open spec fn computed_idoms(edges: Seq<(u32, u32)>) -> Seq<Option<u32>> {
    if edges.len() > 0 { simple_fast_idoms(edges) } else { Seq::empty() }
}

proof fn lemma_id_index(ids: Seq<u64>, w: int)
    requires
        ids.no_duplicates(),
        0 <= w < ids.len(),
    ensures
        id_index(ids, ids[w]) == w,
{
    let v = id_index(ids, ids[w]);
    assert(0 <= v < ids.len() && ids[v] == ids[w]);
}

fn graph_edges(graph: &ObjectGraph, ids: &Vec<u64>) -> (edges: Vec<(u32, u32)>)
    requires
        ids_wf(ids@),
        ids@.len() + 1 < u32::MAX,
        forall|i: int| 0 <= i < ids@.len() ==> graph.objects@.contains_key(#[trigger] ids@[i]),
        ids@.to_set() == graph.objects@.dom(),
    ensures
        forall|j: int| 0 <= j < edges@.len() ==> (#[trigger] edges@[j]).0 <= ids@.len() && 1 <= edges@[j].1
            <= ids@.len(),
        forall|j: int| 0 <= j < edges@.len() && (#[trigger] edges@[j]).0 == 0 ==> exists|r: int|
            0 <= r < graph.gc_roots@.len() && graph.gc_roots@[r].object_id == ids@[edges@[j].1 - 1],
        forall|j: int| 0 <= j < edges@.len() && (#[trigger] edges@[j]).0 > 0 ==> graph.objects@[ids@[edges@[j].0 - 1]].references@.contains(
            ids@[edges@[j].1 - 1],
        ),
        forall|r: int| 0 <= r < graph.gc_roots@.len() && graph.objects@.contains_key(
            #[trigger] graph.gc_roots@[r].object_id,
        ) ==> exists|w: int| 0 <= w < ids@.len() && #[trigger] ids@[w] == graph.gc_roots@[r].object_id
            && edges@.contains((0u32, (w + 1) as u32)),
        edges@ == graph_edge_list(*graph, ids@),
{
    let n = ids.len();
    let index = index_of_ids(ids);
    let mut edges: Vec<(u32, u32)> = Vec::new();
    let mut rooted: Vec<bool> = Vec::new();
    let mut k: usize = 0;
    while k <= n
        invariant
            k <= n + 1,
            n + 1 < u32::MAX,
            rooted@.len() == k,
            forall|k2: int| 0 <= k2 < k ==> !(#[trigger] rooted@[k2]),
        decreases n + 1 - k,
    {
        rooted.push(false);
        k = k + 1;
    }
    let ghost mut edge_root: Seq<int> = Seq::empty();
    let mut r: usize = 0;
    while r < graph.gc_roots.len()
        invariant
            r <= graph.gc_roots@.len(),
            n == ids@.len(),
            n + 1 < u32::MAX,
            ids_wf(ids@),
            rooted@.len() == n + 1,
            forall|i: int| 0 <= i < ids@.len() ==> index@.contains_key(#[trigger] ids@[i]) && index@[ids@[i]] == i + 1,
            forall|x: u64| #[trigger] index@.contains_key(x) ==> ids@.contains(x),
            ids@.to_set() == graph.objects@.dom(),
            forall|j: int| 0 <= j < edges@.len() ==> (#[trigger] edges@[j]).0 == 0 && 1 <= edges@[j].1 <= n,
            edge_root.len() == edges@.len(),
            forall|j: int| 0 <= j < edges@.len() ==> 0 <= #[trigger] edge_root[j] < graph.gc_roots@.len()
                && graph.gc_roots@[edge_root[j]].object_id == ids@[edges@[j].1 - 1],
            forall|k2: int| 1 <= k2 <= n && #[trigger] rooted@[k2] ==> edges@.contains((0u32, k2 as u32)),
            forall|r2: int| 0 <= r2 < r && graph.objects@.contains_key(#[trigger] graph.gc_roots@[r2].object_id)
                ==> exists|w: int| 0 <= w < n && #[trigger] ids@[w] == graph.gc_roots@[r2].object_id
                    && rooted@[w + 1],
            edges@ == root_edge_list(graph.gc_roots@.take(r as int), ids@),
            forall|k2: int| 1 <= k2 <= n ==> (#[trigger] rooted@[k2] <==> edges@.contains((0u32, k2 as u32))),
        decreases graph.gc_roots@.len() - r,
    {
        let oid = graph.gc_roots[r].object_id;
        proof {
            assert(graph.gc_roots@.take(r + 1).drop_last() =~= graph.gc_roots@.take(r as int));
        }
        match index.get(&oid) {
            Some(kk) => {
                let kk = *kk;
                let ghost w = choose|w: int| 0 <= w < ids@.len() && ids@[w] == oid;
                proof {
                    assert(index@[ids@[w]] == w + 1);
                    lemma_id_index(ids@, w);
                    assert(ids@.contains(oid));
                }
                if !rooted[kk as usize] {
                    let ghost before = edges@;
                    edges.push((0u32, kk));
                    rooted[kk as usize] = true;
                    proof {
                        edge_root = edge_root.push(r as int);
                        assert(edges@[edges@.len() - 1] == (0u32, kk));
                        assert forall|k2: int| 1 <= k2 <= n && #[trigger] rooted@[k2] implies edges@.contains((0u32, k2 as u32)) by {
                            if k2 != kk as int {
                                let j = choose|j: int| 0 <= j < before.len() && before[j] == (0u32, k2 as u32);
                                assert(edges@[j] == (0u32, k2 as u32));
                            }
                        }
                        assert forall|k2: int| 1 <= k2 <= n implies (#[trigger] rooted@[k2] <==> edges@.contains((0u32, k2 as u32))) by {
                            if k2 != kk as int {
                                if edges@.contains((0u32, k2 as u32)) {
                                    let j = choose|j: int| 0 <= j < edges@.len() && edges@[j] == (0u32, k2 as u32);
                                    if j < before.len() {
                                        assert(before[j] == (0u32, k2 as u32));
                                    }
                                }
                            }
                        }
                    }
                }
                proof {
                    assert(rooted@[kk as int]);
                }
            },
            None => {
                proof {
                    if graph.objects@.contains_key(oid) {
                        assert(ids@.to_set().contains(oid));
                        let w = choose|w: int| 0 <= w < ids@.len() && ids@[w] == oid;
                        assert(index@.contains_key(ids@[w]));
                    }
                    if ids@.contains(oid) {
                        let w = choose|w: int| 0 <= w < ids@.len() && ids@[w] == oid;
                        assert(index@.contains_key(ids@[w]));
                    }
                }
            },
        }
        r = r + 1;
    }
    proof {
        assert(graph.gc_roots@.take(r as int) =~= graph.gc_roots@);
    }
    let ghost root_edges = edges@;
    proof {
        assert forall|r2: int| 0 <= r2 < graph.gc_roots@.len() && graph.objects@.contains_key(
            #[trigger] graph.gc_roots@[r2].object_id) implies exists|w: int| 0 <= w < ids@.len()
                && #[trigger] ids@[w] == graph.gc_roots@[r2].object_id && edges@.contains((0u32, (w + 1) as u32)) by {
            let w = choose|w: int| 0 <= w < n && #[trigger] ids@[w] == graph.gc_roots@[r2].object_id && rooted@[w + 1];
            assert(rooted@[w + 1]);
            assert(edges@.contains((0u32, (w + 1) as u32)));
        }
    }
    let ghost root_complete = forall|r2: int| 0 <= r2 < graph.gc_roots@.len() && graph.objects@.contains_key(
        #[trigger] graph.gc_roots@[r2].object_id) ==> exists|w: int| 0 <= w < ids@.len()
            && #[trigger] ids@[w] == graph.gc_roots@[r2].object_id && root_edges.contains((0u32, (w + 1) as u32));
    proof {
        assert(root_complete);
    }
    let mut i: usize = 0;
    while i < n
        invariant
            i <= n,
            n == ids@.len(),
            n + 1 < u32::MAX,
            ids_wf(ids@),
            forall|i2: int| 0 <= i2 < ids@.len() ==> graph.objects@.contains_key(#[trigger] ids@[i2]),
            forall|i2: int| 0 <= i2 < ids@.len() ==> index@.contains_key(#[trigger] ids@[i2]) && index@[ids@[i2]] == i2 + 1,
            forall|x: u64| #[trigger] index@.contains_key(x) ==> ids@.contains(x),
            edges@.len() >= root_edges.len(),
            forall|j: int| 0 <= j < root_edges.len() ==> edges@[j] == root_edges[j],
            forall|j: int| 0 <= j < root_edges.len() ==> (#[trigger] root_edges[j]).0 == 0 && 1 <= root_edges[j].1 <= n,
            root_edges == root_edge_list(graph.gc_roots@, ids@),
            edges@ == root_edges + ref_edge_list(graph.objects@, ids@, i as int),
            edge_root.len() == root_edges.len(),
            forall|j: int| 0 <= j < root_edges.len() ==> 0 <= #[trigger] edge_root[j] < graph.gc_roots@.len()
                && graph.gc_roots@[edge_root[j]].object_id == ids@[root_edges[j].1 - 1],
            forall|j: int| root_edges.len() <= j < edges@.len() ==> 1 <= (#[trigger] edges@[j]).0 <= i && 1 <= edges@[j].1 <= n
                && graph.objects@[ids@[edges@[j].0 - 1]].references@.contains(ids@[edges@[j].1 - 1]),
            root_complete,
        decreases n - i,
    {
        let obj = graph.objects.get(&ids[i]).unwrap();
        let mut t: usize = 0;
        while t < obj.references.len()
            invariant
                t <= obj.references@.len(),
                i < n,
                n == ids@.len(),
                n + 1 < u32::MAX,
                *obj == graph.objects@[ids@[i as int]],
                forall|i2: int| 0 <= i2 < ids@.len() ==> index@.contains_key(#[trigger] ids@[i2]) && index@[ids@[i2]] == i2 + 1,
                forall|x: u64| #[trigger] index@.contains_key(x) ==> ids@.contains(x),
                edges@.len() >= root_edges.len(),
                forall|j: int| 0 <= j < root_edges.len() ==> edges@[j] == root_edges[j],
                forall|j: int| root_edges.len() <= j < edges@.len() ==> 1 <= (#[trigger] edges@[j]).0 <= i + 1 && 1 <= edges@[j].1 <= n
                    && graph.objects@[ids@[edges@[j].0 - 1]].references@.contains(ids@[edges@[j].1 - 1]),
                ids_wf(ids@),
                edges@ == root_edges + ref_edge_list(graph.objects@, ids@, i as int)
                    + object_edge_list(ids@, i as int, obj.references@.take(t as int)),
            decreases obj.references@.len() - t,
        {
            let target = obj.references[t];
            proof {
                assert(obj.references@.take(t + 1).drop_last() =~= obj.references@.take(t as int));
            }
            match index.get(&target) {
                Some(kk) => {
                    let kk = *kk;
                    let ghost w = choose|w: int| 0 <= w < ids@.len() && ids@[w] == target;
                    proof {
                        assert(index@[ids@[w]] == w + 1);
                        assert(obj.references@[t as int] == target);
                    }
                    let ghost before = edges@;
                    edges.push(((i + 1) as u32, kk));
                    proof {
                        assert(obj.references@.contains(target));
                        lemma_id_index(ids@, w);
                        assert(ids@.contains(target));
                        assert(edges@ =~= root_edges + ref_edge_list(graph.objects@, ids@, i as int)
                            + object_edge_list(ids@, i as int, obj.references@.take(t + 1)));
                    }
                },
                None => {
                    proof {
                        if ids@.contains(target) {
                            let w = choose|w: int| 0 <= w < ids@.len() && ids@[w] == target;
                            assert(index@.contains_key(ids@[w]));
                        }
                    }
                },
            }
            t = t + 1;
        }
        proof {
            assert(obj.references@.take(t as int) =~= obj.references@);
            assert(ref_edge_list(graph.objects@, ids@, i + 1) == ref_edge_list(graph.objects@, ids@, i as int)
                + object_edge_list(ids@, i as int, graph.objects@[ids@[i as int]].references@));
            assert(edges@ =~= root_edges + ref_edge_list(graph.objects@, ids@, i + 1));
        }
        i = i + 1;
    }
    proof {
        assert forall|j: int| 0 <= j < edges@.len() implies (#[trigger] edges@[j]).0 <= ids@.len() && 1 <= edges@[j].1
            <= ids@.len() by {
            if j < root_edges.len() {
                assert(root_edges[j] == edges@[j]);
            }
        }
        assert forall|j: int| 0 <= j < edges@.len() && (#[trigger] edges@[j]).0 == 0 implies exists|r2: int|
            0 <= r2 < graph.gc_roots@.len() && graph.gc_roots@[r2].object_id == ids@[edges@[j].1 - 1] by {
            if j < root_edges.len() {
                assert(root_edges[j] == edges@[j]);
                let r2 = edge_root[j];
                assert(0 <= r2 < graph.gc_roots@.len() && graph.gc_roots@[r2].object_id == ids@[edges@[j].1 - 1]);
            }
        }
        assert forall|j: int| 0 <= j < edges@.len() && (#[trigger] edges@[j]).0 > 0 implies graph.objects@[ids@[edges@[j].0 - 1]].references@.contains(
            ids@[edges@[j].1 - 1]) by {
            if j < root_edges.len() {
                assert(root_edges[j] == edges@[j]);
            }
        }
        assert forall|r2: int| 0 <= r2 < graph.gc_roots@.len() && graph.objects@.contains_key(
            #[trigger] graph.gc_roots@[r2].object_id) implies exists|w: int| 0 <= w < ids@.len()
                && #[trigger] ids@[w] == graph.gc_roots@[r2].object_id && edges@.contains((0u32, (w + 1) as u32)) by {
            let w = choose|w: int| 0 <= w < ids@.len() && #[trigger] ids@[w] == graph.gc_roots@[r2].object_id && root_edges.contains((0u32, (w + 1) as u32));
            let j = choose|j: int| 0 <= j < root_edges.len() && root_edges[j] == (0u32, (w + 1) as u32);
            assert(edges@[j] == root_edges[j]);
        }
    }
    edges
}

/// How many references the objects of a graph hold in all.
pub open spec fn total_references(objects: Map<u64, HeapObject>) -> int {
    map_sum(objects, reference_count_fn())
}

proof fn lemma_object_edges_len(ids: Seq<u64>, i: int, refs: Seq<u64>)
    ensures
        object_edge_list(ids, i, refs).len() <= refs.len(),
    decreases refs.len(),
{
    if refs.len() > 0 {
        lemma_object_edges_len(ids, i, refs.drop_last());
    }
}

proof fn lemma_root_edges_len(roots: Seq<GcRoot>, ids: Seq<u64>)
    ensures
        root_edge_list(roots, ids).len() <= roots.len(),
    decreases roots.len(),
{
    if roots.len() > 0 {
        lemma_root_edges_len(roots.drop_last(), ids);
    }
}

proof fn lemma_ref_edges_len(objects: Map<u64, HeapObject>, ids: Seq<u64>, m: int)
    requires
        0 <= m <= ids.len(),
        ids.no_duplicates(),
        forall|i: int| 0 <= i < ids.len() ==> objects.contains_key(#[trigger] ids[i]),
    ensures
        ref_edge_list(objects, ids, m).len() <= map_sum(objects.restrict(ids.take(m).to_set()), reference_count_fn()),
    decreases m,
{
    if m == 0 {
        assert(ids.take(0).to_set() =~= Set::<u64>::empty());
        lemma_map_sum_restrict_empty(objects, reference_count_fn());
    } else {
        lemma_ref_edges_len(objects, ids, m - 1);
        lemma_object_edges_len(ids, m - 1, objects[ids[m - 1]].references@);
        let d = ids.take(m - 1).to_set();
        assert(ids.take(m) =~= ids.take(m - 1).push(ids[m - 1]));
        assert forall|x: u64| ids.take(m).to_set().contains(x) <==> d.insert(ids[m - 1]).contains(x) by {
            let pre = ids.take(m - 1);
            if ids.take(m).to_set().contains(x) {
                let j = choose|j: int| 0 <= j < ids.take(m).len() && #[trigger] ids.take(m)[j] == x;
                if j < m - 1 {
                    assert(pre[j] == x);
                    assert(pre.contains(x));
                }
            }
            if d.contains(x) {
                let j = choose|j: int| 0 <= j < pre.len() && #[trigger] pre[j] == x;
                assert(ids.take(m)[j] == x);
                assert(ids.take(m).contains(x));
            }
            if x == ids[m - 1] {
                assert(ids.take(m)[m - 1] == x);
                assert(ids.take(m).contains(x));
            }
        }
        assert(ids.take(m).to_set() =~= d.insert(ids[m - 1]));
        assert(!d.contains(ids[m - 1])) by {
            if d.contains(ids[m - 1]) {
                let pre = ids.take(m - 1);
                let j = choose|j: int| 0 <= j < pre.len() && #[trigger] pre[j] == ids[m - 1];
                assert(ids[j] == ids[m - 1]);
            }
        }
        assert(d.subset_of(objects.dom()));
        vstd::seq_lib::seq_to_set_is_finite(ids.take(m - 1));
        lemma_map_sum_restrict_insert(objects, d, ids[m - 1], reference_count_fn());
    }
}

/// The edge list has no more edges than GC roots and references together.
proof fn lemma_edge_list_len(graph: ObjectGraph, ids: Seq<u64>)
    requires
        ids.no_duplicates(),
        forall|i: int| 0 <= i < ids.len() ==> graph.objects@.contains_key(#[trigger] ids[i]),
        ids.to_set() == graph.objects@.dom(),
    ensures
        graph_edge_list(graph, ids).len() <= graph.gc_roots@.len() + total_references(graph.objects@),
{
    lemma_root_edges_len(graph.gc_roots@, ids);
    lemma_ref_edges_len(graph.objects@, ids, ids.len() as int);
    assert(ids.take(ids.len() as int) =~= ids);
    assert(graph.objects@.restrict(graph.objects@.dom()) =~= graph.objects@);
}

/// `f` is a chain of objects from a GC root: each is an object of the
/// graph, the first is listed as a GC root, and each references the next.
pub open spec fn heap_chain(graph: ObjectGraph, f: Seq<u64>) -> bool {
    &&& f.len() >= 1
    &&& forall|i: int| 0 <= i < f.len() ==> graph.objects@.contains_key(#[trigger] f[i])
    &&& exists|r: int| 0 <= r < graph.gc_roots@.len() && graph.gc_roots@[r].object_id == f[0]
    &&& forall|i: int| 0 <= i < f.len() - 1 ==> graph.objects@[#[trigger] f[i]].references@.contains(f[i + 1])
}

/// Object `x` can be reached from a GC root through references.
pub open spec fn heap_reachable(graph: ObjectGraph, x: u64) -> bool {
    exists|f: Seq<u64>| #[trigger] heap_chain(graph, f) && f.last() == x
}

/// A reference of object `i + 1` to an object is one of its edges.
proof fn lemma_object_edge_listed(ids: Seq<u64>, i: int, refs: Seq<u64>, t: u64)
    requires
        refs.contains(t),
        ids.contains(t),
    ensures
        object_edge_list(ids, i, refs).contains(((i + 1) as u32, (id_index(ids, t) + 1) as u32)),
    decreases refs.len(),
{
    let e = ((i + 1) as u32, (id_index(ids, t) + 1) as u32);
    let prev = object_edge_list(ids, i, refs.drop_last());
    if refs.last() == t {
        assert(object_edge_list(ids, i, refs) == prev.push(e));
        assert(object_edge_list(ids, i, refs)[prev.len() as int] == e);
    } else {
        let k = choose|k: int| 0 <= k < refs.len() && refs[k] == t;
        assert(refs.drop_last()[k] == t);
        lemma_object_edge_listed(ids, i, refs.drop_last(), t);
        let j = choose|j: int| 0 <= j < prev.len() && prev[j] == e;
        let whole = object_edge_list(ids, i, refs);
        assert(whole == prev || whole == prev.push(((i + 1) as u32, (id_index(ids, refs.last()) + 1) as u32)));
        assert(whole[j] == e);
    }
}

/// A reference of the `i`-th object (of the first `m`) to an object is an
/// edge of the reference list.
proof fn lemma_ref_edge_listed(objects: Map<u64, HeapObject>, ids: Seq<u64>, m: int, i: int, t: u64)
    requires
        0 <= i < m,
        objects[ids[i]].references@.contains(t),
        ids.contains(t),
    ensures
        ref_edge_list(objects, ids, m).contains(((i + 1) as u32, (id_index(ids, t) + 1) as u32)),
    decreases m,
{
    let e = ((i + 1) as u32, (id_index(ids, t) + 1) as u32);
    let front = ref_edge_list(objects, ids, m - 1);
    let back = object_edge_list(ids, m - 1, objects[ids[m - 1]].references@);
    assert(ref_edge_list(objects, ids, m) == front + back);
    if i == m - 1 {
        lemma_object_edge_listed(ids, i, objects[ids[i]].references@, t);
        let j = choose|j: int| 0 <= j < back.len() && back[j] == e;
        assert((front + back)[front.len() + j] == e);
    } else {
        lemma_ref_edge_listed(objects, ids, m - 1, i, t);
        let j = choose|j: int| 0 <= j < front.len() && front[j] == e;
        assert((front + back)[j] == e);
    }
}

/// A chain of objects from a GC root is a path from node 0 in the graph's
/// edge list.
proof fn lemma_chain_to_path(graph: ObjectGraph, ids: Seq<u64>, edges: Seq<(u32, u32)>, f: Seq<u64>) -> (p: Seq<u32>)
    requires
        edges == graph_edge_list(graph, ids),
        ids_wf(ids),
        ids.len() + 1 < u32::MAX,
        ids.to_set() == graph.objects@.dom(),
        forall|r: int| 0 <= r < graph.gc_roots@.len() && graph.objects@.contains_key(
            #[trigger] graph.gc_roots@[r].object_id,
        ) ==> exists|w: int| 0 <= w < ids.len() && #[trigger] ids[w] == graph.gc_roots@[r].object_id
            && edges.contains((0u32, (w + 1) as u32)),
        heap_chain(graph, f),
    ensures
        edge_reachable(edges, (id_index(ids, f.last()) + 1) as u32),
        edge_path(edges, p),
        p.len() == f.len() + 1,
        p.last() == (id_index(ids, f.last()) + 1) as u32,
        forall|i: int| 0 <= i < f.len() ==> 0 <= id_index(ids, #[trigger] f[i]) < ids.len() && ids[id_index(ids, f[i])] == f[i]
            && p[i + 1] == (id_index(ids, f[i]) + 1) as u32,
{
    let p = Seq::new((f.len() + 1) as nat, |i: int| if i == 0 { 0u32 } else { (id_index(ids, f[i - 1]) + 1) as u32 });
    assert forall|i: int| 0 <= i < f.len() implies ids.contains(#[trigger] f[i]) && ids[id_index(ids, f[i])] == f[i]
        && 0 <= id_index(ids, f[i]) < ids.len() by {
        assert(graph.objects@.contains_key(f[i]));
        assert(ids.to_set().contains(f[i]));
        let w = choose|w: int| 0 <= w < ids.len() && ids[w] == f[i];
        lemma_id_index(ids, w);
    }
    assert forall|i: int| 0 <= i < p.len() - 1 implies edges.contains((#[trigger] p[i], p[i + 1])) by {
        if i == 0 {
            let r = choose|r: int| 0 <= r < graph.gc_roots@.len() && graph.gc_roots@[r].object_id == f[0];
            assert(graph.objects@.contains_key(graph.gc_roots@[r].object_id));
            let w = choose|w: int| 0 <= w < ids.len() && #[trigger] ids[w] == graph.gc_roots@[r].object_id
                && edges.contains((0u32, (w + 1) as u32));
            lemma_id_index(ids, w);
            assert(p[1] == (w + 1) as u32);
        } else {
            let a = id_index(ids, f[i - 1]);
            assert(ids.contains(f[i - 1]));
            assert(graph.objects@[ids[a]].references@.contains(f[i]));
            lemma_ref_edge_listed(graph.objects@, ids, ids.len() as int, a, f[i]);
            let roots = root_edge_list(graph.gc_roots@, ids);
            let refs = ref_edge_list(graph.objects@, ids, ids.len() as int);
            let e = ((a + 1) as u32, (id_index(ids, f[i]) + 1) as u32);
            let j = choose|j: int| 0 <= j < refs.len() && refs[j] == e;
            assert((roots + refs)[roots.len() + j] == e);
            assert(p[i] == (a + 1) as u32);
        }
    }
    assert(edge_path(edges, p));
    assert(p.last() == (id_index(ids, f.last()) + 1) as u32);
    p
}

/// A path from node 0 in the graph's edge list is a chain of objects from
/// a GC root.
#[verifier::spinoff_prover]
proof fn lemma_path_to_chain(graph: ObjectGraph, ids: Seq<u64>, edges: Seq<(u32, u32)>, p: Seq<u32>) -> (f: Seq<u64>)
    requires
        forall|i: int| 0 <= i < ids.len() ==> graph.objects@.contains_key(#[trigger] ids[i]),
        forall|j: int| 0 <= j < edges.len() ==> (#[trigger] edges[j]).0 <= ids.len() && 1 <= edges[j].1 <= ids.len(),
        forall|j: int| 0 <= j < edges.len() && (#[trigger] edges[j]).0 == 0 ==> exists|r: int|
            0 <= r < graph.gc_roots@.len() && graph.gc_roots@[r].object_id == ids[edges[j].1 - 1],
        forall|j: int| 0 <= j < edges.len() && (#[trigger] edges[j]).0 > 0 ==> graph.objects@[ids[edges[j].0 - 1]].references@.contains(
            ids[edges[j].1 - 1],
        ),
        edge_path(edges, p),
        p.last() != 0,
    ensures
        1 <= p.last() <= ids.len(),
        heap_reachable(graph, ids[p.last() - 1]),
        heap_chain(graph, f),
        f.len() == p.len() - 1,
        f.last() == ids[p.last() - 1],
        forall|i: int| 0 <= i < f.len() ==> 1 <= #[trigger] p[i + 1] <= ids.len() && f[i] == ids[p[i + 1] - 1],
{
    assert forall|i: int| 1 <= i < p.len() implies 1 <= #[trigger] p[i] <= ids.len() by {
        assert(edges.contains((p[i - 1], p[i])));
        let j = choose|j: int| 0 <= j < edges.len() && edges[j] == (p[i - 1], p[i]);
    }
    let f = Seq::new((p.len() - 1) as nat, |i: int| ids[p[i + 1] - 1]);
    assert(p.len() >= 2);
    assert forall|i: int| 0 <= i < f.len() implies graph.objects@.contains_key(#[trigger] f[i]) by {
        assert(1 <= p[i + 1] <= ids.len());
    }
    assert(exists|r: int| 0 <= r < graph.gc_roots@.len() && graph.gc_roots@[r].object_id == f[0]) by {
        assert(edges.contains((p[0], p[1])));
        let j = choose|j: int| 0 <= j < edges.len() && edges[j] == (p[0], p[1]);
    }
    assert forall|i: int| 0 <= i < f.len() - 1 implies graph.objects@[#[trigger] f[i]].references@.contains(f[i + 1]) by {
        assert(edges.contains((p[i + 1], p[i + 2])));
        let j = choose|j: int| 0 <= j < edges.len() && edges[j] == (p[i + 1], p[i + 2]);
        assert(1 <= p[i + 1]);
    }
    assert(heap_chain(graph, f));
    assert(f.last() == ids[p.last() - 1]);
    f
}

/// Object `a` lies on every chain of objects from a GC root to `x`.
pub open spec fn chain_dominates(graph: ObjectGraph, a: u64, x: u64) -> bool {
    forall|f: Seq<u64>| #[trigger] heap_chain(graph, f) && f.last() == x ==> f.contains(a)
}

/// What the dominance lemmas assume: the edge list of the graph under the
/// numbering `ids`, the tree built from the computed immediate dominators,
/// and petgraph's dominance facts about them.
spec fn tree_setting(graph: ObjectGraph, ids: Seq<u64>, edges: Seq<(u32, u32)>, idoms: Seq<Option<u32>>, t: DominatorTree) -> bool {
    &&& edges == graph_edge_list(graph, ids)
    &&& ids_wf(ids)
    &&& ids.len() + 1 < u32::MAX
    &&& ids.len() == graph.objects@.len()
    &&& ids.to_set() == graph.objects@.dom()
    &&& forall|i: int| 0 <= i < ids.len() ==> graph.objects@.contains_key(#[trigger] ids[i])
    &&& forall|j: int| 0 <= j < edges.len() ==> (#[trigger] edges[j]).0 <= ids.len() && 1 <= edges[j].1 <= ids.len()
    &&& forall|j: int| 0 <= j < edges.len() && (#[trigger] edges[j]).0 == 0 ==> exists|r: int|
        0 <= r < graph.gc_roots@.len() && graph.gc_roots@[r].object_id == ids[edges[j].1 - 1]
    &&& forall|j: int| 0 <= j < edges.len() && (#[trigger] edges[j]).0 > 0 ==> graph.objects@[ids[edges[j].0 - 1]].references@.contains(
        ids[edges[j].1 - 1],
    )
    &&& forall|r: int| 0 <= r < graph.gc_roots@.len() && graph.objects@.contains_key(
        #[trigger] graph.gc_roots@[r].object_id,
    ) ==> exists|w: int| 0 <= w < ids.len() && #[trigger] ids[w] == graph.gc_roots@[r].object_id
        && edges.contains((0u32, (w + 1) as u32))
    &&& forall|k: int| 1 <= k <= ids.len() ==> match #[trigger] parent_index(ids.len() as int, idoms, k) {
        Some(p) => t.idom_view().contains_key(ids[k - 1]) && t.idom_view()[ids[k - 1]] == node_id(ids, p),
        None => !t.idom_view().contains_key(ids[k - 1]),
    }
    &&& forall|x: u64| #[trigger] t.idom_view().contains_key(x) ==> ids.contains(x)
    &&& forall|k: int| 0 < k < idoms.len() && #[trigger] idoms[k] is Some ==> node_dominates(edges, idoms[k]->0, k as u32)
    &&& forall|k: int, c: u32| 0 < k < idoms.len() && #[trigger] idoms[k] is Some && c != k && #[trigger] node_dominates(edges, c, k as u32)
        ==> node_dominates(edges, c, idoms[k]->0)
}

/// The immediate dominator of an object lies on every chain to it.
#[verifier::spinoff_prover]
proof fn lemma_idom_on_chains(graph: ObjectGraph, ids: Seq<u64>, edges: Seq<(u32, u32)>, idoms: Seq<Option<u32>>, t: DominatorTree, x: u64)
    requires
        tree_setting(graph, ids, edges, idoms, t),
        t.idom_view().contains_key(x),
        t.idom_view()[x] != VIRTUAL_ROOT_ID,
    ensures
        chain_dominates(graph, t.idom_view()[x], x),
{
    let w = choose|w: int| 0 <= w < ids.len() && ids[w] == x;
    lemma_id_index(ids, w);
    let k = w + 1;
    assert(ids[k - 1] == x);
    assert(parent_index(ids.len() as int, idoms, k) is Some);
    let d = parent_index(ids.len() as int, idoms, k)->0;
    assert(idoms[k] == Some(d as u32));
    assert(d != 0);
    assert(node_dominates(edges, d as u32, k as u32));
    assert forall|f: Seq<u64>| #[trigger] heap_chain(graph, f) && f.last() == x implies f.contains(ids[d - 1]) by {
        let p = lemma_chain_to_path(graph, ids, edges, f);
        assert(p.last() == k as u32);
        assert(p.contains(d as u32));
        let j = choose|j: int| 0 <= j < p.len() && p[j] == d as u32;
        assert(j != 0);
        let a = id_index(ids, f[j - 1]);
        assert(p[j] == (a + 1) as u32);
        assert(f[j - 1] == ids[d - 1]);
    }
}

/// An object on every chain to `ids[k - 1]` is a node on every path to `k`.
#[verifier::spinoff_prover]
proof fn lemma_chain_dom_to_node(graph: ObjectGraph, ids: Seq<u64>, edges: Seq<(u32, u32)>, idoms: Seq<Option<u32>>, t: DominatorTree, k: int, wc: int)
    requires
        tree_setting(graph, ids, edges, idoms, t),
        1 <= k <= ids.len(),
        0 <= wc < ids.len(),
        chain_dominates(graph, ids[wc], ids[k - 1]),
    ensures
        node_dominates(edges, (wc + 1) as u32, k as u32),
{
    assert forall|path: Seq<u32>| #[trigger] edge_path(edges, path) && path.last() == k as u32 implies path.contains((wc + 1) as u32) by {
        let f = lemma_path_to_chain(graph, ids, edges, path);
        assert(f.last() == ids[k - 1]);
        assert(f.contains(ids[wc]));
        let i = choose|i: int| 0 <= i < f.len() && f[i] == ids[wc];
        assert(f[i] == ids[path[i + 1] - 1]);
        assert(path[i + 1] - 1 == wc);
        assert(path[i + 1] == (wc + 1) as u32);
    }
}

/// A node on every path to `d` is an object on every chain to `ids[d - 1]`.
#[verifier::spinoff_prover]
#[verifier::rlimit(60)]
proof fn lemma_node_dom_to_chain(graph: ObjectGraph, ids: Seq<u64>, edges: Seq<(u32, u32)>, d: int, wc: int)
    requires
        edges == graph_edge_list(graph, ids),
        ids_wf(ids),
        ids.len() + 1 < u32::MAX,
        ids.to_set() == graph.objects@.dom(),
        forall|r: int| 0 <= r < graph.gc_roots@.len() && graph.objects@.contains_key(
            #[trigger] graph.gc_roots@[r].object_id,
        ) ==> exists|w: int| 0 <= w < ids.len() && #[trigger] ids[w] == graph.gc_roots@[r].object_id
            && edges.contains((0u32, (w + 1) as u32)),
        1 <= d <= ids.len(),
        0 <= wc < ids.len(),
        node_dominates(edges, (wc + 1) as u32, d as u32),
    ensures
        chain_dominates(graph, ids[wc], ids[d - 1]),
{
    lemma_id_index(ids, wc);
    assert forall|g: Seq<u64>| #[trigger] heap_chain(graph, g) && g.last() == ids[d - 1] implies g.contains(ids[wc]) by {
        let p = lemma_chain_to_path(graph, ids, edges, g);
        lemma_id_index(ids, d - 1);
        assert(p.last() == d as u32);
        assert(p.contains((wc + 1) as u32));
        let j = choose|j: int| 0 <= j < p.len() && p[j] == (wc + 1) as u32;
        assert(j != 0);
        let a = id_index(ids, g[j - 1]);
        assert(p[j] == (a + 1) as u32);
        assert(g[j - 1] == ids[wc]);
    }
}

/// Any other object on every chain to an object lies on every chain to its
/// immediate dominator, which is then an object.
#[verifier::spinoff_prover]
proof fn lemma_idom_immediate(graph: ObjectGraph, ids: Seq<u64>, edges: Seq<(u32, u32)>, idoms: Seq<Option<u32>>, t: DominatorTree, x: u64, c: u64)
    requires
        tree_setting(graph, ids, edges, idoms, t),
        t.idom_view().contains_key(x),
        c != x,
        graph.objects@.contains_key(c),
        chain_dominates(graph, c, x),
    ensures
        t.idom_view()[x] != VIRTUAL_ROOT_ID,
        chain_dominates(graph, c, t.idom_view()[x]),
{
    let w = choose|w: int| 0 <= w < ids.len() && ids[w] == x;
    let k = w + 1;
    assert(ids.to_set().contains(c));
    let wc = choose|wc: int| 0 <= wc < ids.len() && ids[wc] == c;
    let kc = (wc + 1) as u32;
    assert(kc != k) by {
        assert(ids[wc] != ids[w]);
    }
    assert(parent_index(ids.len() as int, idoms, k) is Some);
    let d = parent_index(ids.len() as int, idoms, k)->0;
    assert(idoms[k] == Some(d as u32));
    lemma_chain_dom_to_node(graph, ids, edges, idoms, t, k, wc);
    assert(node_dominates(edges, kc, d as u32));
    assert(d != 0) by {
        if d == 0 {
            let z = seq![0u32];
            assert(edge_path(edges, z));
            assert(z.contains(kc));
        }
    }
    assert(t.idom_view()[x] == ids[d - 1]);
    lemma_node_dom_to_chain(graph, ids, edges, d, wc);
}

/// Dominance among nodes carries over to dominance among objects.
proof fn lemma_tree_dominance(graph: ObjectGraph, ids: Seq<u64>, edges: Seq<(u32, u32)>, idoms: Seq<Option<u32>>, t: DominatorTree)
    requires
        tree_setting(graph, ids, edges, idoms, t),
    ensures
        forall|x: u64| #[trigger] t.idom_view().contains_key(x) && t.idom_view()[x] != VIRTUAL_ROOT_ID
            ==> chain_dominates(graph, t.idom_view()[x], x),
        forall|x: u64, c: u64| #[trigger] t.idom_view().contains_key(x) && c != x && graph.objects@.contains_key(c)
            && #[trigger] chain_dominates(graph, c, x) ==> t.idom_view()[x] != VIRTUAL_ROOT_ID
            && chain_dominates(graph, c, t.idom_view()[x]),
{
    assert forall|x: u64| #[trigger] t.idom_view().contains_key(x) && t.idom_view()[x] != VIRTUAL_ROOT_ID
        implies chain_dominates(graph, t.idom_view()[x], x) by {
        lemma_idom_on_chains(graph, ids, edges, idoms, t, x);
    }
    assert forall|x: u64, c: u64| #[trigger] t.idom_view().contains_key(x) && c != x && graph.objects@.contains_key(c)
        && #[trigger] chain_dominates(graph, c, x) implies t.idom_view()[x] != VIRTUAL_ROOT_ID
        && chain_dominates(graph, c, t.idom_view()[x]) by {
        lemma_idom_immediate(graph, ids, edges, idoms, t, x, c);
    }
}

/// `t` holds, for each object, the immediate dominator that petgraph's
/// `simple_fast` computes over the graph's edge list when the objects are
/// numbered in the order `ids` (the virtual root is node 0): an object has
/// an entry exactly when the computation gives it an immediate dominator,
/// that is, exactly when it can be reached from a GC root along the
/// graph's edges.
pub open spec fn dominators_of(graph: ObjectGraph, ids: Seq<u64>, t: DominatorTree) -> bool {
    &&& ids_wf(ids)
    &&& ids.len() == graph.objects@.len()
    &&& ids.to_set() == graph.objects@.dom()
    &&& forall|k: int| 1 <= k <= ids.len() ==> match #[trigger] parent_index(
        ids.len() as int,
        computed_idoms(graph_edge_list(graph, ids)),
        k,
    ) {
        Some(p) => t.idom_view().contains_key(ids[k - 1]) && t.idom_view()[ids[k - 1]] == node_id(ids, p),
        None => !t.idom_view().contains_key(ids[k - 1]),
    }
    &&& forall|k: int| 1 <= k <= ids.len() ==> (t.idom_view().contains_key(#[trigger] ids[k - 1])
        <==> edge_reachable(graph_edge_list(graph, ids), k as u32))
}

/// Builds the dominator tree of the object graph: a virtual root
/// dominates every GC root that is an object, and each object's retained
/// size is the shallow size of everything it dominates. An object has an
/// immediate dominator exactly when it can be reached from a GC root. That
/// dominator lies on every chain of references from a GC root to the
/// object, and every other object lying on all those chains lies on every
/// chain to the dominator; it is the virtual root when no other object lies
/// on all of them. It is the one petgraph's `simple_fast` computes over the
/// graph's edges (`dominators_of`).
#[verifier::spinoff_prover]
pub fn build_dominator_tree(graph: &ObjectGraph) -> (t: DominatorTree)
    requires
        !graph.objects@.contains_key(VIRTUAL_ROOT_ID),
        graph.objects@.len() + 1 < u32::MAX,
        graph.gc_roots@.len() + total_references(graph.objects@) < u32::MAX,
    ensures
        graph.objects@.len() == 0 ==> t.idom_view().len() == 0 && t.retained_view().len() == 0,
        graph.objects@.len() > 0 ==> t.retained_view().contains_key(VIRTUAL_ROOT_ID),
        forall|x: u64| #[trigger] t.idom_view().contains_key(x) ==> graph.objects@.contains_key(x),
        forall|x: u64| #[trigger] t.idom_view().contains_key(x) ==> t.idom_view()[x] == VIRTUAL_ROOT_ID
            || graph.objects@.contains_key(t.idom_view()[x]),
        forall|x: u64| #[trigger] t.retained_view().contains_key(x) ==> x == VIRTUAL_ROOT_ID
            || graph.objects@.contains_key(x),
        tree_shape(t),
        retained_law(t, graph.objects@),
        exists|ids: Seq<u64>| dominators_of(*graph, ids, t),
        forall|x: u64| #[trigger] t.idom_view().contains_key(x) ==> t.retained_view().contains_key(x),
        forall|x: u64| #[trigger] t.idom_view().contains_key(x) <==> heap_reachable(*graph, x),
        forall|x: u64| #[trigger] t.idom_view().contains_key(x) && t.idom_view()[x] != VIRTUAL_ROOT_ID
            ==> chain_dominates(*graph, t.idom_view()[x], x),
        forall|x: u64, c: u64| #[trigger] t.idom_view().contains_key(x) && c != x && graph.objects@.contains_key(c)
            && #[trigger] chain_dominates(*graph, c, x) ==> t.idom_view()[x] != VIRTUAL_ROOT_ID
            && chain_dominates(*graph, c, t.idom_view()[x]),
{
    if graph.objects.len() == 0 {
        let t = DominatorTree {
            immediate_dominators: HashMap::new(),
            dominated_children: HashMap::new(),
            retained_sizes: HashMap::new(),
        };
        proof {
            assert(t.children_view() =~= Map::<u64, Seq<u64>>::empty());
            let e = Seq::<u64>::empty();
            assert(e.to_set() =~= graph.objects@.dom());
            assert(dominators_of(*graph, e, t));
            assert forall|x: u64| #[trigger] t.idom_view().contains_key(x) <==> heap_reachable(*graph, x) by {
                if heap_reachable(*graph, x) {
                    let f = choose|f: Seq<u64>| #[trigger] heap_chain(*graph, f) && f.last() == x;
                    assert(graph.objects@.contains_key(f[0]));
                }
            }
        }
        return t;
    }
    let ids = crate::util::map_keys(&graph.objects);
    proof {
        assert(!ids@.contains(VIRTUAL_ROOT_ID)) by {
            if ids@.contains(VIRTUAL_ROOT_ID) {
                let w = choose|w: int| 0 <= w < ids@.len() && ids@[w] == VIRTUAL_ROOT_ID;
                assert(graph.objects@.contains_key(ids@[w]));
            }
        }
    }
    let edges = graph_edges(graph, &ids);
    let idoms: Vec<Option<u32>> = if edges.len() > 0 {
        proof {
            lemma_edge_bound_le(edges@, ids@.len() as nat);
            lemma_edge_list_len(*graph, ids@);
        }
        dominators_from_edges(&edges)
    } else {
        let v: Vec<Option<u32>> = Vec::new();
        proof {
            assert(rank_falls(v@, Seq::<nat>::empty()));
        }
        v
    };
    let t = tree_from_idoms(&graph.objects, &ids, &idoms);
    proof {
        assert(tree_setting(*graph, ids@, edges@, idoms@, t));
        lemma_tree_dominance(*graph, ids@, edges@, idoms@, t);
        assert(idoms@ == computed_idoms(graph_edge_list(*graph, ids@)));
        assert forall|k: int| 1 <= k <= ids@.len() implies (t.idom_view().contains_key(#[trigger] ids@[k - 1])
            <==> edge_reachable(graph_edge_list(*graph, ids@), k as u32)) by {
            assert(parent_index(ids@.len() as int, idoms@, k) is Some <==> (k < idoms@.len() && idoms@[k] is Some));
            if k >= idoms@.len() {
                lemma_beyond_bound_unreached(edges@, k as u32);
            }
        }
        assert(dominators_of(*graph, ids@, t));
        assert forall|x: u64| #[trigger] t.idom_view().contains_key(x) <==> heap_reachable(*graph, x) by {
            if t.idom_view().contains_key(x) {
                let w = choose|w: int| 0 <= w < ids@.len() && ids@[w] == x;
                let k = w + 1;
                assert(t.idom_view().contains_key(ids@[k - 1]));
                assert(edge_reachable(graph_edge_list(*graph, ids@), k as u32));
                let path = choose|path: Seq<u32>| #[trigger] edge_path(edges@, path) && path.last() == k as u32;
                lemma_path_to_chain(*graph, ids@, edges@, path);
            }
            if heap_reachable(*graph, x) {
                let f = choose|f: Seq<u64>| #[trigger] heap_chain(*graph, f) && f.last() == x;
                assert(graph.objects@.contains_key(f[f.len() - 1]));
                assert(ids@.to_set().contains(x));
                let w = choose|w: int| 0 <= w < ids@.len() && ids@[w] == x;
                lemma_id_index(ids@, w);
                lemma_chain_to_path(*graph, ids@, edges@, f);
                assert(edge_reachable(graph_edge_list(*graph, ids@), (w + 1) as u32));
                assert(t.idom_view().contains_key(ids@[(w + 1) - 1]));
            }
        }
        assert forall|x: u64| #[trigger] t.idom_view().contains_key(x) implies t.idom_view()[x] == VIRTUAL_ROOT_ID
            || graph.objects@.contains_key(t.idom_view()[x]) by {
            let w = choose|w: int| 0 <= w < ids@.len() && ids@[w] == x;
            let k = w + 1;
            assert(parent_index(ids@.len() as int, idoms@, k) matches Some(_));
            let p = parent_index(ids@.len() as int, idoms@, k)->0;
            if p != 0 {
                assert(graph.objects@.contains_key(ids@[p - 1]));
            }
        }
        assert forall|x: u64| #[trigger] t.idom_view().contains_key(x) implies graph.objects@.contains_key(x) by {
            assert(ids@.to_set().contains(x));
        }
        assert forall|x: u64| #[trigger] t.retained_view().contains_key(x) implies x == VIRTUAL_ROOT_ID
            || graph.objects@.contains_key(x) by {
            if x != VIRTUAL_ROOT_ID {
                assert(ids@.to_set().contains(x));
            }
        }
    }
    t
}

} // verus!
