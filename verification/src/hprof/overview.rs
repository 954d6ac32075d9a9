//! A bounded single-pass summary of a heap dump: class tallies, the largest
//! instances, GC-root counts and recent thread frames.

use vstd::prelude::*;
use std::collections::{HashMap, VecDeque};
use crate::hprof::object_graph::GcRootType;
use crate::analysis::ProvenanceMarker;
use crate::text::{push_str, push_hex, hex_chars, string_from_chars};

verus! {

broadcast use vstd::std_specs::hash::group_hash_axioms;

/// GC root kinds, without the thread data that HPROF records carry.
#[derive(Debug, Clone, Copy, PartialEq, Eq, Structural, Hash, PartialOrd, Ord)]
pub enum GcRootKind {
    JniGlobal,
    JniLocal,
    JavaFrame,
    NativeStack,
    StickyClass,
    ThreadBlock,
    MonitorUsed,
    ThreadObject,
    Unknown,
}

/// The kind of a decoded GC root.
pub open spec fn kind_of(root_type: GcRootType) -> GcRootKind {
    match root_type {
        GcRootType::JniGlobal => GcRootKind::JniGlobal,
        GcRootType::JniLocal { .. } => GcRootKind::JniLocal,
        GcRootType::JavaFrame { .. } => GcRootKind::JavaFrame,
        GcRootType::NativeStack { .. } => GcRootKind::NativeStack,
        GcRootType::StickyClass => GcRootKind::StickyClass,
        GcRootType::ThreadBlock { .. } => GcRootKind::ThreadBlock,
        GcRootType::MonitorUsed => GcRootKind::MonitorUsed,
        GcRootType::ThreadObject { .. } => GcRootKind::ThreadObject,
        GcRootType::Unknown(_) => GcRootKind::Unknown,
    }
}

/// The kind of a decoded GC root.
pub fn gc_root_kind(root_type: GcRootType) -> (k: GcRootKind)
    ensures
        k == kind_of(root_type),
{
    match root_type {
        GcRootType::JniGlobal => GcRootKind::JniGlobal,
        GcRootType::JniLocal { .. } => GcRootKind::JniLocal,
        GcRootType::JavaFrame { .. } => GcRootKind::JavaFrame,
        GcRootType::NativeStack { .. } => GcRootKind::NativeStack,
        GcRootType::StickyClass => GcRootKind::StickyClass,
        GcRootType::ThreadBlock { .. } => GcRootKind::ThreadBlock,
        GcRootType::MonitorUsed => GcRootKind::MonitorUsed,
        GcRootType::ThreadObject { .. } => GcRootKind::ThreadObject,
        GcRootType::Unknown(_) => GcRootKind::Unknown,
    }
}


/// An item with its rank and the order in which it was offered.
#[derive(Debug)]
pub struct Ranked<T> {
    pub rank: u64,
    pub insertion_order: usize,
    pub item: T,
}

/// `(ra, oa)` is below `(rb, ob)`: smaller rank, or equal rank and offered
/// earlier.
pub open spec fn key_below(ra: u64, oa: int, rb: u64, ob: int) -> bool {
    ra < rb || (ra == rb && oa < ob)
}

/// Output order: larger rank first, then earlier offer.
pub open spec fn listed_before(ra: u64, oa: int, rb: u64, ob: int) -> bool {
    ra > rb || (ra == rb && oa < ob)
}

/// Keeps the `capacity` items with the largest ranks among all offered (on
/// equal ranks, the later offers).
pub struct TopNCollector<T> {
    capacity: usize,
    next_insertion_order: usize,
    entries: Vec<Ranked<T>>,
    offered: Ghost<Seq<(u64, T)>>,
}

impl<T> TopNCollector<T> {
    /// Every `(rank, item)` offered so far, in order.
    pub closed spec fn history(&self) -> Seq<(u64, T)> {
        self.offered@
    }

    /// The items currently kept.
    pub closed spec fn kept(&self) -> Seq<Ranked<T>> {
        self.entries@
    }

    /// The largest number of items kept.
    pub closed spec fn limit(&self) -> nat {
        self.capacity as nat
    }

    /// Whether the offer with index `j` is among the kept items.
    pub open spec fn keeps(&self, j: int) -> bool {
        exists|k: int| 0 <= k < self.kept().len() && #[trigger] self.kept()[k].insertion_order == j
    }

    /// The kept items are exactly the `limit` largest offers: each is a
    /// distinct offer with its own rank and item, there are as many as the
    /// limit allows, and every offer not kept is below every kept one.
    pub open spec fn wf(&self) -> bool {
        &&& self.kept().len() == (if self.history().len() < self.limit() { self.history().len() } else { self.limit() })
        &&& forall|k: int| 0 <= k < self.kept().len() ==> {
            &&& (#[trigger] self.kept()[k]).insertion_order < self.history().len()
            &&& self.history()[self.kept()[k].insertion_order as int].0 == self.kept()[k].rank
            &&& self.history()[self.kept()[k].insertion_order as int].1 == self.kept()[k].item
        }
        &&& forall|a: int, b: int| 0 <= a < self.kept().len() && 0 <= b < self.kept().len() && a != b
            ==> (#[trigger] self.kept()[a]).insertion_order != (#[trigger] self.kept()[b]).insertion_order
        &&& forall|j: int, k: int| #![trigger self.history()[j], self.kept()[k]]
            0 <= j < self.history().len() && !self.keeps(j) && 0 <= k < self.kept().len()
            ==> key_below(self.history()[j].0, j, self.kept()[k].rank, self.kept()[k].insertion_order as int)
        &&& self.history().len() <= self.limit() ==> forall|j: int| 0 <= j < self.history().len() ==> #[trigger] self.keeps(j)
        &&& self.inner_wf()
    }

    pub closed spec fn inner_wf(&self) -> bool {
        self.next_insertion_order == self.offered@.len()
    }

    /// An empty collector for at most `capacity` items.
    pub fn new(capacity: usize) -> (c: Self)
        ensures
            c.wf(),
            c.history().len() == 0,
            c.limit() == capacity,
    {
        TopNCollector { capacity, next_insertion_order: 0, entries: Vec::new(), offered: Ghost(Seq::empty()) }
    }

    /// Offers an item with a rank; it is kept if it is among the largest.
    pub fn push(&mut self, rank: u64, item: T)
        requires
            old(self).wf(),
            old(self).history().len() < usize::MAX,
        ensures
            final(self).wf(),
            final(self).history() == old(self).history().push((rank, item)),
            final(self).limit() == old(self).limit(),
    {
        if self.capacity == 0 {
            proof {
                self.offered = Ghost(self.offered@.push((rank, item)));
            }
            self.next_insertion_order = self.next_insertion_order + 1;
            return;
        }
        let order = self.next_insertion_order;
        let ghost old_hist = self.offered@;
        let ghost old_entries = self.entries@;
        proof {
            self.offered = Ghost(self.offered@.push((rank, item)));
        }
        self.next_insertion_order = order + 1;
        if self.entries.len() < self.capacity {
            self.entries.push(Ranked { rank, insertion_order: order, item });
            proof {
                assert forall|j: int, k: int| #![trigger self.history()[j], self.kept()[k]]
                    0 <= j < self.history().len() && !self.keeps(j) && 0 <= k < self.kept().len()
                    implies key_below(self.history()[j].0, j, self.kept()[k].rank, self.kept()[k].insertion_order as int) by {
                    if j < old_hist.len() {
                        assert(old_entries.len() == old_hist.len());
                        assert(old(self).keeps(j));
                        assert(exists|w: int| 0 <= w < old_entries.len() && #[trigger] old_entries[w].insertion_order == j);
                        let w = choose|w: int| 0 <= w < old_entries.len() && #[trigger] old_entries[w].insertion_order == j;
                        assert(self.kept()[w].insertion_order == j);
                    } else {
                        assert(self.kept()[old_entries.len() as int].insertion_order == j);
                    }
                }
                assert forall|j: int| 0 <= j < self.history().len() implies #[trigger] self.keeps(j) by {
                    if j < old_hist.len() {
                        assert(old(self).keeps(j));
                        assert(exists|w: int| 0 <= w < old_entries.len() && #[trigger] old_entries[w].insertion_order == j);
                        let w = choose|w: int| 0 <= w < old_entries.len() && #[trigger] old_entries[w].insertion_order == j;
                        assert(self.kept()[w].insertion_order == j);
                    } else {
                        assert(self.kept()[old_entries.len() as int].insertion_order == j);
                    }
                }
            }
            return;
        }
        let mut smallest: usize = 0;
        let mut k: usize = 1;
        while k < self.entries.len()
            invariant
                0 <= smallest < self.entries@.len(),
                1 <= k <= self.entries@.len(),
                smallest < k,
                forall|j: int| 0 <= j < k && j != smallest ==> key_below(
                    self.entries@[smallest as int].rank, self.entries@[smallest as int].insertion_order as int,
                    (#[trigger] self.entries@[j]).rank, self.entries@[j].insertion_order as int),
                forall|a: int, b: int| 0 <= a < self.entries@.len() && 0 <= b < self.entries@.len() && a != b
                    ==> (#[trigger] self.entries@[a]).insertion_order != (#[trigger] self.entries@[b]).insertion_order,
            decreases self.entries@.len() - k,
        {
            let e = &self.entries[k];
            let m = &self.entries[smallest];
            if e.rank < m.rank || (e.rank == m.rank && e.insertion_order < m.insertion_order) {
                smallest = k;
            }
            k = k + 1;
        }
        let m_rank = self.entries[smallest].rank;
        let m_order = self.entries[smallest].insertion_order;
        if rank > m_rank || (rank == m_rank && order > m_order) {
            self.entries[smallest] = Ranked { rank, insertion_order: order, item };
            proof {
                assert forall|j: int, k2: int| #![trigger self.history()[j], self.kept()[k2]]
                    0 <= j < self.history().len() && !self.keeps(j) && 0 <= k2 < self.kept().len()
                    implies key_below(self.history()[j].0, j, self.kept()[k2].rank, self.kept()[k2].insertion_order as int) by {
                    if j == m_order as int {
                        if k2 != smallest as int {
                            assert(self.kept()[k2] == old_entries[k2]);
                        }
                    } else if j < old_hist.len() {
                        if exists|w: int| 0 <= w < old_entries.len() && #[trigger] old_entries[w].insertion_order == j {
                            let w = choose|w: int| 0 <= w < old_entries.len() && #[trigger] old_entries[w].insertion_order == j;
                            assert(w != smallest as int);
                            assert(self.kept()[w].insertion_order == j);
                        }
                        if k2 != smallest as int {
                            assert(self.kept()[k2] == old_entries[k2]);
                        } else {
                            assert(key_below(old_hist[j].0, j, m_rank, m_order as int));
                        }
                    } else {
                        assert(self.kept()[smallest as int].insertion_order == j);
                    }
                }
                assert forall|a: int, b: int| 0 <= a < self.kept().len() && 0 <= b < self.kept().len() && a != b
                    implies (#[trigger] self.kept()[a]).insertion_order != (#[trigger] self.kept()[b]).insertion_order by {
                    if a != smallest as int {
                        assert(self.kept()[a] == old_entries[a]);
                    }
                    if b != smallest as int {
                        assert(self.kept()[b] == old_entries[b]);
                    }
                }
            }
        } else {
            proof {
                assert forall|j: int, k2: int| #![trigger self.history()[j], self.kept()[k2]]
                    0 <= j < self.history().len() && !self.keeps(j) && 0 <= k2 < self.kept().len()
                    implies key_below(self.history()[j].0, j, self.kept()[k2].rank, self.kept()[k2].insertion_order as int) by {
                    if j < old_hist.len() {
                        if exists|w: int| 0 <= w < old_entries.len() && #[trigger] old_entries[w].insertion_order == j {
                            let w = choose|w: int| 0 <= w < old_entries.len() && #[trigger] old_entries[w].insertion_order == j;
                            assert(self.kept()[w].insertion_order == j);
                        }
                    } else {
                        if k2 != smallest as int {
                            assert(key_below(m_rank, m_order as int, self.kept()[k2].rank, self.kept()[k2].insertion_order as int));
                        }
                    }
                }
            }
        }
    }
}


/// `os` lists the entries of `kept`, each once, largest rank first and
/// equal ranks in the order offered.
pub open spec fn is_listing<T>(os: Seq<Ranked<T>>, kept: Seq<Ranked<T>>) -> bool {
    &&& os.len() == kept.len()
    &&& forall|x: Ranked<T>| #[trigger] os.contains(x) <==> kept.contains(x)
    &&& forall|i: int, j: int| 0 <= i < j < os.len() ==> listed_before(
        (#[trigger] os[i]).rank, os[i].insertion_order as int,
        (#[trigger] os[j]).rank, os[j].insertion_order as int)
}

/// `out` lists the items of the `limit` largest offers of `hist` (by rank;
/// of equal ranks the later offer ranks higher), largest first and equal
/// ranks in the order offered.
pub open spec fn top_of_history<T>(out: Seq<T>, hist: Seq<(u64, T)>, limit: nat) -> bool {
    exists|idx: Seq<int>| {
        &&& idx.len() == out.len()
        &&& out.len() == (if hist.len() < limit { hist.len() } else { limit })
        &&& forall|i: int| 0 <= i < idx.len() ==> 0 <= #[trigger] idx[i] < hist.len() && out[i] == hist[idx[i]].1
        &&& forall|i: int, j: int| 0 <= i < j < idx.len() ==> listed_before(
            hist[#[trigger] idx[i]].0, idx[i], hist[#[trigger] idx[j]].0, idx[j])
        &&& forall|j: int, i: int| 0 <= j < hist.len() && !idx.contains(j) && 0 <= i < idx.len()
            ==> key_below((#[trigger] hist[j]).0, j, hist[#[trigger] idx[i]].0, idx[i])
    }
}

proof fn lemma_listing_is_top<T>(c: TopNCollector<T>, out: Seq<T>, os: Seq<Ranked<T>>)
    requires
        c.wf(),
        is_listing(os, c.kept()),
        out.len() == os.len(),
        forall|i: int| 0 <= i < os.len() ==> #[trigger] out[i] == os[i].item,
    ensures
        top_of_history(out, c.history(), c.limit()),
{
    let h = c.history();
    let kept = c.kept();
    let idx = Seq::new(os.len(), |i: int| os[i].insertion_order as int);
    assert forall|i: int| 0 <= i < os.len() implies {
        &&& 0 <= idx[i] < h.len()
        &&& h[idx[i]].0 == os[i].rank
        &&& h[idx[i]].1 == os[i].item
    } by {
        assert(os.contains(os[i]));
        assert(kept.contains(os[i]));
        let k = choose|k: int| 0 <= k < kept.len() && kept[k] == os[i];
        assert(kept[k].insertion_order < h.len());
    }
    assert forall|i: int| 0 <= i < idx.len() implies 0 <= #[trigger] idx[i] < h.len() && out[i] == h[idx[i]].1 by {
        assert(h[idx[i]].1 == os[i].item);
    }
    assert forall|i: int, j: int| 0 <= i < j < idx.len() implies listed_before(
        h[#[trigger] idx[i]].0, idx[i], h[#[trigger] idx[j]].0, idx[j]) by {
        assert(h[idx[i]].0 == os[i].rank);
        assert(h[idx[j]].0 == os[j].rank);
    }
    assert forall|j: int, i: int| 0 <= j < h.len() && !idx.contains(j) && 0 <= i < idx.len()
        implies key_below((#[trigger] h[j]).0, j, h[#[trigger] idx[i]].0, idx[i]) by {
        if c.keeps(j) {
            let k = choose|k: int| 0 <= k < kept.len() && #[trigger] kept[k].insertion_order == j;
            assert(kept.contains(kept[k]));
            assert(os.contains(kept[k]));
            let i2 = choose|i2: int| 0 <= i2 < os.len() && os[i2] == kept[k];
            assert(idx[i2] == j);
            assert(idx.contains(j));
        }
        assert(os.contains(os[i]));
        assert(kept.contains(os[i]));
        let k = choose|k: int| 0 <= k < kept.len() && kept[k] == os[i];
        assert(key_below(h[j].0, j, kept[k].rank, kept[k].insertion_order as int));
        assert(h[idx[i]].0 == os[i].rank);
    }
}

impl<T> TopNCollector<T> {
    /// The kept items, largest rank first; equal ranks in the order offered.
    pub fn into_sorted_vec_desc(self) -> (out: Vec<T>)
        requires
            self.wf(),
        ensures
            exists|os: Seq<Ranked<T>>| #[trigger] is_listing(os, self.kept()) && out@.len() == os.len()
                && forall|i: int| 0 <= i < os.len() ==> #[trigger] out@[i] == os[i].item,
            top_of_history(out@, self.history(), self.limit()),
    {
        let ghost all = self.entries@;
        let mut rest = self.entries;
        let mut out: Vec<T> = Vec::new();
        let ghost mut os: Seq<Ranked<T>> = Seq::empty();
        while rest.len() > 0
            invariant
                forall|a: int, b: int| 0 <= a < all.len() && 0 <= b < all.len() && a != b
                    ==> (#[trigger] all[a]).insertion_order != (#[trigger] all[b]).insertion_order,
                forall|x: Ranked<T>| #[trigger] all.contains(x) <==> (os.contains(x) || rest@.contains(x)),
                forall|j: int| 0 <= j < rest@.len() ==> all.contains(#[trigger] rest@[j]),
                forall|a: int, b: int| 0 <= a < rest@.len() && 0 <= b < rest@.len() && a != b
                    ==> (#[trigger] rest@[a]).insertion_order != (#[trigger] rest@[b]).insertion_order,
                forall|i: int, j: int| 0 <= i < j < os.len() ==> listed_before(
                    (#[trigger] os[i]).rank, os[i].insertion_order as int,
                    (#[trigger] os[j]).rank, os[j].insertion_order as int),
                forall|i: int, j: int| 0 <= i < os.len() && 0 <= j < rest@.len() ==> listed_before(
                    (#[trigger] os[i]).rank, os[i].insertion_order as int,
                    (#[trigger] rest@[j]).rank, rest@[j].insertion_order as int),
                os.len() + rest@.len() == all.len(),
                out@.len() == os.len(),
                forall|i: int| 0 <= i < os.len() ==> #[trigger] out@[i] == os[i].item,
            decreases rest@.len(),
        {
            let mut best: usize = 0;
            let mut i: usize = 1;
            while i < rest.len()
                invariant
                    0 <= best < rest@.len(),
                    1 <= i <= rest@.len(),
                    best < i,
                    forall|j: int| 0 <= j < i && j != best ==> listed_before(
                        rest@[best as int].rank, rest@[best as int].insertion_order as int,
                        (#[trigger] rest@[j]).rank, rest@[j].insertion_order as int),
                    forall|a: int, b: int| 0 <= a < rest@.len() && 0 <= b < rest@.len() && a != b
                        ==> (#[trigger] rest@[a]).insertion_order != (#[trigger] rest@[b]).insertion_order,
                decreases rest@.len() - i,
            {
                let e = &rest[i];
                let b = &rest[best];
                if e.rank > b.rank || (e.rank == b.rank && e.insertion_order < b.insertion_order) {
                    best = i;
                }
                i = i + 1;
            }
            let ghost old_rest = rest@;
            let ghost old_os = os;
            let e = rest.remove(best);
            proof {
                os = os.push(e);
            }
            out.push(e.item);
            proof {
                assert(rest@ == old_rest.remove(best as int));
                assert forall|j: int| 0 <= j < rest@.len() implies #[trigger] rest@[j] == old_rest[if j < best { j } else { j + 1 }] by {}
                assert forall|x: Ranked<T>| #[trigger] all.contains(x) <==> (os.contains(x) || rest@.contains(x)) by {
                    if old_rest.contains(x) {
                        let w = choose|w: int| 0 <= w < old_rest.len() && old_rest[w] == x;
                        if w == best {
                            assert(os[os.len() - 1] == x);
                        } else if w < best {
                            assert(rest@[w] == x);
                        } else {
                            assert(rest@[w - 1] == x);
                        }
                    }
                    if old_os.contains(x) {
                        let w = choose|w: int| 0 <= w < old_os.len() && old_os[w] == x;
                        assert(os[w] == x);
                    }
                    if os.contains(x) {
                        let w = choose|w: int| 0 <= w < os.len() && os[w] == x;
                        if w < old_os.len() {
                            assert(old_os[w] == x);
                        } else {
                            assert(old_rest[best as int] == x);
                        }
                    }
                    if rest@.contains(x) {
                        let w = choose|w: int| 0 <= w < rest@.len() && rest@[w] == x;
                    }
                }
                assert forall|i2: int, j: int| 0 <= i2 < os.len() && 0 <= j < rest@.len() implies listed_before(
                    (#[trigger] os[i2]).rank, os[i2].insertion_order as int,
                    (#[trigger] rest@[j]).rank, rest@[j].insertion_order as int) by {
                    let oj = if j < best { j } else { j + 1 };
                    if i2 < old_os.len() {
                        assert(os[i2] == old_os[i2]);
                    } else {
                        assert(oj != best);
                    }
                }
                assert forall|i2: int| 0 <= i2 < os.len() implies #[trigger] out@[i2] == os[i2].item by {}
            }
        }
        proof {
            assert forall|x: Ranked<T>| #[trigger] os.contains(x) <==> self.kept().contains(x) by {}
            assert(is_listing(os, self.kept()));
            lemma_listing_is_top(self, out@, os);
        }
        out
    }
}


/// Default number of classes listed in an overview.
pub const DEFAULT_TOP_N_CLASSES: usize = 50;
/// Default number of instances listed in an overview.
pub const DEFAULT_TOP_N_INSTANCES: usize = 25;
/// Default bound on the number of distinct classes tallied.
pub const DEFAULT_MAX_CLASS_TABLE_SIZE: usize = 200000;
/// Default number of thread frames kept.
pub const DEFAULT_MAX_THREAD_FRAMES: usize = 1024;

/// Bounds of an overview pass.
#[derive(Debug, Clone, Copy, PartialEq, Eq, Structural)]
pub struct OverviewOptions {
    pub top_n_classes: usize,
    pub top_n_instances: usize,
    pub max_class_table_size: usize,
    pub max_thread_frames: usize,
}

impl Default for OverviewOptions {
    fn default() -> (o: Self)
        ensures
            o.top_n_classes == DEFAULT_TOP_N_CLASSES,
            o.top_n_instances == DEFAULT_TOP_N_INSTANCES,
            o.max_class_table_size == DEFAULT_MAX_CLASS_TABLE_SIZE,
            o.max_thread_frames == DEFAULT_MAX_THREAD_FRAMES,
    {
        OverviewOptions {
            top_n_classes: DEFAULT_TOP_N_CLASSES,
            top_n_instances: DEFAULT_TOP_N_INSTANCES,
            max_class_table_size: DEFAULT_MAX_CLASS_TABLE_SIZE,
            max_thread_frames: DEFAULT_MAX_THREAD_FRAMES,
        }
    }
}

/// Instances and approximate bytes of one class.
#[derive(Debug, Clone, PartialEq, Eq)]
pub struct OverviewClassStat {
    pub class_id: u64,
    pub class_name: String,
    pub instance_count: u64,
    pub approx_shallow_bytes: u64,
}

/// The listed classes, and whether classes were left out.
#[derive(Debug, Clone, PartialEq, Eq)]
pub struct OverviewClassStats {
    pub entries: Vec<OverviewClassStat>,
    pub truncated: bool,
}

/// One large heap object; its size is the size of its dump record, a
/// shallow measure despite the field's name.
#[derive(Debug, Clone, PartialEq, Eq)]
pub struct OverviewInstanceStat {
    pub object_id: u64,
    pub class_id: u64,
    pub class_name: String,
    pub approx_retained_bytes: u64,
}

/// One frame of a thread's stack trace.
#[derive(Debug, Clone, PartialEq, Eq)]
pub struct OverviewThreadFrame {
    pub thread_serial: u32,
    pub class_name: String,
    pub method_name: String,
    pub source_file: String,
    pub line_number: i32,
}

/// `<unresolved class id 0x…>` with the id in lowercase hexadecimal.
pub open spec fn unresolved_name(class_id: u64) -> Seq<char> {
    "<unresolved class id 0x"@ + hex_chars(class_id as nat, false) + ">"@
}

/// The placeholder name of a class whose name was never seen.
pub fn unresolved_class_name(class_id: u64) -> (s: String)
    ensures
        s@ == unresolved_name(class_id),
{
    let mut out: Vec<char> = Vec::new();
    push_str(&mut out, "<unresolved class id 0x");
    push_hex(&mut out, class_id, false);
    push_str(&mut out, ">");
    string_from_chars(&out)
}

/// Count of GC roots per kind.
#[derive(Debug, Clone, PartialEq, Eq)]
pub struct GcRootCounts {
    entries: Vec<(GcRootKind, u64)>,
}

impl GcRootCounts {
    /// The count recorded for each kind that occurred.
    pub closed spec fn counts(&self) -> Map<GcRootKind, u64> {
        Map::new(
            |k: GcRootKind| exists|i: int| 0 <= i < self.entries@.len() && #[trigger] self.entries@[i].0 == k,
            |k: GcRootKind| self.entries@[choose|i: int| 0 <= i < self.entries@.len() && #[trigger] self.entries@[i].0 == k].1,
        )
    }

    pub closed spec fn wf(&self) -> bool {
        forall|a: int, b: int| 0 <= a < self.entries@.len() && 0 <= b < self.entries@.len() && a != b
            ==> (#[trigger] self.entries@[a]).0 != (#[trigger] self.entries@[b]).0
    }

    /// No kind counted.
    pub fn new() -> (c: Self)
        ensures
            c.wf(),
            c.counts() == Map::<GcRootKind, u64>::empty(),
    {
        let c = GcRootCounts { entries: Vec::new() };
        proof {
            assert(c.counts() =~= Map::<GcRootKind, u64>::empty());
        }
        c
    }

    /// The count of a kind, if it occurred.
    pub fn get(&self, kind: &GcRootKind) -> (res: Option<&u64>)
        requires
            self.wf(),
        ensures
            match res {
                Some(v) => self.counts().contains_key(*kind) && *v == self.counts()[*kind],
                None => !self.counts().contains_key(*kind),
            },
    {
        let mut i: usize = 0;
        while i < self.entries.len()
            invariant
                self.wf(),
                i <= self.entries@.len(),
                forall|j: int| 0 <= j < i ==> self.entries@[j].0 != *kind,
            decreases self.entries@.len() - i,
        {
            if self.entries[i].0 == *kind {
                proof {
                    assert(self.entries@[i as int].0 == *kind);
                    assert(self.counts().contains_key(*kind));
                    let c = choose|j: int| 0 <= j < self.entries@.len() && #[trigger] self.entries@[j].0 == *kind;
                    assert(c == i);
                }
                return Some(&self.entries[i].1);
            }
            i = i + 1;
        }
        None
    }

    /// Number of kinds that occurred.
    pub fn len(&self) -> (n: usize)
        requires
            self.wf(),
        ensures
            n == self.counts().len(),
    {
        proof {
            let f = |i: int| self.entries@[i].0;
            assert(self.counts().dom() =~= Set::new(|k: GcRootKind| exists|i: int| 0 <= i < self.entries@.len() && #[trigger] self.entries@[i].0 == k));
            let ks = self.entries@.map_values(|e: (GcRootKind, u64)| e.0);
            assert(self.counts().dom() =~= ks.to_set()) by {
                assert forall|k: GcRootKind| self.counts().dom().contains(k) <==> ks.to_set().contains(k) by {
                    if self.counts().dom().contains(k) {
                        let i = choose|i: int| 0 <= i < self.entries@.len() && #[trigger] self.entries@[i].0 == k;
                        assert(ks[i] == k);
                    }
                    if ks.to_set().contains(k) {
                        let i = choose|i: int| 0 <= i < ks.len() && ks[i] == k;
                        assert(self.entries@[i].0 == k);
                    }
                }
            }
            assert(ks.no_duplicates());
            ks.unique_seq_to_set();
        }
        self.entries.len()
    }

    /// Adds one to the count of a kind.
    pub fn increment(&mut self, kind: GcRootKind)
        requires
            old(self).wf(),
            old(self).counts().contains_key(kind) ==> old(self).counts()[kind] < u64::MAX,
        ensures
            final(self).wf(),
            final(self).counts() == old(self).counts().insert(
                kind,
                if old(self).counts().contains_key(kind) { (old(self).counts()[kind] + 1) as u64 } else { 1u64 },
            ),
    {
        let ghost old_entries = self.entries@;
        let mut i: usize = 0;
        while i < self.entries.len()
            invariant
                old(self).wf(),
                old(self).counts().contains_key(kind) ==> old(self).counts()[kind] < u64::MAX,
                old_entries == old(self).entries@,
                i <= self.entries@.len(),
                self.entries@ == old_entries,
                forall|j: int| 0 <= j < i ==> self.entries@[j].0 != kind,
            decreases self.entries@.len() - i,
        {
            if self.entries[i].0 == kind {
                proof {
                    assert(old_entries[i as int].0 == kind);
                    assert(old(self).counts().contains_key(kind));
                    let c = choose|j: int| 0 <= j < old_entries.len() && #[trigger] old_entries[j].0 == kind;
                    assert(c == i);
                }
                let v = self.entries[i].1;
                proof {
                    assert(old(self).counts()[kind] == v);
                }
                self.entries[i] = (kind, v + 1);
                proof {
                    assert forall|j: int| 0 <= j < self.entries@.len() && j != i implies #[trigger] self.entries@[j] == old_entries[j] by {}
                    assert(self.counts() =~= old(self).counts().insert(kind, (v + 1) as u64)) by {
                        assert forall|k: GcRootKind| self.counts().contains_key(k) <==> old(self).counts().insert(kind, (v + 1) as u64).contains_key(k) by {
                            if old(self).counts().contains_key(k) {
                                let c = choose|j: int| 0 <= j < old_entries.len() && #[trigger] old_entries[j].0 == k;
                                assert(self.entries@[c].0 == k);
                            }
                            if self.counts().contains_key(k) {
                                let c = choose|j: int| 0 <= j < self.entries@.len() && #[trigger] self.entries@[j].0 == k;
                                assert(old_entries[c].0 == k);
                            }
                        }
                        assert forall|k: GcRootKind| self.counts().contains_key(k) implies self.counts()[k] == old(self).counts().insert(kind, (v + 1) as u64)[k] by {
                            let c = choose|j: int| 0 <= j < self.entries@.len() && #[trigger] self.entries@[j].0 == k;
                            if k != kind {
                                let c0 = choose|j: int| 0 <= j < old_entries.len() && #[trigger] old_entries[j].0 == k;
                                assert(c == c0);
                            }
                        }
                    }
                }
                return;
            }
            i = i + 1;
        }
        self.entries.push((kind, 1));
        proof {
            assert(!old(self).counts().contains_key(kind));
            assert(self.counts() =~= old(self).counts().insert(kind, 1u64)) by {
                assert forall|k: GcRootKind| self.counts().contains_key(k) <==> old(self).counts().insert(kind, 1u64).contains_key(k) by {
                    if old(self).counts().contains_key(k) {
                        let c = choose|j: int| 0 <= j < old_entries.len() && #[trigger] old_entries[j].0 == k;
                        assert(self.entries@[c].0 == k);
                    }
                    if k == kind {
                        assert(self.entries@[old_entries.len() as int].0 == k);
                    }
                    if self.counts().contains_key(k) && k != kind {
                        let c = choose|j: int| 0 <= j < self.entries@.len() && #[trigger] self.entries@[j].0 == k;
                        assert(old_entries[c].0 == k);
                    }
                }
                assert forall|k: GcRootKind| self.counts().contains_key(k) implies self.counts()[k] == old(self).counts().insert(kind, 1u64)[k] by {
                    let c = choose|j: int| 0 <= j < self.entries@.len() && #[trigger] self.entries@[j].0 == k;
                    if k != kind {
                        let c0 = choose|j: int| 0 <= j < old_entries.len() && #[trigger] old_entries[j].0 == k;
                        assert(self.entries@[c0].0 == k);
                        assert(c == c0);
                    } else {
                        assert(c == old_entries.len());
                    }
                }
            }
        }
    }
}


/// Counts GC roots by kind during a pass.
pub struct GcRootCounter {
    counts: GcRootCounts,
}

impl Default for GcRootCounter {
    fn default() -> (c: Self)
        ensures
            c.view().wf(),
            c.view().counts() == Map::<GcRootKind, u64>::empty(),
    {
        GcRootCounter { counts: GcRootCounts::new() }
    }
}

impl GcRootCounter {
    /// The counts so far.
    pub closed spec fn view(&self) -> GcRootCounts {
        self.counts
    }

    /// Counts one more root of `kind`.
    pub fn increment(&mut self, kind: GcRootKind)
        requires
            old(self).view().wf(),
            old(self).view().counts().contains_key(kind) ==> old(self).view().counts()[kind] < u64::MAX,
        ensures
            final(self).view().wf(),
            final(self).view().counts() == old(self).view().counts().insert(
                kind,
                if old(self).view().counts().contains_key(kind) { (old(self).view().counts()[kind] + 1) as u64 } else { 1u64 },
            ),
    {
        self.counts.increment(kind);
    }

    /// The final counts.
    pub fn into_counts(self) -> (c: GcRootCounts)
        ensures
            c == self.view(),
    {
        self.counts
    }
}

/// The most recent thread frames, up to a limit.
pub struct ThreadFrameBuffer {
    max_thread_frames: usize,
    truncated: bool,
    frames: VecDeque<OverviewThreadFrame>,
    pushed: Ghost<Seq<OverviewThreadFrame>>,
}

impl ThreadFrameBuffer {
    /// Every frame pushed so far.
    pub closed spec fn history(&self) -> Seq<OverviewThreadFrame> {
        self.pushed@
    }

    /// The largest number of frames kept.
    pub closed spec fn limit(&self) -> nat {
        self.max_thread_frames as nat
    }

    /// The frames kept are the last `limit` pushed, oldest first, and the
    /// buffer is marked truncated exactly when more were pushed.
    pub closed spec fn wf(&self) -> bool {
        let n = self.pushed@.len();
        let keep = if n < self.max_thread_frames { n } else { self.max_thread_frames as nat };
        &&& self.frames@ == self.pushed@.skip(n - keep)
        &&& self.truncated == (n > self.max_thread_frames)
    }

    /// An empty buffer keeping at most `max_thread_frames` frames.
    pub fn new(max_thread_frames: usize) -> (b: Self)
        ensures
            b.wf(),
            b.history().len() == 0,
            b.limit() == max_thread_frames,
    {
        let b = ThreadFrameBuffer { max_thread_frames, truncated: false, frames: VecDeque::new(), pushed: Ghost(Seq::empty()) };
        proof {
            assert(b.frames@ =~= b.pushed@.skip(0));
        }
        b
    }

    /// Keeps a frame, dropping the oldest when full.
    pub fn push(&mut self, frame: OverviewThreadFrame)
        requires
            old(self).wf(),
        ensures
            final(self).wf(),
            final(self).history() == old(self).history().push(frame),
            final(self).limit() == old(self).limit(),
    {
        let ghost old_pushed = self.pushed@;
        proof {
            self.pushed = Ghost(self.pushed@.push(frame));
        }
        if self.max_thread_frames == 0 {
            self.truncated = true;
            proof {
                assert(self.frames@ =~= self.pushed@.skip(self.pushed@.len() as int));
            }
            return;
        }
        let ghost n = old_pushed.len();
        if self.frames.len() == self.max_thread_frames {
            let _ = self.frames.pop_front();
            self.truncated = true;
        }
        self.frames.push_back(frame);
        proof {
            let keep_old = if n < self.max_thread_frames { n } else { self.max_thread_frames as nat };
            let m = n + 1;
            let keep = if m < self.max_thread_frames { m } else { self.max_thread_frames as nat };
            assert(self.frames@ =~= self.pushed@.skip(m - keep));
        }
    }

    /// The kept frames, oldest first, and whether any were dropped.
    pub fn into_frames(self) -> (res: (Vec<OverviewThreadFrame>, bool))
        requires
            self.wf(),
        ensures
            res.0@ == self.history().skip(self.history().len() - (if self.history().len() < self.limit() {
                self.history().len()
            } else {
                self.limit()
            })),
            res.1 == (self.history().len() > self.limit()),
    {
        let ghost kept = self.frames@;
        let mut frames = self.frames;
        let mut out: Vec<OverviewThreadFrame> = Vec::new();
        while frames.len() > 0
            invariant
                out@ + frames@ == kept,
            decreases frames@.len(),
        {
            let f = frames.pop_front().unwrap();
            out.push(f);
            proof {
                assert(out@ + frames@ =~= kept);
            }
        }
        proof {
            assert(out@ =~= kept);
        }
        (out, self.truncated)
    }
}


/// Instances and approximate bytes seen for one class.
#[derive(Debug, Clone, Copy, PartialEq, Eq, Structural)]
pub struct ClassTally {
    pub instance_count: u64,
    pub approx_shallow_bytes: u64,
}

/// `stats` lists the `top_n` tallies with the most bytes, largest first,
/// each under its recorded name or a placeholder, and is marked truncated
/// when the table was full or tallies were left out.
pub open spec fn top_class_stats(
    stats: OverviewClassStats,
    tallies: Map<u64, ClassTally>,
    table_truncated: bool,
    class_names: Map<u64, String>,
    top_n: usize,
) -> bool {
    &&& stats.entries@.len() == (if top_n < tallies.len() { top_n as int } else { tallies.len() as int })
    &&& forall|i: int| 0 <= i < stats.entries@.len() ==> {
        let e = #[trigger] stats.entries@[i];
        &&& tallies.contains_key(e.class_id)
        &&& e.instance_count == tallies[e.class_id].instance_count
        &&& e.approx_shallow_bytes == tallies[e.class_id].approx_shallow_bytes
        &&& e.class_name@ == (if class_names.contains_key(e.class_id) { class_names[e.class_id]@ } else {
            unresolved_name(e.class_id)
        })
    }
    &&& forall|i: int, j: int| 0 <= i < j < stats.entries@.len() ==> (#[trigger] stats.entries@[i]).approx_shallow_bytes
        >= (#[trigger] stats.entries@[j]).approx_shallow_bytes && stats.entries@[i].class_id != stats.entries@[j].class_id
    &&& forall|c: u64| #[trigger] tallies.contains_key(c) && (forall|i: int| 0 <= i < stats.entries@.len() ==> stats.entries@[i].class_id != c)
        ==> forall|i: int| 0 <= i < stats.entries@.len() ==> tallies[c].approx_shallow_bytes <= #[trigger] stats.entries@[i].approx_shallow_bytes
    &&& stats.truncated == (table_truncated || stats.entries@.len() < tallies.len())
}

/// Tallies instances per class id, for at most a bounded number of classes.
pub struct ClassAccumulator {
    max_class_table_size: usize,
    truncated: bool,
    by_id: HashMap<u64, ClassTally>,
}

impl ClassAccumulator {
    /// The tally of every class seen (within the bound).
    pub closed spec fn tallies(&self) -> Map<u64, ClassTally> {
        self.by_id@
    }

    /// Whether a class was turned away because the table was full.
    pub closed spec fn is_truncated(&self) -> bool {
        self.truncated
    }

    /// The largest number of classes tallied.
    pub closed spec fn limit(&self) -> nat {
        self.max_class_table_size as nat
    }

    /// An empty accumulator for at most `max_class_table_size` classes.
    pub fn new(max_class_table_size: usize) -> (a: Self)
        ensures
            a.tallies() == Map::<u64, ClassTally>::empty(),
            !a.is_truncated(),
            a.limit() == max_class_table_size,
    {
        ClassAccumulator { max_class_table_size, truncated: false, by_id: HashMap::new() }
    }

    /// Counts one instance of `class_id` of about `approx_shallow_bytes`;
    /// a new class is turned away (and the accumulator marked truncated)
    /// when the table is full.
    pub fn add(&mut self, class_id: u64, approx_shallow_bytes: u64)
        requires
            old(self).tallies().contains_key(class_id) ==> {
                &&& old(self).tallies()[class_id].instance_count < u64::MAX
                &&& old(self).tallies()[class_id].approx_shallow_bytes + approx_shallow_bytes <= u64::MAX
            },
        ensures
            final(self).limit() == old(self).limit(),
            old(self).tallies().contains_key(class_id) ==> {
                &&& final(self).tallies() == old(self).tallies().insert(class_id, ClassTally {
                    instance_count: (old(self).tallies()[class_id].instance_count + 1) as u64,
                    approx_shallow_bytes: (old(self).tallies()[class_id].approx_shallow_bytes + approx_shallow_bytes) as u64,
                })
                &&& final(self).is_truncated() == old(self).is_truncated()
            },
            !old(self).tallies().contains_key(class_id) && old(self).tallies().len() >= old(self).limit() ==> {
                &&& final(self).tallies() == old(self).tallies()
                &&& final(self).is_truncated()
            },
            !old(self).tallies().contains_key(class_id) && old(self).tallies().len() < old(self).limit() ==> {
                &&& final(self).tallies() == old(self).tallies().insert(class_id, ClassTally {
                    instance_count: 1,
                    approx_shallow_bytes,
                })
                &&& final(self).is_truncated() == old(self).is_truncated()
            },
    {
        match self.by_id.get(&class_id) {
            Some(t) => {
                let updated = ClassTally {
                    instance_count: t.instance_count + 1,
                    approx_shallow_bytes: t.approx_shallow_bytes + approx_shallow_bytes,
                };
                self.by_id.insert(class_id, updated);
                return;
            },
            None => {},
        }
        if self.by_id.len() >= self.max_class_table_size {
            self.truncated = true;
            return;
        }
        self.by_id.insert(class_id, ClassTally { instance_count: 1, approx_shallow_bytes });
    }

    /// The `top_n` classes with the most approximate bytes, largest first,
    /// named from `class_names` (or a placeholder); truncated when the table
    /// was full or classes were left out.
    pub fn into_top_class_stats(self, class_names: &HashMap<u64, String>, top_n: usize) -> (stats: OverviewClassStats)
        ensures
            top_class_stats(stats, self.tallies(), self.is_truncated(), class_names@, top_n),
    {
        let total_classes = self.by_id.len();
        let keys = crate::util::map_keys(&self.by_id);
        let mut collector: TopNCollector<OverviewClassStat> = TopNCollector::new(top_n);
        let ghost tallies = self.by_id@;
        let mut i: usize = 0;
        while i < keys.len()
            invariant
                i <= keys@.len(),
                tallies == self.by_id@,
                keys@.to_set() == tallies.dom(),
                keys@.no_duplicates(),
                keys@.len() == tallies.len(),
                forall|k: int| 0 <= k < keys@.len() ==> tallies.contains_key(#[trigger] keys@[k]),
                collector.wf(),
                collector.limit() == top_n,
                collector.history().len() == i,
                forall|j: int| 0 <= j < i ==> {
                    let h = #[trigger] collector.history()[j];
                    &&& h.1.class_id == keys@[j]
                    &&& h.0 == tallies[keys@[j]].approx_shallow_bytes
                    &&& h.1.approx_shallow_bytes == tallies[keys@[j]].approx_shallow_bytes
                    &&& h.1.instance_count == tallies[keys@[j]].instance_count
                    &&& h.1.class_name@ == (if class_names@.contains_key(keys@[j]) { class_names@[keys@[j]]@ } else {
                        unresolved_name(keys@[j])
                    })
                },
            decreases keys@.len() - i,
        {
            let class_id = keys[i];
            let tally = *self.by_id.get(&class_id).unwrap();
            let class_name = match class_names.get(&class_id) {
                Some(n) => n.clone(),
                None => unresolved_class_name(class_id),
            };
            collector.push(tally.approx_shallow_bytes, OverviewClassStat {
                class_id,
                class_name,
                instance_count: tally.instance_count,
                approx_shallow_bytes: tally.approx_shallow_bytes,
            });
            i = i + 1;
        }
        let ghost kept = collector.kept();
        let ghost hist = collector.history();
        let entries = collector.into_sorted_vec_desc();
        let stats = OverviewClassStats { truncated: self.truncated || entries.len() < total_classes, entries };
        proof {
            let os = choose|os: Seq<Ranked<OverviewClassStat>>| #[trigger] is_listing(os, kept) && stats.entries@.len() == os.len()
                && forall|i2: int| 0 <= i2 < os.len() ==> #[trigger] stats.entries@[i2] == os[i2].item;
            assert forall|i2: int| 0 <= i2 < stats.entries@.len() implies {
                let e = #[trigger] stats.entries@[i2];
                &&& self.tallies().contains_key(e.class_id)
                &&& e.instance_count == self.tallies()[e.class_id].instance_count
                &&& e.approx_shallow_bytes == self.tallies()[e.class_id].approx_shallow_bytes
                &&& e.class_name@ == (if class_names@.contains_key(e.class_id) { class_names@[e.class_id]@ } else {
                    unresolved_name(e.class_id)
                })
                &&& e.approx_shallow_bytes == os[i2].rank
                &&& e.class_id == keys@[os[i2].insertion_order as int]
            } by {
                assert(os.contains(os[i2]));
                assert(kept.contains(os[i2]));
                let k = choose|k: int| 0 <= k < kept.len() && kept[k] == os[i2];
                let j = kept[k].insertion_order as int;
                assert(hist[j].1 == kept[k].item);
                assert(hist[j] == collector.history()[j]);
            }
            assert forall|a: int, b: int| 0 <= a < b < stats.entries@.len() implies (#[trigger] stats.entries@[a]).approx_shallow_bytes
                >= (#[trigger] stats.entries@[b]).approx_shallow_bytes && stats.entries@[a].class_id != stats.entries@[b].class_id by {
                assert(listed_before(os[a].rank, os[a].insertion_order as int, os[b].rank, os[b].insertion_order as int));
                assert(os.contains(os[a]) && os.contains(os[b]));
                assert(kept.contains(os[a]) && kept.contains(os[b]));
                let ka = choose|k: int| 0 <= k < kept.len() && kept[k] == os[a];
                let kb = choose|k: int| 0 <= k < kept.len() && kept[k] == os[b];
                assert(ka != kb);
                assert(kept[ka].insertion_order != kept[kb].insertion_order);
                assert(keys@[os[a].insertion_order as int] != keys@[os[b].insertion_order as int]);
            }
            assert forall|c: u64| #[trigger] self.tallies().contains_key(c) && (forall|i2: int| 0 <= i2 < stats.entries@.len() ==> stats.entries@[i2].class_id != c)
                implies forall|i2: int| 0 <= i2 < stats.entries@.len() ==> self.tallies()[c].approx_shallow_bytes <= #[trigger] stats.entries@[i2].approx_shallow_bytes by {
                assert(keys@.to_set().contains(c));
                let j = choose|j: int| 0 <= j < keys@.len() && keys@[j] == c;
                assert(hist[j].1.class_id == c);
                if collector.keeps(j) {
                    let k = choose|k: int| 0 <= k < kept.len() && #[trigger] kept[k].insertion_order == j;
                    assert(kept.contains(kept[k]));
                    assert(os.contains(kept[k]));
                    let w = choose|w: int| 0 <= w < os.len() && os[w] == kept[k];
                    assert(stats.entries@[w].class_id == c);
                }
                assert forall|i2: int| 0 <= i2 < stats.entries@.len() implies self.tallies()[c].approx_shallow_bytes <= #[trigger] stats.entries@[i2].approx_shallow_bytes by {
                    assert(os.contains(os[i2]));
                    assert(kept.contains(os[i2]));
                    let k = choose|k: int| 0 <= k < kept.len() && kept[k] == os[i2];
                    assert(key_below(hist[j].0, j, kept[k].rank, kept[k].insertion_order as int));
                }
            }
        }
        stats
    }
}


/// Everything an overview pass accumulates.
pub struct OverviewAccumulators {
    options: OverviewOptions,
    class_names: HashMap<u64, String>,
    total_instances: u64,
    classes: ClassAccumulator,
    top_instances: TopNCollector<OverviewInstanceStat>,
    gc_root_counts: GcRootCounter,
    thread_frames: ThreadFrameBuffer,
}

impl OverviewAccumulators {
    pub closed spec fn options_of(&self) -> OverviewOptions {
        self.options
    }

    /// Names recorded per class id.
    pub closed spec fn names(&self) -> Map<u64, String> {
        self.class_names@
    }

    /// Instances counted.
    pub closed spec fn instance_total(&self) -> u64 {
        self.total_instances
    }

    pub closed spec fn class_table(&self) -> ClassAccumulator {
        self.classes
    }

    pub closed spec fn instances(&self) -> TopNCollector<OverviewInstanceStat> {
        self.top_instances
    }

    pub closed spec fn roots(&self) -> GcRootCounts {
        self.gc_root_counts.view()
    }

    pub closed spec fn frames(&self) -> ThreadFrameBuffer {
        self.thread_frames
    }

    /// The component invariants.
    pub open spec fn wf(&self) -> bool {
        &&& self.instances().wf()
        &&& self.roots().wf()
        &&& self.frames().wf()
        &&& self.class_table().limit() == self.options_of().max_class_table_size
        &&& self.instances().limit() == self.options_of().top_n_instances
        &&& self.frames().limit() == self.options_of().max_thread_frames
    }

    /// Empty accumulators bounded by `options`.
    pub fn new(options: OverviewOptions) -> (a: Self)
        ensures
            a.wf(),
            a.options_of() == options,
            a.names() == Map::<u64, String>::empty(),
            a.instance_total() == 0,
            a.class_table().tallies() == Map::<u64, ClassTally>::empty(),
            !a.class_table().is_truncated(),
            a.instances().history().len() == 0,
            a.roots().counts() == Map::<GcRootKind, u64>::empty(),
            a.frames().history().len() == 0,
    {
        OverviewAccumulators {
            classes: ClassAccumulator::new(options.max_class_table_size),
            total_instances: 0,
            top_instances: TopNCollector::new(options.top_n_instances),
            gc_root_counts: GcRootCounter::default(),
            thread_frames: ThreadFrameBuffer::new(options.max_thread_frames),
            class_names: HashMap::new(),
            options,
        }
    }

    /// Records the name of a class.
    pub fn record_class_name(&mut self, class_id: u64, class_name: &str)
        requires
            old(self).wf(),
        ensures
            final(self).wf(),
            final(self).names().contains_key(class_id),
            final(self).names()[class_id]@ == class_name@,
            final(self).names().remove(class_id) == old(self).names().remove(class_id),
            forall|c: u64| #[trigger] old(self).names().contains_key(c) ==> final(self).names().contains_key(c),
            final(self).instance_total() == old(self).instance_total(),
            final(self).class_table() == old(self).class_table(),
            final(self).instances() == old(self).instances(),
            final(self).roots() == old(self).roots(),
            final(self).frames() == old(self).frames(),
            final(self).options_of() == old(self).options_of(),
    {
        self.class_names.insert(class_id, class_name.to_owned());
        proof {
            assert(self.names().remove(class_id) =~= old(self).names().remove(class_id));
        }
    }

    /// Counts one instance of a class.
    pub fn add_class_instance(&mut self, class_id: u64, approx_shallow_bytes: u64)
        requires
            old(self).wf(),
            old(self).instance_total() < u64::MAX,
            old(self).class_table().tallies().contains_key(class_id) ==> {
                &&& old(self).class_table().tallies()[class_id].instance_count < u64::MAX
                &&& old(self).class_table().tallies()[class_id].approx_shallow_bytes + approx_shallow_bytes <= u64::MAX
            },
        ensures
            final(self).wf(),
            final(self).instance_total() == old(self).instance_total() + 1,
            final(self).names() == old(self).names(),
            final(self).instances() == old(self).instances(),
            final(self).roots() == old(self).roots(),
            final(self).frames() == old(self).frames(),
            final(self).options_of() == old(self).options_of(),
            final(self).class_table().limit() == old(self).class_table().limit(),
            old(self).class_table().tallies().contains_key(class_id) ==> {
                &&& final(self).class_table().tallies() == old(self).class_table().tallies().insert(class_id, ClassTally {
                    instance_count: (old(self).class_table().tallies()[class_id].instance_count + 1) as u64,
                    approx_shallow_bytes: (old(self).class_table().tallies()[class_id].approx_shallow_bytes + approx_shallow_bytes) as u64,
                })
                &&& final(self).class_table().is_truncated() == old(self).class_table().is_truncated()
            },
            !old(self).class_table().tallies().contains_key(class_id) && old(self).class_table().tallies().len()
                >= old(self).class_table().limit() ==> {
                &&& final(self).class_table().tallies() == old(self).class_table().tallies()
                &&& final(self).class_table().is_truncated()
            },
            !old(self).class_table().tallies().contains_key(class_id) && old(self).class_table().tallies().len()
                < old(self).class_table().limit() ==> {
                &&& final(self).class_table().tallies() == old(self).class_table().tallies().insert(class_id, ClassTally {
                    instance_count: 1,
                    approx_shallow_bytes,
                })
                &&& final(self).class_table().is_truncated() == old(self).class_table().is_truncated()
            },
    {
        self.total_instances = self.total_instances + 1;
        self.classes.add(class_id, approx_shallow_bytes);
    }

    /// Offers an instance to the largest-instances list, ranked by its size.
    pub fn add_top_instance(&mut self, instance: OverviewInstanceStat)
        requires
            old(self).wf(),
            old(self).instances().history().len() < usize::MAX,
        ensures
            final(self).wf(),
            final(self).instances().history() == old(self).instances().history().push((instance.approx_retained_bytes, instance)),
            final(self).names() == old(self).names(),
            final(self).instance_total() == old(self).instance_total(),
            final(self).class_table() == old(self).class_table(),
            final(self).roots() == old(self).roots(),
            final(self).frames() == old(self).frames(),
            final(self).options_of() == old(self).options_of(),
    {
        let rank = instance.approx_retained_bytes;
        self.top_instances.push(rank, instance);
    }

    /// Counts one GC root of `kind`.
    pub fn increment_gc_root(&mut self, kind: GcRootKind)
        requires
            old(self).wf(),
            old(self).roots().counts().contains_key(kind) ==> old(self).roots().counts()[kind] < u64::MAX,
        ensures
            final(self).wf(),
            final(self).roots().counts() == old(self).roots().counts().insert(
                kind,
                if old(self).roots().counts().contains_key(kind) { (old(self).roots().counts()[kind] + 1) as u64 } else { 1u64 },
            ),
            final(self).names() == old(self).names(),
            final(self).instance_total() == old(self).instance_total(),
            final(self).class_table() == old(self).class_table(),
            final(self).instances() == old(self).instances(),
            final(self).frames() == old(self).frames(),
            final(self).options_of() == old(self).options_of(),
    {
        self.gc_root_counts.increment(kind);
    }

    /// Keeps a thread frame among the most recent.
    pub fn push_thread_frame(&mut self, frame: OverviewThreadFrame)
        requires
            old(self).wf(),
        ensures
            final(self).wf(),
            final(self).frames().history() == old(self).frames().history().push(frame),
            final(self).names() == old(self).names(),
            final(self).instance_total() == old(self).instance_total(),
            final(self).class_table() == old(self).class_table(),
            final(self).instances() == old(self).instances(),
            final(self).roots() == old(self).roots(),
            final(self).options_of() == old(self).options_of(),
    {
        self.thread_frames.push(frame);
    }

    /// The recorded name of a class, if any.
    pub fn class_name_of(&self, class_id: u64) -> (res: Option<String>)
        ensures
            match res {
                Some(n) => self.names().contains_key(class_id) && n@ == self.names()[class_id]@,
                None => !self.names().contains_key(class_id),
            },
    {
        match self.class_names.get(&class_id) {
            Some(n) => Some(n.clone()),
            None => None,
        }
    }
}

/// The result of an overview pass.
#[derive(Debug, Clone, PartialEq, Eq)]
pub struct OverviewSummary {
    pub heap_path: String,
    pub total_bytes_processed: u64,
    pub total_size_bytes: u64,
    pub total_record_count: u64,
    /// Instances, object arrays and primitive arrays, all counted.
    pub total_instances: u64,
    pub loaded_class_count: u64,
    pub class_stats: OverviewClassStats,
    pub top_instances: Vec<OverviewInstanceStat>,
    pub gc_root_counts: GcRootCounts,
    pub thread_frames: Vec<OverviewThreadFrame>,
    pub truncated: bool,
    pub options: OverviewOptions,
    pub provenance: Vec<ProvenanceMarker>,
}

/// `out` lists the kept instances, largest first (equal sizes in the order
/// offered), each renamed from `names` when its class has a recorded name.
pub open spec fn renamed_listing(
    out: Seq<OverviewInstanceStat>,
    kept: Seq<Ranked<OverviewInstanceStat>>,
    names: Map<u64, String>,
) -> bool {
    exists|os: Seq<Ranked<OverviewInstanceStat>>| #[trigger] is_listing(os, kept) && out.len() == os.len()
        && forall|i: int| 0 <= i < os.len() ==> {
            let o = os[i].item;
            let e = #[trigger] out[i];
            &&& e.object_id == o.object_id
            &&& e.class_id == o.class_id
            &&& e.approx_retained_bytes == o.approx_retained_bytes
            &&& e.class_name@ == (if names.contains_key(o.class_id) { names[o.class_id]@ } else { o.class_name@ })
        }
}

impl OverviewSummary {
    /// Assembles the summary of a pass from its accumulators.
    pub fn from_accumulators(
        heap_path: &str,
        total_bytes_processed: u64,
        total_record_count: u64,
        accumulators: OverviewAccumulators,
    ) -> (s: Self)
        requires
            accumulators.wf(),
        ensures
            s.heap_path@ == heap_path@,
            s.total_bytes_processed == total_bytes_processed,
            s.total_size_bytes == total_bytes_processed,
            s.total_record_count == total_record_count,
            s.total_instances == accumulators.instance_total(),
            s.loaded_class_count == accumulators.names().len(),
            top_class_stats(
                s.class_stats,
                accumulators.class_table().tallies(),
                accumulators.class_table().is_truncated(),
                accumulators.names(),
                accumulators.options_of().top_n_classes,
            ),
            renamed_listing(s.top_instances@, accumulators.instances().kept(), accumulators.names()),
            s.gc_root_counts == accumulators.roots(),
            s.provenance@.len() == 0,
            s.thread_frames@ == accumulators.frames().history().skip(
                accumulators.frames().history().len() - (if accumulators.frames().history().len()
                    < accumulators.frames().limit() {
                    accumulators.frames().history().len()
                } else {
                    accumulators.frames().limit()
                }),
            ),
            s.truncated == (s.class_stats.truncated || accumulators.frames().history().len()
                > accumulators.frames().limit()),
            s.options == accumulators.options_of(),
    {
        let OverviewAccumulators {
            options,
            class_names,
            total_instances,
            classes,
            top_instances,
            gc_root_counts,
            thread_frames,
        } = accumulators;
        let class_stats = classes.into_top_class_stats(&class_names, options.top_n_classes);
        let ghost kept = top_instances.kept();
        let ranked = top_instances.into_sorted_vec_desc();
        let mut renamed: Vec<OverviewInstanceStat> = Vec::new();
        let mut i: usize = 0;
        while i < ranked.len()
            invariant
                i <= ranked@.len(),
                renamed@.len() == i,
                forall|j: int| 0 <= j < i ==> {
                    let o = ranked@[j];
                    let e = #[trigger] renamed@[j];
                    &&& e.object_id == o.object_id
                    &&& e.class_id == o.class_id
                    &&& e.approx_retained_bytes == o.approx_retained_bytes
                    &&& e.class_name@ == (if class_names@.contains_key(o.class_id) { class_names@[o.class_id]@ } else {
                        o.class_name@
                    })
                },
            decreases ranked@.len() - i,
        {
            let o = &ranked[i];
            let class_name = match class_names.get(&o.class_id) {
                Some(n) => n.clone(),
                None => o.class_name.clone(),
            };
            renamed.push(OverviewInstanceStat {
                object_id: o.object_id,
                class_id: o.class_id,
                class_name,
                approx_retained_bytes: o.approx_retained_bytes,
            });
            i = i + 1;
        }
        let counts = gc_root_counts.into_counts();
        let (frames, frames_truncated) = thread_frames.into_frames();
        let truncated = class_stats.truncated || frames_truncated;
        let loaded_class_count = class_names.len() as u64;
        let s = OverviewSummary {
            heap_path: heap_path.to_owned(),
            total_bytes_processed,
            total_size_bytes: total_bytes_processed,
            total_record_count,
            total_instances,
            loaded_class_count,
            class_stats,
            top_instances: renamed,
            gc_root_counts: counts,
            thread_frames: frames,
            truncated,
            options,
            provenance: Vec::new(),
        };
        proof {
            let os = choose|os: Seq<Ranked<OverviewInstanceStat>>| #[trigger] is_listing(os, kept) && ranked@.len() == os.len()
                && forall|i2: int| 0 <= i2 < os.len() ==> #[trigger] ranked@[i2] == os[i2].item;
            assert(is_listing(os, kept));
            assert(forall|i2: int| 0 <= i2 < os.len() ==> {
                let o = os[i2].item;
                let e = #[trigger] s.top_instances@[i2];
                &&& e.object_id == o.object_id
                &&& e.class_id == o.class_id
                &&& e.approx_retained_bytes == o.approx_retained_bytes
                &&& e.class_name@ == (if class_names@.contains_key(o.class_id) { class_names@[o.class_id]@ } else { o.class_name@ })
            });
        }
        s
    }
}

} // verus!
