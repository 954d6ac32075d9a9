//! Shared building blocks: key enumeration for integer-keyed maps, sums
//! over finite maps, and big-endian byte decoding.

use vstd::prelude::*;
use std::collections::HashMap;
use vstd::std_specs::iter::IteratorSpec;

verus! {

broadcast use vstd::std_specs::hash::group_hash_axioms;

/// Every key of an integer-keyed map, each exactly once, in the map's own
/// (unspecified) iteration order.
pub fn map_keys<K: Copy, V>(m: &HashMap<K, V>) -> (res: Vec<K>)
    requires
        vstd::std_specs::hash::obeys_key_model::<K>(),
    ensures
        res@.to_set() == m@.dom(),
        res@.no_duplicates(),
        res@.len() == m@.dom().len(),
        forall|i: int| 0 <= i < res@.len() ==> m@.contains_key(#[trigger] res@[i]),
{
    let ghost keys_seq = vstd::std_specs::hash::spec_keys_iter(m).remaining();
    proof {
        vstd::std_specs::hash::axiom_spec_keys_iter(m);
    }
    let mut res: Vec<K> = Vec::new();
    for k in it: m.keys()
        invariant
            it.seq() == keys_seq,
            res@.len() == it.index(),
            forall|i: int| 0 <= i < it.index() ==> res@[i] == *keys_seq[i],
    {
        res.push(*k);
    }
    proof {
        assert(res@ =~= keys_seq.unref());
        assert forall|i: int| 0 <= i < res@.len() implies m@.contains_key(#[trigger] res@[i]) by {
            assert(res@.to_set().contains(res@[i]));
        }
    }
    res
}

/// Sum of `f` over the values of a finite map.
pub open spec fn map_sum<V>(m: Map<u64, V>, f: spec_fn(V) -> int) -> int
    decreases m.dom().len(),
{
    if m.dom().finite() && m.dom().len() > 0 {
        let k = m.dom().choose();
        f(m[k]) + map_sum(m.remove(k), f)
    } else {
        0
    }
}

/// Removing any one key splits the sum.
pub proof fn lemma_map_sum_remove<V>(m: Map<u64, V>, f: spec_fn(V) -> int, k: u64)
    requires
        m.dom().finite(),
        m.contains_key(k),
    ensures
        map_sum(m, f) == f(m[k]) + map_sum(m.remove(k), f),
    decreases m.dom().len(),
{
    let c = m.dom().choose();
    if c != k {
        lemma_map_sum_remove(m.remove(c), f, k);
        lemma_map_sum_remove(m.remove(k), f, c);
        assert(m.remove(c).remove(k) =~= m.remove(k).remove(c));
    }
}

/// The empty map sums to zero.
pub proof fn lemma_map_sum_empty<V>(m: Map<u64, V>, f: spec_fn(V) -> int)
    requires
        m.dom().finite(),
        m.dom().len() == 0,
    ensures
        map_sum(m, f) == 0,
{
}

/// A sum of non-negative terms is non-negative.
pub proof fn lemma_map_sum_nonneg<V>(m: Map<u64, V>, f: spec_fn(V) -> int)
    requires
        m.dom().finite(),
        forall|v: V| #[trigger] f(v) >= 0,
    ensures
        map_sum(m, f) >= 0,
    decreases m.dom().len(),
{
    if m.dom().len() > 0 {
        let k = m.dom().choose();
        lemma_map_sum_nonneg(m.remove(k), f);
    }
}

/// Unsigned big-endian value of a byte string.
pub open spec fn be_value(s: Seq<u8>) -> nat
    decreases s.len(),
{
    if s.len() == 0 {
        0
    } else {
        be_value(s.drop_last()) * 256 + s.last() as nat
    }
}

pub open spec fn pow256(n: nat) -> nat
    decreases n,
{
    if n == 0 {
        1
    } else {
        256 * pow256((n - 1) as nat)
    }
}

pub proof fn lemma_be_value_bound(s: Seq<u8>)
    ensures
        be_value(s) < pow256(s.len()),
    decreases s.len(),
{
    if s.len() > 0 {
        lemma_be_value_bound(s.drop_last());
        assert(be_value(s) <= (pow256((s.len() - 1) as nat) - 1) * 256 + 255) by (nonlinear_arith)
            requires
                be_value(s.drop_last()) <= pow256((s.len() - 1) as nat) - 1,
                be_value(s) == be_value(s.drop_last()) * 256 + s.last() as nat,
                s.last() <= 255,
        ;
    }
}

pub proof fn lemma_pow256_values()
    ensures
        pow256(1) == 0x100,
        pow256(2) == 0x1_0000,
        pow256(4) == 0x1_0000_0000,
        pow256(8) == 0x1_0000_0000_0000_0000,
{
    reveal_with_fuel(pow256, 9);
}


/// Filtering a sequence extended by one element.
pub proof fn lemma_filter_push_step<A>(s: Seq<A>, x: A, p: spec_fn(A) -> bool)
    ensures
        s.push(x).filter(p) == (if p(x) { s.filter(p).push(x) } else { s.filter(p) }),
{
    assert(s.push(x).drop_last() =~= s);
    reveal_with_fuel(Seq::filter, 1);
}

/// What a filter keeps, by membership.
pub proof fn lemma_filter_contains_iff<A>(s: Seq<A>, p: spec_fn(A) -> bool)
    ensures
        forall|x: A| #[trigger] s.filter(p).contains(x) <==> (s.contains(x) && p(x)),
    decreases s.len(),
{
    if s.len() > 0 {
        lemma_filter_contains_iff(s.drop_last(), p);
        assert(s.drop_last().push(s.last()) =~= s);
        lemma_filter_push_step(s.drop_last(), s.last(), p);
        assert forall|x: A| #[trigger] s.filter(p).contains(x) <==> (s.contains(x) && p(x)) by {
            if s.contains(x) && p(x) {
                let j = choose|j: int| 0 <= j < s.len() && s[j] == x;
                if j < s.len() - 1 {
                    assert(s.drop_last()[j] == x);
                    assert(s.drop_last().contains(x));
                    assert(s.drop_last().filter(p).contains(x));
                    let k = choose|k: int|
                        0 <= k < s.drop_last().filter(p).len() && s.drop_last().filter(p)[k] == x;
                    assert(s.filter(p)[k] == x);
                } else {
                    assert(s.filter(p)[s.filter(p).len() - 1] == x);
                }
            }
            if s.filter(p).contains(x) {
                let k = choose|k: int| 0 <= k < s.filter(p).len() && s.filter(p)[k] == x;
                if p(s.last()) && k == s.filter(p).len() - 1 {
                    assert(s[s.len() - 1] == x);
                } else {
                    assert(s.drop_last().filter(p)[k] == x);
                    assert(s.drop_last().filter(p).contains(x));
                    let j = choose|j: int| 0 <= j < s.drop_last().len() && s.drop_last()[j] == x;
                    assert(s[j] == x);
                }
            }
        }
    }
}

/// Filtering keeps a duplicate-free sequence duplicate-free.
pub proof fn lemma_filter_no_dup<A>(s: Seq<A>, p: spec_fn(A) -> bool)
    requires
        s.no_duplicates(),
    ensures
        s.filter(p).no_duplicates(),
    decreases s.len(),
{
    if s.len() > 0 {
        let t = s.drop_last();
        assert(t.no_duplicates());
        lemma_filter_no_dup(t, p);
        assert(t.push(s.last()) =~= s);
        lemma_filter_push_step(t, s.last(), p);
        lemma_filter_contains_iff(t, p);
        if p(s.last()) {
            assert(!t.contains(s.last())) by {
                if t.contains(s.last()) {
                    let j = choose|j: int| 0 <= j < t.len() && t[j] == s.last();
                    assert(s[j] == s[s.len() - 1]);
                }
            }
            assert(!t.filter(p).contains(s.last()));
            let f = t.filter(p);
            assert forall|i: int, j: int|
                0 <= i < f.push(s.last()).len() && 0 <= j < f.push(s.last()).len() && i != j
                implies f.push(s.last())[i] != f.push(s.last())[j] by {
                if i == f.len() {
                    assert(f[j] == f.push(s.last())[j]);
                } else if j == f.len() {
                    assert(f[i] == f.push(s.last())[i]);
                }
            }
        }
    }
}

/// Taking one more element of a sequence.
pub proof fn lemma_take_push<A>(s: Seq<A>, i: int)
    requires
        0 <= i < s.len(),
    ensures
        s.take(i + 1) == s.take(i).push(s[i]),
{
    assert(s.take(i + 1) =~= s.take(i).push(s[i]));
}


/// `a` is at most `b` in the lexicographic order of pairs.
pub open spec fn pair_le(a: (u64, u64), b: (u64, u64)) -> bool {
    a.0 < b.0 || (a.0 == b.0 && a.1 <= b.1)
}

/// Pairs in ascending lexicographic order.
pub open spec fn pairs_sorted(s: Seq<(u64, u64)>) -> bool {
    forall|i: int, j: int| 0 <= i < j < s.len() ==> pair_le(#[trigger] s[i], #[trigger] s[j])
}

/// Calls std `<[T]>::sort_unstable` on a vector of integer pairs; std
/// documents that it sorts in ascending order of `Ord`, which for tuples is
/// lexicographic. Claimed: the same elements, each as often, in ascending
/// order.
#[verifier::external_body]
pub fn sort_pairs(v: &mut Vec<(u64, u64)>)
    ensures
        final(v)@.to_multiset() == old(v)@.to_multiset(),
        pairs_sorted(final(v)@),
{
    v.sort_unstable();
}


/// Adding one more key to a restriction adds its term to the sum.
pub proof fn lemma_map_sum_restrict_insert<V>(m: Map<u64, V>, d: Set<u64>, x: u64, f: spec_fn(V) -> int)
    requires
        d.finite(),
        d.subset_of(m.dom()),
        m.contains_key(x),
        !d.contains(x),
    ensures
        map_sum(m.restrict(d.insert(x)), f) == map_sum(m.restrict(d), f) + f(m[x]),
{
    let big = m.restrict(d.insert(x));
    assert(big.dom() =~= d.insert(x));
    assert(big.remove(x) =~= m.restrict(d));
    lemma_map_sum_remove(big, f, x);
}

/// The empty restriction sums to zero.
pub proof fn lemma_map_sum_restrict_empty<V>(m: Map<u64, V>, f: spec_fn(V) -> int)
    ensures
        map_sum(m.restrict(Set::empty()), f) == 0,
{
    assert(m.restrict(Set::empty()).dom() =~= Set::<u64>::empty());
}

/// A sum of non-negative terms over fewer keys is no larger.
pub proof fn lemma_map_sum_restrict_subset<V>(m: Map<u64, V>, a: Set<u64>, b: Set<u64>, f: spec_fn(V) -> int)
    requires
        b.finite(),
        a.subset_of(b),
        b.subset_of(m.dom()),
        forall|v: V| #[trigger] f(v) >= 0,
    ensures
        map_sum(m.restrict(a), f) <= map_sum(m.restrict(b), f),
    decreases b.len(),
{
    if b.len() == 0 {
        assert(a =~= Set::<u64>::empty());
        assert(b =~= Set::<u64>::empty());
    } else {
        let x = b.choose();
        let b2 = b.remove(x);
        assert(b2.insert(x) =~= b);
        lemma_map_sum_restrict_insert(m, b2, x, f);
        if a.contains(x) {
            let a2 = a.remove(x);
            assert(a2.insert(x) =~= a);
            lemma_map_sum_restrict_insert(m, a2, x, f);
            lemma_map_sum_restrict_subset(m, a2, b2, f);
        } else {
            lemma_map_sum_restrict_subset(m, a, b2, f);
        }
    }
}


/// Summing ones over a restriction counts its keys.
pub proof fn lemma_map_sum_restrict_ones<V>(m: Map<u64, V>, d: Set<u64>, f: spec_fn(V) -> int)
    requires
        d.finite(),
        d.subset_of(m.dom()),
        forall|v: V| #[trigger] f(v) == 1,
    ensures
        map_sum(m.restrict(d), f) == d.len(),
    decreases d.len(),
{
    if d.len() == 0 {
        assert(d =~= Set::<u64>::empty());
        lemma_map_sum_restrict_empty(m, f);
    } else {
        let x = d.choose();
        let d2 = d.remove(x);
        assert(d2.insert(x) =~= d);
        lemma_map_sum_restrict_insert(m, d2, x, f);
        lemma_map_sum_restrict_ones(m, d2, f);
    }
}


/// Integers in non-decreasing order.
pub open spec fn ids_sorted(s: Seq<u64>) -> bool {
    forall|i: int, j: int| 0 <= i < j < s.len() ==> s[i] <= s[j]
}

/// Merges two ascending runs into one.
fn merge_ids(a: &Vec<u64>, b: &Vec<u64>) -> (out: Vec<u64>)
    requires
        ids_sorted(a@),
        ids_sorted(b@),
    ensures
        ids_sorted(out@),
        out@.to_multiset() == a@.to_multiset().add(b@.to_multiset()),
{
    broadcast use vstd::seq_lib::group_to_multiset_ensures, vstd::multiset::group_multiset_axioms;
    let mut out: Vec<u64> = Vec::new();
    let mut i: usize = 0;
    let mut j: usize = 0;
    while i < a.len() || j < b.len()
        invariant
            i <= a@.len(),
            j <= b@.len(),
            ids_sorted(a@),
            ids_sorted(b@),
            ids_sorted(out@),
            out@.to_multiset() == a@.take(i as int).to_multiset().add(b@.take(j as int).to_multiset()),
            out@.len() > 0 && i < a@.len() ==> out@.last() <= a@[i as int],
            out@.len() > 0 && j < b@.len() ==> out@.last() <= b@[j as int],
        decreases a@.len() + b@.len() - i - j,
    {
        if j >= b.len() || (i < a.len() && a[i] <= b[j]) {
            let x = a[i];
            proof {
                assert(a@.take(i + 1) =~= a@.take(i as int).push(x));
                vstd::seq_lib::to_multiset_build(a@.take(i as int), x);
                assert(a@.take(i + 1).to_multiset() == a@.take(i as int).to_multiset().insert(x));
                assert(a@.take(i + 1).to_multiset().add(b@.take(j as int).to_multiset()) =~= a@.take(
                    i as int,
                ).to_multiset().add(b@.take(j as int).to_multiset()).insert(x));
            }
            let ghost prev = out@;
            out.push(x);
            proof {
                vstd::seq_lib::to_multiset_build(prev, x);
            }
            i = i + 1;
        } else {
            let x = b[j];
            proof {
                assert(b@.take(j + 1) =~= b@.take(j as int).push(x));
                vstd::seq_lib::to_multiset_build(b@.take(j as int), x);
                assert(b@.take(j + 1).to_multiset() == b@.take(j as int).to_multiset().insert(x));
                assert(a@.take(i as int).to_multiset().add(b@.take(j + 1).to_multiset()) =~= a@.take(
                    i as int,
                ).to_multiset().add(b@.take(j as int).to_multiset()).insert(x));
            }
            let ghost prev = out@;
            out.push(x);
            proof {
                vstd::seq_lib::to_multiset_build(prev, x);
            }
            j = j + 1;
        }
    }
    proof {
        assert(a@.take(i as int) =~= a@);
        assert(b@.take(j as int) =~= b@);
    }
    out
}

/// The elements `start..end` of a vector.
fn copy_range(v: &Vec<u64>, start: usize, end: usize) -> (out: Vec<u64>)
    requires
        start <= end <= v@.len(),
    ensures
        out@ == v@.subrange(start as int, end as int),
{
    let mut out: Vec<u64> = Vec::new();
    let mut k = start;
    while k < end
        invariant
            start <= k <= end <= v@.len(),
            out@ == v@.subrange(start as int, k as int),
        decreases end - k,
    {
        out.push(v[k]);
        k = k + 1;
        proof {
            assert(out@ =~= v@.subrange(start as int, k as int));
        }
    }
    out
}

/// The same integers, each as often, in ascending order (a merge sort).
pub fn sort_ids(v: &Vec<u64>) -> (out: Vec<u64>)
    ensures
        ids_sorted(out@),
        out@.to_multiset() == v@.to_multiset(),
    decreases v@.len(),
{
    let n = v.len();
    if n <= 1 {
        let out = copy_range(v, 0, n);
        proof {
            assert(out@ =~= v@);
        }
        return out;
    }
    let mid = n / 2;
    let left = copy_range(v, 0, mid);
    let right = copy_range(v, mid, n);
    let l = sort_ids(&left);
    let r = sort_ids(&right);
    let out = merge_ids(&l, &r);
    proof {
        assert(v@ =~= left@ + right@);
        vstd::seq_lib::lemma_multiset_commutative(left@, right@);
    }
    out
}

/// The sort keeps exactly the same set of elements.
pub proof fn lemma_same_multiset_contains(a: Seq<u64>, b: Seq<u64>, x: u64)
    requires
        a.to_multiset() == b.to_multiset(),
    ensures
        a.contains(x) <==> b.contains(x),
{
    broadcast use vstd::seq_lib::group_to_multiset_ensures;
    assert(a.to_multiset().count(x) == b.to_multiset().count(x));
    assert(a.contains(x) <==> a.to_multiset().count(x) > 0);
    assert(b.contains(x) <==> b.to_multiset().count(x) > 0);
}

} // verus!
