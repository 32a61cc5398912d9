//! Variation for permutation-encoded solutions: order crossover and swap mutation. Genes are
//! not independent there, so both operators move whole items around and every offspring is
//! again a permutation of `0..n`.
use vstd::prelude::*;
use rand::rngs::SmallRng;

use crate::problem::identity_seq;
use crate::random::gen_index;

verus! {

broadcast use vstd::seq_lib::group_to_multiset_ensures;

/// `s` lists every index below `n` exactly once, in some order.
pub open spec fn is_permutation(s: Seq<usize>, n: nat) -> bool {
    s.len() == n && s.to_multiset() == identity_seq(n).to_multiset()
}

/// The items not in `segment`.
pub open spec fn outside(segment: Seq<usize>) -> spec_fn(usize) -> bool {
    |v: usize| !segment.contains(v)
}

/// `s` with the items of `segment` taken out, the others in the order they have in `s`.
pub open spec fn without(s: Seq<usize>, segment: Seq<usize>) -> Seq<usize> {
    s.filter(outside(segment))
}

/// The child of order crossover with cut points `lo..hi` that inherits `donor`'s segment: it
/// holds `donor[lo..hi]` at positions `lo..hi`, and its other positions, left to right, hold
/// the remaining items in the order in which they occur in `other`.
pub open spec fn order_child(donor: Seq<usize>, other: Seq<usize>, lo: int, hi: int) -> Seq<usize> {
    let segment = donor.subrange(lo, hi);
    let rest = without(other, segment);
    rest.take(lo) + segment + rest.skip(lo)
}

/// Every index below `n` occurs once in `0, 1, .., n - 1`, and nothing else does.
pub proof fn lemma_identity_count(n: nat, v: usize)
    requires
        n <= usize::MAX,
    ensures
        identity_seq(n).to_multiset().count(v) == if (v as int) < n { 1nat } else { 0nat },
    decreases n,
{
    broadcast use vstd::multiset::group_multiset_axioms;

    if n > 0 {
        let m = (n - 1) as nat;
        lemma_identity_count(m, v);
        assert(identity_seq(n) =~= identity_seq(m).push(m as usize));
    } else {
        assert(identity_seq(n) =~= Seq::<usize>::empty());
    }
}

/// Taking a segment's items out of `s` drops every copy of them and keeps every other item
/// as often as it occurs in `s`.
pub proof fn lemma_without_count(s: Seq<usize>, segment: Seq<usize>, v: usize)
    ensures
        without(s, segment).to_multiset().count(v) == if segment.contains(v) {
            0nat
        } else {
            s.to_multiset().count(v)
        },
    decreases s.len(),
{
    broadcast use vstd::multiset::group_multiset_axioms;

    if s.len() == 0 {
        assert(without(s, segment) =~= Seq::<usize>::empty());
    } else {
        let init = s.drop_last();
        let x = s.last();
        lemma_without_count(init, segment, v);
        assert(s =~= init.push(x));
        init.lemma_filter_push(x, outside(segment));
    }
}

/// Within a permutation of `0..n`, every item of a segment is below `n` and occurs in the
/// segment once.
pub proof fn lemma_segment_count(p: Seq<usize>, n: nat, lo: int, hi: int, v: usize)
    requires
        is_permutation(p, n),
        n <= usize::MAX,
        0 <= lo <= hi <= n,
    ensures
        p.subrange(lo, hi).to_multiset().count(v) == if p.subrange(lo, hi).contains(v) { 1nat } else { 0nat },
        p.subrange(lo, hi).contains(v) ==> (v as int) < n,
{
    broadcast use vstd::multiset::group_multiset_axioms;
    broadcast use vstd::seq_lib::lemma_multiset_commutative;

    let a = p.subrange(0, lo);
    let seg = p.subrange(lo, hi);
    let c = p.subrange(hi, n as int);
    assert(p =~= a + seg + c);
    assert((a + seg + c).to_multiset() =~= (a + seg).to_multiset().add(c.to_multiset()));
    assert((a + seg).to_multiset() =~= a.to_multiset().add(seg.to_multiset()));
    lemma_identity_count(n, v);
}

/// Order crossover keeps the donor's segment in place and yields a permutation of `0..n`
/// whenever both parents are permutations of `0..n`.
pub proof fn lemma_order_child(donor: Seq<usize>, other: Seq<usize>, n: nat, lo: int, hi: int)
    requires
        is_permutation(donor, n),
        is_permutation(other, n),
        n <= usize::MAX,
        0 <= lo <= hi <= n,
    ensures
        without(other, donor.subrange(lo, hi)).len() == n - (hi - lo),
        is_permutation(order_child(donor, other, lo, hi), n),
        order_child(donor, other, lo, hi).subrange(lo, hi) == donor.subrange(lo, hi),
{
    broadcast use vstd::multiset::group_multiset_axioms;
    broadcast use vstd::seq_lib::lemma_multiset_commutative;

    let seg = donor.subrange(lo, hi);
    let rest = without(other, seg);
    let whole = identity_seq(n).to_multiset();
    assert forall|v: usize| #[trigger] rest.to_multiset().add(seg.to_multiset()).count(v) == whole.count(v) by {
        lemma_without_count(other, seg, v);
        lemma_segment_count(donor, n, lo, hi, v);
        lemma_identity_count(n, v);
    }
    assert(rest.to_multiset().add(seg.to_multiset()) =~= whole);
    assert((rest + seg).to_multiset() =~= rest.to_multiset().add(seg.to_multiset()));
    assert((rest + seg).to_multiset().len() == (rest + seg).len());
    assert(identity_seq(n).to_multiset().len() == identity_seq(n).len());
    assert(rest.len() + seg.len() == n);
    let child = order_child(donor, other, lo, hi);
    let front = rest.take(lo);
    let back = rest.skip(lo);
    assert(rest =~= front + back);
    assert(child =~= front + seg + back);
    assert((front + seg + back).to_multiset() =~= (front + seg).to_multiset().add(back.to_multiset()));
    assert((front + seg).to_multiset() =~= front.to_multiset().add(seg.to_multiset()));
    assert((front + back).to_multiset() =~= front.to_multiset().add(back.to_multiset()));
    assert(child.to_multiset() =~= whole);
    assert(child.subrange(lo, hi) =~= seg);
}

/// The item at `i` of a permutation of `0..n` is below `n`.
proof fn lemma_item_below(p: Seq<usize>, n: nat, i: int)
    requires
        is_permutation(p, n),
        n <= usize::MAX,
        0 <= i < p.len(),
    ensures
        (p[i] as int) < n,
{
    assert(p.contains(p[i]));
    lemma_identity_count(n, p[i]);
}

/// The child of order crossover that inherits `donor[lo..hi]` (see [`order_child`]).
fn order_child_of(donor: &Vec<usize>, other: &Vec<usize>, lo: usize, hi: usize) -> (child: Vec<usize>)
    requires
        is_permutation(donor@, donor@.len()),
        is_permutation(other@, donor@.len()),
        lo <= hi <= donor@.len(),
    ensures
        child@ == order_child(donor@, other@, lo as int, hi as int),
{
    let n = donor.len();
    let ghost seg = donor@.subrange(lo as int, hi as int);
    proof {
        lemma_order_child(donor@, other@, n as nat, lo as int, hi as int);
    }
    // Mark the segment's items.
    let mut in_segment: Vec<bool> = Vec::new();
    let mut k: usize = 0;
    while k < n
        invariant
            k <= n,
            in_segment@.len() == k,
            forall|v: int| 0 <= v < k ==> !(#[trigger] in_segment@[v]),
        decreases n - k,
    {
        in_segment.push(false);
        k = k + 1;
    }
    let mut k: usize = lo;
    while k < hi
        invariant
            n == donor@.len(),
            is_permutation(donor@, n as nat),
            lo <= k <= hi <= n,
            in_segment@.len() == n,
            forall|v: int|
                0 <= v < n ==> (#[trigger] in_segment@[v] <==> donor@.subrange(lo as int, k as int).contains(
                    v as usize,
                )),
        decreases hi - k,
    {
        let v = donor[k];
        proof {
            lemma_item_below(donor@, n as nat, k as int);
        }
        let ghost before = donor@.subrange(lo as int, k as int);
        let ghost after = donor@.subrange(lo as int, k + 1);
        assert(after =~= before.push(v));
        in_segment.set(v, true);
        assert forall|u: int| 0 <= u < n implies (#[trigger] in_segment@[u] <==> after.contains(u as usize)) by {
            if after.contains(u as usize) {
                let t = choose|t: int| 0 <= t < after.len() && after[t] == u as usize;
                if t < before.len() {
                    assert(before[t] == u as usize);
                }
            }
            if before.contains(u as usize) {
                let t = choose|t: int| 0 <= t < before.len() && before[t] == u as usize;
                assert(after[t] == u as usize);
            }
            if u == v as int {
                assert(after[after.len() - 1] == v);
            }
        }
        k = k + 1;
    }
    // The other parent's items outside the segment, in its order.
    let mut rest: Vec<usize> = Vec::new();
    let mut j: usize = 0;
    while j < n
        invariant
            n == donor@.len(),
            other@.len() == n,
            is_permutation(other@, n as nat),
            seg == donor@.subrange(lo as int, hi as int),
            in_segment@.len() == n,
            forall|v: int| 0 <= v < n ==> (#[trigger] in_segment@[v] <==> seg.contains(v as usize)),
            j <= n,
            rest@ == without(other@.take(j as int), seg),
        decreases n - j,
    {
        let v = other[j];
        proof {
            lemma_item_below(other@, n as nat, j as int);
            assert(other@.take(j + 1) =~= other@.take(j as int).push(v));
            other@.take(j as int).lemma_filter_push(v, outside(seg));
        }
        if !in_segment[v] {
            rest.push(v);
        }
        j = j + 1;
    }
    assert(other@.take(n as int) =~= other@);
    let ghost rs = rest@;
    // Assemble: rest[..lo], the segment, rest[lo..].
    let mut child: Vec<usize> = Vec::new();
    let mut i: usize = 0;
    while i < lo
        invariant
            rest@ == rs,
            rs.len() == n - (hi - lo),
            lo <= hi <= n,
            i <= lo,
            child@ == rs.take(i as int),
        decreases lo - i,
    {
        child.push(rest[i]);
        assert(rs.take(i + 1) =~= rs.take(i as int).push(rs[i as int]));
        i = i + 1;
    }
    let mut i: usize = lo;
    while i < hi
        invariant
            n == donor@.len(),
            seg == donor@.subrange(lo as int, hi as int),
            lo <= i <= hi <= n,
            child@ == rs.take(lo as int) + donor@.subrange(lo as int, i as int),
        decreases hi - i,
    {
        child.push(donor[i]);
        assert(donor@.subrange(lo as int, i + 1) =~= donor@.subrange(lo as int, i as int).push(donor@[i as int]));
        i = i + 1;
    }
    let mut i: usize = lo;
    while i < rest.len()
        invariant
            rest@ == rs,
            rs.len() == n - (hi - lo),
            lo <= hi <= n,
            lo <= i <= rs.len(),
            child@ == rs.take(lo as int) + seg + rs.subrange(lo as int, i as int),
        decreases rs.len() - i,
    {
        child.push(rest[i]);
        assert(rs.subrange(lo as int, i + 1) =~= rs.subrange(lo as int, i as int).push(rs[i as int]));
        i = i + 1;
    }
    assert(rs.subrange(lo as int, rs.len() as int) =~= rs.skip(lo as int));
    child
}

/// Order crossover with cut points `lo..hi`: each child keeps its own parent's segment
/// `lo..hi` in place and takes the remaining items, in the order in which they occur in the
/// other parent, into its other positions from left to right. Both children are
/// permutations of `0..n` when both parents are.
pub fn order_crossover(parent_1: &Vec<usize>, parent_2: &Vec<usize>, lo: usize, hi: usize) -> (children: (
    Vec<usize>,
    Vec<usize>,
))
    requires
        is_permutation(parent_1@, parent_1@.len()),
        is_permutation(parent_2@, parent_1@.len()),
        lo <= hi <= parent_1@.len(),
    ensures
        children.0@ == order_child(parent_1@, parent_2@, lo as int, hi as int),
        children.1@ == order_child(parent_2@, parent_1@, lo as int, hi as int),
        is_permutation(children.0@, parent_1@.len()),
        is_permutation(children.1@, parent_1@.len()),
        children.0@.subrange(lo as int, hi as int) == parent_1@.subrange(lo as int, hi as int),
        children.1@.subrange(lo as int, hi as int) == parent_2@.subrange(lo as int, hi as int),
{
    proof {
        lemma_order_child(parent_1@, parent_2@, parent_1.len() as nat, lo as int, hi as int);
        lemma_order_child(parent_2@, parent_1@, parent_1.len() as nat, lo as int, hi as int);
    }
    let child_1 = order_child_of(parent_1, parent_2, lo, hi);
    let child_2 = order_child_of(parent_2, parent_1, lo, hi);
    (child_1, child_2)
}

/// `child_1` and `child_2` are the children of order crossover of `parent_1` and `parent_2`
/// with the segment from position `min(a, b)` to position `max(a, b)`, both included: each is
/// [`order_child`] of its own parent there, and holds its own parent's items at every
/// position of the segment.
pub open spec fn crossed_between(
    parent_1: Seq<usize>,
    parent_2: Seq<usize>,
    child_1: Seq<usize>,
    child_2: Seq<usize>,
    a: int,
    b: int,
) -> bool {
    let lo = if a <= b { a } else { b };
    let hi = if a <= b { b + 1 } else { a + 1 };
    &&& child_1 == order_child(parent_1, parent_2, lo, hi)
    &&& child_2 == order_child(parent_2, parent_1, lo, hi)
    &&& forall|k: int| lo <= k < hi ==> child_1[k] == parent_1[k] && child_2[k] == parent_2[k]
}

/// Order crossover at random cut points: two positions are drawn and the segment runs from
/// the smaller to the larger, both included. Each child is [`order_child`] of its parent at
/// those cut points, so both are permutations of `0..n`, and each keeps its own parent's items
/// at every position from the smaller drawn position to the larger; empty parents give empty
/// children.
pub fn order_crossover_random(parent_1: &Vec<usize>, parent_2: &Vec<usize>, rng: &mut SmallRng) -> (children: (
    Vec<usize>,
    Vec<usize>,
))
    requires
        is_permutation(parent_1@, parent_1@.len()),
        is_permutation(parent_2@, parent_1@.len()),
    ensures
        exists|lo: int, hi: int|
            0 <= lo <= hi <= parent_1@.len() && children.0@ == order_child(parent_1@, parent_2@, lo, hi)
                && children.1@ == order_child(parent_2@, parent_1@, lo, hi),
        is_permutation(children.0@, parent_1@.len()),
        is_permutation(children.1@, parent_1@.len()),
        parent_1@.len() > 0 ==> exists|a: int, b: int|
            0 <= a < parent_1@.len() && 0 <= b < parent_1@.len() && #[trigger] crossed_between(
                parent_1@,
                parent_2@,
                children.0@,
                children.1@,
                a,
                b,
            ),
{
    let n = parent_1.len();
    let ghost mut draws: (int, int) = (0, 0);
    let (lo, hi) = if n == 0 {
        (0, 0)
    } else {
        let a = gen_index(rng, n);
        let b = gen_index(rng, n);
        proof {
            draws = (a as int, b as int);
        }
        if a <= b {
            (a, b + 1)
        } else {
            (b, a + 1)
        }
    };
    let children = order_crossover(parent_1, parent_2, lo, hi);
    assert(children.0@ == order_child(parent_1@, parent_2@, lo as int, hi as int));
    proof {
        if n > 0 {
            let (a, b) = draws;
            assert forall|k: int| lo <= k < hi implies children.0@[k] == parent_1@[k] && children.1@[k] == parent_2@[k] by {
                assert(children.0@.subrange(lo as int, hi as int)[k - lo] == parent_1@.subrange(lo as int, hi as int)[k - lo]);
                assert(children.1@.subrange(lo as int, hi as int)[k - lo] == parent_2@.subrange(lo as int, hi as int)[k - lo]);
            }
            assert(0 <= a < n && 0 <= b < n);
            assert(crossed_between(parent_1@, parent_2@, children.0@, children.1@, a, b));
        }
    }
    children
}

/// Exchanges the items at positions `i` and `j`; the same items stay, each as often as
/// before.
pub fn swap_positions(perm: &mut Vec<usize>, i: usize, j: usize)
    requires
        i < old(perm)@.len(),
        j < old(perm)@.len(),
    ensures
        final(perm)@ == old(perm)@.update(i as int, old(perm)@[j as int]).update(j as int, old(perm)@[i as int]),
        final(perm)@.to_multiset() == old(perm)@.to_multiset(),
{
    broadcast use vstd::multiset::group_multiset_axioms;

    let ghost s = perm@;
    let a = perm[i];
    let b = perm[j];
    perm.set(i, b);
    perm.set(j, a);
    let ghost s1 = s.update(i as int, b);
    assert(s1.to_multiset() =~= s.to_multiset().insert(b).remove(a));
    assert(s1.update(j as int, a).to_multiset() =~= s1.to_multiset().insert(a).remove(s1[j as int]));
    assert(s1[j as int] == b);
    assert(perm@.to_multiset() =~= s.to_multiset());
}

/// The number of positions below `k` at which `a` and `b` hold different items.
pub open spec fn differing(a: Seq<usize>, b: Seq<usize>, k: int) -> nat
    decreases k,
{
    if k <= 0 {
        0
    } else {
        differing(a, b, k - 1) + if a[k - 1] != b[k - 1] { 1nat } else { 0nat }
    }
}

/// The number of set flags among the first `k`.
pub open spec fn set_count(flags: Seq<bool>, k: int) -> nat
    decreases k,
{
    if k <= 0 {
        0
    } else {
        set_count(flags, k - 1) + if flags[k - 1] { 1nat } else { 0nat }
    }
}

/// Changing one item of `b` changes at most one position's agreement with `a`.
pub proof fn lemma_differing_update(a: Seq<usize>, b: Seq<usize>, i: int, x: usize, k: int)
    requires
        0 <= i < b.len(),
        k <= b.len(),
    ensures
        differing(a, b.update(i, x), k) <= differing(a, b, k) + 1,
        k <= i ==> differing(a, b.update(i, x), k) == differing(a, b, k),
    decreases k,
{
    if k > 0 {
        lemma_differing_update(a, b, i, x, k - 1);
    }
}

/// Identical sequences differ nowhere.
pub proof fn lemma_differing_same(a: Seq<usize>, k: int)
    ensures
        differing(a, a, k) == 0,
    decreases k,
{
    if k > 0 {
        lemma_differing_same(a, k - 1);
    }
}

/// Swap mutation: each position `i` with `chosen[i]` set is exchanged, in turn, with a
/// position drawn uniformly from the whole solution. The items stay the same, so a
/// permutation stays a permutation; only chosen positions start a swap, so the result
/// differs from the input in at most two positions per chosen position, and when no
/// position is chosen nothing moves.
pub fn swap_mutation(perm: &mut Vec<usize>, chosen: &[bool], rng: &mut SmallRng)
    requires
        chosen@.len() == old(perm)@.len(),
    ensures
        final(perm)@.len() == old(perm)@.len(),
        final(perm)@.to_multiset() == old(perm)@.to_multiset(),
        differing(old(perm)@, final(perm)@, chosen@.len() as int) <= 2 * set_count(chosen@, chosen@.len() as int),
        (forall|k: int| 0 <= k < chosen@.len() ==> !chosen@[k]) ==> final(perm)@ == old(perm)@,
{
    let ghost start = perm@;
    let n = perm.len();
    proof {
        lemma_differing_same(start, n as int);
    }
    let mut i: usize = 0;
    while i < n
        invariant
            n == chosen@.len(),
            perm@.len() == n,
            i <= n,
            perm@.to_multiset() == start.to_multiset(),
            differing(start, perm@, n as int) <= 2 * set_count(chosen@, i as int),
            (forall|k: int| 0 <= k < i ==> !chosen@[k]) ==> perm@ == start,
        decreases n - i,
    {
        if chosen[i] {
            let j = gen_index(rng, n);
            let ghost before = perm@;
            swap_positions(perm, i, j);
            proof {
                let mid = before.update(i as int, before[j as int]);
                lemma_differing_update(start, before, i as int, before[j as int], n as int);
                lemma_differing_update(start, mid, j as int, before[i as int], n as int);
            }
        }
        i = i + 1;
    }
}

} // verus!
