//! NSGA-III survival: structured reference points on the simplex, filling the next
//! population front by front, and niching the front that does not fit whole.
use vstd::prelude::*;
use vstd::multiset::Multiset;

use crate::genetic_algorithms_v2::{size_before, view_fronts};

verus! {

broadcast use vstd::seq_lib::group_to_multiset_ensures;


// ---------------------------------------------------------------------------------------
// The Das-Dennis lattice.
// ---------------------------------------------------------------------------------------

/// The lattice points with `m` coordinates that sum to `left` and whose first coordinate is
/// at least `from`, in lexicographic order.
pub open spec fn lattice_from(m: nat, left: nat, from: nat) -> Seq<Seq<usize>>
    decreases m, left + 1 - from,
{
    if m == 0 || from > left {
        Seq::empty()
    } else if m == 1 {
        seq![seq![left as usize]]
    } else {
        lattice_from((m - 1) as nat, (left - from) as nat, 0).map_values(
            |p: Seq<usize>| seq![from as usize] + p,
        ) + lattice_from(m, left, from + 1)
    }
}

/// The Das-Dennis lattice: every tuple of `m` non-negative integers that sum to
/// `divisions`, in lexicographic order. Divided by `divisions`, these are the reference
/// points on the unit simplex.
pub open spec fn lattice(m: nat, divisions: nat) -> Seq<Seq<usize>> {
    lattice_from(m, divisions, 0)
}

/// The sum of the coordinates of a point.
pub open spec fn coordinate_sum(p: Seq<usize>) -> int
    decreases p.len(),
{
    if p.len() == 0 {
        0
    } else {
        p[0] + coordinate_sum(p.drop_first())
    }
}

/// The binomial coefficient, by Pascal's rule.
pub open spec fn binomial(n: nat, k: nat) -> nat
    decreases n,
{
    if k == 0 {
        1
    } else if n == 0 {
        0
    } else {
        binomial((n - 1) as nat, (k - 1) as nat) + binomial((n - 1) as nat, k)
    }
}

proof fn lemma_lattice_from_points(m: nat, left: nat, from: nat)
    requires
        left <= usize::MAX,
    ensures
        forall|i: int|
            0 <= i < lattice_from(m, left, from).len() ==> (#[trigger] lattice_from(m, left, from)[i]).len() == m
                && coordinate_sum(lattice_from(m, left, from)[i]) == left
                && lattice_from(m, left, from)[i][0] >= from,
    decreases m, left + 1 - from,
{
    if m == 0 || from > left {
    } else if m == 1 {
        let p = seq![left as usize];
        assert(p.drop_first() =~= Seq::<usize>::empty());
        assert(coordinate_sum(Seq::<usize>::empty()) == 0);
        assert(coordinate_sum(p) == left);
    } else {
        let sub = lattice_from((m - 1) as nat, (left - from) as nat, 0);
        let head = sub.map_values(|p: Seq<usize>| seq![from as usize] + p);
        let tail = lattice_from(m, left, from + 1);
        lemma_lattice_from_points((m - 1) as nat, (left - from) as nat, 0);
        lemma_lattice_from_points(m, left, from + 1);
        assert forall|i: int| 0 <= i < head.len() implies (#[trigger] head[i]).len() == m && coordinate_sum(head[i])
            == left && head[i][0] >= from by {
            let q = sub[i];
            assert(head[i] == seq![from as usize] + q);
            assert(head[i].drop_first() =~= q);
        }
        let all = head + tail;
        assert(all == lattice_from(m, left, from));
        assert forall|i: int| 0 <= i < all.len() implies (#[trigger] all[i]).len() == m && coordinate_sum(all[i])
            == left && all[i][0] >= from by {
            if i < head.len() {
                assert(all[i] == head[i]);
            } else {
                assert(all[i] == tail[i - head.len()]);
            }
        }
    }
}

/// Every lattice point has `m` coordinates summing to `divisions`.
pub proof fn lemma_lattice_on_simplex(m: nat, divisions: nat)
    requires
        divisions <= usize::MAX,
    ensures
        forall|i: int|
            0 <= i < lattice(m, divisions).len() ==> (#[trigger] lattice(m, divisions)[i]).len() == m
                && coordinate_sum(lattice(m, divisions)[i]) == divisions,
{
    lemma_lattice_from_points(m, divisions, 0);
}

/// Lexicographic order on lattice points.
pub open spec fn point_lt(a: Seq<usize>, b: Seq<usize>) -> bool
    decreases a.len(),
{
    if a.len() == 0 || b.len() == 0 {
        false
    } else if a[0] != b[0] {
        a[0] < b[0]
    } else {
        point_lt(a.drop_first(), b.drop_first())
    }
}

proof fn lemma_lattice_from_sorted(m: nat, left: nat, from: nat)
    requires
        left <= usize::MAX,
    ensures
        forall|i: int, j: int|
            0 <= i < j < lattice_from(m, left, from).len() ==> point_lt(
                #[trigger] lattice_from(m, left, from)[i],
                #[trigger] lattice_from(m, left, from)[j],
            ),
    decreases m, left + 1 - from,
{
    if m >= 2 && from <= left {
        let sub = lattice_from((m - 1) as nat, (left - from) as nat, 0);
        let head = sub.map_values(|p: Seq<usize>| seq![from as usize] + p);
        let tail = lattice_from(m, left, from + 1);
        lemma_lattice_from_sorted((m - 1) as nat, (left - from) as nat, 0);
        lemma_lattice_from_sorted(m, left, from + 1);
        lemma_lattice_from_points(m, left, from + 1);
        lemma_lattice_from_points((m - 1) as nat, (left - from) as nat, 0);
        let all = head + tail;
        assert(all == lattice_from(m, left, from));
        assert forall|i: int, j: int| 0 <= i < j < all.len() implies point_lt(#[trigger] all[i], #[trigger] all[j]) by {
            if j < head.len() {
                assert(all[i] == head[i] && all[j] == head[j]);
                assert(head[i].drop_first() =~= sub[i]);
                assert(head[j].drop_first() =~= sub[j]);
                assert(point_lt(sub[i], sub[j]));
            } else if i < head.len() {
                assert(all[i] == head[i]);
                assert(all[j] == tail[j - head.len()]);
                assert(tail[j - head.len()][0] >= from + 1);
                assert(head[i][0] == from);
            } else {
                assert(all[i] == tail[i - head.len()] && all[j] == tail[j - head.len()]);
            }
        }
    }
}

/// The lattice lists its points in strictly increasing lexicographic order, so no point
/// occurs twice.
pub proof fn lemma_lattice_sorted(m: nat, divisions: nat)
    requires
        divisions <= usize::MAX,
    ensures
        forall|i: int, j: int|
            0 <= i < j < lattice(m, divisions).len() ==> point_lt(
                #[trigger] lattice(m, divisions)[i],
                #[trigger] lattice(m, divisions)[j],
            ),
{
    lemma_lattice_from_sorted(m, divisions, 0);
}

proof fn lemma_coordinate_sum_nonneg(p: Seq<usize>)
    ensures
        coordinate_sum(p) >= 0,
    decreases p.len(),
{
    if p.len() > 0 {
        lemma_coordinate_sum_nonneg(p.drop_first());
    }
}

proof fn lemma_lattice_from_complete(m: nat, left: nat, from: nat, p: Seq<usize>)
    requires
        left <= usize::MAX,
        m >= 1,
        p.len() == m,
        coordinate_sum(p) == left,
        p[0] >= from,
    ensures
        lattice_from(m, left, from).contains(p),
    decreases m, left + 1 - from,
{
    let q = p.drop_first();
    lemma_coordinate_sum_nonneg(q);
    if m == 1 {
        assert(q =~= Seq::<usize>::empty());
        assert(coordinate_sum(Seq::<usize>::empty()) == 0);
        assert(p =~= seq![left as usize]);
        assert(lattice_from(m, left, from)[0] == p);
    } else {
        let sub = lattice_from((m - 1) as nat, (left - from) as nat, 0);
        let head = sub.map_values(|r: Seq<usize>| seq![from as usize] + r);
        let tail = lattice_from(m, left, from + 1);
        assert(lattice_from(m, left, from) == head + tail);
        if p[0] == from {
            lemma_lattice_from_complete((m - 1) as nat, (left - from) as nat, 0, q);
            let i = choose|i: int| 0 <= i < sub.len() && sub[i] == q;
            assert(head[i] =~= p);
            assert((head + tail)[i] == p);
        } else {
            lemma_lattice_from_complete(m, left, from + 1, p);
            let i = choose|i: int| 0 <= i < tail.len() && tail[i] == p;
            assert((head + tail)[head.len() + i] == p);
        }
    }
}

/// Every tuple of `m >= 1` coordinates that sum to `divisions` is a lattice point.
pub proof fn lemma_lattice_complete(m: nat, divisions: nat, p: Seq<usize>)
    requires
        divisions <= usize::MAX,
        m >= 1,
        p.len() == m,
        coordinate_sum(p) == divisions,
    ensures
        lattice(m, divisions).contains(p),
{
    lemma_lattice_from_complete(m, divisions, 0, p);
}

proof fn lemma_lattice_from_len(m: nat, left: nat, from: nat)
    requires
        m >= 1,
        from <= left,
    ensures
        lattice_from(m, left, from).len() == binomial((m - 1 + left - from) as nat, (left - from) as nat),
    decreases m, left + 1 - from,
{
    if m == 1 {
        lemma_binomial_diagonal((left - from) as nat);
    } else {
        let r = (left - from) as nat;
        lemma_lattice_from_len((m - 1) as nat, r, 0);
        if from < left {
            lemma_lattice_from_len(m, left, from + 1);
            assert(binomial((m - 1 + r) as nat, r) == binomial((m - 2 + r) as nat, (r - 1) as nat) + binomial(
                (m - 2 + r) as nat,
                r,
            ));
        } else {
            assert(lattice_from(m, left, from + 1).len() == 0);
            assert(binomial((m - 2) as nat, 0) == 1);
            assert(binomial((m - 1) as nat, 0) == 1);
        }
    }
}

proof fn lemma_binomial_diagonal(n: nat)
    ensures
        binomial(n, n) == 1,
    decreases n,
{
    if n > 0 {
        lemma_binomial_diagonal((n - 1) as nat);
        lemma_binomial_zero_above((n - 1) as nat, n);
    }
}

proof fn lemma_binomial_zero_above(n: nat, k: nat)
    requires
        k > n,
    ensures
        binomial(n, k) == 0,
    decreases n,
{
    if n > 0 {
        lemma_binomial_zero_above((n - 1) as nat, (k - 1) as nat);
        lemma_binomial_zero_above((n - 1) as nat, k);
    }
}

/// The lattice of `m >= 1` coordinates and `divisions` steps has C(m + divisions - 1,
/// divisions) points.
pub proof fn lemma_lattice_count(m: nat, divisions: nat)
    requires
        m >= 1,
    ensures
        lattice(m, divisions).len() == binomial((m + divisions - 1) as nat, divisions),
{
    lemma_lattice_from_len(m, divisions, 0);
}

/// The view of a vector of points.
pub open spec fn points_view(points: Seq<Vec<usize>>) -> Seq<Seq<usize>> {
    points.map_values(|p: Vec<usize>| p@)
}

fn lattice_points(m: usize, left: usize) -> (points: Vec<Vec<usize>>)
    requires
        m >= 1,
    ensures
        points_view(points@) == lattice(m as nat, left as nat),
    decreases m,
{
    if m == 1 {
        let mut p: Vec<usize> = Vec::new();
        p.push(left);
        let mut out: Vec<Vec<usize>> = Vec::new();
        out.push(p);
        assert(points_view(out@) =~= lattice(1, left as nat));
        return out;
    }
    let mut out: Vec<Vec<usize>> = Vec::new();
    let mut from: usize = 0;
    loop
        invariant
            m >= 2,
            from <= left,
            points_view(out@) + lattice_from(m as nat, left as nat, from as nat) == lattice(m as nat, left as nat),
        decreases left - from,
    {
        let sub = lattice_points(m - 1, left - from);
        let ghost head = points_view(sub@).map_values(|p: Seq<usize>| seq![from as usize] + p);
        let ghost start = points_view(out@);
        let mut t: usize = 0;
        while t < sub.len()
            invariant
                t <= sub@.len(),
                points_view(sub@) == lattice((m - 1) as nat, (left - from) as nat),
                head == points_view(sub@).map_values(|p: Seq<usize>| seq![from as usize] + p),
                points_view(out@) == start + head.take(t as int),
            decreases sub.len() - t,
        {
            let mut point: Vec<usize> = Vec::new();
            point.push(from);
            let row = &sub[t];
            let mut c: usize = 0;
            while c < row.len()
                invariant
                    c <= row@.len(),
                    point@ == seq![from as usize] + row@.take(c as int),
                decreases row.len() - c,
            {
                point.push(row[c]);
                assert(point@ =~= seq![from as usize] + row@.take(c + 1));
                c = c + 1;
            }
            assert(row@.take(row@.len() as int) =~= row@);
            assert(point@ == head[t as int]);
            let ghost prev = out@;
            out.push(point);
            assert(points_view(out@) =~= points_view(prev).push(head[t as int]));
            assert(start + head.take(t + 1) =~= (start + head.take(t as int)).push(head[t as int]));
            t = t + 1;
        }
        assert(head.take(sub@.len() as int) =~= head);
        assert(lattice_from(m as nat, left as nat, from as nat) == head + lattice_from(m as nat, left as nat, (from + 1) as nat));
        assert(points_view(out@) + lattice_from(m as nat, left as nat, (from + 1) as nat) =~= start + lattice_from(
            m as nat,
            left as nat,
            from as nat,
        ));
        if from == left {
            assert(lattice_from(m as nat, left as nat, (from + 1) as nat) =~= Seq::<Seq<usize>>::empty());
            assert(points_view(out@) =~= lattice(m as nat, left as nat));
            return out;
        }
        from = from + 1;
    }
}

/// The Das-Dennis lattice of `m` objectives and `divisions` steps, as integer tuples that
/// sum to `divisions`; dividing each coordinate by `divisions` gives the reference points.
pub fn das_dennis_lattice(m: usize, divisions: usize) -> (points: Vec<Vec<usize>>)
    requires
        m >= 1,
    ensures
        points_view(points@) == lattice(m as nat, divisions as nat),
{
    lattice_points(m, divisions)
}

/// The NSGA-III population size: the requested one, or for a request of 0 the number of
/// reference points rounded up to a multiple of 4.
pub fn nsga3_population_size(requested: usize, reference_points: usize) -> (size: usize)
    requires
        requested == 0 ==> reference_points <= usize::MAX - 3,
    ensures
        requested > 0 ==> size == requested,
        requested == 0 ==> size % 4 == 0 && reference_points <= size < reference_points + 4,
{
    if requested == 0 {
        (reference_points + 3) / 4 * 4
    } else {
        requested
    }
}

// ---------------------------------------------------------------------------------------
// Filling the next population.
// ---------------------------------------------------------------------------------------

/// The first front from `k` on that no longer fits whole within `target` after the fronts
/// before it, or the number of fronts when every one fits.
pub open spec fn first_overflow_from(fronts: Seq<Seq<usize>>, target: int, k: int) -> int
    decreases fronts.len() - k,
{
    if k < 0 || k >= fronts.len() {
        fronts.len() as int
    } else if size_before(fronts, k + 1) > target {
        k
    } else {
        first_overflow_from(fronts, target, k + 1)
    }
}

/// The first front that does not fit whole within `target`.
pub open spec fn first_overflow(fronts: Seq<Seq<usize>>, target: int) -> int {
    first_overflow_from(fronts, target, 0)
}

/// Fills the next population front by front: `selected` holds the members of every front
/// before the first one that does not fit within `target`, in front order; `splitting` is
/// that front, or empty when every front fits.
pub fn fill_by_fronts(fronts: &Vec<Vec<usize>>, target: usize) -> (r: (Vec<usize>, Vec<usize>))
    ensures
        r.0@ == view_fronts(fronts@).take(first_overflow(view_fronts(fronts@), target as int)).flatten(),
        first_overflow(view_fronts(fronts@), target as int) < fronts@.len() ==> r.1@ == view_fronts(
            fronts@,
        )[first_overflow(view_fronts(fronts@), target as int)],
        first_overflow(view_fronts(fronts@), target as int) == fronts@.len() ==> r.1@.len() == 0,
        r.0@.len() <= target,
{
    let ghost fs = view_fronts(fronts@);
    let mut selected: Vec<usize> = Vec::new();
    let mut k: usize = 0;
    assert(fs.take(0) =~= Seq::<Seq<usize>>::empty());
    while k < fronts.len()
        invariant
            fs == view_fronts(fronts@),
            k <= fs.len(),
            selected@ == fs.take(k as int).flatten(),
            selected@.len() == size_before(fs, k as int),
            selected@.len() <= target,
            first_overflow(fs, target as int) == first_overflow_from(fs, target as int, k as int),
        decreases fronts@.len() - k,
    {
        let front = &fronts[k];
        assert(front@ == fs[k as int]);
        if front.len() > target - selected.len() {
            assert(size_before(fs, k + 1) > target);
            let splitting = front.clone();
            assert(splitting@ == front@);
            return (selected, splitting);
        }
        let mut j: usize = 0;
        let ghost start = selected@;
        while j < front.len()
            invariant
                j <= front@.len(),
                selected@ == start + front@.take(j as int),
            decreases front.len() - j,
        {
            selected.push(front[j]);
            assert(selected@ =~= start + front@.take(j + 1));
            j = j + 1;
        }
        assert(front@.take(front@.len() as int) =~= front@);
        assert(fs.take(k + 1) =~= fs.take(k as int).push(fs[k as int]));
        proof {
            fs.take(k as int).lemma_flatten_push(fs[k as int]);
        }
        k = k + 1;
    }
    assert(fs.take(fs.len() as int) =~= fs);
    (selected, Vec::new())
}

// ---------------------------------------------------------------------------------------
// Niching.
// ---------------------------------------------------------------------------------------

/// How many pool members are associated with reference point `r`: among the first `n_sel`
/// (already selected) and among the picks `picked` so far.
pub open spec fn niche_count(assoc: Seq<usize>, n_sel: int, picked: Seq<usize>, r: usize) -> nat {
    assoc.take(n_sel).to_multiset().count(r) + picked.map_values(|k: usize| assoc[k as int]).to_multiset().count(r)
}

/// Pool member `k` is still a candidate: it belongs to the splitting front (at or after
/// position `n_sel`) and has not been picked.
pub open spec fn available(n_sel: int, pool_len: int, picked: Seq<usize>, k: int) -> bool {
    n_sel <= k < pool_len && !picked.contains(k as usize)
}

/// Some candidate is associated with reference point `r`.
pub open spec fn has_candidate(assoc: Seq<usize>, n_sel: int, picked: Seq<usize>, r: usize) -> bool {
    exists|k: int| #[trigger] available(n_sel, assoc.len() as int, picked, k) && assoc[k] == r
}

/// `j` is the reference point to fill next: among those with candidates, one with the
/// fewest associated members, the lowest-numbered on a tie.
pub open spec fn least_niche(assoc: Seq<usize>, n_sel: int, picked: Seq<usize>, j: usize) -> bool {
    &&& has_candidate(assoc, n_sel, picked, j)
    &&& forall|r: usize|
        #[trigger] has_candidate(assoc, n_sel, picked, r) ==> niche_count(assoc, n_sel, picked, j) < niche_count(
            assoc,
            n_sel,
            picked,
            r,
        ) || (niche_count(assoc, n_sel, picked, j) == niche_count(assoc, n_sel, picked, r) && j <= r)
}

/// `k` is the next pick after `picked`: a candidate of the reference point to fill next, the
/// one nearest to it (by the distance keys `dist`), the earliest on a tie.
pub open spec fn niche_pick(assoc: Seq<usize>, dist: Seq<i64>, n_sel: int, picked: Seq<usize>, k: usize) -> bool {
    &&& available(n_sel, assoc.len() as int, picked, k as int)
    &&& least_niche(assoc, n_sel, picked, assoc[k as int])
    &&& forall|k2: int|
        #[trigger] available(n_sel, assoc.len() as int, picked, k2) && assoc[k2] == assoc[k as int] ==> dist[k as int]
            < dist[k2] || (dist[k as int] == dist[k2] && k <= k2)
}

/// NSGA-III niching of the splitting front. The pool holds the selected members (positions
/// `0..n_sel`) and then the splitting front; `assoc[k]` is the reference point pool member
/// `k` is associated with and `dist[k]` its distance to it (as an order key). Picks `need`
/// members of the splitting front one at a time, each by [`niche_pick`] given the picks
/// before it, and returns their pool positions in order of picking.
pub fn niche_select(assoc: &[usize], dist: &[i64], n_sel: usize, n_refs: usize, need: usize) -> (picks: Vec<usize>)
    requires
        n_sel <= assoc@.len(),
        dist@.len() == assoc@.len(),
        need <= assoc@.len() - n_sel,
        forall|k: int| 0 <= k < assoc@.len() ==> #[trigger] assoc@[k] < n_refs,
    ensures
        picks@.len() == need,
        forall|t: int| 0 <= t < need ==> #[trigger] niche_pick(assoc@, dist@, n_sel as int, picks@.take(t), picks@[t]),
{
    let ghost a = assoc@;
    let ghost d = dist@;
    let pool_len = assoc.len();
    let ghost f = |k: usize| a[k as int];
    // Niche counts of the selected members.
    let mut niche: Vec<usize> = Vec::new();
    let mut r: usize = 0;
    while r < n_refs
        invariant
            r <= n_refs,
            niche@.len() == r,
            forall|r2: int| 0 <= r2 < r ==> #[trigger] niche@[r2] == 0,
        decreases n_refs - r,
    {
        niche.push(0);
        r = r + 1;
    }
    let mut k: usize = 0;
    assert(a.take(0).to_multiset() =~= Multiset::<usize>::empty());
    while k < n_sel
        invariant
            a == assoc@,
            n_sel <= a.len(),
            k <= n_sel,
            niche@.len() == n_refs,
            forall|k2: int| 0 <= k2 < a.len() ==> #[trigger] a[k2] < n_refs,
            forall|r2: int| 0 <= r2 < n_refs ==> #[trigger] niche@[r2] == a.take(k as int).to_multiset().count(r2 as usize),
            forall|r2: int| 0 <= r2 < n_refs ==> #[trigger] niche@[r2] <= k,
        decreases n_sel - k,
    {
        let x = assoc[k];
        assert(a.take(k + 1) =~= a.take(k as int).push(x));
        niche.set(x, niche[x] + 1);
        k = k + 1;
    }
    // Candidates: the splitting front, in increasing position.
    let mut avail: Vec<usize> = Vec::new();
    let mut k: usize = n_sel;
    while k < pool_len
        invariant
            n_sel <= k <= pool_len,
            pool_len == a.len(),
            avail@.len() == k - n_sel,
            forall|i: int| 0 <= i < avail@.len() ==> #[trigger] avail@[i] == n_sel + i,
        decreases pool_len - k,
    {
        avail.push(k);
        k = k + 1;
    }
    let mut picks: Vec<usize> = Vec::new();
    assert(picks@.map_values(f).to_multiset() =~= Multiset::<usize>::empty());
    assert forall|i: int, j: int| 0 <= i < j < avail@.len() implies #[trigger] avail@[i] < #[trigger] avail@[j] by {}
    assert forall|x: int| #[trigger] available(n_sel as int, pool_len as int, picks@, x) implies avail@.contains(x as usize) by {
        assert(avail@[x - n_sel] == x);
    }
    let mut t: usize = 0;
    while t < need
        invariant
            a == assoc@,
            d == dist@,
            f == (|k: usize| a[k as int]),
            pool_len == a.len(),
            d.len() == a.len(),
            n_sel <= a.len(),
            need <= a.len() - n_sel,
            t <= need,
            picks@.len() == t,
            niche@.len() == n_refs,
            forall|k2: int| 0 <= k2 < a.len() ==> #[trigger] a[k2] < n_refs,
            forall|r2: int| 0 <= r2 < n_refs ==> #[trigger] niche@[r2] == niche_count(a, n_sel as int, picks@, r2 as usize),
            forall|r2: int| 0 <= r2 < n_refs ==> #[trigger] niche@[r2] <= n_sel + t,
            avail@.len() == pool_len - n_sel - t,
            forall|i: int, j: int| 0 <= i < j < avail@.len() ==> #[trigger] avail@[i] < #[trigger] avail@[j],
            forall|i: int| 0 <= i < avail@.len() ==> available(n_sel as int, pool_len as int, picks@, #[trigger] avail@[i] as int),
            forall|x: int| #[trigger] available(n_sel as int, pool_len as int, picks@, x) ==> avail@.contains(x as usize),
            forall|t2: int| 0 <= t2 < t ==> #[trigger] niche_pick(a, d, n_sel as int, picks@.take(t2), picks@[t2]),
        decreases need - t,
    {
        // The reference point with the fewest members among those with candidates.
        let mut best_r: usize = 0;
        let mut best_count: usize = 0;
        let mut found = false;
        let mut i: usize = 0;
        while i < avail.len()
            invariant
                a == assoc@,
                niche@.len() == n_refs,
                forall|k2: int| 0 <= k2 < a.len() ==> #[trigger] a[k2] < n_refs,
                forall|i2: int| 0 <= i2 < avail@.len() ==> (#[trigger] avail@[i2]) < a.len(),
                i <= avail@.len(),
                !found ==> i == 0,
                found ==> best_r < n_refs && best_count == niche@[best_r as int],
                found ==> exists|i2: int| 0 <= i2 < i && a[avail@[i2] as int] == best_r,
                forall|i2: int|
                    0 <= i2 < i ==> niche@[best_r as int] < niche@[#[trigger] a[avail@[i2] as int] as int] || (
                    niche@[best_r as int] == niche@[a[avail@[i2] as int] as int] && best_r <= a[avail@[i2] as int]),
            decreases avail.len() - i,
        {
            let rr = assoc[avail[i]];
            let c = niche[rr];
            if !found || c < best_count || (c == best_count && rr < best_r) {
                best_r = rr;
                best_count = c;
                found = true;
            }
            i = i + 1;
        }
        // Its nearest candidate, the earliest on a tie.
        let mut pick_at: usize = 0;
        let mut have = false;
        let mut i: usize = 0;
        while i < avail.len()
            invariant
                a == assoc@,
                d == dist@,
                d.len() == a.len(),
                forall|i2: int| 0 <= i2 < avail@.len() ==> (#[trigger] avail@[i2]) < a.len(),
                forall|i2: int, j2: int| 0 <= i2 < j2 < avail@.len() ==> #[trigger] avail@[i2] < #[trigger] avail@[j2],
                i <= avail@.len(),
                have ==> pick_at < i && a[avail@[pick_at as int] as int] == best_r,
                forall|i2: int|
                    0 <= i2 < i && #[trigger] a[avail@[i2] as int] == best_r ==> have && (d[avail@[pick_at as int] as int]
                        < d[avail@[i2] as int] || (d[avail@[pick_at as int] as int] == d[avail@[i2] as int] && pick_at <= i2)),
            decreases avail.len() - i,
        {
            let kk = avail[i];
            if assoc[kk] == best_r && (!have || dist[kk] < dist[avail[pick_at]]) {
                pick_at = i;
                have = true;
            }
            i = i + 1;
        }
        proof {
            let i2 = choose|i2: int| 0 <= i2 < avail@.len() && a[avail@[i2] as int] == best_r;
            assert(a[avail@[i2] as int] == best_r);
        }
        let pick = avail[pick_at];
        proof {
            let p = picks@;
            assert(available(n_sel as int, pool_len as int, p, pick as int));
            assert(has_candidate(a, n_sel as int, p, best_r));
            assert forall|rr: usize| #[trigger] has_candidate(a, n_sel as int, p, rr) implies niche_count(a, n_sel as int, p, best_r)
                < niche_count(a, n_sel as int, p, rr) || (niche_count(a, n_sel as int, p, best_r) == niche_count(
                a,
                n_sel as int,
                p,
                rr,
            ) && best_r <= rr) by {
                let kx = choose|kx: int| #[trigger] available(n_sel as int, a.len() as int, p, kx) && a[kx] == rr;
                assert(avail@.contains(kx as usize));
                let ix = choose|ix: int| 0 <= ix < avail@.len() && avail@[ix] == kx as usize;
                assert(a[avail@[ix] as int] == rr);
                assert(niche@[rr as int] == niche_count(a, n_sel as int, p, rr));
            }
            assert(least_niche(a, n_sel as int, p, a[pick as int]));
            assert forall|k2: int| #[trigger] available(n_sel as int, a.len() as int, p, k2) && a[k2] == a[pick as int] implies d[pick as int]
                < d[k2] || (d[pick as int] == d[k2] && pick <= k2) by {
                assert(avail@.contains(k2 as usize));
                let ix = choose|ix: int| 0 <= ix < avail@.len() && avail@[ix] == k2 as usize;
                assert(a[avail@[ix] as int] == best_r);
                if pick_at < ix {
                    assert(avail@[pick_at as int] < avail@[ix]);
                }
            }
            assert(niche_pick(a, d, n_sel as int, p, pick));
        }
        let ghost old_picks = picks@;
        let ghost old_avail = avail@;
        picks.push(pick);
        niche.set(best_r, niche[best_r] + 1);
        avail.remove(pick_at);
        proof {
            let p = picks@;
            assert(p.take(t as int) =~= old_picks);
            assert(p.map_values(f) =~= old_picks.map_values(f).push(a[pick as int]));
            assert forall|r2: int| 0 <= r2 < n_refs implies #[trigger] niche@[r2] == niche_count(a, n_sel as int, p, r2 as usize) by {
                assert(old_picks.map_values(f).push(a[pick as int]).to_multiset() =~= old_picks.map_values(f).to_multiset().insert(
                    a[pick as int],
                ));
            }
            assert forall|t2: int| 0 <= t2 < t + 1 implies #[trigger] niche_pick(a, d, n_sel as int, p.take(t2), p[t2]) by {
                if t2 < t {
                    assert(p.take(t2) =~= old_picks.take(t2));
                    assert(p[t2] == old_picks[t2]);
                }
            }
            assert forall|i: int, j: int| 0 <= i < j < avail@.len() implies #[trigger] avail@[i] < #[trigger] avail@[j] by {
                if i >= pick_at {
                    assert(avail@[i] == old_avail[i + 1]);
                } else {
                    assert(avail@[i] == old_avail[i]);
                }
                if j >= pick_at {
                    assert(avail@[j] == old_avail[j + 1]);
                } else {
                    assert(avail@[j] == old_avail[j]);
                }
            }
            assert forall|i: int| 0 <= i < avail@.len() implies available(n_sel as int, pool_len as int, p, #[trigger] avail@[i] as int) by {
                let oi = if i >= pick_at { i + 1 } else { i };
                assert(avail@[i] == old_avail[oi]);
                assert(available(n_sel as int, pool_len as int, old_picks, old_avail[oi] as int));
                assert(old_avail[oi] != pick) by {
                    if oi < pick_at {
                        assert(old_avail[oi] < old_avail[pick_at as int]);
                    } else {
                        assert(old_avail[pick_at as int] < old_avail[oi]);
                    }
                }
                if p.contains(avail@[i]) {
                    let q = choose|q: int| 0 <= q < p.len() && p[q] == avail@[i];
                    if q < t {
                        assert(old_picks[q] == avail@[i]);
                    }
                }
            }
            assert forall|x: int| #[trigger] available(n_sel as int, pool_len as int, p, x) implies avail@.contains(x as usize) by {
                assert(p[t as int] == pick);
                if old_picks.contains(x as usize) {
                    let q = choose|q: int| 0 <= q < old_picks.len() && old_picks[q] == x as usize;
                    assert(p[q] == x);
                }
                assert(available(n_sel as int, pool_len as int, old_picks, x));
                let oi = choose|oi: int| 0 <= oi < old_avail.len() && old_avail[oi] == x as usize;
                if oi < pick_at {
                    assert(avail@[oi] == x);
                } else {
                    assert(oi != pick_at);
                    assert(avail@[oi - 1] == x);
                }
            }
        }
        t = t + 1;
    }
    picks
}

} // verus!
