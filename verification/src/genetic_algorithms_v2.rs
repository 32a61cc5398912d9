//! The decisions of an NSGA-II generation: which solutions survive, which enter the
//! archive, how many offspring the budget allows, and how evaluation is dispatched.
use vstd::prelude::*;

use crate::dominance::{
    all_comparable, count_true, dominates, in_fronts, lemma_count_true_all_false, lemma_count_true_update,
};
use crate::islands::{lemma_listed_front_transfer, listed_front, non_dominated_in, non_dominated_indices};
use crate::order::{lex_lt, lists, precedes, sort_by_keys, sorted_by_keys};
use crate::problem::{has_constraints_spec, Problem, Solution};

verus! {

/// How fitness evaluations are run.
#[derive(Clone, Copy, Debug, PartialEq, Eq, Structural)]
pub enum ExecutionMode {
    /// One thread.
    Sequential,
    /// A thread pool over the available cores.
    MultiThreaded,
    /// A GPU compute shader; falls back to `MultiThreaded` when no GPU evaluator is ready.
    GPU,
}

impl Default for ExecutionMode {
    fn default() -> (m: Self)
        ensures
            m == ExecutionMode::MultiThreaded,
    {
        ExecutionMode::MultiThreaded
    }
}

/// The path evaluation actually takes: a batch objective is called once on the calling
/// thread (`Sequential`); `GPU` runs on the GPU only when an evaluator is ready, and falls
/// back to `MultiThreaded` otherwise; the other modes run as requested.
pub fn effective_mode(batch_objective: bool, requested: ExecutionMode, gpu_ready: bool) -> (m: ExecutionMode)
    ensures
        m == if batch_objective {
            ExecutionMode::Sequential
        } else if requested == ExecutionMode::GPU {
            if gpu_ready {
                ExecutionMode::GPU
            } else {
                ExecutionMode::MultiThreaded
            }
        } else {
            requested
        },
{
    if batch_objective {
        return ExecutionMode::Sequential;
    }
    match requested {
        ExecutionMode::GPU => if gpu_ready {
            ExecutionMode::GPU
        } else {
            ExecutionMode::MultiThreaded
        },
        other => other,
    }
}

/// The offspring a generation may create once `nfe` evaluations are spent: none when the
/// budget `max_nfe` is reached, otherwise a full population or what is left of the budget,
/// whichever is smaller.
pub open spec fn offspring_budget(nfe: int, max_nfe: int, population_size: int) -> Option<int> {
    if nfe >= max_nfe {
        None
    } else if max_nfe - nfe < population_size {
        Some(max_nfe - nfe)
    } else {
        Some(population_size)
    }
}

/// The number of offspring the next generation may create under an evaluation budget:
/// none when `nfe` has reached `max_nfe` (the run stops), otherwise a full population or
/// what is left of the budget, whichever is smaller.
pub fn generation_budget(nfe: usize, max_nfe: usize, population_size: usize) -> (r: Option<usize>)
    ensures
        r is None <==> offspring_budget(nfe as int, max_nfe as int, population_size as int) is None,
        r matches Some(n) ==> offspring_budget(nfe as int, max_nfe as int, population_size as int) == Some(n as int),
{
    if nfe >= max_nfe {
        None
    } else {
        let remaining = max_nfe - nfe;
        Some(if remaining < population_size { remaining } else { population_size })
    }
}

/// The evaluation count at which a run that starts at `nfe` and spends each generation's
/// budget in full stops.
pub open spec fn nfe_at_stop(nfe: int, max_nfe: int, population_size: int) -> int
    decreases max_nfe - nfe,
{
    match offspring_budget(nfe, max_nfe, population_size) {
        Some(n) if n > 0 => nfe_at_stop(nfe + n, max_nfe, population_size),
        _ => nfe,
    }
}

/// A run never overshoots its budget: with a non-empty population, spending each
/// generation's budget stops at exactly `max_nfe`, or where it started when that was
/// already past the budget.
pub proof fn lemma_budget_never_overshoots(nfe: int, max_nfe: int, population_size: int)
    requires
        population_size > 0,
    ensures
        nfe_at_stop(nfe, max_nfe, population_size) == if nfe >= max_nfe { nfe } else { max_nfe },
    decreases max_nfe - nfe,
{
    if nfe < max_nfe {
        let n = offspring_budget(nfe, max_nfe, population_size).unwrap();
        lemma_budget_never_overshoots(nfe + n, max_nfe, population_size);
    }
}

/// The parents of mating `t`: consecutive selected parents, wrapping around the list.
pub open spec fn mating_pair(parents: Seq<usize>, t: int) -> (usize, usize) {
    (parents[(2 * t) % (parents.len() as int)], parents[(2 * t + 1) % (parents.len() as int)])
}

/// The first `count` matings over the selected `parents`: mating `t` pairs parents `2t` and
/// `2t + 1`, counted around the list. So consecutive parents mate together, in order, and
/// every parent takes part once `2 * count` reaches the number of parents.
pub fn mating_pairs(parents: &[usize], count: usize) -> (pairs: Vec<(usize, usize)>)
    requires
        count > 0 ==> parents@.len() > 0,
        count <= usize::MAX / 2,
    ensures
        pairs@.len() == count,
        forall|t: int| 0 <= t < count ==> #[trigger] pairs@[t] == mating_pair(parents@, t),
        forall|t: int|
            0 <= t < count ==> (#[trigger] pairs@[t]).0 == parents@[(2 * t) % (parents@.len() as int)] && pairs@[t].1
                == parents@[(2 * t + 1) % (parents@.len() as int)],
        forall|k: int|
            0 <= k < parents@.len() && k < 2 * count ==> (if k % 2 == 0 {
                pairs@[k / 2].0 == #[trigger] parents@[k]
            } else {
                pairs@[k / 2].1 == parents@[k]
            }),
{
    let np = parents.len();
    let mut pairs: Vec<(usize, usize)> = Vec::new();
    let mut t: usize = 0;
    while t < count
        invariant
            np == parents@.len(),
            count > 0 ==> np > 0,
            count <= usize::MAX / 2,
            t <= count,
            pairs@.len() == t,
            forall|t2: int| 0 <= t2 < t ==> #[trigger] pairs@[t2] == mating_pair(parents@, t2),
        decreases count - t,
    {
        let i = 2 * t;
        let p1 = parents[i % np];
        let p2 = parents[(i + 1) % np];
        pairs.push((p1, p2));
        t = t + 1;
    }
    proof {
        assert forall|k: int| 0 <= k < parents@.len() && k < 2 * count implies (if k % 2 == 0 {
            pairs@[k / 2].0 == #[trigger] parents@[k]
        } else {
            pairs@[k / 2].1 == parents@[k]
        }) by {
            let len = parents@.len() as int;
            let t = k / 2;
            assert(0 <= t < count);
            if k % 2 == 0 {
                assert(2 * t == k);
                vstd::arithmetic::div_mod::lemma_small_mod(k as nat, len as nat);
            } else {
                assert(2 * t + 1 == k);
                vstd::arithmetic::div_mod::lemma_small_mod(k as nat, len as nat);
            }
        }
    }
    pairs
}

// ---------------------------------------------------------------------------------------
// Fronts as a partition.
// ---------------------------------------------------------------------------------------

/// Every entry of `fronts` is an index below `n`, and no index occurs twice.
pub open spec fn fronts_partition(fronts: Seq<Seq<usize>>, n: nat) -> bool {
    &&& forall|k: int, j: int|
        0 <= k < fronts.len() && 0 <= j < fronts[k].len() ==> (#[trigger] fronts[k][j]) < n
    &&& forall|k1: int, j1: int, k2: int, j2: int|
        0 <= k1 < fronts.len() && 0 <= j1 < fronts[k1].len() && 0 <= k2 < fronts.len() && 0 <= j2
            < fronts[k2].len() && #[trigger] fronts[k1][j1] == #[trigger] fronts[k2][j2] ==> k1 == k2
            && j1 == j2
}

/// The index sequences of a vector of fronts.
pub open spec fn view_fronts(fronts: Seq<Vec<usize>>) -> Seq<Seq<usize>> {
    fronts.map_values(|f: Vec<usize>| f@)
}

/// The rank of every index: the number of the front that holds it, 0 for an index that no
/// front holds.
pub fn assign_ranks(fronts: &Vec<Vec<usize>>, n: usize) -> (rank: Vec<usize>)
    requires
        fronts_partition(view_fronts(fronts@), n as nat),
    ensures
        rank@.len() == n,
        forall|k: int, j: int|
            0 <= k < fronts@.len() && 0 <= j < fronts@[k]@.len() ==> rank@[#[trigger] fronts@[k]@[j] as int] == k,
        forall|x: int| 0 <= x < n && !in_fronts(view_fronts(fronts@), x) ==> #[trigger] rank@[x] == 0,
{
    let ghost fs = view_fronts(fronts@);
    let mut rank: Vec<usize> = Vec::new();
    let mut i: usize = 0;
    while i < n
        invariant
            i <= n,
            rank@.len() == i,
            forall|x: int| 0 <= x < i ==> #[trigger] rank@[x] == 0,
        decreases n - i,
    {
        rank.push(0);
        i = i + 1;
    }
    let mut k: usize = 0;
    while k < fronts.len()
        invariant
            fs == view_fronts(fronts@),
            fronts_partition(fs, n as nat),
            k <= fronts@.len(),
            rank@.len() == n,
            forall|k2: int, j: int|
                0 <= k2 < k && 0 <= j < fs[k2].len() ==> rank@[#[trigger] fs[k2][j] as int] == k2,
            forall|x: int|
                0 <= x < n && !(exists|k2: int, j: int| 0 <= k2 < k && 0 <= j < fs[k2].len() && fs[k2][j] == x)
                    ==> #[trigger] rank@[x] == 0,
        decreases fronts@.len() - k,
    {
        let front = &fronts[k];
        assert(front@ == fs[k as int]);
        let mut j: usize = 0;
        while j < front.len()
            invariant
                fs == view_fronts(fronts@),
                fronts_partition(fs, n as nat),
                k < fronts@.len(),
                front@ == fs[k as int],
                j <= front@.len(),
                rank@.len() == n,
                forall|k2: int, j2: int|
                    0 <= k2 < k && 0 <= j2 < fs[k2].len() ==> rank@[#[trigger] fs[k2][j2] as int] == k2,
                forall|j2: int| 0 <= j2 < j ==> rank@[#[trigger] fs[k as int][j2] as int] == k,
                forall|x: int|
                    0 <= x < n && !(exists|k2: int, j2: int|
                        0 <= k2 < k && 0 <= j2 < fs[k2].len() && fs[k2][j2] == x) && !(exists|j2: int|
                        0 <= j2 < j && fs[k as int][j2] == x) ==> #[trigger] rank@[x] == 0,
            decreases front@.len() - j,
        {
            let x = front[j];
            assert(fs[k as int][j as int] == x);
            let ghost before = rank@;
            rank.set(x, k);
            assert forall|k2: int, j2: int| 0 <= k2 < k && 0 <= j2 < fs[k2].len() implies rank@[#[trigger] fs[k2][j2] as int]
                == k2 by {
                if fs[k2][j2] == x {
                    assert(fs[k2][j2] == fs[k as int][j as int]);
                }
            }
            assert forall|j2: int| 0 <= j2 < j + 1 implies rank@[#[trigger] fs[k as int][j2] as int] == k by {
                if j2 < j && fs[k as int][j2] == x {
                    assert(fs[k as int][j2] == fs[k as int][j as int]);
                }
            }
            j = j + 1;
        }
        assert forall|x: int|
            0 <= x < n && !(exists|k2: int, j2: int| 0 <= k2 < k + 1 && 0 <= j2 < fs[k2].len() && fs[k2][j2] == x)
                implies #[trigger] rank@[x] == 0 by {
            if exists|j2: int| 0 <= j2 < front@.len() && fs[k as int][j2] == x {
                let j2 = choose|j2: int| 0 <= j2 < front@.len() && fs[k as int][j2] == x;
                assert(0 <= k < k + 1 && 0 <= j2 < fs[k as int].len() && fs[k as int][j2] == x);
            }
        }
        k = k + 1;
    }
    assert forall|x: int| 0 <= x < n && !in_fronts(fs, x) implies #[trigger] rank@[x] == 0 by {
        if exists|k2: int, j: int| 0 <= k2 < fronts@.len() && 0 <= j < fs[k2].len() && fs[k2][j] == x {
            let (k2, j) = choose|k2: int, j: int| 0 <= k2 < fronts@.len() && 0 <= j < fs[k2].len() && fs[k2][j] == x;
            assert(in_fronts(fs, x));
        }
    }
    assert forall|k2: int, j: int|
        0 <= k2 < fronts@.len() && 0 <= j < fronts@[k2]@.len() implies rank@[#[trigger] fronts@[k2]@[j] as int] == k2 by {
        assert(fs[k2][j] == fronts@[k2]@[j]);
    }
    rank
}

// ---------------------------------------------------------------------------------------
// Choosing by crowding distance.
// ---------------------------------------------------------------------------------------

/// Position `a` is ahead of position `b` by crowding: a larger distance, or an equal one at
/// an earlier position.
pub open spec fn ahead(crowding: Seq<i64>, a: int, b: int) -> bool {
    crowding[a] > crowding[b] || (crowding[a] == crowding[b] && a < b)
}

/// `top` lists `count` positions of `crowding`, best first, each ahead of every position it
/// leaves out: the `count` least crowded positions, ties to the earlier one.
pub open spec fn is_top(crowding: Seq<i64>, count: nat, top: Seq<usize>) -> bool {
    &&& top.len() == count
    &&& forall|t: int| 0 <= t < count ==> (#[trigger] top[t]) < crowding.len()
    &&& forall|t1: int, t2: int| 0 <= t1 < t2 < count ==> ahead(crowding, #[trigger] top[t1] as int, #[trigger] top[t2] as int)
    &&& forall|t: int, x: int|
        0 <= t < count && 0 <= x < crowding.len() && !top.contains(x as usize) ==> #[trigger] ahead(
            crowding,
            top[t] as int,
            x,
        )
}

spec fn crowd_keys(crowding: Seq<i64>) -> Seq<Seq<i128>> {
    Seq::new(crowding.len(), |i: int| seq![(-(crowding[i] as int)) as i128])
}

proof fn lemma_crowd_precedes(crowding: Seq<i64>, a: int, b: int)
    requires
        0 <= a < crowding.len(),
        0 <= b < crowding.len(),
    ensures
        precedes(crowd_keys(crowding), a, b) <==> ahead(crowding, a, b),
{
    let ks = crowd_keys(crowding);
    let ka = ks[a];
    let kb = ks[b];
    assert(ka.drop_first().len() == 0);
    assert(!lex_lt(ka.drop_first(), kb.drop_first()));
    assert(lex_lt(ka, kb) <==> ka[0] < kb[0]);
    if crowding[a] == crowding[b] {
        assert(ka =~= kb);
    } else {
        assert(ka[0] != kb[0]);
    }
}

/// The `count` least crowded positions of `crowding` (largest distance first, ties to the
/// earlier position), as kept when a front must be cut.
pub fn top_by_crowding(crowding: &[i64], count: usize) -> (top: Vec<usize>)
    requires
        count <= crowding@.len(),
    ensures
        is_top(crowding@, count as nat, top@),
{
    let ghost c = crowding@;
    let ghost ks = crowd_keys(c);
    let mut keys: Vec<Vec<i128>> = Vec::new();
    let mut i: usize = 0;
    while i < crowding.len()
        invariant
            c == crowding@,
            ks == crowd_keys(c),
            i <= c.len(),
            keys@.len() == i,
            forall|j: int| 0 <= j < i ==> (#[trigger] keys@[j])@ == ks[j],
        decreases crowding.len() - i,
    {
        let key: i128 = -(crowding[i] as i128);
        let mut row: Vec<i128> = Vec::new();
        row.push(key);
        assert(row@ =~= ks[i as int]);
        keys.push(row);
        i = i + 1;
    }
    assert(keys@.map_values(|r: Vec<i128>| r@) =~= ks);
    let order = sort_by_keys(&keys, Ghost(1nat));
    assert(sorted_by_keys(ks, order@));
    let mut top: Vec<usize> = Vec::new();
    let mut t: usize = 0;
    while t < count
        invariant
            c == crowding@,
            ks == crowd_keys(c),
            sorted_by_keys(ks, order@),
            count <= c.len(),
            t <= count,
            top@ == order@.take(t as int),
        decreases count - t,
    {
        top.push(order[t]);
        assert(top@ =~= order@.take(t + 1));
        t = t + 1;
    }
    assert forall|t1: int, t2: int| 0 <= t1 < t2 < count implies ahead(c, #[trigger] top@[t1] as int, #[trigger] top@[t2] as int) by {
        assert(precedes(ks, order@[t1] as int, order@[t2] as int));
        lemma_crowd_precedes(c, top@[t1] as int, top@[t2] as int);
    }
    assert forall|t1: int, x: int|
        0 <= t1 < count && 0 <= x < c.len() && !top@.contains(x as usize) implies #[trigger] ahead(c, top@[t1] as int, x) by {
        assert(lists(order@, x));
        let t2 = choose|t2: int| 0 <= t2 < order@.len() && order@[t2] == x;
        if t2 < count {
            assert(top@[t2] == x);
        }
        assert(precedes(ks, order@[t1] as int, order@[t2] as int));
        lemma_crowd_precedes(c, top@[t1] as int, x);
    }
    top
}

// ---------------------------------------------------------------------------------------
// Survival.
// ---------------------------------------------------------------------------------------

/// The number of solutions in the fronts before front `k`.
pub open spec fn size_before(fronts: Seq<Seq<usize>>, k: int) -> int
    decreases k,
{
    if k <= 0 {
        0
    } else {
        size_before(fronts, k - 1) + fronts[k - 1].len()
    }
}

proof fn lemma_size_before_monotone(fronts: Seq<Seq<usize>>, a: int, b: int)
    requires
        0 <= a <= b,
    ensures
        size_before(fronts, a) <= size_before(fronts, b),
    decreases b - a,
{
    if a < b {
        lemma_size_before_monotone(fronts, a, b - 1);
    }
}

/// The crowding distances of the members of `front`, in front order.
pub open spec fn front_crowding(crowding: Seq<i64>, front: Seq<usize>) -> Seq<i64> {
    Seq::new(front.len(), |j: int| crowding[front[j] as int])
}

/// Of `front`, exactly the members at the positions of the `count` least crowded are kept.
pub open spec fn keeps_top(crowding: Seq<i64>, front: Seq<usize>, count: nat, keep: Seq<bool>) -> bool {
    exists|top: Seq<usize>|
        #[trigger] is_top(front_crowding(crowding, front), count, top) && forall|j: int|
            0 <= j < front.len() ==> keep[#[trigger] front[j] as int] == top.contains(j as usize)
}

/// What NSGA-II keeps of front `k` when `target` solutions survive: the whole front when it
/// fits after the fronts before it; nothing when those already fill the target; otherwise
/// the least crowded members, as many as are left to fill.
pub open spec fn survival_of_front(fronts: Seq<Seq<usize>>, crowding: Seq<i64>, target: int, keep: Seq<bool>, k: int) -> bool {
    &&& size_before(fronts, k + 1) <= target ==> forall|j: int|
        0 <= j < fronts[k].len() ==> keep[#[trigger] fronts[k][j] as int]
    &&& size_before(fronts, k) >= target ==> forall|j: int|
        0 <= j < fronts[k].len() ==> !keep[#[trigger] fronts[k][j] as int]
    &&& size_before(fronts, k) < target < size_before(fronts, k + 1) ==> keeps_top(
        crowding,
        fronts[k],
        (target - size_before(fronts, k)) as nat,
        keep,
    )
}

/// Which indices below `n` the fronts before `k`, and the first `j` members of front `k`,
/// hold.
spec fn covered(fs: Seq<Seq<usize>>, n: nat, k: int, j: int) -> Seq<bool> {
    Seq::new(
        n,
        |x: int|
            (exists|k2: int, j2: int| 0 <= k2 < k && 0 <= j2 < fs[k2].len() && fs[k2][j2] == x) || (exists|j2: int|
                0 <= j2 < j && fs[k][j2] == x),
    )
}

proof fn lemma_count_true_all_true(n: nat)
    ensures
        count_true(Seq::new(n, |i: int| true)) == n,
    decreases n,
{
    if n > 0 {
        assert(Seq::new(n, |i: int| true).drop_last() =~= Seq::new((n - 1) as nat, |i: int| true));
        lemma_count_true_all_true((n - 1) as nat);
    }
}

proof fn lemma_cover_count(fs: Seq<Seq<usize>>, n: nat, k: int, j: int)
    requires
        fronts_partition(fs, n),
        0 <= k <= fs.len(),
        0 <= j,
        k < fs.len() ==> j <= fs[k].len(),
        k == fs.len() ==> j == 0,
    ensures
        count_true(covered(fs, n, k, j)) == size_before(fs, k) + j,
    decreases k, j,
{
    if j > 0 {
        lemma_cover_count(fs, n, k, j - 1);
        let prev = covered(fs, n, k, j - 1);
        let x = fs[k][j - 1];
        assert(x < n);
        assert(!prev[x as int]) by {
            if exists|k2: int, j2: int| 0 <= k2 < k && 0 <= j2 < fs[k2].len() && fs[k2][j2] == x {
                let (k2, j2) = choose|k2: int, j2: int| 0 <= k2 < k && 0 <= j2 < fs[k2].len() && fs[k2][j2] == x;
                assert(fs[k2][j2] == fs[k][j - 1]);
            }
            if exists|j2: int| 0 <= j2 < j - 1 && fs[k][j2] == x {
                let j2 = choose|j2: int| 0 <= j2 < j - 1 && fs[k][j2] == x;
                assert(fs[k][j2] == fs[k][j - 1]);
            }
        }
        assert(covered(fs, n, k, j) =~= prev.update(x as int, true)) by {
            assert forall|y: int| 0 <= y < n implies covered(fs, n, k, j)[y] == prev.update(x as int, true)[y] by {
                if exists|j2: int| 0 <= j2 < j && fs[k][j2] == y {
                    let j2 = choose|j2: int| 0 <= j2 < j && fs[k][j2] == y;
                    if j2 < j - 1 {
                        assert(exists|j3: int| 0 <= j3 < j - 1 && fs[k][j3] == y);
                    }
                }
            }
        }
        lemma_count_true_update(prev, x as int);
    } else if k > 0 {
        lemma_cover_count(fs, n, k - 1, fs[k - 1].len() as int);
        assert(covered(fs, n, k, 0) =~= covered(fs, n, k - 1, fs[k - 1].len() as int)) by {
            assert forall|y: int| 0 <= y < n implies covered(fs, n, k, 0)[y] == covered(fs, n, k - 1, fs[k - 1].len() as int)[y] by {
                if exists|k2: int, j2: int| 0 <= k2 < k && 0 <= j2 < fs[k2].len() && fs[k2][j2] == y {
                    let (k2, j2) = choose|k2: int, j2: int| 0 <= k2 < k && 0 <= j2 < fs[k2].len() && fs[k2][j2] == y;
                    if k2 < k - 1 {
                        assert(exists|k3: int, j3: int| 0 <= k3 < k - 1 && 0 <= j3 < fs[k3].len() && fs[k3][j3] == y);
                    } else {
                        assert(0 <= j2 < fs[k - 1].len() && fs[k - 1][j2] == y);
                    }
                }
            }
        }
    } else {
        assert(covered(fs, n, 0, 0) =~= Seq::new(n, |i: int| false));
        crate::dominance::lemma_count_true_all_false(n);
    }
}

/// Fronts that partition `0..n` and hold every index hold `n` solutions in all.
pub proof fn lemma_partition_size(fs: Seq<Seq<usize>>, n: nat)
    requires
        fronts_partition(fs, n),
        forall|x: int| 0 <= x < n ==> #[trigger] in_fronts(fs, x),
    ensures
        size_before(fs, fs.len() as int) == n,
{
    lemma_cover_count(fs, n, fs.len() as int, 0);
    assert(covered(fs, n, fs.len() as int, 0) =~= Seq::new(n, |i: int| true)) by {
        assert forall|y: int| 0 <= y < n implies #[trigger] covered(fs, n, fs.len() as int, 0)[y] by {
            assert(in_fronts(fs, y));
        }
    }
    lemma_count_true_all_true(n);
}

/// NSGA-II survival: which of `n` solutions, sorted into `fronts` and with crowding
/// distances (as order keys) `crowding`, survive to a population of `target`. Whole fronts
/// are taken best first while they fit; the first front that does not fit is cut to its
/// least crowded members; no later front survives.
pub fn select_survivors(fronts: &Vec<Vec<usize>>, crowding: &[i64], n: usize, target: usize) -> (keep: Vec<bool>)
    requires
        fronts_partition(view_fronts(fronts@), n as nat),
        crowding@.len() >= n,
    ensures
        keep@.len() == n,
        forall|x: int| 0 <= x < n && #[trigger] keep@[x] ==> in_fronts(view_fronts(fronts@), x),
        forall|k: int| 0 <= k < fronts@.len() ==> #[trigger] survival_of_front(view_fronts(fronts@), crowding@, target as int, keep@, k),
        count_true(keep@) == if size_before(view_fronts(fronts@), fronts@.len() as int) <= target {
            size_before(view_fronts(fronts@), fronts@.len() as int)
        } else {
            target as int
        },
        (forall|x: int| 0 <= x < n ==> #[trigger] in_fronts(view_fronts(fronts@), x)) ==> count_true(keep@)
            == if n <= target {
            n as int
        } else {
            target as int
        },
{
    let ghost fs = view_fronts(fronts@);
    let ghost c = crowding@;
    let mut keep: Vec<bool> = Vec::new();
    let mut i: usize = 0;
    while i < n
        invariant
            i <= n,
            keep@.len() == i,
            forall|x: int| 0 <= x < i ==> !(#[trigger] keep@[x]),
        decreases n - i,
    {
        keep.push(false);
        i = i + 1;
    }
    proof {
        assert(keep@ =~= Seq::new(n as nat, |i: int| false));
        lemma_count_true_all_false(n as nat);
    }
    let mut count: usize = 0;
    let mut k: usize = 0;
    let mut cut = false;
    while k < fronts.len() && !cut
        invariant
            fs == view_fronts(fronts@),
            c == crowding@,
            fronts_partition(fs, n as nat),
            c.len() >= n,
            keep@.len() == n,
            k <= fs.len(),
            !cut ==> count == size_before(fs, k as int),
            count <= target,
            !cut ==> count_true(keep@) == count,
            cut ==> count_true(keep@) == target,
            !cut ==> forall|k2: int, j: int| 0 <= k2 < k && 0 <= j < fs[k2].len() ==> keep@[#[trigger] fs[k2][j] as int],
            !cut ==> forall|x: int|
                0 <= x < n && #[trigger] keep@[x] ==> exists|k2: int, j: int|
                    0 <= k2 < k && 0 <= j < fs[k2].len() && fs[k2][j] == x,
            cut ==> k >= 1,
            cut ==> size_before(fs, k as int) > target,
            cut ==> count == size_before(fs, k - 1),
            cut ==> forall|k2: int, j: int| 0 <= k2 < k - 1 && 0 <= j < fs[k2].len() ==> keep@[#[trigger] fs[k2][j] as int],
            cut ==> keeps_top(c, fs[k - 1], (target - count) as nat, keep@),
            cut ==> forall|x: int|
                0 <= x < n && #[trigger] keep@[x] ==> exists|k2: int, j: int|
                    0 <= k2 < k && 0 <= j < fs[k2].len() && fs[k2][j] == x,
        decreases fronts@.len() - k,
    {
        let front = &fronts[k];
        assert(front@ == fs[k as int]);
        if front.len() <= target - count {
            let mut j: usize = 0;
            while j < front.len()
                invariant
                    fs == view_fronts(fronts@),
                    fronts_partition(fs, n as nat),
                    k < fs.len(),
                    front@ == fs[k as int],
                    keep@.len() == n,
                    j <= front@.len(),
                    forall|k2: int, j2: int| 0 <= k2 < k && 0 <= j2 < fs[k2].len() ==> keep@[#[trigger] fs[k2][j2] as int],
                    forall|j2: int| 0 <= j2 < j ==> keep@[#[trigger] fs[k as int][j2] as int],
                    forall|x: int|
                        0 <= x < n && #[trigger] keep@[x] ==> (exists|k2: int, j2: int|
                            0 <= k2 < k && 0 <= j2 < fs[k2].len() && fs[k2][j2] == x) || (exists|j2: int|
                            0 <= j2 < j && fs[k as int][j2] == x),
                    count_true(keep@) == count + j,
                    count + front@.len() <= target,
                decreases front@.len() - j,
            {
                let x = front[j];
                assert(fs[k as int][j as int] == x);
                proof {
                    if keep@[x as int] {
                        if exists|k2: int, j2: int| 0 <= k2 < k && 0 <= j2 < fs[k2].len() && fs[k2][j2] == x {
                            let (k2, j2) = choose|k2: int, j2: int| 0 <= k2 < k && 0 <= j2 < fs[k2].len() && fs[k2][j2] == x;
                            assert(fs[k2][j2] == fs[k as int][j as int]);
                        } else {
                            let j2 = choose|j2: int| 0 <= j2 < j && fs[k as int][j2] == x;
                            assert(fs[k as int][j2] == fs[k as int][j as int]);
                        }
                    }
                    lemma_count_true_update(keep@, x as int);
                }
                keep.set(x, true);
                j = j + 1;
            }
            proof {
                assert forall|x: int| 0 <= x < n && #[trigger] keep@[x] implies exists|k2: int, j2: int|
                    0 <= k2 < k + 1 && 0 <= j2 < fs[k2].len() && fs[k2][j2] == x by {
                    if !(exists|k2: int, j2: int| 0 <= k2 < k && 0 <= j2 < fs[k2].len() && fs[k2][j2] == x) {
                        let j2 = choose|j2: int| 0 <= j2 < front@.len() && fs[k as int][j2] == x;
                        assert(0 <= k < k + 1 && 0 <= j2 < fs[k as int].len() && fs[k as int][j2] == x);
                    }
                }
            }
            count = count + front.len();
            assert(size_before(fs, k + 1) == size_before(fs, k as int) + fs[k as int].len());
        } else {
            let remaining = target - count;
            let mut local: Vec<i64> = Vec::new();
            let mut j: usize = 0;
            while j < front.len()
                invariant
                    fs == view_fronts(fronts@),
                    c == crowding@,
                    fronts_partition(fs, n as nat),
                    c.len() >= n,
                    k < fs.len(),
                    front@ == fs[k as int],
                    j <= front@.len(),
                    local@ == front_crowding(c, front@).take(j as int),
                decreases front@.len() - j,
            {
                assert(fs[k as int][j as int] < n);
                local.push(crowding[front[j]]);
                assert(local@ =~= front_crowding(c, front@).take(j + 1));
                j = j + 1;
            }
            assert(local@ =~= front_crowding(c, front@));
            let top = top_by_crowding(&local, remaining);
            let ghost before = keep@;
            let mut t: usize = 0;
            while t < remaining
                invariant
                    fs == view_fronts(fronts@),
                    fronts_partition(fs, n as nat),
                    k < fs.len(),
                    front@ == fs[k as int],
                    keep@.len() == n,
                    before.len() == n,
                    remaining <= front@.len(),
                    is_top(front_crowding(c, front@), remaining as nat, top@),
                    t <= remaining,
                    forall|x: int|
                        0 <= x < n ==> #[trigger] keep@[x] == (before[x] || exists|t2: int|
                            0 <= t2 < t && front@[top@[t2] as int] == x),
                    forall|x: int|
                        0 <= x < n && #[trigger] before[x] ==> exists|k2: int, j2: int|
                            0 <= k2 < k && 0 <= j2 < fs[k2].len() && fs[k2][j2] == x,
                    count_true(keep@) == count + t,
                decreases remaining - t,
            {
                let pos = top[t];
                let x = front[pos];
                assert(fs[k as int][pos as int] < n);
                proof {
                    assert(fs[k as int][pos as int] == x);
                    if keep@[x as int] {
                        if before[x as int] {
                            let (k2, j2) = choose|k2: int, j2: int| 0 <= k2 < k && 0 <= j2 < fs[k2].len() && fs[k2][j2] == x;
                            assert(fs[k2][j2] == fs[k as int][pos as int]);
                        } else {
                            let t2 = choose|t2: int| 0 <= t2 < t && front@[top@[t2] as int] == x;
                            assert(fs[k as int][top@[t2] as int] == fs[k as int][pos as int]);
                            assert(top@[t2] == pos);
                            assert(ahead(front_crowding(c, front@), top@[t2] as int, top@[t as int] as int));
                        }
                    }
                    lemma_count_true_update(keep@, x as int);
                }
                keep.set(x, true);
                t = t + 1;
            }
            assert forall|j2: int| 0 <= j2 < front@.len() implies keep@[#[trigger] front@[j2] as int] == top@.contains(
                j2 as usize,
            ) by {
                let x = front@[j2] as int;
                assert(fs[k as int][j2] == x);
                if before[x] {
                    let (k2, j3) = choose|k2: int, j3: int| 0 <= k2 < k && 0 <= j3 < fs[k2].len() && fs[k2][j3] == x;
                    assert(fs[k2][j3] == fs[k as int][j2]);
                }
                if top@.contains(j2 as usize) {
                    let t2 = choose|t2: int| 0 <= t2 < top@.len() && top@[t2] == j2 as usize;
                    assert(front@[top@[t2] as int] == x);
                }
                if exists|t2: int| 0 <= t2 < remaining && front@[top@[t2] as int] == x {
                    let t2 = choose|t2: int| 0 <= t2 < remaining && front@[top@[t2] as int] == x;
                    assert(fs[k as int][top@[t2] as int] == fs[k as int][j2]);
                    assert(top@[t2] == j2);
                }
            }
            assert(keeps_top(c, fs[k as int], (target - count) as nat, keep@));
            assert forall|x: int| 0 <= x < n && #[trigger] keep@[x] implies exists|k2: int, j2: int|
                0 <= k2 < k + 1 && 0 <= j2 < fs[k2].len() && fs[k2][j2] == x by {
                if !before[x] {
                    let t2 = choose|t2: int| 0 <= t2 < remaining && front@[top@[t2] as int] == x;
                    assert(0 <= k < k + 1 && 0 <= top@[t2] < fs[k as int].len() && fs[k as int][top@[t2] as int] == x);
                } else {
                    let (k2, j3) = choose|k2: int, j3: int| 0 <= k2 < k && 0 <= j3 < fs[k2].len() && fs[k2][j3] == x;
                    assert(0 <= k2 < k + 1 && 0 <= j3 < fs[k2].len() && fs[k2][j3] == x);
                }
            }
            assert(size_before(fs, k + 1) == size_before(fs, k as int) + fs[k as int].len());
            assert(count + remaining == target);
            cut = true;
        }
        k = k + 1;
    }
    proof {
        if cut {
            lemma_size_before_monotone(fs, k as int, fs.len() as int);
        }
        if forall|x: int| 0 <= x < n ==> #[trigger] in_fronts(fs, x) {
            lemma_partition_size(fs, n as nat);
        }
        let split = if cut { k - 1 } else { fs.len() as int };
        assert forall|k2: int| 0 <= k2 < fs.len() implies #[trigger] survival_of_front(fs, c, target as int, keep@, k2) by {
            if k2 < split {
                lemma_size_before_monotone(fs, k2 + 1, split);
                assert(size_before(fs, k2 + 1) <= target);
                assert(size_before(fs, k2 + 1) == size_before(fs, k2) + fs[k2].len());
                assert forall|j: int| 0 <= j < fs[k2].len() implies keep@[#[trigger] fs[k2][j] as int] by {}
            } else if k2 == split {
                assert(size_before(fs, k2 + 1) > target);
                assert forall|j: int| 0 <= j < fs[k2].len() && size_before(fs, k2) >= target implies !keep@[
                    #[trigger] fs[k2][j] as int] by {
                    let et = choose|top: Seq<usize>|
                        #[trigger] is_top(front_crowding(c, fs[k2]), (target - count) as nat, top) && forall|j: int|
                            0 <= j < fs[k2].len() ==> keep@[#[trigger] fs[k2][j] as int] == top.contains(j as usize);
                    assert(et.len() == 0);
                    assert(keep@[fs[k2][j] as int] == et.contains(j as usize));
                }
            } else {
                lemma_size_before_monotone(fs, split + 1, k2);
                assert forall|j: int| 0 <= j < fs[k2].len() implies !keep@[#[trigger] fs[k2][j] as int] by {
                    let x = fs[k2][j] as int;
                    if keep@[x] {
                        let (k3, j3) = choose|k3: int, j3: int| 0 <= k3 < k && 0 <= j3 < fs[k3].len() && fs[k3][j3] == x;
                        assert(fs[k3][j3] == fs[k2][j]);
                    }
                }
            }
        }
        assert forall|x: int| 0 <= x < n && #[trigger] keep@[x] implies in_fronts(fs, x) by {
            let (k3, j3) = choose|k3: int, j3: int| 0 <= k3 < k && 0 <= j3 < fs[k3].len() && fs[k3][j3] == x;
        }
    }
    keep
}

// ---------------------------------------------------------------------------------------
// Filters over a population.
// ---------------------------------------------------------------------------------------

/// `r` lists, in increasing order, exactly the indices below `n` that satisfy `pred`.
pub open spec fn lists_matching(r: Seq<usize>, n: nat, pred: spec_fn(int) -> bool) -> bool {
    &&& forall|i: int| 0 <= i < r.len() ==> (#[trigger] r[i]) < n && pred(r[i] as int)
    &&& forall|i: int, j: int| 0 <= i < j < r.len() ==> #[trigger] r[i] < #[trigger] r[j]
    &&& forall|x: int| 0 <= x < n && #[trigger] pred(x) ==> r.contains(x as usize)
}

/// A population member may enter the archive: it is feasible and evaluated, and, when the
/// ranks are current (one per member), it sits in front 0. Any feasible member outside
/// front 0 is dominated by a feasible member of front 0, so nothing else can survive there.
pub open spec fn archive_candidate(pop: Seq<Solution>, ranks: Seq<usize>, x: int) -> bool {
    pop[x].feasible && pop[x].evaluated && (ranks.len() != pop.len() || ranks[x] == 0)
}

/// The indices of the population members that may enter the archive, in population order.
pub fn archive_candidates(population: &[Solution], ranks: &[usize]) -> (r: Vec<usize>)
    ensures
        lists_matching(r@, population@.len(), |x: int| archive_candidate(population@, ranks@, x)),
{
    let ghost pred = |x: int| archive_candidate(population@, ranks@, x);
    let ranks_valid = ranks.len() == population.len();
    let mut r: Vec<usize> = Vec::new();
    let mut i: usize = 0;
    while i < population.len()
        invariant
            pred == (|x: int| archive_candidate(population@, ranks@, x)),
            ranks_valid == (ranks@.len() == population@.len()),
            i <= population@.len(),
            forall|t: int| 0 <= t < r@.len() ==> (#[trigger] r@[t]) < i && pred(r@[t] as int),
            forall|t1: int, t2: int| 0 <= t1 < t2 < r@.len() ==> #[trigger] r@[t1] < #[trigger] r@[t2],
            forall|x: int| 0 <= x < i && #[trigger] pred(x) ==> r@.contains(x as usize),
        decreases population@.len() - i,
    {
        let s = &population[i];
        if s.feasible && s.evaluated && (!ranks_valid || ranks[i] == 0) {
            let ghost before = r@;
            r.push(i);
            assert forall|x: int| 0 <= x < i + 1 && #[trigger] pred(x) implies r@.contains(x as usize) by {
                if x < i {
                    let t = choose|t: int| 0 <= t < before.len() && before[t] == x;
                    assert(r@[t] == x);
                } else {
                    assert(r@[r@.len() - 1] == x);
                }
            }
        }
        i = i + 1;
    }
    r
}

/// The indices of the population members that still need evaluating, in population order.
pub fn unevaluated_indices(population: &[Solution]) -> (r: Vec<usize>)
    ensures
        lists_matching(r@, population@.len(), |x: int| !population@[x].evaluated),
{
    let ghost pred = |x: int| !population@[x].evaluated;
    let mut r: Vec<usize> = Vec::new();
    let mut i: usize = 0;
    while i < population.len()
        invariant
            pred == (|x: int| !population@[x].evaluated),
            i <= population@.len(),
            forall|t: int| 0 <= t < r@.len() ==> (#[trigger] r@[t]) < i && pred(r@[t] as int),
            forall|t1: int, t2: int| 0 <= t1 < t2 < r@.len() ==> #[trigger] r@[t1] < #[trigger] r@[t2],
            forall|x: int| 0 <= x < i && #[trigger] pred(x) ==> r@.contains(x as usize),
        decreases population@.len() - i,
    {
        if !population[i].evaluated {
            let ghost before = r@;
            r.push(i);
            assert forall|x: int| 0 <= x < i + 1 && #[trigger] pred(x) implies r@.contains(x as usize) by {
                if x < i {
                    let t = choose|t: int| 0 <= t < before.len() && before[t] == x;
                    assert(r@[t] == x);
                } else {
                    assert(r@[r@.len() - 1] == x);
                }
            }
        }
        i = i + 1;
    }
    r
}

/// The positions of the survivors that [`select_survivors`] marked in `keep`, in their
/// original order.
pub fn survivor_indices(keep: &[bool]) -> (r: Vec<usize>)
    ensures
        lists_matching(r@, keep@.len(), |x: int| keep@[x]),
{
    let ghost pred = |x: int| keep@[x];
    let mut r: Vec<usize> = Vec::new();
    let mut i: usize = 0;
    while i < keep.len()
        invariant
            pred == (|x: int| keep@[x]),
            i <= keep@.len(),
            forall|t: int| 0 <= t < r@.len() ==> (#[trigger] r@[t]) < i && pred(r@[t] as int),
            forall|t1: int, t2: int| 0 <= t1 < t2 < r@.len() ==> #[trigger] r@[t1] < #[trigger] r@[t2],
            forall|x: int| 0 <= x < i && #[trigger] pred(x) ==> r@.contains(x as usize),
        decreases keep@.len() - i,
    {
        if keep[i] {
            let ghost before = r@;
            r.push(i);
            assert forall|x: int| 0 <= x < i + 1 && #[trigger] pred(x) implies r@.contains(x as usize) by {
                if x < i {
                    let t = choose|t: int| 0 <= t < before.len() && before[t] == x;
                    assert(r@[t] == x);
                } else {
                    assert(r@[r@.len() - 1] == x);
                }
            }
        }
        i = i + 1;
    }
    r
}

// ---------------------------------------------------------------------------------------
// The archive.
// ---------------------------------------------------------------------------------------

/// The archive followed by the population members at `cands`: the pool an archive update
/// chooses from.
pub open spec fn archive_pool(archive: Seq<Solution>, pop: Seq<Solution>, cands: Seq<usize>) -> Seq<Solution> {
    archive + Seq::new(cands.len(), |i: int| pop[cands[i] as int])
}

/// The non-dominated part of the archive and the population's archive candidates at `cands`
/// (see [`archive_candidates`]): `None`, leaving the archive as it is, when there are no
/// candidates; otherwise the positions in [`archive_pool`] of exactly its non-dominated
/// members, once each, in sort order.
pub fn archive_front(problem: &Problem, archive: &[Solution], population: &[Solution], cands: &[usize]) -> (picked: Option<Vec<usize>>)
    requires
        forall|i: int| 0 <= i < cands@.len() ==> #[trigger] cands@[i] < population@.len(),
        all_comparable(*problem, archive_pool(archive@, population@, cands@)),
        !(problem.number_of_objectives == 0 && !has_constraints_spec(*problem) && archive@.len() + cands@.len() >= 200),
    ensures
        picked is None <==> cands@.len() == 0,
        picked matches Some(v) ==> listed_front(*problem, archive_pool(archive@, population@, cands@), v@),
{
    if cands.len() == 0 {
        return None;
    }
    let ghost spool = archive_pool(archive@, population@, cands@);
    let mut pool: Vec<Solution> = Vec::new();
    let mut i: usize = 0;
    while i < archive.len()
        invariant
            spool == archive_pool(archive@, population@, cands@),
            i <= archive@.len(),
            pool@.len() == i,
            forall|k: int| 0 <= k < i ==> (#[trigger] pool@[k]).same_record(spool[k]),
        decreases archive.len() - i,
    {
        let s = archive[i].clone();
        pool.push(s);
        i = i + 1;
    }
    let mut j: usize = 0;
    while j < cands.len()
        invariant
            spool == archive_pool(archive@, population@, cands@),
            forall|k: int| 0 <= k < cands@.len() ==> #[trigger] cands@[k] < population@.len(),
            j <= cands@.len(),
            pool@.len() == archive@.len() + j,
            forall|k: int| 0 <= k < pool@.len() ==> (#[trigger] pool@[k]).same_record(spool[k]),
        decreases cands.len() - j,
    {
        let s = population[cands[j]].clone();
        pool.push(s);
        assert(spool[archive@.len() + j] == population@[cands@[j as int] as int]);
        j = j + 1;
    }
    let ghost pl = pool@;
    assert(pl.len() == spool.len());
    assert forall|k: int| 0 <= k < pl.len() implies crate::dominance::comparable(*problem, #[trigger] pl[k]) by {
        assert(pl[k].same_record(spool[k]));
        assert(crate::dominance::comparable(*problem, spool[k]));
    }
    let picked = non_dominated_indices(problem, &pool);
    proof {
        lemma_listed_front_transfer(*problem, pl, spool, picked@);
    }
    Some(picked)
}

/// `kept` lists the positions of a front of `len` members that stay in an archive capped at
/// `cap`: all of them in order when the front fits, otherwise the `cap` least crowded
/// ([`is_top`] over the front's crowding distances, one per member).
pub open spec fn capped_positions(len: nat, crowding: Seq<i64>, cap: nat, kept: Seq<usize>) -> bool {
    if len <= cap {
        kept == Seq::new(len, |i: int| i as usize)
    } else {
        crowding.len() == len && is_top(crowding, cap, kept)
    }
}

/// The positions of a front of `front_len` members kept by an archive of at most `cap`
/// solutions: every position when the front fits, otherwise the `cap` least crowded, best
/// first.
pub fn archive_cap(front_len: usize, crowding: &[i64], cap: usize) -> (kept: Vec<usize>)
    requires
        front_len > cap ==> crowding@.len() == front_len,
    ensures
        capped_positions(front_len as nat, crowding@, cap as nat, kept@),
{
    if front_len > cap {
        return top_by_crowding(crowding, cap);
    }
    let mut kept: Vec<usize> = Vec::new();
    let mut i: usize = 0;
    while i < front_len
        invariant
            i <= front_len,
            kept@ == Seq::new(i as nat, |k: int| k as usize),
        decreases front_len - i,
    {
        kept.push(i);
        assert(kept@ =~= Seq::new((i + 1) as nat, |k: int| k as usize));
        i = i + 1;
    }
    kept
}

/// The archive after an update: the members of the pool listed at `picked`, taken at the
/// positions `kept`.
pub open spec fn updated_archive(
    archive: Seq<Solution>,
    pop: Seq<Solution>,
    cands: Seq<usize>,
    picked: Seq<usize>,
    kept: Seq<usize>,
) -> Seq<Solution> {
    Seq::new(kept.len(), |t: int| archive_pool(archive, pop, cands)[picked[kept[t] as int] as int])
}

/// `s` is a member of `archive` or an archive candidate of the population.
pub open spec fn from_archive_or_candidates(archive: Seq<Solution>, pop: Seq<Solution>, ranks: Seq<usize>, s: Solution) -> bool {
    (exists|i: int| 0 <= i < archive.len() && #[trigger] archive[i] == s) || (exists|x: int|
        0 <= x < pop.len() && archive_candidate(pop, ranks, x) && #[trigger] pop[x] == s)
}

/// An archive update keeps the archive a Pareto set of feasible solutions: starting from an
/// archive of feasible, evaluated solutions, the archive that [`archive_front`] and
/// [`archive_cap`] give holds only members of the old archive or archive candidates of the
/// population (so all feasible and evaluated), no member dominates another, and it holds at
/// most `cap` solutions.
pub proof fn lemma_archive_update(
    p: Problem,
    archive: Seq<Solution>,
    pop: Seq<Solution>,
    ranks: Seq<usize>,
    cands: Seq<usize>,
    picked: Seq<usize>,
    crowding: Seq<i64>,
    cap: nat,
    kept: Seq<usize>,
)
    requires
        forall|i: int| 0 <= i < archive.len() ==> (#[trigger] archive[i]).feasible && archive[i].evaluated,
        lists_matching(cands, pop.len(), |x: int| archive_candidate(pop, ranks, x)),
        listed_front(p, archive_pool(archive, pop, cands), picked),
        capped_positions(picked.len(), crowding, cap, kept),
    ensures
        ({
            let out = updated_archive(archive, pop, cands, picked, kept);
            &&& out.len() <= cap
            &&& forall|t: int|
                0 <= t < out.len() ==> #[trigger] from_archive_or_candidates(archive, pop, ranks, out[t])
            &&& forall|t: int| 0 <= t < out.len() ==> (#[trigger] out[t]).feasible && out[t].evaluated
            &&& forall|t1: int, t2: int|
                0 <= t1 < out.len() && 0 <= t2 < out.len() ==> !dominates(p, #[trigger] out[t1], #[trigger] out[t2])
        }),
{
    let pool = archive_pool(archive, pop, cands);
    let out = updated_archive(archive, pop, cands, picked, kept);
    let n = archive.len();
    assert forall|t: int| 0 <= t < kept.len() implies (#[trigger] kept[t]) < picked.len() by {
        if picked.len() <= cap {
            assert(kept[t] == t as usize);
        }
    }
    assert forall|t: int| 0 <= t < out.len() implies {
        &&& out[t] == pool[picked[kept[t] as int] as int]
        &&& picked[kept[t] as int] < pool.len()
        &&& non_dominated_in(p, pool, picked[kept[t] as int] as int)
    } by {
        assert(kept[t] < picked.len());
    }
    assert forall|t: int| 0 <= t < out.len() implies #[trigger] from_archive_or_candidates(archive, pop, ranks, out[t]) by {
        let k = picked[kept[t] as int] as int;
        if k < n {
            assert(pool[k] == archive[k]);
            assert(archive[k] == out[t]);
        } else {
            let c = cands[k - n] as int;
            assert(pool[k] == pop[c]);
            assert(archive_candidate(pop, ranks, c));
            assert(pop[c] == out[t]);
        }
    }
    assert forall|t: int| 0 <= t < out.len() implies (#[trigger] out[t]).feasible && out[t].evaluated by {
        let k = picked[kept[t] as int] as int;
        if k < n {
            assert(pool[k] == archive[k]);
        } else {
            let c = cands[k - n] as int;
            assert(pool[k] == pop[c]);
            assert(archive_candidate(pop, ranks, c));
        }
    }
    assert forall|t1: int, t2: int| 0 <= t1 < out.len() && 0 <= t2 < out.len() implies !dominates(
        p,
        #[trigger] out[t1],
        #[trigger] out[t2],
    ) by {
        let k1 = picked[kept[t1] as int] as int;
        let k2 = picked[kept[t2] as int] as int;
        assert(non_dominated_in(p, pool, k2));
        assert(!dominates(p, pool[k1], pool[k2]));
    }
    if picked.len() > cap {
        assert(kept.len() == cap);
    }
    assert(out.len() <= cap);
}

/// Where a member of an updated archive is taken from.
#[derive(Clone, Copy, Debug, PartialEq, Eq, Structural)]
pub enum ArchiveSource {
    /// The member of the old archive at this index.
    Archive(usize),
    /// The member of the population at this index.
    Population(usize),
}

/// The solution that `source` designates.
pub open spec fn source_solution(archive: Seq<Solution>, pop: Seq<Solution>, source: ArchiveSource) -> Solution {
    match source {
        ArchiveSource::Archive(i) => archive[i as int],
        ArchiveSource::Population(i) => pop[i as int],
    }
}

/// Where position `k` of [`archive_pool`] comes from: the old archive for the first
/// `n_archive` positions, then the population members listed in `cands`.
pub open spec fn pool_source(n_archive: nat, cands: Seq<usize>, k: int) -> ArchiveSource {
    if k < n_archive {
        ArchiveSource::Archive(k as usize)
    } else {
        ArchiveSource::Population(cands[k - n_archive])
    }
}

/// Where each member of the updated archive comes from: entry `t` designates the pool member
/// at `picked[kept[t]]`, so taking the designated solutions in order gives exactly
/// [`updated_archive`].
pub fn archive_sources(
    archive: &[Solution],
    population: &[Solution],
    cands: &[usize],
    picked: &[usize],
    kept: &[usize],
) -> (sources: Vec<ArchiveSource>)
    requires
        forall|i: int| 0 <= i < cands@.len() ==> #[trigger] cands@[i] < population@.len(),
        forall|i: int| 0 <= i < picked@.len() ==> #[trigger] picked@[i] < archive@.len() + cands@.len(),
        forall|t: int| 0 <= t < kept@.len() ==> #[trigger] kept@[t] < picked@.len(),
    ensures
        sources@.len() == kept@.len(),
        forall|t: int|
            0 <= t < kept@.len() ==> #[trigger] sources@[t] == pool_source(
                archive@.len(),
                cands@,
                picked@[kept@[t] as int] as int,
            ),
        forall|t: int|
            0 <= t < kept@.len() ==> source_solution(archive@, population@, #[trigger] sources@[t])
                == updated_archive(archive@, population@, cands@, picked@, kept@)[t],
{
    let n_archive = archive.len();
    let mut sources: Vec<ArchiveSource> = Vec::new();
    let mut t: usize = 0;
    while t < kept.len()
        invariant
            n_archive == archive@.len(),
            forall|i: int| 0 <= i < cands@.len() ==> #[trigger] cands@[i] < population@.len(),
            forall|i: int| 0 <= i < picked@.len() ==> #[trigger] picked@[i] < archive@.len() + cands@.len(),
            forall|u: int| 0 <= u < kept@.len() ==> #[trigger] kept@[u] < picked@.len(),
            t <= kept@.len(),
            sources@.len() == t,
            forall|u: int|
                0 <= u < t ==> #[trigger] sources@[u] == pool_source(
                    archive@.len(),
                    cands@,
                    picked@[kept@[u] as int] as int,
                ),
            forall|u: int|
                0 <= u < t ==> source_solution(archive@, population@, #[trigger] sources@[u])
                    == updated_archive(archive@, population@, cands@, picked@, kept@)[u],
        decreases kept@.len() - t,
    {
        let k = picked[kept[t]];
        let source = if k < n_archive {
            ArchiveSource::Archive(k)
        } else {
            ArchiveSource::Population(cands[k - n_archive])
        };
        proof {
            let pool = archive_pool(archive@, population@, cands@);
            assert(updated_archive(archive@, population@, cands@, picked@, kept@)[t as int] == pool[k as int]);
            if k >= n_archive {
                assert(pool[k as int] == population@[cands@[k - n_archive] as int]);
            }
        }
        sources.push(source);
        t = t + 1;
    }
    sources
}

} // verus!
