//! Island-model runs: several independent populations whose archives are pooled at the end
//! and reduced to their common non-dominated set.
use vstd::prelude::*;

use crate::dominance::{
    all_comparable, dominates, fast_non_dominated_sort, fronts_view, in_fronts, is_nondominated_sorting,
    lemma_compare_reads_record, lemma_sort_key_reads_record, sort_keys, ParetoDominance,
};
use crate::order::precedes;
use crate::genetic_algorithms_v2::ExecutionMode;
use crate::problem::{has_constraints_spec, Problem, Solution};

verus! {

/// Settings for an island-model run.
#[derive(Debug)]
pub struct IslandConfig {
    /// Number of independent populations.
    pub islands: usize,
    /// Population size of each island.
    pub population_size: usize,
    /// Evaluation budget of each island.
    pub max_nfe_per_island: usize,
    /// Base seed: island `i` runs with `seed + i` (wrapping), so a run reproduces while the
    /// islands differ. `None` seeds each island from the operating system.
    pub seed: Option<u64>,
    /// Execution mode within each island; the islands themselves already run in parallel.
    pub execution_mode: ExecutionMode,
}

impl Clone for IslandConfig {
    fn clone(&self) -> (c: Self)
        ensures
            c == *self,
    {
        IslandConfig {
            islands: self.islands,
            population_size: self.population_size,
            max_nfe_per_island: self.max_nfe_per_island,
            seed: self.seed,
            execution_mode: self.execution_mode,
        }
    }
}

impl Default for IslandConfig {
    fn default() -> (c: Self)
        ensures
            c.islands == 4,
            c.population_size == 50,
            c.max_nfe_per_island == 10_000,
            c.seed == Some(0u64),
            c.execution_mode == ExecutionMode::Sequential,
    {
        IslandConfig {
            islands: 4,
            population_size: 50,
            max_nfe_per_island: 10_000,
            seed: Some(0),
            execution_mode: ExecutionMode::Sequential,
        }
    }
}

/// The seed of island `island`: the base seed plus the island's number, wrapping at 2^64;
/// none when there is no base seed.
pub fn island_seed(base: Option<u64>, island: usize) -> (s: Option<u64>)
    ensures
        base is None ==> s is None,
        base matches Some(b) ==> s == Some(((b + island) % 0x1_0000_0000_0000_0000) as u64),
{
    match base {
        None => None,
        Some(b) => {
            let i = island as u64;
            let r = b.wrapping_add(i);
            Some(r)
        },
    }
}

/// The solutions of all archives, in order.
pub open spec fn pooled(archives: Seq<Vec<Solution>>) -> Seq<Solution> {
    archives.map_values(|a: Vec<Solution>| a@).flatten()
}

/// No member of `pool` dominates member `x`.
pub open spec fn non_dominated_in(p: Problem, pool: Seq<Solution>, x: int) -> bool {
    forall|y: int| 0 <= y < pool.len() ==> !#[trigger] dominates(p, pool[y], pool[x])
}

/// The picked members are listed as non-dominated sorting lists a front: best first (by
/// the best-first key, ties by position) for a single objective, a constrained problem or a
/// pool below 200; by position otherwise.
pub open spec fn listed_in_sort_order(p: Problem, pool: Seq<Solution>, picked: Seq<usize>) -> bool {
    &&& (p.number_of_objectives == 1 || has_constraints_spec(p) || pool.len() < 200) ==> forall|i: int, j: int|
        0 <= i < j < picked.len() ==> precedes(sort_keys(p, pool), #[trigger] picked[i] as int, #[trigger] picked[j] as int)
    &&& !(p.number_of_objectives == 1 || has_constraints_spec(p) || pool.len() < 200) ==> forall|i: int, j: int|
        0 <= i < j < picked.len() ==> #[trigger] picked[i] < #[trigger] picked[j]
}

/// `picked` lists, once each and in sort order, exactly the positions of the non-dominated
/// members of `pool`.
pub open spec fn listed_front(p: Problem, pool: Seq<Solution>, picked: Seq<usize>) -> bool {
    &&& forall|i: int|
        0 <= i < picked.len() ==> (#[trigger] picked[i]) < pool.len() && non_dominated_in(p, pool, picked[i] as int)
    &&& forall|i: int, j: int| 0 <= i < j < picked.len() ==> #[trigger] picked[i] != #[trigger] picked[j]
    &&& forall|x: int| 0 <= x < pool.len() && non_dominated_in(p, pool, x) ==> #[trigger] picked.contains(x as usize)
    &&& listed_in_sort_order(p, pool, picked)
}

/// `merged` copies the non-dominated members of `pool`, listed in sort order: `merged[i]`
/// holds the record of the member at `picked[i]`.
pub open spec fn merged_front(p: Problem, pool: Seq<Solution>, picked: Seq<usize>, merged: Seq<Solution>) -> bool {
    &&& listed_front(p, pool, picked)
    &&& merged.len() == picked.len()
    &&& forall|i: int| 0 <= i < picked.len() ==> (#[trigger] merged[i]).same_record(pool[picked[i] as int])
}

/// A listed front carries over to a pool whose members hold the same records.
pub proof fn lemma_listed_front_transfer(p: Problem, pool1: Seq<Solution>, pool2: Seq<Solution>, picked: Seq<usize>)
    requires
        listed_front(p, pool1, picked),
        pool1.len() == pool2.len(),
        forall|i: int| 0 <= i < pool1.len() ==> (#[trigger] pool1[i]).same_record(pool2[i]),
    ensures
        listed_front(p, pool2, picked),
{
    assert forall|x: int| 0 <= x < pool1.len() implies non_dominated_in(p, pool1, x) == non_dominated_in(p, pool2, x) by {
        assert forall|y: int| 0 <= y < pool1.len() implies dominates(p, pool1[y], pool1[x]) == dominates(
            p,
            pool2[y],
            pool2[x],
        ) by {
            lemma_compare_reads_record(p, pool1[y], pool1[x], pool2[y], pool2[x]);
        }
        if !non_dominated_in(p, pool1, x) {
            let y = choose|y: int| 0 <= y < pool1.len() && #[trigger] dominates(p, pool1[y], pool1[x]);
            assert(dominates(p, pool2[y], pool2[x]));
        }
        if !non_dominated_in(p, pool2, x) {
            let y = choose|y: int| 0 <= y < pool2.len() && #[trigger] dominates(p, pool2[y], pool2[x]);
            assert(dominates(p, pool1[y], pool1[x]));
        }
    }
    assert forall|i: int| 0 <= i < picked.len() implies (#[trigger] picked[i]) < pool2.len() && non_dominated_in(
        p,
        pool2,
        picked[i] as int,
    ) by {}
    assert(sort_keys(p, pool1) =~= sort_keys(p, pool2)) by {
        assert forall|i: int| 0 <= i < pool1.len() implies sort_keys(p, pool1)[i] == sort_keys(p, pool2)[i] by {
            lemma_sort_key_reads_record(p, pool1[i], pool2[i]);
        }
    }
}

/// The positions of the non-dominated members of `pool`, once each, in the order
/// non-dominated sorting lists front 0.
pub fn non_dominated_indices(problem: &Problem, pool: &[Solution]) -> (picked: Vec<usize>)
    requires
        all_comparable(*problem, pool@),
        !(problem.number_of_objectives == 0 && !has_constraints_spec(*problem) && pool@.len() >= 200),
    ensures
        listed_front(*problem, pool@, picked@),
{
    let ghost pl = pool@;
    if pool.len() == 0 {
        let empty: Vec<usize> = Vec::new();
        assert(listed_front(*problem, pl, empty@));
        return empty;
    }
    let fronts = fast_non_dominated_sort(problem, pool, &ParetoDominance);
    let ghost fs = fronts_view(fronts@);
    assert(is_nondominated_sorting(*problem, pl, fs));
    assert(fs.len() > 0) by {
        assert(in_fronts(fs, 0));
    }
    let picked = fronts[0].clone();
    assert(picked@ == fs[0]);
    proof {
        assert forall|x: int| 0 <= x < pl.len() implies non_dominated_in(*problem, pl, x) == picked@.contains(x as usize) by {
            lemma_front_zero_is_non_dominated(*problem, pl, fs, x);
        }
        assert forall|i: int| 0 <= i < picked@.len() implies (#[trigger] picked@[i]) < pl.len() && non_dominated_in(
            *problem,
            pl,
            picked@[i] as int,
        ) by {
            assert(fs[0][i] == picked@[i]);
            assert(picked@.contains(picked@[i]));
        }
        assert forall|i: int, j: int| 0 <= i < j < picked@.len() implies #[trigger] picked@[i] != #[trigger] picked@[j] by {
            if picked@[i] == picked@[j] {
                assert(fs[0][i] == fs[0][j]);
            }
        }
        assert forall|i: int, j: int| 0 <= i < j < picked@.len() && (problem.number_of_objectives == 1
            || has_constraints_spec(*problem) || pl.len() < 200) implies precedes(
            sort_keys(*problem, pl),
            #[trigger] picked@[i] as int,
            #[trigger] picked@[j] as int,
        ) by {
            assert(fs[0][i] == picked@[i] && fs[0][j] == picked@[j]);
        }
        assert forall|i: int, j: int| 0 <= i < j < picked@.len() && !(problem.number_of_objectives == 1
            || has_constraints_spec(*problem) || pl.len() < 200) implies #[trigger] picked@[i] < #[trigger] picked@[j] by {
            assert(fs[0][i] == picked@[i] && fs[0][j] == picked@[j]);
        }
    }
    picked
}

/// Pools several archives and keeps the globally non-dominated solutions: copies of exactly
/// the members that no member of the pool dominates, listed in sort order.
pub fn merge_fronts(problem: &Problem, archives: Vec<Vec<Solution>>) -> (merged: Vec<Solution>)
    requires
        all_comparable(*problem, pooled(archives@)),
        !(problem.number_of_objectives == 0 && !has_constraints_spec(*problem) && pooled(archives@).len() >= 200),
    ensures
        exists|picked: Seq<usize>| #[trigger] merged_front(*problem, pooled(archives@), picked, merged@),
{
    let ghost flat = pooled(archives@);
    let ghost views = archives@.map_values(|a: Vec<Solution>| a@);
    let mut pool: Vec<Solution> = Vec::new();
    let mut a: usize = 0;
    assert(views.take(0) =~= Seq::<Seq<Solution>>::empty());
    while a < archives.len()
        invariant
            views == archives@.map_values(|a: Vec<Solution>| a@),
            flat == views.flatten(),
            a <= archives@.len(),
            pool@.len() == views.take(a as int).flatten().len(),
            forall|i: int| 0 <= i < pool@.len() ==> (#[trigger] pool@[i]).same_record(views.take(a as int).flatten()[i]),
        decreases archives@.len() - a,
    {
        let archive = &archives[a];
        assert(archive@ == views[a as int]);
        let ghost start = views.take(a as int).flatten();
        let mut j: usize = 0;
        while j < archive.len()
            invariant
                archive@ == views[a as int],
                j <= archive@.len(),
                pool@.len() == start.len() + j,
                forall|i: int| 0 <= i < pool@.len() ==> (#[trigger] pool@[i]).same_record((start + archive@)[i]),
            decreases archive.len() - j,
        {
            let s = archive[j].clone();
            pool.push(s);
            j = j + 1;
        }
        proof {
            assert(views.take(a + 1) =~= views.take(a as int).push(views[a as int]));
            views.take(a as int).lemma_flatten_push(views[a as int]);
        }
        a = a + 1;
    }
    assert(views.take(archives@.len() as int) =~= views);
    let ghost pl = pool@;
    assert(pl.len() == flat.len());
    proof {
        assert forall|i: int| 0 <= i < pl.len() implies comparable_at(*problem, pl, i) by {
            assert(pl[i].same_record(flat[i]));
        }
    }
    assert(all_comparable(*problem, pl));
    let picked = non_dominated_indices(problem, &pool);
    let mut merged: Vec<Solution> = Vec::new();
    let mut j: usize = 0;
    while j < picked.len()
        invariant
            listed_front(*problem, pl, picked@),
            pl == pool@,
            j <= picked@.len(),
            merged@.len() == j,
            forall|i: int| 0 <= i < j ==> (#[trigger] merged@[i]).same_record(pl[picked@[i] as int]),
        decreases picked.len() - j,
    {
        let s = pool[picked[j]].clone();
        merged.push(s);
        j = j + 1;
    }
    proof {
        assert(merged_front(*problem, pl, picked@, merged@));
        lemma_listed_front_transfer(*problem, pl, flat, picked@);
        assert(merged_front(*problem, flat, picked@, merged@)) by {
            assert forall|i: int| 0 <= i < picked@.len() implies (#[trigger] merged@[i]).same_record(flat[picked@[i] as int]) by {
                assert(pl[picked@[i] as int].same_record(flat[picked@[i] as int]));
            }
        }
    }
    merged
}

spec fn comparable_at(p: Problem, pop: Seq<Solution>, i: int) -> bool {
    crate::dominance::comparable(p, pop[i])
}

/// Front 0 of a non-dominated sorting holds exactly the members that nothing dominates.
proof fn lemma_front_zero_is_non_dominated(p: Problem, pop: Seq<Solution>, fs: Seq<Seq<usize>>, x: int)
    requires
        is_nondominated_sorting(p, pop, fs),
        fs.len() > 0,
        0 <= x < pop.len(),
    ensures
        non_dominated_in(p, pop, x) == fs[0].contains(x as usize),
{
    assert(in_fronts(fs, x));
    let (k, j) = choose|k: int, j: int| 0 <= k < fs.len() && 0 <= j < fs[k].len() && fs[k][j] == x;
    if k == 0 {
        assert(fs[0].contains(x as usize));
        assert forall|y: int| 0 <= y < pop.len() implies !#[trigger] dominates(p, pop[y], pop[x]) by {
            assert(in_fronts(fs, y));
            let (k2, j2) = choose|k2: int, j2: int| 0 <= k2 < fs.len() && 0 <= j2 < fs[k2].len() && fs[k2][j2] == y;
            if dominates(p, pop[y], pop[x]) {
                assert(dominates(p, pop[fs[k2][j2] as int], pop[fs[0][j] as int]));
            }
        }
    } else {
        assert(crate::dominance::dominated_from_previous(p, pop, fs, k, j));
        let j2 = choose|j2: int|
            0 <= j2 < fs[k - 1].len() && #[trigger] dominates(p, pop[fs[k - 1][j2] as int], pop[fs[k][j] as int]);
        assert(!non_dominated_in(p, pop, x)) by {
            let y = fs[k - 1][j2] as int;
            assert(dominates(p, pop[y], pop[x]));
        }
        if fs[0].contains(x as usize) {
            let j3 = choose|j3: int| 0 <= j3 < fs[0].len() && fs[0][j3] == x as usize;
            assert(fs[0][j3] == fs[k][j]);
        }
    }
}

} // verus!
