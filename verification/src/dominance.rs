//! Pareto dominance with constraint handling, and non-dominated sorting.
use vstd::prelude::*;

use crate::order::{
    lemma_lex_first_difference, lemma_lex_irreflexive, lemma_lex_pointwise, lemma_lex_total,
    lemma_precedes_asymmetric, lemma_sorted_prefix, lex_less, lex_lt, lists, precedes, sort_by_keys, sorted_by_keys, uniform_keys,
};
use crate::problem::{has_constraints_spec, minimized, Problem, Solution};

verus! {

/// What comparing a solution under `p` reads: a value for every objective, and a direction
/// entry for every objective when directions are given.
pub open spec fn comparable(p: Problem, s: Solution) -> bool {
    &&& s.objective_fitness_values@.len() >= p.number_of_objectives
    &&& p.direction matches Some(d) ==> d@.len() >= p.number_of_objectives
}

/// `a` is strictly better than `b` on objective `i`: lower when the objective is minimized,
/// higher otherwise.
pub open spec fn better_on(p: Problem, a: Solution, b: Solution, i: int) -> bool {
    if minimized(p, i) {
        a.objective_fitness_values@[i] < b.objective_fitness_values@[i]
    } else {
        a.objective_fitness_values@[i] > b.objective_fitness_values@[i]
    }
}

/// `a` is strictly better than `b` on some objective.
pub open spec fn better_somewhere(p: Problem, a: Solution, b: Solution) -> bool {
    exists|i: int| 0 <= i < p.number_of_objectives && #[trigger] better_on(p, a, b, i)
}

/// The Pareto comparison: `-1` when `a` dominates `b`, `1` when `b` dominates `a`, `0`
/// otherwise. When the problem has constraints, fewer violated constraints wins first, then
/// the smaller violation magnitude; only then are objectives compared.
pub open spec fn pareto_compare(p: Problem, a: Solution, b: Solution) -> i32 {
    if has_constraints_spec(p) && a.constraint_violation != b.constraint_violation {
        if a.constraint_violation < b.constraint_violation {
            -1i32
        } else {
            1i32
        }
    } else if has_constraints_spec(p) && a.constraint_violation_magnitude
        != b.constraint_violation_magnitude {
        if a.constraint_violation_magnitude < b.constraint_violation_magnitude {
            -1i32
        } else {
            1i32
        }
    } else {
        let ab = better_somewhere(p, a, b);
        let ba = better_somewhere(p, b, a);
        if ab && !ba {
            -1i32
        } else if ba && !ab {
            1i32
        } else {
            0i32
        }
    }
}

/// `a` dominates `b`.
pub open spec fn dominates(p: Problem, a: Solution, b: Solution) -> bool {
    pareto_compare(p, a, b) == -1
}

/// A way of comparing two solutions of a problem.
pub trait Dominance {
    /// The comparison's result: `-1` when the first solution dominates, `1` when the second
    /// does, `0` when neither does.
    spec fn compare_spec(&self, p: Problem, a: Solution, b: Solution) -> i32;

    fn compare_solutions(&self, problem: &Problem, solution_1: &Solution, solution_2: &Solution) -> (r: i32)
        requires
            comparable(*problem, *solution_1),
            comparable(*problem, *solution_2),
        ensures
            r == self.compare_spec(*problem, *solution_1, *solution_2),
    ;
}

/// Pareto dominance with constraint-first comparison.
#[derive(Clone, Copy, Debug)]
pub struct ParetoDominance;

impl Dominance for ParetoDominance {
    open spec fn compare_spec(&self, p: Problem, a: Solution, b: Solution) -> i32 {
        pareto_compare(p, a, b)
    }

    /// Returns `-1` if `solution_1` dominates, `1` if `solution_2` dominates, `0` if neither.
    fn compare_solutions(&self, problem: &Problem, solution_1: &Solution, solution_2: &Solution) -> (r: i32) {
        if problem.has_constraints() {
            if solution_1.constraint_violation != solution_2.constraint_violation {
                return if solution_1.constraint_violation < solution_2.constraint_violation {
                    -1
                } else {
                    1
                };
            }
            if solution_1.constraint_violation_magnitude != solution_2.constraint_violation_magnitude {
                return if solution_1.constraint_violation_magnitude
                    < solution_2.constraint_violation_magnitude {
                    -1
                } else {
                    1
                };
            }
        }
        let n = problem.number_of_objectives;
        let mut one_better = false;
        let mut two_better = false;
        let mut i: usize = 0;
        while i < n
            invariant
                i <= n,
                n == problem.number_of_objectives,
                comparable(*problem, *solution_1),
                comparable(*problem, *solution_2),
                !has_constraints_spec(*problem) || (solution_1.constraint_violation
                    == solution_2.constraint_violation && solution_1.constraint_violation_magnitude
                    == solution_2.constraint_violation_magnitude),
                one_better == exists|k: int| 0 <= k < i && #[trigger] better_on(*problem, *solution_1, *solution_2, k),
                two_better == exists|k: int| 0 <= k < i && #[trigger] better_on(*problem, *solution_2, *solution_1, k),
                !(one_better && two_better),
            decreases n - i,
        {
            let o1 = solution_1.objective_fitness_values[i];
            let o2 = solution_2.objective_fitness_values[i];
            let minimize = match &problem.direction {
                Some(d) => d[i] == -1,
                None => false,
            };
            let (first, second) = if minimize {
                (o1 < o2, o2 < o1)
            } else {
                (o1 > o2, o2 > o1)
            };
            assert(first == better_on(*problem, *solution_1, *solution_2, i as int));
            assert(second == better_on(*problem, *solution_2, *solution_1, i as int));
            if second {
                two_better = true;
                if one_better {
                    assert(better_somewhere(*problem, *solution_1, *solution_2));
                    assert(better_somewhere(*problem, *solution_2, *solution_1));
                    return 0;
                }
            } else if first {
                one_better = true;
                if two_better {
                    assert(better_somewhere(*problem, *solution_1, *solution_2));
                    assert(better_somewhere(*problem, *solution_2, *solution_1));
                    return 0;
                }
            }
            i = i + 1;
        }
        if one_better == two_better {
            0
        } else if one_better {
            -1
        } else {
            1
        }
    }
}

/// Comparison reads only a solution's record: records that hold the same values compare
/// alike.
pub proof fn lemma_compare_reads_record(p: Problem, a: Solution, b: Solution, a2: Solution, b2: Solution)
    requires
        a.same_record(a2),
        b.same_record(b2),
    ensures
        pareto_compare(p, a, b) == pareto_compare(p, a2, b2),
{
    assert forall|i: int| better_on(p, a, b, i) == better_on(p, a2, b2, i) by {}
    assert forall|i: int| better_on(p, b, a, i) == better_on(p, b2, a2, i) by {}
    if better_somewhere(p, a, b) {
        let i = choose|i: int| 0 <= i < p.number_of_objectives && #[trigger] better_on(p, a, b, i);
        assert(better_on(p, a2, b2, i));
    }
    if better_somewhere(p, a2, b2) {
        let i = choose|i: int| 0 <= i < p.number_of_objectives && #[trigger] better_on(p, a2, b2, i);
        assert(better_on(p, a, b, i));
    }
    if better_somewhere(p, b, a) {
        let i = choose|i: int| 0 <= i < p.number_of_objectives && #[trigger] better_on(p, b, a, i);
        assert(better_on(p, b2, a2, i));
    }
    if better_somewhere(p, b2, a2) {
        let i = choose|i: int| 0 <= i < p.number_of_objectives && #[trigger] better_on(p, b2, a2, i);
        assert(better_on(p, b, a, i));
    }
}

/// The best-first key reads only a solution's record.
pub proof fn lemma_sort_key_reads_record(p: Problem, a: Solution, b: Solution)
    requires
        a.same_record(b),
    ensures
        sort_key(p, a) == sort_key(p, b),
{
    let oa = Seq::new(p.number_of_objectives as nat, |i: int| adjusted(p, a, i));
    let ob = Seq::new(p.number_of_objectives as nat, |i: int| adjusted(p, b, i));
    assert(oa =~= ob);
}

/// No solution dominates itself.
pub proof fn lemma_dominance_irreflexive(p: Problem, a: Solution)
    ensures
        !dominates(p, a, a),
{
    if better_somewhere(p, a, a) {
        let i = choose|i: int| 0 <= i < p.number_of_objectives && #[trigger] better_on(p, a, a, i);
        assert(better_on(p, a, a, i));
    }
}

/// The comparison is antisymmetric: swapping the solutions negates it. In particular a
/// dominated solution never dominates its dominator.
pub proof fn lemma_compare_antisymmetric(p: Problem, a: Solution, b: Solution)
    ensures
        pareto_compare(p, a, b) == -pareto_compare(p, b, a),
        dominates(p, a, b) ==> !dominates(p, b, a),
{
}

/// Dominance is transitive.
pub proof fn lemma_dominance_transitive(p: Problem, a: Solution, b: Solution, c: Solution)
    requires
        dominates(p, a, b),
        dominates(p, b, c),
    ensures
        dominates(p, a, c),
{
    if has_constraints_spec(p) && (a.constraint_violation != b.constraint_violation
        || b.constraint_violation != c.constraint_violation || a.constraint_violation_magnitude
        != b.constraint_violation_magnitude || b.constraint_violation_magnitude
        != c.constraint_violation_magnitude) {
    } else {
        // Objectives decide both steps: a is nowhere worse than b, b nowhere worse than c.
        let i = choose|i: int| 0 <= i < p.number_of_objectives && #[trigger] better_on(p, a, b, i);
        assert(!better_somewhere(p, b, a));
        assert(!better_somewhere(p, c, b));
        assert(better_on(p, a, c, i)) by {
            assert(!better_on(p, c, b, i));
        }
        if better_somewhere(p, c, a) {
            let k = choose|k: int| 0 <= k < p.number_of_objectives && #[trigger] better_on(p, c, a, k);
            assert(!better_on(p, b, a, k));
            assert(!better_on(p, c, b, k));
        }
    }
}

/// With constraints configured, a feasible solution dominates every infeasible one.
pub proof fn lemma_feasible_dominates_infeasible(p: Problem, a: Solution, b: Solution)
    requires
        has_constraints_spec(p),
        a.constraint_violation == 0,
        b.constraint_violation > 0,
    ensures
        dominates(p, a, b),
{
}

// ---------------------------------------------------------------------------------------
// Sort keys: best first.
// ---------------------------------------------------------------------------------------

/// Objective `i` of `s`, signed so that smaller is better.
pub open spec fn adjusted(p: Problem, s: Solution, i: int) -> i128 {
    if minimized(p, i) {
        s.objective_fitness_values@[i] as i128
    } else {
        (-(s.objective_fitness_values@[i] as int)) as i128
    }
}

/// The best-first sort key: violation count and magnitude when the problem has constraints,
/// then each objective signed so that smaller is better.
pub open spec fn sort_key(p: Problem, s: Solution) -> Seq<i128> {
    let objs = Seq::new(p.number_of_objectives as nat, |i: int| adjusted(p, s, i));
    if has_constraints_spec(p) {
        seq![s.constraint_violation as i128, s.constraint_violation_magnitude as i128] + objs
    } else {
        objs
    }
}

/// The length of every best-first key under `p`.
pub open spec fn key_len(p: Problem) -> nat {
    if has_constraints_spec(p) {
        (p.number_of_objectives + 2) as nat
    } else {
        p.number_of_objectives as nat
    }
}

/// The best-first keys of a population.
pub open spec fn sort_keys(p: Problem, pop: Seq<Solution>) -> Seq<Seq<i128>> {
    Seq::new(pop.len(), |i: int| sort_key(p, pop[i]))
}

/// A dominating solution has the smaller best-first key, so it is sorted first.
pub proof fn lemma_dominance_orders_keys(p: Problem, a: Solution, b: Solution)
    requires
        dominates(p, a, b),
    ensures
        lex_lt(sort_key(p, a), sort_key(p, b)),
{
    let n = p.number_of_objectives as nat;
    let oa = Seq::new(n, |i: int| adjusted(p, a, i));
    let ob = Seq::new(n, |i: int| adjusted(p, b, i));
    if has_constraints_spec(p) {
        let ka = sort_key(p, a);
        let kb = sort_key(p, b);
        if a.constraint_violation != b.constraint_violation {
            lemma_lex_first_difference(ka, kb, 0);
        } else if a.constraint_violation_magnitude != b.constraint_violation_magnitude {
            lemma_lex_first_difference(ka, kb, 1);
        } else {
            let i = choose|i: int| 0 <= i < p.number_of_objectives && #[trigger] better_on(p, a, b, i);
            assert forall|k: int| 0 <= k < ka.len() implies ka[k] <= kb[k] by {
                if k >= 2 {
                    assert(!better_on(p, b, a, k - 2));
                }
            }
            lemma_lex_pointwise(ka, kb, i + 2);
        }
    } else {
        let i = choose|i: int| 0 <= i < p.number_of_objectives && #[trigger] better_on(p, a, b, i);
        assert forall|k: int| 0 <= k < oa.len() implies oa[k] <= ob[k] by {
            assert(!better_on(p, b, a, k));
        }
        lemma_lex_pointwise(oa, ob, i);
    }
}

/// Builds the best-first key of one solution.
fn build_sort_key(problem: &Problem, s: &Solution) -> (key: Vec<i128>)
    requires
        comparable(*problem, *s),
    ensures
        key@ == sort_key(*problem, *s),
{
    let mut key: Vec<i128> = Vec::new();
    let constrained = problem.has_constraints();
    if constrained {
        key.push(s.constraint_violation as i128);
        key.push(s.constraint_violation_magnitude as i128);
    }
    let ghost start = key@;
    let n = problem.number_of_objectives;
    let mut i: usize = 0;
    while i < n
        invariant
            i <= n,
            n == problem.number_of_objectives,
            comparable(*problem, *s),
            key@ == start + Seq::new(i as nat, |k: int| adjusted(*problem, *s, k)),
        decreases n - i,
    {
        let o = s.objective_fitness_values[i] as i128;
        let minimize = match &problem.direction {
            Some(d) => d[i] == -1,
            None => false,
        };
        key.push(if minimize {
            o
        } else {
            -o
        });
        assert(key@ =~= start + Seq::new((i + 1) as nat, |k: int| adjusted(*problem, *s, k)));
        i = i + 1;
    }
    assert(key@ =~= sort_key(*problem, *s));
    key
}

/// Builds the best-first keys of a population.
fn build_sort_keys(problem: &Problem, population: &[Solution]) -> (keys: Vec<Vec<i128>>)
    requires
        forall|i: int| 0 <= i < population@.len() ==> comparable(*problem, #[trigger] population@[i]),
    ensures
        keys@.map_values(|r: Vec<i128>| r@) == sort_keys(*problem, population@),
        uniform_keys(sort_keys(*problem, population@), key_len(*problem)),
{
    let mut keys: Vec<Vec<i128>> = Vec::new();
    let mut i: usize = 0;
    while i < population.len()
        invariant
            i <= population@.len(),
            forall|j: int| 0 <= j < population@.len() ==> comparable(*problem, #[trigger] population@[j]),
            keys@.len() == i,
            forall|j: int| 0 <= j < i ==> (#[trigger] keys@[j])@ == sort_key(*problem, population@[j]),
        decreases population.len() - i,
    {
        let k = build_sort_key(problem, &population[i]);
        keys.push(k);
        i = i + 1;
    }
    assert(keys@.map_values(|r: Vec<i128>| r@) =~= sort_keys(*problem, population@));
    keys
}


// ---------------------------------------------------------------------------------------
// Non-dominated sorting.
// ---------------------------------------------------------------------------------------

/// A comparison that agrees with Pareto dominance on every pair of solutions of `p`. Every
/// sorting routine here relies on it, as the best-first order it sorts by is consistent with
/// Pareto dominance only.
pub open spec fn is_pareto<D: Dominance>(d: D, p: Problem) -> bool {
    forall|a: Solution, b: Solution| #[trigger] d.compare_spec(p, a, b) == pareto_compare(p, a, b)
}

/// Every member of the population can be compared under `p`.
pub open spec fn all_comparable(p: Problem, pop: Seq<Solution>) -> bool {
    forall|i: int| 0 <= i < pop.len() ==> comparable(p, #[trigger] pop[i])
}

/// The index sequences of a vector of fronts.
pub open spec fn fronts_view(fronts: Seq<Vec<usize>>) -> Seq<Seq<usize>> {
    fronts.map_values(|f: Vec<usize>| f@)
}

/// `x` occurs in some front.
pub open spec fn in_fronts(fronts: Seq<Seq<usize>>, x: int) -> bool {
    exists|k: int, j: int| 0 <= k < fronts.len() && 0 <= j < fronts[k].len() && fronts[k][j] == x
}

/// `fronts` is the non-dominated sorting of `pop`: a partition of its indices into non-empty
/// fronts such that every solution's dominators all sit in earlier fronts, and every
/// solution outside front 0 is dominated by one in the front just before its own. Front 0
/// is the Pareto-optimal set; front `k` is what is left non-dominated once fronts `0..k` are
/// removed.
pub open spec fn is_nondominated_sorting(p: Problem, pop: Seq<Solution>, fronts: Seq<Seq<usize>>) -> bool {
    &&& forall|k: int| 0 <= k < fronts.len() ==> (#[trigger] fronts[k]).len() > 0
    &&& forall|k: int, j: int|
        0 <= k < fronts.len() && 0 <= j < fronts[k].len() ==> (#[trigger] fronts[k][j]) < pop.len()
    &&& forall|x: int| 0 <= x < pop.len() ==> #[trigger] in_fronts(fronts, x)
    &&& forall|k1: int, j1: int, k2: int, j2: int|
        0 <= k1 < fronts.len() && 0 <= j1 < fronts[k1].len() && 0 <= k2 < fronts.len() && 0 <= j2
            < fronts[k2].len() && #[trigger] fronts[k1][j1] == #[trigger] fronts[k2][j2] ==> k1 == k2
            && j1 == j2
    &&& forall|k1: int, j1: int, k2: int, j2: int|
        0 <= k1 < fronts.len() && 0 <= j1 < fronts[k1].len() && 0 <= k2 < fronts.len() && 0 <= j2
            < fronts[k2].len() && #[trigger] dominates(
            p,
            pop[fronts[k2][j2] as int],
            pop[fronts[k1][j1] as int],
        ) ==> k2 < k1
    &&& forall|k: int, j: int|
        0 < k < fronts.len() && 0 <= j < fronts[k].len() ==> #[trigger] dominated_from_previous(
            p,
            pop,
            fronts,
            k,
            j,
        )
}

/// Some member of front `k - 1` dominates the member at position `j` of front `k`.
pub open spec fn dominated_from_previous(
    p: Problem,
    pop: Seq<Solution>,
    fronts: Seq<Seq<usize>>,
    k: int,
    j: int,
) -> bool {
    exists|j2: int|
        0 <= j2 < fronts[k - 1].len() && #[trigger] dominates(
            p,
            pop[fronts[k - 1][j2] as int],
            pop[fronts[k][j] as int],
        )
}

/// Each front lists its members in best-first order.
pub open spec fn fronts_best_first(p: Problem, pop: Seq<Solution>, fronts: Seq<Seq<usize>>) -> bool {
    forall|k: int, j1: int, j2: int|
        0 <= k < fronts.len() && 0 <= j1 < j2 < fronts[k].len() ==> precedes(
            sort_keys(p, pop),
            #[trigger] fronts[k][j1] as int,
            #[trigger] fronts[k][j2] as int,
        )
}

/// Whether two sortings put every solution in the same front.
pub open spec fn same_fronts(f: Seq<Seq<usize>>, g: Seq<Seq<usize>>) -> bool {
    &&& f.len() == g.len()
    &&& forall|k: int, x: usize| 0 <= k < f.len() ==> (#[trigger] f[k].contains(x) <==> g[k].contains(x))
}

/// A solution at front `r` of one sorting sits no later than front `r` of another.
proof fn lemma_front_not_later(p: Problem, pop: Seq<Solution>, f: Seq<Seq<usize>>, g: Seq<Seq<usize>>, r: int, jg: int, k: int, jf: int)
    requires
        is_nondominated_sorting(p, pop, f),
        is_nondominated_sorting(p, pop, g),
        0 <= r < g.len(),
        0 <= jg < g[r].len(),
        0 <= k < f.len(),
        0 <= jf < f[k].len(),
        f[k][jf] == g[r][jg],
    ensures
        k <= r,
    decreases r,
{
    if k > 0 {
        assert(dominated_from_previous(p, pop, f, k, jf));
        let j2 = choose|j2: int|
            0 <= j2 < f[k - 1].len() && #[trigger] dominates(p, pop[f[k - 1][j2] as int], pop[f[k][jf] as int]);
        let y = f[k - 1][j2];
        assert(y < pop.len());
        assert(in_fronts(g, y as int));
        let (r2, jy) = choose|r2: int, jy: int| 0 <= r2 < g.len() && 0 <= jy < g[r2].len() && g[r2][jy] == y;
        assert(dominates(p, pop[g[r2][jy] as int], pop[g[r][jg] as int]));
        assert(r2 < r);
        lemma_front_not_later(p, pop, f, g, r2, jy, k - 1, j2);
    }
}

/// The non-dominated sorting of a population is unique: any two sortings that meet the
/// definition have the same number of fronts and put every solution in the same front.
pub proof fn lemma_sorting_unique(p: Problem, pop: Seq<Solution>, f: Seq<Seq<usize>>, g: Seq<Seq<usize>>)
    requires
        is_nondominated_sorting(p, pop, f),
        is_nondominated_sorting(p, pop, g),
    ensures
        same_fronts(f, g),
{
    assert forall|k1: int, j1: int, k2: int, j2: int|
        0 <= k1 < f.len() && 0 <= j1 < f[k1].len() && 0 <= k2 < g.len() && 0 <= j2 < g[k2].len()
            && f[k1][j1] == g[k2][j2] implies k1 == k2 by {
        lemma_front_not_later(p, pop, f, g, k2, j2, k1, j1);
        lemma_front_not_later(p, pop, g, f, k1, j1, k2, j2);
    }
    if f.len() > 0 {
        let last = f.len() - 1;
        assert(f[last].len() > 0);
        let x = f[last][0];
        assert(in_fronts(g, x as int));
        let (k, j) = choose|k: int, j: int| 0 <= k < g.len() && 0 <= j < g[k].len() && g[k][j] == x;
        assert(k == last);
    }
    if g.len() > 0 {
        let last = g.len() - 1;
        assert(g[last].len() > 0);
        let x = g[last][0];
        assert(in_fronts(f, x as int));
        let (k, j) = choose|k: int, j: int| 0 <= k < f.len() && 0 <= j < f[k].len() && f[k][j] == x;
        assert(k == last);
    }
    assert forall|k: int, x: usize| 0 <= k < f.len() implies (#[trigger] f[k].contains(x) <==> g[k].contains(x)) by {
        if f[k].contains(x) {
            let j = choose|j: int| 0 <= j < f[k].len() && f[k][j] == x;
            assert(in_fronts(g, x as int));
            let (k2, j2) = choose|k2: int, j2: int| 0 <= k2 < g.len() && 0 <= j2 < g[k2].len() && g[k2][j2] == x;
            assert(g[k2][j2] == x);
            assert(k2 == k);
            assert(g[k].contains(x));
        }
        if g[k].contains(x) {
            let j = choose|j: int| 0 <= j < g[k].len() && g[k][j] == x;
            assert(in_fronts(f, x as int));
            let (k2, j2) = choose|k2: int, j2: int| 0 <= k2 < f.len() && 0 <= j2 < f[k2].len() && f[k2][j2] == x;
            assert(f[k2][j2] == x);
            assert(k2 == k);
            assert(f[k].contains(x));
        }
    }
}

/// Whether some member of `front` dominates solution `x`.
fn front_has_dominator<D: Dominance>(
    problem: &Problem,
    population: &[Solution],
    dominance: &D,
    front: &Vec<usize>,
    x: usize,
) -> (r: bool)
    requires
        is_pareto(*dominance, *problem),
        all_comparable(*problem, population@),
        x < population@.len(),
        forall|j: int| 0 <= j < front@.len() ==> (#[trigger] front@[j]) < population@.len(),
    ensures
        r == exists|j: int|
            0 <= j < front@.len() && #[trigger] dominates(
                *problem,
                population@[front@[j] as int],
                population@[x as int],
            ),
{
    let mut j: usize = 0;
    while j < front.len()
        invariant
            is_pareto(*dominance, *problem),
            all_comparable(*problem, population@),
            x < population@.len(),
            forall|i: int| 0 <= i < front@.len() ==> (#[trigger] front@[i]) < population@.len(),
            j <= front@.len(),
            forall|i: int|
                0 <= i < j ==> !#[trigger] dominates(
                    *problem,
                    population@[front@[i] as int],
                    population@[x as int],
                ),
        decreases front.len() - j,
    {
        let q = front[j];
        let c = dominance.compare_solutions(problem, &population[q], &population[x]);
        assert(dominance.compare_spec(*problem, population@[q as int], population@[x as int]) == c);
        assert(dominance.compare_spec(*problem, population@[q as int], population@[x as int])
            == pareto_compare(*problem, population@[q as int], population@[x as int]));
        if c == -1 {
            assert(dominates(*problem, population@[front@[j as int] as int], population@[x as int]));
            return true;
        }
        j = j + 1;
    }
    false
}

/// The front a solution joins in efficient non-dominated sorting: one past the last front
/// holding a dominator of `x`, or 0.
fn ens_target<D: Dominance>(
    problem: &Problem,
    population: &[Solution],
    dominance: &D,
    fronts: &Vec<Vec<usize>>,
    x: usize,
) -> (t: usize)
    requires
        is_pareto(*dominance, *problem),
        all_comparable(*problem, population@),
        x < population@.len(),
        forall|k: int, j: int|
            0 <= k < fronts@.len() && 0 <= j < fronts@[k]@.len() ==> (#[trigger] fronts@[k]@[j])
                < population@.len(),
    ensures
        t <= fronts@.len(),
        t > 0 ==> exists|j: int|
            0 <= j < fronts@[t - 1]@.len() && #[trigger] dominates(
                *problem,
                population@[fronts@[t - 1]@[j] as int],
                population@[x as int],
            ),
        forall|k: int, j: int|
            t <= k < fronts@.len() && 0 <= j < fronts@[k]@.len() ==> !#[trigger] dominates(
                *problem,
                population@[fronts@[k]@[j] as int],
                population@[x as int],
            ),
{
    let mut k = fronts.len();
    while k > 0
        invariant
            is_pareto(*dominance, *problem),
            all_comparable(*problem, population@),
            x < population@.len(),
            forall|k2: int, j: int|
                0 <= k2 < fronts@.len() && 0 <= j < fronts@[k2]@.len() ==> (#[trigger] fronts@[k2]@[j])
                    < population@.len(),
            k <= fronts@.len(),
            forall|k2: int, j: int|
                k <= k2 < fronts@.len() && 0 <= j < fronts@[k2]@.len() ==> !#[trigger] dominates(
                    *problem,
                    population@[fronts@[k2]@[j] as int],
                    population@[x as int],
                ),
        decreases k,
    {
        k = k - 1;
        let found = front_has_dominator(problem, population, dominance, &fronts[k], x);
        if found {
            return k + 1;
        }
    }
    0
}

/// `x` is among the first `t` entries of `order`.
pub open spec fn processed(order: Seq<usize>, t: int, x: int) -> bool {
    exists|i: int| 0 <= i < t && order[i] == x
}

/// Efficient non-dominated sort, sequential search: solutions are taken best first, and each
/// joins the front just past the last front holding one of its dominators.
fn ens_ss_fronts<D: Dominance>(problem: &Problem, population: &[Solution], dominance: &D) -> (fronts: Vec<Vec<usize>>)
    requires
        is_pareto(*dominance, *problem),
        all_comparable(*problem, population@),
    ensures
        is_nondominated_sorting(*problem, population@, fronts_view(fronts@)),
        fronts_best_first(*problem, population@, fronts_view(fronts@)),
{
    let n = population.len();
    let keys = build_sort_keys(problem, population);
    let ghost ks = sort_keys(*problem, population@);
    let ghost m = key_len(*problem);
    let order = sort_by_keys(&keys, Ghost(m));
    let ghost pop = population@;
    let mut fronts: Vec<Vec<usize>> = Vec::new();
    let ghost mut rk: Seq<int> = Seq::new(n as nat, |i: int| -1);
    let ghost mut pj: Seq<int> = Seq::new(n as nat, |i: int| -1);
    let mut t: usize = 0;
    while t < n
        invariant
            n == pop.len(),
            pop == population@,
            is_pareto(*dominance, *problem),
            all_comparable(*problem, pop),
            ks == sort_keys(*problem, pop),
            uniform_keys(ks, m),
            sorted_by_keys(ks, order@),
            t <= n,
            rk.len() == n,
            pj.len() == n,
            fronts@.len() <= t,
            forall|k: int| 0 <= k < fronts@.len() ==> (#[trigger] fronts@[k])@.len() > 0,
            forall|k: int, j: int|
                0 <= k < fronts@.len() && 0 <= j < fronts@[k]@.len() ==> (#[trigger] fronts@[k]@[j]) < n
                    && rk[fronts@[k]@[j] as int] == k && pj[fronts@[k]@[j] as int] == j,
            forall|x: int|
                0 <= x < n && #[trigger] rk[x] >= 0 ==> rk[x] < fronts@.len() && 0 <= pj[x]
                    < fronts@[rk[x]]@.len() && fronts@[rk[x]]@[pj[x]] == x,
            forall|x: int| 0 <= x < n ==> (#[trigger] rk[x] >= 0) == processed(order@, t as int, x),
            forall|x: int, y: int|
                0 <= x < n && 0 <= y < n && rk[x] >= 0 && rk[y] >= 0 && #[trigger] dominates(
                    *problem,
                    pop[y],
                    pop[x],
                ) ==> rk[y] < rk[x],
            forall|x: int|
                0 <= x < n && #[trigger] rk[x] > 0 ==> exists|y: int|
                    0 <= y < n && rk[y] == rk[x] - 1 && #[trigger] dominates(*problem, pop[y], pop[x]),
            forall|k: int, j1: int, j2: int|
                0 <= k < fronts@.len() && 0 <= j1 < j2 < fronts@[k]@.len() ==> precedes(
                    ks,
                    #[trigger] fronts@[k]@[j1] as int,
                    #[trigger] fronts@[k]@[j2] as int,
                ),
        decreases n - t,
    {
        let p = order[t];
        proof {
            // p has not been processed yet.
            if processed(order@, t as int, p as int) {
                let i = choose|i: int| 0 <= i < t && order@[i] == p;
                assert(precedes(ks, order@[i] as int, order@[t as int] as int));
                lemma_lex_irreflexive(ks[p as int]);
            }
        }
        let target = ens_target(problem, population, dominance, &fronts, p);
        let ghost old_fronts = fronts@;
        let ghost old_rk = rk;
        proof {
            // Every dominator of p is already placed, in a front before `target`.
            assert forall|y: int| 0 <= y < n && #[trigger] dominates(*problem, pop[y], pop[p as int]) implies
                rk[y] >= 0 && rk[y] < target by {
                lemma_dominance_orders_keys(*problem, pop[y], pop[p as int]);
                lemma_sorted_prefix(ks, m, order@, t as int, y);
                if rk[y] >= target {
                    let k = rk[y];
                    let j = pj[y];
                    assert(fronts@[k]@[j] == y);
                }
            }
            // p dominates nothing placed so far.
            assert forall|x: int| 0 <= x < n && rk[x] >= 0 implies !#[trigger] dominates(
                *problem,
                pop[p as int],
                pop[x],
            ) by {
                let i = choose|i: int| 0 <= i < t && order@[i] == x;
                assert(precedes(ks, order@[i] as int, order@[t as int] as int));
                if dominates(*problem, pop[p as int], pop[x]) {
                    lemma_dominance_orders_keys(*problem, pop[p as int], pop[x]);
                    lemma_precedes_asymmetric(ks, m, x, p as int);
                }
            }
            // Everything placed comes before p.
            assert forall|x: int| 0 <= x < n && rk[x] >= 0 implies precedes(ks, x, p as int) by {
                lemma_sorted_prefix(ks, m, order@, t as int, x);
            }
        }
        let ghost j_new: int;
        if target == fronts.len() {
            proof {
                j_new = 0;
            }
            let mut f: Vec<usize> = Vec::new();
            f.push(p);
            fronts.push(f);
        } else {
            proof {
                j_new = fronts@[target as int]@.len() as int;
            }
            fronts[target].push(p);
        }
        proof {
            rk = rk.update(p as int, target as int);
            pj = pj.update(p as int, j_new);
            let nf = fronts@;
            assert(nf.len() == old_fronts.len() || nf.len() == old_fronts.len() + 1);
            assert forall|k: int| 0 <= k < nf.len() && k != target implies nf[k] == old_fronts[k] by {}
            if target == old_fronts.len() {
                assert(nf[target as int]@ =~= seq![p]);
            } else {
                assert(nf[target as int]@ == old_fronts[target as int]@.push(p));
            }
            assert(nf[target as int]@.len() == j_new + 1);
            assert(nf[target as int]@[j_new] == p);
            assert forall|k: int, j: int| 0 <= k < nf.len() && 0 <= j < nf[k]@.len() implies (#[trigger] nf[k]@[j]) < n
                && rk[nf[k]@[j] as int] == k && pj[nf[k]@[j] as int] == j by {
                if k == target && j == j_new {
                } else {
                    assert(k < old_fronts.len() && j < old_fronts[k]@.len());
                    assert(nf[k]@[j] == old_fronts[k]@[j]);
                }
            }
            assert forall|x: int| 0 <= x < n && #[trigger] rk[x] >= 0 implies rk[x] < nf.len() && 0 <= pj[x]
                < nf[rk[x]]@.len() && nf[rk[x]]@[pj[x]] == x by {
                if x != p {
                    assert(old_fronts[rk[x]]@[pj[x]] == x);
                    if rk[x] == target {
                        assert(nf[rk[x]]@[pj[x]] == old_fronts[rk[x]]@[pj[x]]);
                    } else {
                        assert(nf[rk[x]] == old_fronts[rk[x]]);
                    }
                }
            }
            assert forall|x: int| 0 <= x < n implies (#[trigger] rk[x] >= 0) == processed(order@, t + 1, x) by {
                if x == p {
                    assert(order@[t as int] == x);
                } else if processed(order@, t + 1, x) {
                    let i = choose|i: int| 0 <= i < t + 1 && order@[i] == x;
                    assert(i != t);
                    assert(processed(order@, t as int, x));
                }
            }
            assert forall|x: int, y: int|
                0 <= x < n && 0 <= y < n && rk[x] >= 0 && rk[y] >= 0 && #[trigger] dominates(
                    *problem,
                    pop[y],
                    pop[x],
                ) implies rk[y] < rk[x] by {
                if x == p {
                    assert(old_rk[y] >= 0);
                } else if y == p {
                    assert(old_rk[x] >= 0);
                } else {
                    assert(old_rk[x] >= 0 && old_rk[y] >= 0);
                }
            }
            assert forall|x: int| 0 <= x < n && #[trigger] rk[x] > 0 implies exists|y: int|
                0 <= y < n && rk[y] == rk[x] - 1 && #[trigger] dominates(*problem, pop[y], pop[x]) by {
                if x == p {
                    let j = choose|j: int|
                        0 <= j < old_fronts[target - 1]@.len() && #[trigger] dominates(
                            *problem,
                            pop[old_fronts[target - 1]@[j] as int],
                            pop[p as int],
                        );
                    let y = old_fronts[target - 1]@[j] as int;
                    assert(old_rk[y] == target - 1);
                    assert(y != p);
                    assert(rk[y] == rk[x] - 1);
                } else {
                    assert(old_rk[x] > 0);
                    let y = choose|y: int|
                        0 <= y < n && old_rk[y] == old_rk[x] - 1 && #[trigger] dominates(*problem, pop[y], pop[x]);
                    assert(y != p);
                    assert(rk[y] == rk[x] - 1);
                }
            }
            assert forall|k: int, j1: int, j2: int|
                0 <= k < nf.len() && 0 <= j1 < j2 < nf[k]@.len() implies precedes(
                    ks,
                    #[trigger] nf[k]@[j1] as int,
                    #[trigger] nf[k]@[j2] as int,
                ) by {
                if k == target && j2 == j_new {
                    let x = nf[k]@[j1] as int;
                    assert(x == old_fronts[k]@[j1]);
                    assert(old_rk[x] == k);
                } else {
                    assert(nf[k]@[j1] == old_fronts[k]@[j1]);
                    assert(nf[k]@[j2] == old_fronts[k]@[j2]);
                }
            }
        }
        t = t + 1;
    }
    proof {
        let fv = fronts_view(fronts@);
        assert forall|k: int| 0 <= k < fv.len() implies (#[trigger] fv[k]) == fronts@[k]@ by {}
        assert forall|k: int| 0 <= k < fv.len() implies (#[trigger] fv[k]).len() > 0 by {
            assert(fv[k] == fronts@[k]@);
        }
        assert forall|k: int, j: int| 0 <= k < fv.len() && 0 <= j < fv[k].len() implies (#[trigger] fv[k][j])
            < pop.len() by {
            assert(fv[k] == fronts@[k]@);
        }
        assert forall|x: int| 0 <= x < pop.len() implies #[trigger] in_fronts(fv, x) by {
            assert(lists(order@, x));
            let i = choose|i: int| 0 <= i < order@.len() && order@[i] == x;
            assert(processed(order@, n as int, x));
            assert(rk[x] >= 0);
            assert(fv[rk[x]][pj[x]] == x);
        }
        assert forall|k1: int, j1: int, k2: int, j2: int|
            0 <= k1 < fv.len() && 0 <= j1 < fv[k1].len() && 0 <= k2 < fv.len() && 0 <= j2 < fv[k2].len()
                && #[trigger] fv[k1][j1] == #[trigger] fv[k2][j2] implies k1 == k2 && j1 == j2 by {
            assert(rk[fv[k1][j1] as int] == k1);
            assert(rk[fv[k2][j2] as int] == k2);
        }
        assert forall|k1: int, j1: int, k2: int, j2: int|
            0 <= k1 < fv.len() && 0 <= j1 < fv[k1].len() && 0 <= k2 < fv.len() && 0 <= j2 < fv[k2].len()
                && #[trigger] dominates(*problem, pop[fv[k2][j2] as int], pop[fv[k1][j1] as int])
                implies k2 < k1 by {
            let x = fv[k1][j1] as int;
            let y = fv[k2][j2] as int;
            assert(rk[x] == k1 && rk[y] == k2);
        }
        assert forall|k: int, j: int|
            0 < k < fv.len() && 0 <= j < fv[k].len() implies #[trigger] dominated_from_previous(
                *problem,
                pop,
                fv,
                k,
                j,
            ) by {
            let x = fv[k][j] as int;
            assert(rk[x] == k);
            let y = choose|y: int| 0 <= y < n && rk[y] == rk[x] - 1 && #[trigger] dominates(*problem, pop[y], pop[x]);
            assert(rk[y] >= 0);
            assert(fronts@[rk[y]]@[pj[y]] == y);
            assert(fv[k - 1][pj[y]] == y);
            assert(dominates(*problem, pop[fv[k - 1][pj[y]] as int], pop[fv[k][j] as int]));
        }
        assert forall|k: int, j1: int, j2: int|
            0 <= k < fv.len() && 0 <= j1 < j2 < fv[k].len() implies precedes(
                sort_keys(*problem, pop),
                #[trigger] fv[k][j1] as int,
                #[trigger] fv[k][j2] as int,
            ) by {
            assert(fv[k][j1] == fronts@[k]@[j1]);
            assert(fv[k][j2] == fronts@[k]@[j2]);
        }
    }
    fronts
}

/// Non-dominated sorting of a single-objective population: sort best first, and solutions
/// with equal keys share a front while a strictly better key opens an earlier one.
#[verifier::rlimit(60)]
#[verifier::spinoff_prover]
fn single_objective_fronts(problem: &Problem, population: &[Solution]) -> (fronts: Vec<Vec<usize>>)
    requires
        problem.number_of_objectives == 1,
        all_comparable(*problem, population@),
    ensures
        is_nondominated_sorting(*problem, population@, fronts_view(fronts@)),
        fronts_best_first(*problem, population@, fronts_view(fronts@)),
{
    let n = population.len();
    let keys = build_sort_keys(problem, population);
    let ghost ks = sort_keys(*problem, population@);
    let ghost m = key_len(*problem);
    let order = sort_by_keys(&keys, Ghost(m));
    let ghost pop = population@;
    let mut fronts: Vec<Vec<usize>> = Vec::new();
    let ghost mut rk: Seq<int> = Seq::new(n as nat, |i: int| -1);
    let ghost mut pj: Seq<int> = Seq::new(n as nat, |i: int| -1);
    let mut t: usize = 0;
    while t < n
        invariant
            n == pop.len(),
            pop == population@,
            problem.number_of_objectives == 1,
            all_comparable(*problem, pop),
            ks == sort_keys(*problem, pop),
            keys@.map_values(|r: Vec<i128>| r@) == ks,
            t > 0 ==> fronts@.len() > 0 && rk[order@[t - 1] as int] == fronts@.len() - 1,
            t > 0 ==> forall|x: int|
                0 <= x < n && #[trigger] rk[x] == fronts@.len() - 1 ==> ks[x] == ks[order@[t - 1] as int],
            uniform_keys(ks, m),
            sorted_by_keys(ks, order@),
            t <= n,
            rk.len() == n,
            pj.len() == n,
            fronts@.len() <= t,
            forall|k: int| 0 <= k < fronts@.len() ==> (#[trigger] fronts@[k])@.len() > 0,
            forall|k: int, j: int|
                0 <= k < fronts@.len() && 0 <= j < fronts@[k]@.len() ==> (#[trigger] fronts@[k]@[j]) < n
                    && rk[fronts@[k]@[j] as int] == k && pj[fronts@[k]@[j] as int] == j,
            forall|x: int|
                0 <= x < n && #[trigger] rk[x] >= 0 ==> rk[x] < fronts@.len() && 0 <= pj[x]
                    < fronts@[rk[x]]@.len() && fronts@[rk[x]]@[pj[x]] == x,
            forall|x: int| 0 <= x < n ==> (#[trigger] rk[x] >= 0) == processed(order@, t as int, x),
            forall|x: int, y: int|
                0 <= x < n && 0 <= y < n && rk[x] >= 0 && rk[y] >= 0 && #[trigger] dominates(
                    *problem,
                    pop[y],
                    pop[x],
                ) ==> rk[y] < rk[x],
            forall|x: int|
                0 <= x < n && #[trigger] rk[x] > 0 ==> exists|y: int|
                    0 <= y < n && rk[y] == rk[x] - 1 && #[trigger] dominates(*problem, pop[y], pop[x]),
            forall|k: int, j1: int, j2: int|
                0 <= k < fronts@.len() && 0 <= j1 < j2 < fronts@[k]@.len() ==> precedes(
                    ks,
                    #[trigger] fronts@[k]@[j1] as int,
                    #[trigger] fronts@[k]@[j2] as int,
                ),
        decreases n - t,
    {
        let p = order[t];
        proof {
            // p has not been processed yet.
            if processed(order@, t as int, p as int) {
                let i = choose|i: int| 0 <= i < t && order@[i] == p;
                assert(precedes(ks, order@[i] as int, order@[t as int] as int));
                lemma_lex_irreflexive(ks[p as int]);
            }
        }
        proof {
            assert(ks[p as int] == keys@[p as int]@);
            if t > 0 {
                assert(ks[order@[t - 1] as int] == keys@[order@[t - 1] as int]@);
            }
        }
        let same = t > 0 && {
            let q = order[t - 1];
            !lex_less(&keys[p], &keys[q]) && !lex_less(&keys[q], &keys[p])
        };
        let target = if same {
            fronts.len() - 1
        } else {
            fronts.len()
        };
        let ghost prev = if t > 0 {
            order@[t - 1] as int
        } else {
            0
        };
        proof {
            if same {
                lemma_lex_total(ks[p as int], ks[prev]);
            }
            if t > 0 {
                assert(precedes(ks, prev, p as int));
                if !same {
                    lemma_lex_irreflexive(ks[p as int]);
                    assert(ks[prev] != ks[p as int]);
                    assert(lex_lt(ks[prev], ks[p as int]));
                }
            }
        }
        let ghost old_fronts = fronts@;
        let ghost old_rk = rk;
        proof {
            // Every dominator of p is already placed, in a front before `target`.
            assert forall|y: int| 0 <= y < n && #[trigger] dominates(*problem, pop[y], pop[p as int]) implies
                rk[y] >= 0 && rk[y] < target by {
                lemma_dominance_orders_keys(*problem, pop[y], pop[p as int]);
                lemma_sorted_prefix(ks, m, order@, t as int, y);
                if rk[y] >= target {
                    assert(rk[y] == fronts@.len() - 1);
                    assert(ks[y] == ks[p as int]);
                    lemma_lex_irreflexive(ks[p as int]);
                }
            }
            // p dominates nothing placed so far.
            assert forall|x: int| 0 <= x < n && rk[x] >= 0 implies !#[trigger] dominates(
                *problem,
                pop[p as int],
                pop[x],
            ) by {
                let i = choose|i: int| 0 <= i < t && order@[i] == x;
                assert(precedes(ks, order@[i] as int, order@[t as int] as int));
                if dominates(*problem, pop[p as int], pop[x]) {
                    lemma_dominance_orders_keys(*problem, pop[p as int], pop[x]);
                    lemma_precedes_asymmetric(ks, m, x, p as int);
                }
            }
            // Everything placed comes before p.
            assert forall|x: int| 0 <= x < n && rk[x] >= 0 implies precedes(ks, x, p as int) by {
                lemma_sorted_prefix(ks, m, order@, t as int, x);
            }
        }
        let ghost j_new: int;
        if target == fronts.len() {
            proof {
                j_new = 0;
            }
            let mut f: Vec<usize> = Vec::new();
            f.push(p);
            fronts.push(f);
        } else {
            proof {
                j_new = fronts@[target as int]@.len() as int;
            }
            fronts[target].push(p);
        }
        proof {
            rk = rk.update(p as int, target as int);
            pj = pj.update(p as int, j_new);
            let nf = fronts@;
            assert(nf.len() == old_fronts.len() || nf.len() == old_fronts.len() + 1);
            assert forall|k: int| 0 <= k < nf.len() && k != target implies nf[k] == old_fronts[k] by {}
            if target == old_fronts.len() {
                assert(nf[target as int]@ =~= seq![p]);
            } else {
                assert(nf[target as int]@ == old_fronts[target as int]@.push(p));
            }
            assert(nf[target as int]@.len() == j_new + 1);
            assert(nf[target as int]@[j_new] == p);
            assert forall|k: int, j: int| 0 <= k < nf.len() && 0 <= j < nf[k]@.len() implies (#[trigger] nf[k]@[j]) < n
                && rk[nf[k]@[j] as int] == k && pj[nf[k]@[j] as int] == j by {
                if k == target && j == j_new {
                } else {
                    assert(k < old_fronts.len() && j < old_fronts[k]@.len());
                    assert(nf[k]@[j] == old_fronts[k]@[j]);
                }
            }
            assert forall|x: int| 0 <= x < n && #[trigger] rk[x] >= 0 implies rk[x] < nf.len() && 0 <= pj[x]
                < nf[rk[x]]@.len() && nf[rk[x]]@[pj[x]] == x by {
                if x != p {
                    assert(old_fronts[rk[x]]@[pj[x]] == x);
                    if rk[x] == target {
                        assert(nf[rk[x]]@[pj[x]] == old_fronts[rk[x]]@[pj[x]]);
                    } else {
                        assert(nf[rk[x]] == old_fronts[rk[x]]);
                    }
                }
            }
            assert forall|x: int| 0 <= x < n implies (#[trigger] rk[x] >= 0) == processed(order@, t + 1, x) by {
                if x == p {
                    assert(order@[t as int] == x);
                } else if processed(order@, t + 1, x) {
                    let i = choose|i: int| 0 <= i < t + 1 && order@[i] == x;
                    assert(i != t);
                    assert(processed(order@, t as int, x));
                }
            }
            assert forall|x: int, y: int|
                0 <= x < n && 0 <= y < n && rk[x] >= 0 && rk[y] >= 0 && #[trigger] dominates(
                    *problem,
                    pop[y],
                    pop[x],
                ) implies rk[y] < rk[x] by {
                if x == p {
                    assert(old_rk[y] >= 0);
                } else if y == p {
                    assert(old_rk[x] >= 0);
                } else {
                    assert(old_rk[x] >= 0 && old_rk[y] >= 0);
                }
            }
            assert forall|x: int| 0 <= x < n && #[trigger] rk[x] > 0 implies exists|y: int|
                0 <= y < n && rk[y] == rk[x] - 1 && #[trigger] dominates(*problem, pop[y], pop[x]) by {
                if x == p {
                    if same {
                        assert(old_rk[prev] > 0);
                        let y = choose|y: int|
                            0 <= y < n && old_rk[y] == old_rk[prev] - 1 && #[trigger] dominates(
                                *problem,
                                pop[y],
                                pop[prev],
                            );
                        lemma_single_objective_dominance(*problem, pop[y], pop[prev]);
                        lemma_single_objective_dominance(*problem, pop[y], pop[p as int]);
                        assert(y != p);
                        assert(rk[y] == rk[x] - 1);
                    } else {
                        assert(ks[prev] != ks[p as int]);
                        assert(lex_lt(ks[prev], ks[p as int]));
                        lemma_single_objective_dominance(*problem, pop[prev], pop[p as int]);
                        assert(prev != p);
                        assert(rk[prev] == rk[x] - 1);
                        assert(dominates(*problem, pop[prev], pop[x]));
                    }
                } else {
                    assert(old_rk[x] > 0);
                    let y = choose|y: int|
                        0 <= y < n && old_rk[y] == old_rk[x] - 1 && #[trigger] dominates(*problem, pop[y], pop[x]);
                    assert(y != p);
                    assert(rk[y] == rk[x] - 1);
                }
            }
            assert forall|x: int| 0 <= x < n && #[trigger] rk[x] == nf.len() - 1 implies ks[x] == ks[p as int] by {
                if x != p {
                    assert(old_rk[x] == rk[x]);
                    if !same {
                        assert(old_rk[x] < old_fronts.len());
                    }
                }
            }
            assert forall|k: int, j1: int, j2: int|
                0 <= k < nf.len() && 0 <= j1 < j2 < nf[k]@.len() implies precedes(
                    ks,
                    #[trigger] nf[k]@[j1] as int,
                    #[trigger] nf[k]@[j2] as int,
                ) by {
                if k == target && j2 == j_new {
                    let x = nf[k]@[j1] as int;
                    assert(x == old_fronts[k]@[j1]);
                    assert(old_rk[x] == k);
                } else {
                    assert(nf[k]@[j1] == old_fronts[k]@[j1]);
                    assert(nf[k]@[j2] == old_fronts[k]@[j2]);
                }
            }
        }
        t = t + 1;
    }
    proof {
        let fv = fronts_view(fronts@);
        assert forall|k: int| 0 <= k < fv.len() implies (#[trigger] fv[k]) == fronts@[k]@ by {}
        assert forall|k: int| 0 <= k < fv.len() implies (#[trigger] fv[k]).len() > 0 by {
            assert(fv[k] == fronts@[k]@);
        }
        assert forall|k: int, j: int| 0 <= k < fv.len() && 0 <= j < fv[k].len() implies (#[trigger] fv[k][j])
            < pop.len() by {
            assert(fv[k] == fronts@[k]@);
        }
        assert forall|x: int| 0 <= x < pop.len() implies #[trigger] in_fronts(fv, x) by {
            assert(lists(order@, x));
            let i = choose|i: int| 0 <= i < order@.len() && order@[i] == x;
            assert(processed(order@, n as int, x));
            assert(rk[x] >= 0);
            assert(fv[rk[x]][pj[x]] == x);
        }
        assert forall|k1: int, j1: int, k2: int, j2: int|
            0 <= k1 < fv.len() && 0 <= j1 < fv[k1].len() && 0 <= k2 < fv.len() && 0 <= j2 < fv[k2].len()
                && #[trigger] fv[k1][j1] == #[trigger] fv[k2][j2] implies k1 == k2 && j1 == j2 by {
            assert(rk[fv[k1][j1] as int] == k1);
            assert(rk[fv[k2][j2] as int] == k2);
        }
        assert forall|k1: int, j1: int, k2: int, j2: int|
            0 <= k1 < fv.len() && 0 <= j1 < fv[k1].len() && 0 <= k2 < fv.len() && 0 <= j2 < fv[k2].len()
                && #[trigger] dominates(*problem, pop[fv[k2][j2] as int], pop[fv[k1][j1] as int])
                implies k2 < k1 by {
            let x = fv[k1][j1] as int;
            let y = fv[k2][j2] as int;
            assert(rk[x] == k1 && rk[y] == k2);
        }
        assert forall|k: int, j: int|
            0 < k < fv.len() && 0 <= j < fv[k].len() implies #[trigger] dominated_from_previous(
                *problem,
                pop,
                fv,
                k,
                j,
            ) by {
            let x = fv[k][j] as int;
            assert(rk[x] == k);
            let y = choose|y: int| 0 <= y < n && rk[y] == rk[x] - 1 && #[trigger] dominates(*problem, pop[y], pop[x]);
            assert(rk[y] >= 0);
            assert(fronts@[rk[y]]@[pj[y]] == y);
            assert(fv[k - 1][pj[y]] == y);
            assert(dominates(*problem, pop[fv[k - 1][pj[y]] as int], pop[fv[k][j] as int]));
        }
        assert forall|k: int, j1: int, j2: int|
            0 <= k < fv.len() && 0 <= j1 < j2 < fv[k].len() implies precedes(
                sort_keys(*problem, pop),
                #[trigger] fv[k][j1] as int,
                #[trigger] fv[k][j2] as int,
            ) by {
            assert(fv[k][j1] == fronts@[k]@[j1]);
            assert(fv[k][j2] == fronts@[k]@[j2]);
        }
    }
    fronts
}

/// With a single objective, dominance is exactly the strict best-first key order.
pub proof fn lemma_single_objective_dominance(p: Problem, a: Solution, b: Solution)
    requires
        p.number_of_objectives == 1,
    ensures
        dominates(p, a, b) == lex_lt(sort_key(p, a), sort_key(p, b)),
{
    reveal_with_fuel(lex_lt, 4);
    let ka = sort_key(p, a);
    let kb = sort_key(p, b);
    assert(better_somewhere(p, a, b) == better_on(p, a, b, 0)) by {
        if better_on(p, a, b, 0) {
            assert(better_somewhere(p, a, b));
        }
    }
    assert(better_somewhere(p, b, a) == better_on(p, b, a, 0)) by {
        if better_on(p, b, a, 0) {
            assert(better_somewhere(p, b, a));
        }
    }
    if has_constraints_spec(p) {
        assert(ka.len() == 3 && ka[0] == a.constraint_violation as i128 && ka[1]
            == a.constraint_violation_magnitude as i128 && ka[2] == adjusted(p, a, 0));
        assert(kb.len() == 3 && kb[0] == b.constraint_violation as i128 && kb[1]
            == b.constraint_violation_magnitude as i128 && kb[2] == adjusted(p, b, 0));
        assert(ka.drop_first().drop_first().drop_first().len() == 0);
        assert(ka.drop_first()[0] == ka[1] && ka.drop_first().drop_first()[0] == ka[2]);
        assert(kb.drop_first()[0] == kb[1] && kb.drop_first().drop_first()[0] == kb[2]);
    } else {
        assert(ka.len() == 1 && ka[0] == adjusted(p, a, 0));
        assert(kb.len() == 1 && kb[0] == adjusted(p, b, 0));
        assert(ka.drop_first().len() == 0);
    }
}

// ---------------------------------------------------------------------------------------
// Best-Order-Sort.
// ---------------------------------------------------------------------------------------

/// The key of `s` in the list of objective `k`: that objective first, then every objective,
/// each signed so that smaller is better.
pub open spec fn list_key(p: Problem, s: Solution, k: int) -> Seq<i128> {
    seq![adjusted(p, s, k)] + Seq::new(p.number_of_objectives as nat, |i: int| adjusted(p, s, i))
}

/// The keys of a population in the list of objective `k`.
pub open spec fn list_keys(p: Problem, pop: Seq<Solution>, k: int) -> Seq<Seq<i128>> {
    Seq::new(pop.len(), |i: int| list_key(p, pop[i], k))
}

/// Without constraints, a dominating solution comes first in every objective's list.
pub proof fn lemma_dominance_orders_list_keys(p: Problem, a: Solution, b: Solution, k: int)
    requires
        !has_constraints_spec(p),
        dominates(p, a, b),
        0 <= k < p.number_of_objectives,
    ensures
        lex_lt(list_key(p, a, k), list_key(p, b, k)),
{
    let ka = list_key(p, a, k);
    let kb = list_key(p, b, k);
    let i = choose|i: int| 0 <= i < p.number_of_objectives && #[trigger] better_on(p, a, b, i);
    assert forall|x: int| 0 <= x < ka.len() implies ka[x] <= kb[x] by {
        if x == 0 {
            assert(!better_on(p, b, a, k));
        } else {
            assert(!better_on(p, b, a, x - 1));
        }
    }
    assert(ka[i + 1] < kb[i + 1]);
    lemma_lex_pointwise(ka, kb, i + 1);
}

/// Builds the list keys of objective `k`.
fn build_list_keys(problem: &Problem, population: &[Solution], k: usize) -> (keys: Vec<Vec<i128>>)
    requires
        all_comparable(*problem, population@),
        k < problem.number_of_objectives,
    ensures
        keys@.map_values(|r: Vec<i128>| r@) == list_keys(*problem, population@, k as int),
        uniform_keys(list_keys(*problem, population@, k as int), (problem.number_of_objectives + 1) as nat),
{
    let n = problem.number_of_objectives;
    let mut keys: Vec<Vec<i128>> = Vec::new();
    let mut x: usize = 0;
    while x < population.len()
        invariant
            x <= population@.len(),
            n == problem.number_of_objectives,
            k < n,
            all_comparable(*problem, population@),
            keys@.len() == x,
            forall|j: int| 0 <= j < x ==> (#[trigger] keys@[j])@ == list_key(*problem, population@[j], k as int),
        decreases population.len() - x,
    {
        let s = &population[x];
        assert(comparable(*problem, population@[x as int]));
        let mut row: Vec<i128> = Vec::new();
        let mut i: usize = 0;
        let mut head: i128 = 0;
        while i < n
            invariant
                i <= n,
                n == problem.number_of_objectives,
                k < n,
                comparable(*problem, *s),
                row@ == Seq::new(i as nat, |j: int| adjusted(*problem, *s, j)),
                i > k ==> head == adjusted(*problem, *s, k as int),
            decreases n - i,
        {
            let o = s.objective_fitness_values[i] as i128;
            let minimize = match &problem.direction {
                Some(d) => d[i] == -1,
                None => false,
            };
            let v = if minimize {
                o
            } else {
                -o
            };
            if i == k {
                head = v;
            }
            row.push(v);
            assert(row@ =~= Seq::new((i + 1) as nat, |j: int| adjusted(*problem, *s, j)));
            i = i + 1;
        }
        let mut full: Vec<i128> = Vec::new();
        full.push(head);
        let mut j: usize = 0;
        while j < row.len()
            invariant
                j <= row@.len(),
                full@ == seq![head] + row@.subrange(0, j as int),
            decreases row.len() - j,
        {
            full.push(row[j]);
            assert(full@ =~= seq![head] + row@.subrange(0, j + 1));
            j = j + 1;
        }
        assert(full@ =~= list_key(*problem, population@[x as int], k as int));
        keys.push(full);
        x = x + 1;
    }
    assert(keys@.map_values(|r: Vec<i128>| r@) =~= list_keys(*problem, population@, k as int));
    keys
}

/// How many entries of `s` are `true`.
pub open spec fn count_true(s: Seq<bool>) -> nat
    decreases s.len(),
{
    if s.len() == 0 {
        0
    } else {
        count_true(s.drop_last()) + if s.last() {
            1nat
        } else {
            0nat
        }
    }
}

pub proof fn lemma_count_true_update(s: Seq<bool>, i: int)
    requires
        0 <= i < s.len(),
        !s[i],
    ensures
        count_true(s.update(i, true)) == count_true(s) + 1,
    decreases s.len(),
{
    let t = s.update(i, true);
    if i < s.len() - 1 {
        assert(t.drop_last() =~= s.drop_last().update(i, true));
        lemma_count_true_update(s.drop_last(), i);
    } else {
        assert(t.drop_last() =~= s.drop_last());
    }
}

proof fn lemma_count_true_full(s: Seq<bool>)
    requires
        count_true(s) == s.len(),
    ensures
        forall|i: int| 0 <= i < s.len() ==> s[i],
    decreases s.len(),
{
    if s.len() > 0 {
        lemma_count_true_le(s.drop_last());
        lemma_count_true_full(s.drop_last());
        assert forall|i: int| 0 <= i < s.len() implies s[i] by {
            if i < s.len() - 1 {
                assert(s.drop_last()[i] == s[i]);
            }
        }
    }
}

pub proof fn lemma_count_true_le(s: Seq<bool>)
    ensures
        count_true(s) <= s.len(),
    decreases s.len(),
{
    if s.len() > 0 {
        lemma_count_true_le(s.drop_last());
    }
}

/// `s` occurs in `list` at a position before row `i`, or at row `i` in an objective list before
/// `kk`: it has been reached by the scan.
pub open spec fn reached(list: Seq<usize>, k: int, i: int, kk: int, s: int) -> bool {
    exists|j: int| 0 <= j < list.len() && list[j] == s && (j < i || (j == i && k < kk))
}

/// `s` occurs in `front`.
pub open spec fn holds(front: Seq<usize>, s: int) -> bool {
    exists|j: int| 0 <= j < front.len() && front[j] == s
}

/// A rank assignment over the ranked solutions: dominators rank lower, and a ranked
/// solution above rank 0 has a dominator of the rank just below.
pub open spec fn ranks_consistent(p: Problem, pop: Seq<Solution>, ranked: Seq<bool>, rank: Seq<usize>) -> bool {
    &&& forall|x: int, y: int|
        0 <= x < pop.len() && 0 <= y < pop.len() && ranked[x] && ranked[y] && #[trigger] dominates(
            p,
            pop[y],
            pop[x],
        ) ==> rank[y] < rank[x]
    &&& forall|x: int|
        0 <= x < pop.len() && ranked[x] && #[trigger] rank[x] > 0 ==> exists|y: int|
            0 <= y < pop.len() && ranked[y] && rank[y] == rank[x] - 1 && #[trigger] dominates(
                p,
                pop[y],
                pop[x],
            )
}

/// Walking down from a ranked dominator of `s`, every lower rank holds a dominator of `s`.
proof fn lemma_descend(p: Problem, pop: Seq<Solution>, ranked: Seq<bool>, rank: Seq<usize>, s: int, y: int, r: int)
    requires
        ranks_consistent(p, pop, ranked, rank),
        ranked.len() == pop.len(),
        rank.len() == pop.len(),
        0 <= s < pop.len(),
        0 <= y < pop.len(),
        ranked[y],
        dominates(p, pop[y], pop[s]),
        0 <= r <= rank[y],
    ensures
        exists|u: int| 0 <= u < pop.len() && ranked[u] && rank[u] == r && #[trigger] dominates(p, pop[u], pop[s]),
    decreases rank[y] - r,
{
    if rank[y] == r {
        assert(dominates(p, pop[y], pop[s]));
    } else {
        let z = choose|z: int|
            0 <= z < pop.len() && ranked[z] && rank[z] == rank[y] - 1 && #[trigger] dominates(p, pop[z], pop[y]);
        lemma_dominance_transitive(p, pop[z], pop[y], pop[s]);
        lemma_descend(p, pop, ranked, rank, s, z, r);
    }
}

/// Some member of `front` dominates solution `x`.
pub open spec fn has_dominator_in(p: Problem, pop: Seq<Solution>, front: Seq<usize>, x: int) -> bool {
    exists|j: int| 0 <= j < front.len() && #[trigger] dominates(p, pop[front[j] as int], pop[x])
}

/// The first front that holds no dominator of `x`, or the number of fronts.
fn first_free_front<D: Dominance>(
    problem: &Problem,
    population: &[Solution],
    dominance: &D,
    fronts: &Vec<Vec<usize>>,
    x: usize,
) -> (f: usize)
    requires
        is_pareto(*dominance, *problem),
        all_comparable(*problem, population@),
        x < population@.len(),
        forall|k: int, j: int|
            0 <= k < fronts@.len() && 0 <= j < fronts@[k]@.len() ==> (#[trigger] fronts@[k]@[j])
                < population@.len(),
    ensures
        f <= fronts@.len(),
        forall|k: int|
            0 <= k < f ==> #[trigger] has_dominator_in(*problem, population@, fronts@[k]@, x as int),
        f < fronts@.len() ==> !has_dominator_in(*problem, population@, fronts@[f as int]@, x as int),
{
    let mut f: usize = 0;
    while f < fronts.len()
        invariant
            is_pareto(*dominance, *problem),
            all_comparable(*problem, population@),
            x < population@.len(),
            forall|k: int, j: int|
                0 <= k < fronts@.len() && 0 <= j < fronts@[k]@.len() ==> (#[trigger] fronts@[k]@[j])
                    < population@.len(),
            f <= fronts@.len(),
            forall|k: int|
                0 <= k < f ==> #[trigger] has_dominator_in(*problem, population@, fronts@[k]@, x as int),
        decreases fronts.len() - f,
    {
        if !front_has_dominator(problem, population, dominance, &fronts[f], x) {
            return f;
        }
        f = f + 1;
    }
    f
}

/// The index lists of the scan's objective lists, front lists per objective.
pub open spec fn comp_view(c: Seq<Vec<Vec<usize>>>) -> Seq<Seq<Seq<usize>>> {
    c.map_values(|f: Vec<Vec<usize>>| f@.map_values(|g: Vec<usize>| g@))
}

/// `s` has been reached in some objective list.
pub open spec fn reached_any(q: Seq<Seq<usize>>, i: int, kk: int, s: int) -> bool {
    exists|k: int| 0 <= k < q.len() && #[trigger] reached(q[k], k, i, kk, s)
}

/// The state of the Best-Order-Sort scan before it reaches row `i` of objective list `kk`.
pub open spec fn scan_state(
    p: Problem,
    pop: Seq<Solution>,
    q: Seq<Seq<usize>>,
    i: int,
    kk: int,
    ranked: Seq<bool>,
    rank: Seq<usize>,
    comp: Seq<Seq<Seq<usize>>>,
    count: nat,
) -> bool {
    let n = pop.len();
    let m = q.len();
    &&& ranked.len() == n
    &&& rank.len() == n
    &&& comp.len() == m
    &&& forall|s: int| 0 <= s < n ==> (#[trigger] ranked[s] <==> reached_any(q, i, kk, s))
    &&& forall|s: int| 0 <= s < n && #[trigger] ranked[s] ==> rank[s] < usize::MAX
    &&& forall|k: int, f: int, j: int|
        0 <= k < m && 0 <= f < comp[k].len() && 0 <= j < comp[k][f].len() ==> {
            let s = #[trigger] comp[k][f][j] as int;
            &&& s < n
            &&& ranked[s]
            &&& rank[s] == f
            &&& reached(q[k], k, i, kk, s)
        }
    &&& forall|k: int, s: int|
        0 <= k < m && 0 <= s < n && #[trigger] reached(q[k], k, i, kk, s) ==> rank[s] < comp[k].len()
            && holds(comp[k][rank[s] as int], s)
    &&& ranks_consistent(p, pop, ranked, rank)
    &&& count == count_true(ranked)
}

/// A dominator of a solution sits before it in every objective list.
proof fn lemma_dominator_earlier(p: Problem, pop: Seq<Solution>, list: Seq<usize>, k: int, jx: int, y: int)
    requires
        !has_constraints_spec(p),
        0 <= k < p.number_of_objectives,
        sorted_by_keys(list_keys(p, pop, k), list),
        0 <= jx < list.len(),
        0 <= y < pop.len(),
        dominates(p, pop[y], pop[list[jx] as int]),
    ensures
        exists|jy: int| 0 <= jy < jx && list[jy] == y,
{
    let lk = list_keys(p, pop, k);
    let x = list[jx] as int;
    assert(lists(list, y));
    let jy = choose|jy: int| 0 <= jy < list.len() && list[jy] == y;
    lemma_dominance_orders_list_keys(p, pop[y], pop[x], k);
    assert(lk[y] == list_key(p, pop[y], k) && lk[x] == list_key(p, pop[x], k));
    if jy == jx {
        lemma_lex_irreflexive(lk[x]);
    } else if jy > jx {
        assert(precedes(lk, x, y));
        assert(uniform_keys(lk, (p.number_of_objectives + 1) as nat)) by {
            assert forall|i: int| 0 <= i < lk.len() implies (#[trigger] lk[i]).len() == (p.number_of_objectives + 1) as nat by {
                assert(lk[i] == list_key(p, pop[i], k));
            }
        }
        lemma_precedes_asymmetric(lk, (p.number_of_objectives + 1) as nat, y, x);
    }
}

/// The rank a newly reached solution gets keeps the rank assignment consistent.
proof fn lemma_new_rank(
    p: Problem,
    pop: Seq<Solution>,
    q: Seq<Seq<usize>>,
    i: int,
    kk: int,
    ranked: Seq<bool>,
    rank: Seq<usize>,
    comp: Seq<Seq<Seq<usize>>>,
    count: nat,
    f: int,
)
    requires
        scan_state(p, pop, q, i, kk, ranked, rank, comp, count),
        !has_constraints_spec(p),
        q.len() == p.number_of_objectives,
        forall|k: int| 0 <= k < q.len() ==> sorted_by_keys(list_keys(p, pop, k), #[trigger] q[k]),
        0 <= kk < q.len(),
        0 <= i < q[kk].len(),
        0 <= q[kk][i] < pop.len(),
        !ranked[q[kk][i] as int],
        0 <= f <= comp[kk].len(),
        f < usize::MAX,
        forall|k: int|
            0 <= k < f ==> #[trigger] has_dominator_in(p, pop, comp[kk][k], q[kk][i] as int),
        f < comp[kk].len() ==> !has_dominator_in(p, pop, comp[kk][f], q[kk][i] as int),
    ensures
        ranks_consistent(
            p,
            pop,
            ranked.update(q[kk][i] as int, true),
            rank.update(q[kk][i] as int, f as usize),
        ),
{
    let s = q[kk][i] as int;
    let n = pop.len();
    let r2 = ranked.update(s, true);
    let k2 = rank.update(s, f as usize);
    // Every dominator of s is reached in list kk, hence ranked and in its front there.
    assert forall|y: int| 0 <= y < n && #[trigger] dominates(p, pop[y], pop[s]) implies ranked[y]
        && rank[y] < f by {
        lemma_dominator_earlier(p, pop, q[kk], kk, i, y);
        let jy = choose|jy: int| 0 <= jy < i && q[kk][jy] == y;
        assert(reached(q[kk], kk, i, kk, y));
        assert(reached_any(q, i, kk, y));
        if rank[y] >= f {
            lemma_descend(p, pop, ranked, rank, s, y, f);
            let u = choose|u: int| 0 <= u < pop.len() && ranked[u] && rank[u] == f && #[trigger] dominates(p, pop[u], pop[s]);
            lemma_dominator_earlier(p, pop, q[kk], kk, i, u);
            let ju = choose|ju: int| 0 <= ju < i && q[kk][ju] == u;
            assert(reached(q[kk], kk, i, kk, u));
            assert(holds(comp[kk][rank[u] as int], u));
            let j = choose|j: int| 0 <= j < comp[kk][f].len() && comp[kk][f][j] == u;
            assert(dominates(p, pop[comp[kk][f][j] as int], pop[s]));
            assert(has_dominator_in(p, pop, comp[kk][f], s));
        }
    }
    // s dominates no ranked solution: such a solution was reached in some list, and s sits
    // before it there, so s would have been reached too.
    assert forall|x: int| 0 <= x < n && ranked[x] implies !#[trigger] dominates(p, pop[s], pop[x]) by {
        if dominates(p, pop[s], pop[x]) {
            assert(reached_any(q, i, kk, x));
            let k = choose|k: int| 0 <= k < q.len() && #[trigger] reached(q[k], k, i, kk, x);
            let jx = choose|jx: int| 0 <= jx < q[k].len() && q[k][jx] == x && (jx < i || (jx == i && k < kk));
            lemma_dominator_earlier(p, pop, q[k], k, jx, s);
            let js = choose|js: int| 0 <= js < jx && q[k][js] == s;
            assert(reached(q[k], k, i, kk, s));
            assert(reached_any(q, i, kk, s));
        }
    }
    assert forall|x: int, y: int|
        0 <= x < n && 0 <= y < n && r2[x] && r2[y] && #[trigger] dominates(p, pop[y], pop[x]) implies k2[y]
        < k2[x] by {
        if x == s {
            if y == s {
                lemma_dominance_irreflexive(p, pop[s]);
            }
        } else if y == s {
        }
    }
    assert forall|x: int| 0 <= x < n && r2[x] && #[trigger] k2[x] > 0 implies exists|y: int|
        0 <= y < n && r2[y] && k2[y] == k2[x] - 1 && #[trigger] dominates(p, pop[y], pop[x]) by {
        if x == s {
            assert(has_dominator_in(p, pop, comp[kk][f - 1], s));
            let j = choose|j: int| 0 <= j < comp[kk][f - 1].len() && #[trigger] dominates(p, pop[comp[kk][f - 1][j] as int], pop[s]);
            let y = comp[kk][f - 1][j] as int;
            assert(ranked[y] && rank[y] == f - 1);
            assert(y != s);
            assert(r2[y] && k2[y] == k2[x] - 1);
        } else {
            assert(rank[x] > 0 && ranked[x]);
            let y = choose|y: int| 0 <= y < n && ranked[y] && rank[y] == rank[x] - 1 && #[trigger] dominates(p, pop[y], pop[x]);
            assert(y != s);
            assert(r2[y] && k2[y] == k2[x] - 1);
        }
    }
}

/// `ext` is `base` followed by empty fronts.
pub open spec fn extends_with_empty(base: Seq<Seq<usize>>, ext: Seq<Seq<usize>>) -> bool {
    &&& ext.len() >= base.len()
    &&& forall|f: int| 0 <= f < base.len() ==> #[trigger] ext[f] == base[f]
    &&& forall|f: int| base.len() <= f < ext.len() ==> (#[trigger] ext[f]).len() == 0
}

proof fn lemma_reached_step(q: Seq<Seq<usize>>, k: int, i: int, kk: int, x: int)
    requires
        0 <= kk,
        0 <= k < q.len(),
        0 <= i < q[kk].len() || kk >= q.len(),
    ensures
        reached(q[k], k, i, kk + 1, x) <==> (reached(q[k], k, i, kk, x) || (k == kk && q[kk][i] == x)),
{
    if reached(q[k], k, i, kk + 1, x) {
        let j = choose|j: int| 0 <= j < q[k].len() && q[k][j] == x && (j < i || (j == i && k < kk + 1));
        if !(j < i || (j == i && k < kk)) {
            assert(k == kk && j == i);
        }
    }
    if k == kk && q[kk][i] == x {
        assert(0 <= i < q[k].len() && q[k][i] == x);
    }
}

/// Reaching an already ranked solution files it into its front in the current list.
proof fn lemma_step_ranked(
    p: Problem,
    pop: Seq<Solution>,
    q: Seq<Seq<usize>>,
    i: int,
    kk: int,
    ranked: Seq<bool>,
    rank: Seq<usize>,
    comp: Seq<Seq<Seq<usize>>>,
    count: nat,
    ext: Seq<Seq<usize>>,
)
    requires
        scan_state(p, pop, q, i, kk, ranked, rank, comp, count),
        0 <= kk < q.len(),
        0 <= i < q[kk].len(),
        0 <= q[kk][i] < pop.len(),
        ranked[q[kk][i] as int],
        extends_with_empty(comp[kk], ext),
        rank[q[kk][i] as int] < ext.len(),
    ensures
        scan_state(
            p,
            pop,
            q,
            i,
            kk + 1,
            ranked,
            rank,
            comp.update(kk, ext.update(rank[q[kk][i] as int] as int, ext[rank[q[kk][i] as int] as int].push(q[kk][i]))),
            count,
        ),
{
    let s = q[kk][i] as int;
    let r = rank[s] as int;
    let c2 = comp.update(kk, ext.update(r, ext[r].push(q[kk][i])));
    let n = pop.len();
    let m = q.len();
    assert forall|k: int, x: int| 0 <= k < m implies (reached(q[k], k, i, kk + 1, x) <==> (reached(q[k], k, i, kk, x)
        || (k == kk && q[kk][i] == x))) by {
        lemma_reached_step(q, k, i, kk, x);
    }
    assert forall|x: int| 0 <= x < n implies (#[trigger] ranked[x] <==> reached_any(q, i, kk + 1, x)) by {
        if reached_any(q, i, kk + 1, x) {
            let k = choose|k: int| 0 <= k < q.len() && #[trigger] reached(q[k], k, i, kk + 1, x);
            if !reached(q[k], k, i, kk, x) {
                assert(x == s);
            } else {
                assert(reached_any(q, i, kk, x));
            }
        }
        if ranked[x] {
            let k = choose|k: int| 0 <= k < q.len() && #[trigger] reached(q[k], k, i, kk, x);
            assert(reached(q[k], k, i, kk + 1, x));
        }
    }
    assert forall|k: int, f: int, j: int|
        0 <= k < m && 0 <= f < c2[k].len() && 0 <= j < c2[k][f].len() implies {
            let x = #[trigger] c2[k][f][j] as int;
            &&& x < n
            &&& ranked[x]
            &&& rank[x] == f
            &&& reached(q[k], k, i, kk + 1, x)
        } by {
        if k == kk && f == r && j == c2[k][f].len() - 1 {
            assert(c2[k][f][j] == s);
        } else if k == kk {
            if f < comp[kk].len() {
                assert(c2[k][f][j] == comp[k][f][j]);
            } else {
                assert(f == r);
                assert(ext[f].len() == 0);
            }
        } else {
            assert(c2[k] == comp[k]);
        }
    }
    assert forall|k: int, x: int|
        0 <= k < m && 0 <= x < n && #[trigger] reached(q[k], k, i, kk + 1, x) implies rank[x] < c2[k].len()
        && holds(c2[k][rank[x] as int], x) by {
        if k == kk && x == s {
            assert(c2[k][r][ext[r].len() as int] == x);
        } else {
            assert(reached(q[k], k, i, kk, x));
            let j = choose|j: int| 0 <= j < comp[k][rank[x] as int].len() && comp[k][rank[x] as int][j] == x;
            assert(c2[k][rank[x] as int][j] == x);
        }
    }
}

/// Reaching an unranked solution ranks it into the first front free of its dominators.
proof fn lemma_step_new(
    p: Problem,
    pop: Seq<Solution>,
    q: Seq<Seq<usize>>,
    i: int,
    kk: int,
    ranked: Seq<bool>,
    rank: Seq<usize>,
    comp: Seq<Seq<Seq<usize>>>,
    count: nat,
    f: int,
    ext: Seq<Seq<usize>>,
)
    requires
        scan_state(p, pop, q, i, kk, ranked, rank, comp, count),
        !has_constraints_spec(p),
        q.len() == p.number_of_objectives,
        forall|k: int| 0 <= k < q.len() ==> sorted_by_keys(list_keys(p, pop, k), #[trigger] q[k]),
        0 <= kk < q.len(),
        0 <= i < q[kk].len(),
        0 <= q[kk][i] < pop.len(),
        !ranked[q[kk][i] as int],
        0 <= f <= comp[kk].len(),
        f < usize::MAX,
        forall|k: int|
            0 <= k < f ==> #[trigger] has_dominator_in(p, pop, comp[kk][k], q[kk][i] as int),
        f < comp[kk].len() ==> !has_dominator_in(p, pop, comp[kk][f], q[kk][i] as int),
        extends_with_empty(comp[kk], ext),
        f < ext.len(),
    ensures
        scan_state(
            p,
            pop,
            q,
            i,
            kk + 1,
            ranked.update(q[kk][i] as int, true),
            rank.update(q[kk][i] as int, f as usize),
            comp.update(kk, ext.update(f, ext[f].push(q[kk][i]))),
            count + 1,
        ),
{
    let s = q[kk][i] as int;
    let r2 = ranked.update(s, true);
    let k2 = rank.update(s, f as usize);
    let c2 = comp.update(kk, ext.update(f, ext[f].push(q[kk][i])));
    let n = pop.len();
    let m = q.len();
    lemma_new_rank(p, pop, q, i, kk, ranked, rank, comp, count, f);
    lemma_count_true_update(ranked, s);
    assert forall|k: int, x: int| 0 <= k < m implies (reached(q[k], k, i, kk + 1, x) <==> (reached(q[k], k, i, kk, x)
        || (k == kk && q[kk][i] == x))) by {
        lemma_reached_step(q, k, i, kk, x);
    }
    assert forall|x: int| 0 <= x < n implies (#[trigger] r2[x] <==> reached_any(q, i, kk + 1, x)) by {
        if reached_any(q, i, kk + 1, x) {
            let k = choose|k: int| 0 <= k < q.len() && #[trigger] reached(q[k], k, i, kk + 1, x);
            if !reached(q[k], k, i, kk, x) {
                assert(x == s);
            } else {
                assert(reached_any(q, i, kk, x));
            }
        }
        if r2[x] {
            if x == s {
                assert(reached(q[kk], kk, i, kk + 1, x));
            } else {
                let k = choose|k: int| 0 <= k < q.len() && #[trigger] reached(q[k], k, i, kk, x);
                assert(reached(q[k], k, i, kk + 1, x));
            }
        }
    }
    assert forall|x: int| 0 <= x < n && #[trigger] r2[x] implies k2[x] < usize::MAX by {}
    assert forall|k: int, g: int, j: int|
        0 <= k < m && 0 <= g < c2[k].len() && 0 <= j < c2[k][g].len() implies {
            let x = #[trigger] c2[k][g][j] as int;
            &&& x < n
            &&& r2[x]
            &&& k2[x] == g
            &&& reached(q[k], k, i, kk + 1, x)
        } by {
        if k == kk && g == f && j == c2[k][g].len() - 1 {
            assert(c2[k][g][j] == s);
        } else if k == kk {
            if g < comp[kk].len() {
                assert(c2[k][g][j] == comp[k][g][j]);
                assert(comp[k][g][j] != s);
            } else {
                assert(g == f);
                assert(ext[g].len() == 0);
            }
        } else {
            assert(c2[k] == comp[k]);
            assert(comp[k][g][j] != s);
        }
    }
    assert forall|k: int, x: int|
        0 <= k < m && 0 <= x < n && #[trigger] reached(q[k], k, i, kk + 1, x) implies k2[x] < c2[k].len()
        && holds(c2[k][k2[x] as int], x) by {
        if k == kk && x == s {
            assert(c2[k][f][ext[f].len() as int] == x);
        } else if x == s {
            assert(reached(q[k], k, i, kk, x));
            assert(reached_any(q, i, kk, x));
        } else {
            assert(reached(q[k], k, i, kk, x));
            let j = choose|j: int| 0 <= j < comp[k][rank[x] as int].len() && comp[k][rank[x] as int][j] == x;
            assert(c2[k][rank[x] as int][j] == x);
        }
    }
}

/// Finishing a row moves the scan to the start of the next.
proof fn lemma_next_row(
    p: Problem,
    pop: Seq<Solution>,
    q: Seq<Seq<usize>>,
    i: int,
    ranked: Seq<bool>,
    rank: Seq<usize>,
    comp: Seq<Seq<Seq<usize>>>,
    count: nat,
)
    requires
        scan_state(p, pop, q, i, q.len() as int, ranked, rank, comp, count),
    ensures
        scan_state(p, pop, q, i + 1, 0, ranked, rank, comp, count),
{
    let m = q.len() as int;
    assert forall|k: int, x: int| 0 <= k < m implies (reached(q[k], k, i + 1, 0, x) <==> reached(q[k], k, i, m, x)) by {
        if reached(q[k], k, i + 1, 0, x) {
            let j = choose|j: int| 0 <= j < q[k].len() && q[k][j] == x && (j < i + 1 || (j == i + 1 && k < 0));
            assert(j < i || (j == i && k < m));
        }
        if reached(q[k], k, i, m, x) {
            let j = choose|j: int| 0 <= j < q[k].len() && q[k][j] == x && (j < i || (j == i && k < m));
            assert(j < i + 1);
        }
    }
    assert forall|x: int| 0 <= x < pop.len() implies (#[trigger] ranked[x] <==> reached_any(q, i + 1, 0, x)) by {
        if reached_any(q, i + 1, 0, x) {
            let k = choose|k: int| 0 <= k < q.len() && #[trigger] reached(q[k], k, i + 1, 0, x);
            assert(reached(q[k], k, i, m, x));
        }
        if reached_any(q, i, m, x) {
            let k = choose|k: int| 0 <= k < q.len() && #[trigger] reached(q[k], k, i, m, x);
            assert(reached(q[k], k, i + 1, 0, x));
        }
    }
    assert forall|k: int, f: int, j: int|
        0 <= k < m && 0 <= f < comp[k].len() && 0 <= j < comp[k][f].len() implies reached(
            q[k],
            k,
            i + 1,
            0,
            #[trigger] comp[k][f][j] as int,
        ) by {
        assert(reached(q[k], k, i, m, comp[k][f][j] as int));
    }
    assert forall|k: int, x: int|
        0 <= k < m && 0 <= x < pop.len() && #[trigger] reached(q[k], k, i + 1, 0, x) implies rank[x]
        < comp[k].len() && holds(comp[k][rank[x] as int], x) by {
        assert(reached(q[k], k, i, m, x));
    }
}

pub proof fn lemma_count_true_all_false(n: nat)
    ensures
        count_true(Seq::new(n, |i: int| false)) == 0,
    decreases n,
{
    if n > 0 {
        assert(Seq::new(n, |i: int| false).drop_last() =~= Seq::new((n - 1) as nat, |i: int| false));
        lemma_count_true_all_false((n - 1) as nat);
    }
}

/// Best-Order-Sort's ranking scan: each objective's list is walked row by row; a solution is
/// ranked the first time any list reaches it, into the first front of that list's fronts that
/// holds none of its dominators.
#[verifier::rlimit(80)]
fn bos_rank<D: Dominance>(problem: &Problem, population: &[Solution], dominance: &D, q: &Vec<Vec<usize>>) -> (rank: Vec<usize>)
    requires
        is_pareto(*dominance, *problem),
        all_comparable(*problem, population@),
        !has_constraints_spec(*problem),
        q@.len() == problem.number_of_objectives,
        problem.number_of_objectives >= 1,
        forall|k: int| 0 <= k < q@.len() ==> sorted_by_keys(list_keys(*problem, population@, k), #[trigger] q@[k]@),
    ensures
        rank@.len() == population@.len(),
        ranks_consistent(*problem, population@, Seq::new(population@.len() as nat, |i: int| true), rank@),
        forall|x: int| 0 <= x < rank@.len() ==> rank@[x] < usize::MAX,
{
    let n = population.len();
    let m = q.len();
    let ghost qv = q@.map_values(|v: Vec<usize>| v@);
    let ghost pop = population@;
    assert forall|k: int| 0 <= k < qv.len() implies sorted_by_keys(list_keys(*problem, pop, k), #[trigger] qv[k]) by {
        assert(qv[k] == q@[k]@);
    }
    let mut rank: Vec<usize> = Vec::new();
    let mut ranked: Vec<bool> = Vec::new();
    while rank.len() < n
        invariant
            rank@.len() == ranked@.len(),
            rank@.len() <= n,
            forall|x: int| 0 <= x < ranked@.len() ==> !ranked@[x],
        decreases n - rank.len(),
    {
        rank.push(usize::MAX);
        ranked.push(false);
    }
    let mut comp: Vec<Vec<Vec<usize>>> = Vec::new();
    while comp.len() < m
        invariant
            comp@.len() <= m,
            forall|k: int| 0 <= k < comp@.len() ==> (#[trigger] comp@[k])@.len() == 0,
        decreases m - comp.len(),
    {
        comp.push(Vec::new());
    }
    let mut count: usize = 0;
    proof {
        assert(ranked@ =~= Seq::new(n as nat, |i: int| false));
        lemma_count_true_all_false(n as nat);
        let cv = comp_view(comp@);
        assert forall|x: int| 0 <= x < n implies (#[trigger] ranked@[x] <==> reached_any(qv, 0, 0, x)) by {
            if reached_any(qv, 0, 0, x) {
                let k = choose|k: int| 0 <= k < qv.len() && #[trigger] reached(qv[k], k, 0, 0, x);
            }
        }
        assert forall|k: int| 0 <= k < m implies (#[trigger] cv[k]).len() == 0 by {
            assert(comp@[k]@.len() == 0);
        }
        assert forall|k: int, x: int| 0 <= k < m && 0 <= x < n implies !#[trigger] reached(qv[k], k, 0, 0, x) by {}
        assert(scan_state(*problem, pop, qv, 0, 0, ranked@, rank@, cv, count as nat));
    }
    let mut i: usize = 0;
    while i < n
        invariant
            n == pop.len(),
            pop == population@,
            m == qv.len(),
            m == problem.number_of_objectives,
            m >= 1,
            qv == q@.map_values(|v: Vec<usize>| v@),
            is_pareto(*dominance, *problem),
            all_comparable(*problem, pop),
            !has_constraints_spec(*problem),
            forall|k: int| 0 <= k < qv.len() ==> sorted_by_keys(list_keys(*problem, pop, k), #[trigger] qv[k]),
            i <= n,
            comp@.len() == m,
            scan_state(*problem, pop, qv, i as int, 0, ranked@, rank@, comp_view(comp@), count as nat),
            count <= n,
            forall|k: int| 0 <= k < m ==> (#[trigger] comp@[k])@.len() <= count,
        decreases n - i,
    {
        let mut kk: usize = 0;
        while kk < m
            invariant
                n == pop.len(),
                pop == population@,
                m == qv.len(),
                m == problem.number_of_objectives,
                qv == q@.map_values(|v: Vec<usize>| v@),
                is_pareto(*dominance, *problem),
                all_comparable(*problem, pop),
                !has_constraints_spec(*problem),
                forall|k: int| 0 <= k < qv.len() ==> sorted_by_keys(list_keys(*problem, pop, k), #[trigger] qv[k]),
                i < n,
                kk <= m,
                comp@.len() == m,
                scan_state(*problem, pop, qv, i as int, kk as int, ranked@, rank@, comp_view(comp@), count as nat),
                count <= n,
                forall|k: int| 0 <= k < m ==> (#[trigger] comp@[k])@.len() <= count,
            decreases m - kk,
        {
            assert(qv[kk as int] == q@[kk as int]@);
            assert(sorted_by_keys(list_keys(*problem, pop, kk as int), qv[kk as int]));
            let s = q[kk][i];
            let ghost cv = comp_view(comp@);
            let ghost base = cv[kk as int];
            assert(base == comp@[kk as int]@.map_values(|g: Vec<usize>| g@));
            if ranked[s] {
                let r = rank[s];
                proof {
                    assert(reached_any(qv, i as int, kk as int, s as int));
                    let k = choose|k: int| 0 <= k < qv.len() && #[trigger] reached(qv[k], k, i as int, kk as int, s as int);
                    assert(r < cv[k].len());
                    assert(cv[k].len() == comp@[k]@.len());
                }
                let ghost comp0 = comp@;
                while comp[kk].len() <= r
                    invariant
                        comp@.len() == m,
                        kk < m,
                        r < count,
                        forall|k: int| 0 <= k < m && k != kk ==> comp@[k] == comp0[k],
                        forall|k: int| 0 <= k < m ==> (#[trigger] comp@[k])@.len() <= count,
                        extends_with_empty(base, comp@[kk as int]@.map_values(|g: Vec<usize>| g@)),
                    decreases count - comp@[kk as int]@.len(),
                {
                    let ghost before = comp@[kk as int]@;
                    comp[kk].push(Vec::new());
                    proof {
                        let after = comp@[kk as int]@;
                        assert(after.len() == before.len() + 1);
                        assert(forall|f: int| 0 <= f < before.len() ==> after[f] == before[f]);
                        assert(after[before.len() as int]@.len() == 0);
                        let ev = after.map_values(|g: Vec<usize>| g@);
                        assert forall|f: int| 0 <= f < base.len() implies #[trigger] ev[f] == base[f] by {
                            assert(before.map_values(|g: Vec<usize>| g@)[f] == base[f]);
                        }
                        assert forall|f: int| base.len() <= f < ev.len() implies (#[trigger] ev[f]).len() == 0 by {
                            if f < before.len() {
                                assert(before.map_values(|g: Vec<usize>| g@)[f].len() == 0);
                            }
                        }
                    }
                }
                let ghost ext = comp@[kk as int]@.map_values(|g: Vec<usize>| g@);
                let ghost mid = comp@;
                comp[kk][r].push(s);
                proof {
                    lemma_step_ranked(*problem, pop, qv, i as int, kk as int, ranked@, rank@, cv, count as nat, ext);
                    let expect = cv.update(kk as int, ext.update(r as int, ext[r as int].push(s)));
                    assert forall|k: int| 0 <= k < m implies #[trigger] comp_view(comp@)[k] =~= expect[k] by {
                        if k == kk {
                            assert forall|f: int| 0 <= f < expect[k].len() implies comp_view(comp@)[k][f] == expect[k][f] by {
                                if f == r {
                                    assert(comp@[k]@[f]@ == mid[k]@[f]@.push(s));
                                } else {
                                    assert(comp@[k]@[f] == mid[k]@[f]);
                                }
                            }
                        } else {
                            assert(comp@[k] == mid[k]);
                            assert(mid[k] == comp0[k]);
                        }
                    }
                    assert(comp_view(comp@) =~= expect);
                }
            } else {
                proof {
                    assert forall|k: int, j: int|
                        0 <= k < comp@[kk as int]@.len() && 0 <= j < comp@[kk as int]@[k]@.len() implies (#[trigger] comp@[kk as int]@[k]@[j])
                            < population@.len() by {
                        assert(cv[kk as int][k][j] == comp@[kk as int]@[k]@[j]);
                    }
                }
                let f = first_free_front(problem, population, dominance, &comp[kk], s);
                proof {
                    assert forall|k: int| 0 <= k < f implies #[trigger] has_dominator_in(*problem, pop, base[k], s as int) by {
                        assert(base[k] == comp@[kk as int]@[k]@);
                    }
                    if f < base.len() {
                        assert(base[f as int] == comp@[kk as int]@[f as int]@);
                    }
                    // Some solution is still unranked, so fewer than n are ranked.
                    lemma_count_true_le(ranked@);
                    if count == n {
                        lemma_count_true_full(ranked@);
                    }
                }
                let ghost mid0 = comp@;
                if f == comp[kk].len() {
                    comp[kk].push(Vec::new());
                }
                let ghost ext = comp@[kk as int]@.map_values(|g: Vec<usize>| g@);
                proof {
                    assert forall|g: int| 0 <= g < base.len() implies #[trigger] ext[g] == base[g] by {
                        assert(comp@[kk as int]@[g] == mid0[kk as int]@[g]);
                    }
                }
                let ghost mid = comp@;
                let ghost ranked0 = ranked@;
                let ghost rank0 = rank@;
                comp[kk][f].push(s);
                rank.set(s, f);
                ranked.set(s, true);
                count = count + 1;
                proof {
                    lemma_step_new(*problem, pop, qv, i as int, kk as int, ranked0, rank0, cv, (count - 1) as nat, f as int, ext);
                    let expect = cv.update(kk as int, ext.update(f as int, ext[f as int].push(s)));
                    assert forall|k: int| 0 <= k < m implies #[trigger] comp_view(comp@)[k] =~= expect[k] by {
                        if k == kk {
                            assert forall|g: int| 0 <= g < expect[k].len() implies comp_view(comp@)[k][g] == expect[k][g] by {
                                if g == f {
                                    assert(comp@[k]@[g]@ == mid[k]@[g]@.push(s));
                                } else {
                                    assert(comp@[k]@[g] == mid[k]@[g]);
                                }
                            }
                        } else {
                            assert(comp@[k] == mid[k]);
                        }
                    }
                    assert(comp_view(comp@) =~= expect);
                }
                if count == n {
                    proof {
                        lemma_count_true_full(ranked@);
                        assert(ranked@ =~= Seq::new(n as nat, |x: int| true));
                        assert forall|x: int| 0 <= x < rank@.len() implies rank@[x] < usize::MAX by {
                            assert(ranked@[x]);
                        }
                    }
                    return rank;
                }
            }
            kk = kk + 1;
        }
        proof {
            lemma_next_row(*problem, pop, qv, i as int, ranked@, rank@, comp_view(comp@), count as nat);
        }
        i = i + 1;
    }
    proof {
        assert forall|x: int| 0 <= x < n implies ranked@[x] by {
            assert(sorted_by_keys(list_keys(*problem, pop, 0), qv[0]));
            assert(lists(qv[0], x));
            let j = choose|j: int| 0 <= j < qv[0].len() && qv[0][j] == x;
            assert(reached(qv[0], 0, n as int, 0, x));
            assert(reached_any(qv, n as int, 0, x));
        }
        assert(ranked@ =~= Seq::new(n as nat, |x: int| true));
        assert forall|x: int| 0 <= x < rank@.len() implies rank@[x] < usize::MAX by {
            assert(ranked@[x]);
        }
    }
    rank
}

/// Each front lists its members in increasing index order.
pub open spec fn fronts_by_index(fronts: Seq<Seq<usize>>) -> bool {
    forall|k: int, j1: int, j2: int|
        0 <= k < fronts.len() && 0 <= j1 < j2 < fronts[k].len() ==> #[trigger] fronts[k][j1] < #[trigger] fronts[k][j2]
}

/// Every rank below an occupied rank is occupied too.
proof fn lemma_rank_occupied(p: Problem, pop: Seq<Solution>, rank: Seq<usize>, x: int, r: int)
    requires
        ranks_consistent(p, pop, Seq::new(pop.len(), |i: int| true), rank),
        rank.len() == pop.len(),
        0 <= x < pop.len(),
        0 <= r <= rank[x],
    ensures
        exists|y: int| 0 <= y < pop.len() && #[trigger] rank[y] == r,
    decreases rank[x] - r,
{
    let all = Seq::new(pop.len(), |i: int| true);
    if rank[x] == r {
        assert(rank[x] == r);
    } else {
        assert(all[x]);
        let y = choose|y: int|
            0 <= y < pop.len() && all[y] && rank[y] == rank[x] - 1 && #[trigger] dominates(p, pop[y], pop[x]);
        lemma_rank_occupied(p, pop, rank, y, r);
    }
}

/// Groups solutions into fronts by rank, each front in increasing index order.
fn fronts_from_ranks(problem: &Problem, population: &[Solution], rank: &Vec<usize>) -> (fronts: Vec<Vec<usize>>)
    requires
        population@.len() > 0,
        rank@.len() == population@.len(),
        ranks_consistent(*problem, population@, Seq::new(population@.len() as nat, |i: int| true), rank@),
        forall|x: int| 0 <= x < rank@.len() ==> rank@[x] < usize::MAX,
    ensures
        is_nondominated_sorting(*problem, population@, fronts_view(fronts@)),
        fronts_by_index(fronts_view(fronts@)),
{
    let n = rank.len();
    let ghost pop = population@;
    let ghost all = Seq::new(n as nat, |i: int| true);
    let mut max_rank: usize = 0;
    let mut s: usize = 0;
    while s < n
        invariant
            n == rank@.len(),
            s <= n,
            forall|x: int| 0 <= x < s ==> rank@[x] <= max_rank,
            s > 0 ==> exists|x: int| 0 <= x < s && rank@[x] == max_rank,
            s == 0 ==> max_rank == 0,
            forall|x: int| 0 <= x < rank@.len() ==> rank@[x] < usize::MAX,
        decreases n - s,
    {
        let ghost old_max = max_rank;
        if rank[s] > max_rank {
            max_rank = rank[s];
        }
        proof {
            if rank@[s as int] == max_rank {
                assert(rank@[s as int] == max_rank);
            } else {
                let w = choose|x: int| 0 <= x < s && rank@[x] == old_max;
                assert(rank@[w] == max_rank);
            }
        }
        s = s + 1;
    }
    let mut fronts: Vec<Vec<usize>> = Vec::new();
    while fronts.len() <= max_rank
        invariant
            fronts@.len() <= max_rank + 1,
            forall|k: int| 0 <= k < fronts@.len() ==> (#[trigger] fronts@[k])@.len() == 0,
        decreases max_rank + 1 - fronts@.len(),
    {
        fronts.push(Vec::new());
    }
    let mut x: usize = 0;
    while x < n
        invariant
            n == rank@.len(),
            n == pop.len(),
            x <= n,
            fronts@.len() == max_rank + 1,
            forall|y: int| 0 <= y < n ==> rank@[y] <= max_rank,
            forall|k: int, j: int|
                0 <= k < fronts@.len() && 0 <= j < fronts@[k]@.len() ==> (#[trigger] fronts@[k]@[j]) < x
                    && rank@[fronts@[k]@[j] as int] == k,
            forall|k: int, j1: int, j2: int|
                0 <= k < fronts@.len() && 0 <= j1 < j2 < fronts@[k]@.len() ==> #[trigger] fronts@[k]@[j1]
                    < #[trigger] fronts@[k]@[j2],
            forall|y: int| 0 <= y < x ==> #[trigger] holds(fronts@[rank@[y] as int]@, y),
        decreases n - x,
    {
        let r = rank[x];
        let ghost before = fronts@;
        fronts[r].push(x);
        proof {
            let after = fronts@;
            assert forall|k: int| 0 <= k < after.len() && k != r implies after[k] == before[k] by {}
            assert(after[r as int]@ == before[r as int]@.push(x));
            assert forall|k: int, j: int| 0 <= k < after.len() && 0 <= j < after[k]@.len() implies (#[trigger] after[k]@[j])
                < x + 1 && rank@[after[k]@[j] as int] == k by {
                if k == r && j == before[r as int]@.len() {
                } else {
                    assert(after[k]@[j] == before[k]@[j]);
                }
            }
            assert forall|k: int, j1: int, j2: int|
                0 <= k < after.len() && 0 <= j1 < j2 < after[k]@.len() implies #[trigger] after[k]@[j1]
                < #[trigger] after[k]@[j2] by {
                if k == r && j2 == before[r as int]@.len() {
                    assert(after[k]@[j1] == before[k]@[j1]);
                } else {
                    assert(after[k]@[j1] == before[k]@[j1]);
                    assert(after[k]@[j2] == before[k]@[j2]);
                }
            }
            assert forall|y: int| 0 <= y < x + 1 implies #[trigger] holds(after[rank@[y] as int]@, y) by {
                if y == x {
                    assert(after[r as int]@[before[r as int]@.len() as int] == y);
                } else {
                    assert(holds(before[rank@[y] as int]@, y));
                    let j = choose|j: int| 0 <= j < before[rank@[y] as int]@.len() && before[rank@[y] as int]@[j] == y;
                    if rank@[y] == r {
                        assert(after[r as int]@[j] == y);
                    } else {
                        assert(after[rank@[y] as int] == before[rank@[y] as int]);
                    }
                }
            }
        }
        x = x + 1;
    }
    proof {
        let fv = fronts_view(fronts@);
        assert forall|k: int| 0 <= k < fv.len() implies (#[trigger] fv[k]) == fronts@[k]@ by {}
        let xm = choose|x: int| 0 <= x < n && rank@[x] == max_rank;
        assert forall|k: int| 0 <= k < fv.len() implies (#[trigger] fv[k]).len() > 0 by {
            lemma_rank_occupied(*problem, pop, rank@, xm, k);
            let y = choose|y: int| 0 <= y < pop.len() && #[trigger] rank@[y] == k;
            assert(holds(fronts@[rank@[y] as int]@, y));
            assert(fv[k] == fronts@[k]@);
        }
        assert forall|k: int, j: int| 0 <= k < fv.len() && 0 <= j < fv[k].len() implies (#[trigger] fv[k][j]) < pop.len() by {
            assert(fv[k] == fronts@[k]@);
        }
        assert forall|y: int| 0 <= y < pop.len() implies #[trigger] in_fronts(fv, y) by {
            assert(holds(fronts@[rank@[y] as int]@, y));
            let j = choose|j: int| 0 <= j < fronts@[rank@[y] as int]@.len() && fronts@[rank@[y] as int]@[j] == y;
            assert(fv[rank@[y] as int][j] == y);
        }
        assert forall|k1: int, j1: int, k2: int, j2: int|
            0 <= k1 < fv.len() && 0 <= j1 < fv[k1].len() && 0 <= k2 < fv.len() && 0 <= j2 < fv[k2].len()
                && #[trigger] fv[k1][j1] == #[trigger] fv[k2][j2] implies k1 == k2 && j1 == j2 by {
            assert(fv[k1] == fronts@[k1]@ && fv[k2] == fronts@[k2]@);
            assert(rank@[fv[k1][j1] as int] == k1);
            assert(rank@[fv[k2][j2] as int] == k2);
            if j1 < j2 {
                assert(fronts@[k1]@[j1] < fronts@[k1]@[j2]);
            } else if j2 < j1 {
                assert(fronts@[k1]@[j2] < fronts@[k1]@[j1]);
            }
        }
        assert forall|k1: int, j1: int, k2: int, j2: int|
            0 <= k1 < fv.len() && 0 <= j1 < fv[k1].len() && 0 <= k2 < fv.len() && 0 <= j2 < fv[k2].len()
                && #[trigger] dominates(*problem, pop[fv[k2][j2] as int], pop[fv[k1][j1] as int]) implies k2 < k1 by {
            assert(fv[k1] == fronts@[k1]@ && fv[k2] == fronts@[k2]@);
            let a = fv[k1][j1] as int;
            let b = fv[k2][j2] as int;
            assert(rank@[a] == k1 && rank@[b] == k2);
            assert(all[a] && all[b]);
        }
        assert forall|k: int, j: int| 0 < k < fv.len() && 0 <= j < fv[k].len() implies #[trigger] dominated_from_previous(
            *problem,
            pop,
            fv,
            k,
            j,
        ) by {
            assert(fv[k] == fronts@[k]@);
            let a = fv[k][j] as int;
            assert(rank@[a] == k);
            assert(all[a]);
            let y = choose|y: int| 0 <= y < pop.len() && all[y] && rank@[y] == rank@[a] - 1 && #[trigger] dominates(*problem, pop[y], pop[a]);
            assert(holds(fronts@[rank@[y] as int]@, y));
            let km = k - 1;
            assert(rank@[y] == km);
            let j2 = choose|j2: int| 0 <= j2 < fronts@[km]@.len() && fronts@[km]@[j2] == y;
            assert(fv[k - 1][j2] == y);
            assert(dominates(*problem, pop[fv[k - 1][j2] as int], pop[fv[k][j] as int]));
        }
        assert forall|k: int, j1: int, j2: int|
            0 <= k < fv.len() && 0 <= j1 < j2 < fv[k].len() implies #[trigger] fv[k][j1] < #[trigger] fv[k][j2] by {
            assert(fv[k] == fronts@[k]@);
        }
    }
    fronts
}

/// Best-Order-Sort (Roy, Islam, Deb 2016) for problems without constraints: one sorted list
/// per objective, each solution compared only with solutions before it in a list. The same
/// fronts as every other non-dominated sort, each front in increasing index order.
pub fn best_order_sort<D: Dominance>(problem: &Problem, population: &[Solution], dominance: &D) -> (fronts: Vec<Vec<usize>>)
    requires
        is_pareto(*dominance, *problem),
        all_comparable(*problem, population@),
        !has_constraints_spec(*problem),
        problem.number_of_objectives >= 1,
        population@.len() > 0,
    ensures
        is_nondominated_sorting(*problem, population@, fronts_view(fronts@)),
        fronts_by_index(fronts_view(fronts@)),
{
    let m = problem.number_of_objectives;
    let mut q: Vec<Vec<usize>> = Vec::new();
    let mut k: usize = 0;
    while k < m
        invariant
            k <= m,
            m == problem.number_of_objectives,
            all_comparable(*problem, population@),
            q@.len() == k,
            forall|j: int| 0 <= j < k ==> sorted_by_keys(list_keys(*problem, population@, j), #[trigger] q@[j]@),
        decreases m - k,
    {
        let keys = build_list_keys(problem, population, k);
        let order = sort_by_keys(&keys, Ghost((m + 1) as nat));
        q.push(order);
        k = k + 1;
    }
    let rank = bos_rank(problem, population, dominance, &q);
    fronts_from_ranks(problem, population, &rank)
}

/// Non-dominated sorting of a population: the fronts as index lists, front 0 the
/// Pareto-optimal set.
///
/// A single objective is sorted directly; a problem with constraints, or a population below
/// 200, by efficient non-dominated sort; otherwise by Best-Order-Sort. Efficient sort and the
/// single-objective sort list each front best first; Best-Order-Sort in index order.
pub fn fast_non_dominated_sort<D: Dominance>(problem: &Problem, population: &[Solution], dominance: &D) -> (fronts: Vec<Vec<usize>>)
    requires
        is_pareto(*dominance, *problem),
        all_comparable(*problem, population@),
        !(problem.number_of_objectives == 0 && !has_constraints_spec(*problem) && population@.len() >= 200),
    ensures
        is_nondominated_sorting(*problem, population@, fronts_view(fronts@)),
        population@.len() == 0 ==> fronts@.len() == 0,
        (problem.number_of_objectives == 1 || has_constraints_spec(*problem) || population@.len() < 200)
            ==> fronts_best_first(*problem, population@, fronts_view(fronts@)),
        !(problem.number_of_objectives == 1 || has_constraints_spec(*problem) || population@.len() < 200)
            ==> fronts_by_index(fronts_view(fronts@)),
{
    if population.len() == 0 {
        let empty: Vec<Vec<usize>> = Vec::new();
        assert(fronts_view(empty@) =~= Seq::<Seq<usize>>::empty());
        return empty;
    }
    if problem.number_of_objectives == 1 {
        return single_objective_fronts(problem, population);
    }
    if problem.has_constraints() || population.len() < 200 {
        ens_ss_fronts(problem, population, dominance)
    } else {
        best_order_sort(problem, population, dominance)
    }
}
} // verus!
