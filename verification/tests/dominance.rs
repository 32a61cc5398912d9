use puggles::dominance::{best_order_sort, fast_non_dominated_sort, Dominance, ParetoDominance};
use puggles::gatypes::SolutionDataTypes;
use puggles::problem::{Problem, Solution};
use rand::rngs::SmallRng;
use rand::{Rng, SeedableRng};

fn key(v: f64) -> i64 {
    let bits = v.to_bits() as i64;
    if bits < 0 {
        -(bits & i64::MAX)
    } else {
        bits
    }
}

fn reals(n: usize) -> Vec<SolutionDataTypes> {
    (0..n).map(|_| SolutionDataTypes::Real).collect()
}

/// An evaluated, feasible solution with objective values `objs`.
fn scored(objs: &[f64]) -> Solution {
    let mut s = Solution::new();
    s.objective_fitness_values = objs.iter().map(|&v| key(v)).collect();
    s.evaluated = true;
    s.feasible = true;
    s
}

fn five_reals(direction: i8) -> Problem {
    Problem::new(5, 1, None, None, Some(vec![direction]), reals(5))
}

#[test]
fn test_pareto_dominance_sol1_dominates() {
    // The solution at 10.0 in every gene scores higher than the one at 1.0.
    let problem = five_reals(1);
    let sol1 = scored(&[500.0]);
    let sol2 = scored(&[5.0]);
    assert_eq!(ParetoDominance.compare_solutions(&problem, &sol1, &sol2), -1);
}

#[test]
fn test_pareto_dominance_sol2_dominates() {
    let problem = five_reals(-1);
    let sol1 = scored(&[500.0]);
    let sol2 = scored(&[5.0]);
    assert_eq!(ParetoDominance.compare_solutions(&problem, &sol1, &sol2), 1);
}

#[test]
fn test_pareto_dominance_non_dominated() {
    let problem = Problem::new(2, 2, None, None, Some(vec![-1, -1]), reals(2));
    let sol1 = scored(&[1.0, 10.0]);
    let sol2 = scored(&[10.0, 1.0]);
    assert_eq!(ParetoDominance.compare_solutions(&problem, &sol1, &sol2), 0);
}

#[test]
fn test_fast_non_dominated_sort() {
    let problem = Problem::new(2, 2, None, None, Some(vec![-1, -1]), reals(2));
    let population = vec![
        scored(&[1.0, 5.0]),
        scored(&[5.0, 1.0]),
        scored(&[3.0, 6.0]),
        scored(&[6.0, 3.0]),
        scored(&[10.0, 10.0]),
    ];
    let fronts = fast_non_dominated_sort(&problem, &population, &ParetoDominance);
    assert_eq!(fronts.len(), 3);
    assert_eq!(fronts[0].len(), 2);
    assert_eq!(fronts[1].len(), 2);
    assert_eq!(fronts[2].len(), 1);
}

fn naive_reference_fronts(problem: &Problem, pop: &[Solution]) -> Vec<usize> {
    let n = pop.len();
    let mut rank = vec![usize::MAX; n];
    let mut assigned = 0;
    let mut f = 0;
    while assigned < n {
        let mut this = Vec::new();
        for s in 0..n {
            if rank[s] != usize::MAX {
                continue;
            }
            let dominated = (0..n).any(|t| {
                t != s && rank[t] == usize::MAX && ParetoDominance.compare_solutions(problem, &pop[t], &pop[s]) == -1
            });
            if !dominated {
                this.push(s);
            }
        }
        for &s in &this {
            rank[s] = f;
            assigned += 1;
        }
        f += 1;
    }
    rank
}

fn fronts_to_rank(fronts: &[Vec<usize>], n: usize) -> Vec<usize> {
    let mut r = vec![usize::MAX; n];
    for (f, front) in fronts.iter().enumerate() {
        for &s in front {
            r[s] = f;
        }
    }
    r
}

#[test]
fn test_best_order_sort_matches_naive() {
    let mut rng = SmallRng::seed_from_u64(42);
    for &(n, m) in &[(20usize, 2usize), (30, 3), (50, 3), (40, 4), (60, 2)] {
        let problem = Problem::new(1, m, None, None, Some(vec![-1; m]), reals(1));
        let pop: Vec<Solution> = (0..n)
            .map(|_| {
                let objs: Vec<f64> = (0..m).map(|_| (rng.gen::<u32>() % 5) as f64).collect();
                scored(&objs)
            })
            .collect();
        let bos = fronts_to_rank(&best_order_sort(&problem, &pop, &ParetoDominance), n);
        let naive = naive_reference_fronts(&problem, &pop);
        assert_eq!(bos, naive, "Best-Order-Sort ranks differ from naive for n={n} m={m}");
    }
}

#[test]
fn large_populations_sort_like_the_reference() {
    // 250 solutions take the Best-Order-Sort path of the dispatcher.
    let mut rng = SmallRng::seed_from_u64(9);
    let m = 3;
    let problem = Problem::new(1, m, None, None, Some(vec![-1, 1, -1]), reals(1));
    let pop: Vec<Solution> = (0..250)
        .map(|_| scored(&(0..m).map(|_| (rng.gen::<u32>() % 7) as f64).collect::<Vec<_>>()))
        .collect();
    let fronts = fast_non_dominated_sort(&problem, &pop, &ParetoDominance);
    assert_eq!(fronts_to_rank(&fronts, pop.len()), naive_reference_fronts(&problem, &pop));
    for front in &fronts {
        assert!(front.windows(2).all(|w| w[0] < w[1]), "Best-Order-Sort fronts list indices in order");
    }
}

#[test]
fn single_objective_sort_orders_fronts_best_first() {
    let problem = Problem::new(1, 1, None, None, Some(vec![1]), reals(1));
    let pop: Vec<Solution> = [3.0, 7.0, 3.0, -1.0].iter().map(|&v| scored(&[v])).collect();
    let fronts = fast_non_dominated_sort(&problem, &pop, &ParetoDominance);
    assert_eq!(fronts, vec![vec![1], vec![0, 2], vec![3]]);
}

#[test]
fn empty_population_has_no_fronts() {
    let problem = Problem::new(2, 2, None, None, None, reals(2));
    let fronts = fast_non_dominated_sort(&problem, &[], &ParetoDominance);
    assert!(fronts.is_empty());
}

#[test]
fn dominance_is_irreflexive_and_antisymmetric_on_examples() {
    let problem = Problem::new(2, 2, None, None, Some(vec![-1, 1]), reals(2));
    let a = scored(&[1.0, 4.0]);
    let b = scored(&[2.0, 3.0]);
    assert_eq!(ParetoDominance.compare_solutions(&problem, &a, &a), 0);
    assert_eq!(ParetoDominance.compare_solutions(&problem, &a, &b), -1);
    assert_eq!(ParetoDominance.compare_solutions(&problem, &b, &a), 1);
}

#[test]
fn fewer_violations_win_before_objectives() {
    let problem = Problem::new(1, 1, None, None, Some(vec![-1]), reals(1)).with_variable_constraints(2);
    let mut a = scored(&[100.0]);
    a.constraint_violation = 1;
    let mut b = scored(&[0.0]);
    b.constraint_violation = 2;
    assert_eq!(ParetoDominance.compare_solutions(&problem, &a, &b), -1);
    // Without constraints configured, counts are ignored and the objective decides.
    let free = Problem::new(1, 1, None, None, Some(vec![-1]), reals(1));
    assert_eq!(ParetoDominance.compare_solutions(&free, &a, &b), 1);
}

#[test]
fn variable_constraints_drive_dominance() {
    // g(x) = 1 - (x0 + x1) <= 0: (1, 1) is feasible with objective 2, (0, 0) infeasible with 0.
    let problem = Problem::new(2, 1, None, None, Some(vec![-1]), reals(2)).with_variable_constraints(1);
    let mut feasible = Solution::new();
    feasible.record_evaluation(&problem, vec![key(2.0)], &[key(1.0 - 2.0)], 0);
    let mut infeasible = Solution::new();
    infeasible.record_evaluation(&problem, vec![key(0.0)], &[key(1.0)], key(1.0));
    assert_eq!(infeasible.constraint_violation, 1);
    assert_eq!(
        ParetoDominance.compare_solutions(&problem, &feasible, &infeasible),
        -1,
        "a feasible solution must dominate an infeasible one even with a worse objective"
    );
}
