use puggles::dominance::{fast_non_dominated_sort, Dominance, ParetoDominance};
use puggles::gatypes::{Integer, SolutionDataTypes};
use puggles::genetic_operators::permutation::{order_crossover_random, swap_mutation};
use puggles::problem::{ConfigError, Encoding, Problem, Solution};
use rand::rngs::SmallRng;
use rand::Rng;
use rand::SeedableRng;

/// The order key of a real value: keys compare as the values do.
fn key(v: f64) -> i64 {
    let bits = v.to_bits() as i64;
    if bits < 0 {
        -(bits & i64::MAX)
    } else {
        bits
    }
}

/// g(x) = x[0] - 1 <= 0 on one real variable, minimizing x[0].
fn constrained_problem() -> Problem {
    Problem::new(1, 1, None, None, Some(vec![-1]), vec![SolutionDataTypes::Real]).with_variable_constraints(1)
}

/// Evaluates the one-variable problem at `x`: objective `x`, constraint `g = x - 1`,
/// violation magnitude `max(0, g)`.
fn evaluated_at(problem: &Problem, x: f64) -> Solution {
    let g = x - 1.0;
    let mut s = Solution::new();
    s.record_evaluation(problem, vec![key(x)], &[key(g)], key(g.max(0.0)));
    s
}

#[test]
fn integer_upper_bound_is_generatable() {
    let integer = Integer::new(Some(0), Some(4));
    let mut rng = SmallRng::seed_from_u64(11);
    let seen: Vec<i64> = (0..2000).map(|_| integer.generate_value(&mut rng).unwrap()).collect();
    assert!(seen.contains(&4), "closed upper bound never generated");
    assert!(seen.contains(&0), "closed lower bound never generated");
    assert!(seen.iter().all(|&v| (0..=4).contains(&v)), "generated out of bounds");
}

#[test]
fn equally_infeasible_solutions_rank_by_violation_magnitude() {
    let problem = constrained_problem();
    let mild = evaluated_at(&problem, 2.0);
    let severe = evaluated_at(&problem, 90.0);

    assert_eq!(mild.constraint_violation, severe.constraint_violation, "counts must tie");
    assert!(mild.constraint_violation_magnitude < severe.constraint_violation_magnitude);
    assert_eq!(
        ParetoDominance.compare_solutions(&problem, &mild, &severe),
        -1,
        "the less-violating solution must dominate"
    );
    assert_eq!(ParetoDominance.compare_solutions(&problem, &severe, &mild), 1);
}

#[test]
fn violation_magnitude_orders_fronts() {
    let problem = constrained_problem();
    let pop: Vec<Solution> = [50.0, 2.0, 20.0].iter().map(|&x| evaluated_at(&problem, x)).collect();
    let fronts = fast_non_dominated_sort(&problem, &pop, &ParetoDominance);
    assert_eq!(fronts.len(), 3, "equally-infeasible solutions should not share a front");
    assert_eq!(fronts[0], vec![1], "x=2.0 (smallest violation) belongs in front 0");
}

#[test]
fn feasible_still_beats_infeasible() {
    let problem = constrained_problem();
    let feasible = evaluated_at(&problem, 0.9);
    let infeasible = evaluated_at(&problem, 1.001);
    assert!(feasible.feasible && !infeasible.feasible);
    assert_eq!(ParetoDominance.compare_solutions(&problem, &feasible, &infeasible), -1);
}

#[test]
fn one_sided_bounds_are_validated_at_construction() {
    assert!(Integer::try_new(Some(i64::MAX), None).is_err());
    assert!(Integer::try_new(None, Some(i64::MIN)).is_err());
}

#[test]
fn try_new_reports_configuration_errors_instead_of_panicking() {
    let types = vec![SolutionDataTypes::Real];
    let err: ConfigError = Problem::try_new(2, 1, None, None, None, types.clone()).unwrap_err();
    assert!(err.message().contains("solution_length"));

    let err = Problem::try_new(1, 1, Some(vec![Some(key(1.0))]), None, None, types.clone()).unwrap_err();
    assert!(err.message().contains("supply both or neither"));

    let err = Problem::try_new(
        1,
        1,
        Some(vec![Some(key(1.0))]),
        Some(vec![Some("=<".to_string())]),
        None,
        types.clone(),
    )
    .unwrap_err();
    assert!(err.message().contains("Invalid operand"));

    let err = Problem::try_new(1, 1, None, None, Some(vec![0]), types.clone()).unwrap_err();
    assert!(err.message().contains("direction"));

    assert!(Problem::try_new(1, 1, None, None, None, types).is_ok());
}

fn is_permutation(v: &[usize]) -> bool {
    let mut seen = vec![false; v.len()];
    for &i in v {
        if i >= v.len() || seen[i] {
            return false;
        }
        seen[i] = true;
    }
    true
}

fn tsp_problem() -> Problem {
    Problem::new(
        8,
        1,
        None,
        None,
        Some(vec![-1]),
        (0..8).map(|_| SolutionDataTypes::Integer(Integer::new(Some(0), Some(7)))).collect(),
    )
    .with_permutation_encoding()
}

#[test]
fn permutation_encoding_generates_permutations() {
    let problem = tsp_problem();
    assert_eq!(problem.encoding, Encoding::Permutation);
    let mut rng = SmallRng::seed_from_u64(5);
    for _ in 0..50 {
        assert!(is_permutation(&problem.generate_permutation(&mut rng)));
    }
}

#[test]
fn order_crossover_preserves_permutations() {
    let problem = tsp_problem();
    let mut rng = SmallRng::seed_from_u64(2);
    for _ in 0..100 {
        let p1 = problem.generate_permutation(&mut rng);
        let p2 = problem.generate_permutation(&mut rng);
        let (c1, c2) = order_crossover_random(&p1, &p2, &mut rng);
        assert!(is_permutation(&c1), "OX produced {:?}", c1);
        assert!(is_permutation(&c2), "OX produced {:?}", c2);
    }
}

#[test]
fn swap_mutation_preserves_permutations() {
    let mut rng = SmallRng::seed_from_u64(4);
    for _ in 0..100 {
        let mut v: Vec<usize> = (0..8).collect();
        let chosen: Vec<bool> = (0..8).map(|_| rng.gen::<f64>() < 0.5).collect();
        swap_mutation(&mut v, &chosen, &mut rng);
        assert!(is_permutation(&v), "swap produced {:?}", v);
    }
}
