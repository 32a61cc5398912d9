use puggles::gatypes::{BitBinary, Integer, SolutionDataTypes};
use puggles::problem::{parse_operand, ConfigError, ConstraintOp, Encoding, Problem, Solution};
use rand::rngs::SmallRng;
use rand::SeedableRng;

fn key(v: f64) -> i64 {
    let bits = v.to_bits() as i64;
    if bits < 0 {
        -(bits & i64::MAX)
    } else {
        bits
    }
}

fn reals(n: usize) -> Vec<SolutionDataTypes> {
    (0..n).map(|_| SolutionDataTypes::Real).collect()
}

#[test]
fn config_error_keeps_its_message() {
    let e = ConfigError::new("bad bounds".to_string());
    assert_eq!(e.message(), "bad bounds");
    assert_eq!(e.clone(), e);
}

#[test]
fn encoding_defaults_to_per_gene() {
    assert_eq!(Encoding::default(), Encoding::PerGene);
}

#[test]
fn operands_parse_to_their_operators() {
    assert_eq!(parse_operand(&"<".to_string()), Some(ConstraintOp::Less));
    assert_eq!(parse_operand(&">".to_string()), Some(ConstraintOp::Greater));
    assert_eq!(parse_operand(&"<=".to_string()), Some(ConstraintOp::LessEq));
    assert_eq!(parse_operand(&">=".to_string()), Some(ConstraintOp::GreaterEq));
    assert_eq!(parse_operand(&"==".to_string()), Some(ConstraintOp::Equal));
    assert_eq!(parse_operand(&"!=".to_string()), Some(ConstraintOp::NotEqual));
    assert_eq!(parse_operand(&"=<".to_string()), None);
}

#[test]
fn try_new_reports_each_configuration_error_in_full() {
    let err = Problem::try_new(1, 2, Some(vec![Some(1)]), Some(vec![Some("<".to_string())]), None, reals(1)).unwrap_err();
    assert_eq!(err.message(), "objective_constraint length does not match number_of_objectives");

    let err = Problem::try_new(1, 1, None, Some(vec![Some("<".to_string()), None]), None, reals(1)).unwrap_err();
    assert_eq!(err.message(), "objective_constraint_operands length does not match number_of_objectives");

    let err = Problem::try_new(1, 1, None, Some(vec![Some("<".to_string())]), None, reals(1)).unwrap_err();
    assert_eq!(
        err.message(),
        "objective_constraint_operands is set but objective_constraint is None — supply both or neither"
    );

    let err = Problem::try_new(1, 1, Some(vec![Some(1)]), Some(vec![Some("=<".to_string())]), None, reals(1))
        .unwrap_err();
    assert_eq!(err.message(), "Invalid operand: =< (expected one of <, >, <=, >=, ==, !=)");

    let err = Problem::try_new(1, 2, None, None, Some(vec![-1]), reals(1)).unwrap_err();
    assert_eq!(err.message(), "direction length does not match number_of_objectives");

    let err = Problem::try_new(1, 2, None, None, Some(vec![-1, 7]), reals(1)).unwrap_err();
    assert_eq!(err.message(), "direction entries must be 1 (maximize) or -1 (minimize), got 7");

    let err = Problem::try_new(1, 1, None, None, Some(vec![-128]), reals(1)).unwrap_err();
    assert_eq!(err.message(), "direction entries must be 1 (maximize) or -1 (minimize), got -128");
}

#[test]
fn try_new_defaults_direction_to_minimize() {
    let p = Problem::try_new(2, 3, None, None, None, reals(2)).unwrap();
    assert_eq!(p.direction, Some(vec![-1, -1, -1]));
    assert_eq!(p.variable_constraints, 0);
    assert_eq!(p.encoding, Encoding::PerGene);
    assert!(!p.has_constraints());
}

#[test]
fn has_constraints_sees_bounds_and_variable_constraints() {
    let bounded = Problem::new(1, 1, Some(vec![Some(key(1.0))]), Some(vec![Some("<".to_string())]), None, reals(1));
    assert!(bounded.has_constraints());
    let empty_bounds = Problem::new(1, 0, Some(vec![]), Some(vec![]), None, reals(1));
    assert!(!empty_bounds.has_constraints());
    let with_g = Problem::new(1, 1, None, None, None, reals(1)).with_variable_constraints(2);
    assert!(with_g.has_constraints());
    assert_eq!(with_g.variable_constraints, 2);
}

#[test]
fn objective_bounds_are_evaluated_per_objective() {
    let p = Problem::new(
        1,
        3,
        Some(vec![Some(key(10.0)), None, Some(key(0.0))]),
        Some(vec![Some("<".to_string()), Some(">".to_string()), Some(">=".to_string())]),
        Some(vec![-1, -1, -1]),
        reals(1),
    );
    let mut s = Solution::new();
    s.record_evaluation(&p, vec![key(12.0), key(-3.0), key(0.0)], &[], 0);
    assert_eq!(s.constraint_values, vec![false, true, true]);
    assert_eq!(s.constraint_violation, 1);
    assert!(!s.feasible);
    assert!(s.evaluated);

    let mut t = Solution::new();
    t.record_evaluation(&p, vec![key(9.5), key(-3.0), key(1.0)], &[], 0);
    assert_eq!(t.constraint_values, vec![true, true, true]);
    assert_eq!(t.constraint_violation, 0);
    assert!(t.feasible);
}

#[test]
fn every_operator_is_evaluated() {
    for (op, obj, holds) in [
        ("<", 1.0, true),
        ("<", 2.0, false),
        (">", 3.0, true),
        (">", 2.0, false),
        ("<=", 2.0, true),
        ("<=", 2.5, false),
        (">=", 2.0, true),
        (">=", 1.5, false),
        ("==", 2.0, true),
        ("==", 2.1, false),
        ("!=", 2.1, true),
        ("!=", 2.0, false),
    ] {
        let p = Problem::new(1, 1, Some(vec![Some(key(2.0))]), Some(vec![Some(op.to_string())]), None, reals(1));
        let mut s = Solution::new();
        s.objective_fitness_values = vec![key(obj)];
        assert_eq!(s.evaluate_constraints(&p), vec![holds], "{op} on {obj}");
    }
}

#[test]
fn violation_counts_bounds_and_positive_constraint_values() {
    let mut s = Solution::new();
    s.constraint_values = vec![true, false, false];
    assert_eq!(s.calculate_constraint_violation(&[key(0.5), key(0.0), key(-2.0), key(1e-9)]), 4);
    assert_eq!(s.calculate_constraint_violation(&[]), 2);
    s.constraint_violation = 0;
    assert!(s.is_feasible());
    s.constraint_violation = 3;
    assert!(!s.is_feasible());
}

#[test]
fn new_solution_is_unevaluated() {
    let s = Solution::new();
    assert!(!s.evaluated && !s.feasible);
    assert!(s.objective_fitness_values.is_empty() && s.constraint_values.is_empty());
    assert_eq!(s.constraint_violation, 0);
    assert_eq!(s.constraint_violation_magnitude, 0);
}

#[test]
fn generated_permutation_has_every_index_once() {
    let p = Problem::new(6, 1, None, None, None, reals(6)).with_permutation_encoding();
    let mut rng = SmallRng::seed_from_u64(1);
    let mut perm = p.generate_permutation(&mut rng);
    perm.sort();
    assert_eq!(perm, vec![0, 1, 2, 3, 4, 5]);
}

fn mixed_types() -> Vec<SolutionDataTypes> {
    vec![
        SolutionDataTypes::BitBinary(BitBinary::new()),
        SolutionDataTypes::Integer(Integer::new(Some(10), Some(20))),
        SolutionDataTypes::Real,
        SolutionDataTypes::Integer(Integer::new(Some(10), Some(20))),
        SolutionDataTypes::Real,
    ]
}

#[test]
fn test_problem_initialization() {
    let problem = Problem::new(5, 1, None, None, None, mixed_types());
    assert_eq!(problem.solution_length, 5);
    assert_eq!(problem.number_of_objectives, 1);
}

#[test]
fn test_problem_with_constraints() {
    let problem = Problem::new(5, 1, Some(vec![Some(key(15.0))]), Some(vec![Some("<".to_string())]), None, mixed_types());
    assert_eq!(problem.solution_length, 5);
    assert_eq!(problem.number_of_objectives, 1);
    assert_eq!(problem.objective_constraint.as_ref().unwrap().len(), 1);
    assert_eq!(problem.objective_constraint_operands.as_ref().unwrap().len(), 1);
}

#[test]
fn test_solution_feasibility() {
    let problem = Problem::new(5, 1, None, None, None, mixed_types());
    let mut solution = Solution::new();
    solution.record_evaluation(&problem, vec![key(42.0)], &[], 0);
    assert!(solution.is_feasible());
}

#[test]
fn test_solution_constraint_violation() {
    // Objective < 15: the optimum evaluates to 0.0, the far point to 285.0.
    let problem = Problem::new(5, 1, Some(vec![Some(key(15.0))]), Some(vec![Some("<".to_string())]), None, reals(5));
    let mut feasible = Solution::new();
    feasible.record_evaluation(&problem, vec![key(0.0)], &[], 0);
    assert_eq!(feasible.constraint_violation, 0, "solution at optimum should have no violations");
    let mut infeasible = Solution::new();
    infeasible.record_evaluation(&problem, vec![key(285.0)], &[], key(270.0));
    assert_eq!(infeasible.constraint_violation, 1, "solution with objective 285 should violate < 15");
    assert!(!infeasible.feasible);
}

#[test]
fn test_variable_constraints() {
    // g(x) = x0 + x1 - 5 <= 0.
    let problem = Problem::new(2, 1, None, None, Some(vec![-1]), reals(2)).with_variable_constraints(1);
    let mut feasible = Solution::new();
    feasible.record_evaluation(&problem, vec![key(2.0)], &[key(2.0 - 5.0)], 0);
    assert_eq!(feasible.constraint_violation, 0);
    assert!(feasible.feasible);
    let mut infeasible = Solution::new();
    infeasible.record_evaluation(&problem, vec![key(32.0)], &[key(8.0 - 5.0)], key(3.0));
    assert_eq!(infeasible.constraint_violation, 1);
    assert!(!infeasible.feasible);
}

#[test]
fn optional_objective_constraint_elements_are_skipped() {
    let problem = Problem::new(
        2,
        2,
        Some(vec![None, Some(key(1.0))]),
        Some(vec![None, Some("<".to_string())]),
        Some(vec![-1, -1]),
        reals(2),
    );
    let mut s = Solution::new();
    s.record_evaluation(&problem, vec![key(7.0), key(0.5)], &[], 0);
    assert_eq!(s.constraint_violation, 0);
    assert!(s.feasible);
}

#[test]
fn permutations_are_shuffled() {
    let p = Problem::new(8, 1, None, None, None, reals(8)).with_permutation_encoding();
    let mut rng = SmallRng::seed_from_u64(21);
    let identity: Vec<usize> = (0..8).collect();
    let draws: Vec<Vec<usize>> = (0..20).map(|_| p.generate_permutation(&mut rng)).collect();
    assert!(draws.iter().any(|d| *d != identity));
}
