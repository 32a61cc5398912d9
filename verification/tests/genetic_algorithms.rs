use puggles::genetic_algorithms_v2::{
    archive_candidates, archive_sources, assign_ranks, effective_mode, generation_budget, mating_pairs,
    select_survivors, survivor_indices, top_by_crowding, unevaluated_indices, ArchiveSource, ExecutionMode,
};
use puggles::gatypes::SolutionDataTypes;
use puggles::problem::Solution;

fn key(v: f64) -> i64 {
    let bits = v.to_bits() as i64;
    if bits < 0 {
        -(bits & i64::MAX)
    } else {
        bits
    }
}

#[test]
fn test_execution_mode_default() {
    assert_eq!(ExecutionMode::default(), ExecutionMode::MultiThreaded);
}

#[test]
fn test_effective_mode() {
    // Sequential passes through; GPU without an evaluator falls back; a batch objective
    // bypasses per-solution parallelism whatever the mode.
    assert_eq!(effective_mode(false, ExecutionMode::Sequential, false), ExecutionMode::Sequential);
    assert_eq!(effective_mode(false, ExecutionMode::GPU, false), ExecutionMode::MultiThreaded);
    assert_eq!(effective_mode(true, ExecutionMode::MultiThreaded, false), ExecutionMode::Sequential);
}

#[test]
fn gpu_mode_runs_on_a_ready_evaluator() {
    assert_eq!(effective_mode(false, ExecutionMode::GPU, true), ExecutionMode::GPU);
    assert_eq!(effective_mode(false, ExecutionMode::MultiThreaded, true), ExecutionMode::MultiThreaded);
    assert_eq!(effective_mode(true, ExecutionMode::GPU, true), ExecutionMode::Sequential);
}

#[test]
fn budget_fills_a_population_then_the_remainder() {
    assert_eq!(generation_budget(0, 1000, 40), Some(40));
    assert_eq!(generation_budget(990, 1000, 40), Some(10));
    assert_eq!(generation_budget(1000, 1000, 40), None);
    assert_eq!(generation_budget(1200, 1000, 40), None);
}

#[test]
fn budget_never_overshoots_over_a_run() {
    let (pop, max_nfe) = (30usize, 500usize);
    let mut nfe = pop; // the initial population
    let mut generations = 0;
    while let Some(n) = generation_budget(nfe, max_nfe, pop) {
        nfe += n;
        generations += 1;
        assert!(nfe <= max_nfe);
    }
    assert_eq!(nfe, max_nfe);
    assert_eq!(generations, 16);
}

#[test]
fn ranks_follow_fronts() {
    let fronts = vec![vec![3, 0], vec![2], vec![4]];
    assert_eq!(assign_ranks(&fronts, 6), vec![0, 0, 1, 0, 2, 0]);
}

#[test]
fn top_by_crowding_prefers_larger_distances_then_earlier_positions() {
    let crowding: Vec<i64> = [0.5, f64::INFINITY, 0.5, 2.0, f64::INFINITY].iter().map(|&c| key(c)).collect();
    assert_eq!(top_by_crowding(&crowding, 3), vec![1, 4, 3]);
    assert_eq!(top_by_crowding(&crowding, 5), vec![1, 4, 3, 0, 2]);
    assert!(top_by_crowding(&crowding, 0).is_empty());
}

#[test]
fn survivors_take_whole_fronts_then_the_least_crowded() {
    // 7 solutions, target 4: front 0 (2 members) fits, front 1 (3 members) is cut to its two
    // least crowded, front 2 is dropped.
    let fronts = vec![vec![5, 1], vec![0, 6, 3], vec![2, 4]];
    let crowding: Vec<i64> = [1.0, 0.0, 9.0, 0.2, 9.0, 0.0, f64::INFINITY].iter().map(|&c| key(c)).collect();
    let keep = select_survivors(&fronts, &crowding, 7, 4);
    assert_eq!(keep, vec![true, true, false, false, false, true, true]);
}

#[test]
fn survivors_when_fronts_fit_exactly() {
    let fronts = vec![vec![0, 1], vec![2]];
    let crowding = vec![0; 3];
    assert_eq!(select_survivors(&fronts, &crowding, 3, 3), vec![true, true, true]);
    assert_eq!(select_survivors(&fronts, &crowding, 3, 2), vec![true, true, false]);
    assert_eq!(select_survivors(&fronts, &crowding, 3, 0), vec![false, false, false]);
}

#[test]
fn archive_candidates_are_feasible_evaluated_front_zero_members() {
    let mut pop: Vec<Solution> = (0..4).map(|_| Solution::new()).collect();
    for (i, s) in pop.iter_mut().enumerate() {
        s.evaluated = true;
        s.feasible = i != 2;
    }
    pop[3].evaluated = false;
    // Current ranks: only rank-0 members qualify.
    assert_eq!(archive_candidates(&pop, &[0, 1, 0, 0]), vec![0]);
    // Stale ranks (wrong length): every feasible evaluated member qualifies.
    assert_eq!(archive_candidates(&pop, &[]), vec![0, 1]);
}

#[test]
fn unevaluated_members_are_listed_in_order() {
    let mut pop: Vec<Solution> = (0..5).map(|_| Solution::new()).collect();
    pop[1].evaluated = true;
    pop[4].evaluated = true;
    assert_eq!(unevaluated_indices(&pop), vec![0, 2, 3]);
}

fn scored(objs: &[f64], feasible: bool) -> Solution {
    let mut s = Solution::new();
    s.objective_fitness_values = objs.iter().map(|&v| key(v)).collect();
    s.evaluated = true;
    s.feasible = feasible;
    s
}

fn two_objectives() -> puggles::problem::Problem {
    puggles::problem::Problem::new(
        2,
        2,
        None,
        None,
        Some(vec![-1, -1]),
        vec![SolutionDataTypes::Real, SolutionDataTypes::Real],
    )
}

#[test]
fn archive_front_keeps_the_non_dominated_of_archive_and_candidates() {
    let problem = two_objectives();
    let archive = vec![scored(&[1.0, 5.0], true), scored(&[5.0, 1.0], true)];
    let population = vec![
        scored(&[2.0, 2.0], true),  // joins the front
        scored(&[6.0, 6.0], true),  // dominated
        scored(&[0.0, 0.0], false), // infeasible: never a candidate
    ];
    let cands = archive_candidates(&population, &[]);
    assert_eq!(cands, vec![0, 1]);
    // Pool: archive 0, archive 1, population 0, population 1. Best first by the key.
    let picked = puggles::genetic_algorithms_v2::archive_front(&problem, &archive, &population, &cands).unwrap();
    assert_eq!(picked, vec![0, 2, 1]);
}

#[test]
fn archive_front_leaves_the_archive_without_candidates() {
    let problem = two_objectives();
    let archive = vec![scored(&[1.0, 5.0], true)];
    let population = vec![scored(&[0.0, 0.0], false)];
    let cands = archive_candidates(&population, &[0]);
    assert!(cands.is_empty());
    assert!(puggles::genetic_algorithms_v2::archive_front(&problem, &archive, &population, &cands).is_none());
}

#[test]
fn archive_cap_keeps_the_least_crowded() {
    let crowding: Vec<i64> = [f64::INFINITY, 0.5, f64::INFINITY].iter().map(|&c| key(c)).collect();
    assert_eq!(puggles::genetic_algorithms_v2::archive_cap(3, &crowding, 2), vec![0, 2]);
    assert_eq!(puggles::genetic_algorithms_v2::archive_cap(3, &crowding, 3), vec![0, 1, 2]);
    assert_eq!(puggles::genetic_algorithms_v2::archive_cap(2, &[], 5), vec![0, 1]);
}

#[test]
fn matings_pair_consecutive_parents_around_the_list() {
    assert_eq!(mating_pairs(&[7, 3, 9], 4), vec![(7, 3), (9, 7), (3, 9), (7, 3)]);
    assert_eq!(mating_pairs(&[5], 2), vec![(5, 5), (5, 5)]);
    assert!(mating_pairs(&[], 0).is_empty());
}

#[test]
fn survivor_indices_lists_the_kept_positions_in_order() {
    assert_eq!(survivor_indices(&[true, false, true, true, false]), vec![0, 2, 3]);
    assert_eq!(survivor_indices(&[false, false]), Vec::<usize>::new());
    assert_eq!(survivor_indices(&[]), Vec::<usize>::new());
}

#[test]
fn archive_sources_point_into_the_archive_and_the_candidates() {
    let archive: Vec<Solution> = (0..2).map(|_| Solution::new()).collect();
    let population: Vec<Solution> = (0..5).map(|_| Solution::new()).collect();
    let cands = vec![1, 4];
    let picked = vec![3, 0, 2];
    let kept = vec![2, 0];
    let sources = archive_sources(&archive, &population, &cands, &picked, &kept);
    assert_eq!(sources, vec![ArchiveSource::Population(1), ArchiveSource::Population(4)]);
    let all = archive_sources(&archive, &population, &cands, &picked, &[0, 1, 2]);
    assert_eq!(
        all,
        vec![ArchiveSource::Population(4), ArchiveSource::Archive(0), ArchiveSource::Population(1)]
    );
}
