use puggles::dominance::{fast_non_dominated_sort, ParetoDominance};
use puggles::gatypes::SolutionDataTypes;
use puggles::genetic_algorithms_v2::ExecutionMode;
use puggles::islands::{island_seed, merge_fronts, non_dominated_indices, IslandConfig};
use puggles::problem::{Problem, Solution};

fn key(v: f64) -> i64 {
    let bits = v.to_bits() as i64;
    if bits < 0 {
        -(bits & i64::MAX)
    } else {
        bits
    }
}

fn scored(objs: &[f64]) -> Solution {
    let mut s = Solution::new();
    s.objective_fitness_values = objs.iter().map(|&v| key(v)).collect();
    s.evaluated = true;
    s.feasible = true;
    s
}

fn two_objectives() -> Problem {
    Problem::new(2, 2, None, None, Some(vec![-1, -1]), vec![SolutionDataTypes::Real, SolutionDataTypes::Real])
}

#[test]
fn island_config_defaults() {
    let c = IslandConfig::default();
    assert_eq!(c.islands, 4);
    assert_eq!(c.population_size, 50);
    assert_eq!(c.max_nfe_per_island, 10_000);
    assert_eq!(c.seed, Some(0));
    assert_eq!(c.execution_mode, ExecutionMode::Sequential);
    let d = c.clone();
    assert_eq!(d.islands, c.islands);
}

#[test]
fn island_seeds_are_distinct_and_wrap() {
    assert_eq!(island_seed(Some(7), 0), Some(7));
    assert_eq!(island_seed(Some(7), 3), Some(10));
    assert_eq!(island_seed(Some(u64::MAX), 2), Some(1));
    assert_eq!(island_seed(None, 5), None);
}

#[test]
fn merged_archives_keep_only_the_common_front() {
    let problem = two_objectives();
    let a = vec![scored(&[1.0, 5.0]), scored(&[4.0, 4.0])];
    let b = vec![scored(&[5.0, 1.0]), scored(&[2.0, 2.0])];
    let merged = merge_fronts(&problem, vec![a, b]);
    let objs: Vec<Vec<i64>> = merged.iter().map(|s| s.objective_fitness_values.clone()).collect();
    assert_eq!(merged.len(), 3);
    assert!(objs.contains(&vec![key(1.0), key(5.0)]));
    assert!(objs.contains(&vec![key(5.0), key(1.0)]));
    assert!(objs.contains(&vec![key(2.0), key(2.0)]));
    assert_eq!(fast_non_dominated_sort(&problem, &merged, &ParetoDominance).len(), 1);
}

#[test]
fn merging_nothing_gives_nothing() {
    let problem = two_objectives();
    assert!(merge_fronts(&problem, vec![]).is_empty());
    assert!(merge_fronts(&problem, vec![vec![], vec![]]).is_empty());
}

#[test]
fn more_archives_never_shrink_a_front_they_do_not_dominate() {
    let problem = two_objectives();
    let one = merge_fronts(&problem, vec![vec![scored(&[1.0, 3.0]), scored(&[3.0, 1.0])]]);
    let many = merge_fronts(
        &problem,
        vec![vec![scored(&[1.0, 3.0]), scored(&[3.0, 1.0])], vec![scored(&[2.0, 2.0])]],
    );
    assert!(many.len() >= one.len());
}

#[test]
fn non_dominated_positions_in_sort_order() {
    let problem = two_objectives();
    let pool = vec![scored(&[4.0, 4.0]), scored(&[3.0, 1.0]), scored(&[1.0, 3.0]), scored(&[5.0, 5.0])];
    assert_eq!(non_dominated_indices(&problem, &pool), vec![2, 1]);
    assert!(non_dominated_indices(&problem, &[]).is_empty());
}
