use puggles::genetic_operators::permutation::{order_crossover, order_crossover_random, swap_mutation, swap_positions};
use rand::rngs::SmallRng;
use rand::SeedableRng;

fn sorted(v: &[usize]) -> Vec<usize> {
    let mut s = v.to_vec();
    s.sort();
    s
}

#[test]
fn order_crossover_keeps_the_segment_and_fills_in_the_other_parents_order() {
    let p1 = vec![0, 1, 2, 3];
    let p2 = vec![3, 2, 1, 0];
    let (c1, c2) = order_crossover(&p1, &p2, 1, 3);
    assert_eq!(c1, vec![3, 1, 2, 0]);
    assert_eq!(c2, vec![0, 2, 1, 3]);
}

#[test]
fn order_crossover_on_five_items() {
    let p1 = vec![2, 4, 0, 1, 3];
    let p2 = vec![4, 3, 2, 1, 0];
    let (c1, c2) = order_crossover(&p1, &p2, 2, 4);
    assert_eq!(c1, vec![4, 3, 0, 1, 2]);
    assert_eq!(c2, vec![4, 0, 2, 1, 3]);
}

#[test]
fn order_crossover_with_empty_or_full_segment() {
    let p1 = vec![1, 0, 2];
    let p2 = vec![2, 1, 0];
    assert_eq!(order_crossover(&p1, &p2, 0, 0), (p2.clone(), p1.clone()));
    assert_eq!(order_crossover(&p1, &p2, 0, 3), (p1.clone(), p2.clone()));
    assert_eq!(order_crossover(&p1, &p2, 2, 2), (p2.clone(), p1.clone()));
}

#[test]
fn order_crossover_of_empty_parents_is_empty() {
    let mut rng = SmallRng::seed_from_u64(1);
    let (c1, c2) = order_crossover_random(&Vec::new(), &Vec::new(), &mut rng);
    assert!(c1.is_empty() && c2.is_empty());
}

#[test]
fn random_order_crossover_recombines() {
    let mut rng = SmallRng::seed_from_u64(3);
    let p1: Vec<usize> = (0..10).collect();
    let p2: Vec<usize> = (0..10).rev().collect();
    let mut differs = 0;
    for _ in 0..50 {
        let (c1, c2) = order_crossover_random(&p1, &p2, &mut rng);
        assert_eq!(sorted(&c1), p1);
        assert_eq!(sorted(&c2), p1);
        if c1 != p1 && c1 != p2 {
            differs += 1;
        }
    }
    assert!(differs > 0);
}

#[test]
fn swap_positions_exchanges_two_items() {
    let mut v = vec![5, 6, 7, 8];
    swap_positions(&mut v, 0, 2);
    assert_eq!(v, vec![7, 6, 5, 8]);
    swap_positions(&mut v, 3, 3);
    assert_eq!(v, vec![7, 6, 5, 8]);
}

#[test]
fn swap_mutation_without_chosen_positions_changes_nothing() {
    let mut rng = SmallRng::seed_from_u64(9);
    let mut v = vec![3, 1, 0, 2];
    swap_mutation(&mut v, &[false, false, false, false], &mut rng);
    assert_eq!(v, vec![3, 1, 0, 2]);
}

#[test]
fn swap_mutation_moves_items_when_all_are_chosen() {
    let mut rng = SmallRng::seed_from_u64(11);
    let start: Vec<usize> = (0..12).collect();
    let mut moved = 0;
    for _ in 0..20 {
        let mut v = start.clone();
        swap_mutation(&mut v, &[true; 12], &mut rng);
        assert_eq!(sorted(&v), start);
        if v != start {
            moved += 1;
        }
    }
    assert!(moved > 0);
}
