use puggles::genetic_operators::selectors::{crowding_compare, tournament, CrowdingTournamentSelector};

fn key(v: f64) -> i64 {
    let bits = v.to_bits() as i64;
    if bits < 0 {
        -(bits & i64::MAX)
    } else {
        bits
    }
}

#[test]
fn test_crowding_tournament_selector() {
    let ranks = vec![0, 0, 1, 1, 2];
    let crowding: Vec<i64> = [f64::INFINITY, 0.5, f64::INFINITY, 0.3, 0.1].iter().map(|&c| key(c)).collect();
    let mut selector = CrowdingTournamentSelector::new(2, 42);
    let selected = selector.select_indices(3, &ranks, &crowding);
    assert_eq!(selected.len(), 3);
    for &idx in &selected {
        assert!(idx < 5);
    }
}

#[test]
fn test_crowding_compare() {
    assert!(crowding_compare(0, key(0.5), 1, key(1.0)));
    assert!(!crowding_compare(1, key(1.0), 0, key(0.5)));
    assert!(crowding_compare(0, key(1.0), 0, key(0.5)));
    assert!(!crowding_compare(0, key(0.5), 0, key(1.0)));
}

#[test]
fn crowding_compare_is_strict() {
    assert!(!crowding_compare(2, key(0.7), 2, key(0.7)));
}

#[test]
fn large_tournaments_pick_the_best_ranked() {
    // A tournament of 64 draws over 4 solutions includes index 0, the only one of rank 0,
    // and a winner is never beaten by an entrant.
    let ranks = vec![0, 1, 1, 2];
    let crowding = vec![key(0.0); 4];
    let mut selector = CrowdingTournamentSelector::new(64, 7);
    let selected = selector.select_indices(20, &ranks, &crowding);
    assert!(selected.iter().all(|&i| i == 0));
}

#[test]
fn seeded_selectors_repeat_their_choices() {
    let ranks = vec![0, 1, 0, 2, 1, 0];
    let crowding: Vec<i64> = [1.0, 2.0, 3.0, 0.5, 0.25, f64::INFINITY].iter().map(|&c| key(c)).collect();
    let a = CrowdingTournamentSelector::new(2, 5).select_indices(10, &ranks, &crowding);
    let b = CrowdingTournamentSelector::new(2, 5).select_indices(10, &ranks, &crowding);
    assert_eq!(a, b);
}

#[test]
fn tournament_of_one_draws_any_index() {
    let ranks = vec![3, 2, 1];
    let mut selector = CrowdingTournamentSelector::new(1, 1);
    let selected = selector.select_indices(30, &ranks, &[]);
    assert_eq!(selected.len(), 30);
    assert!(selected.iter().all(|&i| i < 3));
}

#[test]
fn selecting_nothing_from_nothing() {
    let mut selector = CrowdingTournamentSelector::new(2, 0);
    assert!(selector.select_indices(0, &[], &[]).is_empty());
}

#[test]
fn tournament_lead_passes_only_to_a_preferred_entrant() {
    let ranks = vec![1, 0, 0, 2];
    let crowding: Vec<i64> = [5.0, 1.0, 3.0, 9.0].iter().map(|&c| key(c)).collect();
    // Rank 0 beats rank 1; among rank 0, the larger crowding distance wins.
    assert_eq!(tournament(&ranks, &crowding, &[0, 1, 3, 2]), 2);
    assert_eq!(tournament(&ranks, &crowding, &[3, 0]), 0);
    // On a full tie the earlier entrant keeps the lead.
    assert_eq!(tournament(&ranks, &crowding, &[2, 2, 1]), 2);
    assert_eq!(tournament(&ranks, &[], &[3]), 3);
}
