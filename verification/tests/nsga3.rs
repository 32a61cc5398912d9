use puggles::nsga3::{das_dennis_lattice, fill_by_fronts, niche_select, nsga3_population_size};

#[test]
fn test_das_dennis_count() {
    // 3 objectives, 4 divisions: C(6, 4) = 15 points, all summing to the divisions.
    let pts = das_dennis_lattice(3, 4);
    assert_eq!(pts.len(), 15);
    for p in &pts {
        assert_eq!(p.iter().sum::<usize>(), 4);
        assert_eq!(p.len(), 3);
    }
}

#[test]
fn lattice_lists_points_in_lexicographic_order() {
    let pts = das_dennis_lattice(2, 3);
    assert_eq!(pts, vec![vec![0, 3], vec![1, 2], vec![2, 1], vec![3, 0]]);
    assert_eq!(das_dennis_lattice(1, 5), vec![vec![5]]);
    assert_eq!(das_dennis_lattice(3, 0), vec![vec![0, 0, 0]]);
    assert_eq!(das_dennis_lattice(3, 12).len(), 91);
}

#[test]
fn population_size_rounds_reference_count_up_to_four() {
    assert_eq!(nsga3_population_size(0, 15), 16);
    assert_eq!(nsga3_population_size(0, 16), 16);
    assert_eq!(nsga3_population_size(0, 91), 92);
    assert_eq!(nsga3_population_size(24, 91), 24);
    assert_eq!(nsga3_population_size(0, 0), 0);
}

#[test]
fn filling_stops_at_the_front_that_overflows() {
    let fronts = vec![vec![4, 0], vec![1, 5, 2], vec![3]];
    let (selected, splitting) = fill_by_fronts(&fronts, 4);
    assert_eq!(selected, vec![4, 0]);
    assert_eq!(splitting, vec![1, 5, 2]);
    let (selected, splitting) = fill_by_fronts(&fronts, 5);
    assert_eq!(selected, vec![4, 0, 1, 5, 2]);
    assert_eq!(splitting, vec![3]);
    let (selected, splitting) = fill_by_fronts(&fronts, 6);
    assert_eq!(selected, vec![4, 0, 1, 5, 2, 3]);
    assert!(splitting.is_empty());
}

#[test]
fn niching_fills_the_emptiest_reference_point_first() {
    // Pool: 2 selected members (both on reference 0), then 4 candidates on references 0, 1,
    // 1 and 2. Reference 1 and 2 are empty; the lower-numbered goes first, and among its
    // candidates the nearer one.
    let assoc = vec![0, 0, 0, 1, 1, 2];
    let dist = vec![0, 0, 5, 7, 3, 9];
    let picks = niche_select(&assoc, &dist, 2, 3, 3);
    assert_eq!(picks, vec![4, 5, 3]);
}

#[test]
fn niching_breaks_distance_ties_by_position() {
    let assoc = vec![1, 1, 1];
    let dist = vec![4, 4, 4];
    assert_eq!(niche_select(&assoc, &dist, 0, 2, 3), vec![0, 1, 2]);
}
