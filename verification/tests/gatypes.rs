use puggles::gatypes::{BitBinary, Integer};
use rand::rngs::SmallRng;
use rand::SeedableRng;

#[test]
fn test_bit_binary_generation() {
    let mut rng = SmallRng::seed_from_u64(0);
    let bit_binary = BitBinary::new();
    for _ in 0..100 {
        let value = bit_binary.generate_value(&mut rng).unwrap();
        assert!(value == 0 || value == 1);
    }
}

#[test]
fn test_integer_generation_with_bounds() {
    let mut rng = SmallRng::seed_from_u64(0);
    let integer = Integer::new(Some(10), Some(20));
    for _ in 0..100 {
        let value = integer.generate_value(&mut rng).unwrap();
        assert!((10..=20).contains(&value));
    }
}

#[test]
fn test_integer_generation_reaches_upper_bound() {
    let mut rng = SmallRng::seed_from_u64(0);
    let integer = Integer::new(Some(0), Some(3));
    let seen: Vec<i64> = (0..500).map(|_| integer.generate_value(&mut rng).unwrap()).collect();
    assert!(seen.contains(&3), "closed upper bound must be generatable");
    assert!(seen.contains(&0), "closed lower bound must be generatable");
    assert!(seen.iter().all(|v| (0..=3).contains(v)));
}

#[test]
fn test_integer_generation_without_bounds() {
    let mut rng = SmallRng::seed_from_u64(0);
    let integer = Integer::new(None, None);
    let values: Vec<i64> = (0..100).map(|_| integer.generate_value(&mut rng).unwrap()).collect();
    assert!(values.iter().any(|&v| v != values[0]), "unbounded generation is not random");
}

#[test]
fn test_integer_one_sided_none_is_validated() {
    let err = Integer::try_new(Some(i64::MAX), None).unwrap_err();
    assert!(err.message().contains("must not be equal"));
}

#[test]
fn integer_try_new_reports_each_error() {
    let err = Integer::try_new(Some(20), Some(10)).unwrap_err();
    assert_eq!(err.message(), "Lower bound must be less than upper bound");
    let err = Integer::try_new(Some(5), Some(5)).unwrap_err();
    assert_eq!(err.message(), "Lower bound must not be equal to upper bound");
    let err = Integer::try_new(None, Some(i64::MIN)).unwrap_err();
    assert_eq!(err.message(), "Lower bound must not be equal to upper bound");
    let ok = Integer::try_new(Some(0), Some(5)).unwrap();
    assert_eq!(ok.lower_bound, Some(0));
    assert_eq!(ok.upper_bound, Some(5));
    let open = Integer::try_new(None, None).unwrap();
    assert_eq!(open.lower_bound, None);
    assert_eq!(open.upper_bound, None);
}

#[test]
fn integer_two_value_range_stays_in_range() {
    // The narrowest valid range: two values.
    let mut rng = SmallRng::seed_from_u64(3);
    let integer = Integer::new(Some(-1), Some(0));
    for _ in 0..50 {
        let v = integer.generate_value(&mut rng).unwrap();
        assert!(v == -1 || v == 0);
    }
}

#[test]
fn test_bit_binary() {
    let mut rng = SmallRng::seed_from_u64(0);
    let bit_binary = BitBinary::new();
    let value = bit_binary.generate_value(&mut rng).unwrap();
    assert!(value == 0 || value == 1);
}

#[test]
fn test_integer() {
    let mut rng = SmallRng::seed_from_u64(0);
    let integer = Integer::new(Some(10), Some(20));
    let value = integer.generate_value(&mut rng).unwrap();
    assert!((10..=20).contains(&value));
}
