use rand::rngs::SmallRng;
use rand::SeedableRng;
use thermite_core::tree::select_features;

#[test]
fn test_select_features() {
    let mut rng = SmallRng::seed_from_u64(42);
    let features = select_features(10, Some(5), &mut rng);
    assert_eq!(features.len(), 5);
    // All values should be in 0..10
    for &f in &features {
        assert!(f < 10);
    }
}

#[test]
fn test_select_features_no_limit() {
    let mut rng = SmallRng::seed_from_u64(42);
    let features = select_features(10, None, &mut rng);
    assert_eq!(features.len(), 10);
}

#[test]
fn select_features_keeps_all_when_the_limit_is_not_below() {
    let mut rng = SmallRng::seed_from_u64(3);
    assert_eq!(select_features(4, Some(4), &mut rng), vec![0, 1, 2, 3]);
    assert_eq!(select_features(4, Some(9), &mut rng), vec![0, 1, 2, 3]);
    let mut drawn = select_features(6, Some(3), &mut rng);
    drawn.sort();
    drawn.dedup();
    assert_eq!(drawn.len(), 3);
}
