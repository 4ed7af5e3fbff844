use thermite_core::ensemble::{bootstrap_indices, majority_vote, tree_max_features, tree_seed};

#[test]
fn tree_seeds_wrap_around() {
    assert_eq!(tree_seed(10, 3), 13);
    assert_eq!(tree_seed(u64::MAX, 2), 1);
}

#[test]
fn bootstrap_draws_valid_rows() {
    let b = bootstrap_indices(50, 42);
    assert_eq!(b.len(), 50);
    assert!(b.iter().all(|&i| i < 50));
    // the same seed gives the same sample
    assert_eq!(b, bootstrap_indices(50, 42));
    assert!(bootstrap_indices(0, 1).is_empty());
}

#[test]
fn candidate_feature_counts() {
    // ceil(sqrt(10)) = 4 for a classifier, all 10 for a regressor
    assert_eq!(tree_max_features(10, None, true), 4);
    assert_eq!(tree_max_features(9, None, true), 3);
    assert_eq!(tree_max_features(10, None, false), 10);
    assert_eq!(tree_max_features(0, None, true), 1);
    assert_eq!(tree_max_features(0, None, false), 1);
    assert_eq!(tree_max_features(10, Some(0), true), 1);
    assert_eq!(tree_max_features(10, Some(7), false), 7);
}

#[test]
fn majority_vote_picks_the_most_frequent() {
    let v: Vec<u64> = [1.0f64, 2.0, 2.0, 3.0, 2.0, 1.0].iter().map(|x| x.to_bits()).collect();
    assert_eq!(f64::from_bits(majority_vote(&v)), 2.0);
    // a tie goes to the value met first
    let t: Vec<u64> = vec![5, 7, 7, 5];
    assert_eq!(majority_vote(&t), 5);
    assert_eq!(majority_vote(&vec![9]), 9);
}
