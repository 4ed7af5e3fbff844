use thermite_core::neighbors::{check_fit, Algorithm, NeighborsError, WeightType};

#[test]
fn test_weight_type_from_str() {
    assert_eq!(WeightType::from_str("uniform").unwrap(), WeightType::Uniform);
    assert_eq!(WeightType::from_str("distance").unwrap(), WeightType::Distance);
    assert!(WeightType::from_str("invalid").is_err());
}

#[test]
fn algorithm_names() {
    assert_eq!(Algorithm::from_str("brute").unwrap(), Algorithm::Brute);
    assert_eq!(Algorithm::from_str("auto").unwrap(), Algorithm::Brute);
    assert_eq!(Algorithm::from_str("kd_tree").unwrap(), Algorithm::KDTree);
    assert_eq!(Algorithm::from_str("ball_tree").unwrap(), Algorithm::KDTree);
    assert!(matches!(Algorithm::from_str("lsh"), Err(NeighborsError::UnknownAlgorithm(ref s)) if s == "lsh"));
    assert!(matches!(WeightType::from_str("Uniform"), Err(NeighborsError::UnknownWeightType(ref s)) if s == "Uniform"));
}

#[test]
fn fit_checks_in_order() {
    // an empty table
    assert!(matches!(check_fit(0, 2, true, 0, 3), Err(NeighborsError::EmptyInput)));
    assert!(matches!(check_fit(2, 0, true, 2, 1), Err(NeighborsError::EmptyInput)));
    assert!(matches!(check_fit(2, 2, false, 1, 3), Err(NeighborsError::NotFinite)));
    // 2 samples, 1 label
    assert!(matches!(check_fit(2, 2, true, 1, 3), Err(NeighborsError::LengthMismatch { n_samples: 2, n_labels: 1 })));
    // 5 neighbours of 1 sample
    assert!(matches!(check_fit(1, 2, true, 1, 5), Err(NeighborsError::TooFewSamples { n_neighbors: 5, n_samples: 1 })));
    assert!(check_fit(6, 2, true, 6, 3).is_ok());
}
