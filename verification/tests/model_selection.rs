use thermite_core::model_selection::{
    compute_split_indices, determine_split_sizes, group_by_label, SplitError, SplitSize,
};

/// A fractional size, read as the library's callers read it: that share of the
/// samples, rounded to the nearest count.
fn fraction(n: usize, f: f64) -> SplitSize {
    SplitSize::Samples(((n as f64) * f).round() as usize)
}

#[test]
fn test_split_indices_basic() {
    let indices = compute_split_indices(100, Some(fraction(100, 0.20)), None, true, Some(42), None).unwrap();
    assert_eq!(indices.train_indices.len(), 80);
    assert_eq!(indices.test_indices.len(), 20);

    // Ensure no overlap
    for idx in &indices.train_indices {
        assert!(!indices.test_indices.contains(idx));
    }
}

#[test]
fn test_split_indices_stratified() {
    let labels: Vec<String> = (0..100)
        .map(|i| if i % 2 == 0 { "A" } else { "B" }.to_string())
        .collect();
    let indices =
        compute_split_indices(100, Some(fraction(100, 0.50)), None, true, Some(42), Some(&labels)).unwrap();

    assert_eq!(indices.train_indices.len(), 50);
    assert_eq!(indices.test_indices.len(), 50);

    let train_a = indices.train_indices.iter().filter(|&&i| labels[i] == "A").count();
    let test_a = indices.test_indices.iter().filter(|&&i| labels[i] == "A").count();
    assert_eq!(train_a, 25);
    assert_eq!(test_a, 25);
}

#[test]
fn default_sizes_hold_out_a_quarter() {
    assert_eq!(determine_split_sizes(100, None, None).unwrap(), (75, 25));
    // 2.5 rounds half away from zero
    assert_eq!(determine_split_sizes(10, None, None).unwrap(), (7, 3));
    assert_eq!(determine_split_sizes(6, None, None).unwrap(), (4, 2));
    assert_eq!(determine_split_sizes(10, Some(SplitSize::Samples(4)), None).unwrap(), (6, 4));
    assert_eq!(determine_split_sizes(10, None, Some(SplitSize::Samples(7))).unwrap(), (7, 3));
    assert_eq!(
        determine_split_sizes(10, Some(SplitSize::Samples(2)), Some(SplitSize::Samples(5))).unwrap(),
        (5, 2)
    );
}

#[test]
fn split_errors_are_reported() {
    assert!(matches!(compute_split_indices(0, None, None, true, Some(1), None), Err(SplitError::NoSamples)));
    assert!(matches!(
        determine_split_sizes(10, Some(SplitSize::NotPositive), None),
        Err(SplitError::TestSizeNotPositive)
    ));
    assert!(matches!(
        determine_split_sizes(10, None, Some(SplitSize::NotPositive)),
        Err(SplitError::TrainSizeNotPositive)
    ));
    assert!(matches!(
        determine_split_sizes(10, Some(SplitSize::Samples(3)), Some(SplitSize::NotPositive)),
        Err(SplitError::TrainSizeNotPositive)
    ));
    assert!(matches!(
        determine_split_sizes(10, Some(SplitSize::Samples(11)), None),
        Err(SplitError::TestSizeTooLarge { n_test: 11, n_samples: 10 })
    ));
    assert!(matches!(
        determine_split_sizes(10, None, Some(SplitSize::Samples(12))),
        Err(SplitError::TrainSizeTooLarge { n_train: 12, n_samples: 10 })
    ));
    assert!(matches!(
        determine_split_sizes(10, Some(SplitSize::Samples(6)), Some(SplitSize::Samples(5))),
        Err(SplitError::SumTooLarge { n_train: 5, n_test: 6, n_samples: 10 })
    ));
    assert!(matches!(
        determine_split_sizes(10, Some(SplitSize::Samples(10)), None),
        Err(SplitError::EmptySide)
    ));
    let labels: Vec<String> = vec!["a".to_string(); 3];
    assert!(matches!(
        compute_split_indices(4, None, None, true, Some(1), Some(&labels)),
        Err(SplitError::StratifyLengthMismatch)
    ));
}

#[test]
fn plain_split_without_shuffle_keeps_order() {
    let s = compute_split_indices(10, Some(SplitSize::Samples(3)), Some(SplitSize::Samples(5)), false, Some(1), None)
        .unwrap();
    assert_eq!(s.test_indices, vec![0, 1, 2]);
    assert_eq!(s.train_indices, vec![3, 4, 5, 6, 7]);
}

#[test]
fn stratified_split_uses_largest_remainders() {
    // A x5, B x3, C x2; 3 test and 7 training samples.
    let names = ["A", "A", "B", "A", "C", "B", "A", "C", "A", "B"];
    let labels: Vec<String> = names.iter().map(|s| s.to_string()).collect();
    for shuffle in [false, true] {
        let s = compute_split_indices(10, Some(SplitSize::Samples(3)), None, shuffle, Some(7), Some(&labels)).unwrap();
        let count = |v: &Vec<usize>, l: &str| v.iter().filter(|&&i| labels[i] == l).count();
        // test quotas 1.5, 0.9, 0.6: one each after the remainders are handed out
        assert_eq!(count(&s.test_indices, "A"), 1);
        assert_eq!(count(&s.test_indices, "B"), 1);
        assert_eq!(count(&s.test_indices, "C"), 1);
        // training quotas 3.5, 2.1, 1.4: the largest remainder (A) gets the last sample
        assert_eq!(count(&s.train_indices, "A"), 4);
        assert_eq!(count(&s.train_indices, "B"), 2);
        assert_eq!(count(&s.train_indices, "C"), 1);
        assert_eq!(s.test_indices.len(), 3);
        assert_eq!(s.train_indices.len(), 7);
        for idx in &s.train_indices {
            assert!(!s.test_indices.contains(idx));
        }
    }
}

#[test]
fn groups_follow_first_occurrence() {
    let labels: Vec<String> = ["b", "a", "b", "c", "a"].iter().map(|s| s.to_string()).collect();
    let groups = group_by_label(&labels);
    assert_eq!(groups, vec![vec![0, 2], vec![1, 4], vec![3]]);
}

#[test]
fn stratified_training_side_may_fall_short_of_its_size() {
    // Group sizes 38, 1, 1, 1, 1, 38, 1, 3: the single-sample groups take their
    // rounding remainder on the test side, leaving one training slot that no
    // group can fill.
    let sizes = [38usize, 1, 1, 1, 1, 38, 1, 3];
    let mut labels: Vec<String> = Vec::new();
    for (g, &size) in sizes.iter().enumerate() {
        for _ in 0..size {
            labels.push(format!("g{}", g));
        }
    }
    let n = labels.len();
    assert_eq!(n, 84);
    let indices = compute_split_indices(
        n,
        Some(SplitSize::Samples(59)),
        Some(SplitSize::Samples(22)),
        false,
        Some(0),
        Some(&labels),
    )
    .unwrap();
    assert_eq!(indices.test_indices.len(), 59);
    assert_eq!(indices.train_indices.len(), 21);
}

#[test]
fn stratified_leftovers_go_to_the_largest_remainders() {
    // Labels a x5, b x3, c x2. Test quotas of 3: 1.5, 0.9, 0.6, so b and c get the two
    // left over; training quotas of 7: 3.5, 2.1, 1.4, so a gets the one left over.
    let mut labels: Vec<String> = Vec::new();
    for (name, size) in [("a", 5usize), ("b", 3), ("c", 2)] {
        for _ in 0..size {
            labels.push(name.to_string());
        }
    }
    let indices = compute_split_indices(
        10,
        Some(SplitSize::Samples(3)),
        Some(SplitSize::Samples(7)),
        true,
        Some(7),
        Some(&labels),
    )
    .unwrap();
    let count = |list: &Vec<usize>, name: &str| list.iter().filter(|&&i| labels[i] == name).count();
    assert_eq!(
        [count(&indices.test_indices, "a"), count(&indices.test_indices, "b"), count(&indices.test_indices, "c")],
        [1, 1, 1]
    );
    assert_eq!(
        [count(&indices.train_indices, "a"), count(&indices.train_indices, "b"), count(&indices.train_indices, "c")],
        [4, 2, 1]
    );
}

#[test]
fn stratified_split_of_all_samples_fills_both_sides() {
    // Sizes 3, 3, 1 split 3 / 4: every sample lands on one side.
    let labels: Vec<String> = ["p", "q", "p", "r", "q", "p", "q"].iter().map(|s| s.to_string()).collect();
    let indices =
        compute_split_indices(7, Some(SplitSize::Samples(3)), None, true, Some(11), Some(&labels)).unwrap();
    assert_eq!(indices.test_indices.len(), 3);
    assert_eq!(indices.train_indices.len(), 4);
    let mut all: Vec<usize> = indices.train_indices.iter().chain(indices.test_indices.iter()).copied().collect();
    all.sort();
    assert_eq!(all, (0..7).collect::<Vec<usize>>());
}

#[test]
fn unshuffled_stratified_split_takes_the_first_samples_of_each_label() {
    let labels: Vec<String> = ["a", "b", "a", "a", "b"].iter().map(|s| s.to_string()).collect();
    let indices =
        compute_split_indices(5, Some(SplitSize::Samples(2)), None, false, Some(0), Some(&labels)).unwrap();
    let mut test = indices.test_indices.clone();
    let mut train = indices.train_indices.clone();
    test.sort();
    train.sort();
    assert_eq!(test, vec![0, 1]);
    assert_eq!(train, vec![2, 3, 4]);
}

#[test]
fn shuffled_split_is_not_the_identity_order() {
    let indices = compute_split_indices(100, Some(SplitSize::Samples(20)), None, true, Some(42), None).unwrap();
    let unshuffled: Vec<usize> = (0..20).collect();
    assert_ne!(indices.test_indices, unshuffled);
    let mut all: Vec<usize> = indices.test_indices.iter().chain(indices.train_indices.iter()).copied().collect();
    all.sort();
    assert_eq!(all, (0..100).collect::<Vec<usize>>());
}

#[test]
fn stratified_training_side_is_filled_when_samples_remain() {
    // A x3, B x3 with 1 test and 3 training samples: quotas 0.5 / 1.5 per label.
    let labels: Vec<String> = ["A", "A", "A", "B", "B", "B"].iter().map(|s| s.to_string()).collect();
    let indices = compute_split_indices(
        6,
        Some(SplitSize::Samples(1)),
        Some(SplitSize::Samples(3)),
        false,
        Some(0),
        Some(&labels),
    )
    .unwrap();
    assert_eq!(indices.test_indices.len(), 1);
    assert_eq!(indices.train_indices.len(), 3);
}
