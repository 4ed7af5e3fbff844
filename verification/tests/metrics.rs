use thermite_core::metrics::{per_class_counts, MetricsError};

#[test]
fn per_class_counts_of_a_binary_problem() {
    let y_true = [0i64, 1, 1, 0, 1];
    let y_pred = [0i64, 1, 0, 1, 1];
    let s = per_class_counts(&[0, 1], &y_true, &y_pred).unwrap();
    assert_eq!(s.tp[&1], 2);
    assert_eq!(s.fp[&1], 1);
    assert_eq!(s.fn_[&1], 1);
    assert_eq!(s.support[&1], 3);
    assert_eq!(s.tp[&0], 1);
    assert_eq!(s.fp[&0], 1);
    assert_eq!(s.fn_[&0], 1);
    assert_eq!(s.support[&0], 2);
    // precision of the positive class: 2 / 3
    assert_eq!((s.tp[&1], s.tp[&1] + s.fp[&1]), (2, 3));
}

#[test]
fn per_class_counts_keep_unpredicted_classes() {
    let s = per_class_counts(&[0, 1, 2], &[0, 0], &[0, 5]).unwrap();
    assert_eq!(s.tp[&2], 0);
    assert_eq!(s.support[&2], 0);
    assert_eq!(s.fp[&5], 1);
    assert!(s.tp.get(&5).is_none());
}

#[test]
fn per_class_counts_refuse_bad_input() {
    assert!(matches!(per_class_counts(&[1], &[1, 2], &[1]), Err(MetricsError::LengthMismatch { n_true: 2, n_pred: 1 })));
    assert!(matches!(per_class_counts(&[], &[], &[]), Err(MetricsError::Empty)));
}
