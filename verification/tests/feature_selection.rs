use thermite_core::feature_selection::{select_columns, sequential_support, FeatureSelectionError, RFE};
use thermite_core::table::Table;

#[test]
fn rfe_drops_the_least_important_step_by_step() {
    // importances |x0| = [0.5, 3.0, 4.0, 0.1, 1.0]: least important first
    let order = [3usize, 0, 4, 1, 2];
    let mut rfe = RFE::new(2, 2);
    rfe.fit(5, &order);
    // round one drops features 3 and 0 with five left, round two drops 4 with three left
    assert_eq!(rfe.support_.as_ref().unwrap(), &vec![false, true, true, false, false]);
    assert_eq!(rfe.ranking_.as_ref().unwrap(), &vec![5, 1, 1, 5, 3]);

    let x = Table { n_cols: 5, rows: vec![vec![0.5f64, 3.0, 4.0, 0.1, 1.0], vec![1.0, 2.0, 3.0, 4.0, 5.0]] };
    let t = rfe.transform(&x, 0.0).unwrap();
    assert_eq!(t.n_cols, 2);
    assert_eq!(t.rows, vec![vec![3.0, 4.0], vec![2.0, 3.0]]);
}

#[test]
fn rfe_keeps_everything_when_asked_for_more() {
    let mut rfe = RFE::new(4, 0);
    rfe.fit(3, &[2, 1, 0]);
    assert_eq!(rfe.support_.as_ref().unwrap(), &vec![true, true, true]);
    assert_eq!(rfe.ranking_.as_ref().unwrap(), &vec![1, 1, 1]);
}

#[test]
fn unfitted_rfe_refuses_to_transform() {
    let rfe = RFE::new(1, 1);
    let x: Table<f64> = Table { n_cols: 1, rows: vec![vec![1.0]] };
    assert!(matches!(rfe.transform(&x, 0.0), Err(FeatureSelectionError::NotFitted)));
}

#[test]
fn sequential_selector_takes_the_first_features() {
    assert_eq!(sequential_support(5, None), vec![true, true, false, false, false]);
    assert_eq!(sequential_support(5, Some(3)), vec![true, true, true, false, false]);
    assert_eq!(sequential_support(3, Some(9)), vec![true, true, true]);
}

#[test]
fn columns_beyond_the_table_are_filled() {
    let x = Table { n_cols: 2, rows: vec![vec![1i64, 2], vec![3, 4]] };
    let t = select_columns(&vec![true, false, true], &x, -1);
    assert_eq!(t.n_cols, 2);
    assert_eq!(t.rows, vec![vec![1, -1], vec![3, -1]]);
}
