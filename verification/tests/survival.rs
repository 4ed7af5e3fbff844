use thermite_core::survival::bootstrap_samples;

#[test]
fn survival_bootstrap_draws_rows() {
    let b = bootstrap_samples(3, 7);
    assert_eq!(b.len(), 3);
    for sample in &b {
        assert_eq!(sample.len(), 7);
        assert!(sample.iter().all(|&i| i < 7));
    }
    assert!(bootstrap_samples(2, 0).iter().all(|s| s.is_empty()));
    assert!(bootstrap_samples(0, 5).is_empty());
}
