use thermite_core::hyperband::{halving_schedule, HalvingRound};

#[test]
fn halving_rounds_shrink_the_field() {
    let r = halving_schedule(9, 10, 3, 100).unwrap();
    assert_eq!(
        r,
        vec![
            HalvingRound { resources: 10, n_active: 9, keep: 3 },
            HalvingRound { resources: 30, n_active: 3, keep: 1 },
        ]
    );
    let r = halving_schedule(16, 1, 2, 100).unwrap();
    let kept: Vec<usize> = r.iter().map(|x| x.keep).collect();
    let res: Vec<usize> = r.iter().map(|x| x.resources).collect();
    assert_eq!(kept, vec![8, 4, 2, 1]);
    assert_eq!(res, vec![1, 2, 4, 8]);
}

#[test]
fn halving_stops_when_samples_run_out() {
    // 10, then 30 samples of 40; the next round would need 90
    let r = halving_schedule(27, 10, 3, 40).unwrap();
    assert_eq!(r.len(), 2);
    assert_eq!(r[1].keep, 3);
    assert!(halving_schedule(5, 50, 2, 40).unwrap().is_empty());
    assert!(halving_schedule(1, 1, 2, 40).unwrap().is_empty());
}

#[test]
fn halving_refuses_resources_that_overflow() {
    // The first round trains on all samples; multiplying them by 2 overflows.
    assert!(halving_schedule(4, usize::MAX / 2 + 1, 2, usize::MAX).is_none());
    // A single round whose product still fits is fine, though the samples are many.
    let r = halving_schedule(2, 1, 2, usize::MAX).unwrap();
    assert_eq!(r, vec![HalvingRound { resources: 1, n_active: 2, keep: 1 }]);
}
