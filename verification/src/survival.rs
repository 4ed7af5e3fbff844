//! The bootstrap samples of a survival forest.
use vstd::prelude::*;
use crate::rng::{index_below_thread, thread_rng};

verus! {

/// One bootstrap sample of `n` rows per tree, drawn with the thread's generator: `n`
/// row indices drawn with replacement for each of the `n_estimators` trees.
pub fn bootstrap_samples(n_estimators: usize, n: usize) -> (r: Vec<Vec<usize>>)
    ensures
        r@.len() == n_estimators,
        forall|t: int| 0 <= t < n_estimators ==> (#[trigger] r@[t])@.len() == n,
        forall|t: int, k: int| 0 <= t < n_estimators && 0 <= k < n ==> #[trigger] r@[t]@[k] < n,
{
    let mut rng = thread_rng();
    let mut samples: Vec<Vec<usize>> = Vec::new();
    let mut t: usize = 0;
    while t < n_estimators
        invariant
            t <= n_estimators,
            samples@.len() == t,
            forall|a: int| 0 <= a < t ==> (#[trigger] samples@[a])@.len() == n,
            forall|a: int, k: int| 0 <= a < t && 0 <= k < n ==> #[trigger] samples@[a]@[k] < n,
        decreases n_estimators - t,
    {
        let mut r: Vec<usize> = Vec::new();
        let mut k: usize = 0;
        while k < n
            invariant
                k <= n,
                r@.len() == k,
                forall|m: int| 0 <= m < k ==> #[trigger] r@[m] < n,
            decreases n - k,
        {
            let j = index_below_thread(&mut rng, n);
            r.push(j);
            k = k + 1;
        }
        samples.push(r);
        t = t + 1;
    }
    samples
}

} // verus!
