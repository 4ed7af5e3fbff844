//! The candidate features of a tree split.
use vstd::prelude::*;
use rand::rngs::SmallRng;
use crate::rng::shuffle_small;

verus! {

/// The features a split may use: all of `0..n_features`, in order, or, when at most
/// `max_features` fewer than all are allowed, `max_features` distinct features drawn
/// at random (the first of a shuffle).
pub fn select_features(n_features: usize, max_features: Option<usize>, rng: &mut SmallRng) -> (r: Vec<usize>)
    ensures
        match max_features {
            Some(mf) if mf < n_features => {
                &&& r@.len() == mf
                &&& r@.no_duplicates()
                &&& forall|k: int| 0 <= k < r@.len() ==> #[trigger] r@[k] < n_features
            },
            _ => r@ == Seq::new(n_features as nat, |k: int| k as usize),
        },
{
    let mut features: Vec<usize> = Vec::new();
    let mut i: usize = 0;
    while i < n_features
        invariant
            i <= n_features,
            features@ == Seq::new(i as nat, |k: int| k as usize),
        decreases n_features - i,
    {
        features.push(i);
        i = i + 1;
        proof {
            assert(features@ =~= Seq::new(i as nat, |k: int| k as usize));
        }
    }
    if let Some(mf) = max_features {
        if mf < n_features {
            let ghost before = features@;
            proof {
                assert(before.no_duplicates());
            }
            shuffle_small(&mut features, rng);
            proof {
                crate::model_selection::lemma_permutation_keeps(before, features@, n_features as int);
            }
            features.truncate(mf);
            proof {
                assert forall|a: int, b: int| 0 <= a < b < features@.len() implies features@[a] != features@[b] by {
                }
            }
        }
    }
    features
}

} // verus!
