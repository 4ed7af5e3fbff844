//! The integer decisions of the random forests: the seeds and bootstrap samples of the
//! trees, the default number of candidate features, and the majority vote.
use vstd::prelude::*;
use crate::rng::{index_below_small, small_rng_from_seed};

verus! {

/// The seed of tree `i` of a forest seeded with `base`: `base + i`, wrapping around.
pub fn tree_seed(base: u64, i: usize) -> (r: u64)
    ensures
        r as int == (base as int + i as int) % 0x1_0000_0000_0000_0000,
{
    let k: u64 = i as u64;
    base.wrapping_add(k)
}

/// A bootstrap sample of `n` rows: `n` row indices drawn with replacement from a
/// generator seeded with `seed`.
pub fn bootstrap_indices(n: usize, seed: u64) -> (r: Vec<usize>)
    ensures
        r@.len() == n,
        forall|k: int| 0 <= k < n ==> #[trigger] r@[k] < n,
{
    let mut rng = small_rng_from_seed(seed);
    let mut r: Vec<usize> = Vec::new();
    let mut k: usize = 0;
    while k < n
        invariant
            k <= n,
            r@.len() == k,
            forall|m: int| 0 <= m < k ==> #[trigger] r@[m] < n,
        decreases n - k,
    {
        let j = index_below_small(&mut rng, n);
        r.push(j);
        k = k + 1;
    }
    r
}

/// The smallest `k` with `k * k >= n`.
pub open spec fn is_ceil_sqrt(n: int, k: int) -> bool {
    &&& k >= 0
    &&& k * k >= n
    &&& k == 0 || (k - 1) * (k - 1) < n
}

/// The number of candidate features of each tree: `max_features` when given, else the
/// square root of `n_features` rounded up for a classifier and `n_features` for a
/// regressor; at least one.
pub fn tree_max_features(n_features: usize, max_features: Option<usize>, classifier: bool) -> (r: usize)
    ensures
        match max_features {
            Some(m) => r == if m >= 1 { m } else { 1 },
            None => if classifier {
                exists|k: int| is_ceil_sqrt(n_features as int, k) && r == if k >= 1 { k } else { 1 }
            } else {
                r == if n_features >= 1 { n_features } else { 1 }
            },
        },
{
    let m = match max_features {
        Some(m) => m,
        None => if classifier {
            ceil_sqrt(n_features)
        } else {
            n_features
        },
    };
    if m >= 1 {
        m
    } else {
        1
    }
}

/// The smallest `k` with `k * k >= n`.
fn ceil_sqrt(n: usize) -> (k: usize)
    ensures
        is_ceil_sqrt(n as int, k as int),
{
    let mut k: u64 = 0;
    let target: u128 = n as u128;
    let mut sq: u128 = 0;
    while sq < target
        invariant
            sq == k * k,
            k <= 0x1_0000_0000u64,
            k == 0 || (k - 1) * (k - 1) < n,
            target == n,
            n <= usize::MAX,
        decreases 0x1_0000_0001u64 - k,
    {
        proof {
            assert(k < 0x1_0000_0000u64) by (nonlinear_arith)
                requires
                    k * k < n,
                    n <= 0xffff_ffff_ffff_ffffu64,
                    k <= 0x1_0000_0000u64,
            ;
        }
        k = k + 1;
        proof {
            assert(k * k <= 0x1_0000_0000_0000_0000u128) by (nonlinear_arith)
                requires
                    k <= 0x1_0000_0000u64,
            ;
        }
        sq = (k as u128) * (k as u128);
    }
    proof {
        assert(k as int <= usize::MAX) by (nonlinear_arith)
            requires
                k == 0 || (k - 1) * (k - 1) < n,
                n <= usize::MAX,
                k <= 0x1_0000_0000u64,
        ;
    }
    k as usize
}

/// The number of times `v` occurs in `s`.
pub open spec fn occurrences(s: Seq<u64>, v: u64) -> int
    decreases s.len(),
{
    if s.len() == 0 {
        0
    } else {
        occurrences(s.drop_last(), v) + if s.last() == v {
            1int
        } else {
            0int
        }
    }
}

proof fn lemma_occurrences_step(s: Seq<u64>, k: int, v: u64)
    requires
        0 <= k < s.len(),
    ensures
        occurrences(s.take(k + 1), v) == occurrences(s.take(k), v) + if s[k] == v {
            1int
        } else {
            0int
        },
{
    assert(s.take(k + 1).drop_last() =~= s.take(k));
}

proof fn lemma_occurrences_absent(s: Seq<u64>, v: u64)
    requires
        !s.contains(v),
    ensures
        occurrences(s, v) == 0,
    decreases s.len(),
{
    if s.len() > 0 {
        assert(!s.drop_last().contains(v)) by {
            if s.drop_last().contains(v) {
                let k = choose|k: int| 0 <= k < s.drop_last().len() && s.drop_last()[k] == v;
                assert(s[k] == v);
            }
        }
        lemma_occurrences_absent(s.drop_last(), v);
        assert(s[s.len() - 1] != v);
    }
}

/// How often `v` occurs in `s`, counted.
fn count_of(s: &Vec<u64>, v: u64) -> (c: usize)
    ensures
        c == occurrences(s@, v),
{
    let mut c: usize = 0;
    let mut j: usize = 0;
    while j < s.len()
        invariant
            j <= s@.len(),
            c == occurrences(s@.take(j as int), v),
            c <= j,
        decreases s@.len() - j,
    {
        proof {
            lemma_occurrences_step(s@, j as int, v);
        }
        if s[j] == v {
            c = c + 1;
        }
        j = j + 1;
    }
    proof {
        assert(s@.take(j as int) =~= s@);
    }
    c
}

/// The value voted for most often (labels given by their bit patterns); of several
/// equally frequent values, the first to occur.
pub fn majority_vote(votes: &Vec<u64>) -> (r: u64)
    requires
        votes@.len() > 0,
    ensures
        votes@.contains(r),
        forall|v: u64| occurrences(votes@, v) <= occurrences(votes@, r),
        exists|i: int|
            0 <= i < votes@.len() && votes@[i] == r && forall|k: int|
                0 <= k < i ==> occurrences(votes@, #[trigger] votes@[k]) < occurrences(votes@, r),
{
    let mut best = votes[0];
    let mut best_idx: usize = 0;
    let mut best_count = count_of(votes, best);
    let mut i: usize = 1;
    while i < votes.len()
        invariant
            1 <= i <= votes@.len(),
            best_idx < i,
            votes@[best_idx as int] == best,
            best_count == occurrences(votes@, best),
            forall|k: int| 0 <= k < i ==> occurrences(votes@, #[trigger] votes@[k]) <= best_count,
            forall|k: int| 0 <= k < best_idx ==> occurrences(votes@, #[trigger] votes@[k]) < best_count,
        decreases votes@.len() - i,
    {
        let c = count_of(votes, votes[i]);
        if c > best_count {
            best = votes[i];
            best_idx = i;
            best_count = c;
        }
        i = i + 1;
    }
    proof {
        assert(votes@.contains(best));
        assert forall|v: u64| occurrences(votes@, v) <= occurrences(votes@, best) by {
            if votes@.contains(v) {
                let k = choose|k: int| 0 <= k < votes@.len() && votes@[k] == v;
                assert(occurrences(votes@, votes@[k]) <= best_count);
            } else {
                lemma_occurrences_absent(votes@, v);
            }
        }
    }
    best
}

} // verus!
