//! Train/test splitting of sample indices, plain or stratified by label.
use vstd::prelude::*;
use rand::rngs::SmallRng;
use crate::rng::{shuffle_small, small_rng_from_entropy, small_rng_from_seed};
use vstd::hash_map::StringHashMap;

verus! {

/// The indices of the training samples and of the test samples.
#[derive(Debug, Clone)]
pub struct SplitIndices {
    pub train_indices: Vec<usize>,
    pub test_indices: Vec<usize>,
}

/// A size argument, read as the number of samples it asks for: a count of at least
/// one is taken as it is, a fraction in (0, 1) as that share of the samples rounded to
/// the nearest count.
#[derive(Debug, Clone, Copy)]
pub enum SplitSize {
    Samples(usize),
    /// A size that is neither at least 1 nor a fraction in (0, 1).
    NotPositive,
}

/// Why a split was refused.
#[derive(Debug)]
pub enum SplitError {
    NoSamples,
    TestSizeNotPositive,
    TrainSizeNotPositive,
    TestSizeTooLarge { n_test: usize, n_samples: usize },
    TrainSizeTooLarge { n_train: usize, n_samples: usize },
    SumTooLarge { n_train: usize, n_test: usize, n_samples: usize },
    EmptySide,
    StratifyLengthMismatch,
}

/// The share of the samples held out for testing when no size is given: a quarter,
/// rounded half up.
pub open spec fn default_test_count(n: int) -> int {
    (n + 2) / 4
}

/// The sizes `(n_train, n_test)` that the size arguments ask for, or why they are refused.
pub open spec fn split_sizes(n: usize, test: Option<SplitSize>, train: Option<SplitSize>) -> Result<
    (usize, usize),
    SplitError,
> {
    let r: Result<(usize, usize), SplitError> = match (test, train) {
        (None, None) => Ok(((n - default_test_count(n as int)) as usize, default_test_count(n as int) as usize)),
        (Some(SplitSize::NotPositive), _) => Err(SplitError::TestSizeNotPositive),
        (Some(SplitSize::Samples(t)), None) => if t > n {
            Err(SplitError::TestSizeTooLarge { n_test: t, n_samples: n })
        } else {
            Ok(((n - t) as usize, t))
        },
        (None, Some(SplitSize::NotPositive)) => Err(SplitError::TrainSizeNotPositive),
        (None, Some(SplitSize::Samples(r))) => if r > n {
            Err(SplitError::TrainSizeTooLarge { n_train: r, n_samples: n })
        } else {
            Ok((r, (n - r) as usize))
        },
        (Some(SplitSize::Samples(_)), Some(SplitSize::NotPositive)) => Err(
            SplitError::TrainSizeNotPositive,
        ),
        (Some(SplitSize::Samples(t)), Some(SplitSize::Samples(r))) => if t + r > n {
            Err(SplitError::SumTooLarge { n_train: r, n_test: t, n_samples: n })
        } else {
            Ok((r, t))
        },
    };
    match r {
        Ok((a, b)) => if a == 0 || b == 0 {
            Err(SplitError::EmptySide)
        } else {
            r
        },
        Err(_) => r,
    }
}

/// Resolves the size arguments into `(n_train, n_test)`.
pub fn determine_split_sizes(
    n_samples: usize,
    test_size: Option<SplitSize>,
    train_size: Option<SplitSize>,
) -> (r: Result<(usize, usize), SplitError>)
    ensures
        r == split_sizes(n_samples, test_size, train_size),
{
    let sizes = match (test_size, train_size) {
        (None, None) => {
            let n_test = n_samples / 4 + if n_samples % 4 >= 2 {
                1
            } else {
                0
            };
            Ok((n_samples - n_test, n_test))
        },
        (Some(SplitSize::NotPositive), _) => Err(SplitError::TestSizeNotPositive),
        (Some(SplitSize::Samples(t)), None) => {
            if t > n_samples {
                Err(SplitError::TestSizeTooLarge { n_test: t, n_samples })
            } else {
                Ok((n_samples - t, t))
            }
        },
        (None, Some(SplitSize::NotPositive)) => Err(SplitError::TrainSizeNotPositive),
        (None, Some(SplitSize::Samples(r))) => {
            if r > n_samples {
                Err(SplitError::TrainSizeTooLarge { n_train: r, n_samples })
            } else {
                Ok((r, n_samples - r))
            }
        },
        (Some(SplitSize::Samples(_)), Some(SplitSize::NotPositive)) => Err(
            SplitError::TrainSizeNotPositive,
        ),
        (Some(SplitSize::Samples(t)), Some(SplitSize::Samples(r))) => {
            if t > n_samples || r > n_samples - t {
                Err(SplitError::SumTooLarge { n_train: r, n_test: t, n_samples })
            } else {
                Ok((r, t))
            }
        },
    };
    match sizes {
        Ok((a, b)) => if a == 0 || b == 0 {
            Err(SplitError::EmptySide)
        } else {
            Ok((a, b))
        },
        Err(e) => Err(e),
    }
}

/// The two index lists name samples below `n`, none twice and none in both.
pub open spec fn valid_split(n: int, train: Seq<usize>, test: Seq<usize>) -> bool {
    &&& forall|k: int| 0 <= k < train.len() ==> #[trigger] train[k] < n
    &&& forall|k: int| 0 <= k < test.len() ==> #[trigger] test[k] < n
    &&& (train + test).no_duplicates()
}

/// Splits `0..n_samples` into `n_test` test indices and `n_train` training indices:
/// the first `n_test` of the (shuffled, if asked) indices go to test, the next
/// `n_train` to training.
pub fn split_plain(n_samples: usize, n_train: usize, n_test: usize, shuffle: bool, rng: &mut SmallRng)
    -> (r: SplitIndices)
    requires
        n_train + n_test <= n_samples,
    ensures
        r.test_indices@.len() == n_test,
        r.train_indices@.len() == n_train,
        valid_split(n_samples as int, r.train_indices@, r.test_indices@),
        !shuffle ==> (forall|k: int| 0 <= k < n_test ==> #[trigger] r.test_indices@[k] == k) && (
        forall|k: int| 0 <= k < n_train ==> #[trigger] r.train_indices@[k] == n_test + k),
{
    let mut indices: Vec<usize> = Vec::new();
    let mut i: usize = 0;
    while i < n_samples
        invariant
            i <= n_samples,
            indices@.len() == i,
            forall|k: int| 0 <= k < i ==> #[trigger] indices@[k] == k,
        decreases n_samples - i,
    {
        indices.push(i);
        i = i + 1;
    }
    proof {
        assert(indices@.no_duplicates());
    }
    let ghost before = indices@;
    if shuffle {
        shuffle_small(&mut indices, rng);
        proof {
            lemma_permutation_keeps(before, indices@, n_samples as int);
        }
    }
    let mut test_indices: Vec<usize> = Vec::new();
    let mut train_indices: Vec<usize> = Vec::new();
    let mut k: usize = 0;
    while k < n_test
        invariant
            k <= n_test,
            n_train + n_test <= n_samples,
            indices@.len() == n_samples,
            test_indices@ == indices@.subrange(0, k as int),
        decreases n_test - k,
    {
        test_indices.push(indices[k]);
        k = k + 1;
    }
    let mut k: usize = 0;
    while k < n_train
        invariant
            k <= n_train,
            n_train + n_test <= n_samples,
            indices@.len() == n_samples,
            train_indices@ == indices@.subrange(n_test as int, n_test + k),
        decreases n_train - k,
    {
        train_indices.push(indices[n_test + k]);
        k = k + 1;
    }
    proof {
        let all = indices@;
        assert(train_indices@ + test_indices@ =~= all.subrange(n_test as int, (n_test + n_train) as int)
            + all.subrange(0, n_test as int));
        lemma_two_slices_distinct(all, n_test as int, (n_test + n_train) as int);
        assert(indices@.no_duplicates());
        assert(forall|k: int| 0 <= k < all.len() ==> #[trigger] all[k] < n_samples);
    }
    SplitIndices { train_indices, test_indices }
}

/// A permutation of distinct indices below `n` stays distinct and below `n`.
pub(crate) proof fn lemma_permutation_keeps(before: Seq<usize>, after: Seq<usize>, n: int)
    requires
        before.no_duplicates(),
        forall|k: int| 0 <= k < before.len() ==> #[trigger] before[k] < n,
        after.to_multiset() == before.to_multiset(),
    ensures
        after.no_duplicates(),
        forall|k: int| 0 <= k < after.len() ==> #[trigger] after[k] < n,
{
    broadcast use vstd::seq_lib::group_to_multiset_ensures;

    before.lemma_multiset_has_no_duplicates();
    assert forall|x: usize| after.to_multiset().contains(x) implies after.to_multiset().count(x) == 1 by {
    }
    after.lemma_multiset_has_no_duplicates_conv();
    assert forall|k: int| 0 <= k < after.len() implies #[trigger] after[k] < n by {
        assert(after.contains(after[k]));
        assert(after.to_multiset().count(after[k]) > 0);
        assert(before.to_multiset().count(after[k]) > 0);
        assert(before.contains(after[k]));
    }
}

/// Two non-overlapping slices of a sequence without repeats, put together, have no repeats.
proof fn lemma_two_slices_distinct(s: Seq<usize>, m: int, e: int)
    requires
        s.no_duplicates(),
        0 <= m <= e <= s.len(),
    ensures
        (s.subrange(m, e) + s.subrange(0, m)).no_duplicates(),
{
    let t = s.subrange(m, e) + s.subrange(0, m);
    assert forall|a: int, b: int| 0 <= a < b < t.len() implies t[a] != t[b] by {
        let ia = if a < e - m { a + m } else { a - (e - m) };
        let ib = if b < e - m { b + m } else { b - (e - m) };
        assert(t[a] == s[ia]);
        assert(t[b] == s[ib]);
    }
}

/// The total number of indices in the groups.
pub open spec fn total_len(groups: Seq<Vec<usize>>) -> int
    decreases groups.len(),
{
    if groups.len() == 0 {
        0
    } else {
        total_len(groups.drop_last()) + groups.last()@.len()
    }
}

proof fn lemma_total_len_update(groups: Seq<Vec<usize>>, g: int, v: Vec<usize>)
    requires
        0 <= g < groups.len(),
    ensures
        total_len(groups.update(g, v)) == total_len(groups) - groups[g]@.len() + v@.len(),
    decreases groups.len(),
{
    let u = groups.update(g, v);
    if g == groups.len() - 1 {
        assert(u.drop_last() =~= groups.drop_last());
    } else {
        assert(u.drop_last() =~= groups.drop_last().update(g, v));
        lemma_total_len_update(groups.drop_last(), g, v);
    }
}

proof fn lemma_total_len_push(groups: Seq<Vec<usize>>, v: Vec<usize>)
    ensures
        total_len(groups.push(v)) == total_len(groups) + v@.len(),
{
    assert(groups.push(v).drop_last() =~= groups);
}

/// Index `i` is in one of the groups.
pub open spec fn grouped(groups: Seq<Vec<usize>>, i: int) -> bool {
    exists|g: int, k: int| 0 <= g < groups.len() && 0 <= k < groups[g]@.len() && #[trigger] groups[g]@[k] == i
}

/// The number of labels equal to `key`.
pub open spec fn count_key(labels: Seq<String>, key: Seq<char>) -> int
    decreases labels.len(),
{
    if labels.len() == 0 {
        0
    } else {
        count_key(labels.drop_last(), key) + if labels.last()@ == key {
            1int
        } else {
            0int
        }
    }
}

proof fn lemma_count_key_step(labels: Seq<String>, i: int, key: Seq<char>)
    requires
        0 <= i < labels.len(),
    ensures
        count_key(labels.take(i + 1), key) == count_key(labels.take(i), key) + if labels[i]@ == key {
            1int
        } else {
            0int
        },
{
    assert(labels.take(i + 1).drop_last() =~= labels.take(i));
}

/// A label that occurs is counted.
proof fn lemma_count_key_zero(labels: Seq<String>, key: Seq<char>, j: int)
    requires
        0 <= j < labels.len(),
        labels[j]@ == key,
    ensures
        count_key(labels, key) > 0,
    decreases labels.len(),
{
    if j < labels.len() - 1 {
        lemma_count_key_zero(labels.drop_last(), key, j);
    }
    lemma_count_key_nonneg(labels.drop_last(), key);
}

proof fn lemma_count_key_nonneg(labels: Seq<String>, key: Seq<char>)
    ensures
        count_key(labels, key) >= 0,
    decreases labels.len(),
{
    if labels.len() > 0 {
        lemma_count_key_nonneg(labels.drop_last(), key);
    }
}

/// The number of samples before sample `x` with the label of `x`.
pub open spec fn rank_in_label(labels: Seq<String>, x: int) -> int {
    count_key(labels.take(x), labels[x]@)
}

/// The groups gather the indices of equal labels: each group is a non-empty increasing
/// list of indices with one label, different groups have different labels, and every
/// index is in a group, at the position of its rank among the samples of its label.
pub open spec fn groups_by_label(labels: Seq<String>, groups: Seq<Vec<usize>>) -> bool {
    &&& forall|g: int| 0 <= g < groups.len() ==> (#[trigger] groups[g])@.len() > 0
    &&& forall|g: int, k: int|
        0 <= g < groups.len() && 0 <= k < groups[g]@.len() ==> #[trigger] groups[g]@[k] < labels.len()
            && labels[groups[g]@[k] as int]@ == labels[groups[g]@[0] as int]@
    &&& forall|g: int, a: int, b: int|
        0 <= g < groups.len() && 0 <= a < b < groups[g]@.len() ==> #[trigger] groups[g]@[a]
            < #[trigger] groups[g]@[b]
    &&& forall|g: int, h: int|
        0 <= g < h < groups.len() ==> labels[(#[trigger] groups[g])@[0] as int]@ != labels[(
        #[trigger] groups[h])@[0] as int]@
    &&& forall|i: int| 0 <= i < labels.len() ==> #[trigger] grouped(groups, i)
    &&& total_len(groups) == labels.len()
    &&& forall|g: int| 0 <= g < groups.len() ==> (#[trigger] groups[g])@.len() == count_key(labels, labels[groups[g]@[0] as int]@)
    &&& forall|g: int, k: int|
        0 <= g < groups.len() && 0 <= k < groups[g]@.len() ==> rank_in_label(labels, #[trigger] groups[g]@[k] as int) == k
}

/// Groups the sample indices by label, groups in the order of their first sample.
pub fn group_by_label(labels: &[String]) -> (groups: Vec<Vec<usize>>)
    ensures
        groups_by_label(labels@, groups@),
{
    let n = labels.len();
    let mut index: StringHashMap<usize> = StringHashMap::new();
    let mut groups: Vec<Vec<usize>> = Vec::new();
    let mut i: usize = 0;
    while i < n
        invariant
            n == labels@.len(),
            i <= n,
            forall|g: int| 0 <= g < groups@.len() ==> (#[trigger] groups@[g])@.len() > 0,
            forall|g: int, k: int|
                0 <= g < groups@.len() && 0 <= k < groups@[g]@.len() ==> #[trigger] groups@[g]@[k] < i
                    && labels@[groups@[g]@[k] as int]@ == labels@[groups@[g]@[0] as int]@,
            forall|g: int, a: int, b: int|
                0 <= g < groups@.len() && 0 <= a < b < groups@[g]@.len() ==> #[trigger] groups@[g]@[a]
                    < #[trigger] groups@[g]@[b],
            forall|g: int, h: int|
                0 <= g < h < groups@.len() ==> labels@[(#[trigger] groups@[g])@[0] as int]@ != labels@[(
                #[trigger] groups@[h])@[0] as int]@,
            forall|j: int| 0 <= j < i ==> #[trigger] grouped(groups@, j),
            total_len(groups@) == i,
            // the index maps each label seen so far to its group
            forall|key: Seq<char>| #[trigger] index@.contains_key(key) ==> {
                let g = index@[key] as int;
                0 <= g < groups@.len() && labels@[groups@[g]@[0] as int]@ == key
            },
            forall|g: int| 0 <= g < groups@.len() ==> index@.contains_key(labels@[(#[trigger] groups@[g])@[0] as int]@),
            forall|g: int| 0 <= g < groups@.len() ==> (#[trigger] groups@[g])@.len() == count_key(labels@.take(i as int), labels@[groups@[g]@[0] as int]@),
            forall|key: Seq<char>| !index@.contains_key(key) ==> #[trigger] count_key(labels@.take(i as int), key) == 0,
            forall|g: int, k: int|
                0 <= g < groups@.len() && 0 <= k < groups@[g]@.len() ==> rank_in_label(labels@, #[trigger] groups@[g]@[k] as int)
                    == k,
        decreases n - i,
    {
        let label = &labels[i];
        proof {
            assert forall|key: Seq<char>| #[trigger] count_key(labels@.take(i + 1), key) == count_key(labels@.take(i as int), key) + if labels@[i as int]@ == key {
                1int
            } else {
                0int
            } by {
                lemma_count_key_step(labels@, i as int, key);
            }
        }
        let found = match index.get(label.as_str()) {
            Some(g) => Some(*g),
            None => None,
        };
        let ghost old_groups = groups@;
        match found {
            Some(g) => {
                proof {
                    assert(index@.contains_key(labels@[i as int]@));
                }
                groups[g].push(i);
                proof {
                    assert(groups@ =~= old_groups.update(g as int, groups@[g as int]));
                    assert forall|gg: int, k: int|
                        0 <= gg < groups@.len() && 0 <= k < groups@[gg]@.len() implies rank_in_label(
                        labels@,
                        #[trigger] groups@[gg]@[k] as int,
                    ) == k by {
                        if gg == g && k == old_groups[gg]@.len() {
                            assert(groups@[gg]@[k] == i);
                            assert(labels@[old_groups[gg]@[0] as int]@ == labels@[i as int]@);
                        } else {
                            assert(groups@[gg]@[k] == old_groups[gg]@[k]);
                        }
                    }
                    lemma_total_len_update(old_groups, g as int, groups@[g as int]);
                    assert forall|j: int| 0 <= j < i + 1 implies #[trigger] grouped(groups@, j) by {
                        if j == i {
                            assert(groups@[g as int]@[groups@[g as int]@.len() - 1] == j);
                        } else {
                            assert(grouped(old_groups, j));
                            let (gg, k) = choose|gg: int, k: int|
                                0 <= gg < old_groups.len() && 0 <= k < old_groups[gg]@.len() && #[trigger] old_groups[gg]@[k] == j;
                            assert(groups@[gg]@[k] == j);
                        }
                    }
                    assert forall|gg: int, h: int|
                        0 <= gg < h < groups@.len() implies labels@[(#[trigger] groups@[gg])@[0] as int]@ != labels@[(
                        #[trigger] groups@[h])@[0] as int]@ by {
                        assert(groups@[gg]@[0] == old_groups[gg]@[0]);
                        assert(groups@[h]@[0] == old_groups[h]@[0]);
                    }
                    assert forall|gg: int| 0 <= gg < groups@.len() implies index@.contains_key(labels@[(#[trigger] groups@[gg])@[0] as int]@) by {
                        assert(groups@[gg]@[0] == old_groups[gg]@[0]);
                    }
                    assert forall|key: Seq<char>| #[trigger] index@.contains_key(key) implies {
                        let gg = index@[key] as int;
                        0 <= gg < groups@.len() && labels@[groups@[gg]@[0] as int]@ == key
                    } by {
                        let gg = index@[key] as int;
                        assert(groups@[gg]@[0] == old_groups[gg]@[0]);
                    }
                    assert forall|gg: int| 0 <= gg < groups@.len() implies (#[trigger] groups@[gg])@.len() == count_key(labels@.take(i + 1), labels@[groups@[gg]@[0] as int]@) by {
                        assert(groups@[gg]@[0] == old_groups[gg]@[0]);
                        let kk = labels@[groups@[gg]@[0] as int]@;
                        assert(count_key(labels@.take(i + 1), kk) == count_key(labels@.take(i as int), kk) + if labels@[i as int]@ == kk {
                            1int
                        } else {
                            0int
                        });
                        if gg != g {
                            if labels@[i as int]@ == kk {
                                if gg < g {
                                    assert(labels@[old_groups[gg]@[0] as int]@ != labels@[old_groups[g as int]@[0] as int]@);
                                } else {
                                    assert(labels@[old_groups[g as int]@[0] as int]@ != labels@[old_groups[gg]@[0] as int]@);
                                }
                            }
                        }
                    }
                    assert forall|key: Seq<char>| !index@.contains_key(key) implies #[trigger] count_key(labels@.take(i + 1), key) == 0 by {
                        assert(count_key(labels@.take(i + 1), key) == count_key(labels@.take(i as int), key) + if labels@[i as int]@ == key {
                            1int
                        } else {
                            0int
                        });
                    }
                }
            },
            None => {
                let mut v: Vec<usize> = Vec::new();
                v.push(i);
                let ghost old_index = index@;
                index.insert(label.clone(), groups.len());
                groups.push(v);
                proof {
                    lemma_total_len_push(old_groups, v);
                    assert(!old_index.contains_key(labels@[i as int]@));
                    assert forall|j: int| 0 <= j < i + 1 implies #[trigger] grouped(groups@, j) by {
                        if j == i {
                            assert(groups@[old_groups.len() as int]@[0] == j);
                        } else {
                            assert(grouped(old_groups, j));
                            let (gg, k) = choose|gg: int, k: int|
                                0 <= gg < old_groups.len() && 0 <= k < old_groups[gg]@.len() && #[trigger] old_groups[gg]@[k] == j;
                            assert(groups@[gg]@[k] == j);
                        }
                    }
                    assert forall|gg: int, h: int|
                        0 <= gg < h < groups@.len() implies labels@[(#[trigger] groups@[gg])@[0] as int]@ != labels@[(
                        #[trigger] groups@[h])@[0] as int]@ by {
                        if h == old_groups.len() {
                            assert(old_index.contains_key(labels@[old_groups[gg]@[0] as int]@));
                        }
                    }
                    let ki = labels@[i as int]@;
                    assert(count_key(labels@.take(i as int), ki) == 0);
                    assert forall|gg: int, k: int|
                        0 <= gg < groups@.len() && 0 <= k < groups@[gg]@.len() implies rank_in_label(
                        labels@,
                        #[trigger] groups@[gg]@[k] as int,
                    ) == k by {
                        if gg < old_groups.len() {
                            assert(groups@[gg]@[k] == old_groups[gg]@[k]);
                        } else {
                            assert(groups@[gg]@[k] == i);
                        }
                    }
                    assert forall|gg: int| 0 <= gg < groups@.len() implies (#[trigger] groups@[gg])@.len() == count_key(labels@.take(i + 1), labels@[groups@[gg]@[0] as int]@) by {
                        let kk = labels@[groups@[gg]@[0] as int]@;
                        assert(count_key(labels@.take(i + 1), kk) == count_key(labels@.take(i as int), kk) + if labels@[i as int]@ == kk {
                            1int
                        } else {
                            0int
                        });
                        if gg < old_groups.len() {
                            assert(old_index.contains_key(kk));
                        }
                    }
                    assert forall|key: Seq<char>| !index@.contains_key(key) implies #[trigger] count_key(labels@.take(i + 1), key) == 0 by {
                        assert(count_key(labels@.take(i + 1), key) == count_key(labels@.take(i as int), key) + if labels@[i as int]@ == key {
                            1int
                        } else {
                            0int
                        });
                    }
                }
            },
        }
        i = i + 1;
    }
    proof {
        assert(labels@.take(n as int) =~= labels@);
    }
    groups
}

/// One label's part in a stratified split: its group, its size, its test and training
/// counts, and the remainders of the proportional shares.
pub struct ClassShare {
    pub group: usize,
    pub n_c: usize,
    pub test_c: usize,
    pub train_c: usize,
    pub test_rem: usize,
    pub train_rem: usize,
}

impl ClassShare {
    fn copy(&self) -> (r: ClassShare)
        ensures
            r == *self,
    {
        ClassShare {
            group: self.group,
            n_c: self.n_c,
            test_c: self.test_c,
            train_c: self.train_c,
            test_rem: self.test_rem,
            train_rem: self.train_rem,
        }
    }
}

/// The sum of `f` over the shares.
pub open spec fn sum_by(s: Seq<ClassShare>, f: spec_fn(ClassShare) -> int) -> int
    decreases s.len(),
{
    if s.len() == 0 {
        0
    } else {
        sum_by(s.drop_last(), f) + f(s.last())
    }
}

proof fn lemma_sum_concat(a: Seq<ClassShare>, b: Seq<ClassShare>, f: spec_fn(ClassShare) -> int)
    ensures
        sum_by(a + b, f) == sum_by(a, f) + sum_by(b, f),
    decreases b.len(),
{
    if b.len() == 0 {
        assert(a + b =~= a);
    } else {
        assert((a + b).drop_last() =~= a + b.drop_last());
        lemma_sum_concat(a, b.drop_last(), f);
    }
}

proof fn lemma_sum_update(s: Seq<ClassShare>, i: int, v: ClassShare, f: spec_fn(ClassShare) -> int)
    requires
        0 <= i < s.len(),
    ensures
        sum_by(s.update(i, v), f) == sum_by(s, f) - f(s[i]) + f(v),
    decreases s.len(),
{
    let u = s.update(i, v);
    if i == s.len() - 1 {
        assert(u.drop_last() =~= s.drop_last());
    } else {
        assert(u.drop_last() =~= s.drop_last().update(i, v));
        lemma_sum_update(s.drop_last(), i, v, f);
    }
}

proof fn lemma_sum_swap(s: Seq<ClassShare>, i: int, f: spec_fn(ClassShare) -> int)
    requires
        0 <= i,
        i + 1 < s.len(),
    ensures
        sum_by(s.update(i, s[i + 1]).update(i + 1, s[i]), f) == sum_by(s, f),
{
    let t = s.update(i, s[i + 1]);
    lemma_sum_update(s, i, s[i + 1], f);
    lemma_sum_update(t, i + 1, s[i], f);
}

proof fn lemma_sum_take_step(s: Seq<ClassShare>, k: int, f: spec_fn(ClassShare) -> int)
    requires
        0 <= k < s.len(),
    ensures
        sum_by(s.take(k + 1), f) == sum_by(s.take(k), f) + f(s[k]),
{
    assert(s.take(k + 1).drop_last() =~= s.take(k));
}

/// The remainder that orders the shares in a phase: the test remainder, or the training one.
pub open spec fn rem_key(c: ClassShare, by_test: bool) -> int {
    if by_test {
        c.test_rem as int
    } else {
        c.train_rem as int
    }
}

fn key_of(c: &ClassShare, by_test: bool) -> (r: usize)
    ensures
        r as int == rem_key(*c, by_test),
{
    if by_test {
        c.test_rem
    } else {
        c.train_rem
    }
}

/// Each share came from `old`.
pub open spec fn drawn_from(new: Seq<ClassShare>, old: Seq<ClassShare>) -> bool {
    forall|k: int| #![trigger new[k]] 0 <= k < new.len() ==> came_from(new[k], old)
}

/// The share is one of `old`.
pub open spec fn came_from(c: ClassShare, old: Seq<ClassShare>) -> bool {
    exists|j: int| 0 <= j < old.len() && old[j] == c
}

/// No two shares are of the same group.
pub open spec fn distinct_groups(s: Seq<ClassShare>) -> bool {
    forall|a: int, b: int| 0 <= a < b < s.len() ==> (#[trigger] s[a]).group != (#[trigger] s[b]).group
}

/// Sorts the shares by decreasing remainder (an insertion sort by adjacent swaps).
fn sort_shares_desc(v: &mut Vec<ClassShare>, by_test: bool)
    ensures
        final(v)@.len() == old(v)@.len(),
        forall|f: spec_fn(ClassShare) -> int| #[trigger] sum_by(final(v)@, f) == sum_by(old(v)@, f),
        drawn_from(final(v)@, old(v)@),
        distinct_groups(old(v)@) ==> distinct_groups(final(v)@),
        forall|a: int, b: int|
            0 <= a < b < final(v)@.len() ==> rem_key(#[trigger] final(v)@[a], by_test) >= rem_key(
                #[trigger] final(v)@[b],
                by_test,
            ),
{
    let ghost orig = v@;
    let n = v.len();
    let mut i: usize = 1;
    proof {
        assert forall|k: int| 0 <= k < v@.len() implies came_from(#[trigger] v@[k], orig) by {
            assert(orig[k] == v@[k]);
        }
    }
    while i < n
        invariant
            n == v@.len(),
            n == orig.len(),
            1 <= i || n == 0,
            i <= n || n == 0,
            forall|f: spec_fn(ClassShare) -> int| #[trigger] sum_by(v@, f) == sum_by(orig, f),
            drawn_from(v@, orig),
            distinct_groups(orig) ==> distinct_groups(v@),
            forall|a: int, b: int|
                0 <= a < b < i && b < n ==> rem_key(#[trigger] v@[a], by_test) >= rem_key(#[trigger] v@[b], by_test),
        decreases n - i,
    {
        let mut j: usize = i;
        while j > 0 && key_of(&v[j - 1], by_test) < key_of(&v[j], by_test)
            invariant
                n == v@.len(),
                n == orig.len(),
                0 <= j <= i < n,
                forall|f: spec_fn(ClassShare) -> int| #[trigger] sum_by(v@, f) == sum_by(orig, f),
                drawn_from(v@, orig),
                distinct_groups(orig) ==> distinct_groups(v@),
                forall|a: int, b: int|
                    0 <= a < b <= i && a != j && b != j ==> rem_key(#[trigger] v@[a], by_test) >= rem_key(#[trigger] v@[b], by_test),
                forall|b: int| j < b <= i ==> rem_key(v@[j as int], by_test) > rem_key(#[trigger] v@[b], by_test),
                forall|a: int, b: int|
                    0 <= a < j && j < b <= i ==> rem_key(#[trigger] v@[a], by_test) >= rem_key(#[trigger] v@[b], by_test),
            decreases j,
        {
            let ghost before = v@;
            let x = v[j - 1].copy();
            let y = v[j].copy();
            v.set(j - 1, y);
            v.set(j, x);
            proof {
                assert(v@ =~= before.update(j - 1, before[j as int]).update(j as int, before[j - 1]));
                assert forall|f: spec_fn(ClassShare) -> int| #[trigger] sum_by(v@, f) == sum_by(orig, f) by {
                    lemma_sum_swap(before, j - 1, f);
                }
                assert forall|k: int| 0 <= k < v@.len() implies came_from(#[trigger] v@[k], orig) by {
                    if k == j - 1 {
                        assert(came_from(before[j as int], orig));
                    } else if k == j {
                        assert(came_from(before[j - 1], orig));
                    } else {
                        assert(v@[k] == before[k]);
                        assert(came_from(before[k], orig));
                    }
                }
                if distinct_groups(orig) {
                    assert forall|a: int, b: int| 0 <= a < b < v@.len() implies (#[trigger] v@[a]).group != (#[trigger] v@[b]).group by {
                        let pa = if a == j - 1 { j as int } else if a == j { j - 1 } else { a };
                        let pb = if b == j - 1 { j as int } else if b == j { j - 1 } else { b };
                        assert(v@[a] == before[pa]);
                        assert(v@[b] == before[pb]);
                        if pa < pb {
                            assert(before[pa].group != before[pb].group);
                        } else {
                            assert(before[pb].group != before[pa].group);
                        }
                    }
                }
            }
            j = j - 1;
        }
        i = i + 1;
    }
}

/// The count of a share in a phase: its test count, or its training count.
pub open spec fn part(c: ClassShare, by_test: bool) -> int {
    if by_test {
        c.test_c as int
    } else {
        c.train_c as int
    }
}

/// The share sits exactly on its proportional quota of `total` out of `n` samples:
/// `n_c * total == n * count + remainder`, with the remainder below `n`.
pub open spec fn on_quota(c: ClassShare, n: int, total: int, by_test: bool) -> bool {
    &&& c.n_c * total == n * part(c, by_test) + rem_key(c, by_test)
    &&& 0 <= rem_key(c, by_test) < n
}

pub open spec fn part_fn(by_test: bool) -> spec_fn(ClassShare) -> int {
    |c: ClassShare| part(c, by_test)
}

pub open spec fn rem_fn(by_test: bool) -> spec_fn(ClassShare) -> int {
    |c: ClassShare| rem_key(c, by_test)
}

pub open spec fn pos_rem_fn(by_test: bool) -> spec_fn(ClassShare) -> int {
    |c: ClassShare| if rem_key(c, by_test) > 0 { 1int } else { 0int }
}

pub open spec fn size_fn() -> spec_fn(ClassShare) -> int {
    |c: ClassShare| c.n_c as int
}

proof fn lemma_quota_sums(s: Seq<ClassShare>, n: int, total: int, by_test: bool)
    requires
        n > 0,
        forall|c: int| 0 <= c < s.len() ==> on_quota(#[trigger] s[c], n, total, by_test),
    ensures
        total * sum_by(s, size_fn()) == n * sum_by(s, part_fn(by_test)) + sum_by(s, rem_fn(by_test)),
        sum_by(s, rem_fn(by_test)) <= (n - 1) * sum_by(s, pos_rem_fn(by_test)),
        0 <= sum_by(s, rem_fn(by_test)),
        0 <= sum_by(s, pos_rem_fn(by_test)),
    decreases s.len(),
{
    if s.len() > 0 {
        let p = s.drop_last();
        assert forall|c: int| 0 <= c < p.len() implies on_quota(#[trigger] p[c], n, total, by_test) by {
            assert(p[c] == s[c]);
        }
        lemma_quota_sums(p, n, total, by_test);
        let l = s.last();
        assert(on_quota(l, n, total, by_test));
        let a = sum_by(p, size_fn());
        let b = sum_by(p, part_fn(by_test));
        let r = sum_by(p, rem_fn(by_test));
        let lp = part(l, by_test);
        let lr = rem_key(l, by_test);
        let ln = l.n_c as int;
        assert(sum_by(s, size_fn()) == a + ln);
        assert(sum_by(s, part_fn(by_test)) == b + lp);
        assert(sum_by(s, rem_fn(by_test)) == r + lr);
        assert(total * a == n * b + r);
        assert(ln * total == n * lp + lr);
        assert(total * (a + ln) == n * (b + lp) + (r + lr)) by (nonlinear_arith)
            requires
                total * a == n * b + r,
                ln * total == n * lp + lr,
        ;
        let q = sum_by(p, pos_rem_fn(by_test));
        let e = if lr > 0 { 1int } else { 0int };
        assert(sum_by(s, pos_rem_fn(by_test)) == q + e);
        assert((n - 1) * (q + e) == (n - 1) * q + (n - 1) * e) by (nonlinear_arith);
        assert(lr <= (n - 1) * e) by (nonlinear_arith)
            requires
                0 <= lr < n,
                e == if lr > 0 { 1int } else { 0int },
        ;
    }
}

/// The remainders to hand out do not exceed the number of shares with a remainder.
proof fn lemma_enough_remainders(s: Seq<ClassShare>, n: int, total: int, by_test: bool)
    requires
        n > 0,
        forall|c: int| 0 <= c < s.len() ==> on_quota(#[trigger] s[c], n, total, by_test),
        sum_by(s, size_fn()) == n,
    ensures
        sum_by(s, part_fn(by_test)) <= total,
        total - sum_by(s, part_fn(by_test)) <= sum_by(s, pos_rem_fn(by_test)),
{
    lemma_quota_sums(s, n, total, by_test);
    let b = sum_by(s, part_fn(by_test));
    let r = sum_by(s, rem_fn(by_test));
    let q = sum_by(s, pos_rem_fn(by_test));
    assert(total * n == n * b + r);
    assert(n * (total - b) == r) by (nonlinear_arith)
        requires
            total * n == n * b + r,
    ;
    assert(total - b <= q) by (nonlinear_arith)
        requires
            n * (total - b) == r,
            r <= (n - 1) * q,
            0 <= r,
            0 <= q,
            n > 0,
    ;
    assert(b <= total) by (nonlinear_arith)
        requires
            n * (total - b) == r,
            0 <= r,
            n > 0,
    ;
}

/// The proportional shares of each group: `floor(n_c * n_test / n)` test samples and
/// `floor(n_c * n_train / n)` training samples, with the remainders of the divisions.
fn class_shares(groups: &Vec<Vec<usize>>, n: usize, n_train: usize, n_test: usize) -> (r: Vec<ClassShare>)
    requires
        n > 0,
        n_train + n_test <= n,
    ensures
        r@.len() == groups@.len(),
        forall|c: int|
            0 <= c < r@.len() ==> (#[trigger] r@[c]).group == c && r@[c].n_c == groups@[c]@.len()
                && on_quota(r@[c], n as int, n_test as int, true) && on_quota(r@[c], n as int, n_train as int, false)
                && r@[c].test_c + r@[c].train_c <= r@[c].n_c,
{
    let mut r: Vec<ClassShare> = Vec::new();
    let mut g: usize = 0;
    while g < groups.len()
        invariant
            n > 0,
            n_train + n_test <= n,
            g <= groups@.len(),
            r@.len() == g,
            forall|c: int|
                0 <= c < g ==> (#[trigger] r@[c]).group == c && r@[c].n_c == groups@[c]@.len()
                    && on_quota(r@[c], n as int, n_test as int, true) && on_quota(r@[c], n as int, n_train as int, false)
                    && r@[c].test_c + r@[c].train_c <= r@[c].n_c,
        decreases groups@.len() - g,
    {
        let nc = groups[g].len();
        let ghost nci = nc as int;
        let ghost ni = n as int;
        proof {
            assert((nc as u128) * (n_test as u128) <= 0xffff_ffff_ffff_ffff_ffff_ffff_ffff_ffffu128) by (nonlinear_arith)
                requires nc <= 0xffff_ffff_ffff_ffffu64, n_test <= 0xffff_ffff_ffff_ffffu64;
            assert((nc as u128) * (n_train as u128) <= 0xffff_ffff_ffff_ffff_ffff_ffff_ffff_ffffu128) by (nonlinear_arith)
                requires nc <= 0xffff_ffff_ffff_ffffu64, n_train <= 0xffff_ffff_ffff_ffffu64;
        }
        let pt: u128 = (nc as u128) * (n_test as u128);
        let pr: u128 = (nc as u128) * (n_train as u128);
        let qt: u128 = pt / (n as u128);
        let rt: u128 = pt % (n as u128);
        let qr: u128 = pr / (n as u128);
        let rr: u128 = pr % (n as u128);
        proof {
            vstd::arithmetic::div_mod::lemma_fundamental_div_mod(pt as int, ni);
            vstd::arithmetic::div_mod::lemma_fundamental_div_mod(pr as int, ni);
            assert(qt as int == pt as int / ni && rt as int == pt as int % ni);
            assert(qr as int == pr as int / ni && rr as int == pr as int % ni);
            assert(qt * n + rt == pt) by (nonlinear_arith)
                requires pt as int == ni * (qt as int) + rt as int, ni == n;
            assert(qr * n + rr == pr) by (nonlinear_arith)
                requires pr as int == ni * (qr as int) + rr as int, ni == n;
            vstd::arithmetic::div_mod::lemma_mod_bound(pt as int, ni);
            vstd::arithmetic::div_mod::lemma_mod_bound(pr as int, ni);
            assert(qt <= nc) by (nonlinear_arith)
                requires pt == nc * n_test, n_test <= n, qt * n + rt == pt, rt >= 0, n > 0;
            assert(qt + qr <= nc) by (nonlinear_arith)
                requires pt == nc * n_test, pr == nc * n_train, n_train + n_test <= n, qt * n + rt == pt,
                    qr * n + rr == pr, rt >= 0, rr >= 0, n > 0;
        }
        let share = ClassShare {
            group: g,
            n_c: nc,
            test_c: qt as usize,
            train_c: qr as usize,
            test_rem: rt as usize,
            train_rem: rr as usize,
        };
        proof {
            assert(on_quota(share, ni, n_test as int, true)) by (nonlinear_arith)
                requires pt == nc * n_test, qt * n + rt == pt, share.test_c == qt, share.test_rem == rt,
                    share.n_c == nc, rt < n, rt >= 0, ni == n;
            assert(on_quota(share, ni, n_train as int, false)) by (nonlinear_arith)
                requires pr == nc * n_train, qr * n + rr == pr, share.train_c == qr, share.train_rem == rr,
                    share.n_c == nc, rr < n, rr >= 0, ni == n;
        }
        r.push(share);
        g = g + 1;
    }
    r
}

/// `new` is `old` with some counts of the phase raised by one, all else unchanged.
pub open spec fn raised_by_at_most_one(new: ClassShare, old: ClassShare, by_test: bool) -> bool {
    &&& new.group == old.group
    &&& new.n_c == old.n_c
    &&& new.test_rem == old.test_rem
    &&& new.train_rem == old.train_rem
    &&& (part(new, by_test) == part(old, by_test) || part(new, by_test) == part(old, by_test) + 1)
    &&& part(new, !by_test) == part(old, !by_test)
}

/// Hands out `diff` further samples of a phase, one to each share in turn that still has
/// samples left, until none is left to hand out (the largest remainder method once
/// the shares are sorted by remainder). Returns how many could not be handed out.
fn add_remainders(v: &mut Vec<ClassShare>, diff: usize, by_test: bool) -> (left: usize)
    requires
        forall|c: int| 0 <= c < old(v)@.len() ==> (#[trigger] old(v)@[c]).test_c + old(v)@[c].train_c <= old(v)@[c].n_c,
    ensures
        final(v)@.len() == old(v)@.len(),
        forall|c: int| 0 <= c < final(v)@.len() ==> raised_by_at_most_one(#[trigger] final(v)@[c], old(v)@[c], by_test)
            && final(v)@[c].test_c + final(v)@[c].train_c <= final(v)@[c].n_c,
        left <= diff,
        sum_by(final(v)@, part_fn(by_test)) == sum_by(old(v)@, part_fn(by_test)) + diff - left,
        (forall|c: int| 0 <= c < old(v)@.len() && rem_key(#[trigger] old(v)@[c], by_test) > 0 ==> old(v)@[c].test_c + old(v)@[c].train_c < old(v)@[c].n_c)
            && diff <= sum_by(old(v)@, pos_rem_fn(by_test)) ==> left == 0,
        forall|a: int, b: int|
            0 <= a < b < final(v)@.len() && part(#[trigger] final(v)@[b], by_test) == part(old(v)@[b], by_test) + 1
                && old(v)@[a].test_c + old(v)@[a].train_c < old(v)@[a].n_c ==> part(#[trigger] final(v)@[a], by_test)
                == part(old(v)@[a], by_test) + 1,
        diff <= sum_by(old(v)@, room_fn()) ==> left == 0,
        left > 0 ==> forall|c: int|
            0 <= c < final(v)@.len() && old(v)@[c].test_c + old(v)@[c].train_c < old(v)@[c].n_c ==> part(
                #[trigger] final(v)@[c],
                by_test,
            ) == part(old(v)@[c], by_test) + 1,
{
    let ghost orig = v@;
    let mut left = diff;
    let mut k: usize = 0;
    while k < v.len() && left > 0
        invariant
            v@.len() == orig.len(),
            k <= v@.len(),
            left <= diff,
            forall|c: int| 0 <= c < v@.len() ==> raised_by_at_most_one(#[trigger] v@[c], orig[c], by_test)
                && v@[c].test_c + v@[c].train_c <= v@[c].n_c,
            forall|c: int| k <= c < v@.len() ==> #[trigger] v@[c] == orig[c],
            sum_by(v@, part_fn(by_test)) == sum_by(orig, part_fn(by_test)) + diff - left,
            (forall|c: int| 0 <= c < orig.len() && rem_key(#[trigger] orig[c], by_test) > 0 ==> orig[c].test_c + orig[c].train_c < orig[c].n_c)
                && left > 0 ==> diff - left >= sum_by(orig.take(k as int), pos_rem_fn(by_test)),
            forall|a: int|
                0 <= a < k && orig[a].test_c + orig[a].train_c < orig[a].n_c ==> part(#[trigger] v@[a], by_test) == part(
                    orig[a],
                    by_test,
                ) + 1,
            left > 0 ==> diff - left >= sum_by(orig.take(k as int), room_fn()),
        decreases v@.len() - k,
    {
        let cur = v[k].copy();
        proof {
            lemma_sum_take_step(orig, k as int, pos_rem_fn(by_test));
            lemma_sum_take_step(orig, k as int, room_fn());
        }
        if cur.n_c - (cur.test_c + cur.train_c) > 0 {
            let ghost before = v@;
            let mut next = cur.copy();
            if by_test {
                next.test_c = cur.test_c + 1;
            } else {
                next.train_c = cur.train_c + 1;
            }
            v.set(k, next);
            proof {
                lemma_sum_update(before, k as int, next, part_fn(by_test));
            }
            left = left - 1;
        }
        k = k + 1;
    }
    proof {
        if k == v@.len() {
            assert(orig.take(k as int) =~= orig);
        }
        if left > 0 {
            assert(k == v@.len());
        }
        assert forall|a: int, b: int|
            0 <= a < b < v@.len() && part(#[trigger] v@[b], by_test) == part(orig[b], by_test) + 1
                && orig[a].test_c + orig[a].train_c < orig[a].n_c implies part(#[trigger] v@[a], by_test) == part(orig[a], by_test)
                + 1 by {
            if b >= k {
                assert(v@[b] == orig[b]);
            }
        }
    }
    left
}

/// The groups are lists of distinct sample indices, every member of a group has the
/// label of every other member, and members of different groups have different labels.
pub open spec fn label_groups(labels: Seq<String>, groups: Seq<Vec<usize>>) -> bool {
    &&& forall|g: int, k: int|
        0 <= g < groups.len() && 0 <= k < groups[g]@.len() ==> #[trigger] groups[g]@[k] < labels.len()
    &&& forall|g: int| 0 <= g < groups.len() ==> (#[trigger] groups[g])@.no_duplicates()
    &&& forall|g: int, h: int, a: int, b: int|
        0 <= g < groups.len() && 0 <= h < groups.len() && g != h && 0 <= a < groups[g]@.len() && 0 <= b
            < groups[h]@.len() ==> labels[#[trigger] groups[g]@[a] as int]@ != labels[#[trigger] groups[h]@[b] as int]@
    &&& total_len(groups) == labels.len()
    &&& forall|g: int| 0 <= g < groups.len() ==> (#[trigger] groups[g])@.len() > 0
    &&& forall|g: int, k: int|
        0 <= g < groups.len() && 0 <= k < groups[g]@.len() ==> labels[#[trigger] groups[g]@[k] as int]@ == group_key(
            labels,
            groups,
            g,
        )
    &&& forall|g: int| 0 <= g < groups.len() ==> (#[trigger] groups[g])@.len() == count_key(labels, group_key(labels, groups, g))
    &&& forall|i: int| 0 <= i < labels.len() ==> #[trigger] keyed(labels, groups, i)
}

/// The label of a group: that of its first member.
pub open spec fn group_key(labels: Seq<String>, groups: Seq<Vec<usize>>, g: int) -> Seq<char> {
    labels[groups[g]@[0] as int]@
}

/// The label of sample `i` is the label of one of the groups.
pub open spec fn keyed(labels: Seq<String>, groups: Seq<Vec<usize>>, i: int) -> bool {
    exists|g: int| 0 <= g < groups.len() && #[trigger] group_key(labels, groups, g) == labels[i]@
}

proof fn lemma_label_groups(labels: Seq<String>, groups: Seq<Vec<usize>>)
    requires
        groups_by_label(labels, groups),
    ensures
        label_groups(labels, groups),
{
    assert forall|g: int| 0 <= g < groups.len() implies (#[trigger] groups[g])@.no_duplicates() by {
        assert forall|a: int, b: int| 0 <= a < groups[g]@.len() && 0 <= b < groups[g]@.len() && a != b implies groups[g]@[a] != groups[g]@[b] by {
            if a < b {
                assert(groups[g]@[a] < groups[g]@[b]);
            } else {
                assert(groups[g]@[b] < groups[g]@[a]);
            }
        }
    }
    assert forall|g: int, h: int, a: int, b: int|
        0 <= g < groups.len() && 0 <= h < groups.len() && g != h && 0 <= a < groups[g]@.len() && 0 <= b
            < groups[h]@.len() implies labels[#[trigger] groups[g]@[a] as int]@ != labels[#[trigger] groups[h]@[b] as int]@ by {
        assert(labels[groups[g]@[a] as int]@ == labels[groups[g]@[0] as int]@);
        assert(labels[groups[h]@[b] as int]@ == labels[groups[h]@[0] as int]@);
        if g < h {
            assert(labels[groups[g]@[0] as int]@ != labels[groups[h]@[0] as int]@);
        } else {
            assert(labels[groups[h]@[0] as int]@ != labels[groups[g]@[0] as int]@);
        }
    }
    assert forall|i: int| 0 <= i < labels.len() implies #[trigger] keyed(labels, groups, i) by {
        assert(grouped(groups, i));
        let (g, k) = choose|g: int, k: int| 0 <= g < groups.len() && 0 <= k < groups[g]@.len() && #[trigger] groups[g]@[k] == i;
        assert(labels[groups[g]@[k] as int]@ == labels[groups[g]@[0] as int]@);
        assert(group_key(labels, groups, g) == labels[i]@);
    }
}

pub(crate) proof fn lemma_permutation_contains(before: Seq<usize>, after: Seq<usize>, x: usize)
    requires
        after.to_multiset() == before.to_multiset(),
    ensures
        after.contains(x) <==> before.contains(x),
{
    broadcast use vstd::seq_lib::group_to_multiset_ensures;

    assert(after.contains(x) <==> after.to_multiset().count(x) > 0);
    assert(before.contains(x) <==> before.to_multiset().count(x) > 0);
}

/// Shuffles each group in place: every group keeps its members, each as often, in an
/// order drawn by the generator (which may be the order it had).
fn shuffle_groups(groups: &mut Vec<Vec<usize>>, labels: Ghost<Seq<String>>, rng: &mut SmallRng)
    requires
        label_groups(labels@, old(groups)@),
    ensures
        label_groups(labels@, final(groups)@),
        final(groups)@.len() == old(groups)@.len(),
        forall|g: int| 0 <= g < final(groups)@.len() ==> (#[trigger] final(groups)@[g])@.len() == old(groups)@[g]@.len(),
        forall|g: int|
            0 <= g < final(groups)@.len() ==> (#[trigger] final(groups)@[g])@.to_multiset() == old(groups)@[g]@.to_multiset(),
{
    let ghost orig = groups@;
    let mut g: usize = 0;
    while g < groups.len()
        invariant
            label_groups(labels@, groups@),
            groups@.len() == orig.len(),
            g <= groups@.len(),
            forall|h: int| 0 <= h < groups@.len() ==> (#[trigger] groups@[h])@.len() == orig[h]@.len(),
            forall|h: int| 0 <= h < groups@.len() ==> (#[trigger] groups@[h])@.to_multiset() == orig[h]@.to_multiset(),
        decreases groups@.len() - g,
    {
        let ghost before = groups@;
        shuffle_small(&mut groups[g], rng);
        proof {
            let b = before[g as int]@;
            let a = groups@[g as int]@;
            assert(groups@ =~= before.update(g as int, groups@[g as int]));
            assert forall|h: int| 0 <= h < groups@.len() implies (#[trigger] groups@[h])@.to_multiset() == orig[h]@.to_multiset() by {
                if h != g {
                    assert(groups@[h] == before[h]);
                }
            }
            lemma_total_len_update(before, g as int, groups@[g as int]);
            lemma_permutation_keeps(b, a, labels@.len() as int);
            assert forall|x: usize| a.contains(x) implies b.contains(x) by {
                lemma_permutation_contains(b, a, x);
            }
            assert forall|gg: int, h: int, i: int, j: int|
                0 <= gg < groups@.len() && 0 <= h < groups@.len() && gg != h && 0 <= i < groups@[gg]@.len() && 0 <= j
                    < groups@[h]@.len() implies labels@[#[trigger] groups@[gg]@[i] as int]@ != labels@[#[trigger] groups@[h]@[j] as int]@ by {
                let x = groups@[gg]@[i];
                let y = groups@[h]@[j];
                if gg == g {
                    assert(a.contains(x));
                    let i2 = choose|i2: int| 0 <= i2 < b.len() && b[i2] == x;
                    assert(before[h]@[j] == y);
                    assert(labels@[before[gg]@[i2] as int]@ != labels@[before[h]@[j] as int]@);
                } else if h == g {
                    assert(a.contains(y));
                    let j2 = choose|j2: int| 0 <= j2 < b.len() && b[j2] == y;
                    assert(before[gg]@[i] == x);
                    assert(labels@[before[gg]@[i] as int]@ != labels@[before[h]@[j2] as int]@);
                } else {
                    assert(before[gg]@[i] == x);
                    assert(before[h]@[j] == y);
                }
            }
            assert forall|gg: int, k: int|
                0 <= gg < groups@.len() && 0 <= k < groups@[gg]@.len() implies #[trigger] groups@[gg]@[k] < labels@.len() by {
                if gg != g {
                    assert(groups@[gg] == before[gg]);
                }
            }
            assert forall|gg: int| 0 <= gg < groups@.len() implies (#[trigger] groups@[gg])@.no_duplicates() by {
                if gg != g {
                    assert(groups@[gg] == before[gg]);
                }
            }
            assert(a.contains(a[0]));
            assert(labels@[a[0] as int]@ == group_key(labels@, before, g as int));
            assert forall|gg: int| 0 <= gg < groups@.len() implies #[trigger] group_key(labels@, groups@, gg) == group_key(labels@, before, gg) by {
                if gg != g {
                    assert(groups@[gg] == before[gg]);
                }
            }
            assert forall|gg: int| 0 <= gg < groups@.len() implies (#[trigger] groups@[gg])@.len() > 0 by {
            }
            assert forall|gg: int, k: int|
                0 <= gg < groups@.len() && 0 <= k < groups@[gg]@.len() implies labels@[#[trigger] groups@[gg]@[k] as int]@
                == group_key(labels@, groups@, gg) by {
                assert(group_key(labels@, groups@, gg) == group_key(labels@, before, gg));
                if gg != g {
                    assert(groups@[gg] == before[gg]);
                } else {
                    assert(a.contains(a[k]));
                    let k2 = choose|k2: int| 0 <= k2 < b.len() && b[k2] == a[k];
                    assert(labels@[before[gg]@[k2] as int]@ == group_key(labels@, before, gg));
                }
            }
            assert forall|gg: int| 0 <= gg < groups@.len() implies (#[trigger] groups@[gg])@.len() == count_key(labels@, group_key(labels@, groups@, gg)) by {
                assert(group_key(labels@, groups@, gg) == group_key(labels@, before, gg));
            }
            assert forall|i: int| 0 <= i < labels@.len() implies #[trigger] keyed(labels@, groups@, i) by {
                assert(keyed(labels@, before, i));
                let w = choose|w: int| 0 <= w < before.len() && #[trigger] group_key(labels@, before, w) == labels@[i]@;
                assert(group_key(labels@, groups@, w) == group_key(labels@, before, w));
            }
        }
        g = g + 1;
    }
}


/// A prefix of a sum of non-negative terms is at most the whole sum.
proof fn lemma_sum_prefix_le(s: Seq<ClassShare>, k: int, f: spec_fn(ClassShare) -> int)
    requires
        0 <= k <= s.len(),
        forall|c: int| 0 <= c < s.len() ==> f(#[trigger] s[c]) >= 0,
    ensures
        0 <= sum_by(s.take(k), f) <= sum_by(s, f),
    decreases s.len() - k,
{
    if k == s.len() {
        assert(s.take(k) =~= s);
        lemma_sum_nonneg(s, f);
    } else {
        lemma_sum_take_step(s, k, f);
        lemma_sum_prefix_le(s, k + 1, f);
        let t = s.take(k);
        assert forall|c: int| 0 <= c < t.len() implies f(#[trigger] t[c]) >= 0 by {
            assert(t[c] == s[c]);
        }
        lemma_sum_nonneg(t, f);
        assert(f(s[k]) >= 0);
    }
}

proof fn lemma_sum_nonneg(s: Seq<ClassShare>, f: spec_fn(ClassShare) -> int)
    requires
        forall|c: int| 0 <= c < s.len() ==> f(#[trigger] s[c]) >= 0,
    ensures
        sum_by(s, f) >= 0,
    decreases s.len(),
{
    if s.len() > 0 {
        let p = s.drop_last();
        assert forall|c: int| 0 <= c < p.len() implies f(#[trigger] p[c]) >= 0 by {
            assert(p[c] == s[c]);
        }
        lemma_sum_nonneg(p, f);
        assert(f(s[s.len() - 1]) >= 0);
    }
}

/// Two sequences whose terms agree under `f` have the same sum of `f`.
proof fn lemma_sum_pointwise(a: Seq<ClassShare>, b: Seq<ClassShare>, f: spec_fn(ClassShare) -> int)
    requires
        a.len() == b.len(),
        forall|c: int| 0 <= c < a.len() ==> f(#[trigger] a[c]) == f(b[c]),
    ensures
        sum_by(a, f) == sum_by(b, f),
    decreases a.len(),
{
    if a.len() > 0 {
        let pa = a.drop_last();
        let pb = b.drop_last();
        assert forall|c: int| 0 <= c < pa.len() implies f(#[trigger] pa[c]) == f(pb[c]) by {
            assert(pa[c] == a[c]);
            assert(pb[c] == b[c]);
        }
        lemma_sum_pointwise(pa, pb, f);
        assert(f(a[a.len() - 1]) == f(b[b.len() - 1]));
    }
}

/// The group sizes of the shares add up to the number of grouped indices.
proof fn lemma_sizes_total(shares: Seq<ClassShare>, groups: Seq<Vec<usize>>)
    requires
        shares.len() == groups.len(),
        forall|c: int| 0 <= c < shares.len() ==> (#[trigger] shares[c]).n_c == groups[c]@.len(),
    ensures
        sum_by(shares, size_fn()) == total_len(groups),
    decreases shares.len(),
{
    if shares.len() > 0 {
        let ps = shares.drop_last();
        let pg = groups.drop_last();
        assert forall|c: int| 0 <= c < ps.len() implies (#[trigger] ps[c]).n_c == pg[c]@.len() by {
            assert(ps[c] == shares[c]);
            assert(pg[c] == groups[c]);
        }
        lemma_sizes_total(ps, pg);
    }
}

/// A share with a test remainder still has a sample that neither phase has taken.
proof fn lemma_room_for_test(c: ClassShare, n: int, t: int, r: int)
    requires
        n > 0,
        t >= 0,
        r >= 0,
        t + r <= n,
        on_quota(c, n, t, true),
        on_quota(c, n, r, false),
        rem_key(c, true) > 0,
    ensures
        c.test_c + c.train_c < c.n_c,
{
    let nc = c.n_c as int;
    let a = c.test_c as int;
    let b = c.train_c as int;
    let ra = c.test_rem as int;
    let rb = c.train_rem as int;
    assert(a + b < nc) by (nonlinear_arith)
        requires
            nc * t == n * a + ra,
            nc * r == n * b + rb,
            ra > 0,
            rb >= 0,
            t + r <= n,
            n > 0,
            nc >= 0,
    ;
}

/// The sum of the counts of a phase over the shares.
fn sum_parts(v: &Vec<ClassShare>, by_test: bool) -> (r: usize)
    requires
        sum_by(v@, part_fn(by_test)) <= usize::MAX,
    ensures
        r == sum_by(v@, part_fn(by_test)),
{
    let mut r: usize = 0;
    let mut k: usize = 0;
    proof {
        assert forall|c: int| 0 <= c < v@.len() implies (part_fn(by_test))(#[trigger] v@[c]) >= 0 by {
        }
    }
    while k < v.len()
        invariant
            k <= v@.len(),
            sum_by(v@, part_fn(by_test)) <= usize::MAX,
            forall|c: int| 0 <= c < v@.len() ==> (part_fn(by_test))(#[trigger] v@[c]) >= 0,
            r == sum_by(v@.take(k as int), part_fn(by_test)),
        decreases v@.len() - k,
    {
        proof {
            lemma_sum_take_step(v@, k as int, part_fn(by_test));
            lemma_sum_prefix_le(v@, k + 1, part_fn(by_test));
        }
        let x = if by_test {
            v[k].test_c
        } else {
            v[k].train_c
        };
        r = r + x;
        k = k + 1;
    }
    proof {
        assert(v@.take(k as int) =~= v@);
    }
    r
}


/// The share names one of the groups, with its size, and takes no more samples than it has.
pub open spec fn share_fits(c: ClassShare, groups: Seq<Vec<usize>>) -> bool {
    &&& c.group < groups.len()
    &&& c.n_c == groups[c.group as int]@.len()
    &&& c.test_c + c.train_c <= c.n_c
}

/// The count of the phase is its proportional quota `n_c * total / n`, rounded down or up.
pub open spec fn near_quota(c: ClassShare, n: int, total: int, by_test: bool) -> bool {
    let q = (c.n_c * total) / n;
    part(c, by_test) == q || part(c, by_test) == q + 1
}

/// The count of the phase is its quota rounded up: one more than `n_c * total / n`.
spec fn rounded_up_share(c: ClassShare, n: int, total: int, by_test: bool) -> bool {
    part(c, by_test) == (c.n_c * total) / n + 1
}

/// The remainders kept with the share are those of its quotas.
spec fn rems_exact(c: ClassShare, n: int, n_train: int, n_test: int) -> bool {
    &&& c.test_rem == (c.n_c * n_test) % n
    &&& c.train_rem == (c.n_c * n_train) % n
}

/// A share whose test count was rounded up has a test remainder at least that of any
/// share whose count was not.
spec fn test_rounding_ok(s: Seq<ClassShare>, n: int, n_test: int) -> bool {
    forall|a: int, b: int|
        0 <= a < s.len() && 0 <= b < s.len() && rounded_up_share(#[trigger] s[a], n, n_test, true) && !rounded_up_share(
            #[trigger] s[b],
            n,
            n_test,
            true,
        ) ==> s[a].test_rem >= s[b].test_rem
}

/// A share whose training count was not rounded up, though its training remainder is
/// larger than that of one that was, has no sample left.
spec fn train_rounding_ok(s: Seq<ClassShare>, n: int, n_train: int) -> bool {
    forall|a: int, b: int|
        0 <= a < s.len() && 0 <= b < s.len() && rounded_up_share(#[trigger] s[a], n, n_train, false) && !rounded_up_share(
            #[trigger] s[b],
            n,
            n_train,
            false,
        ) && s[b].train_rem > s[a].train_rem ==> s[b].test_c + s[b].train_c == s[b].n_c
}

/// Every share got its training quota rounded up, or has no sample left.
spec fn train_filled(s: Seq<ClassShare>, n: int, n_train: int) -> bool {
    forall|c: int|
        0 <= c < s.len() ==> rounded_up_share(#[trigger] s[c], n, n_train, false) || s[c].test_c + s[c].train_c
            == s[c].n_c
}

/// The shares as first computed.
spec fn fresh_share(c: ClassShare, groups: Seq<Vec<usize>>, n: int, n_train: int, n_test: int) -> bool {
    &&& share_fits(c, groups)
    &&& on_quota(c, n, n_test, true)
    &&& on_quota(c, n, n_train, false)
}

/// The shares once the test remainders are handed out.
spec fn test_settled(c: ClassShare, groups: Seq<Vec<usize>>, n: int, n_train: int, n_test: int) -> bool {
    &&& share_fits(c, groups)
    &&& rems_exact(c, n, n_train, n_test)
    &&& near_quota(c, n, n_test, true)
    &&& on_quota(c, n, n_train, false)
}

/// The shares once both phases are done.
spec fn settled(c: ClassShare, groups: Seq<Vec<usize>>, n: int, n_train: int, n_test: int) -> bool {
    &&& share_fits(c, groups)
    &&& rems_exact(c, n, n_train, n_test)
    &&& near_quota(c, n, n_test, true)
    &&& near_quota(c, n, n_train, false)
}

/// A share on its quota is near it.
proof fn lemma_on_quota_near(c: ClassShare, n: int, total: int, by_test: bool)
    requires
        n > 0,
        on_quota(c, n, total, by_test),
    ensures
        part(c, by_test) == (c.n_c * total) / n,
        rem_key(c, by_test) == (c.n_c * total) % n,
{
    assert(n * part(c, by_test) == part(c, by_test) * n) by (nonlinear_arith);
    vstd::arithmetic::div_mod::lemma_fundamental_div_mod_converse(
        c.n_c * total,
        n,
        part(c, by_test),
        rem_key(c, by_test),
    );
}

/// What holds of each share of `old` holds of each share drawn from it.
proof fn lemma_drawn_keeps(new: Seq<ClassShare>, old: Seq<ClassShare>, p: spec_fn(ClassShare) -> bool)
    requires
        drawn_from(new, old),
        forall|c: int| 0 <= c < old.len() ==> p(#[trigger] old[c]),
    ensures
        forall|c: int| 0 <= c < new.len() ==> p(#[trigger] new[c]),
{
    assert forall|c: int| 0 <= c < new.len() implies p(#[trigger] new[c]) by {
        assert(came_from(new[c], old));
        let j = choose|j: int| 0 <= j < old.len() && old[j] == new[c];
        assert(p(old[j]));
    }
}

/// Raising counts keeps the groups of the shares apart.
proof fn lemma_raised_distinct(new: Seq<ClassShare>, old: Seq<ClassShare>, by_test: bool)
    requires
        new.len() == old.len(),
        distinct_groups(old),
        forall|c: int| 0 <= c < new.len() ==> raised_by_at_most_one(#[trigger] new[c], old[c], by_test),
    ensures
        distinct_groups(new),
{
    assert forall|a: int, b: int| 0 <= a < b < new.len() implies (#[trigger] new[a]).group != (#[trigger] new[b]).group by {
        assert(raised_by_at_most_one(new[a], old[a], by_test));
        assert(raised_by_at_most_one(new[b], old[b], by_test));
        assert(old[a].group != old[b].group);
    }
}

/// One for a share with a sample that neither phase has taken, else zero.
pub open spec fn room_fn() -> spec_fn(ClassShare) -> int {
    |c: ClassShare| if c.test_c + c.train_c < c.n_c { 1int } else { 0int }
}

/// The samples of a share that neither phase has taken.
pub open spec fn unalloc_fn() -> spec_fn(ClassShare) -> int {
    |c: ClassShare| c.n_c - c.test_c - c.train_c
}

proof fn lemma_sum_unalloc(s: Seq<ClassShare>)
    ensures
        sum_by(s, unalloc_fn()) == sum_by(s, size_fn()) - sum_by(s, part_fn(true)) - sum_by(s, part_fn(false)),
    decreases s.len(),
{
    if s.len() > 0 {
        lemma_sum_unalloc(s.drop_last());
    }
}

proof fn lemma_sum_congruent(s: Seq<ClassShare>, f: spec_fn(ClassShare) -> int, g: spec_fn(ClassShare) -> int)
    requires
        forall|c: int| 0 <= c < s.len() ==> f(#[trigger] s[c]) == g(s[c]),
    ensures
        sum_by(s, f) == sum_by(s, g),
    decreases s.len(),
{
    if s.len() > 0 {
        let p = s.drop_last();
        assert forall|c: int| 0 <= c < p.len() implies f(#[trigger] p[c]) == g(p[c]) by {
            assert(p[c] == s[c]);
        }
        lemma_sum_congruent(p, f, g);
        assert(f(s[s.len() - 1]) == g(s[s.len() - 1]));
    }
}

/// When the two phases take all samples, rounding down leaves at most one sample of a
/// share untaken.
proof fn lemma_unalloc_at_most_one(c: ClassShare, n: int, t: int, r: int)
    requires
        n > 0,
        t >= 0,
        r >= 0,
        t + r == n,
        c.test_c >= (c.n_c * t) / n,
        on_quota(c, n, r, false),
    ensures
        c.n_c - c.test_c - c.train_c <= 1,
{
    let nc = c.n_c as int;
    let a = (nc * t) / n;
    let m = (nc * t) % n;
    let b = c.train_c as int;
    let rb = c.train_rem as int;
    vstd::arithmetic::div_mod::lemma_fundamental_div_mod(nc * t, n);
    vstd::arithmetic::div_mod::lemma_mod_bound(nc * t, n);
    assert(n * (nc - a - b) == m + rb) by (nonlinear_arith)
        requires
            nc * t == n * a + m,
            nc * r == n * b + rb,
            t + r == n,
    ;
    assert(nc - a - b <= 1) by (nonlinear_arith)
        requires
            n * (nc - a - b) == m + rb,
            0 <= m < n,
            0 <= rb < n,
            n > 0,
    ;
}

/// The counts of each group in a stratified split: every group gets its proportional
/// quota of the test and of the training samples, rounded down, and the samples still
/// owed to a phase go one each to the groups with the largest remainders that have a
/// sample left (the largest remainder method), test first.
fn allocate_shares(groups: &Vec<Vec<usize>>, n: usize, n_train: usize, n_test: usize) -> (shares: Vec<ClassShare>)
    requires
        n > 0,
        n_train + n_test <= n,
        total_len(groups@) == n,
    ensures
        forall|c: int| 0 <= c < shares@.len() ==> settled(#[trigger] shares@[c], groups@, n as int, n_train as int, n_test as int),
        distinct_groups(shares@),
        shares@.len() == groups@.len(),
        sum_by(shares@, part_fn(true)) == n_test,
        sum_by(shares@, part_fn(false)) <= n_train,
        test_rounding_ok(shares@, n as int, n_test as int),
        train_rounding_ok(shares@, n as int, n_train as int),
        n_train + n_test == n ==> sum_by(shares@, part_fn(false)) == n_train,
        sum_by(shares@, part_fn(false)) < n_train ==> train_filled(shares@, n as int, n_train as int),
{
    let ghost gs = groups@;
    let ghost ni = n as int;
    let ghost tr = n_train as int;
    let ghost te = n_test as int;
    let mut shares = class_shares(groups, n, n_train, n_test);
    let ghost s_init = shares@;
    proof {
        lemma_sizes_total(shares@, gs);
        lemma_enough_remainders(shares@, ni, te, true);
        lemma_enough_remainders(shares@, ni, tr, false);
        assert forall|c: int| 0 <= c < shares@.len() implies (|x: ClassShare| fresh_share(x, gs, ni, tr, te))(
            #[trigger] shares@[c],
        ) by {
        }
    }
    let alloc_test = sum_parts(&shares, true);
    if alloc_test < n_test {
        let ghost s0 = shares@;
        sort_shares_desc(&mut shares, true);
        proof {
            lemma_drawn_keeps(shares@, s0, |x: ClassShare| fresh_share(x, gs, ni, tr, te));
            assert forall|c: int| 0 <= c < shares@.len() && rem_key(#[trigger] shares@[c], true) > 0 implies shares@[c].test_c
                + shares@[c].train_c < shares@[c].n_c by {
                assert((|x: ClassShare| fresh_share(x, gs, ni, tr, te))(shares@[c]));
                lemma_room_for_test(shares@[c], ni, te, tr);
            }
            assert forall|c: int| 0 <= c < shares@.len() implies (#[trigger] shares@[c]).test_c + shares@[c].train_c
                <= shares@[c].n_c by {
                assert((|x: ClassShare| fresh_share(x, gs, ni, tr, te))(shares@[c]));
            }
        }
        let ghost s1 = shares@;
        let _left = add_remainders(&mut shares, n_test - alloc_test, true);
        proof {
            assert forall|c: int| 0 <= c < shares@.len() implies (|x: ClassShare| test_settled(x, gs, ni, tr, te))(
                #[trigger] shares@[c],
            ) by {
                assert(raised_by_at_most_one(shares@[c], s1[c], true));
                assert((|x: ClassShare| fresh_share(x, gs, ni, tr, te))(s1[c]));
                lemma_on_quota_near(s1[c], ni, te, true);
                lemma_on_quota_near(s1[c], ni, tr, false);
            }
            assert forall|a: int, b: int|
                0 <= a < shares@.len() && 0 <= b < shares@.len() && rounded_up_share(#[trigger] shares@[a], ni, te, true)
                    && !rounded_up_share(#[trigger] shares@[b], ni, te, true) implies shares@[a].test_rem >= shares@[b].test_rem by {
                assert(raised_by_at_most_one(shares@[a], s1[a], true));
                assert(raised_by_at_most_one(shares@[b], s1[b], true));
                assert((|x: ClassShare| fresh_share(x, gs, ni, tr, te))(s1[a]));
                assert((|x: ClassShare| fresh_share(x, gs, ni, tr, te))(s1[b]));
                lemma_on_quota_near(s1[a], ni, te, true);
                lemma_on_quota_near(s1[b], ni, te, true);
                if shares@[b].test_rem > shares@[a].test_rem {
                    if a < b {
                        assert(rem_key(s1[a], true) >= rem_key(s1[b], true));
                    }
                    assert(b < a);
                    lemma_room_for_test(s1[b], ni, te, tr);
                    assert(part(shares@[a], true) == part(s1[a], true) + 1);
                    assert(part(shares@[b], true) == part(s1[b], true) + 1);
                }
            }
            lemma_raised_distinct(shares@, s1, true);
            assert forall|c: int| 0 <= c < shares@.len() implies (part_fn(false))(#[trigger] shares@[c]) == (part_fn(false))(s1[c]) by {
                assert(raised_by_at_most_one(shares@[c], s1[c], true));
            }
            lemma_sum_pointwise(shares@, s1, part_fn(false));
            assert forall|c: int| 0 <= c < shares@.len() implies (size_fn())(#[trigger] shares@[c]) == (size_fn())(s1[c]) by {
                assert(raised_by_at_most_one(shares@[c], s1[c], true));
            }
            lemma_sum_pointwise(shares@, s1, size_fn());
            assert(sum_by(s1, size_fn()) == sum_by(s_init, size_fn()));
        }
    } else {
        proof {
            assert forall|c: int| 0 <= c < shares@.len() implies (|x: ClassShare| test_settled(x, gs, ni, tr, te))(
                #[trigger] shares@[c],
            ) by {
                assert((|x: ClassShare| fresh_share(x, gs, ni, tr, te))(shares@[c]));
                lemma_on_quota_near(shares@[c], ni, te, true);
                lemma_on_quota_near(shares@[c], ni, tr, false);
            }
            assert forall|a: int, b: int|
                0 <= a < shares@.len() && 0 <= b < shares@.len() && rounded_up_share(#[trigger] shares@[a], ni, te, true)
                    && !rounded_up_share(#[trigger] shares@[b], ni, te, true) implies shares@[a].test_rem >= shares@[b].test_rem by {
                assert((|x: ClassShare| fresh_share(x, gs, ni, tr, te))(shares@[a]));
                lemma_on_quota_near(shares@[a], ni, te, true);
            }
        }
    }
    let ghost s2 = shares@;
    proof {
        assert(sum_by(s2, part_fn(true)) == te);
        assert(sum_by(s2, part_fn(false)) <= tr);
        assert(sum_by(s2, size_fn()) == ni);
        if tr + te == ni {
            assert forall|c: int| 0 <= c < s2.len() implies (room_fn())(#[trigger] s2[c]) == (unalloc_fn())(s2[c]) by {
                assert((|x: ClassShare| test_settled(x, gs, ni, tr, te))(s2[c]));
                lemma_unalloc_at_most_one(s2[c], ni, te, tr);
            }
            lemma_sum_congruent(s2, room_fn(), unalloc_fn());
            lemma_sum_unalloc(s2);
            assert(sum_by(s2, room_fn()) == tr - sum_by(s2, part_fn(false)));
        }
        assert forall|c: int| 0 <= c < s2.len() implies (#[trigger] s2[c]).test_c + s2[c].train_c <= s2[c].n_c by {
            assert((|x: ClassShare| test_settled(x, gs, ni, tr, te))(s2[c]));
        }
    }
    let alloc_train = sum_parts(&shares, false);
    if alloc_train < n_train {
        sort_shares_desc(&mut shares, false);
        proof {
            lemma_drawn_keeps(shares@, s2, |x: ClassShare| test_settled(x, gs, ni, tr, te));
            assert forall|c: int| 0 <= c < shares@.len() implies (#[trigger] shares@[c]).test_c + shares@[c].train_c
                <= shares@[c].n_c by {
                assert((|x: ClassShare| test_settled(x, gs, ni, tr, te))(shares@[c]));
            }
        }
        let ghost s3 = shares@;
        proof {
            assert(sum_by(s3, room_fn()) == sum_by(s2, room_fn()));
            assert(sum_by(s3, part_fn(false)) == sum_by(s2, part_fn(false)));
        }
        let left = add_remainders(&mut shares, n_train - alloc_train, false);
        proof {
            if sum_by(shares@, part_fn(false)) < tr {
                assert(left > 0);
                assert forall|c: int| 0 <= c < shares@.len() implies rounded_up_share(#[trigger] shares@[c], ni, tr, false)
                    || shares@[c].test_c + shares@[c].train_c == shares@[c].n_c by {
                    assert(raised_by_at_most_one(shares@[c], s3[c], false));
                    assert((|x: ClassShare| test_settled(x, gs, ni, tr, te))(s3[c]));
                    lemma_on_quota_near(s3[c], ni, tr, false);
                    if s3[c].test_c + s3[c].train_c < s3[c].n_c {
                        assert(part(shares@[c], false) == part(s3[c], false) + 1);
                    }
                }
            }
            assert forall|c: int| 0 <= c < shares@.len() implies settled(#[trigger] shares@[c], gs, ni, tr, te) by {
                assert(raised_by_at_most_one(shares@[c], s3[c], false));
                assert((|x: ClassShare| test_settled(x, gs, ni, tr, te))(s3[c]));
                lemma_on_quota_near(s3[c], ni, tr, false);
            }
            assert forall|a: int, b: int|
                0 <= a < shares@.len() && 0 <= b < shares@.len() && rounded_up_share(#[trigger] shares@[a], ni, te, true)
                    && !rounded_up_share(#[trigger] shares@[b], ni, te, true) implies shares@[a].test_rem >= shares@[b].test_rem by {
                assert(raised_by_at_most_one(shares@[a], s3[a], false));
                assert(raised_by_at_most_one(shares@[b], s3[b], false));
                assert(came_from(s3[a], s2));
                assert(came_from(s3[b], s2));
                let ja = choose|j: int| 0 <= j < s2.len() && s2[j] == s3[a];
                let jb = choose|j: int| 0 <= j < s2.len() && s2[j] == s3[b];
                assert(rounded_up_share(s2[ja], ni, te, true));
                assert(!rounded_up_share(s2[jb], ni, te, true));
            }
            assert forall|a: int, b: int|
                0 <= a < shares@.len() && 0 <= b < shares@.len() && rounded_up_share(#[trigger] shares@[a], ni, tr, false)
                    && !rounded_up_share(#[trigger] shares@[b], ni, tr, false) && shares@[b].train_rem > shares@[a].train_rem
                    implies shares@[b].test_c + shares@[b].train_c == shares@[b].n_c by {
                assert(raised_by_at_most_one(shares@[a], s3[a], false));
                assert(raised_by_at_most_one(shares@[b], s3[b], false));
                assert((|x: ClassShare| test_settled(x, gs, ni, tr, te))(s3[a]));
                assert((|x: ClassShare| test_settled(x, gs, ni, tr, te))(s3[b]));
                lemma_on_quota_near(s3[a], ni, tr, false);
                lemma_on_quota_near(s3[b], ni, tr, false);
                if a < b {
                    assert(rem_key(s3[a], false) >= rem_key(s3[b], false));
                }
                assert(b < a);
                assert(part(shares@[a], false) == part(s3[a], false) + 1);
                if s3[b].test_c + s3[b].train_c < s3[b].n_c {
                    assert(part(shares@[b], false) == part(s3[b], false) + 1);
                }
            }
            lemma_raised_distinct(shares@, s3, false);
            assert forall|c: int| 0 <= c < shares@.len() implies (part_fn(true))(#[trigger] shares@[c]) == (part_fn(true))(s3[c]) by {
                assert(raised_by_at_most_one(shares@[c], s3[c], false));
            }
            lemma_sum_pointwise(shares@, s3, part_fn(true));
        }
    } else {
        proof {
            assert forall|c: int| 0 <= c < shares@.len() implies settled(#[trigger] shares@[c], gs, ni, tr, te) by {
                assert((|x: ClassShare| test_settled(x, gs, ni, tr, te))(shares@[c]));
                lemma_on_quota_near(shares@[c], ni, tr, false);
            }
            assert forall|a: int, b: int|
                0 <= a < shares@.len() && 0 <= b < shares@.len() && rounded_up_share(#[trigger] shares@[a], ni, tr, false)
                    && !rounded_up_share(#[trigger] shares@[b], ni, tr, false) && shares@[b].train_rem > shares@[a].train_rem
                    implies shares@[b].test_c + shares@[b].train_c == shares@[b].n_c by {
                assert((|x: ClassShare| test_settled(x, gs, ni, tr, te))(shares@[a]));
                lemma_on_quota_near(shares@[a], ni, tr, false);
            }
        }
    }
    shares
}


/// `x` is one of the samples that a share takes from its group for testing.
spec fn in_test_part(x: usize, groups: Seq<Vec<usize>>, shares: Seq<ClassShare>) -> bool {
    exists|j: int, p: int|
        0 <= j < shares.len() && 0 <= p < shares[j].test_c && #[trigger] groups[shares[j].group as int]@[p] == x
}

/// `x` is one of the samples that a share takes from its group for training.
spec fn in_train_part(x: usize, groups: Seq<Vec<usize>>, shares: Seq<ClassShare>) -> bool {
    exists|j: int, p: int|
        0 <= j < shares.len() && shares[j].test_c <= p < shares[j].test_c + shares[j].train_c
            && #[trigger] groups[shares[j].group as int]@[p] == x
}

proof fn lemma_push_contains(s: Seq<usize>, x: usize)
    ensures
        forall|y: usize| s.contains(y) ==> #[trigger] s.push(x).contains(y),
        s.push(x).contains(x),
{
    assert forall|y: usize| s.contains(y) implies #[trigger] s.push(x).contains(y) by {
        let k = choose|k: int| 0 <= k < s.len() && s[k] == y;
        assert(s.push(x)[k] == y);
    }
    assert(s.push(x)[s.len() as int] == x);
}

/// `x` is one of the first samples that the shares before `s` take from their groups,
/// or one of the first `pos` that share `s` takes.
spec fn placed(x: usize, groups: Seq<Vec<usize>>, shares: Seq<ClassShare>, s: int, pos: int) -> bool {
    exists|j: int, p: int|
        0 <= j <= s && j < shares.len() && 0 <= p && (if j < s {
            p < shares[j].test_c + shares[j].train_c
        } else {
            p < pos
        }) && #[trigger] groups[shares[j].group as int]@[p] == x
}

/// Two sequences without repeats and without a common element make one without repeats.
proof fn lemma_concat_distinct(a: Seq<usize>, b: Seq<usize>)
    requires
        a.no_duplicates(),
        b.no_duplicates(),
        forall|i: int, j: int| 0 <= i < a.len() && 0 <= j < b.len() ==> #[trigger] a[i] != #[trigger] b[j],
    ensures
        (a + b).no_duplicates(),
{
    let t = a + b;
    assert forall|i: int, j: int| 0 <= i < j < t.len() implies t[i] != t[j] by {
        if j < a.len() {
            assert(t[i] == a[i] && t[j] == a[j]);
        } else if i >= a.len() {
            assert(t[i] == b[i - a.len()] && t[j] == b[j - a.len()]);
        } else {
            assert(t[i] == a[i] && t[j] == b[j - a.len()]);
        }
    }
}

/// Takes from each share's group its first `test_c` indices for testing and the next
/// `train_c` for training, share after share. Returns `(train, test)`.
#[verifier::rlimit(60)]
fn assemble(groups: &Vec<Vec<usize>>, shares: &Vec<ClassShare>, labels: Ghost<Seq<String>>) -> (r: (
    Vec<usize>,
    Vec<usize>,
))
    requires
        label_groups(labels@, groups@),
        forall|c: int| 0 <= c < shares@.len() ==> share_fits(#[trigger] shares@[c], groups@),
        distinct_groups(shares@),
    ensures
        r.1@.len() == sum_by(shares@, part_fn(true)),
        r.0@.len() == sum_by(shares@, part_fn(false)),
        valid_split(labels@.len() as int, r.0@, r.1@),
        forall|g: int|
            0 <= g < groups@.len() ==> count_labelled(r.1@, labels@, #[trigger] group_key(labels@, groups@, g)) == sum_group(
                shares@,
                g,
                true,
            ) && count_labelled(r.0@, labels@, group_key(labels@, groups@, g)) == sum_group(shares@, g, false),
        forall|k: int| 0 <= k < r.1@.len() ==> in_test_part(#[trigger] r.1@[k], groups@, shares@),
        forall|k: int| 0 <= k < r.0@.len() ==> in_train_part(#[trigger] r.0@[k], groups@, shares@),
        forall|j: int, p: int|
            0 <= j < shares@.len() && 0 <= p < shares@[j].test_c ==> r.1@.contains(
                #[trigger] groups@[shares@[j].group as int]@[p],
            ),
        forall|j: int, p: int|
            0 <= j < shares@.len() && shares@[j].test_c <= p < shares@[j].test_c + shares@[j].train_c ==> r.0@.contains(
                #[trigger] groups@[shares@[j].group as int]@[p],
            ),
{
    let ghost gs = groups@;
    let ghost sh = shares@;
    let ghost n = labels@.len() as int;
    let mut train: Vec<usize> = Vec::new();
    let mut test: Vec<usize> = Vec::new();
    let mut s: usize = 0;
    while s < shares.len()
        invariant
            gs == groups@,
            sh == shares@,
            n == labels@.len(),
            label_groups(labels@, gs),
            forall|c: int| 0 <= c < sh.len() ==> share_fits(#[trigger] sh[c], gs),
            distinct_groups(sh),
            s <= sh.len(),
            test@.len() == sum_by(sh.take(s as int), part_fn(true)),
            train@.len() == sum_by(sh.take(s as int), part_fn(false)),
            train@.no_duplicates(),
            test@.no_duplicates(),
            forall|i: int, j: int| 0 <= i < train@.len() && 0 <= j < test@.len() ==> #[trigger] train@[i] != #[trigger] test@[j],
            forall|k: int| 0 <= k < train@.len() ==> #[trigger] train@[k] < n && placed(train@[k], gs, sh, s as int, 0),
            forall|k: int| 0 <= k < test@.len() ==> #[trigger] test@[k] < n && placed(test@[k], gs, sh, s as int, 0),
            forall|h: int|
                0 <= h < gs.len() ==> count_labelled(test@, labels@, #[trigger] group_key(labels@, gs, h)) == sum_group(
                    sh.take(s as int),
                    h,
                    true,
                ) && count_labelled(train@, labels@, group_key(labels@, gs, h)) == sum_group(sh.take(s as int), h, false),
            forall|k: int| 0 <= k < test@.len() ==> in_test_part(#[trigger] test@[k], gs, sh),
            forall|k: int| 0 <= k < train@.len() ==> in_train_part(#[trigger] train@[k], gs, sh),
            forall|j: int, p: int|
                0 <= j < s && 0 <= p < sh[j].test_c ==> test@.contains(#[trigger] gs[sh[j].group as int]@[p]),
            forall|j: int, p: int|
                0 <= j < s && sh[j].test_c <= p < sh[j].test_c + sh[j].train_c ==> train@.contains(
                    #[trigger] gs[sh[j].group as int]@[p],
                ),
        decreases sh.len() - s,
    {
        let g = shares[s].group;
        let tc = shares[s].test_c;
        let rc = shares[s].train_c;
        proof {
            assert(share_fits(sh[s as int], gs));
            lemma_sum_take_step(sh, s as int, part_fn(true));
            lemma_sum_take_step(sh, s as int, part_fn(false));
        }
        let ghost train0 = train@.len();
        let ghost test0 = test@.len();
        let mut pos: usize = 0;
        while pos < tc + rc
            invariant
                gs == groups@,
                sh == shares@,
                n == labels@.len(),
                label_groups(labels@, gs),
                forall|c: int| 0 <= c < sh.len() ==> share_fits(#[trigger] sh[c], gs),
                distinct_groups(sh),
                s < sh.len(),
                g == sh[s as int].group,
                tc == sh[s as int].test_c,
                rc == sh[s as int].train_c,
                pos <= tc + rc,
                test@.len() == test0 + if pos <= tc { pos as int } else { tc as int },
                train@.len() == train0 + if pos <= tc { 0int } else { pos - tc },
                train@.no_duplicates(),
                test@.no_duplicates(),
                forall|i: int, j: int| 0 <= i < train@.len() && 0 <= j < test@.len() ==> #[trigger] train@[i] != #[trigger] test@[j],
                forall|k: int| 0 <= k < train@.len() ==> #[trigger] train@[k] < n && placed(train@[k], gs, sh, s as int, pos as int),
                forall|k: int| 0 <= k < test@.len() ==> #[trigger] test@[k] < n && placed(test@[k], gs, sh, s as int, pos as int),
                forall|h: int|
                    0 <= h < gs.len() ==> count_labelled(test@, labels@, #[trigger] group_key(labels@, gs, h)) == sum_group(
                        sh.take(s as int),
                        h,
                        true,
                    ) + if h == g {
                        if pos <= tc { pos as int } else { tc as int }
                    } else {
                        0int
                    } && count_labelled(train@, labels@, group_key(labels@, gs, h)) == sum_group(sh.take(s as int), h, false)
                        + if h == g {
                        if pos <= tc { 0int } else { pos - tc }
                    } else {
                        0int
                    },
                forall|k: int| 0 <= k < test@.len() ==> in_test_part(#[trigger] test@[k], gs, sh),
                forall|k: int| 0 <= k < train@.len() ==> in_train_part(#[trigger] train@[k], gs, sh),
                forall|j: int, p: int|
                    0 <= j < s && 0 <= p < sh[j].test_c ==> test@.contains(#[trigger] gs[sh[j].group as int]@[p]),
                forall|j: int, p: int|
                    0 <= j < s && sh[j].test_c <= p < sh[j].test_c + sh[j].train_c ==> train@.contains(
                        #[trigger] gs[sh[j].group as int]@[p],
                    ),
                forall|p: int| 0 <= p < pos && p < tc ==> test@.contains(#[trigger] gs[g as int]@[p]),
                forall|p: int| tc <= p < pos ==> train@.contains(#[trigger] gs[g as int]@[p]),
            decreases tc + rc - pos,
        {
            proof {
                assert(share_fits(sh[s as int], gs));
            }
            let x = groups[g][pos];
            proof {
                assert(gs[g as int]@[pos as int] == x);
                assert(x < n);
                assert forall|y: usize| placed(y, gs, sh, s as int, pos as int) implies y != x by {
                    let (j, p) = choose|j: int, p: int|
                        0 <= j <= s && j < sh.len() && 0 <= p && (if j < s {
                            p < sh[j].test_c + sh[j].train_c
                        } else {
                            p < pos
                        }) && #[trigger] gs[sh[j].group as int]@[p] == y;
                    assert(share_fits(sh[j], gs));
                    if j == s {
                        assert(gs[g as int]@.no_duplicates());
                    } else {
                        if j < s {
                            assert(sh[j].group != sh[s as int].group);
                        }
                        let gj = sh[j].group as int;
                        assert(labels@[gs[gj]@[p] as int]@ != labels@[gs[g as int]@[pos as int] as int]@);
                    }
                }
                assert forall|y: usize| placed(y, gs, sh, s as int, pos as int) implies placed(y, gs, sh, s as int, pos + 1) by {
                    let (j, p) = choose|j: int, p: int|
                        0 <= j <= s && j < sh.len() && 0 <= p && (if j < s {
                            p < sh[j].test_c + sh[j].train_c
                        } else {
                            p < pos
                        }) && #[trigger] gs[sh[j].group as int]@[p] == y;
                }
                assert(placed(x, gs, sh, s as int, pos + 1));
            }
            let ghost test_before = test@;
            let ghost train_before = train@;
            proof {
                assert(labels@[x as int]@ == group_key(labels@, gs, g as int));
                assert forall|h: int| 0 <= h < gs.len() && h != g implies #[trigger] group_key(labels@, gs, h) != labels@[x as int]@ by {
                    assert(labels@[gs[h]@[0] as int]@ != labels@[gs[g as int]@[pos as int] as int]@);
                }
            }
            if pos < tc {
                test.push(x);
                proof {
                    lemma_push_contains(test_before, x);
                    assert(gs[sh[s as int].group as int]@[pos as int] == x);
                    assert(in_test_part(x, gs, sh));
                    assert forall|k: int| 0 <= k < test@.len() implies in_test_part(#[trigger] test@[k], gs, sh) by {
                        if k < test_before.len() {
                            assert(test@[k] == test_before[k]);
                        }
                    }
                    assert forall|h: int| 0 <= h < gs.len() implies #[trigger] count_labelled(test@, labels@, group_key(labels@, gs, h))
                        == count_labelled(test_before, labels@, group_key(labels@, gs, h)) + if h == g { 1int } else { 0int } by {
                        lemma_count_labelled_push(test_before, x, labels@, group_key(labels@, gs, h));
                    }
                }
            } else {
                train.push(x);
                proof {
                    lemma_push_contains(train_before, x);
                    assert(gs[sh[s as int].group as int]@[pos as int] == x);
                    assert(in_train_part(x, gs, sh));
                    assert forall|k: int| 0 <= k < train@.len() implies in_train_part(#[trigger] train@[k], gs, sh) by {
                        if k < train_before.len() {
                            assert(train@[k] == train_before[k]);
                        }
                    }
                    assert forall|h: int| 0 <= h < gs.len() implies #[trigger] count_labelled(train@, labels@, group_key(labels@, gs, h))
                        == count_labelled(train_before, labels@, group_key(labels@, gs, h)) + if h == g { 1int } else { 0int } by {
                        lemma_count_labelled_push(train_before, x, labels@, group_key(labels@, gs, h));
                    }
                }
            }
            pos = pos + 1;
        }
        proof {
            assert forall|h: int| 0 <= h < gs.len() implies #[trigger] sum_group(sh.take(s + 1), h, true) == sum_group(sh.take(s as int), h, true)
                + if sh[s as int].group == h { tc as int } else { 0int } by {
                lemma_sum_group_take_step(sh, s as int, h, true);
            }
            assert forall|h: int| 0 <= h < gs.len() implies #[trigger] sum_group(sh.take(s + 1), h, false) == sum_group(sh.take(s as int), h, false)
                + if sh[s as int].group == h { rc as int } else { 0int } by {
                lemma_sum_group_take_step(sh, s as int, h, false);
            }
        }
        proof {
            assert forall|y: usize| placed(y, gs, sh, s as int, pos as int) implies placed(y, gs, sh, s + 1, 0) by {
                let (j, p) = choose|j: int, p: int|
                    0 <= j <= s && j < sh.len() && 0 <= p && (if j < s {
                        p < sh[j].test_c + sh[j].train_c
                    } else {
                        p < pos
                    }) && #[trigger] gs[sh[j].group as int]@[p] == y;
                if s + 1 < sh.len() {
                    assert(placed(y, gs, sh, s + 1, 0));
                } else {
                    assert(placed(y, gs, sh, s + 1, 0));
                }
            }
        }
        s = s + 1;
    }
    proof {
        assert(sh.take(s as int) =~= sh);
        lemma_concat_distinct(train@, test@);
    }
    (train, test)
}


/// Reordering each of the two lists keeps a split valid.
proof fn lemma_valid_after_reorder(n: int, train: Seq<usize>, test: Seq<usize>, train2: Seq<usize>, test2: Seq<usize>)
    requires
        valid_split(n, train, test),
        train2.to_multiset() == train.to_multiset(),
        test2.to_multiset() == test.to_multiset(),
    ensures
        valid_split(n, train2, test2),
{
    broadcast use vstd::seq_lib::group_to_multiset_ensures;

    let all = train + test;
    assert forall|i: int, j: int| 0 <= i < j < train.len() implies train[i] != train[j] by {
        assert(all[i] == train[i] && all[j] == train[j]);
    }
    assert forall|i: int, j: int| 0 <= i < j < test.len() implies test[i] != test[j] by {
        assert(all[i + train.len()] == test[i] && all[j + train.len()] == test[j]);
    }
    assert(train.no_duplicates());
    assert(test.no_duplicates());
    lemma_permutation_keeps(train, train2, n);
    lemma_permutation_keeps(test, test2, n);
    assert forall|i: int, j: int| 0 <= i < train2.len() && 0 <= j < test2.len() implies #[trigger] train2[i]
        != #[trigger] test2[j] by {
        let x = train2[i];
        if x == test2[j] {
            lemma_permutation_contains(train, train2, x);
            lemma_permutation_contains(test, test2, x);
            assert(train2.contains(x));
            assert(test2.contains(x));
            let a = choose|a: int| 0 <= a < train.len() && train[a] == x;
            let b = choose|b: int| 0 <= b < test.len() && test[b] == x;
            assert(all[a] == x && all[b + train.len()] == x);
        }
    }
    lemma_concat_distinct(train2, test2);
}

/// The number of indices in `s` whose label is `key`.
pub open spec fn count_labelled(s: Seq<usize>, labels: Seq<String>, key: Seq<char>) -> int
    decreases s.len(),
{
    if s.len() == 0 {
        0
    } else {
        count_labelled(s.drop_last(), labels, key) + if labels[s.last() as int]@ == key {
            1int
        } else {
            0int
        }
    }
}

proof fn lemma_count_labelled_push(s: Seq<usize>, x: usize, labels: Seq<String>, key: Seq<char>)
    ensures
        count_labelled(s.push(x), labels, key) == count_labelled(s, labels, key) + if labels[x as int]@ == key {
            1int
        } else {
            0int
        },
{
    assert(s.push(x).drop_last() =~= s);
}

proof fn lemma_count_labelled_remove(s: Seq<usize>, j: int, labels: Seq<String>, key: Seq<char>)
    requires
        0 <= j < s.len(),
    ensures
        count_labelled(s, labels, key) == count_labelled(s.remove(j), labels, key) + if labels[s[j] as int]@ == key {
            1int
        } else {
            0int
        },
    decreases s.len(),
{
    if j == s.len() - 1 {
        assert(s.remove(j) =~= s.drop_last());
    } else {
        assert(s.remove(j).drop_last() =~= s.drop_last().remove(j));
        assert(s.remove(j).last() == s.last());
        lemma_count_labelled_remove(s.drop_last(), j, labels, key);
    }
}

/// Reordering a list does not change how many of its indices carry a label.
proof fn lemma_count_labelled_reorder(a: Seq<usize>, b: Seq<usize>, labels: Seq<String>, key: Seq<char>)
    requires
        a.to_multiset() == b.to_multiset(),
    ensures
        count_labelled(a, labels, key) == count_labelled(b, labels, key),
    decreases a.len(),
{
    broadcast use vstd::seq_lib::group_to_multiset_ensures;
    broadcast use vstd::multiset::group_multiset_axioms;

    if a.len() == 0 {
        assert(b.to_multiset().len() == 0);
        assert(b.len() == 0);
    } else {
        let x = a.last();
        let a2 = a.drop_last();
        assert(a2.push(x) =~= a);
        assert(a.to_multiset() == a2.to_multiset().insert(x));
        assert(a.to_multiset().count(x) > 0);
        assert(b.contains(x));
        let j = choose|j: int| 0 <= j < b.len() && b[j] == x;
        let b2 = b.remove(j);
        assert(b2.to_multiset() == b.to_multiset().remove(x));
        assert(b2.to_multiset() =~= a2.to_multiset());
        lemma_count_labelled_reorder(a2, b2, labels, key);
        lemma_count_labelled_remove(b, j, labels, key);
    }
}

/// The counts of a phase of the shares of group `g`.
pub open spec fn sum_group(s: Seq<ClassShare>, g: int, by_test: bool) -> int
    decreases s.len(),
{
    if s.len() == 0 {
        0
    } else {
        sum_group(s.drop_last(), g, by_test) + if s.last().group == g {
            part(s.last(), by_test)
        } else {
            0int
        }
    }
}

proof fn lemma_sum_group_take_step(s: Seq<ClassShare>, k: int, g: int, by_test: bool)
    requires
        0 <= k < s.len(),
    ensures
        sum_group(s.take(k + 1), g, by_test) == sum_group(s.take(k), g, by_test) + if s[k].group == g {
            part(s[k], by_test)
        } else {
            0int
        },
{
    assert(s.take(k + 1).drop_last() =~= s.take(k));
}

/// With groups kept apart, the counts of group `g` are those of its one share.
proof fn lemma_sum_group_single(s: Seq<ClassShare>, j: int, by_test: bool)
    requires
        0 <= j < s.len(),
        distinct_groups(s),
    ensures
        sum_group(s, s[j].group as int, by_test) == part(s[j], by_test),
    decreases s.len(),
{
    let p = s.drop_last();
    assert(distinct_groups(p)) by {
        assert forall|a: int, b: int| 0 <= a < b < p.len() implies (#[trigger] p[a]).group != (#[trigger] p[b]).group by {
            assert(p[a] == s[a] && p[b] == s[b]);
        }
    }
    if j == s.len() - 1 {
        lemma_sum_group_absent(p, s[j].group as int, by_test);
        assert forall|c: int| 0 <= c < p.len() implies (#[trigger] p[c]).group != s[j].group by {
            assert(p[c] == s[c]);
        }
    } else {
        assert(p[j] == s[j]);
        lemma_sum_group_single(p, j, by_test);
        assert(s.last().group != s[j].group);
    }
}

proof fn lemma_sum_group_absent(s: Seq<ClassShare>, g: int, by_test: bool)
    ensures
        (forall|c: int| 0 <= c < s.len() ==> (#[trigger] s[c]).group != g) ==> sum_group(s, g, by_test) == 0,
    decreases s.len(),
{
    if s.len() > 0 {
        let p = s.drop_last();
        lemma_sum_group_absent(p, g, by_test);
        if forall|c: int| 0 <= c < s.len() ==> (#[trigger] s[c]).group != g {
            assert forall|c: int| 0 <= c < p.len() implies (#[trigger] p[c]).group != g by {
                assert(p[c] == s[c]);
            }
            assert(s[s.len() - 1].group != g);
        }
    }
}

/// Shares of distinct groups, as many as there are groups, name every group.
proof fn lemma_shares_cover(s: Seq<ClassShare>, m: int, g: int)
    requires
        s.len() == m,
        distinct_groups(s),
        forall|c: int| 0 <= c < s.len() ==> (#[trigger] s[c]).group < m,
        0 <= g < m,
    ensures
        exists|j: int| 0 <= j < s.len() && (#[trigger] s[j]).group == g,
{
    let gs = s.map(|j: int, c: ClassShare| c.group as int);
    assert(gs.no_duplicates()) by {
        assert forall|a: int, b: int| 0 <= a < gs.len() && 0 <= b < gs.len() && a != b implies gs[a] != gs[b] by {
            if a < b {
                assert(s[a].group != s[b].group);
            } else {
                assert(s[b].group != s[a].group);
            }
        }
    }
    gs.unique_seq_to_set();
    vstd::set_lib::lemma_int_range(0, m);
    let range = vstd::set_lib::set_int_range(0, m);
    assert(gs.to_set().subset_of(range)) by {
        assert forall|x: int| gs.to_set().contains(x) implies range.contains(x) by {
            assert(gs.contains(x));
            let j = choose|j: int| 0 <= j < gs.len() && gs[j] == x;
            assert(s[j].group < m);
        }
    }
    vstd::set_lib::lemma_len_subset(gs.to_set(), range);
    vstd::set_lib::lemma_subset_equality(gs.to_set(), range);
    assert(range.contains(g));
    assert(gs.to_set().contains(g));
    assert(gs.contains(g));
    let j = choose|j: int| 0 <= j < gs.len() && gs[j] == g;
    assert(s[j].group == g);
}

/// A split that keeps the proportion of each label: the indices are grouped by label
/// (each group shuffled first if asked), each group gives its quota of test and of
/// training samples (see `allocate_shares`), and the two lists are shuffled at the end if
/// asked. Each label gets its proportional share of the `n_test` test samples and of the
/// `n_train` training samples, rounded down or up, the samples left over by rounding
/// down going to the labels with the largest remainders; every test sample is handed
/// out, while the training samples still owed after rounding go only to labels with
/// samples left, so the training list may come out shorter than `n_train`: only when
/// every label got its training quota rounded up or gave all its samples (never when
/// the two sizes add up to all samples). Unshuffled, each label gives its first
/// samples (by index) to the test list and the next ones to the training list.
pub fn split_stratified(labels: &[String], n_train: usize, n_test: usize, shuffle: bool, rng: &mut SmallRng) -> (r:
    SplitIndices)
    requires
        labels@.len() > 0,
        n_train + n_test <= labels@.len(),
    ensures
        r.test_indices@.len() == n_test,
        r.train_indices@.len() <= n_train,
        n_train + n_test == labels@.len() ==> r.train_indices@.len() == n_train,
        valid_split(labels@.len() as int, r.train_indices@, r.test_indices@),
        forall|i: int|
            0 <= i < labels@.len() ==> stratified(r.test_indices@, labels@, #[trigger] labels@[i]@, n_test as int) && stratified(
                r.train_indices@,
                labels@,
                labels@[i]@,
                n_train as int,
            ),
        largest_remainders(r.train_indices@, r.test_indices@, labels@, n_train as int, n_test as int),
        !shuffle ==> forall|x: int| 0 <= x < labels@.len() ==> #[trigger] by_rank(r.train_indices@, r.test_indices@, labels@, x),
        train_short_only_when_full(r.train_indices@, r.test_indices@, labels@, n_train as int),
{
    let n = labels.len();
    let mut groups = group_by_label(labels);
    let ghost g0 = groups@;
    proof {
        lemma_label_groups(labels@, groups@);
    }
    if shuffle {
        shuffle_groups(&mut groups, Ghost(labels@), rng);
    }
    let shares = allocate_shares(&groups, n, n_train, n_test);
    proof {
        assert forall|c: int| 0 <= c < shares@.len() implies share_fits(#[trigger] shares@[c], groups@) by {
            assert(settled(shares@[c], groups@, n as int, n_train as int, n_test as int));
        }
    }
    let (mut train, mut test) = assemble(&groups, &shares, Ghost(labels@));
    proof {
        let gs = groups@;
        let sh = shares@;
        assert forall|i: int| 0 <= i < labels@.len() implies stratified(test@, labels@, #[trigger] labels@[i]@, n_test as int)
            && stratified(train@, labels@, labels@[i]@, n_train as int) by {
            assert(keyed(labels@, gs, i));
            let g = choose|g: int| 0 <= g < gs.len() && #[trigger] group_key(labels@, gs, g) == labels@[i]@;
            assert forall|c: int| 0 <= c < sh.len() implies (#[trigger] sh[c]).group < sh.len() by {
                assert(settled(sh[c], gs, n as int, n_train as int, n_test as int));
            }
            lemma_shares_cover(sh, sh.len() as int, g);
            let j = choose|j: int| 0 <= j < sh.len() && (#[trigger] sh[j]).group == g;
            lemma_sum_group_single(sh, j, true);
            lemma_sum_group_single(sh, j, false);
            assert(settled(sh[j], gs, n as int, n_train as int, n_test as int));
            assert(group_key(labels@, gs, g) == labels@[i]@);
        }
        assert forall|i: int, j: int|
            #![trigger labels@[i], labels@[j]]
            0 <= i < labels@.len() && 0 <= j < labels@.len() && rounded_up(test@, labels@, labels@[i]@, n_test as int)
                && !rounded_up(test@, labels@, labels@[j]@, n_test as int) implies quota_rem(labels@, labels@[i]@, n_test as int)
            >= quota_rem(labels@, labels@[j]@, n_test as int) by {
            let a = lemma_label_share(labels@, gs, sh, train@, test@, n_train as int, n_test as int, i);
            let b = lemma_label_share(labels@, gs, sh, train@, test@, n_train as int, n_test as int, j);
            assert(settled(sh[a], gs, n as int, n_train as int, n_test as int));
            assert(settled(sh[b], gs, n as int, n_train as int, n_test as int));
            assert(rounded_up_share(sh[a], n as int, n_test as int, true));
            assert(!rounded_up_share(sh[b], n as int, n_test as int, true));
        }
        assert forall|i: int, j: int|
            #![trigger labels@[i], labels@[j]]
            0 <= i < labels@.len() && 0 <= j < labels@.len() && rounded_up(train@, labels@, labels@[i]@, n_train as int)
                && !rounded_up(train@, labels@, labels@[j]@, n_train as int) && quota_rem(labels@, labels@[j]@, n_train as int)
                > quota_rem(labels@, labels@[i]@, n_train as int) implies count_labelled(test@, labels@, labels@[j]@)
            + count_labelled(train@, labels@, labels@[j]@) == count_key(labels@, labels@[j]@) by {
            let a = lemma_label_share(labels@, gs, sh, train@, test@, n_train as int, n_test as int, i);
            let b = lemma_label_share(labels@, gs, sh, train@, test@, n_train as int, n_test as int, j);
            assert(settled(sh[a], gs, n as int, n_train as int, n_test as int));
            assert(settled(sh[b], gs, n as int, n_train as int, n_test as int));
            assert(rounded_up_share(sh[a], n as int, n_train as int, false));
            assert(!rounded_up_share(sh[b], n as int, n_train as int, false));
        }
        if train@.len() < n_train {
            assert forall|i: int|
                #![trigger labels@[i]]
                0 <= i < labels@.len() implies rounded_up(train@, labels@, labels@[i]@, n_train as int) || count_labelled(
                test@,
                labels@,
                labels@[i]@,
            ) + count_labelled(train@, labels@, labels@[i]@) == count_key(labels@, labels@[i]@) by {
                let a = lemma_label_share(labels@, gs, sh, train@, test@, n_train as int, n_test as int, i);
                assert(settled(sh[a], gs, n as int, n_train as int, n_test as int));
                assert(rounded_up_share(sh[a], n as int, n_train as int, false) || sh[a].test_c + sh[a].train_c == sh[a].n_c);
            }
        }
        if !shuffle {
            assert forall|x: int| 0 <= x < labels@.len() implies #[trigger] by_rank(train@, test@, labels@, x) by {
                lemma_by_rank(labels@, gs, sh, train@, test@, n_train as int, n_test as int, x);
            }
        }
    }
    if shuffle {
        let ghost tr0 = train@;
        let ghost te0 = test@;
        shuffle_small(&mut train, rng);
        shuffle_small(&mut test, rng);
        proof {
            lemma_valid_after_reorder(n as int, tr0, te0, train@, test@);
            assert forall|i: int| 0 <= i < labels@.len() implies stratified(test@, labels@, #[trigger] labels@[i]@, n_test as int)
                && stratified(train@, labels@, labels@[i]@, n_train as int) by {
                assert(stratified(te0, labels@, labels@[i]@, n_test as int));
                lemma_count_labelled_reorder(te0, test@, labels@, labels@[i]@);
                lemma_count_labelled_reorder(tr0, train@, labels@, labels@[i]@);
            }
            assert forall|i: int, j: int|
                #![trigger labels@[i], labels@[j]]
                0 <= i < labels@.len() && 0 <= j < labels@.len() && rounded_up(test@, labels@, labels@[i]@, n_test as int)
                    && !rounded_up(test@, labels@, labels@[j]@, n_test as int) implies quota_rem(labels@, labels@[i]@, n_test as int)
                >= quota_rem(labels@, labels@[j]@, n_test as int) by {
                lemma_count_labelled_reorder(te0, test@, labels@, labels@[i]@);
                lemma_count_labelled_reorder(te0, test@, labels@, labels@[j]@);
            }
            assert forall|i: int, j: int|
                #![trigger labels@[i], labels@[j]]
                0 <= i < labels@.len() && 0 <= j < labels@.len() && rounded_up(train@, labels@, labels@[i]@, n_train as int)
                    && !rounded_up(train@, labels@, labels@[j]@, n_train as int) && quota_rem(labels@, labels@[j]@, n_train as int)
                    > quota_rem(labels@, labels@[i]@, n_train as int) implies count_labelled(test@, labels@, labels@[j]@)
                + count_labelled(train@, labels@, labels@[j]@) == count_key(labels@, labels@[j]@) by {
                lemma_count_labelled_reorder(tr0, train@, labels@, labels@[i]@);
                lemma_count_labelled_reorder(tr0, train@, labels@, labels@[j]@);
                lemma_count_labelled_reorder(te0, test@, labels@, labels@[j]@);
            }
            if train@.len() < n_train {
                assert forall|i: int|
                    #![trigger labels@[i]]
                    0 <= i < labels@.len() implies rounded_up(train@, labels@, labels@[i]@, n_train as int) || count_labelled(
                    test@,
                    labels@,
                    labels@[i]@,
                ) + count_labelled(train@, labels@, labels@[i]@) == count_key(labels@, labels@[i]@) by {
                    assert(tr0.len() < n_train);
                    lemma_count_labelled_reorder(tr0, train@, labels@, labels@[i]@);
                    lemma_count_labelled_reorder(te0, test@, labels@, labels@[i]@);
                }
            }
        }
    }
    SplitIndices { train_indices: train, test_indices: test }
}

/// The remainder of the proportional quota of a label in a phase of `total` samples:
/// its count times `total`, modulo the number of samples.
pub open spec fn quota_rem(labels: Seq<String>, key: Seq<char>, total: int) -> int {
    count_key(labels, key) * total % (labels.len() as int)
}

/// The list holds one sample labelled `key` more than the label's quota rounded down.
pub open spec fn rounded_up(s: Seq<usize>, labels: Seq<String>, key: Seq<char>, total: int) -> bool {
    count_labelled(s, labels, key) == count_key(labels, key) * total / (labels.len() as int) + 1
}

/// The samples left over by rounding the quotas down went to the labels with the
/// largest remainders: a label rounded up in the test list has a remainder at least that
/// of any label that was not; in the training list, a label passed over for one with a
/// smaller remainder has no sample left.
pub open spec fn largest_remainders(train: Seq<usize>, test: Seq<usize>, labels: Seq<String>, n_train: int, n_test: int) -> bool {
    &&& forall|i: int, j: int|
        #![trigger labels[i], labels[j]]
        0 <= i < labels.len() && 0 <= j < labels.len() && rounded_up(test, labels, labels[i]@, n_test) && !rounded_up(
            test,
            labels,
            labels[j]@,
            n_test,
        ) ==> quota_rem(labels, labels[i]@, n_test) >= quota_rem(labels, labels[j]@, n_test)
    &&& forall|i: int, j: int|
        #![trigger labels[i], labels[j]]
        0 <= i < labels.len() && 0 <= j < labels.len() && rounded_up(train, labels, labels[i]@, n_train) && !rounded_up(
            train,
            labels,
            labels[j]@,
            n_train,
        ) && quota_rem(labels, labels[j]@, n_train) > quota_rem(labels, labels[i]@, n_train) ==> count_labelled(
            test,
            labels,
            labels[j]@,
        ) + count_labelled(train, labels, labels[j]@) == count_key(labels, labels[j]@)
}

/// A training list shorter than `n_train` is as long as it can be: every label got its
/// training quota rounded up, or has no sample left that neither list holds.
pub open spec fn train_short_only_when_full(train: Seq<usize>, test: Seq<usize>, labels: Seq<String>, n_train: int) -> bool {
    train.len() < n_train ==> forall|i: int|
        #![trigger labels[i]]
        0 <= i < labels.len() ==> rounded_up(train, labels, labels[i]@, n_train) || count_labelled(test, labels, labels[i]@)
            + count_labelled(train, labels, labels[i]@) == count_key(labels, labels[i]@)
}

/// The share of the group of sample `i` gives its label's counts.
proof fn lemma_label_share(
    labels: Seq<String>,
    gs: Seq<Vec<usize>>,
    sh: Seq<ClassShare>,
    train: Seq<usize>,
    test: Seq<usize>,
    n_train: int,
    n_test: int,
    i: int,
) -> (j: int)
    requires
        label_groups(labels, gs),
        0 <= i < labels.len(),
        sh.len() == gs.len(),
        distinct_groups(sh),
        forall|c: int| 0 <= c < sh.len() ==> settled(#[trigger] sh[c], gs, labels.len() as int, n_train, n_test),
        forall|g: int|
            0 <= g < gs.len() ==> count_labelled(test, labels, #[trigger] group_key(labels, gs, g)) == sum_group(sh, g, true)
                && count_labelled(train, labels, group_key(labels, gs, g)) == sum_group(sh, g, false),
    ensures
        0 <= j < sh.len(),
        count_labelled(test, labels, labels[i]@) == sh[j].test_c,
        count_labelled(train, labels, labels[i]@) == sh[j].train_c,
        count_key(labels, labels[i]@) == sh[j].n_c,
        0 <= sh[j].group < gs.len(),
        group_key(labels, gs, sh[j].group as int) == labels[i]@,
{
    assert(keyed(labels, gs, i));
    let g = choose|g: int| 0 <= g < gs.len() && #[trigger] group_key(labels, gs, g) == labels[i]@;
    assert forall|c: int| 0 <= c < sh.len() implies (#[trigger] sh[c]).group < sh.len() by {
        assert(settled(sh[c], gs, labels.len() as int, n_train, n_test));
    }
    lemma_shares_cover(sh, sh.len() as int, g);
    let j = choose|j: int| 0 <= j < sh.len() && (#[trigger] sh[j]).group == g;
    lemma_sum_group_single(sh, j, true);
    lemma_sum_group_single(sh, j, false);
    assert(settled(sh[j], gs, labels.len() as int, n_train, n_test));
    assert(gs[g]@.len() == count_key(labels, group_key(labels, gs, g)));
    j
}

/// Which side an unshuffled sample lands on: the first samples of each label (by
/// index) go to the test list, the next ones to the training list.
pub open spec fn by_rank(train: Seq<usize>, test: Seq<usize>, labels: Seq<String>, x: int) -> bool {
    let t = count_labelled(test, labels, labels[x]@);
    let k = count_labelled(train, labels, labels[x]@);
    &&& (test.contains(x as usize) <==> rank_in_label(labels, x) < t)
    &&& (train.contains(x as usize) <==> t <= rank_in_label(labels, x) < t + k)
}

proof fn lemma_by_rank(
    labels: Seq<String>,
    gs: Seq<Vec<usize>>,
    sh: Seq<ClassShare>,
    train: Seq<usize>,
    test: Seq<usize>,
    n_train: int,
    n_test: int,
    x: int,
)
    requires
        groups_by_label(labels, gs),
        label_groups(labels, gs),
        0 <= x < labels.len(),
        sh.len() == gs.len(),
        distinct_groups(sh),
        forall|c: int| 0 <= c < sh.len() ==> settled(#[trigger] sh[c], gs, labels.len() as int, n_train, n_test),
        forall|g: int|
            0 <= g < gs.len() ==> count_labelled(test, labels, #[trigger] group_key(labels, gs, g)) == sum_group(sh, g, true)
                && count_labelled(train, labels, group_key(labels, gs, g)) == sum_group(sh, g, false),
        forall|k: int| 0 <= k < test.len() ==> in_test_part(#[trigger] test[k], gs, sh),
        forall|k: int| 0 <= k < train.len() ==> in_train_part(#[trigger] train[k], gs, sh),
        forall|j: int, p: int|
            0 <= j < sh.len() && 0 <= p < sh[j].test_c ==> test.contains(#[trigger] gs[sh[j].group as int]@[p]),
        forall|j: int, p: int|
            0 <= j < sh.len() && sh[j].test_c <= p < sh[j].test_c + sh[j].train_c ==> train.contains(
                #[trigger] gs[sh[j].group as int]@[p],
            ),
    ensures
        by_rank(train, test, labels, x),
{
    assert(grouped(gs, x));
    let (g, p) = choose|g: int, p: int| 0 <= g < gs.len() && 0 <= p < gs[g]@.len() && #[trigger] gs[g]@[p] == x;
    assert(rank_in_label(labels, gs[g]@[p] as int) == p);
    let j = lemma_label_share(labels, gs, sh, train, test, n_train, n_test, x);
    let h = sh[j].group as int;
    if h != g {
        assert(labels[gs[g]@[p] as int]@ != labels[gs[h]@[0] as int]@);
    }
    assert(h == g);
    assert(share_fits(sh[j], gs)) by {
        assert(settled(sh[j], gs, labels.len() as int, n_train, n_test));
    }
    // a sample of a share's group, found at position `q` of group `h2`, is sample `x` only at `p`
    assert forall|j2: int, q: int|
        0 <= j2 < sh.len() && 0 <= q < gs[sh[j2].group as int]@.len() && #[trigger] gs[sh[j2].group as int]@[q] == x
            implies j2 == j && q == p by {
        let h2 = sh[j2].group as int;
        assert(settled(sh[j2], gs, labels.len() as int, n_train, n_test));
        if h2 != g {
            assert(labels[gs[h2]@[q] as int]@ != labels[gs[g]@[p] as int]@);
        }
        assert(gs[g]@.no_duplicates());
        if j2 != j {
            if j2 < j {
                assert(sh[j2].group != sh[j].group);
            } else {
                assert(sh[j].group != sh[j2].group);
            }
        }
    }
    if test.contains(x as usize) {
        let k = choose|k: int| 0 <= k < test.len() && test[k] == x as usize;
        assert(in_test_part(test[k], gs, sh));
    }
    if p < sh[j].test_c {
        assert(test.contains(gs[sh[j].group as int]@[p]));
    }
    if train.contains(x as usize) {
        let k = choose|k: int| 0 <= k < train.len() && train[k] == x as usize;
        assert(in_train_part(train[k], gs, sh));
    }
    if sh[j].test_c <= p < sh[j].test_c + sh[j].train_c {
        assert(train.contains(gs[sh[j].group as int]@[p]));
    }
}

/// The list holds, of the samples labelled `key`, their proportional share of a
/// phase of `total` samples out of all samples, rounded down or up.
pub open spec fn stratified(s: Seq<usize>, labels: Seq<String>, key: Seq<char>, total: int) -> bool {
    let q = count_key(labels, key) * total / (labels.len() as int);
    count_labelled(s, labels, key) == q || count_labelled(s, labels, key) == q + 1
}

/// Splits the sample indices `0..n_samples` into training and test indices.
///
/// Refused: no samples; sizes that `determine_split_sizes` refuses; stratification
/// labels whose number is not `n_samples`. Otherwise the split is stratified by the
/// labels when they are given (`split_stratified`) and plain otherwise (`split_plain`),
/// drawn from a generator seeded with `random_state`, or from the system when none is given.
pub fn compute_split_indices(
    n_samples: usize,
    test_size: Option<SplitSize>,
    train_size: Option<SplitSize>,
    shuffle: bool,
    random_state: Option<u64>,
    stratify: Option<&[String]>,
) -> (r: Result<SplitIndices, SplitError>)
    ensures
        n_samples == 0 ==> r == Err::<SplitIndices, SplitError>(SplitError::NoSamples),
        n_samples > 0 && split_sizes(n_samples, test_size, train_size) is Err ==> r == Err::<
            SplitIndices,
            SplitError,
        >(split_sizes(n_samples, test_size, train_size)->Err_0),
        n_samples > 0 && split_sizes(n_samples, test_size, train_size) is Ok ==> match stratify {
            Some(labels) => if labels@.len() != n_samples {
                r == Err::<SplitIndices, SplitError>(SplitError::StratifyLengthMismatch)
            } else {
                r is Ok && {
                    let (n_train, n_test) = split_sizes(n_samples, test_size, train_size)->Ok_0;
                    let s = r->Ok_0;
                    &&& s.test_indices@.len() == n_test
                    &&& s.train_indices@.len() <= n_train
                    &&& n_train + n_test == n_samples ==> s.train_indices@.len() == n_train
                    &&& valid_split(n_samples as int, s.train_indices@, s.test_indices@)
                    &&& forall|i: int|
                        0 <= i < n_samples ==> stratified(s.test_indices@, labels@, #[trigger] labels@[i]@, n_test as int)
                            && stratified(s.train_indices@, labels@, labels@[i]@, n_train as int)
                    &&& largest_remainders(s.train_indices@, s.test_indices@, labels@, n_train as int, n_test as int)
                    &&& train_short_only_when_full(s.train_indices@, s.test_indices@, labels@, n_train as int)
                    &&& !shuffle ==> forall|x: int|
                        0 <= x < n_samples ==> #[trigger] by_rank(s.train_indices@, s.test_indices@, labels@, x)
                }
            },
            None => r is Ok && {
                let (n_train, n_test) = split_sizes(n_samples, test_size, train_size)->Ok_0;
                let s = r->Ok_0;
                &&& s.test_indices@.len() == n_test
                &&& s.train_indices@.len() == n_train
                &&& valid_split(n_samples as int, s.train_indices@, s.test_indices@)
                &&& !shuffle ==> (forall|k: int| 0 <= k < n_test ==> #[trigger] s.test_indices@[k] == k) && (
                forall|k: int| 0 <= k < n_train ==> #[trigger] s.train_indices@[k] == n_test + k)
            },
        },
{
    if n_samples == 0 {
        return Err(SplitError::NoSamples);
    }
    let (n_train, n_test) = match determine_split_sizes(n_samples, test_size, train_size) {
        Ok(sizes) => sizes,
        Err(e) => {
            return Err(e);
        },
    };
    let mut rng = match random_state {
        Some(seed) => small_rng_from_seed(seed),
        None => small_rng_from_entropy(),
    };
    match stratify {
        Some(labels) => {
            if labels.len() != n_samples {
                return Err(SplitError::StratifyLengthMismatch);
            }
            Ok(split_stratified(labels, n_train, n_test, shuffle, &mut rng))
        },
        None => Ok(split_plain(n_samples, n_train, n_test, shuffle, &mut rng)),
    }
}

} // verus!
