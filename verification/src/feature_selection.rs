//! Feature selection: the elimination schedule of recursive feature elimination, the
//! support of the sequential selector, and the selection of the supported columns.
use vstd::prelude::*;
use crate::table::Table;

verus! {

/// Why a selector refused a request.
#[derive(Debug)]
pub enum FeatureSelectionError {
    NotFitted,
}

/// The rank given to the feature at position `p` of the elimination order (least
/// important first) when `cur` features remain and `target` are to be kept: features
/// are dropped `step` at a time, never below `target`, and a feature dropped while `cur`
/// features remained gets rank `cur`; the kept features get rank 1.
pub open spec fn rank_at(cur: int, target: int, step: int, p: int) -> int
    decreases cur - target,
{
    if cur <= target {
        1
    } else {
        let d = if step < cur - target {
            step
        } else {
            cur - target
        };
        if d <= 0 {
            1
        } else if p < d {
            cur
        } else {
            rank_at(cur - d, target, step, p - d)
        }
    }
}

/// The sequence is an order of the features `0..n`: each once.
pub open spec fn is_order(order: Seq<usize>, n: int) -> bool {
    &&& order.len() == n
    &&& order.no_duplicates()
    &&& forall|p: int| 0 <= p < n ==> #[trigger] order[p] < n
}

/// Recursive feature elimination: the number of features to keep, how many to drop
/// per round, and, once fitted, which features are kept and their ranks.
pub struct RFE {
    pub n_features_to_select: usize,
    pub step: usize,
    pub support_: Option<Vec<bool>>,
    pub ranking_: Option<Vec<usize>>,
}

impl RFE {
    pub fn new(n_features_to_select: usize, step: usize) -> (r: Self)
        ensures
            r.n_features_to_select == n_features_to_select,
            r.step == step,
            r.support_ is None,
            r.ranking_ is None,
    {
        RFE { n_features_to_select, step, support_: None, ranking_: None }
    }

    /// Eliminates features round by round: each round drops the `step` least important
    /// remaining features (fewer in the last round, so that `n_features_to_select`
    /// remain). `order` lists the features from least to most important.
    pub fn fit(&mut self, n_features: usize, order: &[usize])
        requires
            is_order(order@, n_features as int),
            old(self).step > 0 || n_features <= old(self).n_features_to_select,
        ensures
            final(self).n_features_to_select == old(self).n_features_to_select,
            final(self).step == old(self).step,
            final(self).support_ matches Some(s) && final(self).ranking_ matches Some(rk) && {
                &&& s@.len() == n_features
                &&& rk@.len() == n_features
                &&& forall|p: int|
                    0 <= p < n_features ==> rk@[#[trigger] order@[p] as int] == rank_at(
                        n_features as int,
                        old(self).n_features_to_select as int,
                        old(self).step as int,
                        p,
                    ) && s@[order@[p] as int] == (p >= n_features - old(self).n_features_to_select)
            },
    {
        let n = n_features;
        let t = self.n_features_to_select;
        let step = self.step;
        let mut support: Vec<bool> = Vec::new();
        let mut ranking: Vec<usize> = Vec::new();
        let mut j: usize = 0;
        while j < n
            invariant
                j <= n,
                support@.len() == j,
                ranking@.len() == j,
                forall|k: int| 0 <= k < j ==> #[trigger] support@[k],
                forall|k: int| 0 <= k < j ==> #[trigger] ranking@[k] == 1,
            decreases n - j,
        {
            support.push(true);
            ranking.push(1);
            j = j + 1;
        }
        let mut current: usize = n;
        let mut dropped: usize = 0;
        proof {
            assert forall|q: int| dropped <= q < n implies ranking@[#[trigger] order@[q] as int] == 1 && support@[order@[q] as int] by {
                let k = order@[q] as int;
                assert(0 <= k < n);
                assert(support@[k] && ranking@[k] == 1);
            }
        }
        while current > t
            invariant
                is_order(order@, n as int),
                step > 0 || n <= t,
                support@.len() == n,
                ranking@.len() == n,
                dropped + current == n,
                current >= t || dropped == 0,
                forall|q: int|
                    0 <= q < dropped ==> ranking@[#[trigger] order@[q] as int] == rank_at(n as int, t as int, step as int, q)
                        && !support@[order@[q] as int],
                forall|q: int| dropped <= q < n ==> ranking@[#[trigger] order@[q] as int] == 1 && support@[order@[q] as int],
                forall|q: int|
                    dropped <= q < n ==> #[trigger] rank_at(n as int, t as int, step as int, q) == rank_at(
                        current as int,
                        t as int,
                        step as int,
                        q - dropped,
                    ),
            decreases current,
        {
            let d = if step < current - t {
                step
            } else {
                current - t
            };
            let ghost before_s = support@;
            let ghost before_r = ranking@;
            let ghost d0 = dropped as int;
            let ghost c0 = current as int;
            let mut i: usize = 0;
            while i < d
                invariant
                    is_order(order@, n as int),
                    support@.len() == n,
                    ranking@.len() == n,
                    dropped + current == n,
                    current > t,
                    d <= current - t,
                    i <= d,
                    forall|q: int|
                        0 <= q < n ==> if dropped <= q < dropped + i {
                            ranking@[#[trigger] order@[q] as int] == current && !support@[order@[q] as int]
                        } else {
                            ranking@[order@[q] as int] == before_r[order@[q] as int] && support@[order@[q] as int]
                                == before_s[order@[q] as int]
                        },
                decreases d - i,
            {
                let idx = order[dropped + i];
                proof {
                    assert forall|q: int| 0 <= q < n && q != dropped + i implies #[trigger] order@[q] != idx by {
                    }
                }
                support.set(idx, false);
                ranking.set(idx, current);
                i = i + 1;
            }
            proof {
                assert forall|q: int| #![trigger order@[q]] 0 <= q < n && q >= dropped implies rank_at(current as int, t as int, step as int, q - dropped)
                    == if q - dropped < d {
                    current as int
                } else {
                    rank_at(current - d, t as int, step as int, q - dropped - d)
                } by {
                }
            }
            dropped = dropped + d;
            current = current - d;
            proof {
                assert forall|q: int| 0 <= q < dropped implies ranking@[#[trigger] order@[q] as int] == rank_at(
                    n as int,
                    t as int,
                    step as int,
                    q,
                ) && !support@[order@[q] as int] by {
                    if q >= d0 {
                        assert(rank_at(n as int, t as int, step as int, q) == rank_at(c0, t as int, step as int, q - d0));
                        assert(rank_at(c0, t as int, step as int, q - d0) == c0);
                    }
                }
                assert forall|q: int| dropped <= q < n implies #[trigger] rank_at(n as int, t as int, step as int, q) == rank_at(
                    current as int,
                    t as int,
                    step as int,
                    q - dropped,
                ) by {
                    assert(rank_at(n as int, t as int, step as int, q) == rank_at(c0, t as int, step as int, q - d0));
                    assert(rank_at(c0, t as int, step as int, q - d0) == rank_at(c0 - d, t as int, step as int, q - d0 - d));
                }
            }
        }
        proof {
            assert forall|q: int| 0 <= q < n implies ranking@[#[trigger] order@[q] as int] == rank_at(
                n as int,
                t as int,
                step as int,
                q,
            ) && support@[order@[q] as int] == (q >= n - t) by {
                if q >= dropped {
                    assert(rank_at(n as int, t as int, step as int, q) == rank_at(current as int, t as int, step as int, q - dropped));
                    assert(rank_at(current as int, t as int, step as int, q - dropped) == 1);
                }
            }
        }
        self.support_ = Some(support);
        self.ranking_ = Some(ranking);
    }

    /// Keeps the supported columns of `x`, in order (see `select_columns`).
    pub fn transform<T: Copy>(&self, x: &Table<T>, fill: T) -> (r: Result<Table<T>, FeatureSelectionError>)
        requires
            x.wf(),
            self.support_ matches Some(s) ==> x.n_cols <= s@.len(),
        ensures
            match self.support_ {
                None => r matches Err(FeatureSelectionError::NotFitted),
                Some(s) => r matches Ok(t) && selects(s@, *x, fill, t),
            },
    {
        match &self.support_ {
            None => Err(FeatureSelectionError::NotFitted),
            Some(s) => Ok(select_columns(s, x, fill)),
        }
    }
}

/// The support of the sequential selector: the first `n_features_to_select` features
/// (half of them, rounded down, when not given).
pub fn sequential_support(n_features: usize, n_features_to_select: Option<usize>) -> (r: Vec<bool>)
    ensures
        r@.len() == n_features,
        forall|j: int|
            0 <= j < n_features ==> #[trigger] r@[j] == (j < match n_features_to_select {
                Some(k) => k as int,
                None => n_features as int / 2,
            }),
{
    let target = match n_features_to_select {
        Some(k) => k,
        None => n_features / 2,
    };
    let mut r: Vec<bool> = Vec::new();
    let mut j: usize = 0;
    while j < n_features
        invariant
            j <= n_features,
            r@.len() == j,
            forall|m: int| 0 <= m < j ==> #[trigger] r@[m] == (m < target),
        decreases n_features - j,
    {
        r.push(j < target);
        j = j + 1;
    }
    r
}

/// The positions of the `true` entries, in order.
pub open spec fn true_positions(s: Seq<bool>) -> Seq<int>
    decreases s.len(),
{
    if s.len() == 0 {
        Seq::empty()
    } else if s.last() {
        true_positions(s.drop_last()).push(s.len() - 1)
    } else {
        true_positions(s.drop_last())
    }
}

/// `out` holds the supported columns of `x` in order, as many columns as the support
/// has `true` entries; a supported column beyond the columns of `x` is filled with `fill`.
pub open spec fn selects<T>(support: Seq<bool>, x: Table<T>, fill: T, out: Table<T>) -> bool {
    let cols = true_positions(support);
    &&& out.n_cols == cols.len()
    &&& out.wf()
    &&& out.rows@.len() == x.rows@.len()
    &&& forall|i: int, c: int|
        0 <= i < x.rows@.len() && 0 <= c < cols.len() ==> #[trigger] out.rows@[i]@[c] == if cols[c] < x.n_cols {
            x.rows@[i]@[cols[c]]
        } else {
            fill
        }
}

proof fn lemma_true_positions_step(s: Seq<bool>, j: int)
    requires
        0 <= j < s.len(),
    ensures
        true_positions(s.take(j + 1)) == if s[j] {
            true_positions(s.take(j)).push(j)
        } else {
            true_positions(s.take(j))
        },
{
    assert(s.take(j + 1).drop_last() =~= s.take(j));
}

proof fn lemma_true_positions_bound(s: Seq<bool>)
    ensures
        true_positions(s).len() <= s.len(),
        forall|c: int| 0 <= c < true_positions(s).len() ==> 0 <= #[trigger] true_positions(s)[c] < s.len(),
    decreases s.len(),
{
    if s.len() > 0 {
        lemma_true_positions_bound(s.drop_last());
    }
}

/// The positions of the `true` entries of the support.
fn supported_positions(support: &Vec<bool>) -> (r: Vec<usize>)
    ensures
        r@.len() == true_positions(support@).len(),
        forall|c: int| 0 <= c < r@.len() ==> #[trigger] r@[c] as int == true_positions(support@)[c],
{
    let mut r: Vec<usize> = Vec::new();
    let mut j: usize = 0;
    proof {
        assert(support@.take(0) =~= Seq::<bool>::empty());
    }
    while j < support.len()
        invariant
            j <= support@.len(),
            r@.len() == true_positions(support@.take(j as int)).len(),
            forall|c: int| 0 <= c < r@.len() ==> #[trigger] r@[c] as int == true_positions(support@.take(j as int))[c],
        decreases support@.len() - j,
    {
        proof {
            lemma_true_positions_step(support@, j as int);
        }
        if support[j] {
            r.push(j);
        }
        j = j + 1;
    }
    proof {
        assert(support@.take(j as int) =~= support@);
    }
    r
}

/// Keeps the supported columns of `x`, in order.
pub fn select_columns<T: Copy>(support: &Vec<bool>, x: &Table<T>, fill: T) -> (r: Table<T>)
    requires
        x.wf(),
        x.n_cols <= support@.len(),
    ensures
        selects(support@, *x, fill, r),
{
    let cols = supported_positions(support);
    proof {
        lemma_true_positions_bound(support@);
    }
    let mut rows: Vec<Vec<T>> = Vec::new();
    let mut i: usize = 0;
    while i < x.rows.len()
        invariant
            x.wf(),
            cols@.len() == true_positions(support@).len(),
            forall|c: int| 0 <= c < cols@.len() ==> #[trigger] cols@[c] as int == true_positions(support@)[c],
            i <= x.rows@.len(),
            rows@.len() == i,
            forall|a: int| 0 <= a < i ==> (#[trigger] rows@[a])@.len() == cols@.len(),
            forall|a: int, c: int|
                0 <= a < i && 0 <= c < cols@.len() ==> #[trigger] rows@[a]@[c] == if cols@[c] < x.n_cols {
                    x.rows@[a]@[cols@[c] as int]
                } else {
                    fill
                },
        decreases x.rows@.len() - i,
    {
        let mut row: Vec<T> = Vec::new();
        let mut c: usize = 0;
        while c < cols.len()
            invariant
                x.wf(),
                i < x.rows@.len(),
                c <= cols@.len(),
                row@.len() == c,
                forall|m: int| 0 <= m < c ==> #[trigger] row@[m] == if cols@[m] < x.n_cols {
                    x.rows@[i as int]@[cols@[m] as int]
                } else {
                    fill
                },
            decreases cols@.len() - c,
        {
            let j = cols[c];
            if j < x.n_cols {
                proof {
                    assert(x.rows@[i as int]@.len() == x.n_cols);
                }
                row.push(x.rows[i][j]);
            } else {
                row.push(fill);
            }
            c = c + 1;
        }
        rows.push(row);
        i = i + 1;
    }
    Table { n_cols: cols.len(), rows }
}

} // verus!
