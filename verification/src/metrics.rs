//! The per-class counts behind precision, recall and F1: true positives, false
//! positives, false negatives and support of each class, over integer class keys.
use vstd::prelude::*;
use std::collections::HashMap;

verus! {

broadcast use vstd::std_specs::hash::group_hash_axioms;

/// Why a metric refused its input.
#[derive(Debug)]
pub enum MetricsError {
    LengthMismatch { n_true: usize, n_pred: usize },
    Empty,
}

/// The number of positions `i` at which `f(t[i], p[i])` holds.
pub open spec fn count_where(t: Seq<i64>, p: Seq<i64>, f: spec_fn(i64, i64) -> bool) -> int
    decreases t.len(),
{
    if t.len() == 0 {
        0
    } else {
        count_where(t.drop_last(), p.take(t.len() - 1), f) + if f(t.last(), p[t.len() - 1]) {
            1int
        } else {
            0int
        }
    }
}

pub open spec fn is_tp(k: i64) -> spec_fn(i64, i64) -> bool {
    |a: i64, b: i64| a == k && b == k
}

pub open spec fn is_fp(k: i64) -> spec_fn(i64, i64) -> bool {
    |a: i64, b: i64| a != b && b == k
}

pub open spec fn is_fn(k: i64) -> spec_fn(i64, i64) -> bool {
    |a: i64, b: i64| a != b && a == k
}

pub open spec fn is_support(k: i64) -> spec_fn(i64, i64) -> bool {
    |a: i64, b: i64| a == k
}

/// The entry of `k`, or 0 when there is none.
pub open spec fn at(m: Map<i64, usize>, k: i64) -> int {
    if m.contains_key(k) {
        m[k] as int
    } else {
        0
    }
}

/// The per-class counts, each a map from class key to count (a key without an entry
/// counts 0).
pub struct PerClassCounts {
    pub tp: HashMap<i64, usize>,
    pub fp: HashMap<i64, usize>,
    pub fn_: HashMap<i64, usize>,
    pub support: HashMap<i64, usize>,
}

/// The map holds the counts of `f(k)` over the pairs, and an entry for each class.
pub open spec fn holds_counts(m: Map<i64, usize>, classes: Seq<i64>, t: Seq<i64>, p: Seq<i64>, f: spec_fn(i64) -> spec_fn(i64, i64) -> bool) -> bool {
    &&& forall|k: i64| #[trigger] at(m, k) == count_where(t, p, f(k))
    &&& forall|c: int| 0 <= c < classes.len() ==> m.contains_key(#[trigger] classes[c])
}

proof fn lemma_count_where_step(t: Seq<i64>, p: Seq<i64>, i: int, f: spec_fn(i64, i64) -> bool)
    requires
        0 <= i < t.len(),
        t.len() == p.len(),
    ensures
        count_where(t.take(i + 1), p.take(i + 1), f) == count_where(t.take(i), p.take(i), f) + if f(t[i], p[i]) {
            1int
        } else {
            0int
        },
{
    assert(t.take(i + 1).drop_last() =~= t.take(i));
    assert(p.take(i + 1).take(i) =~= p.take(i));
}

proof fn lemma_count_where_bound(t: Seq<i64>, p: Seq<i64>, f: spec_fn(i64, i64) -> bool)
    ensures
        0 <= count_where(t, p, f) <= t.len(),
    decreases t.len(),
{
    if t.len() > 0 {
        lemma_count_where_bound(t.drop_last(), p.take(t.len() - 1), f);
    }
}

/// A map with a zero entry for each class.
fn zeros_for(classes: &[i64]) -> (m: HashMap<i64, usize>)
    ensures
        forall|k: i64| #[trigger] at(m@, k) == 0,
        forall|c: int| 0 <= c < classes@.len() ==> m@.contains_key(#[trigger] classes@[c]),
{
    let mut m: HashMap<i64, usize> = HashMap::new();
    let mut c: usize = 0;
    while c < classes.len()
        invariant
            c <= classes@.len(),
            forall|k: i64| #[trigger] at(m@, k) == 0,
            forall|j: int| 0 <= j < c ==> m@.contains_key(#[trigger] classes@[j]),
        decreases classes@.len() - c,
    {
        let ghost before = m@;
        m.insert(classes[c], 0);
        proof {
            assert(m@ == before.insert(classes@[c as int], 0usize));
            assert forall|k: i64| #[trigger] at(m@, k) == 0 by {
                if k != classes@[c as int] {
                    assert(at(before, k) == 0);
                }
            }
        }
        c = c + 1;
    }
    m
}

/// Adds one to the entry of `k`.
fn bump(m: &mut HashMap<i64, usize>, k: i64)
    requires
        at(old(m)@, k) < usize::MAX,
    ensures
        forall|j: i64| #[trigger] at(final(m)@, j) == at(old(m)@, j) + if j == k {
            1int
        } else {
            0int
        },
        forall|j: i64| old(m)@.contains_key(j) ==> #[trigger] final(m)@.contains_key(j),
{
    let v: usize = match m.get(&k) {
        Some(v) => *v,
        None => 0,
    };
    m.insert(k, v + 1);
}

/// Counts, for each class key, the true positives, false positives, false negatives and
/// support of the predictions `y_pred` against `y_true`; every class of `classes` gets an
/// entry. Refused: inputs of different lengths, then empty inputs.
pub fn per_class_counts(classes: &[i64], y_true: &[i64], y_pred: &[i64]) -> (r: Result<PerClassCounts, MetricsError>)
    ensures
        y_true@.len() != y_pred@.len() ==> (r matches Err(MetricsError::LengthMismatch { n_true, n_pred }) && n_true
            == y_true@.len() && n_pred == y_pred@.len()),
        y_true@.len() == y_pred@.len() && y_true@.len() == 0 ==> r matches Err(MetricsError::Empty),
        y_true@.len() == y_pred@.len() && y_true@.len() > 0 ==> (r matches Ok(s) && {
            &&& holds_counts(s.tp@, classes@, y_true@, y_pred@, |k: i64| is_tp(k))
            &&& holds_counts(s.fp@, classes@, y_true@, y_pred@, |k: i64| is_fp(k))
            &&& holds_counts(s.fn_@, classes@, y_true@, y_pred@, |k: i64| is_fn(k))
            &&& holds_counts(s.support@, classes@, y_true@, y_pred@, |k: i64| is_support(k))
        }),
{
    if y_true.len() != y_pred.len() {
        return Err(MetricsError::LengthMismatch { n_true: y_true.len(), n_pred: y_pred.len() });
    }
    if y_true.len() == 0 {
        return Err(MetricsError::Empty);
    }
    let ghost t = y_true@;
    let ghost p = y_pred@;
    let n = y_true.len();
    let mut tp = zeros_for(classes);
    let mut fp = zeros_for(classes);
    let mut fn_ = zeros_for(classes);
    let mut support = zeros_for(classes);
    let mut i: usize = 0;
    proof {
        assert(t.take(0) =~= Seq::<i64>::empty());
        assert(p.take(0) =~= Seq::<i64>::empty());
    }
    while i < n
        invariant
            t == y_true@,
            p == y_pred@,
            n == t.len(),
            n == p.len(),
            i <= n,
            forall|k: i64| #[trigger] at(tp@, k) == count_where(t.take(i as int), p.take(i as int), is_tp(k)),
            forall|k: i64| #[trigger] at(fp@, k) == count_where(t.take(i as int), p.take(i as int), is_fp(k)),
            forall|k: i64| #[trigger] at(fn_@, k) == count_where(t.take(i as int), p.take(i as int), is_fn(k)),
            forall|k: i64| #[trigger] at(support@, k) == count_where(t.take(i as int), p.take(i as int), is_support(k)),
            forall|c: int| 0 <= c < classes@.len() ==> tp@.contains_key(#[trigger] classes@[c]),
            forall|c: int| 0 <= c < classes@.len() ==> fp@.contains_key(#[trigger] classes@[c]),
            forall|c: int| 0 <= c < classes@.len() ==> fn_@.contains_key(#[trigger] classes@[c]),
            forall|c: int| 0 <= c < classes@.len() ==> support@.contains_key(#[trigger] classes@[c]),
        decreases n - i,
    {
        let a = y_true[i];
        let b = y_pred[i];
        proof {
            assert forall|k: i64| #[trigger] count_where(t.take(i + 1), p.take(i + 1), is_tp(k)) == count_where(t.take(i as int), p.take(i as int), is_tp(k))
                + if a == k && b == k { 1int } else { 0int } by {
                lemma_count_where_step(t, p, i as int, is_tp(k));
            }
            assert forall|k: i64| #[trigger] count_where(t.take(i + 1), p.take(i + 1), is_fp(k)) == count_where(t.take(i as int), p.take(i as int), is_fp(k))
                + if a != b && b == k { 1int } else { 0int } by {
                lemma_count_where_step(t, p, i as int, is_fp(k));
            }
            assert forall|k: i64| #[trigger] count_where(t.take(i + 1), p.take(i + 1), is_fn(k)) == count_where(t.take(i as int), p.take(i as int), is_fn(k))
                + if a != b && a == k { 1int } else { 0int } by {
                lemma_count_where_step(t, p, i as int, is_fn(k));
            }
            assert forall|k: i64| #[trigger] count_where(t.take(i + 1), p.take(i + 1), is_support(k)) == count_where(t.take(i as int), p.take(i as int), is_support(k))
                + if a == k { 1int } else { 0int } by {
                lemma_count_where_step(t, p, i as int, is_support(k));
            }
            lemma_count_where_bound(t.take(i as int), p.take(i as int), is_tp(a));
            lemma_count_where_bound(t.take(i as int), p.take(i as int), is_fp(b));
            lemma_count_where_bound(t.take(i as int), p.take(i as int), is_fn(a));
            lemma_count_where_bound(t.take(i as int), p.take(i as int), is_support(a));
        }
        bump(&mut support, a);
        if a == b {
            bump(&mut tp, a);
        } else {
            bump(&mut fn_, a);
            bump(&mut fp, b);
        }
        i = i + 1;
    }
    proof {
        assert(t.take(n as int) =~= t);
        assert(p.take(n as int) =~= p);
    }
    Ok(PerClassCounts { tp, fp, fn_, support })
}


/// The support of a class splits into its true positives and its false negatives:
/// each sample of class `k` is either predicted as `k` or not.
pub proof fn law_support_splits(t: Seq<i64>, p: Seq<i64>, k: i64)
    requires
        t.len() == p.len(),
    ensures
        count_where(t, p, is_tp(k)) + count_where(t, p, is_fn(k)) == count_where(t, p, is_support(k)),
    decreases t.len(),
{
    if t.len() > 0 {
        law_support_splits(t.drop_last(), p.take(t.len() - 1), k);
    }
}

} // verus!
