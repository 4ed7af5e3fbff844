//! Strict total orders on the views of values, and the sorting, deduplication and
//! searching that the encoders and splitters build on.
use vstd::prelude::*;
use vstd::multiset::Multiset;

verus! {

/// A type whose values are compared through a strict total order on their views.
pub trait Ordered: View + Sized {
    /// `a` comes strictly before `b`.
    spec fn before(a: Self::V, b: Self::V) -> bool;

    proof fn lemma_irreflexive(a: Self::V)
        ensures
            !Self::before(a, a),
    ;

    proof fn lemma_transitive(a: Self::V, b: Self::V, c: Self::V)
        requires
            Self::before(a, b),
            Self::before(b, c),
        ensures
            Self::before(a, c),
    ;

    proof fn lemma_total(a: Self::V, b: Self::V)
        ensures
            a == b || Self::before(a, b) || Self::before(b, a),
    ;

    fn precedes(&self, other: &Self) -> (r: bool)
        ensures
            r == Self::before(self@, other@),
    ;

    fn same(&self, other: &Self) -> (r: bool)
        ensures
            r == (self@ == other@),
    ;

    fn duplicate(&self) -> (r: Self)
        ensures
            r@ == self@,
    ;
}

/// The sequence holds a value whose view is `x`.
pub open spec fn holds_view<T: View>(s: Seq<T>, x: T::V) -> bool {
    exists|i: int| 0 <= i < s.len() && #[trigger] s[i]@ == x
}

/// The views of the elements, in order.
pub open spec fn views<T: View>(s: Seq<T>) -> Seq<T::V> {
    s.map_values(|x: T| x@)
}

/// The multiset of the views of the elements.
pub open spec fn bag<T: View>(s: Seq<T>) -> Multiset<T::V> {
    views(s).to_multiset()
}

pub proof fn lemma_bag_empty<T: View>(s: Seq<T>)
    requires
        s.len() == 0,
    ensures
        bag(s) =~= Multiset::<T::V>::empty(),
{
    broadcast use vstd::seq_lib::group_to_multiset_ensures;
    broadcast use vstd::multiset::group_multiset_axioms;

    assert(views(s).len() == 0);
    assert(bag(s).len() == 0);
}

pub proof fn lemma_bag_push<T: View>(s: Seq<T>, e: T)
    ensures
        bag(s.push(e)) =~= bag(s).insert(e@),
{
    assert(views(s.push(e)) =~= views(s).push(e@));
    vstd::seq_lib::to_multiset_build(views(s), e@);
}

pub proof fn lemma_bag_take_step<T: View>(s: Seq<T>, i: int)
    requires
        0 <= i < s.len(),
    ensures
        bag(s.take(i + 1)) =~= bag(s.take(i)).insert(s[i]@),
{
    assert(s.take(i + 1) =~= s.take(i).push(s[i]));
    lemma_bag_push(s.take(i), s[i]);
}

/// Each element is at most every later one.
pub open spec fn sorted<T: Ordered>(s: Seq<T>) -> bool {
    forall|i: int, j: int| 0 <= i < j < s.len() ==> !T::before(#[trigger] s[j]@, #[trigger] s[i]@)
}

/// Each element comes strictly before every later one (sorted, without repeats).
pub open spec fn strictly_sorted<T: Ordered>(s: Seq<T>) -> bool {
    forall|i: int, j: int| 0 <= i < j < s.len() ==> T::before(#[trigger] s[i]@, #[trigger] s[j]@)
}

/// The two sequences hold the same values, counted by view.
pub open spec fn same_views<T: View>(a: Seq<T>, b: Seq<T>) -> bool {
    forall|x: T::V| #[trigger] holds_view(a, x) <==> #[trigger] holds_view(b, x)
}

pub proof fn lemma_le_trans<T: Ordered>(a: T::V, b: T::V, c: T::V)
    requires
        !T::before(b, a),
        !T::before(c, b),
    ensures
        !T::before(c, a),
{
    T::lemma_total(a, b);
    T::lemma_total(b, c);
    if T::before(c, a) {
        if a == b {
        } else if b == c {
        } else {
            T::lemma_transitive(a, b, c);
            T::lemma_transitive(c, a, c);
            T::lemma_irreflexive(c);
        }
    }
}

pub proof fn lemma_asymmetric<T: Ordered>(a: T::V, b: T::V)
    requires
        T::before(a, b),
    ensures
        !T::before(b, a),
{
    if T::before(b, a) {
        T::lemma_transitive(a, b, a);
        T::lemma_irreflexive(a);
    }
}

/// A strictly sorted sequence is sorted.
pub proof fn lemma_strictly_sorted_sorted<T: Ordered>(s: Seq<T>)
    requires
        strictly_sorted(s),
    ensures
        sorted(s),
{
    assert forall|i: int, j: int| 0 <= i < j < s.len() implies !T::before(#[trigger] s[j]@, #[trigger] s[i]@) by {
        lemma_asymmetric::<T>(s[i]@, s[j]@);
    }
}

pub proof fn lemma_lt_le_trans<T: Ordered>(a: T::V, b: T::V, c: T::V)
    requires
        T::before(a, b),
        !T::before(c, b),
    ensures
        T::before(a, c),
{
    T::lemma_total(b, c);
    if b != c {
        T::lemma_transitive(a, b, c);
    }
}

pub proof fn lemma_holds_push<T: View>(s: Seq<T>, e: T, x: T::V)
    ensures
        holds_view(s.push(e), x) <==> (holds_view(s, x) || e@ == x),
{
    let t = s.push(e);
    if holds_view(s, x) {
        let i = choose|i: int| 0 <= i < s.len() && #[trigger] s[i]@ == x;
        assert(t[i]@ == x);
    }
    if e@ == x {
        assert(t[s.len() as int]@ == x);
    }
    if holds_view(t, x) {
        let i = choose|i: int| 0 <= i < t.len() && #[trigger] t[i]@ == x;
        if i < s.len() {
            assert(s[i]@ == x);
        }
    }
}

pub proof fn lemma_holds_take_step<T: View>(s: Seq<T>, i: int, x: T::V)
    requires
        0 <= i < s.len(),
    ensures
        holds_view(s.take(i + 1), x) <==> (holds_view(s.take(i), x) || s[i]@ == x),
{
    assert(s.take(i + 1) =~= s.take(i).push(s[i]));
    lemma_holds_push(s.take(i), s[i], x);
}

pub proof fn lemma_holds_take_all<T: View>(s: Seq<T>)
    ensures
        s.take(s.len() as int) =~= s,
{
}

pub proof fn lemma_holds_split<T: View>(s: Seq<T>, m: int, x: T::V)
    requires
        0 <= m <= s.len(),
    ensures
        holds_view(s, x) <==> (holds_view(s.subrange(0, m), x) || holds_view(
            s.subrange(m, s.len() as int),
            x,
        )),
{
    let a = s.subrange(0, m);
    let b = s.subrange(m, s.len() as int);
    if holds_view(s, x) {
        let i = choose|i: int| 0 <= i < s.len() && #[trigger] s[i]@ == x;
        if i < m {
            assert(a[i]@ == x);
        } else {
            assert(b[i - m]@ == x);
        }
    }
    if holds_view(a, x) {
        let i = choose|i: int| 0 <= i < a.len() && #[trigger] a[i]@ == x;
        assert(s[i]@ == x);
    }
    if holds_view(b, x) {
        let i = choose|i: int| 0 <= i < b.len() && #[trigger] b[i]@ == x;
        assert(s[i + m]@ == x);
    }
}

/// Merges two sorted vectors into one sorted vector holding the values of both.
fn merge<T: Ordered>(a: &Vec<T>, b: &Vec<T>) -> (r: Vec<T>)
    requires
        sorted(a@),
        sorted(b@),
        a@.len() + b@.len() <= usize::MAX,
    ensures
        sorted(r@),
        r@.len() == a@.len() + b@.len(),
        forall|x: T::V| #[trigger]
            holds_view(r@, x) <==> (holds_view(a@, x) || holds_view(b@, x)),
        bag(r@) =~= bag(a@).add(bag(b@)),
{
    let mut r: Vec<T> = Vec::new();
    let mut i: usize = 0;
    let mut j: usize = 0;
    proof {
        lemma_bag_empty(r@);
        lemma_bag_empty(a@.take(0));
        lemma_bag_empty(b@.take(0));
        broadcast use vstd::multiset::group_multiset_axioms;
        assert(bag(r@) =~= bag(a@.take(0)).add(bag(b@.take(0))));
    }
    while i < a.len() || j < b.len()
        invariant
            i <= a@.len(),
            j <= b@.len(),
            a@.len() + b@.len() <= usize::MAX,
            sorted(a@),
            sorted(b@),
            r@.len() == i + j,
            sorted(r@),
            r@.len() > 0 && i < a@.len() ==> !T::before(a@[i as int]@, r@.last()@),
            r@.len() > 0 && j < b@.len() ==> !T::before(b@[j as int]@, r@.last()@),
            forall|x: T::V|
                #[trigger] holds_view(r@, x) <==> (holds_view(a@.take(i as int), x) || holds_view(
                    b@.take(j as int),
                    x,
                )),
            bag(r@) =~= bag(a@.take(i as int)).add(bag(b@.take(j as int))),
        decreases a@.len() + b@.len() - i - j,
    {
        let take_a = if j >= b.len() {
            true
        } else if i >= a.len() {
            false
        } else {
            !b[j].precedes(&a[i])
        };
        let ghost old_r = r@;
        if take_a {
            let e = a[i].duplicate();
            proof {
                assert forall|k: int, l: int| 0 <= k < l < old_r.len() + 1 implies !T::before(
                    #[trigger] old_r.push(e)[l]@,
                    #[trigger] old_r.push(e)[k]@,
                ) by {
                    if l == old_r.len() {
                        if k == old_r.len() - 1 {
                            T::lemma_irreflexive(old_r[k]@);
                        } else {
                            assert(!T::before(old_r[old_r.len() - 1]@, old_r[k]@));
                        }
                        lemma_le_trans::<T>(old_r[k]@, old_r.last()@, e@);
                    }
                }
                assert forall|x: T::V| #[trigger]
                    holds_view(old_r.push(e), x) <==> (holds_view(a@.take(i + 1), x) || holds_view(
                        b@.take(j as int),
                        x,
                    )) by {
                    lemma_holds_push(old_r, e, x);
                    lemma_holds_take_step(a@, i as int, x);
                }
                if i + 1 < a@.len() {
                    assert(!T::before(a@[i + 1]@, a@[i as int]@));
                }
                if j < b@.len() && i < a@.len() {
                    T::lemma_total(a@[i as int]@, b@[j as int]@);
                }
                lemma_bag_push(old_r, e);
                lemma_bag_take_step(a@, i as int);
                broadcast use vstd::multiset::group_multiset_axioms;
                assert(bag(old_r.push(e)) =~= bag(a@.take(i + 1)).add(bag(b@.take(j as int))));
            }
            r.push(e);
            i = i + 1;
        } else {
            let e = b[j].duplicate();
            proof {
                assert forall|k: int, l: int| 0 <= k < l < old_r.len() + 1 implies !T::before(
                    #[trigger] old_r.push(e)[l]@,
                    #[trigger] old_r.push(e)[k]@,
                ) by {
                    if l == old_r.len() {
                        if k == old_r.len() - 1 {
                            T::lemma_irreflexive(old_r[k]@);
                        } else {
                            assert(!T::before(old_r[old_r.len() - 1]@, old_r[k]@));
                        }
                        lemma_le_trans::<T>(old_r[k]@, old_r.last()@, e@);
                    }
                }
                assert forall|x: T::V| #[trigger]
                    holds_view(old_r.push(e), x) <==> (holds_view(a@.take(i as int), x)
                        || holds_view(b@.take(j + 1), x)) by {
                    lemma_holds_push(old_r, e, x);
                    lemma_holds_take_step(b@, j as int, x);
                }
                if j + 1 < b@.len() {
                    assert(!T::before(b@[j + 1]@, b@[j as int]@));
                }
                if i < a@.len() {
                    lemma_asymmetric::<T>(b@[j as int]@, a@[i as int]@);
                }
                lemma_bag_push(old_r, e);
                lemma_bag_take_step(b@, j as int);
                broadcast use vstd::multiset::group_multiset_axioms;
                assert(bag(old_r.push(e)) =~= bag(a@.take(i as int)).add(bag(b@.take(j + 1))));
            }
            r.push(e);
            j = j + 1;
        }
    }
    proof {
        lemma_holds_take_all(a@);
        lemma_holds_take_all(b@);
    }
    r
}

/// Sorts a vector (merge sort): the result is sorted and holds the same values.
pub fn sort_values<T: Ordered>(v: Vec<T>) -> (r: Vec<T>)
    ensures
        sorted(r@),
        r@.len() == v@.len(),
        same_views(r@, v@),
        bag(r@) =~= bag(v@),
    decreases v@.len(),
{
    if v.len() <= 1 {
        return v;
    }
    let ghost whole = v@;
    let mut left = v;
    let mid = left.len() / 2;
    let right = left.split_off(mid);
    let sl = sort_values(left);
    let sr = sort_values(right);
    let r = merge(&sl, &sr);
    proof {
        assert forall|x: T::V| #[trigger] holds_view(r@, x) <==> #[trigger] holds_view(whole, x) by {
            lemma_holds_split(whole, mid as int, x);
        }
        assert(whole =~= whole.subrange(0, mid as int) + whole.subrange(mid as int, whole.len() as int));
        assert(views(whole) =~= views(whole.subrange(0, mid as int)) + views(
            whole.subrange(mid as int, whole.len() as int),
        ));
        vstd::seq_lib::lemma_multiset_commutative(
            views(whole.subrange(0, mid as int)),
            views(whole.subrange(mid as int, whole.len() as int)),
        );
    }
    r
}

/// Keeps the first of each run of equal values of a sorted vector.
pub fn dedup_sorted<T: Ordered>(s: &Vec<T>) -> (r: Vec<T>)
    requires
        sorted(s@),
    ensures
        strictly_sorted(r@),
        same_views(r@, s@),
        r@.len() <= s@.len(),
{
    let mut r: Vec<T> = Vec::new();
    let mut i: usize = 0;
    while i < s.len()
        invariant
            i <= s@.len(),
            sorted(s@),
            strictly_sorted(r@),
            r@.len() <= i,
            r@.len() > 0 ==> i > 0 && r@.last()@ == s@[i - 1]@,
            r@.len() == 0 ==> i == 0,
            forall|x: T::V| #[trigger] holds_view(r@, x) <==> holds_view(s@.take(i as int), x),
        decreases s@.len() - i,
    {
        let keep = if r.len() == 0 {
            true
        } else {
            !r[r.len() - 1].same(&s[i])
        };
        let ghost old_r = r@;
        proof {
            assert forall|x: T::V| #[trigger]
                holds_view(s@.take(i + 1), x) <==> (holds_view(s@.take(i as int), x) || s@[i as int]@
                    == x) by {
                lemma_holds_take_step(s@, i as int, x);
            }
        }
        if keep {
            let e = s[i].duplicate();
            proof {
                if old_r.len() > 0 {
                    assert(!T::before(s@[i as int]@, s@[i - 1]@));
                    T::lemma_total(old_r.last()@, e@);
                    assert forall|k: int, l: int| 0 <= k < l < old_r.len() + 1 implies T::before(
                        #[trigger] old_r.push(e)[k]@,
                        #[trigger] old_r.push(e)[l]@,
                    ) by {
                        if l == old_r.len() && k < old_r.len() - 1 {
                            T::lemma_transitive(old_r[k]@, old_r.last()@, e@);
                        }
                    }
                }
                assert forall|x: T::V| #[trigger] holds_view(old_r.push(e), x) <==> holds_view(
                    s@.take(i + 1),
                    x,
                ) by {
                    lemma_holds_push(old_r, e, x);
                }
            }
            r.push(e);
        }
        i = i + 1;
    }
    proof {
        lemma_holds_take_all(s@);
    }
    r
}

/// Finds a position of `x` in a sorted vector, by halving.
pub fn search_sorted<T: Ordered>(s: &Vec<T>, x: &T) -> (r: Option<usize>)
    requires
        sorted(s@),
    ensures
        match r {
            Some(i) => i < s@.len() && s@[i as int]@ == x@,
            None => !holds_view(s@, x@),
        },
{
    let mut lo: usize = 0;
    let mut hi: usize = s.len();
    while lo < hi
        invariant
            lo <= hi <= s@.len(),
            sorted(s@),
            forall|k: int| 0 <= k < lo ==> T::before(#[trigger] s@[k]@, x@),
            forall|k: int| hi <= k < s@.len() ==> T::before(x@, #[trigger] s@[k]@),
        decreases hi - lo,
    {
        let mid = lo + (hi - lo) / 2;
        if s[mid].same(x) {
            return Some(mid);
        }
        if s[mid].precedes(x) {
            proof {
                assert forall|k: int| 0 <= k < mid + 1 implies T::before(#[trigger] s@[k]@, x@) by {
                    if k < mid {
                        lemma_lt_le_trans_rev::<T>(s@[k]@, s@[mid as int]@, x@);
                    }
                }
            }
            lo = mid + 1;
        } else {
            proof {
                T::lemma_total(s@[mid as int]@, x@);
                assert forall|k: int| mid <= k < s@.len() implies T::before(x@, #[trigger] s@[k]@) by {
                    if k > mid {
                        lemma_lt_le_trans::<T>(x@, s@[mid as int]@, s@[k]@);
                    }
                }
            }
            hi = mid;
        }
    }
    proof {
        if holds_view(s@, x@) {
            let k = choose|k: int| 0 <= k < s@.len() && #[trigger] s@[k]@ == x@;
            T::lemma_irreflexive(x@);
        }
    }
    None
}

pub proof fn lemma_lt_le_trans_rev<T: Ordered>(a: T::V, b: T::V, c: T::V)
    requires
        !T::before(b, a),
        T::before(b, c),
    ensures
        T::before(a, c),
{
    T::lemma_total(a, b);
    if a != b {
        T::lemma_transitive(a, b, c);
    }
}

impl Ordered for i64 {
    open spec fn before(a: i64, b: i64) -> bool {
        a < b
    }

    proof fn lemma_irreflexive(a: i64) {
    }

    proof fn lemma_transitive(a: i64, b: i64, c: i64) {
    }

    proof fn lemma_total(a: i64, b: i64) {
    }

    fn precedes(&self, other: &i64) -> (r: bool) {
        *self < *other
    }

    fn same(&self, other: &i64) -> (r: bool) {
        *self == *other
    }

    fn duplicate(&self) -> (r: i64) {
        *self
    }
}

impl Ordered for u64 {
    open spec fn before(a: u64, b: u64) -> bool {
        a < b
    }

    proof fn lemma_irreflexive(a: u64) {
    }

    proof fn lemma_transitive(a: u64, b: u64, c: u64) {
    }

    proof fn lemma_total(a: u64, b: u64) {
    }

    fn precedes(&self, other: &u64) -> (r: bool) {
        *self < *other
    }

    fn same(&self, other: &u64) -> (r: bool) {
        *self == *other
    }

    fn duplicate(&self) -> (r: u64) {
        *self
    }
}

/// Code-point order of character sequences: the order of `String`'s `Ord`, which
/// compares the UTF-8 bytes and so orders the code points.
pub open spec fn chars_before(a: Seq<char>, b: Seq<char>) -> bool
    decreases a.len(),
{
    if a.len() == 0 {
        b.len() > 0
    } else if b.len() == 0 {
        false
    } else if a[0] != b[0] {
        (a[0] as int) < (b[0] as int)
    } else {
        chars_before(a.drop_first(), b.drop_first())
    }
}

/// `a` comes before `b` in lexicographic order by code point, the order of `String`:
/// `a` is a proper prefix of `b`, or at the first position where the two differ `a`
/// has the smaller character.
pub open spec fn lexicographically_less(a: Seq<char>, b: Seq<char>) -> bool {
    ||| (a.len() < b.len() && a == b.take(a.len() as int))
    ||| exists|k: int|
        #![trigger a.take(k), b.take(k)]
        0 <= k < a.len() && k < b.len() && a.take(k) == b.take(k) && (a[k] as int) < (b[k] as int)
}

/// The order of `String` that the library sorts by is the lexicographic order.
pub proof fn lemma_chars_before_lexicographic(a: Seq<char>, b: Seq<char>)
    requires
        chars_before(a, b),
    ensures
        lexicographically_less(a, b),
    decreases a.len(),
{
    if a.len() == 0 {
        assert(a =~= b.take(0));
    } else if a[0] != b[0] {
        assert(a.take(0) =~= b.take(0));
        assert((a[0] as int) < (b[0] as int));
        assert(0 < a.len() && 0 < b.len() && a.take(0) == b.take(0) && (a[0] as int) < (b[0] as int));
    } else {
        let a1 = a.drop_first();
        let b1 = b.drop_first();
        lemma_chars_before_lexicographic(a1, b1);
        if a1.len() < b1.len() && a1 == b1.take(a1.len() as int) {
            assert(a =~= b.take(a.len() as int)) by {
                assert forall|i: int| 0 <= i < a.len() implies a[i] == b.take(a.len() as int)[i] by {
                    if i > 0 {
                        assert(a[i] == a1[i - 1]);
                        assert(b[i] == b1[i - 1]);
                        assert(b1.take(a1.len() as int)[i - 1] == b1[i - 1]);
                    }
                }
            }
        } else {
            let k = choose|k: int|
                #![trigger a1.take(k), b1.take(k)]
                0 <= k < a1.len() && k < b1.len() && a1.take(k) == b1.take(k) && (a1[k] as int) < (b1[k] as int);
            let ak = a.take(k + 1);
            let bk = b.take(k + 1);
            assert(ak =~= bk) by {
                assert forall|i: int| 0 <= i < k + 1 implies #[trigger] ak[i] == bk[i] by {
                    if i > 0 {
                        assert(a1.take(k)[i - 1] == b1.take(k)[i - 1]);
                    }
                }
            }
            assert(a[k + 1] == a1[k] && b[k + 1] == b1[k]);
            assert(0 <= k + 1 < a.len() && k + 1 < b.len() && a.take(k + 1) == b.take(k + 1) && (a[k + 1] as int) < (
            b[k + 1] as int));
        }
    }
}

proof fn lemma_chars_irreflexive(a: Seq<char>)
    ensures
        !chars_before(a, a),
    decreases a.len(),
{
    if a.len() > 0 {
        lemma_chars_irreflexive(a.drop_first());
    }
}

proof fn lemma_chars_transitive(a: Seq<char>, b: Seq<char>, c: Seq<char>)
    requires
        chars_before(a, b),
        chars_before(b, c),
    ensures
        chars_before(a, c),
    decreases a.len(),
{
    if a.len() > 0 && b.len() > 0 && c.len() > 0 {
        if a[0] == b[0] && b[0] == c[0] {
            lemma_chars_transitive(a.drop_first(), b.drop_first(), c.drop_first());
        }
    }
}

proof fn lemma_chars_total(a: Seq<char>, b: Seq<char>)
    ensures
        a == b || chars_before(a, b) || chars_before(b, a),
    decreases a.len(),
{
    if a.len() > 0 && b.len() > 0 {
        if a[0] == b[0] {
            lemma_chars_total(a.drop_first(), b.drop_first());
            if a.drop_first() == b.drop_first() {
                assert(a.drop_first().len() == b.drop_first().len());
                assert(a.len() == b.len());
                assert forall|i: int| 0 <= i < a.len() implies a[i] == b[i] by {
                    if i > 0 {
                        assert(a[i] == a.drop_first()[i - 1]);
                        assert(b[i] == b.drop_first()[i - 1]);
                    }
                }
                assert(a =~= b);
            }
        } else {
            let x = a[0] as int;
            let y = b[0] as int;
            assert(x != y);
        }
    } else if a.len() == 0 && b.len() == 0 {
        assert(a =~= b);
    }
}

/// The characters of a string, in order.
pub fn chars_of(s: &String) -> (v: Vec<char>)
    ensures
        v@ == s@,
{
    let mut v: Vec<char> = Vec::new();
    for c in it: s.as_str().chars()
        invariant
            v@ == it.seq().take(it.index() as int),
            it.seq() == s@,
    {
        v.push(c);
    }
    v
}

impl Ordered for String {
    open spec fn before(a: Seq<char>, b: Seq<char>) -> bool {
        chars_before(a, b)
    }

    proof fn lemma_irreflexive(a: Seq<char>) {
        lemma_chars_irreflexive(a);
    }

    proof fn lemma_transitive(a: Seq<char>, b: Seq<char>, c: Seq<char>) {
        lemma_chars_transitive(a, b, c);
    }

    proof fn lemma_total(a: Seq<char>, b: Seq<char>) {
        lemma_chars_total(a, b);
    }

    fn precedes(&self, other: &String) -> (r: bool) {
        let a = chars_of(self);
        let b = chars_of(other);
        let mut i: usize = 0;
        proof {
            assert(a@.skip(0) =~= a@);
            assert(b@.skip(0) =~= b@);
        }
        while i < a.len() && i < b.len()
            invariant
                i <= a@.len(),
                i <= b@.len(),
                a@ == self@,
                b@ == other@,
                chars_before(self@, other@) == chars_before(a@.skip(i as int), b@.skip(i as int)),
            decreases a@.len() - i,
        {
            let ca = a[i];
            let cb = b[i];
            if ca != cb {
                proof {
                    assert(a@.skip(i as int)[0] == ca);
                    assert(b@.skip(i as int)[0] == cb);
                }
                return ca < cb;
            }
            proof {
                assert(a@.skip(i as int).drop_first() =~= a@.skip(i + 1));
                assert(b@.skip(i as int).drop_first() =~= b@.skip(i + 1));
            }
            i = i + 1;
        }
        i < b.len()
    }

    fn same(&self, other: &String) -> (r: bool) {
        *self == *other
    }

    fn duplicate(&self) -> (r: String) {
        self.clone()
    }
}

} // verus!
