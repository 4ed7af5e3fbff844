//! Label and one-hot encoders: the integer and string bookkeeping of the encoders,
//! with floating-point labels carried as their IEEE-754 bit patterns.
use vstd::prelude::*;
use crate::order::{
    Ordered, holds_view, sorted, strictly_sorted, same_views, sort_values, dedup_sorted, search_sorted,
    views, lemma_strictly_sorted_sorted, lexicographically_less, lemma_chars_before_lexicographic,
};
use crate::table::Table;

verus! {

/// Why an encoder refused a request.
#[derive(Debug)]
pub enum LabelError {
    NotFittedInt,
    NotFittedStr,
    NotFittedFloat,
    /// A label to encode is not among the classes.
    UnseenInt(i64),
    UnseenStr(String),
    /// The bit pattern of a floating-point label that is not among the classes.
    UnseenFloat(u64),
    /// A code to decode is negative or not below the number of classes.
    OutOfBounds(i64),
}

/// `out` gives, for each label of `y`, the position of an equal class.
pub open spec fn encodes<T: View>(classes: Seq<T>, y: Seq<T>, out: Seq<i64>) -> bool {
    &&& out.len() == y.len()
    &&& forall|i: int|
        0 <= i < y.len() ==> 0 <= #[trigger] out[i] < classes.len() && classes[out[i] as int]@
            == y[i]@
}

/// `out` gives, for each code of `idx`, the class at that position.
pub open spec fn decodes<T: View>(classes: Seq<T>, idx: Seq<i64>, out: Seq<T>) -> bool {
    &&& out.len() == idx.len()
    &&& forall|i: int|
        0 <= i < idx.len() ==> 0 <= #[trigger] idx[i] < classes.len() && out[i]@ == classes[idx[i] as int]@
}

/// Position of the first label of `y` that is not a class.
pub open spec fn first_unseen<T: View>(classes: Seq<T>, y: Seq<T>, k: int) -> bool {
    &&& 0 <= k < y.len()
    &&& !holds_view(classes, y[k]@)
    &&& forall|i: int| 0 <= i < k ==> holds_view(classes, #[trigger] y[i]@)
}

/// Position of the first bit pattern of `y` that is not among the classes.
pub open spec fn first_unseen_bits(classes: Seq<u64>, y: Seq<u64>, k: int) -> bool {
    &&& 0 <= k < y.len()
    &&& !classes.contains(y[k])
    &&& forall|i: int| 0 <= i < k ==> classes.contains(#[trigger] y[i])
}

/// Position of the first code of `idx` that names no class.
pub open spec fn first_out_of_bounds(n_classes: int, idx: Seq<i64>, k: int) -> bool {
    &&& 0 <= k < idx.len()
    &&& (idx[k] < 0 || idx[k] >= n_classes)
    &&& forall|i: int| 0 <= i < k ==> 0 <= #[trigger] idx[i] < n_classes
}

/// The distinct values of `y`, in increasing order.
pub fn unique_sorted<T: Ordered>(y: Vec<T>) -> (r: Vec<T>)
    ensures
        strictly_sorted(r@),
        same_views(r@, y@),
        r@.len() <= y@.len(),
{
    let ghost y0 = y@;
    let s = sort_values(y);
    let r = dedup_sorted(&s);
    proof {
        assert forall|x: T::V| #[trigger] holds_view(r@, x) <==> #[trigger] holds_view(y0, x) by {
            assert(holds_view(r@, x) <==> holds_view(s@, x));
            assert(holds_view(s@, x) <==> holds_view(y0, x));
        }
    }
    r
}

fn copy_slice<T: Ordered>(y: &[T]) -> (r: Vec<T>)
    ensures
        r@.len() == y@.len(),
        forall|i: int| 0 <= i < y@.len() ==> (#[trigger] r@[i])@ == y@[i]@,
{
    let mut r: Vec<T> = Vec::new();
    let mut i: usize = 0;
    while i < y.len()
        invariant
            i <= y@.len(),
            r@.len() == i,
            forall|k: int| 0 <= k < i ==> (#[trigger] r@[k])@ == y@[k]@,
        decreases y@.len() - i,
    {
        r.push(y[i].duplicate());
        i = i + 1;
    }
    r
}

proof fn lemma_same_views_copy<T: View>(r: Seq<T>, y: Seq<T>)
    requires
        r.len() == y.len(),
        forall|i: int| 0 <= i < y.len() ==> (#[trigger] r[i])@ == y[i]@,
    ensures
        same_views(r, y),
{
    assert forall|x: T::V| #[trigger] holds_view(r, x) <==> #[trigger] holds_view(y, x) by {
        if holds_view(r, x) {
            let i = choose|i: int| 0 <= i < r.len() && #[trigger] r[i]@ == x;
            assert(y[i]@ == x);
        }
        if holds_view(y, x) {
            let i = choose|i: int| 0 <= i < y.len() && #[trigger] y[i]@ == x;
            assert(r[i]@ == x);
        }
    }
}

/// Encodes each label as the position of its class, or gives the position of the
/// first label that is not a class.
pub fn encode_labels<T: Ordered>(classes: &Vec<T>, y: &[T]) -> (r: Result<Vec<i64>, usize>)
    requires
        sorted(classes@),
        classes@.len() <= i64::MAX,
    ensures
        match r {
            Ok(out) => encodes(classes@, y@, out@),
            Err(k) => first_unseen(classes@, y@, k as int),
        },
{
    let mut out: Vec<i64> = Vec::new();
    let mut i: usize = 0;
    while i < y.len()
        invariant
            i <= y@.len(),
            sorted(classes@),
            classes@.len() <= i64::MAX,
            out@.len() == i,
            forall|k: int|
                0 <= k < i ==> 0 <= #[trigger] out@[k] < classes@.len() && classes@[out@[k] as int]@
                    == y@[k]@,
        decreases y@.len() - i,
    {
        match search_sorted(classes, &y[i]) {
            Some(pos) => {
                out.push(pos as i64);
            },
            None => {
                proof {
                    assert forall|k: int| 0 <= k < i implies holds_view(classes@, #[trigger] y@[k]@) by {
                        assert(classes@[out@[k] as int]@ == y@[k]@);
                    }
                }
                return Err(i);
            },
        }
        i = i + 1;
    }
    Ok(out)
}

/// Decodes each code as the class at that position, or gives the position of the
/// first code that names no class.
pub fn decode_labels<T: Ordered>(classes: &Vec<T>, idx: &[i64]) -> (r: Result<Vec<T>, usize>)
    ensures
        match r {
            Ok(out) => decodes(classes@, idx@, out@),
            Err(k) => first_out_of_bounds(classes@.len() as int, idx@, k as int),
        },
{
    let mut out: Vec<T> = Vec::new();
    let mut i: usize = 0;
    while i < idx.len()
        invariant
            i <= idx@.len(),
            out@.len() == i,
            forall|k: int|
                0 <= k < i ==> 0 <= #[trigger] idx@[k] < classes@.len() && out@[k]@
                    == classes@[idx@[k] as int]@,
        decreases idx@.len() - i,
    {
        let code = idx[i];
        if code < 0 || code as u64 >= classes.len() as u64 {
            return Err(i);
        }
        out.push(classes[code as usize].duplicate());
        i = i + 1;
    }
    Ok(out)
}

/// Key of a bit pattern under the IEEE-754 total order (`f64::total_cmp`): the order
/// of the keys as unsigned integers is the total order of the floating-point values.
pub open spec fn total_key(b: u64) -> u64 {
    if b >> 63u64 == 1 {
        !b
    } else {
        b | 0x8000_0000_0000_0000u64
    }
}

/// The bit pattern is a NaN.
pub open spec fn float_is_nan(b: u64) -> bool {
    (b & 0x7ff0_0000_0000_0000u64) == 0x7ff0_0000_0000_0000u64 && (b & 0x000f_ffff_ffff_ffffu64)
        != 0
}

/// The bit pattern is a zero of either sign.
pub open spec fn float_is_zero(b: u64) -> bool {
    (b & 0x7fff_ffff_ffff_ffffu64) == 0
}

/// IEEE-754 equality (`==` on `f64`) of two bit patterns: no NaN equals anything, and the
/// two zeros are equal.
pub open spec fn float_eq(a: u64, b: u64) -> bool {
    (a == b && !float_is_nan(a)) || (float_is_zero(a) && float_is_zero(b))
}

/// Keeps each value that is not `==` (as `f64`) to the last value kept (`Vec::dedup`).
pub open spec fn float_dedup(s: Seq<u64>) -> Seq<u64>
    decreases s.len(),
{
    if s.len() == 0 {
        Seq::<u64>::empty()
    } else {
        let d = float_dedup(s.drop_last());
        if d.len() > 0 && float_eq(d.last(), s.last()) {
            d
        } else {
            d.push(s.last())
        }
    }
}

/// Non-decreasing under the IEEE-754 total order.
pub open spec fn key_sorted(s: Seq<u64>) -> bool {
    forall|i: int, j: int| 0 <= i < j < s.len() ==> total_key(#[trigger] s[i]) <= total_key(#[trigger] s[j])
}

proof fn lemma_total_key_injective(a: u64, b: u64)
    requires
        total_key(a) == total_key(b),
    ensures
        a == b,
{
    assert(total_key(a) == total_key(b) ==> a == b) by (bit_vector);
}

fn total_key_of(b: u64) -> (k: u64)
    ensures
        k == total_key(b),
{
    if b >> 63u64 == 1 {
        !b
    } else {
        b | 0x8000_0000_0000_0000u64
    }
}

fn float_eq_bits(a: u64, b: u64) -> (r: bool)
    ensures
        r == float_eq(a, b),
{
    let a_nan = (a & 0x7ff0_0000_0000_0000u64) == 0x7ff0_0000_0000_0000u64 && (a
        & 0x000f_ffff_ffff_ffffu64) != 0;
    let a_zero = (a & 0x7fff_ffff_ffff_ffffu64) == 0;
    let b_zero = (b & 0x7fff_ffff_ffff_ffffu64) == 0;
    (a == b && !a_nan) || (a_zero && b_zero)
}

/// The bit pattern of an `f64`, ordered by the IEEE-754 total order.
pub struct FloatBits {
    pub bits: u64,
}

impl View for FloatBits {
    type V = u64;

    open spec fn view(&self) -> u64 {
        self.bits
    }
}

impl Ordered for FloatBits {
    open spec fn before(a: u64, b: u64) -> bool {
        total_key(a) < total_key(b)
    }

    proof fn lemma_irreflexive(a: u64) {
    }

    proof fn lemma_transitive(a: u64, b: u64, c: u64) {
    }

    proof fn lemma_total(a: u64, b: u64) {
        if total_key(a) == total_key(b) {
            lemma_total_key_injective(a, b);
        }
    }

    fn precedes(&self, other: &FloatBits) -> (r: bool) {
        total_key_of(self.bits) < total_key_of(other.bits)
    }

    fn same(&self, other: &FloatBits) -> (r: bool) {
        self.bits == other.bits
    }

    fn duplicate(&self) -> (r: FloatBits) {
        FloatBits { bits: self.bits }
    }
}

fn wrap_bits(y: &[u64]) -> (r: Vec<FloatBits>)
    ensures
        r@.len() == y@.len(),
        forall|i: int| 0 <= i < y@.len() ==> (#[trigger] r@[i]).bits == y@[i],
{
    let mut r: Vec<FloatBits> = Vec::new();
    let mut i: usize = 0;
    while i < y.len()
        invariant
            i <= y@.len(),
            r@.len() == i,
            forall|k: int| 0 <= k < i ==> (#[trigger] r@[k]).bits == y@[k],
        decreases y@.len() - i,
    {
        r.push(FloatBits { bits: y[i] });
        i = i + 1;
    }
    r
}

/// The sorted values with each value `==` (as `f64`) to the last one kept dropped.
fn dedup_floats(s: &Vec<FloatBits>) -> (r: Vec<u64>)
    ensures
        r@ == float_dedup(views(s@)),
        r@.len() <= s@.len(),
{
    let mut r: Vec<u64> = Vec::new();
    let mut i: usize = 0;
    while i < s.len()
        invariant
            i <= s@.len(),
            r@ == float_dedup(views(s@).take(i as int)),
            r@.len() <= i,
        decreases s@.len() - i,
    {
        let b = s[i].bits;
        proof {
            let t = views(s@).take(i + 1);
            assert(t.drop_last() =~= views(s@).take(i as int));
            assert(t.last() == b);
        }
        if r.len() == 0 || !float_eq_bits(r[r.len() - 1], b) {
            r.push(b);
        }
        i = i + 1;
    }
    proof {
        assert(views(s@).take(s@.len() as int) =~= views(s@));
    }
    r
}

/// Classes learnt by a label encoder: the sorted distinct labels of one kind.
pub struct LabelEncoderCore {
    pub classes_int: Option<Vec<i64>>,
    pub classes_str: Option<Vec<String>>,
    /// Bit patterns (`f64::to_bits`) of the floating-point classes.
    pub classes_float: Option<Vec<u64>>,
}

impl LabelEncoderCore {
    pub fn new() -> (r: Self)
        ensures
            r.classes_int is None,
            r.classes_str is None,
            r.classes_float is None,
    {
        LabelEncoderCore { classes_int: None, classes_str: None, classes_float: None }
    }

    /// Learns the distinct integer labels, in increasing order.
    pub fn fit_int(&mut self, y: &[i64])
        ensures
            final(self).classes_int matches Some(c) && strictly_sorted(c@) && same_views(c@, y@) && c@.len() <= y@.len()
                && numerically_increasing(c@),
            final(self).classes_str is None,
            final(self).classes_float is None,
    {
        let v = copy_slice(y);
        proof {
            lemma_same_views_copy(v@, y@);
        }
        let c = unique_sorted(v);
        proof {
            law_int_classes_increase(c@);
            assert forall|x: i64| #[trigger] holds_view(c@, x) <==> #[trigger] holds_view(y@, x) by {
                assert(holds_view(c@, x) <==> holds_view(v@, x));
                assert(holds_view(v@, x) <==> holds_view(y@, x));
            }
        }
        self.classes_int = Some(c);
        self.classes_str = None;
        self.classes_float = None;
    }

    /// Learns the distinct string labels, in increasing (code point) order.
    pub fn fit_str(&mut self, y: Vec<String>)
        ensures
            final(self).classes_str matches Some(c) && strictly_sorted(c@) && same_views(c@, y@) && c@.len() <= y@.len()
                && lexicographically_increasing(c@),
            final(self).classes_int is None,
            final(self).classes_float is None,
    {
        let c = unique_sorted(y);
        proof {
            law_str_classes_increase(c@);
        }
        self.classes_str = Some(c);
        self.classes_int = None;
        self.classes_float = None;
    }

    /// Learns the floating-point labels, given by their bit patterns: sorted by the
    /// IEEE-754 total order, then each label `==` to the last one kept dropped.
    pub fn fit_float(&mut self, y: &[u64])
        ensures
            final(self).classes_float matches Some(c) && key_sorted(c@) && exists|s: Seq<u64>|
                #![trigger float_dedup(s)]
                s.to_multiset() =~= y@.to_multiset() && key_sorted(s) && c@ == float_dedup(s),
            final(self).classes_float matches Some(c) ==> c@.len() <= y@.len(),
            final(self).classes_int is None,
            final(self).classes_str is None,
    {
        let w = wrap_bits(y);
        proof {
            assert(views(w@) =~= y@);
        }
        let sorted_w = sort_values(w);
        let c = dedup_floats(&sorted_w);
        proof {
            let s = views(sorted_w@);
            assert(key_sorted(s)) by {
                assert forall|i: int, j: int| 0 <= i < j < s.len() implies total_key(#[trigger] s[i])
                    <= total_key(#[trigger] s[j]) by {
                    assert(!FloatBits::before(sorted_w@[j]@, sorted_w@[i]@));
                }
            }
            lemma_float_dedup_sorted(s);
            assert(s.to_multiset() =~= y@.to_multiset());
        }
        self.classes_float = Some(c);
        self.classes_int = None;
        self.classes_str = None;
    }

    /// Encodes integer labels as the positions of their classes.
    pub fn transform_int(&self, y: &[i64]) -> (r: Result<Vec<i64>, LabelError>)
        requires
            self.classes_int matches Some(c) ==> sorted(c@) && c@.len() <= i64::MAX,
        ensures
            match self.classes_int {
                None => r matches Err(LabelError::NotFittedInt),
                Some(c) => match r {
                    Ok(out) => encodes(c@, y@, out@),
                    Err(e) => exists|k: int| #[trigger]
                        first_unseen(c@, y@, k) && e == LabelError::UnseenInt(y@[k]),
                },
            },
    {
        match &self.classes_int {
            None => Err(LabelError::NotFittedInt),
            Some(c) => match encode_labels(c, y) {
                Ok(out) => Ok(out),
                Err(k) => {
                    proof {
                        assert(first_unseen(c@, y@, k as int));
                    }
                    Err(LabelError::UnseenInt(y[k]))
                },
            },
        }
    }

    /// Encodes string labels as the positions of their classes.
    pub fn transform_str(&self, y: &[String]) -> (r: Result<Vec<i64>, LabelError>)
        requires
            self.classes_str matches Some(c) ==> sorted(c@) && c@.len() <= i64::MAX,
        ensures
            match self.classes_str {
                None => r matches Err(LabelError::NotFittedStr),
                Some(c) => match r {
                    Ok(out) => encodes(c@, y@, out@),
                    Err(e) => exists|k: int| #[trigger]
                        first_unseen(c@, y@, k) && (e matches LabelError::UnseenStr(v) && v@
                            == y@[k]@),
                },
            },
    {
        match &self.classes_str {
            None => Err(LabelError::NotFittedStr),
            Some(c) => match encode_labels(c, y) {
                Ok(out) => Ok(out),
                Err(k) => {
                    let v = y[k].clone();
                    proof {
                        assert(first_unseen(c@, y@, k as int));
                    }
                    Err(LabelError::UnseenStr(v))
                },
            },
        }
    }

    /// Encodes floating-point labels, given by their bit patterns, as the positions of
    /// the classes with the same bit pattern.
    pub fn transform_float(&self, y: &[u64]) -> (r: Result<Vec<i64>, LabelError>)
        requires
            self.classes_float matches Some(c) ==> key_sorted(c@) && c@.len() <= i64::MAX,
        ensures
            match self.classes_float {
                None => r matches Err(LabelError::NotFittedFloat),
                Some(c) => match r {
                    Ok(out) => encodes(c@, y@, out@),
                    Err(e) => exists|k: int| #[trigger]
                        first_unseen_bits(c@, y@, k) && e == LabelError::UnseenFloat(y@[k]),
                },
            },
    {
        match &self.classes_float {
            None => Err(LabelError::NotFittedFloat),
            Some(c) => {
                let cw = wrap_bits(c.as_slice());
                let yw = wrap_bits(y);
                proof {
                    assert(views(cw@) =~= c@);
                    assert forall|i: int, j: int| 0 <= i < j < cw@.len() implies !FloatBits::before(
                        #[trigger] cw@[j]@,
                        #[trigger] cw@[i]@,
                    ) by {
                        assert(total_key(c@[i]) <= total_key(c@[j]));
                    }
                }
                match encode_labels(&cw, yw.as_slice()) {
                    Ok(out) => {
                        proof {
                            assert forall|i: int| 0 <= i < y@.len() implies 0 <= #[trigger] out@[i]
                                < c@.len() && c@[out@[i] as int]@ == y@[i]@ by {
                                assert(cw@[out@[i] as int]@ == yw@[i]@);
                            }
                        }
                        Ok(out)
                    },
                    Err(k) => {
                        proof {
                            lemma_holds_bits(cw@, c@);
                            assert forall|i: int| 0 <= i < k implies c@.contains(#[trigger] y@[i]) by {
                                assert(holds_view(cw@, yw@[i]@));
                            }
                            assert(!holds_view(cw@, yw@[k as int]@));
                            assert(first_unseen_bits(c@, y@, k as int));
                        }
                        Err(LabelError::UnseenFloat(y[k]))
                    },
                }
            },
        }
    }

    /// Decodes codes into the integer classes they name.
    pub fn inverse_transform_int(&self, y: &[i64]) -> (r: Result<Vec<i64>, LabelError>)
        ensures
            match self.classes_int {
                None => r matches Err(LabelError::NotFittedInt),
                Some(c) => match r {
                    Ok(out) => decodes(c@, y@, out@),
                    Err(e) => exists|k: int| #[trigger]
                        first_out_of_bounds(c@.len() as int, y@, k) && e == LabelError::OutOfBounds(
                            y@[k],
                        ),
                },
            },
    {
        match &self.classes_int {
            None => Err(LabelError::NotFittedInt),
            Some(c) => match decode_labels(c, y) {
                Ok(out) => Ok(out),
                Err(k) => {
                    proof {
                        assert(first_out_of_bounds(c@.len() as int, y@, k as int));
                    }
                    Err(LabelError::OutOfBounds(y[k]))
                },
            },
        }
    }

    /// Decodes codes into the string classes they name.
    pub fn inverse_transform_str(&self, y: &[i64]) -> (r: Result<Vec<String>, LabelError>)
        ensures
            match self.classes_str {
                None => r matches Err(LabelError::NotFittedStr),
                Some(c) => match r {
                    Ok(out) => decodes(c@, y@, out@),
                    Err(e) => exists|k: int| #[trigger]
                        first_out_of_bounds(c@.len() as int, y@, k) && e == LabelError::OutOfBounds(
                            y@[k],
                        ),
                },
            },
    {
        match &self.classes_str {
            None => Err(LabelError::NotFittedStr),
            Some(c) => match decode_labels(c, y) {
                Ok(out) => Ok(out),
                Err(k) => {
                    proof {
                        assert(first_out_of_bounds(c@.len() as int, y@, k as int));
                    }
                    Err(LabelError::OutOfBounds(y[k]))
                },
            },
        }
    }

    /// Decodes codes into the bit patterns of the floating-point classes they name.
    pub fn inverse_transform_float(&self, y: &[i64]) -> (r: Result<Vec<u64>, LabelError>)
        ensures
            match self.classes_float {
                None => r matches Err(LabelError::NotFittedFloat),
                Some(c) => match r {
                    Ok(out) => decodes(c@, y@, out@),
                    Err(e) => exists|k: int| #[trigger]
                        first_out_of_bounds(c@.len() as int, y@, k) && e == LabelError::OutOfBounds(
                            y@[k],
                        ),
                },
            },
    {
        match &self.classes_float {
            None => Err(LabelError::NotFittedFloat),
            Some(c) => match decode_labels(c, y) {
                Ok(out) => Ok(out),
                Err(k) => {
                    proof {
                        assert(first_out_of_bounds(c@.len() as int, y@, k as int));
                    }
                    Err(LabelError::OutOfBounds(y[k]))
                },
            },
        }
    }
}

proof fn lemma_holds_bits(w: Seq<FloatBits>, c: Seq<u64>)
    requires
        w.len() == c.len(),
        forall|i: int| 0 <= i < c.len() ==> (#[trigger] w[i]).bits == c[i],
    ensures
        forall|x: u64| #[trigger] holds_view(w, x) <==> c.contains(x),
{
    assert forall|x: u64| holds_view(w, x) implies c.contains(x) by {
        let i = choose|i: int| 0 <= i < w.len() && #[trigger] w[i]@ == x;
        assert(w[i].bits == c[i]);
    }
    assert forall|x: u64| c.contains(x) implies holds_view(w, x) by {
        let i = choose|i: int| 0 <= i < c.len() && c[i] == x;
        assert(w[i].bits == c[i]);
        assert(w[i]@ == x);
    }
}

proof fn lemma_float_dedup_sorted(s: Seq<u64>)
    requires
        key_sorted(s),
    ensures
        key_sorted(float_dedup(s)),
        forall|i: int|
            0 <= i < float_dedup(s).len() ==> exists|j: int|
                0 <= j < s.len() && #[trigger] float_dedup(s)[i] == s[j],
    decreases s.len(),
{
    if s.len() > 0 {
        let p = s.drop_last();
        assert(key_sorted(p));
        lemma_float_dedup_sorted(p);
        let d = float_dedup(p);
        assert forall|i: int| 0 <= i < d.len() implies total_key(#[trigger] d[i]) <= total_key(
            s.last(),
        ) by {
            let j = choose|j: int| 0 <= j < p.len() && d[i] == p[j];
            assert(s[j] == p[j]);
        }
        assert forall|i: int| 0 <= i < float_dedup(s).len() implies exists|j: int|
            0 <= j < s.len() && #[trigger] float_dedup(s)[i] == s[j] by {
            if i < d.len() {
                let j = choose|j: int| 0 <= j < p.len() && d[i] == p[j];
                assert(s[j] == p[j]);
            } else {
                assert(float_dedup(s)[i] == s[s.len() - 1]);
            }
        }
    }
}


/// The categories of one column of a one-hot encoder.
#[derive(Debug)]
pub enum ColumnCategories {
    Int(Vec<i64>),
    Str(Vec<String>),
}

/// The number of categories.
pub open spec fn cat_len(c: ColumnCategories) -> int {
    match c {
        ColumnCategories::Int(v) => v@.len() as int,
        ColumnCategories::Str(v) => v@.len() as int,
    }
}

impl ColumnCategories {
    pub fn len(&self) -> (r: usize)
        ensures
            r == cat_len(*self),
    {
        match self {
            ColumnCategories::Int(v) => v.len(),
            ColumnCategories::Str(v) => v.len(),
        }
    }
}

/// The number of one-hot columns of the first `cats.len()` columns: the sum of their
/// category counts.
pub open spec fn total_width(cats: Seq<ColumnCategories>) -> int
    decreases cats.len(),
{
    if cats.len() == 0 {
        0
    } else {
        total_width(cats.drop_last()) + cat_len(cats.last())
    }
}

/// The one-hot block of an integer value: a 1 at each category equal to it, 0 elsewhere.
pub open spec fn indicator_int(cats: Seq<i64>, v: i64) -> Seq<u8> {
    Seq::new(cats.len(), |k: int| if cats[k] == v { 1u8 } else { 0u8 })
}

/// The one-hot block of a string value.
pub open spec fn indicator_str(cats: Seq<String>, v: Seq<char>) -> Seq<u8> {
    Seq::new(cats.len(), |k: int| if cats[k]@ == v { 1u8 } else { 0u8 })
}

/// The one-hot encoding of a row of integers: the blocks of its cells, column after column.
pub open spec fn encode_int_row(cats: Seq<ColumnCategories>, row: Seq<i64>) -> Seq<u8>
    decreases cats.len(),
{
    if cats.len() == 0 {
        Seq::empty()
    } else {
        encode_int_row(cats.drop_last(), row.take(cats.len() - 1)) + match cats.last() {
            ColumnCategories::Int(c) => indicator_int(c@, row[cats.len() - 1]),
            ColumnCategories::Str(_) => Seq::empty(),
        }
    }
}

/// The one-hot encoding of a row of strings.
pub open spec fn encode_str_row(cats: Seq<ColumnCategories>, row: Seq<Seq<char>>) -> Seq<u8>
    decreases cats.len(),
{
    if cats.len() == 0 {
        Seq::empty()
    } else {
        encode_str_row(cats.drop_last(), row.take(cats.len() - 1)) + match cats.last() {
            ColumnCategories::Str(c) => indicator_str(c@, row[cats.len() - 1]),
            ColumnCategories::Int(_) => Seq::empty(),
        }
    }
}

/// Row `i` of a table given column by column, as the views of its cells.
pub open spec fn str_row(cols: Seq<Vec<String>>, i: int) -> Seq<Seq<char>> {
    Seq::new(cols.len(), |j: int| cols[j]@[i]@)
}

/// Cell `v` of column `j` cannot be encoded as an integer: the column has string
/// categories, or unknown values are refused and `v` is not a category.
pub open spec fn int_cell_fails(cats: Seq<ColumnCategories>, strict: bool, v: i64, j: int) -> bool {
    match cats[j] {
        ColumnCategories::Str(_) => true,
        ColumnCategories::Int(c) => strict && !c@.contains(v),
    }
}

/// Cell `v` of column `j` cannot be encoded as a string.
pub open spec fn str_cell_fails(cats: Seq<ColumnCategories>, strict: bool, v: Seq<char>, j: int) -> bool {
    match cats[j] {
        ColumnCategories::Int(_) => true,
        ColumnCategories::Str(c) => strict && !holds_view(c@, v),
    }
}

/// `(i, j)` is the first cell, row by row, of an integer table that cannot be encoded.
pub open spec fn first_int_failure(cats: Seq<ColumnCategories>, strict: bool, rows: Seq<Vec<i64>>, i: int, j: int) -> bool {
    &&& 0 <= i < rows.len()
    &&& 0 <= j < cats.len()
    &&& int_cell_fails(cats, strict, rows[i]@[j], j)
    &&& forall|a: int, b: int| 0 <= a < i && 0 <= b < cats.len() ==> !#[trigger] int_cell_fails(cats, strict, rows[a]@[b], b)
    &&& forall|b: int| 0 <= b < j ==> !#[trigger] int_cell_fails(cats, strict, rows[i]@[b], b)
}

/// `(i, j)` is the first cell, row by row, of a string table given column by column
/// (with `n_rows` rows) that cannot be encoded.
pub open spec fn first_str_failure(cats: Seq<ColumnCategories>, strict: bool, cols: Seq<Vec<String>>, n_rows: int, i: int, j: int) -> bool {
    &&& 0 <= i < n_rows
    &&& 0 <= j < cats.len()
    &&& str_cell_fails(cats, strict, cols[j]@[i]@, j)
    &&& forall|a: int, b: int| 0 <= a < i && 0 <= b < cats.len() ==> !#[trigger] str_cell_fails(cats, strict, cols[b]@[a]@, b)
    &&& forall|b: int| 0 <= b < j ==> !#[trigger] str_cell_fails(cats, strict, cols[b]@[i]@, b)
}

/// Why a one-hot encoder refused a request.
#[derive(Debug)]
pub enum OneHotError {
    /// The input has `got` columns, the encoder was fitted on `expected`.
    FeatureMismatch { expected: usize, got: usize },
    UnknownInt { value: i64, column: usize },
    UnknownStr { text: String, column: usize },
    /// Integer input met a column with string categories.
    NotIntCategories,
    /// String input met a column with integer categories.
    NotStrCategories,
    /// No column was given.
    EmptyInput,
    /// The encoded input has `got` columns, the categories make `expected`.
    WidthMismatch { expected: usize, got: usize },
}

/// The categories of each column are strictly increasing.
pub open spec fn categories_sorted(cats: Seq<ColumnCategories>) -> bool {
    forall|j: int|
        0 <= j < cats.len() ==> match #[trigger] cats[j] {
            ColumnCategories::Int(c) => strictly_sorted(c@),
            ColumnCategories::Str(c) => strictly_sorted(c@),
        }
}

/// A strictly sorted sequence holds each value at one position at most.
proof fn lemma_strict_unique<T: Ordered>(s: Seq<T>, a: int, b: int)
    requires
        strictly_sorted(s),
        0 <= a < s.len(),
        0 <= b < s.len(),
        s[a]@ == s[b]@,
    ensures
        a == b,
{
    if a < b {
        T::lemma_irreflexive(s[a]@);
    } else if b < a {
        T::lemma_irreflexive(s[a]@);
    }
}

/// Appends a block of `len` zeros, with a 1 at `hot` if there is one.
fn push_block(out: &mut Vec<u8>, len: usize, hot: Option<usize>)
    ensures
        final(out)@ == old(out)@ + Seq::new(len as nat, |k: int| if hot == Some(k as usize) { 1u8 } else { 0u8 }),
{
    let ghost start = out@;
    let mut k: usize = 0;
    while k < len
        invariant
            k <= len,
            out@ == start + Seq::new(k as nat, |m: int| if hot == Some(m as usize) { 1u8 } else { 0u8 }),
        decreases len - k,
    {
        let bit: u8 = match hot {
            Some(h) => if h == k {
                1
            } else {
                0
            },
            None => 0,
        };
        out.push(bit);
        k = k + 1;
        proof {
            assert(out@ =~= start + Seq::new(k as nat, |m: int| if hot == Some(m as usize) { 1u8 } else { 0u8 }));
        }
    }
}

/// Whether unknown categories are refused (`handle_unknown` is `"error"`).
fn refuses_unknown(handle_unknown: &String) -> (r: bool)
    ensures
        r == (handle_unknown@ == "error"@),
{
    let error_word = String::from_str("error");
    *handle_unknown == error_word
}

/// The learnt categories of a one-hot encoder, one entry per column, and whether unknown
/// values are refused (`handle_unknown` is `"error"`) or encoded as all zeros.
pub struct OneHotEncoderCore {
    pub categories: Vec<ColumnCategories>,
    pub handle_unknown: String,
}

impl OneHotEncoderCore {
    pub fn new(handle_unknown: String) -> (r: Self)
        ensures
            r.categories@.len() == 0,
            r.handle_unknown == handle_unknown,
    {
        OneHotEncoderCore { categories: Vec::new(), handle_unknown }
    }

    /// The first one-hot column of each column's block, and the total width at the end.
    pub fn category_offsets(&self) -> (r: Vec<usize>)
        requires
            total_width(self.categories@) <= usize::MAX,
        ensures
            r@.len() == self.categories@.len() + 1,
            forall|j: int| 0 <= j <= self.categories@.len() ==> #[trigger] r@[j] == total_width(self.categories@.take(j)),
    {
        let ghost cats = self.categories@;
        let mut r: Vec<usize> = Vec::new();
        r.push(0);
        let mut off: usize = 0;
        let mut j: usize = 0;
        proof {
            assert(cats.take(0) =~= Seq::<ColumnCategories>::empty());
        }
        while j < self.categories.len()
            invariant
                cats == self.categories@,
                total_width(cats) <= usize::MAX,
                j <= cats.len(),
                r@.len() == j + 1,
                off == total_width(cats.take(j as int)),
                forall|m: int| 0 <= m <= j ==> #[trigger] r@[m] == total_width(cats.take(m)),
            decreases cats.len() - j,
        {
            proof {
                assert(cats.take(j + 1).drop_last() =~= cats.take(j as int));
                lemma_width_prefix(cats, j + 1);
            }
            off = off + self.categories[j].len();
            r.push(off);
            j = j + 1;
        }
        r
    }
}

/// Column `j` of a table.
pub open spec fn column<T>(x: Table<T>, j: int) -> Seq<T> {
    Seq::new(x.rows@.len(), |i: int| x.rows@[i]@[j])
}

/// What a failing integer cell is reported as.
pub open spec fn int_cell_error(cats: Seq<ColumnCategories>, v: i64, j: int) -> OneHotError {
    match cats[j] {
        ColumnCategories::Str(_) => OneHotError::NotIntCategories,
        ColumnCategories::Int(_) => OneHotError::UnknownInt { value: v, column: j as usize },
    }
}

/// What a failing string cell is reported as.
pub open spec fn str_cell_error(cats: Seq<ColumnCategories>, v: Seq<char>, j: int, e: OneHotError) -> bool {
    match cats[j] {
        ColumnCategories::Int(_) => e == OneHotError::NotStrCategories,
        ColumnCategories::Str(_) => e matches OneHotError::UnknownStr { text, column } && text@ == v && column == j,
    }
}

/// The values chosen in each column: the category at the given position of each block.
pub open spec fn decode_int_row(cats: Seq<ColumnCategories>, picks: Seq<usize>) -> Seq<i64> {
    Seq::new(
        cats.len(),
        |j: int|
            match cats[j] {
                ColumnCategories::Int(c) => c@[picks[j] as int],
                ColumnCategories::Str(_) => 0i64,
            },
    )
}

/// The strings chosen in each column.
pub open spec fn decode_str_row(cats: Seq<ColumnCategories>, picks: Seq<usize>) -> Seq<Seq<char>> {
    Seq::new(
        cats.len(),
        |j: int|
            match cats[j] {
                ColumnCategories::Str(c) => c@[picks[j] as int]@,
                ColumnCategories::Int(_) => Seq::<char>::empty(),
            },
    )
}

/// Every column has integer categories.
pub open spec fn all_int(cats: Seq<ColumnCategories>) -> bool {
    forall|j: int| 0 <= j < cats.len() ==> #[trigger] cats[j] is Int
}

/// Every column has string categories.
pub open spec fn all_str(cats: Seq<ColumnCategories>) -> bool {
    forall|j: int| 0 <= j < cats.len() ==> #[trigger] cats[j] is Str
}

proof fn lemma_encode_int_step(cats: Seq<ColumnCategories>, row: Seq<i64>, j: int)
    requires
        0 <= j < cats.len(),
        j < row.len(),
    ensures
        encode_int_row(cats.take(j + 1), row.take(j + 1)) == encode_int_row(cats.take(j), row.take(j)) + match cats[j] {
            ColumnCategories::Int(c) => indicator_int(c@, row[j]),
            ColumnCategories::Str(_) => Seq::empty(),
        },
{
    assert(cats.take(j + 1).drop_last() =~= cats.take(j));
    assert(row.take(j + 1).take(j) =~= row.take(j));
}

proof fn lemma_encode_str_step(cats: Seq<ColumnCategories>, row: Seq<Seq<char>>, j: int)
    requires
        0 <= j < cats.len(),
        j < row.len(),
    ensures
        encode_str_row(cats.take(j + 1), row.take(j + 1)) == encode_str_row(cats.take(j), row.take(j)) + match cats[j] {
            ColumnCategories::Str(c) => indicator_str(c@, row[j]),
            ColumnCategories::Int(_) => Seq::empty(),
        },
{
    assert(cats.take(j + 1).drop_last() =~= cats.take(j));
    assert(row.take(j + 1).take(j) =~= row.take(j));
}

proof fn lemma_encode_int_len(cats: Seq<ColumnCategories>, row: Seq<i64>)
    requires
        all_int(cats),
    ensures
        encode_int_row(cats, row).len() == total_width(cats),
    decreases cats.len(),
{
    if cats.len() > 0 {
        let p = cats.drop_last();
        assert(all_int(p)) by {
            assert forall|j: int| 0 <= j < p.len() implies #[trigger] p[j] is Int by {
                assert(p[j] == cats[j]);
            }
        }
        lemma_encode_int_len(p, row.take(cats.len() - 1));
        assert(cats[cats.len() - 1] is Int);
    }
}

proof fn lemma_encode_str_len(cats: Seq<ColumnCategories>, row: Seq<Seq<char>>)
    requires
        all_str(cats),
    ensures
        encode_str_row(cats, row).len() == total_width(cats),
    decreases cats.len(),
{
    if cats.len() > 0 {
        let p = cats.drop_last();
        assert(all_str(p)) by {
            assert forall|j: int| 0 <= j < p.len() implies #[trigger] p[j] is Str by {
                assert(p[j] == cats[j]);
            }
        }
        lemma_encode_str_len(p, row.take(cats.len() - 1));
        assert(cats[cats.len() - 1] is Str);
    }
}

/// The block that a search result gives is the indicator of the value.
proof fn lemma_block_int(c: Seq<i64>, v: i64, hot: Option<usize>)
    requires
        strictly_sorted(c),
        c.len() <= usize::MAX,
        hot matches Some(k) ==> k < c.len() && c[k as int] == v,
        hot is None ==> !c.contains(v),
    ensures
        Seq::new(c.len(), |k: int| if hot == Some(k as usize) { 1u8 } else { 0u8 }) =~= indicator_int(c, v),
{
    assert forall|k: int| 0 <= k < c.len() implies (if hot == Some(k as usize) { 1u8 } else { 0u8 }) == (if c[k] == v { 1u8 } else { 0u8 }) by {
        assert((k as usize) as int == k);
        match hot {
            Some(h) => {
                if c[k] == v {
                    assert(c[k]@ == c[h as int]@);
                    lemma_strict_unique(c, k, h as int);
                }
            },
            None => {
            },
        }
    }
}

proof fn lemma_block_str(c: Seq<String>, v: Seq<char>, hot: Option<usize>)
    requires
        strictly_sorted(c),
        c.len() <= usize::MAX,
        hot matches Some(k) ==> k < c.len() && c[k as int]@ == v,
        hot is None ==> !holds_view(c, v),
    ensures
        Seq::new(c.len(), |k: int| if hot == Some(k as usize) { 1u8 } else { 0u8 }) =~= indicator_str(c, v),
{
    assert forall|k: int| 0 <= k < c.len() implies (if hot == Some(k as usize) { 1u8 } else { 0u8 }) == (if c[k]@ == v { 1u8 } else { 0u8 }) by {
        assert((k as usize) as int == k);
        match hot {
            Some(h) => {
                if c[k]@ == v {
                    lemma_strict_unique(c, k, h as int);
                }
            },
            None => {
            },
        }
    }
}

impl OneHotEncoderCore {
    /// Learns the distinct values of each integer column, in increasing order.
    pub fn fit_int(&mut self, x: &Table<i64>)
        requires
            x.wf(),
        ensures
            final(self).categories@.len() == x.n_cols,
            forall|j: int|
                0 <= j < x.n_cols ==> ((#[trigger] final(self).categories@[j]) matches ColumnCategories::Int(c)
                    && strictly_sorted(c@) && numerically_increasing(c@) && same_views(c@, column(*x, j))),
            final(self).handle_unknown == old(self).handle_unknown,
    {
        let mut categories: Vec<ColumnCategories> = Vec::new();
        let mut j: usize = 0;
        while j < x.n_cols
            invariant
                x.wf(),
                j <= x.n_cols,
                categories@.len() == j,
                forall|m: int|
                    0 <= m < j ==> ((#[trigger] categories@[m]) matches ColumnCategories::Int(c) && strictly_sorted(c@)
                        && numerically_increasing(c@) && same_views(c@, column(*x, m))),
            decreases x.n_cols - j,
        {
            let mut col: Vec<i64> = Vec::new();
            let mut i: usize = 0;
            while i < x.rows.len()
                invariant
                    x.wf(),
                    j < x.n_cols,
                    i <= x.rows@.len(),
                    col@ =~= column(*x, j as int).take(i as int),
                decreases x.rows@.len() - i,
            {
                proof {
                    assert(x.rows@[i as int]@.len() == x.n_cols);
                }
                col.push(x.rows[i][j]);
                i = i + 1;
            }
            proof {
                assert(col@ =~= column(*x, j as int));
            }
            let c = unique_sorted(col);
            proof {
                law_int_classes_increase(c@);
            }
            categories.push(ColumnCategories::Int(c));
            j = j + 1;
        }
        self.categories = categories;
    }

    /// Learns the distinct strings of each column (given column by column), in
    /// increasing order.
    pub fn fit_str(&mut self, x_cols: Vec<Vec<String>>)
        ensures
            final(self).categories@.len() == x_cols@.len(),
            forall|j: int|
                0 <= j < x_cols@.len() ==> ((#[trigger] final(self).categories@[j]) matches ColumnCategories::Str(c)
                    && strictly_sorted(c@) && lexicographically_increasing(c@) && same_views(c@, x_cols@[j]@)),
            final(self).handle_unknown == old(self).handle_unknown,
    {
        let mut categories: Vec<ColumnCategories> = Vec::new();
        let mut j: usize = 0;
        while j < x_cols.len()
            invariant
                j <= x_cols@.len(),
                categories@.len() == j,
                forall|m: int|
                    0 <= m < j ==> ((#[trigger] categories@[m]) matches ColumnCategories::Str(c) && strictly_sorted(c@)
                        && lexicographically_increasing(c@) && same_views(c@, x_cols@[m]@)),
            decreases x_cols@.len() - j,
        {
            let col = copy_slice(x_cols[j].as_slice());
            proof {
                lemma_same_views_copy(col@, x_cols@[j as int]@);
            }
            let c = unique_sorted(col);
            proof {
                law_str_classes_increase(c@);
                assert forall|v: Seq<char>| #[trigger] holds_view(c@, v) <==> #[trigger] holds_view(x_cols@[j as int]@, v) by {
                    assert(holds_view(c@, v) <==> holds_view(col@, v));
                    assert(holds_view(col@, v) <==> holds_view(x_cols@[j as int]@, v));
                }
            }
            categories.push(ColumnCategories::Str(c));
            j = j + 1;
        }
        self.categories = categories;
    }

    /// The total number of one-hot columns.
    fn width(&self) -> (r: usize)
        requires
            total_width(self.categories@) <= usize::MAX,
        ensures
            r == total_width(self.categories@),
    {
        let offsets = self.category_offsets();
        proof {
            assert(self.categories@.take(self.categories@.len() as int) =~= self.categories@);
        }
        offsets[self.categories.len()]
    }

    /// One-hot encodes an integer table: each cell becomes the block of its column, with a
    /// 1 at its category. An unknown value is refused when `handle_unknown` is `"error"`
    /// and gives a block of zeros otherwise. Rows are taken in order, and the first cell
    /// that cannot be encoded is reported.
    pub fn transform_int(&self, x: &Table<i64>) -> (r: Result<Table<u8>, OneHotError>)
        requires
            x.wf(),
            categories_sorted(self.categories@),
            total_width(self.categories@) <= usize::MAX,
        ensures
            ({
                let cats = self.categories@;
                let strict = self.handle_unknown@ == "error"@;
                match r {
                    Ok(t) => {
                        &&& x.n_cols == cats.len()
                        &&& forall|i: int, j: int|
                            0 <= i < x.rows@.len() && 0 <= j < cats.len() ==> !#[trigger] int_cell_fails(
                                cats,
                                strict,
                                x.rows@[i]@[j],
                                j,
                            )
                        &&& t.n_cols == total_width(cats)
                        &&& t.wf()
                        &&& t.rows@.len() == x.rows@.len()
                        &&& forall|i: int| 0 <= i < x.rows@.len() ==> (#[trigger] t.rows@[i])@ == encode_int_row(cats, x.rows@[i]@)
                    },
                    Err(e) => if x.n_cols != cats.len() {
                        e == OneHotError::FeatureMismatch { expected: cats.len() as usize, got: x.n_cols }
                    } else {
                        exists|i: int, j: int|
                            #[trigger] first_int_failure(cats, strict, x.rows@, i, j) && e == int_cell_error(
                                cats,
                                x.rows@[i]@[j],
                                j,
                            )
                    },
                }
            }),
    {
        let ghost cats = self.categories@;
        let n_features = x.n_cols;
        if n_features != self.categories.len() {
            return Err(OneHotError::FeatureMismatch { expected: self.categories.len(), got: n_features });
        }
        let strict = refuses_unknown(&self.handle_unknown);
        let total = self.width();
        let mut out: Vec<Vec<u8>> = Vec::new();
        let mut i: usize = 0;
        while i < x.rows.len()
            invariant
                x.wf(),
                cats == self.categories@,
                categories_sorted(cats),
                n_features == x.n_cols,
                n_features == cats.len(),
                strict == (self.handle_unknown@ == "error"@),
                total == total_width(cats),
                i <= x.rows@.len(),
                out@.len() == i,
                forall|a: int| 0 <= a < i ==> (#[trigger] out@[a])@ == encode_int_row(cats, x.rows@[a]@),
                forall|a: int, b: int| 0 <= a < i && 0 <= b < cats.len() ==> !#[trigger] int_cell_fails(cats, strict, x.rows@[a]@[b], b),
            decreases x.rows@.len() - i,
        {
            let ghost xr = x.rows@[i as int]@;
            let mut row: Vec<u8> = Vec::new();
            let mut j: usize = 0;
            proof {
                assert(cats.take(0) =~= Seq::<ColumnCategories>::empty());
                assert(xr.len() == n_features);
            }
            while j < n_features
                invariant
                    x.wf(),
                    cats == self.categories@,
                    categories_sorted(cats),
                    n_features == x.n_cols,
                    n_features == cats.len(),
                    i < x.rows@.len(),
                    xr == x.rows@[i as int]@,
                    xr.len() == n_features,
                    strict == (self.handle_unknown@ == "error"@),
                    j <= n_features,
                    row@ == encode_int_row(cats.take(j as int), xr.take(j as int)),
                    forall|a: int, b: int| 0 <= a < i && 0 <= b < cats.len() ==> !#[trigger] int_cell_fails(cats, strict, x.rows@[a]@[b], b),
                    forall|b: int| 0 <= b < j ==> !#[trigger] int_cell_fails(cats, strict, xr[b], b),
                decreases n_features - j,
            {
                proof {
                    lemma_encode_int_step(cats, xr, j as int);
                }
                let v = x.rows[i][j];
                match &self.categories[j] {
                    ColumnCategories::Int(c) => {
                        proof {
                            assert(strictly_sorted(c@));
                        }
                        let found = search_sorted(c, &v);
                        let cl = c.len();
                        match found {
                            Some(k) => {
                                proof {
                                    lemma_block_int(c@, v, found);
                                    assert(c@.contains(v));
                                }
                                push_block(&mut row, cl, found);
                            },
                            None => {
                                proof {
                                    assert(!c@.contains(v)) by {
                                        if c@.contains(v) {
                                            let k = choose|k: int| 0 <= k < c@.len() && c@[k] == v;
                                            assert(c@[k]@ == v);
                                        }
                                    }
                                }
                                if strict {
                                    proof {
                                        assert(first_int_failure(cats, strict, x.rows@, i as int, j as int));
                                    }
                                    return Err(OneHotError::UnknownInt { value: v, column: j });
                                }
                                proof {
                                    lemma_block_int(c@, v, found);
                                }
                                push_block(&mut row, cl, found);
                            },
                        }
                    },
                    ColumnCategories::Str(_) => {
                        proof {
                            assert(first_int_failure(cats, strict, x.rows@, i as int, j as int));
                        }
                        return Err(OneHotError::NotIntCategories);
                    },
                }
                j = j + 1;
            }
            proof {
                assert(cats.take(n_features as int) =~= cats);
                assert(xr.take(n_features as int) =~= xr);
            }
            out.push(row);
            i = i + 1;
        }
        let t = Table { n_cols: total, rows: out };
        proof {
            if x.rows@.len() > 0 {
                assert(all_int(cats)) by {
                    assert forall|j: int| 0 <= j < cats.len() implies #[trigger] cats[j] is Int by {
                        assert(!int_cell_fails(cats, strict, x.rows@[0]@[j], j));
                    }
                }
                assert forall|a: int| 0 <= a < t.rows@.len() implies (#[trigger] t.rows@[a])@.len() == t.n_cols by {
                    lemma_encode_int_len(cats, x.rows@[a]@);
                }
            }
        }
        Ok(t)
    }

    /// One-hot encodes a string table given column by column, as `transform_int` does.
    pub fn transform_str(&self, x_cols: &[Vec<String>]) -> (r: Result<Table<u8>, OneHotError>)
        requires
            forall|j: int| 0 <= j < x_cols@.len() ==> (#[trigger] x_cols@[j])@.len() >= x_cols@[0]@.len(),
            categories_sorted(self.categories@),
            total_width(self.categories@) <= usize::MAX,
        ensures
            ({
                let cats = self.categories@;
                let strict = self.handle_unknown@ == "error"@;
                match r {
                    Ok(t) => {
                        &&& x_cols@.len() > 0
                        &&& x_cols@.len() == cats.len()
                        &&& forall|i: int, j: int|
                            0 <= i < x_cols@[0]@.len() && 0 <= j < cats.len() ==> !#[trigger] str_cell_fails(
                                cats,
                                strict,
                                x_cols@[j]@[i]@,
                                j,
                            )
                        &&& t.n_cols == total_width(cats)
                        &&& t.wf()
                        &&& t.rows@.len() == x_cols@[0]@.len()
                        &&& forall|i: int|
                            0 <= i < t.rows@.len() ==> (#[trigger] t.rows@[i])@ == encode_str_row(cats, str_row(x_cols@, i))
                    },
                    Err(e) => if x_cols@.len() == 0 {
                        e == OneHotError::EmptyInput
                    } else if x_cols@.len() != cats.len() {
                        e == OneHotError::FeatureMismatch { expected: cats.len() as usize, got: x_cols@.len() as usize }
                    } else {
                        exists|i: int, j: int|
                            #[trigger] first_str_failure(cats, strict, x_cols@, x_cols@[0]@.len() as int, i, j)
                                && str_cell_error(cats, x_cols@[j]@[i]@, j, e)
                    },
                }
            }),
    {
        let ghost cats = self.categories@;
        if x_cols.len() == 0 {
            return Err(OneHotError::EmptyInput);
        }
        let n_features = x_cols.len();
        let n_samples = x_cols[0].len();
        if n_features != self.categories.len() {
            return Err(OneHotError::FeatureMismatch { expected: self.categories.len(), got: n_features });
        }
        let strict = refuses_unknown(&self.handle_unknown);
        let total = self.width();
        let mut out: Vec<Vec<u8>> = Vec::new();
        let mut i: usize = 0;
        while i < n_samples
            invariant
                forall|j: int| 0 <= j < x_cols@.len() ==> (#[trigger] x_cols@[j])@.len() >= x_cols@[0]@.len(),
                cats == self.categories@,
                categories_sorted(cats),
                n_features == x_cols@.len(),
                n_features == cats.len(),
                n_features > 0,
                n_samples == x_cols@[0]@.len(),
                strict == (self.handle_unknown@ == "error"@),
                total == total_width(cats),
                i <= n_samples,
                out@.len() == i,
                forall|a: int| 0 <= a < i ==> (#[trigger] out@[a])@ == encode_str_row(cats, str_row(x_cols@, a)),
                forall|a: int, b: int| 0 <= a < i && 0 <= b < cats.len() ==> !#[trigger] str_cell_fails(cats, strict, x_cols@[b]@[a]@, b),
            decreases n_samples - i,
        {
            let ghost xr = str_row(x_cols@, i as int);
            let mut row: Vec<u8> = Vec::new();
            let mut j: usize = 0;
            proof {
                assert(cats.take(0) =~= Seq::<ColumnCategories>::empty());
            }
            while j < n_features
                invariant
                    forall|j: int| 0 <= j < x_cols@.len() ==> (#[trigger] x_cols@[j])@.len() >= x_cols@[0]@.len(),
                    cats == self.categories@,
                    categories_sorted(cats),
                    n_features == x_cols@.len(),
                    n_features == cats.len(),
                    n_samples == x_cols@[0]@.len(),
                    i < n_samples,
                    xr == str_row(x_cols@, i as int),
                    strict == (self.handle_unknown@ == "error"@),
                    j <= n_features,
                    row@ == encode_str_row(cats.take(j as int), xr.take(j as int)),
                    forall|a: int, b: int| 0 <= a < i && 0 <= b < cats.len() ==> !#[trigger] str_cell_fails(cats, strict, x_cols@[b]@[a]@, b),
                    forall|b: int| 0 <= b < j ==> !#[trigger] str_cell_fails(cats, strict, x_cols@[b]@[i as int]@, b),
                decreases n_features - j,
            {
                proof {
                    lemma_encode_str_step(cats, xr, j as int);
                    assert(x_cols@[j as int]@.len() >= n_samples);
                }
                let v = &x_cols[j][i];
                match &self.categories[j] {
                    ColumnCategories::Str(c) => {
                        proof {
                            assert(strictly_sorted(c@));
                            lemma_strictly_sorted_sorted(c@);
                        }
                        let found = search_sorted(c, v);
                        let cl = c.len();
                        match found {
                            Some(k) => {
                                proof {
                                    lemma_block_str(c@, v@, found);
                                }
                                push_block(&mut row, cl, found);
                            },
                            None => {
                                if strict {
                                    proof {
                                        assert(first_str_failure(cats, strict, x_cols@, n_samples as int, i as int, j as int));
                                    }
                                    return Err(OneHotError::UnknownStr { text: v.clone(), column: j });
                                }
                                proof {
                                    lemma_block_str(c@, v@, found);
                                }
                                push_block(&mut row, cl, found);
                            },
                        }
                    },
                    ColumnCategories::Int(_) => {
                        proof {
                            assert(first_str_failure(cats, strict, x_cols@, n_samples as int, i as int, j as int));
                        }
                        return Err(OneHotError::NotStrCategories);
                    },
                }
                j = j + 1;
            }
            proof {
                assert(cats.take(n_features as int) =~= cats);
                assert(xr.take(n_features as int) =~= xr);
            }
            out.push(row);
            i = i + 1;
        }
        let t = Table { n_cols: total, rows: out };
        proof {
            if n_samples > 0 {
                assert(all_str(cats)) by {
                    assert forall|j: int| 0 <= j < cats.len() implies #[trigger] cats[j] is Str by {
                        assert(!str_cell_fails(cats, strict, x_cols@[j]@[0]@, j));
                    }
                }
                assert forall|a: int| 0 <= a < t.rows@.len() implies (#[trigger] t.rows@[a])@.len() == t.n_cols by {
                    lemma_encode_str_len(cats, str_row(x_cols@, a));
                }
            }
        }
        Ok(t)
    }

    /// Decodes one-hot rows back to integers, given for each row and column the position
    /// chosen in the column's block (the first largest entry of the block). `n_cols` is
    /// the number of columns of the encoded table.
    pub fn inverse_transform_int(&self, n_cols: usize, picks: &Table<usize>) -> (r: Result<Table<i64>, OneHotError>)
        requires
            picks.wf(),
            picks.n_cols == self.categories@.len(),
            forall|i: int, j: int|
                0 <= i < picks.rows@.len() && 0 <= j < self.categories@.len() ==> #[trigger] picks.rows@[i]@[j] < cat_len(
                    self.categories@[j],
                ),
            total_width(self.categories@) <= usize::MAX,
        ensures
            ({
                let cats = self.categories@;
                match r {
                    Ok(t) => {
                        &&& n_cols == total_width(cats)
                        &&& picks.rows@.len() > 0 ==> all_int(cats)
                        &&& t.n_cols == cats.len()
                        &&& t.wf()
                        &&& t.rows@.len() == picks.rows@.len()
                        &&& forall|i: int| 0 <= i < t.rows@.len() ==> (#[trigger] t.rows@[i])@ == decode_int_row(cats, picks.rows@[i]@)
                    },
                    Err(e) => if n_cols != total_width(cats) {
                        e == OneHotError::WidthMismatch { expected: total_width(cats) as usize, got: n_cols }
                    } else {
                        picks.rows@.len() > 0 && !all_int(cats) && e == OneHotError::NotIntCategories
                    },
                }
            }),
    {
        let ghost cats = self.categories@;
        let total = self.width();
        if n_cols != total {
            return Err(OneHotError::WidthMismatch { expected: total, got: n_cols });
        }
        let n_features = self.categories.len();
        let mut out: Vec<Vec<i64>> = Vec::new();
        let mut i: usize = 0;
        while i < picks.rows.len()
            invariant
                picks.wf(),
                picks.n_cols == cats.len(),
                cats == self.categories@,
                n_cols == total_width(cats),
                n_features == cats.len(),
                forall|a: int, j: int|
                    0 <= a < picks.rows@.len() && 0 <= j < cats.len() ==> #[trigger] picks.rows@[a]@[j] < cat_len(cats[j]),
                i <= picks.rows@.len(),
                out@.len() == i,
                i > 0 ==> all_int(cats),
                forall|a: int| 0 <= a < i ==> (#[trigger] out@[a])@ == decode_int_row(cats, picks.rows@[a]@),
            decreases picks.rows@.len() - i,
        {
            let ghost pr = picks.rows@[i as int]@;
            let mut row: Vec<i64> = Vec::new();
            let mut j: usize = 0;
            while j < n_features
                invariant
                    picks.wf(),
                    picks.n_cols == cats.len(),
                    cats == self.categories@,
                    n_cols == total_width(cats),
                    n_features == cats.len(),
                    forall|a: int, j: int|
                        0 <= a < picks.rows@.len() && 0 <= j < cats.len() ==> #[trigger] picks.rows@[a]@[j] < cat_len(cats[j]),
                    i < picks.rows@.len(),
                    pr == picks.rows@[i as int]@,
                    j <= n_features,
                    row@ =~= decode_int_row(cats, pr).take(j as int),
                    forall|b: int| 0 <= b < j ==> #[trigger] cats[b] is Int,
                decreases n_features - j,
            {
                let p = picks.rows[i][j];
                match &self.categories[j] {
                    ColumnCategories::Int(c) => {
                        row.push(c[p]);
                    },
                    ColumnCategories::Str(_) => {
                        proof {
                            assert(!(cats[j as int] is Int));
                            assert(!all_int(cats));
                        }
                        return Err(OneHotError::NotIntCategories);
                    },
                }
                j = j + 1;
            }
            proof {
                assert(decode_int_row(cats, pr).take(n_features as int) =~= decode_int_row(cats, pr));
            }
            out.push(row);
            i = i + 1;
        }
        Ok(Table { n_cols: n_features, rows: out })
    }

    /// Decodes one-hot rows back to strings, as `inverse_transform_int` does.
    pub fn inverse_transform_str(&self, n_cols: usize, picks: &Table<usize>) -> (r: Result<Vec<Vec<String>>, OneHotError>)
        requires
            picks.wf(),
            picks.n_cols == self.categories@.len(),
            forall|i: int, j: int|
                0 <= i < picks.rows@.len() && 0 <= j < self.categories@.len() ==> #[trigger] picks.rows@[i]@[j] < cat_len(
                    self.categories@[j],
                ),
            total_width(self.categories@) <= usize::MAX,
        ensures
            ({
                let cats = self.categories@;
                match r {
                    Ok(out) => {
                        &&& n_cols == total_width(cats)
                        &&& picks.rows@.len() > 0 ==> all_str(cats)
                        &&& out@.len() == picks.rows@.len()
                        &&& forall|i: int| 0 <= i < out@.len() ==> views((#[trigger] out@[i])@) == decode_str_row(cats, picks.rows@[i]@)
                    },
                    Err(e) => if n_cols != total_width(cats) {
                        e == OneHotError::WidthMismatch { expected: total_width(cats) as usize, got: n_cols }
                    } else {
                        picks.rows@.len() > 0 && !all_str(cats) && e == OneHotError::NotStrCategories
                    },
                }
            }),
    {
        let ghost cats = self.categories@;
        let total = self.width();
        if n_cols != total {
            return Err(OneHotError::WidthMismatch { expected: total, got: n_cols });
        }
        let n_features = self.categories.len();
        let mut out: Vec<Vec<String>> = Vec::new();
        let mut i: usize = 0;
        while i < picks.rows.len()
            invariant
                picks.wf(),
                picks.n_cols == cats.len(),
                cats == self.categories@,
                n_cols == total_width(cats),
                n_features == cats.len(),
                forall|a: int, j: int|
                    0 <= a < picks.rows@.len() && 0 <= j < cats.len() ==> #[trigger] picks.rows@[a]@[j] < cat_len(cats[j]),
                i <= picks.rows@.len(),
                out@.len() == i,
                i > 0 ==> all_str(cats),
                forall|a: int| 0 <= a < i ==> views((#[trigger] out@[a])@) == decode_str_row(cats, picks.rows@[a]@),
            decreases picks.rows@.len() - i,
        {
            let ghost pr = picks.rows@[i as int]@;
            let mut row: Vec<String> = Vec::new();
            let mut j: usize = 0;
            while j < n_features
                invariant
                    picks.wf(),
                    picks.n_cols == cats.len(),
                    cats == self.categories@,
                    n_cols == total_width(cats),
                    n_features == cats.len(),
                    forall|a: int, j: int|
                        0 <= a < picks.rows@.len() && 0 <= j < cats.len() ==> #[trigger] picks.rows@[a]@[j] < cat_len(cats[j]),
                    i < picks.rows@.len(),
                    pr == picks.rows@[i as int]@,
                    j <= n_features,
                    views(row@) =~= decode_str_row(cats, pr).take(j as int),
                    forall|b: int| 0 <= b < j ==> #[trigger] cats[b] is Str,
                decreases n_features - j,
            {
                let p = picks.rows[i][j];
                match &self.categories[j] {
                    ColumnCategories::Str(c) => {
                        let ghost before = row@;
                        row.push(c[p].clone());
                        proof {
                            assert(views(row@) =~= views(before).push(c@[p as int]@));
                        }
                    },
                    ColumnCategories::Int(_) => {
                        proof {
                            assert(!(cats[j as int] is Str));
                            assert(!all_str(cats));
                        }
                        return Err(OneHotError::NotStrCategories);
                    },
                }
                j = j + 1;
            }
            proof {
                assert(decode_str_row(cats, pr).take(n_features as int) =~= decode_str_row(cats, pr));
            }
            out.push(row);
            i = i + 1;
        }
        Ok(out)
    }
}

/// A prefix is no wider than the whole.
proof fn lemma_width_prefix(cats: Seq<ColumnCategories>, j: int)
    requires
        0 <= j <= cats.len(),
    ensures
        0 <= total_width(cats.take(j)) <= total_width(cats),
    decreases cats.len() - j,
{
    if j == cats.len() {
        assert(cats.take(j) =~= cats);
        lemma_width_nonneg(cats);
    } else {
        lemma_width_prefix(cats, j + 1);
        assert(cats.take(j + 1).drop_last() =~= cats.take(j));
        lemma_width_nonneg(cats.take(j));
    }
}

proof fn lemma_width_nonneg(cats: Seq<ColumnCategories>)
    ensures
        total_width(cats) >= 0,
    decreases cats.len(),
{
    if cats.len() > 0 {
        lemma_width_nonneg(cats.drop_last());
    }
}


/// Decoding the codes of labels gives the labels back: for classes `c`, if `codes`
/// encodes `y` and `back` decodes `codes`, then `back` and `y` hold the same values.
pub proof fn law_label_round_trip<T: View>(c: Seq<T>, y: Seq<T>, codes: Seq<i64>, back: Seq<T>)
    requires
        encodes(c, y, codes),
        decodes(c, codes, back),
    ensures
        views(back) == views(y),
{
    assert forall|i: int| 0 <= i < y.len() implies #[trigger] views(back)[i] == views(y)[i] by {
        assert(back[i]@ == c[codes[i] as int]@);
        assert(c[codes[i] as int]@ == y[i]@);
    }
    assert(views(back) =~= views(y));
}

/// The codes keep the order of the labels: with strictly increasing classes, a label

/// The integers increase strictly, by value.
pub open spec fn numerically_increasing(c: Seq<i64>) -> bool {
    forall|i: int, j: int| 0 <= i < j < c.len() ==> #[trigger] c[i] < #[trigger] c[j]
}

/// The strings increase strictly in lexicographic order.
pub open spec fn lexicographically_increasing(c: Seq<String>) -> bool {
    forall|i: int, j: int| 0 <= i < j < c.len() ==> lexicographically_less(#[trigger] c[i]@, #[trigger] c[j]@)
}

proof fn lemma_strict_pair<T: Ordered>(s: Seq<T>, i: int, j: int)
    requires
        strictly_sorted(s),
        0 <= i < j < s.len(),
    ensures
        T::before(s[i]@, s[j]@),
{
}

/// Integer classes come out in increasing numeric order, negative values first.
pub proof fn law_int_classes_increase(c: Seq<i64>)
    requires
        strictly_sorted(c),
    ensures
        numerically_increasing(c),
{
    assert forall|i: int, j: int| 0 <= i < j < c.len() implies #[trigger] c[i] < #[trigger] c[j] by {
        lemma_strict_pair(c, i, j);
    }
}

/// String classes come out in lexicographic order, a proper prefix before its
/// extensions.
pub proof fn law_str_classes_increase(c: Seq<String>)
    requires
        strictly_sorted(c),
    ensures
        lexicographically_increasing(c),
{
    assert forall|i: int, j: int| 0 <= i < j < c.len() implies lexicographically_less(#[trigger] c[i]@, #[trigger] c[j]@) by {
        lemma_chars_before_lexicographic(c[i]@, c[j]@);
    }
}

/// The codes of integer labels follow their numeric order: of two labels, the smaller
/// gets the smaller code.
pub proof fn law_int_codes_follow_values(c: Seq<i64>, y: Seq<i64>, codes: Seq<i64>, a: int, b: int)
    requires
        strictly_sorted(c),
        encodes(c, y, codes),
        0 <= a < y.len(),
        0 <= b < y.len(),
    ensures
        y[a] < y[b] <==> codes[a] < codes[b],
{
    law_codes_keep_order(c, y, codes, a, b);
    if codes[a] < codes[b] {
        assert(c[codes[a] as int] < c[codes[b] as int]);
    }
}

/// The codes of string labels follow lexicographic order: a label with a smaller code
/// comes lexicographically first.
pub proof fn law_str_codes_follow_lexicographic_order(c: Seq<String>, y: Seq<String>, codes: Seq<i64>, a: int, b: int)
    requires
        strictly_sorted(c),
        encodes(c, y, codes),
        0 <= a < y.len(),
        0 <= b < y.len(),
    ensures
        codes[a] < codes[b] ==> lexicographically_less(y[a]@, y[b]@),
{
    if codes[a] < codes[b] {
        lemma_chars_before_lexicographic(c[codes[a] as int]@, c[codes[b] as int]@);
    }
}

/// before another gets a smaller code, and equal labels get equal codes.
pub proof fn law_codes_keep_order<T: Ordered>(c: Seq<T>, y: Seq<T>, codes: Seq<i64>, a: int, b: int)
    requires
        strictly_sorted(c),
        encodes(c, y, codes),
        0 <= a < y.len(),
        0 <= b < y.len(),
    ensures
        T::before(y[a]@, y[b]@) ==> codes[a] < codes[b],
        y[a]@ == y[b]@ <==> codes[a] == codes[b],
{
    let ca = codes[a] as int;
    let cb = codes[b] as int;
    if T::before(y[a]@, y[b]@) {
        if ca == cb {
            T::lemma_irreflexive(y[a]@);
        } else if cb < ca {
            lemma_asymmetric_in(c, cb, ca);
        }
    }
    if y[a]@ == y[b]@ && ca != cb {
        lemma_strict_unique(c, ca, cb);
    }
}

/// Encoding decoded codes gives the codes back: with strictly increasing classes, if
/// `labels` decodes `codes` and `again` encodes `labels`, then `again` is `codes`.
pub proof fn law_codes_round_trip<T: Ordered>(c: Seq<T>, codes: Seq<i64>, labels: Seq<T>, again: Seq<i64>)
    requires
        strictly_sorted(c),
        decodes(c, codes, labels),
        encodes(c, labels, again),
    ensures
        again == codes,
{
    assert forall|i: int| 0 <= i < codes.len() implies #[trigger] again[i] == codes[i] by {
        assert(c[again[i] as int]@ == labels[i]@);
        assert(labels[i]@ == c[codes[i] as int]@);
        lemma_strict_unique(c, again[i] as int, codes[i] as int);
    }
    assert(again =~= codes);
}

proof fn lemma_asymmetric_in<T: Ordered>(c: Seq<T>, i: int, j: int)
    requires
        strictly_sorted(c),
        0 <= i < j < c.len(),
    ensures
        !T::before(c[j]@, c[i]@),
{
    crate::order::lemma_asymmetric::<T>(c[i]@, c[j]@);
}

/// `p` is a position of a largest entry of the block.
pub open spec fn is_largest(block: Seq<u8>, p: int) -> bool {
    &&& 0 <= p < block.len()
    &&& forall|m: int| 0 <= m < block.len() ==> #[trigger] block[m] <= block[p]
}

/// The block of column `j` in an encoded row.
pub open spec fn block_of(cats: Seq<ColumnCategories>, enc: Seq<u8>, j: int) -> Seq<u8> {
    enc.subrange(total_width(cats.take(j)), total_width(cats.take(j + 1)))
}

proof fn lemma_block_of_int(cats: Seq<ColumnCategories>, row: Seq<i64>, j: int)
    requires
        all_int(cats),
        row.len() == cats.len(),
        0 <= j < cats.len(),
    ensures
        block_of(cats, encode_int_row(cats, row), j) =~= indicator_int(cats[j]->Int_0@, row[j]),
    decreases cats.len(),
{
    let n = cats.len();
    let p = cats.drop_last();
    let pr = row.take(n - 1);
    assert(all_int(p)) by {
        assert forall|m: int| 0 <= m < p.len() implies #[trigger] p[m] is Int by {
            assert(p[m] == cats[m]);
        }
    }
    lemma_encode_int_len(p, pr);
    assert(cats.take(n - 1) =~= p);
    assert(cats.take(n as int) =~= cats);
    assert(cats[n - 1] is Int);
    let e = encode_int_row(cats, row);
    let ep = encode_int_row(p, pr);
    let lb = indicator_int(cats[n - 1]->Int_0@, row[n - 1]);
    assert(e == ep + lb);
    if j < n - 1 {
        lemma_block_of_int(p, pr, j);
        assert(p.take(j) =~= cats.take(j));
        assert(p.take(j + 1) =~= cats.take(j + 1));
        lemma_width_prefix(p, j + 1);
        lemma_width_prefix(p, j);
        let a = total_width(cats.take(j));
        let b = total_width(cats.take(j + 1));
        assert(a <= b) by {
            assert(cats.take(j + 1).drop_last() =~= cats.take(j));
            assert(cat_len(cats.take(j + 1).last()) >= 0);
        }
        assert(e.subrange(a, b) =~= ep.subrange(a, b));
        assert(pr[j] == row[j]);
        assert(p[j] == cats[j]);
    } else {
        assert(e.subrange(ep.len() as int, (ep.len() + lb.len()) as int) =~= lb);
    }
}

proof fn lemma_block_of_str(cats: Seq<ColumnCategories>, row: Seq<Seq<char>>, j: int)
    requires
        all_str(cats),
        row.len() == cats.len(),
        0 <= j < cats.len(),
    ensures
        block_of(cats, encode_str_row(cats, row), j) =~= indicator_str(cats[j]->Str_0@, row[j]),
    decreases cats.len(),
{
    let n = cats.len();
    let p = cats.drop_last();
    let pr = row.take(n - 1);
    assert(all_str(p)) by {
        assert forall|m: int| 0 <= m < p.len() implies #[trigger] p[m] is Str by {
            assert(p[m] == cats[m]);
        }
    }
    lemma_encode_str_len(p, pr);
    assert(cats.take(n - 1) =~= p);
    assert(cats.take(n as int) =~= cats);
    assert(cats[n - 1] is Str);
    let e = encode_str_row(cats, row);
    let ep = encode_str_row(p, pr);
    let lb = indicator_str(cats[n - 1]->Str_0@, row[n - 1]);
    assert(e == ep + lb);
    if j < n - 1 {
        lemma_block_of_str(p, pr, j);
        assert(p.take(j) =~= cats.take(j));
        assert(p.take(j + 1) =~= cats.take(j + 1));
        lemma_width_prefix(p, j + 1);
        lemma_width_prefix(p, j);
        let a = total_width(cats.take(j));
        let b = total_width(cats.take(j + 1));
        assert(a <= b) by {
            assert(cats.take(j + 1).drop_last() =~= cats.take(j));
            assert(cat_len(cats.take(j + 1).last()) >= 0);
        }
        assert(e.subrange(a, b) =~= ep.subrange(a, b));
        assert(pr[j] == row[j]);
        assert(p[j] == cats[j]);
    } else {
        assert(e.subrange(ep.len() as int, (ep.len() + lb.len()) as int) =~= lb);
    }
}

/// Decoding an encoded integer row gives the row back: when every value of the row is
/// a category of its column and the picks point at a largest entry of each block (as
/// the first largest entry does), decoding them gives the row.
pub proof fn law_one_hot_int_round_trip(cats: Seq<ColumnCategories>, row: Seq<i64>, picks: Seq<usize>)
    requires
        all_int(cats),
        row.len() == cats.len(),
        picks.len() == cats.len(),
        forall|j: int| 0 <= j < cats.len() ==> (#[trigger] cats[j])->Int_0@.contains(row[j]),
        forall|j: int| 0 <= j < cats.len() ==> is_largest(block_of(cats, encode_int_row(cats, row), j), #[trigger] picks[j] as int),
    ensures
        decode_int_row(cats, picks) == row,
{
    assert forall|j: int| 0 <= j < cats.len() implies #[trigger] decode_int_row(cats, picks)[j] == row[j] by {
        let c = cats[j]->Int_0@;
        lemma_block_of_int(cats, row, j);
        let blk = indicator_int(c, row[j]);
        assert(c.contains(row[j]));
        let k = choose|k: int| 0 <= k < c.len() && c[k] == row[j];
        assert(blk[k] == 1u8);
        assert(is_largest(block_of(cats, encode_int_row(cats, row), j), picks[j] as int));
        assert(blk[k] <= blk[picks[j] as int]);
    }
    assert(decode_int_row(cats, picks) =~= row);
}

/// Decoding an encoded string row gives the row back, as for integer rows.
pub proof fn law_one_hot_str_round_trip(cats: Seq<ColumnCategories>, row: Seq<Seq<char>>, picks: Seq<usize>)
    requires
        all_str(cats),
        row.len() == cats.len(),
        picks.len() == cats.len(),
        forall|j: int| 0 <= j < cats.len() ==> holds_view((#[trigger] cats[j])->Str_0@, row[j]),
        forall|j: int| 0 <= j < cats.len() ==> is_largest(block_of(cats, encode_str_row(cats, row), j), #[trigger] picks[j] as int),
    ensures
        decode_str_row(cats, picks) == row,
{
    assert forall|j: int| 0 <= j < cats.len() implies #[trigger] decode_str_row(cats, picks)[j] == row[j] by {
        let c = cats[j]->Str_0@;
        lemma_block_of_str(cats, row, j);
        let blk = indicator_str(c, row[j]);
        assert(holds_view(c, row[j]));
        let k = choose|k: int| 0 <= k < c.len() && #[trigger] c[k]@ == row[j];
        assert(blk[k] == 1u8);
        assert(is_largest(block_of(cats, encode_str_row(cats, row), j), picks[j] as int));
        assert(blk[k] <= blk[picks[j] as int]);
    }
    assert(decode_str_row(cats, picks) =~= row);
}

} // verus!
