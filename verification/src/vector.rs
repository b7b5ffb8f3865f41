//! Vectors of exact fractions.
//!
//! A [`Vector`] is an ordered, fixed-length sequence of [`Fraction`]s.  Its
//! model is a `Seq<Rat>`; every operation is specified against spec-level
//! functions on that model.  Arithmetic preconditions only demand that each
//! exact intermediate result fits the executable range.

use vstd::prelude::*;

use crate::detail;
use crate::frac::{
    lemma_frac_eq_view, rat_add, rat_div, rat_in_range, rat_mul, rat_of_int, rat_one, rat_sub,
    rat_zero, Fraction, Rat,
};

verus! {

/// Number of leading zero entries: the index of the first nonzero entry,
/// or the length if there is none.
pub open spec fn spec_lz(s: Seq<Rat>) -> int
    decreases s.len(),
{
    if s.len() == 0 {
        0
    } else if s[0].n != 0 {
        0
    } else {
        1 + spec_lz(s.subrange(1, s.len() as int))
    }
}

/// Whether every entry is zero.
pub open spec fn zero_seq(s: Seq<Rat>) -> bool {
    forall|i: int| 0 <= i < s.len() ==> s[i].n == 0
}

/// The characteristic facts of `spec_lz`: it is the index of the first
/// nonzero entry, or the length when all entries are zero.
pub proof fn lemma_lz(s: Seq<Rat>)
    ensures
        0 <= spec_lz(s) <= s.len(),
        forall|j: int| 0 <= j < spec_lz(s) ==> s[j].n == 0,
        spec_lz(s) < s.len() ==> s[spec_lz(s)].n != 0,
        spec_lz(s) == s.len() <==> zero_seq(s),
    decreases s.len(),
{
    if s.len() == 0 {
    } else if s[0].n != 0 {
    } else {
        lemma_lz(s.subrange(1, s.len() as int));
        assert forall|j: int| 0 <= j < spec_lz(s) implies s[j].n == 0 by {
            if j > 0 {
                assert(s.subrange(1, s.len() as int)[j - 1] == s[j]);
            }
        }
        if spec_lz(s) < s.len() {
            assert(s.subrange(1, s.len() as int)[spec_lz(s) - 1] == s[spec_lz(s)]);
        }
    }
}

/// If the first `k` entries are zero and entry `k` (when present) is not,
/// then `k` is the leading-zero count.
pub proof fn lemma_lz_is(s: Seq<Rat>, k: int)
    requires
        0 <= k <= s.len(),
        forall|j: int| 0 <= j < k ==> s[j].n == 0,
        k < s.len() ==> s[k].n != 0,
    ensures
        spec_lz(s) == k,
{
    lemma_lz(s);
    if spec_lz(s) < k {
        assert(s[spec_lz(s)].n == 0);
    }
    if k < spec_lz(s) {
        assert(s[k].n == 0);
    }
}

/// Elementwise sum.
pub open spec fn spec_vadd(a: Seq<Rat>, b: Seq<Rat>) -> Seq<Rat> {
    Seq::new(a.len(), |i: int| rat_add(a[i], b[i]))
}

/// Elementwise difference.
pub open spec fn spec_vsub(a: Seq<Rat>, b: Seq<Rat>) -> Seq<Rat> {
    Seq::new(a.len(), |i: int| rat_sub(a[i], b[i]))
}

/// Elementwise scaling.
pub open spec fn spec_vscale(a: Seq<Rat>, k: Rat) -> Seq<Rat> {
    Seq::new(a.len(), |i: int| rat_mul(a[i], k))
}

/// Row update of elimination: `a + b * k`, elementwise.
pub open spec fn spec_saxpy(a: Seq<Rat>, b: Seq<Rat>, k: Rat) -> Seq<Rat> {
    Seq::new(a.len(), |i: int| rat_add(a[i], rat_mul(b[i], k)))
}

/// Dot product, accumulated left to right from zero.
pub open spec fn spec_dot(a: Seq<Rat>, b: Seq<Rat>) -> Rat
    decreases a.len(),
{
    if a.len() == 0 {
        rat_zero()
    } else {
        rat_add(spec_dot(a.drop_last(), b.drop_last()), rat_mul(a.last(), b.last()))
    }
}

/// Every exact intermediate of the elementwise sum fits the range.
pub open spec fn vadd_fits(a: Seq<Rat>, b: Seq<Rat>) -> bool {
    forall|i: int| 0 <= i < a.len() ==> rat_in_range(#[trigger] rat_add(a[i], b[i]))
}

/// Every exact intermediate of the elementwise difference fits the range.
pub open spec fn vsub_fits(a: Seq<Rat>, b: Seq<Rat>) -> bool {
    forall|i: int| 0 <= i < a.len() ==> rat_in_range(#[trigger] rat_sub(a[i], b[i]))
}

/// Every exact intermediate of the scaling fits the range.
pub open spec fn vscale_fits(a: Seq<Rat>, k: Rat) -> bool {
    forall|i: int| 0 <= i < a.len() ==> rat_in_range(#[trigger] rat_mul(a[i], k))
}

/// Every exact intermediate of the row update fits the range.
pub open spec fn saxpy_fits(a: Seq<Rat>, b: Seq<Rat>, k: Rat) -> bool {
    forall|i: int|
        0 <= i < a.len() ==> rat_in_range(#[trigger] rat_mul(b[i], k)) && rat_in_range(
            rat_add(a[i], rat_mul(b[i], k)),
        )
}

/// Every exact intermediate of the dot product fits the range.
pub open spec fn dot_fits(a: Seq<Rat>, b: Seq<Rat>) -> bool {
    forall|i: int|
        0 <= i < a.len() ==> rat_in_range(#[trigger] rat_mul(a[i], b[i])) && rat_in_range(
            spec_dot(a.take(i + 1), b.take(i + 1)),
        )
}

/// Parallelism of the exact models: a zero vector is parallel to
/// everything; otherwise `b` must be `a` scaled by `b[i] / a[i]`, where `i`
/// is `a`'s first nonzero index.
pub open spec fn spec_is_parallel(a: Seq<Rat>, b: Seq<Rat>) -> bool {
    if zero_seq(a) || zero_seq(b) {
        true
    } else {
        let s = rat_div(b[spec_lz(a)], a[spec_lz(a)]);
        spec_vscale(a, s) =~= b
    }
}

/// Every exact intermediate of the parallelism test fits the range.
pub open spec fn parallel_fits(a: Seq<Rat>, b: Seq<Rat>) -> bool {
    !zero_seq(a) && !zero_seq(b) ==> {
        let s = rat_div(b[spec_lz(a)], a[spec_lz(a)]);
        rat_in_range(s) && vscale_fits(a, s)
    }
}

/// Cross product of the models: for length 2 the single pseudo-scalar
/// `a0*b1 - a1*b0`; for length 3 the standard cross product.
pub open spec fn spec_cross(a: Seq<Rat>, b: Seq<Rat>) -> Seq<Rat> {
    if a.len() == 2 {
        seq![rat_sub(rat_mul(a[0], b[1]), rat_mul(a[1], b[0]))]
    } else {
        seq![
            rat_sub(rat_mul(a[1], b[2]), rat_mul(a[2], b[1])),
            rat_sub(rat_mul(a[2], b[0]), rat_mul(a[0], b[2])),
            rat_sub(rat_mul(a[0], b[1]), rat_mul(a[1], b[0])),
        ]
    }
}

/// Every exact intermediate of the cross product fits the range.
pub open spec fn cross_fits(a: Seq<Rat>, b: Seq<Rat>) -> bool {
    &&& forall|i: int, j: int|
        0 <= i < a.len() && 0 <= j < a.len() ==> rat_in_range(#[trigger] rat_mul(a[i], b[j]))
    &&& forall|k: int|
        0 <= k < spec_cross(a, b).len() ==> rat_in_range(#[trigger] spec_cross(a, b)[k])
}

/// An ordered, fixed-length sequence of exact fractions.
#[derive(Debug, Hash)]
pub struct Vector {
    pub(crate) elements: Vec<Fraction>,
}

impl Default for Vector {
    /// The default vector is empty.
    fn default() -> (r: Self)
        ensures
            r@ == Seq::<Rat>::empty(),
    {
        Vector::new()
    }
}

impl View for Vector {
    type V = Seq<Rat>;

    closed spec fn view(&self) -> Seq<Rat> {
        self.elements@.map(|_i: int, f: Fraction| f@)
    }
}

impl Clone for Vector {
    /// Copies preserve the model.
    fn clone(&self) -> (r: Self)
        ensures
            r@ == self@,
    {
        let mut out: Vec<Fraction> = Vec::new();
        let mut i: usize = 0;
        while i < self.elements.len()
            invariant
                i <= self.elements.len(),
                out@.len() == i,
                forall|t: int| 0 <= t < i ==> out@[t] == self.elements@[t],
            decreases self.elements.len() - i,
        {
            out.push(self.elements[i]);
            i += 1;
        }
        let r = Vector { elements: out };
        proof {
            assert(r@ =~= self@);
        }
        r
    }
}

impl PartialEq for Vector {
    /// Structural equality coincides with equality of the models.
    fn eq(&self, other: &Vector) -> (r: bool) {
        if self.elements.len() != other.elements.len() {
            proof {
                assert(self@.len() != other@.len());
            }
            return false;
        }
        let mut i: usize = 0;
        while i < self.elements.len()
            invariant
                i <= self.elements.len(),
                self.elements.len() == other.elements.len(),
                forall|t: int| 0 <= t < i ==> self@[t] == other@[t],
            decreases self.elements.len() - i,
        {
            if self.elements[i] != other.elements[i] {
                proof {
                    lemma_frac_eq_view(self.elements@[i as int], other.elements@[i as int]);
                    assert(self@[i as int] != other@[i as int]);
                }
                return false;
            }
            proof {
                lemma_frac_eq_view(self.elements@[i as int], other.elements@[i as int]);
            }
            i += 1;
        }
        proof {
            assert(self@ =~= other@);
        }
        true
    }
}

impl Eq for Vector {

}

impl vstd::std_specs::cmp::PartialEqSpecImpl for Vector {
    open spec fn obeys_eq_spec() -> bool {
        true
    }

    open spec fn eq_spec(&self, other: &Vector) -> bool {
        self@ == other@
    }
}

impl Vector {
    /// The empty vector.
    pub fn new() -> (r: Self)
        ensures
            r@ == Seq::<Rat>::empty(),
    {
        let r = Vector { elements: Vec::new() };
        proof {
            assert(r@ =~= Seq::<Rat>::empty());
        }
        r
    }

    /// An n-dimensional vector with all elements identical.
    pub fn create(n: usize, value: Fraction) -> (r: Self)
        ensures
            r@.len() == n,
            forall|i: int| 0 <= i < n ==> r@[i] == value@,
    {
        let mut out: Vec<Fraction> = Vec::new();
        let mut i: usize = 0;
        while i < n
            invariant
                i <= n,
                out@.len() == i,
                forall|t: int| 0 <= t < i ==> out@[t]@ == value@,
            decreases n - i,
        {
            out.push(value);
            i += 1;
        }
        Vector { elements: out }
    }

    /// An n-dimensional vector of zeros.
    pub fn zeros(n: usize) -> (r: Self)
        ensures
            r@.len() == n,
            forall|i: int| 0 <= i < n ==> r@[i] == rat_zero(),
    {
        Vector::create(n, Fraction::zero())
    }

    /// An n-dimensional vector of ones.
    pub fn ones(n: usize) -> (r: Self)
        ensures
            r@.len() == n,
            forall|i: int| 0 <= i < n ==> r@[i] == rat_one(),
    {
        Vector::create(n, Fraction::one())
    }

    /// A vector made of the given fractions, in order.
    pub fn from_fracs(value: Vec<Fraction>) -> (r: Self)
        ensures
            r@.len() == value@.len(),
            forall|i: int| 0 <= i < value@.len() ==> r@[i] == value@[i]@,
    {
        Vector { elements: value }
    }

    /// A vector made of the given whole numbers, in order.
    pub fn from_ints(value: Vec<i64>) -> (r: Self)
        requires
            forall|i: int| 0 <= i < value@.len() ==> value@[i] != i64::MIN,
        ensures
            r@.len() == value@.len(),
            forall|i: int| 0 <= i < value@.len() ==> r@[i] == rat_of_int(value@[i] as int),
    {
        let mut out: Vec<Fraction> = Vec::new();
        let mut i: usize = 0;
        while i < value.len()
            invariant
                i <= value@.len(),
                out@.len() == i,
                forall|t: int| 0 <= t < value@.len() ==> value@[t] != i64::MIN,
                forall|t: int| 0 <= t < i ==> out@[t]@ == rat_of_int(value@[t] as int),
            decreases value@.len() - i,
        {
            out.push(Fraction::from_int(value[i]));
            i += 1;
        }
        Vector { elements: out }
    }

    /// The number of elements.
    pub fn size(&self) -> (r: usize)
        ensures
            r == self@.len(),
    {
        self.elements.len()
    }

    /// Whether the vector has no elements.
    pub fn is_empty(&self) -> (r: bool)
        ensures
            r <==> self@.len() == 0,
    {
        self.elements.is_empty()
    }

    /// The element at `index`.
    pub fn get(&self, index: usize) -> (r: Fraction)
        requires
            index < self@.len(),
        ensures
            r@ == self@[index as int],
    {
        self.elements[index]
    }

    /// Replace the element at `index`.
    pub fn set(&mut self, index: usize, value: Fraction)
        requires
            index < old(self)@.len(),
        ensures
            final(self)@ == old(self)@.update(index as int, value@),
    {
        self.elements[index] = value;
        proof {
            assert(self@ =~= old(self)@.update(index as int, value@));
        }
    }

    /// Append an element.
    pub fn push(&mut self, value: Fraction)
        ensures
            final(self)@ == old(self)@.push(value@),
    {
        self.elements.push(value);
        proof {
            assert(self@ =~= old(self)@.push(value@));
        }
    }

    /// The number of leading zeros; the vector must not be empty.
    pub fn count_leading_zeros(&self) -> (r: usize)
        requires
            self@.len() > 0,
        ensures
            r == spec_lz(self@),
    {
        detail::check_empty(self.size());
        let n: usize = self.elements.len();
        let mut lz: usize = 0;
        while lz < n && self.elements[lz].is_zero()
            invariant
                0 <= lz <= n,
                n == self@.len(),
                forall|j: int| 0 <= j < lz ==> self@[j].n == 0,
            decreases n - lz,
        {
            lz += 1;
        }
        proof {
            lemma_lz_is(self@, lz as int);
        }
        lz
    }

    /// Whether every element is zero; the vector must not be empty.
    pub fn is_zero(&self) -> (r: bool)
        requires
            self@.len() > 0,
        ensures
            r <==> zero_seq(self@),
    {
        let r = self.count_leading_zeros() == self.size();
        proof {
            lemma_lz(self@);
        }
        r
    }

    /// Elementwise sum of two vectors of equal size.
    pub fn add(&self, other: &Vector) -> (r: Vector)
        requires
            self@.len() == other@.len(),
            vadd_fits(self@, other@),
        ensures
            r@ == spec_vadd(self@, other@),
    {
        detail::check_size(self.size(), other.size());
        let mut out: Vec<Fraction> = Vec::new();
        let mut i: usize = 0;
        while i < self.elements.len()
            invariant
                i <= self@.len(),
                self@.len() == other@.len(),
                vadd_fits(self@, other@),
                out@.len() == i,
                forall|t: int| 0 <= t < i ==> out@[t]@ == rat_add(self@[t], other@[t]),
            decreases self@.len() - i,
        {
            proof {
                assert(self@[i as int] == self.elements@[i as int]@);
                assert(other@[i as int] == other.elements@[i as int]@);
                assert(rat_in_range(rat_add(self@[i as int], other@[i as int])));
            }
            out.push(self.elements[i].add(&other.elements[i]));
            i += 1;
        }
        let r = Vector { elements: out };
        proof {
            assert(r@ =~= spec_vadd(self@, other@));
        }
        r
    }

    /// Elementwise difference of two vectors of equal size.
    pub fn sub(&self, other: &Vector) -> (r: Vector)
        requires
            self@.len() == other@.len(),
            vsub_fits(self@, other@),
        ensures
            r@ == spec_vsub(self@, other@),
    {
        detail::check_size(self.size(), other.size());
        let mut out: Vec<Fraction> = Vec::new();
        let mut i: usize = 0;
        while i < self.elements.len()
            invariant
                i <= self@.len(),
                self@.len() == other@.len(),
                vsub_fits(self@, other@),
                out@.len() == i,
                forall|t: int| 0 <= t < i ==> out@[t]@ == rat_sub(self@[t], other@[t]),
            decreases self@.len() - i,
        {
            proof {
                assert(self@[i as int] == self.elements@[i as int]@);
                assert(other@[i as int] == other.elements@[i as int]@);
                assert(rat_in_range(rat_sub(self@[i as int], other@[i as int])));
            }
            out.push(self.elements[i].sub(&other.elements[i]));
            i += 1;
        }
        let r = Vector { elements: out };
        proof {
            assert(r@ =~= spec_vsub(self@, other@));
        }
        r
    }

    /// Every element scaled by `k`.
    pub fn scale(&self, k: &Fraction) -> (r: Vector)
        requires
            vscale_fits(self@, k@),
        ensures
            r@ == spec_vscale(self@, k@),
    {
        let mut out: Vec<Fraction> = Vec::new();
        let mut i: usize = 0;
        while i < self.elements.len()
            invariant
                i <= self@.len(),
                vscale_fits(self@, k@),
                out@.len() == i,
                forall|t: int| 0 <= t < i ==> out@[t]@ == rat_mul(self@[t], k@),
            decreases self@.len() - i,
        {
            proof {
                assert(self@[i as int] == self.elements@[i as int]@);
                assert(rat_in_range(rat_mul(self@[i as int], k@)));
            }
            out.push(self.elements[i].mul(k));
            i += 1;
        }
        let r = Vector { elements: out };
        proof {
            assert(r@ =~= spec_vscale(self@, k@));
        }
        r
    }

    /// The elimination row update `self + other * k`, elementwise.
    pub fn saxpy(&self, other: &Vector, k: &Fraction) -> (r: Vector)
        requires
            self@.len() == other@.len(),
            saxpy_fits(self@, other@, k@),
        ensures
            r@ == spec_saxpy(self@, other@, k@),
    {
        detail::check_size(self.size(), other.size());
        let mut out: Vec<Fraction> = Vec::new();
        let mut i: usize = 0;
        while i < self.elements.len()
            invariant
                i <= self@.len(),
                self@.len() == other@.len(),
                saxpy_fits(self@, other@, k@),
                out@.len() == i,
                forall|t: int|
                    0 <= t < i ==> out@[t]@ == rat_add(self@[t], rat_mul(other@[t], k@)),
            decreases self@.len() - i,
        {
            proof {
                assert(self@[i as int] == self.elements@[i as int]@);
                assert(other@[i as int] == other.elements@[i as int]@);
                assert(rat_in_range(rat_mul(other@[i as int], k@)));
                assert(rat_in_range(rat_add(self@[i as int], rat_mul(other@[i as int], k@))));
            }
            out.push(self.elements[i].add(&other.elements[i].mul(k)));
            i += 1;
        }
        let r = Vector { elements: out };
        proof {
            assert(r@ =~= spec_saxpy(self@, other@, k@));
        }
        r
    }

    /// Append another vector's elements, consuming it.
    pub fn append(&mut self, other: Vector)
        ensures
            final(self)@ == old(self)@ + other@,
    {
        let ghost osnap = other@;
        let mut o = other;
        self.elements.append(&mut o.elements);
        proof {
            assert(self@ =~= old(self)@ + osnap);
        }
    }

    /// Dot product; the operands must be nonempty and of equal size.
    pub fn dot(&self, other: &Vector) -> (r: Fraction)
        requires
            self@.len() > 0,
            self@.len() == other@.len(),
            dot_fits(self@, other@),
        ensures
            r@ == spec_dot(self@, other@),
    {
        detail::check_empty(self.size());
        detail::check_size(self.size(), other.size());
        let mut acc = Fraction::zero();
        let mut i: usize = 0;
        proof {
            assert(self@.take(0) =~= Seq::<Rat>::empty());
        }
        while i < self.elements.len()
            invariant
                i <= self@.len(),
                self@.len() == other@.len(),
                dot_fits(self@, other@),
                acc@ == spec_dot(self@.take(i as int), other@.take(i as int)),
            decreases self@.len() - i,
        {
            proof {
                assert(self@[i as int] == self.elements@[i as int]@);
                assert(other@[i as int] == other.elements@[i as int]@);
                assert(rat_in_range(rat_mul(self@[i as int], other@[i as int])));
            }
            let p = self.elements[i].mul(&other.elements[i]);
            proof {
                let j = i as int;
                assert(self@.take(j + 1).drop_last() =~= self@.take(j));
                assert(other@.take(j + 1).drop_last() =~= other@.take(j));
                assert(self@.take(j + 1).last() == self@[j]);
                assert(other@.take(j + 1).last() == other@[j]);
                assert(rat_in_range(spec_dot(self@.take(j + 1), other@.take(j + 1))));
                assert(spec_dot(self@.take(j + 1), other@.take(j + 1)) == rat_add(
                    acc@,
                    rat_mul(self@[j], other@[j]),
                ));
            }
            acc = acc.add(&p);
            i += 1;
        }
        proof {
            assert(self@.take(self@.len() as int) =~= self@);
            assert(other@.take(other@.len() as int) =~= other@);
        }
        acc
    }

    /// Whether two vectors are orthogonal: their dot product is zero.
    pub fn is_orthogonal(&self, that: &Vector) -> (r: bool)
        requires
            self@.len() > 0,
            self@.len() == that@.len(),
            dot_fits(self@, that@),
        ensures
            r <==> spec_dot(self@, that@).n == 0,
    {
        detail::check_empty(self.size());
        detail::check_size(self.size(), that.size());
        self.dot(that).is_zero()
    }

    /// Whether two vectors are parallel.  A zero vector is parallel to
    /// every vector of matching size.
    pub fn is_parallel(&self, that: &Vector) -> (r: bool)
        requires
            self@.len() > 0,
            self@.len() == that@.len(),
            parallel_fits(self@, that@),
        ensures
            r <==> spec_is_parallel(self@, that@),
    {
        detail::check_empty(self.size());
        detail::check_size(self.size(), that.size());
        if self.is_zero() || that.is_zero() {
            return true;
        }
        let i = self.count_leading_zeros();
        proof {
            lemma_lz(self@);
        }
        let scale = that.get(i).div(&self.get(i));
        let scaled = self.scale(&scale);
        let r = scaled == *that;
        proof {
            if spec_is_parallel(self@, that@) {
                assert(spec_vscale(self@, scale@) =~= that@);
                assert(scaled@ == that@);
            }
            if scaled@ == that@ {
                assert(spec_vscale(self@, scale@) =~= that@);
            }
        }
        r
    }

    /// Cross product, defined for two vectors of size 2 (single
    /// pseudo-scalar) or of size 3 (standard cross product).
    pub fn cross(a: &Vector, b: &Vector) -> (r: Vector)
        requires
            a@.len() == b@.len(),
            a@.len() == 2 || a@.len() == 3,
            cross_fits(a@, b@),
        ensures
            r@ == spec_cross(a@, b@),
    {
        let mut out: Vec<Fraction> = Vec::new();
        proof {
            assert forall|i: int, j: int| 0 <= i < a@.len() && 0 <= j < a@.len() implies
                rat_in_range(rat_mul(a@[i], b@[j])) by {}
            assert forall|k: int| 0 <= k < spec_cross(a@, b@).len() implies
                rat_in_range(spec_cross(a@, b@)[k]) by {}
            if a@.len() == 2 {
                assert(spec_cross(a@, b@)[0] == rat_sub(
                    rat_mul(a@[0], b@[1]),
                    rat_mul(a@[1], b@[0]),
                ));
            } else {
                assert(spec_cross(a@, b@)[0] == rat_sub(
                    rat_mul(a@[1], b@[2]),
                    rat_mul(a@[2], b@[1]),
                ));
                assert(spec_cross(a@, b@)[1] == rat_sub(
                    rat_mul(a@[2], b@[0]),
                    rat_mul(a@[0], b@[2]),
                ));
                assert(spec_cross(a@, b@)[2] == rat_sub(
                    rat_mul(a@[0], b@[1]),
                    rat_mul(a@[1], b@[0]),
                ));
            }
        }
        if a.size() == 2 {
            out.push(a.get(0).mul(&b.get(1)).sub(&a.get(1).mul(&b.get(0))));
        } else {
            out.push(a.get(1).mul(&b.get(2)).sub(&a.get(2).mul(&b.get(1))));
            out.push(a.get(2).mul(&b.get(0)).sub(&a.get(0).mul(&b.get(2))));
            out.push(a.get(0).mul(&b.get(1)).sub(&a.get(1).mul(&b.get(0))));
        }
        let r = Vector { elements: out };
        proof {
            assert(r@ =~= spec_cross(a@, b@));
        }
        r
    }
}

} // verus!
