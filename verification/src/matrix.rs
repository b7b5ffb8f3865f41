//! Matrices of exact fractions.
//!
//! A [`Matrix`] is an ordered sequence of equal-length [`Vector`] rows; its
//! model is a `Seq<Seq<Rat>>`.  Rectangularity is the well-formedness
//! predicate [`Matrix::wf`]; a matrix with no rows has zero columns by
//! convention.  This module holds construction, shape predicates,
//! transpose, the arithmetic operators, splitting and expanding, and the
//! elementary row operations; the elimination-based algorithms build on
//! these in their own module.

use vstd::prelude::*;

use crate::detail;
use crate::frac::{
    rat_add, rat_in_range, rat_mul, rat_of_int, rat_one, rat_zero, Fraction, Rat,
};
use crate::vector::{
    dot_fits, saxpy_fits, spec_dot, spec_saxpy, spec_vadd, spec_vscale, spec_vsub, vadd_fits,
    vscale_fits, vsub_fits, Vector,
};

verus! {

/// Column count of a model: the length of the first row, zero if there are
/// no rows.
pub open spec fn spec_cols(m: Seq<Seq<Rat>>) -> int {
    if m.len() == 0 {
        0
    } else {
        m[0].len() as int
    }
}

/// Rectangularity: every row has the common column count.
pub open spec fn mat_wf(m: Seq<Seq<Rat>>) -> bool {
    forall|r: int| 0 <= r < m.len() ==> (#[trigger] m[r]).len() == spec_cols(m)
}

/// Every entry of the model is a canonical rational.  The view of any
/// matrix value satisfies this; spec-level laws take it as a hypothesis.
pub open spec fn mat_canonical(m: Seq<Seq<Rat>>) -> bool {
    forall|r: int, c: int|
        0 <= r < m.len() && 0 <= c < m[r].len() ==> crate::frac::rat_canonical(#[trigger] m[r][c])
}

/// Squareness of a model.
pub open spec fn spec_square(m: Seq<Seq<Rat>>) -> bool {
    m.len() == spec_cols(m)
}

/// The n-order identity model.
pub open spec fn spec_identity(n: int) -> Seq<Seq<Rat>> {
    Seq::new(
        n as nat,
        |i: int|
            Seq::new(
                n as nat,
                |j: int| if i == j { rat_one() } else { rat_zero() },
            ),
    )
}

/// The transpose of a rectangular model.
pub open spec fn spec_transpose(m: Seq<Seq<Rat>>) -> Seq<Seq<Rat>> {
    Seq::new(spec_cols(m) as nat, |j: int| Seq::new(m.len(), |i: int| m[i][j]))
}

/// Column `c` of a model, as a sequence.
pub open spec fn spec_col(m: Seq<Seq<Rat>>, c: int) -> Seq<Rat> {
    Seq::new(m.len(), |i: int| m[i][c])
}

/// Elementwise sum of two models.
pub open spec fn spec_madd(a: Seq<Seq<Rat>>, b: Seq<Seq<Rat>>) -> Seq<Seq<Rat>> {
    Seq::new(a.len(), |r: int| spec_vadd(a[r], b[r]))
}

/// Elementwise difference of two models.
pub open spec fn spec_msub(a: Seq<Seq<Rat>>, b: Seq<Seq<Rat>>) -> Seq<Seq<Rat>> {
    Seq::new(a.len(), |r: int| spec_vsub(a[r], b[r]))
}

/// Every entry scaled by `k`.
pub open spec fn spec_mscale(a: Seq<Seq<Rat>>, k: Rat) -> Seq<Seq<Rat>> {
    Seq::new(a.len(), |r: int| spec_vscale(a[r], k))
}

/// Matrix product: entry `(r, c)` is the dot product of row `r` of `a`
/// with column `c` of `b`.
pub open spec fn spec_mmul(a: Seq<Seq<Rat>>, b: Seq<Seq<Rat>>) -> Seq<Seq<Rat>> {
    Seq::new(a.len(), |r: int| Seq::new(spec_cols(b) as nat, |c: int| spec_dot(a[r], spec_col(b, c))))
}

/// Every intermediate of the elementwise sum fits the range.
pub open spec fn madd_fits(a: Seq<Seq<Rat>>, b: Seq<Seq<Rat>>) -> bool {
    forall|r: int| 0 <= r < a.len() ==> vadd_fits(#[trigger] a[r], b[r])
}

/// Every intermediate of the elementwise difference fits the range.
pub open spec fn msub_fits(a: Seq<Seq<Rat>>, b: Seq<Seq<Rat>>) -> bool {
    forall|r: int| 0 <= r < a.len() ==> vsub_fits(#[trigger] a[r], b[r])
}

/// Every intermediate of the scaling fits the range.
pub open spec fn mscale_fits(a: Seq<Seq<Rat>>, k: Rat) -> bool {
    forall|r: int| 0 <= r < a.len() ==> vscale_fits(#[trigger] a[r], k)
}

/// Every intermediate of the matrix product fits the range.
pub open spec fn mmul_fits(a: Seq<Seq<Rat>>, b: Seq<Seq<Rat>>) -> bool {
    forall|r: int, c: int|
        0 <= r < a.len() && 0 <= c < spec_cols(b) ==> dot_fits(#[trigger] a[r], #[trigger] spec_col(b, c))
}

/// Partial sum of the first `k` diagonal entries.
pub open spec fn spec_diag_sum(m: Seq<Seq<Rat>>, k: int) -> Rat
    decreases k,
{
    if k <= 0 {
        rat_zero()
    } else {
        rat_add(spec_diag_sum(m, k - 1), m[k - 1][k - 1])
    }
}

/// The trace of a square model: the sum of its diagonal.
pub open spec fn spec_trace(m: Seq<Seq<Rat>>) -> Rat {
    spec_diag_sum(m, m.len() as int)
}

/// Every partial sum of the trace fits the range.
pub open spec fn trace_fits(m: Seq<Seq<Rat>>) -> bool {
    forall|k: int| 0 <= k < m.len() ==> rat_in_range(#[trigger] spec_diag_sum(m, k + 1))
}

/// Symmetry of a model: square, with entry `(i, j)` equal to `(j, i)`.
pub open spec fn spec_symmetric(m: Seq<Seq<Rat>>) -> bool {
    spec_square(m) && forall|i: int, j: int|
        0 <= i < m.len() && 0 <= j < m.len() ==> #[trigger] m[i][j] == m[j][i]
}

/// Upper-triangularity: square, zero strictly below the diagonal.
pub open spec fn spec_upper(m: Seq<Seq<Rat>>) -> bool {
    spec_square(m) && forall|i: int, j: int|
        0 <= j < i < m.len() ==> (#[trigger] m[i][j]).n == 0
}

/// Lower-triangularity: square, zero strictly above the diagonal.
pub open spec fn spec_lower(m: Seq<Seq<Rat>>) -> bool {
    spec_square(m) && forall|i: int, j: int|
        0 <= i < j < m.len() ==> (#[trigger] m[i][j]).n == 0
}

/// A matrix of exact fractions: a sequence of equal-length rows.
#[derive(Debug, Hash)]
pub struct Matrix {
    pub(crate) rows: Vec<Vector>,
}

impl Default for Matrix {
    /// The default matrix is empty.
    fn default() -> (r: Self)
        ensures
            r@ == Seq::<Seq<Rat>>::empty(),
    {
        Matrix::new()
    }
}

impl View for Matrix {
    type V = Seq<Seq<Rat>>;

    closed spec fn view(&self) -> Seq<Seq<Rat>> {
        self.rows@.map(|_i: int, v: Vector| v@)
    }
}

impl Clone for Matrix {
    /// Copies preserve the model.
    fn clone(&self) -> (r: Self)
        ensures
            r@ == self@,
    {
        let mut out: Vec<Vector> = Vec::new();
        let mut i: usize = 0;
        while i < self.rows.len()
            invariant
                i <= self.rows.len(),
                out@.len() == i,
                forall|t: int| 0 <= t < i ==> out@[t]@ == self.rows@[t]@,
            decreases self.rows.len() - i,
        {
            out.push(self.rows[i].clone());
            i += 1;
        }
        let r = Matrix { rows: out };
        proof {
            assert(r@ =~= self@);
        }
        r
    }
}

impl PartialEq for Matrix {
    /// Structural equality coincides with equality of the models.
    fn eq(&self, other: &Matrix) -> (r: bool) {
        if self.rows.len() != other.rows.len() {
            proof {
                assert(self@.len() != other@.len());
            }
            return false;
        }
        let mut i: usize = 0;
        while i < self.rows.len()
            invariant
                i <= self.rows.len(),
                self.rows.len() == other.rows.len(),
                forall|t: int| 0 <= t < i ==> self@[t] == other@[t],
            decreases self.rows.len() - i,
        {
            if !(self.rows[i] == other.rows[i]) {
                proof {
                    assert(self@[i as int] != other@[i as int]);
                }
                return false;
            }
            proof {
                assert(self@[i as int] == other@[i as int]);
            }
            i += 1;
        }
        proof {
            assert(self@ =~= other@);
        }
        true
    }
}

impl Eq for Matrix {

}

impl vstd::std_specs::cmp::PartialEqSpecImpl for Matrix {
    open spec fn obeys_eq_spec() -> bool {
        true
    }

    open spec fn eq_spec(&self, other: &Matrix) -> bool {
        self@ == other@
    }
}

impl Matrix {
    /// Rectangularity of this matrix's model.
    pub open spec fn wf(&self) -> bool {
        mat_wf(self@)
    }

    /// The empty matrix.
    pub fn new() -> (r: Self)
        ensures
            r@ == Seq::<Seq<Rat>>::empty(),
            r.wf(),
    {
        let r = Matrix { rows: Vec::new() };
        proof {
            assert(r@ =~= Seq::<Seq<Rat>>::empty());
        }
        r
    }

    /// A `row x col` matrix with all entries identical.
    pub fn create(row: usize, col: usize, value: Fraction) -> (r: Self)
        ensures
            r@.len() == row,
            row > 0 ==> spec_cols(r@) == col,
            forall|i: int, j: int| 0 <= i < row && 0 <= j < col ==> #[trigger] r@[i][j] == value@,
            r.wf(),
    {
        let mut rows: Vec<Vector> = Vec::new();
        let mut i: usize = 0;
        while i < row
            invariant
                i <= row,
                rows@.len() == i,
                forall|t: int| 0 <= t < i ==> (#[trigger] rows@[t]@).len() == col,
                forall|t: int, j: int|
                    0 <= t < i && 0 <= j < col ==> #[trigger] rows@[t]@[j] == value@,
            decreases row - i,
        {
            rows.push(Vector::create(col, value));
            i += 1;
        }
        let r = Matrix { rows };
        proof {
            assert(forall|t: int| 0 <= t < row ==> (#[trigger] r@[t]).len() == col);
        }
        r
    }

    /// A `row x col` matrix of zeros.
    pub fn zeros(row: usize, col: usize) -> (r: Self)
        ensures
            r@.len() == row,
            row > 0 ==> spec_cols(r@) == col,
            forall|i: int, j: int|
                0 <= i < row && 0 <= j < col ==> #[trigger] r@[i][j] == rat_zero(),
            r.wf(),
    {
        Matrix::create(row, col, Fraction::zero())
    }

    /// A `row x col` matrix of ones.
    pub fn ones(row: usize, col: usize) -> (r: Self)
        ensures
            r@.len() == row,
            row > 0 ==> spec_cols(r@) == col,
            forall|i: int, j: int| 0 <= i < row && 0 <= j < col ==> #[trigger] r@[i][j] == rat_one(),
            r.wf(),
    {
        Matrix::create(row, col, Fraction::one())
    }

    /// The n-order identity matrix.
    pub fn identity(n: usize) -> (r: Self)
        ensures
            r@ == spec_identity(n as int),
            r.wf(),
    {
        let mut m = Matrix::zeros(n, n);
        let mut i: usize = 0;
        while i < n
            invariant
                i <= n,
                m@.len() == n,
                m.wf(),
                n > 0 ==> spec_cols(m@) == n,
                forall|r: int, c: int|
                    0 <= r < n && 0 <= c < n ==> #[trigger] m@[r][c] == (
                    if r == c && r < i {
                        rat_one()
                    } else {
                        rat_zero()
                    }),
            decreases n - i,
        {
            m.set(i, i, Fraction::one());
            i += 1;
        }
        proof {
            assert(m@ =~~= spec_identity(n as int));
        }
        m
    }

    /// A matrix made of the given rows, which must all have the same length.
    pub fn from_rows(value: Vec<Vector>) -> (r: Self)
        requires
            forall|i: int| 0 <= i < value@.len() ==> (#[trigger] value@[i]@).len() == value@[0]@.len(),
        ensures
            r@.len() == value@.len(),
            forall|i: int| 0 <= i < value@.len() ==> #[trigger] r@[i] == value@[i]@,
            r.wf(),
    {
        let r = Matrix { rows: value };
        proof {
            assert(forall|i: int| 0 <= i < r@.len() ==> (#[trigger] r@[i]).len() == spec_cols(r@));
        }
        r
    }

    /// A matrix made of rows of whole numbers; the grid must be rectangular.
    pub fn from_ints(value: Vec<Vec<i64>>) -> (r: Self)
        requires
            forall|i: int| 0 <= i < value@.len() ==> (#[trigger] value@[i])@.len() == value@[0]@.len(),
            forall|i: int, j: int|
                0 <= i < value@.len() && 0 <= j < value@[i]@.len() ==> #[trigger] value@[i]@[j]
                    != i64::MIN,
        ensures
            r@.len() == value@.len(),
            forall|i: int| 0 <= i < value@.len() ==> (#[trigger] r@[i]).len() == value@[i]@.len(),
            forall|i: int, j: int|
                0 <= i < value@.len() && 0 <= j < value@[i]@.len() ==> #[trigger] r@[i][j]
                    == rat_of_int(value@[i]@[j] as int),
            r.wf(),
    {
        let mut rows: Vec<Vector> = Vec::new();
        let mut i: usize = 0;
        while i < value.len()
            invariant
                i <= value@.len(),
                rows@.len() == i,
                forall|t: int|
                    0 <= t < value@.len() ==> (#[trigger] value@[t])@.len() == value@[0]@.len(),
                forall|t: int, j: int|
                    0 <= t < value@.len() && 0 <= j < value@[t]@.len() ==> #[trigger] value@[t]@[j]
                        != i64::MIN,
                forall|t: int| 0 <= t < i ==> (#[trigger] rows@[t]@).len() == value@[t]@.len(),
                forall|t: int, j: int|
                    0 <= t < i && 0 <= j < value@[t]@.len() ==> #[trigger] rows@[t]@[j] == rat_of_int(
                        value@[t]@[j] as int,
                    ),
            decreases value@.len() - i,
        {
            let row = Vector::from_ints(value[i].clone());
            rows.push(row);
            i += 1;
        }
        let r = Matrix { rows };
        proof {
            assert(forall|i: int| 0 <= i < r@.len() ==> (#[trigger] r@[i]).len() == spec_cols(r@));
        }
        r
    }

    /// The number of rows.
    pub fn row_size(&self) -> (r: usize)
        ensures
            r == self@.len(),
    {
        self.rows.len()
    }

    /// The number of columns: the first row's length, zero without rows.
    pub fn col_size(&self) -> (r: usize)
        ensures
            r == spec_cols(self@),
    {
        if self.rows.len() == 0 {
            0
        } else {
            self.rows[0].size()
        }
    }

    /// Whether the matrix has no rows.
    pub fn is_empty(&self) -> (r: bool)
        ensures
            r <==> self@.len() == 0,
    {
        self.rows.is_empty()
    }

    /// A borrow of row `i`.
    pub fn row(&self, i: usize) -> (r: &Vector)
        requires
            i < self@.len(),
        ensures
            r@ == self@[i as int],
    {
        &self.rows[i]
    }

    /// The entry at row `i`, column `j`.
    pub fn get(&self, i: usize, j: usize) -> (r: Fraction)
        requires
            i < self@.len(),
            j < self@[i as int].len(),
        ensures
            r@ == self@[i as int][j as int],
    {
        self.rows[i].get(j)
    }

    /// Replace the entry at row `i`, column `j`.
    pub fn set(&mut self, i: usize, j: usize, value: Fraction)
        requires
            i < old(self)@.len(),
            j < old(self)@[i as int].len(),
        ensures
            final(self)@ == old(self)@.update(
                i as int,
                old(self)@[i as int].update(j as int, value@),
            ),
    {
        self.rows[i].set(j, value);
        proof {
            assert(self@ =~= old(self)@.update(
                i as int,
                old(self)@[i as int].update(j as int, value@),
            ));
        }
    }

    /// Replace row `i` wholesale.
    pub(crate) fn set_row(&mut self, i: usize, row: Vector)
        requires
            i < old(self)@.len(),
        ensures
            final(self)@ == old(self)@.update(i as int, row@),
    {
        self.rows[i] = row;
        proof {
            assert(self@ =~= old(self)@.update(i as int, self.rows@[i as int]@));
        }
    }

    /// Append a row.
    pub(crate) fn push_row(&mut self, row: Vector)
        ensures
            final(self)@ == old(self)@.push(row@),
    {
        self.rows.push(row);
        proof {
            assert(self@ =~= old(self)@.push(self.rows@[self.rows@.len() - 1]@));
        }
    }

    /// Every entry of a matrix value is canonical: the scalar type only
    /// ever holds reduced fractions with a positive denominator.  This
    /// makes that fact available about the model, for use with the
    /// spec-level laws.
    pub fn entries_canonical(&self)
        ensures
            mat_canonical(self@),
    {
        let mut r: usize = 0;
        while r < self.rows.len()
            invariant
                r <= self.rows@.len(),
                self@.len() == self.rows@.len(),
                forall|t: int, c: int|
                    0 <= t < r && 0 <= c < self@[t].len() ==> crate::frac::rat_canonical(
                        #[trigger] self@[t][c],
                    ),
            decreases self.rows@.len() - r,
        {
            let row = &self.rows[r];
            let mut c: usize = 0;
            while c < row.size()
                invariant
                    c <= row@.len(),
                    r < self.rows@.len(),
                    self@.len() == self.rows@.len(),
                    row@ == self@[r as int],
                    forall|t: int, cc: int|
                        0 <= t < r && 0 <= cc < self@[t].len() ==> crate::frac::rat_canonical(
                            #[trigger] self@[t][cc],
                        ),
                    forall|cc: int|
                        0 <= cc < c ==> crate::frac::rat_canonical(
                            #[trigger] self@[r as int][cc],
                        ),
                decreases row@.len() - c,
            {
                let f = row.get(c);
                f.canonical_witness();
                c += 1;
            }
            r += 1;
        }
    }

    /// Remove and return the last row.
    pub(crate) fn pop_row(&mut self) -> (r: Vector)
        requires
            old(self)@.len() > 0,
        ensures
            r@ == old(self)@.last(),
            final(self)@ == old(self)@.drop_last(),
    {
        let r = self.rows.pop().unwrap();
        proof {
            assert(self@ =~= old(self)@.drop_last());
        }
        r
    }

    /// Whether the matrix is symmetric.
    pub fn is_symmetric(&self) -> (r: bool)
        requires
            self.wf(),
        ensures
            r <==> spec_symmetric(self@),
    {
        if self.row_size() != self.col_size() {
            return false;
        }
        let n = self.row_size();
        let mut i: usize = 0;
        while i < n
            invariant
                i <= n,
                self.wf(),
                n == self@.len(),
                spec_square(self@),
                forall|r: int, c: int| 0 <= c < r < i ==> #[trigger] self@[r][c] == self@[c][r],
            decreases n - i,
        {
            let mut j: usize = 0;
            while j < i
                invariant
                    i < n,
                    j <= i,
                    self.wf(),
                    n == self@.len(),
                    spec_square(self@),
                    forall|r: int, c: int| 0 <= c < r < i ==> #[trigger] self@[r][c] == self@[c][r],
                    forall|c: int| 0 <= c < j ==> #[trigger] self@[i as int][c] == self@[c][i as int],
                decreases i - j,
            {
                let a = self.get(i, j);
                let b = self.get(j, i);
                if !(a == b) {
                    proof {
                        crate::frac::lemma_frac_eq_view(a, b);
                    }
                    return false;
                }
                proof {
                    crate::frac::lemma_frac_eq_view(a, b);
                }
                j += 1;
            }
            i += 1;
        }
        proof {
            assert forall|i: int, j: int|
                0 <= i < self@.len() && 0 <= j < self@.len() implies #[trigger] self@[i][j]
                == self@[j][i] by {
                if i < j {
                    assert(self@[j][i] == self@[i][j]);
                }
            }
        }
        true
    }

    /// Whether the matrix is upper triangular.
    pub fn is_upper(&self) -> (r: bool)
        requires
            self.wf(),
        ensures
            r <==> spec_upper(self@),
    {
        if self.row_size() != self.col_size() {
            return false;
        }
        let n = self.row_size();
        let mut i: usize = 1;
        while i < n
            invariant
                1 <= i <= n || n == 0,
                self.wf(),
                n == self@.len(),
                spec_square(self@),
                forall|r: int, c: int| 0 <= c < r < i ==> (#[trigger] self@[r][c]).n == 0,
            decreases n - i,
        {
            let mut j: usize = 0;
            while j < i
                invariant
                    i < n,
                    j <= i,
                    self.wf(),
                    n == self@.len(),
                    spec_square(self@),
                    forall|r: int, c: int| 0 <= c < r < i ==> (#[trigger] self@[r][c]).n == 0,
                    forall|c: int| 0 <= c < j ==> (#[trigger] self@[i as int][c]).n == 0,
                decreases i - j,
            {
                if !self.get(i, j).is_zero() {
                    return false;
                }
                j += 1;
            }
            i += 1;
        }
        true
    }

    /// Whether the matrix is lower triangular.
    pub fn is_lower(&self) -> (r: bool)
        requires
            self.wf(),
        ensures
            r <==> spec_lower(self@),
    {
        if self.row_size() != self.col_size() {
            return false;
        }
        let n = self.col_size();
        let mut j: usize = 1;
        while j < n
            invariant
                1 <= j <= n || n == 0,
                self.wf(),
                n == self@.len(),
                spec_square(self@),
                forall|r: int, c: int| 0 <= r < c < j ==> (#[trigger] self@[r][c]).n == 0,
            decreases n - j,
        {
            let mut i: usize = 0;
            while i < j
                invariant
                    j < n,
                    i <= j,
                    self.wf(),
                    n == self@.len(),
                    spec_square(self@),
                    forall|r: int, c: int| 0 <= r < c < j ==> (#[trigger] self@[r][c]).n == 0,
                    forall|r: int| 0 <= r < i ==> (#[trigger] self@[r][j as int]).n == 0,
                decreases j - i,
            {
                if !self.get(i, j).is_zero() {
                    return false;
                }
                i += 1;
            }
            j += 1;
        }
        true
    }

    /// Whether the matrix is diagonal: both lower and upper triangular.
    pub fn is_diagonal(&self) -> (r: bool)
        requires
            self.wf(),
        ensures
            r <==> (spec_lower(self@) && spec_upper(self@)),
    {
        let lower = self.is_lower();
        if !lower {
            return false;
        }
        self.is_upper()
    }

    /// The trace: the sum of the diagonal of a square matrix.
    pub fn trace(&self) -> (r: Fraction)
        requires
            self.wf(),
            spec_square(self@),
            trace_fits(self@),
        ensures
            r@ == spec_trace(self@),
            self@.len() == 0 ==> r@ == rat_zero(),
    {
        detail::check_square(self);
        let mut tr = Fraction::zero();
        let n = self.row_size();
        let mut i: usize = 0;
        while i < n
            invariant
                i <= n,
                self.wf(),
                spec_square(self@),
                trace_fits(self@),
                n == self@.len(),
                tr@ == spec_diag_sum(self@, i as int),
            decreases n - i,
        {
            proof {
                assert(rat_in_range(spec_diag_sum(self@, i + 1)));
                assert(spec_diag_sum(self@, i + 1) == rat_add(
                    spec_diag_sum(self@, i as int),
                    self@[i as int][i as int],
                ));
            }
            tr = tr.add(&self.get(i, i));
            i += 1;
        }
        tr
    }

    /// The transpose: entry `(j, i)` of the result is entry `(i, j)` here.
    pub fn transpose(&self) -> (r: Self)
        requires
            self.wf(),
        ensures
            r@ == spec_transpose(self@),
            r.wf(),
            r@.len() == spec_cols(self@),
            spec_cols(self@) > 0 ==> spec_cols(r@) == self@.len(),
    {
        let rows = self.row_size();
        let cols = self.col_size();
        let mut out: Vec<Vector> = Vec::new();
        let mut j: usize = 0;
        while j < cols
            invariant
                j <= cols,
                self.wf(),
                rows == self@.len(),
                cols == spec_cols(self@),
                out@.len() == j,
                forall|t: int| 0 <= t < j ==> out@[t]@ == spec_transpose(self@)[t],
            decreases cols - j,
        {
            let mut col: Vec<Fraction> = Vec::new();
            let mut i: usize = 0;
            while i < rows
                invariant
                    i <= rows,
                    j < cols,
                    self.wf(),
                    rows == self@.len(),
                    cols == spec_cols(self@),
                    col@.len() == i,
                    forall|t: int| 0 <= t < i ==> col@[t]@ == self@[t][j as int],
                decreases rows - i,
            {
                col.push(self.get(i, j));
                i += 1;
            }
            let v = Vector::from_fracs(col);
            proof {
                assert(v@ =~= spec_transpose(self@)[j as int]);
            }
            out.push(v);
            j += 1;
        }
        let r = Matrix { rows: out };
        proof {
            assert(r@ =~= spec_transpose(self@));
            assert(forall|t: int| 0 <= t < r@.len() ==> (#[trigger] r@[t]).len() == spec_cols(r@));
        }
        r
    }

    /// Elementwise sum of two matrices of identical shape.
    pub fn add(&self, other: &Matrix) -> (r: Matrix)
        requires
            self.wf(),
            other.wf(),
            self@.len() == other@.len(),
            spec_cols(self@) == spec_cols(other@),
            madd_fits(self@, other@),
        ensures
            r@ == spec_madd(self@, other@),
            r.wf(),
    {
        detail::check_size(self.row_size(), other.row_size());
        detail::check_size(self.col_size(), other.col_size());
        let mut out: Vec<Vector> = Vec::new();
        let mut i: usize = 0;
        while i < self.rows.len()
            invariant
                i <= self@.len(),
                self.wf(),
                other.wf(),
                self@.len() == other@.len(),
                spec_cols(self@) == spec_cols(other@),
                madd_fits(self@, other@),
                self@.len() == self.rows@.len(),
                out@.len() == i,
                forall|t: int| 0 <= t < i ==> out@[t]@ == spec_vadd(self@[t], other@[t]),
            decreases self@.len() - i,
        {
            proof {
                assert(self@[i as int] == self.rows@[i as int]@);
                assert(other@[i as int] == other.rows@[i as int]@);
                assert(vadd_fits(self@[i as int], other@[i as int]));
            }
            out.push(self.rows[i].add(&other.rows[i]));
            i += 1;
        }
        let r = Matrix { rows: out };
        proof {
            assert(r@ =~= spec_madd(self@, other@));
            assert(forall|t: int| 0 <= t < r@.len() ==> (#[trigger] r@[t]).len() == spec_cols(r@));
        }
        r
    }

    /// Elementwise difference of two matrices of identical shape.
    pub fn sub(&self, other: &Matrix) -> (r: Matrix)
        requires
            self.wf(),
            other.wf(),
            self@.len() == other@.len(),
            spec_cols(self@) == spec_cols(other@),
            msub_fits(self@, other@),
        ensures
            r@ == spec_msub(self@, other@),
            r.wf(),
    {
        detail::check_size(self.row_size(), other.row_size());
        detail::check_size(self.col_size(), other.col_size());
        let mut out: Vec<Vector> = Vec::new();
        let mut i: usize = 0;
        while i < self.rows.len()
            invariant
                i <= self@.len(),
                self.wf(),
                other.wf(),
                self@.len() == other@.len(),
                spec_cols(self@) == spec_cols(other@),
                msub_fits(self@, other@),
                self@.len() == self.rows@.len(),
                out@.len() == i,
                forall|t: int| 0 <= t < i ==> out@[t]@ == spec_vsub(self@[t], other@[t]),
            decreases self@.len() - i,
        {
            proof {
                assert(self@[i as int] == self.rows@[i as int]@);
                assert(other@[i as int] == other.rows@[i as int]@);
                assert(vsub_fits(self@[i as int], other@[i as int]));
            }
            out.push(self.rows[i].sub(&other.rows[i]));
            i += 1;
        }
        let r = Matrix { rows: out };
        proof {
            assert(r@ =~= spec_msub(self@, other@));
            assert(forall|t: int| 0 <= t < r@.len() ==> (#[trigger] r@[t]).len() == spec_cols(r@));
        }
        r
    }

    /// Every entry scaled by `k`.
    pub fn scalar_mul(&self, k: &Fraction) -> (r: Matrix)
        requires
            self.wf(),
            mscale_fits(self@, k@),
        ensures
            r@ == spec_mscale(self@, k@),
            r.wf(),
    {
        let mut out: Vec<Vector> = Vec::new();
        let mut i: usize = 0;
        while i < self.rows.len()
            invariant
                i <= self@.len(),
                self.wf(),
                mscale_fits(self@, k@),
                self@.len() == self.rows@.len(),
                out@.len() == i,
                forall|t: int| 0 <= t < i ==> out@[t]@ == spec_vscale(self@[t], k@),
            decreases self@.len() - i,
        {
            proof {
                assert(self@[i as int] == self.rows@[i as int]@);
                assert(vscale_fits(self@[i as int], k@));
            }
            out.push(self.rows[i].scale(k));
            i += 1;
        }
        let r = Matrix { rows: out };
        proof {
            assert(r@ =~= spec_mscale(self@, k@));
            assert(forall|t: int| 0 <= t < r@.len() ==> (#[trigger] r@[t]).len() == spec_cols(r@));
        }
        r
    }

    /// Matrix product; the inner dimensions must agree, and be nonzero
    /// whenever a dot product is actually taken.
    pub fn mul(&self, other: &Matrix) -> (r: Matrix)
        requires
            self.wf(),
            other.wf(),
            spec_cols(self@) == other@.len(),
            self@.len() > 0 && spec_cols(other@) > 0 ==> spec_cols(self@) > 0,
            mmul_fits(self@, other@),
        ensures
            r@ == spec_mmul(self@, other@),
            r.wf(),
    {
        detail::check_size(self.col_size(), other.row_size());
        let rt = other.transpose();
        let rows = self.row_size();
        let cols = other.col_size();
        let mut out: Vec<Vector> = Vec::new();
        let mut i: usize = 0;
        while i < rows
            invariant
                i <= rows,
                self.wf(),
                other.wf(),
                rt.wf(),
                rt@ == spec_transpose(other@),
                spec_cols(self@) == other@.len(),
                rows > 0 && cols > 0 ==> spec_cols(self@) > 0,
                mmul_fits(self@, other@),
                rows == self@.len(),
                cols == spec_cols(other@),
                rt@.len() == cols,
                out@.len() == i,
                forall|t: int| 0 <= t < i ==> out@[t]@ == spec_mmul(self@, other@)[t],
            decreases rows - i,
        {
            let mut entries: Vec<Fraction> = Vec::new();
            let mut c: usize = 0;
            while c < cols
                invariant
                    c <= cols,
                    i < rows,
                    self.wf(),
                    other.wf(),
                    rt.wf(),
                    rt@ == spec_transpose(other@),
                    spec_cols(self@) == other@.len(),
                    rows > 0 && cols > 0 ==> spec_cols(self@) > 0,
                    mmul_fits(self@, other@),
                    rows == self@.len(),
                    cols == spec_cols(other@),
                    rt@.len() == cols,
                    entries@.len() == c,
                    forall|t: int|
                        0 <= t < c ==> entries@[t]@ == spec_dot(self@[i as int], spec_col(other@, t)),
                decreases cols - c,
            {
                proof {
                    assert(rt@[c as int] =~= spec_col(other@, c as int));
                    assert(dot_fits(self@[i as int], spec_col(other@, c as int)));
                }
                let e = self.row(i).dot(rt.row(c));
                entries.push(e);
                c += 1;
            }
            let v = Vector::from_fracs(entries);
            proof {
                assert(v@ =~= spec_mmul(self@, other@)[i as int]);
            }
            out.push(v);
            i += 1;
        }
        let r = Matrix { rows: out };
        proof {
            assert(r@ =~= spec_mmul(self@, other@));
            assert(forall|t: int| 0 <= t < r@.len() ==> (#[trigger] r@[t]).len() == spec_cols(r@));
        }
        r
    }

    /// Split into the first `n` rows and the rest.
    pub fn split_row(&self, n: usize) -> (r: (Matrix, Matrix))
        requires
            self.wf(),
            n <= self@.len(),
        ensures
            r.0@ == self@.take(n as int),
            r.1@ == self@.skip(n as int),
            r.0.wf(),
            r.1.wf(),
    {
        let mut first: Vec<Vector> = Vec::new();
        let mut second: Vec<Vector> = Vec::new();
        let mut i: usize = 0;
        while i < n
            invariant
                i <= n,
                n <= self@.len(),
                self@.len() == self.rows@.len(),
                first@.len() == i,
                forall|t: int| 0 <= t < i ==> first@[t]@ == self@[t],
            decreases n - i,
        {
            first.push(self.rows[i].clone());
            i += 1;
        }
        let mut i: usize = n;
        while i < self.rows.len()
            invariant
                n <= i <= self@.len(),
                self@.len() == self.rows@.len(),
                second@.len() == i - n,
                forall|t: int| 0 <= t < i - n ==> second@[t]@ == self@[t + n],
            decreases self@.len() - i,
        {
            second.push(self.rows[i].clone());
            i += 1;
        }
        let a = Matrix { rows: first };
        let b = Matrix { rows: second };
        proof {
            assert(a@ =~= self@.take(n as int));
            assert(b@ =~= self@.skip(n as int));
            assert(forall|t: int| 0 <= t < a@.len() ==> (#[trigger] a@[t]).len() == spec_cols(a@));
            assert(forall|t: int| 0 <= t < b@.len() ==> (#[trigger] b@[t]).len() == spec_cols(b@));
        }
        (a, b)
    }

    /// Split into the first `n` columns and the rest.
    pub fn split_col(&self, n: usize) -> (r: (Matrix, Matrix))
        requires
            self.wf(),
            n <= spec_cols(self@),
        ensures
            r.0@.len() == self@.len(),
            r.1@.len() == self@.len(),
            forall|i: int| 0 <= i < self@.len() ==> #[trigger] r.0@[i] == self@[i].take(n as int),
            forall|i: int|
                0 <= i < self@.len() ==> #[trigger] r.1@[i] == self@[i].skip(n as int),
            r.0.wf(),
            r.1.wf(),
    {
        let mut first: Vec<Vector> = Vec::new();
        let mut second: Vec<Vector> = Vec::new();
        let mut i: usize = 0;
        while i < self.rows.len()
            invariant
                i <= self@.len(),
                self.wf(),
                n <= spec_cols(self@),
                self@.len() == self.rows@.len(),
                first@.len() == i,
                second@.len() == i,
                forall|t: int| 0 <= t < i ==> first@[t]@ == self@[t].take(n as int),
                forall|t: int| 0 <= t < i ==> second@[t]@ == self@[t].skip(n as int),
            decreases self@.len() - i,
        {
            let row = &self.rows[i];
            let mut head: Vec<Fraction> = Vec::new();
            let mut j: usize = 0;
            while j < n
                invariant
                    j <= n,
                    i < self@.len(),
                    self.wf(),
                    n <= spec_cols(self@),
                    self@.len() == self.rows@.len(),
                    row@ == self@[i as int],
                    head@.len() == j,
                    forall|t: int| 0 <= t < j ==> head@[t]@ == self@[i as int][t],
                decreases n - j,
            {
                head.push(row.get(j));
                j += 1;
            }
            let mut tail: Vec<Fraction> = Vec::new();
            let mut j: usize = n;
            let cols = row.size();
            while j < cols
                invariant
                    n <= j <= spec_cols(self@),
                    i < self@.len(),
                    self.wf(),
                    cols == spec_cols(self@),
                    self@.len() == self.rows@.len(),
                    row@ == self@[i as int],
                    tail@.len() == j - n,
                    forall|t: int| 0 <= t < j - n ==> tail@[t]@ == self@[i as int][t + n],
                decreases spec_cols(self@) - j,
            {
                tail.push(row.get(j));
                j += 1;
            }
            let hv = Vector::from_fracs(head);
            let tv = Vector::from_fracs(tail);
            proof {
                assert(hv@ =~= self@[i as int].take(n as int));
                assert(tv@ =~= self@[i as int].skip(n as int));
            }
            first.push(hv);
            second.push(tv);
            i += 1;
        }
        let a = Matrix { rows: first };
        let b = Matrix { rows: second };
        proof {
            assert(forall|t: int| 0 <= t < a@.len() ==> (#[trigger] a@[t]).len() == spec_cols(a@));
            assert(forall|t: int| 0 <= t < b@.len() ==> (#[trigger] b@[t]).len() == spec_cols(b@));
        }
        (a, b)
    }

    /// Append another matrix's rows below this one's, consuming it; the
    /// column counts must agree unless one side has no rows (a matrix
    /// without rows has zero columns by convention, so either half of a
    /// row split can be recombined).
    pub fn expand_row(&mut self, matrix: Matrix)
        requires
            old(self).wf(),
            matrix.wf(),
            old(self)@.len() == 0 || matrix@.len() == 0 || spec_cols(old(self)@) == spec_cols(
                matrix@,
            ),
        ensures
            final(self)@ == old(self)@ + matrix@,
            final(self).wf(),
    {
        let ghost msnap = matrix@;
        let mut m = matrix;
        self.rows.append(&mut m.rows);
        proof {
            assert(self@ =~= old(self)@ + msnap);
            assert(forall|t: int|
                0 <= t < self@.len() ==> (#[trigger] self@[t]).len() == spec_cols(self@));
        }
    }

    /// Append another matrix's columns to the right, consuming it; the row
    /// counts must agree.
    pub fn expand_col(&mut self, matrix: Matrix)
        requires
            old(self).wf(),
            matrix.wf(),
            old(self)@.len() == matrix@.len(),
        ensures
            final(self)@.len() == old(self)@.len(),
            forall|i: int|
                0 <= i < old(self)@.len() ==> #[trigger] final(self)@[i] == old(self)@[i]
                    + matrix@[i],
            final(self).wf(),
    {
        detail::check_size(self.row_size(), matrix.row_size());
        let mut i: usize = 0;
        while i < self.rows.len()
            invariant
                i <= old(self)@.len(),
                old(self).wf(),
                matrix.wf(),
                old(self)@.len() == matrix@.len(),
                self@.len() == old(self)@.len(),
                self@.len() == self.rows@.len(),
                forall|t: int| i <= t < self@.len() ==> #[trigger] self@[t] == old(self)@[t],
                forall|t: int|
                    0 <= t < i ==> #[trigger] self@[t] == old(self)@[t] + matrix@[t],
            decreases self@.len() - i,
        {
            proof {
                assert(self@[i as int] == self.rows@[i as int]@);
                assert(matrix@[i as int] == matrix.rows@[i as int]@);
            }
            let extra = matrix.rows[i].clone();
            let mut row = self.rows[i].clone();
            row.append(extra);
            proof {
                assert(row@ == old(self)@[i as int] + matrix@[i as int]);
            }
            self.set_row(i, row);
            i += 1;
        }
        proof {
            assert(forall|t: int|
                0 <= t < self@.len() ==> (#[trigger] self@[t]).len() == spec_cols(self@));
        }
    }

    /// Elementary row operation: swap rows `i` and `j`.
    pub fn e_row_swap(&mut self, i: usize, j: usize)
        requires
            i < old(self)@.len(),
            j < old(self)@.len(),
        ensures
            final(self)@ == old(self)@.update(i as int, old(self)@[j as int]).update(
                j as int,
                old(self)@[i as int],
            ),
    {
        let ri = self.rows[i].clone();
        let rj = self.rows[j].clone();
        self.set_row(i, rj);
        self.set_row(j, ri);
    }

    /// Elementary row operation: scale row `i` by `k`.
    pub fn e_scalar_multiplication(&mut self, i: usize, k: Fraction)
        requires
            i < old(self)@.len(),
            vscale_fits(old(self)@[i as int], k@),
        ensures
            final(self)@ == old(self)@.update(
                i as int,
                spec_vscale(old(self)@[i as int], k@),
            ),
    {
        proof {
            assert(self@[i as int] == self.rows@[i as int]@);
        }
        let row = self.rows[i].scale(&k);
        self.set_row(i, row);
    }

    /// Elementary row operation: add `k` times row `j` to row `i`, reading
    /// row `j`'s values before the update.
    pub fn e_row_sum(&mut self, i: usize, j: usize, k: Fraction)
        requires
            i < old(self)@.len(),
            j < old(self)@.len(),
            old(self)@[i as int].len() == old(self)@[j as int].len(),
            saxpy_fits(old(self)@[i as int], old(self)@[j as int], k@),
        ensures
            final(self)@ == old(self)@.update(
                i as int,
                spec_saxpy(old(self)@[i as int], old(self)@[j as int], k@),
            ),
    {
        proof {
            assert(self@[i as int] == self.rows@[i as int]@);
            assert(self@[j as int] == self.rows@[j as int]@);
        }
        let rj = self.rows[j].clone();
        let row = self.rows[i].saxpy(&rj, &k);
        self.set_row(i, row);
    }
}

} // verus!
