//! Reduced row echelon form and the inverse.
//!
//! Starting from the row echelon form, entries above each nonzero diagonal
//! pivot are eliminated, and rows with a nonzero diagonal entry are scaled
//! so the pivot becomes one.  Rows whose assumed diagonal pivot is zero are
//! left untouched, reflecting rank deficiency.  The inverse of a square
//! matrix of full rank is read off the right half of the reduced form of
//! the identity-augmented matrix; a rank-deficient matrix yields an
//! explicit "no inverse" result rather than an error.

use vstd::prelude::*;

use crate::detail;
use crate::frac::{rat_div, rat_in_range, rat_neg, rat_one, Rat};
use crate::matrix::{mat_wf, spec_cols, spec_identity, spec_square, Matrix};
use crate::reduce::{ref_fits, spec_rank, spec_ref};
use crate::vector::{saxpy_fits, spec_saxpy, spec_vscale, vscale_fits};

verus! {

/// The number of assumed diagonal pivots: `min(rows, cols)`.
pub open spec fn rref_n(m: Seq<Seq<Rat>>) -> int {
    if m.len() <= spec_cols(m) {
        m.len() as int
    } else {
        spec_cols(m)
    }
}

/// The multiplier that clears entry `(r, c)` using pivot row `c`.
pub open spec fn above_factor(m: Seq<Seq<Rat>>, c: int, r: int) -> Rat {
    rat_neg(rat_div(m[r][c], m[c][c]))
}

/// Eliminate the entries above the diagonal pivot of column `c`, when that
/// pivot is nonzero.  The updates use row `c`, which they never touch, so
/// they are independent of their order.
pub open spec fn above_one(m: Seq<Seq<Rat>>, c: int) -> Seq<Seq<Rat>> {
    Seq::new(
        m.len(),
        |r: int|
            if 0 <= r < c && m[c][c].n != 0 {
                spec_saxpy(m[r], m[c], above_factor(m, c, r))
            } else {
                m[r]
            },
    )
}

/// Every exact intermediate of one column's upward elimination fits.
pub open spec fn above_one_fits(m: Seq<Seq<Rat>>, c: int) -> bool {
    m[c][c].n != 0 ==> forall|r: int|
        0 <= r < c ==> rat_in_range(#[trigger] rat_div(m[r][c], m[c][c])) && saxpy_fits(
            m[r],
            m[c],
            above_factor(m, c, r),
        )
}

/// Upward elimination over columns `c .. n`, in order.
pub open spec fn above_all(m: Seq<Seq<Rat>>, c: int, n: int) -> Seq<Seq<Rat>>
    decreases n - c,
{
    if c < n {
        above_all(above_one(m, c), c + 1, n)
    } else {
        m
    }
}

/// Every exact intermediate of the upward elimination fits.
pub open spec fn above_fits(m: Seq<Seq<Rat>>, c: int, n: int) -> bool
    decreases n - c,
{
    if c < n {
        above_one_fits(m, c) && above_fits(above_one(m, c), c + 1, n)
    } else {
        true
    }
}

/// Scale each of the first `n` rows with a nonzero diagonal entry so its
/// pivot becomes one.  Each row is scaled by the inverse of its own
/// pre-scaling diagonal entry, so the updates are independent.
pub open spec fn scale_all(m: Seq<Seq<Rat>>, n: int) -> Seq<Seq<Rat>> {
    Seq::new(
        m.len(),
        |r: int|
            if r < n && m[r][r].n != 0 {
                spec_vscale(m[r], rat_div(rat_one(), m[r][r]))
            } else {
                m[r]
            },
    )
}

/// Every exact intermediate of the pivot normalisation fits.
pub open spec fn scale_fits(m: Seq<Seq<Rat>>, n: int) -> bool {
    forall|r: int|
        0 <= r < n && (#[trigger] m[r])[r].n != 0 ==> rat_in_range(rat_div(rat_one(), m[r][r]))
            && vscale_fits(m[r], rat_div(rat_one(), m[r][r]))
}

/// Reduced row echelon form of a model.
pub open spec fn spec_rref(m: Seq<Seq<Rat>>) -> Seq<Seq<Rat>> {
    let e = spec_ref(m);
    scale_all(above_all(e, 0, rref_n(e)), rref_n(e))
}

/// Every exact intermediate of the reduced-echelon transform fits.
pub open spec fn rref_fits(m: Seq<Seq<Rat>>) -> bool {
    &&& ref_fits(m)
    &&& above_fits(spec_ref(m), 0, rref_n(spec_ref(m)))
    &&& scale_fits(above_all(spec_ref(m), 0, rref_n(spec_ref(m))), rref_n(spec_ref(m)))
}

/// Column-concatenation of two models with the same row count.
pub open spec fn spec_augment(a: Seq<Seq<Rat>>, b: Seq<Seq<Rat>>) -> Seq<Seq<Rat>> {
    Seq::new(a.len(), |i: int| a[i] + b[i])
}

/// The inverse of a square model of full rank: the right half of the
/// reduced row echelon form of the identity-augmented matrix.
pub open spec fn spec_inv(m: Seq<Seq<Rat>>) -> Seq<Seq<Rat>> {
    if m.len() == 0 {
        Seq::<Seq<Rat>>::empty()
    } else {
        let aug = spec_augment(m, spec_identity(m.len() as int));
        Seq::new(m.len(), |i: int| spec_rref(aug)[i].skip(m.len() as int))
    }
}

/// Every exact intermediate of the inversion fits.
pub open spec fn inv_fits(m: Seq<Seq<Rat>>) -> bool {
    m.len() > 0 ==> ref_fits(m) && rref_fits(
        spec_augment(m, spec_identity(m.len() as int)),
    )
}

/// One column's upward elimination keeps the shape and touches only rows
/// before `c`.
pub proof fn lemma_above_one_shape(m: Seq<Seq<Rat>>, c: int)
    requires
        mat_wf(m),
        0 <= c < m.len(),
    ensures
        above_one(m, c).len() == m.len(),
        spec_cols(above_one(m, c)) == spec_cols(m),
        mat_wf(above_one(m, c)),
        forall|r: int| c <= r < m.len() ==> #[trigger] above_one(m, c)[r] == m[r],
{
    let e = above_one(m, c);
    assert forall|r: int| 0 <= r < e.len() implies (#[trigger] e[r]).len() == spec_cols(m) by {
        if 0 <= r < c && m[c][c].n != 0 {
            assert(e[r].len() == m[r].len());
        }
    }
    if m.len() > 0 {
        assert(e[0].len() == spec_cols(m));
    }
}

/// The upward elimination keeps the shape.
pub proof fn lemma_above_all_shape(m: Seq<Seq<Rat>>, c: int, n: int)
    requires
        mat_wf(m),
        0 <= c,
        n <= m.len(),
    ensures
        above_all(m, c, n).len() == m.len(),
        spec_cols(above_all(m, c, n)) == spec_cols(m),
        mat_wf(above_all(m, c, n)),
    decreases n - c,
{
    if c < n {
        lemma_above_one_shape(m, c);
        lemma_above_all_shape(above_one(m, c), c + 1, n);
    }
}

/// The pivot normalisation keeps the shape.
pub proof fn lemma_scale_all_shape(m: Seq<Seq<Rat>>, n: int)
    requires
        mat_wf(m),
    ensures
        scale_all(m, n).len() == m.len(),
        spec_cols(scale_all(m, n)) == spec_cols(m),
        mat_wf(scale_all(m, n)),
{
    let e = scale_all(m, n);
    assert forall|r: int| 0 <= r < e.len() implies (#[trigger] e[r]).len() == spec_cols(m) by {
        if r < n && m[r][r].n != 0 {
            assert(e[r].len() == m[r].len());
        }
    }
    if m.len() > 0 {
        assert(e[0].len() == spec_cols(m));
    }
}

impl Matrix {
    /// Reduced row echelon form: the echelon form with entries above each
    /// nonzero diagonal pivot eliminated and those pivots scaled to one.
    /// Rows and columns whose assumed diagonal pivot is zero are left
    /// unnormalised.
    pub fn row_canonical_form(&self) -> (r: Matrix)
        requires
            self.wf(),
            self@.len() > 0 ==> spec_cols(self@) > 0,
            rref_fits(self@),
        ensures
            r@ == spec_rref(self@),
            r.wf(),
            r@.len() == self@.len(),
            spec_cols(r@) == spec_cols(self@),
    {
        let mut m = self.row_echelon_form();
        let ghost e = spec_ref(self@);
        let rows = m.row_size();
        let cols = m.col_size();
        let n = if rows < cols {
            rows
        } else {
            cols
        };
        proof {
            assert(n as int == rref_n(e));
        }
        let mut c: usize = 0;
        while c < n
            invariant
                c <= n,
                m.wf(),
                rows == m@.len(),
                cols == spec_cols(m@),
                n <= rows,
                n <= cols,
                n as int == rref_n(e),
                above_all(e, 0, n as int) == above_all(m@, c as int, n as int),
                above_fits(m@, c as int, n as int),
            decreases n - c,
        {
            let ghost m0 = m@;
            let pivot_nonzero = !m.get(c, c).is_zero();
            let mut r: usize = 0;
            while r < c
                invariant
                    r <= c,
                    c < n,
                    n <= rows,
                    n <= cols,
                    m.wf(),
                    rows == m@.len(),
                    cols == spec_cols(m@),
                    m0.len() == rows,
                    spec_cols(m0) == cols,
                    mat_wf(m0),
                    pivot_nonzero <==> m0[c as int][c as int].n != 0,
                    above_one_fits(m0, c as int),
                    forall|t: int| 0 <= t < rows && !(t < r) ==> #[trigger] m@[t] == m0[t],
                    forall|t: int|
                        0 <= t < r ==> #[trigger] m@[t] == above_one(m0, c as int)[t],
                decreases c - r,
            {
                if pivot_nonzero {
                    proof {
                        assert(m@[r as int] == m0[r as int]);
                        assert(m@[c as int] == m0[c as int]);
                        assert(rat_in_range(rat_div(m0[r as int][c as int], m0[c as int][c as int])));
                    }
                    let factor = m.get(r, c).div(&m.get(c, c)).neg();
                    proof {
                        assert(factor@ == above_factor(m0, c as int, r as int));
                    }
                    m.e_row_sum(r, c, factor);
                }
                r += 1;
            }
            proof {
                assert(m@ =~= above_one(m0, c as int));
                lemma_above_one_shape(m0, c as int);
            }
            c += 1;
        }
        let ghost m1 = m@;
        proof {
            assert(m1 == above_all(e, 0, n as int));
            assert(scale_fits(m1, n as int));
        }
        let mut r: usize = 0;
        while r < n
            invariant
                r <= n,
                m.wf(),
                rows == m@.len(),
                cols == spec_cols(m@),
                n <= rows,
                n <= cols,
                m1.len() == rows,
                mat_wf(m1),
                scale_fits(m1, n as int),
                forall|t: int| 0 <= t < rows && !(t < r) ==> #[trigger] m@[t] == m1[t],
                forall|t: int| 0 <= t < r ==> #[trigger] m@[t] == scale_all(m1, n as int)[t],
            decreases n - r,
        {
            proof {
                assert(m@[r as int] == m1[r as int]);
            }
            let piv = m.get(r, r);
            if !piv.is_zero() {
                let factor = crate::frac::Fraction::one().div(&piv);
                m.e_scalar_multiplication(r, factor);
            }
            r += 1;
        }
        proof {
            assert(m@ =~= scale_all(m1, n as int));
            lemma_scale_all_shape(m1, n as int);
        }
        m
    }

    /// The inverse.  The matrix must be square; the inverse of the empty
    /// matrix is the empty matrix, and a matrix whose rank falls short of
    /// its size has no inverse, which is an ordinary result, not an error.
    pub fn inv(&self) -> (r: Option<Matrix>)
        requires
            self.wf(),
            spec_square(self@),
            inv_fits(self@),
        ensures
            r is None <==> spec_rank(self@) < self@.len(),
            r matches Some(v) ==> v@ == spec_inv(self@) && v.wf(),
    {
        detail::check_square(self);
        if self.is_empty() {
            let empty = Matrix::new();
            proof {
                assert(empty@ =~= spec_inv(self@));
            }
            return Some(empty);
        }
        let n = self.row_size();
        let rk = self.rank();
        if rk != n {
            return None;
        }
        let mut aug = self.clone();
        let ident = Matrix::identity(n);
        aug.expand_col(ident);
        proof {
            assert(aug@ =~= spec_augment(self@, spec_identity(n as int)));
            assert(spec_cols(aug@) == spec_cols(self@) + n);
        }
        let ech = aug.row_canonical_form();
        let halves = ech.split_col(n);
        let right = halves.1;
        proof {
            assert(right@ =~= spec_inv(self@));
        }
        Some(right)
    }
}

} // verus!
