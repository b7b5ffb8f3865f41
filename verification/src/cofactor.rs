//! Cofactor expansion: submatrix, minor, cofactor and adjugate.
//!
//! Each minor entry is the determinant of the submatrix that drops one row
//! and one column, an O(n^5) construction kept deliberately simple; the
//! cofactor applies the checkerboard sign, and the adjugate is the
//! cofactor's transpose.

use vstd::prelude::*;

use crate::frac::{rat_neg, Fraction, Rat};
use crate::matrix::{mat_wf, spec_cols, spec_square, spec_transpose, Matrix};
use crate::reduce::{det_fits, spec_det};

verus! {

/// The model with row `i` and column `j` dropped.
pub open spec fn spec_submatrix(m: Seq<Seq<Rat>>, i: int, j: int) -> Seq<Seq<Rat>> {
    Seq::new(
        (m.len() - 1) as nat,
        |r: int|
            {
                let src = if r < i {
                    m[r]
                } else {
                    m[r + 1]
                };
                src.subrange(0, j) + src.subrange(j + 1, src.len() as int)
            },
    )
}

/// The minor: entry `(r, c)` is the determinant of the submatrix that
/// drops row `r` and column `c`.
pub open spec fn spec_minor(m: Seq<Seq<Rat>>) -> Seq<Seq<Rat>> {
    Seq::new(m.len(), |r: int| Seq::new(m.len(), |c: int| spec_det(spec_submatrix(m, r, c))))
}

/// Every exact intermediate of the minor fits the range.
pub open spec fn minor_fits(m: Seq<Seq<Rat>>) -> bool {
    forall|r: int, c: int|
        0 <= r < m.len() && 0 <= c < m.len() ==> det_fits(#[trigger] spec_submatrix(m, r, c))
}

/// The cofactor: the minor with the checkerboard sign applied.
pub open spec fn spec_cofactor(m: Seq<Seq<Rat>>) -> Seq<Seq<Rat>> {
    Seq::new(
        m.len(),
        |r: int|
            Seq::new(
                m.len(),
                |c: int|
                    if (r + c) % 2 == 1 {
                        rat_neg(spec_det(spec_submatrix(m, r, c)))
                    } else {
                        spec_det(spec_submatrix(m, r, c))
                    },
            ),
    )
}

/// The adjugate: the transpose of the cofactor.
pub open spec fn spec_adj(m: Seq<Seq<Rat>>) -> Seq<Seq<Rat>> {
    spec_transpose(spec_cofactor(m))
}

impl Matrix {
    /// The matrix with row `i` and column `j` dropped.
    pub fn submatrix(&self, i: usize, j: usize) -> (r: Matrix)
        requires
            self.wf(),
            i < self@.len(),
            j < spec_cols(self@),
        ensures
            r@ == spec_submatrix(self@, i as int, j as int),
            r.wf(),
            r@.len() == self@.len() - 1,
            spec_cols(r@) == if self@.len() == 1 {
                0int
            } else {
                spec_cols(self@) - 1
            },
    {
        let rows = self.row_size();
        let cols = self.col_size();
        let mut out: Vec<crate::vector::Vector> = Vec::new();
        let mut r: usize = 0;
        while r < rows
            invariant
                r <= rows,
                self.wf(),
                i < rows,
                j < cols,
                rows == self@.len(),
                cols == spec_cols(self@),
                out@.len() == if r <= i {
                    r as int
                } else {
                    r - 1
                },
                forall|t: int|
                    0 <= t < out@.len() ==> out@[t]@ == spec_submatrix(self@, i as int, j as int)[t],
            decreases rows - r,
        {
            if r != i {
                let row = self.row(r);
                let mut entries: Vec<Fraction> = Vec::new();
                let mut t: usize = 0;
                while t < cols
                    invariant
                        t <= cols,
                        self.wf(),
                        r < rows,
                        j < cols,
                        rows == self@.len(),
                        cols == spec_cols(self@),
                        row@ == self@[r as int],
                        entries@.len() == if t <= j {
                            t as int
                        } else {
                            t - 1
                        },
                        forall|s: int|
                            0 <= s < j && s < t ==> entries@[s]@ == self@[r as int][s],
                        forall|s: int|
                            j <= s && s + 1 < t ==> entries@[s]@ == self@[r as int][s + 1],
                    decreases cols - t,
                {
                    if t != j {
                        entries.push(row.get(t));
                    }
                    t += 1;
                }
                let v = crate::vector::Vector::from_fracs(entries);
                proof {
                    let ghost ridx = out@.len() as int;
                    assert(v@ =~= spec_submatrix(self@, i as int, j as int)[ridx]);
                }
                out.push(v);
            }
            r += 1;
        }
        proof {
            assert(out@.len() == self@.len() - 1);
            assert forall|t: int|
                0 <= t < out@.len() implies (#[trigger] out@[t]@).len() == out@[0]@.len() by {
                assert(out@[t]@ == spec_submatrix(self@, i as int, j as int)[t]);
                assert(out@[0]@ == spec_submatrix(self@, i as int, j as int)[0]);
            }
        }
        let m = Matrix::from_rows(out);
        proof {
            assert(m@ =~= spec_submatrix(self@, i as int, j as int));
            assert(forall|t: int| 0 <= t < m@.len() ==> (#[trigger] m@[t]).len() == spec_cols(m@));
        }
        m
    }

    /// The minor matrix: each entry is the determinant of the
    /// corresponding submatrix.
    pub fn minor(&self) -> (r: Matrix)
        requires
            self.wf(),
            spec_square(self@),
            minor_fits(self@),
        ensures
            r@ == spec_minor(self@),
            r.wf(),
            r@.len() == self@.len(),
    {
        let n = self.row_size();
        let mut out: Vec<crate::vector::Vector> = Vec::new();
        let mut i: usize = 0;
        while i < n
            invariant
                i <= n,
                self.wf(),
                spec_square(self@),
                minor_fits(self@),
                n == self@.len(),
                out@.len() == i,
                forall|t: int| 0 <= t < i ==> out@[t]@ == spec_minor(self@)[t],
            decreases n - i,
        {
            let mut entries: Vec<Fraction> = Vec::new();
            let mut c: usize = 0;
            while c < n
                invariant
                    c <= n,
                    i < n,
                    self.wf(),
                    spec_square(self@),
                    minor_fits(self@),
                    n == self@.len(),
                    entries@.len() == c,
                    forall|t: int|
                        0 <= t < c ==> entries@[t]@ == spec_det(
                            spec_submatrix(self@, i as int, t),
                        ),
                decreases n - c,
            {
                let sub = self.submatrix(i, c);
                proof {
                    assert(det_fits(spec_submatrix(self@, i as int, c as int)));
                    assert(spec_square(sub@));
                }
                entries.push(sub.det());
                c += 1;
            }
            let v = crate::vector::Vector::from_fracs(entries);
            proof {
                assert(v@ =~= spec_minor(self@)[i as int]);
            }
            out.push(v);
            i += 1;
        }
        proof {
            assert forall|t: int|
                0 <= t < out@.len() implies (#[trigger] out@[t]@).len() == out@[0]@.len() by {
                assert(out@[t]@ == spec_minor(self@)[t]);
                assert(out@[0]@ == spec_minor(self@)[0]);
            }
        }
        let m = Matrix::from_rows(out);
        proof {
            assert(m@ =~= spec_minor(self@));
            assert(forall|t: int| 0 <= t < m@.len() ==> (#[trigger] m@[t]).len() == spec_cols(m@));
        }
        m
    }

    /// The cofactor matrix: the minor with entry `(r, c)` negated when
    /// `r + c` is odd.
    pub fn cofactor(&self) -> (r: Matrix)
        requires
            self.wf(),
            spec_square(self@),
            minor_fits(self@),
        ensures
            r@ == spec_cofactor(self@),
            r.wf(),
            r@.len() == self@.len(),
    {
        let n = self.row_size();
        let mut m = self.minor();
        let mut i: usize = 0;
        while i < n
            invariant
                i <= n,
                n == self@.len(),
                m@.len() == n,
                mat_wf(m@),
                spec_cols(m@) == spec_minor(self@).len() && m@.len() == spec_minor(self@).len(),
                forall|r: int, c: int|
                    0 <= r < n && 0 <= c < n && r >= i ==> #[trigger] m@[r][c] == spec_minor(
                        self@,
                    )[r][c],
                forall|r: int, c: int|
                    0 <= r < i && 0 <= c < n ==> #[trigger] m@[r][c] == spec_cofactor(self@)[r][c],
            decreases n - i,
        {
            let mut c: usize = 0;
            while c < n
                invariant
                    c <= n,
                    i < n,
                    n == self@.len(),
                    m@.len() == n,
                    mat_wf(m@),
                    spec_cols(m@) == n,
                    forall|r: int, t: int|
                        0 <= r < n && 0 <= t < n && r > i ==> #[trigger] m@[r][t] == spec_minor(
                            self@,
                        )[r][t],
                    forall|t: int|
                        c <= t < n ==> #[trigger] m@[i as int][t] == spec_minor(self@)[i as int][t],
                    forall|r: int, t: int|
                        0 <= r < i && 0 <= t < n ==> #[trigger] m@[r][t] == spec_cofactor(
                            self@,
                        )[r][t],
                    forall|t: int|
                        0 <= t < c ==> #[trigger] m@[i as int][t] == spec_cofactor(
                            self@,
                        )[i as int][t],
                decreases n - c,
            {
                if (i % 2) != (c % 2) {
                    proof {
                        assert((i as int + c as int) % 2 == 1);
                    }
                    let e = m.get(i, c);
                    m.set(i, c, e.neg());
                } else {
                    proof {
                        assert((i as int + c as int) % 2 == 0);
                    }
                }
                c += 1;
            }
            i += 1;
        }
        proof {
            assert forall|r: int| 0 <= r < n implies m@[r] =~= spec_cofactor(self@)[r] by {}
            assert(m@ =~= spec_cofactor(self@));
            assert(forall|t: int| 0 <= t < m@.len() ==> (#[trigger] m@[t]).len() == spec_cols(m@));
        }
        m
    }

    /// The adjugate: the transpose of the cofactor matrix.
    pub fn adj(&self) -> (r: Matrix)
        requires
            self.wf(),
            spec_square(self@),
            minor_fits(self@),
        ensures
            r@ == spec_adj(self@),
            r.wf(),
            r@.len() == self@.len(),
    {
        let c = self.cofactor();
        let r = c.transpose();
        proof {
            if self@.len() > 0 {
                assert(spec_cols(c@) == self@.len());
            }
        }
        r
    }
}

} // verus!
