//! Unpivoted LU decomposition, by the Doolittle algorithm.
//!
//! `U[j][i] = A[j][i] - sum_{k<j} L[j][k]*U[k][i]` for `j <= i`, and
//! `L[j][i] = (A[j][i] - sum_{k<i} L[j][k]*U[k][i]) / U[i][i]` for `j > i`.
//! No pivoting is attempted: a zero `U[i][i]` at a division site is a
//! precondition violation.  An already-upper-triangular input returns
//! `(identity, self)` and an already-lower-triangular one `(self, zeros)`,
//! avoiding the divisions in those shapes.

use vstd::prelude::*;

use crate::detail;
use crate::frac::{
    rat_add, rat_div, rat_in_range, rat_mul, rat_one, rat_sub, rat_zero, Fraction, Rat,
};
use crate::matrix::{mat_wf, spec_identity, spec_lower, spec_square, spec_upper, Matrix};

verus! {

/// The all-zero n-order model.
pub open spec fn spec_zero_mat(n: int) -> Seq<Seq<Rat>> {
    Seq::new(n as nat, |r: int| Seq::new(n as nat, |c: int| rat_zero()))
}

/// Partial Doolittle sum: `sum_{k<t} L[j][k] * U[k][i]`.
pub open spec fn lu_sum(a: Seq<Seq<Rat>>, j: int, i: int, t: int) -> Rat
    decreases 2 * t, 0int,
{
    if t <= 0 {
        rat_zero()
    } else {
        rat_add(
            lu_sum(a, j, i, t - 1),
            rat_mul(lu_entry(a, true, j, t - 1), lu_entry(a, false, t - 1, i)),
        )
    }
}

/// Entry `(j, i)` of the Doolittle factors: of `U` when `lower` is false
/// (meaningful for `j <= i`), of `L` when `lower` is true (meaningful for
/// `j > i`).
pub open spec fn lu_entry(a: Seq<Seq<Rat>>, lower: bool, j: int, i: int) -> Rat
    decreases
            (if lower {
                2 * i + 1
            } else {
                2 * j
            }),
            1int,
{
    if lower {
        if i < 0 {
            rat_zero()
        } else {
            rat_div(rat_sub(a[j][i], lu_sum(a, j, i, i)), lu_entry(a, false, i, i))
        }
    } else {
        rat_sub(a[j][i], lu_sum(a, j, i, j))
    }
}

/// The unit-lower-triangular Doolittle factor.
pub open spec fn spec_lu_l(a: Seq<Seq<Rat>>) -> Seq<Seq<Rat>> {
    Seq::new(
        a.len(),
        |j: int|
            Seq::new(
                a.len(),
                |i: int|
                    if j == i {
                        rat_one()
                    } else if j > i {
                        lu_entry(a, true, j, i)
                    } else {
                        rat_zero()
                    },
            ),
    )
}

/// The upper-triangular Doolittle factor.
pub open spec fn spec_lu_u(a: Seq<Seq<Rat>>) -> Seq<Seq<Rat>> {
    Seq::new(
        a.len(),
        |j: int|
            Seq::new(
                a.len(),
                |i: int|
                    if j <= i {
                        lu_entry(a, false, j, i)
                    } else {
                        rat_zero()
                    },
            ),
    )
}

/// The shape of a Doolittle factor pair for `a`: both of `a`'s dimension
/// with canonical entries, `l` unit lower triangular and `u` upper
/// triangular.
pub open spec fn lu_shape(a: Seq<Seq<Rat>>, l: Seq<Seq<Rat>>, u: Seq<Seq<Rat>>) -> bool {
    &&& l.len() == a.len()
    &&& u.len() == a.len()
    &&& forall|r: int| 0 <= r < a.len() ==> (#[trigger] l[r]).len() == a.len()
    &&& forall|r: int| 0 <= r < a.len() ==> (#[trigger] u[r]).len() == a.len()
    &&& crate::matrix::mat_canonical(l)
    &&& crate::matrix::mat_canonical(u)
    &&& forall|q: int| 0 <= q < a.len() ==> #[trigger] l[q][q] == rat_one()
    &&& forall|q: int, p: int| 0 <= q < p < a.len() ==> #[trigger] l[q][p] == rat_zero()
    &&& forall|q: int, p: int| 0 <= p < q < a.len() ==> #[trigger] u[q][p] == rat_zero()
}

/// Every pivot that a division reads is nonzero.  The last diagonal entry
/// is never divided by, so it is exempt.
pub open spec fn lu_pivots_ok(a: Seq<Seq<Rat>>) -> bool {
    forall|i: int| 0 <= i < a.len() - 1 ==> (#[trigger] lu_entry(a, false, i, i)).n != 0
}

/// Every exact intermediate of the partial sums up to `t` fits the range.
pub open spec fn lu_sum_fits(a: Seq<Seq<Rat>>, j: int, i: int, t: int) -> bool {
    forall|s: int|
        0 <= s < t ==> rat_in_range(
            #[trigger] rat_mul(lu_entry(a, true, j, s), lu_entry(a, false, s, i)),
        ) && rat_in_range(lu_sum(a, j, i, s + 1))
}

/// Every exact intermediate of the Doolittle computation fits the range.
pub open spec fn lu_fits(a: Seq<Seq<Rat>>) -> bool {
    &&& forall|j: int, i: int|
        0 <= j <= i < a.len() ==> #[trigger] lu_sum_fits(a, j, i, j) && rat_in_range(
            lu_entry(a, false, j, i),
        )
    &&& forall|j: int, i: int|
        0 <= i < j < a.len() ==> #[trigger] lu_sum_fits(a, j, i, i) && rat_in_range(
            rat_sub(a[j][i], lu_sum(a, j, i, i)),
        ) && rat_in_range(lu_entry(a, true, j, i))
}

/// Partial Doolittle sums over canonical input are canonical.
pub proof fn lemma_lu_sum_canonical(a: Seq<Seq<Rat>>, j: int, i: int, t: int)
    requires
        mat_wf(a),
        spec_square(a),
        crate::matrix::mat_canonical(a),
        lu_pivots_ok(a),
        0 <= j < a.len(),
        0 <= i < a.len(),
        0 <= t,
        t <= j,
        t <= i + 1,
    ensures
        crate::frac::rat_canonical(lu_sum(a, j, i, t)),
    decreases 2 * t, 0int,
{
    if t <= 0 {
        crate::frac::lemma_rat_ops_canonical(rat_zero(), rat_one());
    } else {
        lemma_lu_sum_canonical(a, j, i, t - 1);
        lemma_lu_entry_canonical(a, true, j, t - 1);
        lemma_lu_entry_canonical(a, false, t - 1, i);
        crate::frac::lemma_rat_ops_canonical(
            lu_entry(a, true, j, t - 1),
            lu_entry(a, false, t - 1, i),
        );
        crate::frac::lemma_rat_ops_canonical(
            lu_sum(a, j, i, t - 1),
            rat_mul(lu_entry(a, true, j, t - 1), lu_entry(a, false, t - 1, i)),
        );
    }
}

/// Doolittle entries over canonical input are canonical.
pub proof fn lemma_lu_entry_canonical(a: Seq<Seq<Rat>>, lower: bool, j: int, i: int)
    requires
        mat_wf(a),
        spec_square(a),
        crate::matrix::mat_canonical(a),
        lu_pivots_ok(a),
        !lower ==> 0 <= j <= i < a.len(),
        lower ==> 0 <= i < j < a.len(),
    ensures
        crate::frac::rat_canonical(lu_entry(a, lower, j, i)),
    decreases
            (if lower {
                2 * i + 1
            } else {
                2 * j
            }),
            1int,
{
    if lower {
        lemma_lu_sum_canonical(a, j, i, i);
        lemma_lu_entry_canonical(a, false, i, i);
        assert(crate::frac::rat_canonical(a[j][i]));
        crate::frac::lemma_rat_ops_canonical(a[j][i], lu_sum(a, j, i, i));
        assert(lu_entry(a, false, i, i).n != 0);
        crate::frac::lemma_rat_ops_canonical(
            rat_sub(a[j][i], lu_sum(a, j, i, i)),
            lu_entry(a, false, i, i),
        );
    } else {
        lemma_lu_sum_canonical(a, j, i, j);
        assert(crate::frac::rat_canonical(a[j][i]));
        crate::frac::lemma_rat_ops_canonical(a[j][i], lu_sum(a, j, i, j));
    }
}

/// The lower factor under construction: columns before `upto` are filled.
pub open spec fn lpartial(a: Seq<Seq<Rat>>, upto: int, r: int, c: int) -> Rat {
    if r == c {
        rat_one()
    } else if c < upto && r > c {
        lu_entry(a, true, r, c)
    } else {
        rat_zero()
    }
}

/// The upper factor under construction: columns before `upto` are filled.
pub open spec fn upartial(a: Seq<Seq<Rat>>, upto: int, r: int, c: int) -> Rat {
    if c < upto && r <= c {
        lu_entry(a, false, r, c)
    } else {
        rat_zero()
    }
}

impl Matrix {
    /// Unpivoted Doolittle LU decomposition of a square matrix, returned
    /// as `(L, U)`.  An upper-triangular input yields `(identity, self)`,
    /// a lower-triangular one `(self, zeros)`; otherwise `L` is unit lower
    /// triangular and `U` upper triangular, with every pivot that a
    /// division reads required nonzero.
    pub fn lu_decomposition(&self) -> (r: (Matrix, Matrix))
        requires
            self.wf(),
            spec_square(self@),
            !spec_upper(self@) && !spec_lower(self@) ==> lu_pivots_ok(self@) && lu_fits(self@),
        ensures
            r.0.wf(),
            r.1.wf(),
            r.0@.len() == self@.len(),
            r.1@.len() == self@.len(),
            spec_upper(self@) ==> r.0@ == spec_identity(self@.len() as int) && r.1@ == self@,
            !spec_upper(self@) && spec_lower(self@) ==> r.0@ == self@ && r.1@ == spec_zero_mat(
                self@.len() as int,
            ),
            !spec_upper(self@) && !spec_lower(self@) ==> r.0@ == spec_lu_l(self@) && r.1@
                == spec_lu_u(self@),
    {
        detail::check_square(self);
        let n = self.row_size();
        if self.is_upper() {
            return (Matrix::identity(n), self.clone());
        }
        if self.is_lower() {
            let z = Matrix::zeros(n, n);
            proof {
                assert(z@ =~~= spec_zero_mat(n as int));
            }
            return (self.clone(), z);
        }
        let mut l = Matrix::identity(n);
        let mut u = Matrix::zeros(n, n);
        let mut i: usize = 0;
        proof {
            assert(forall|r: int, c: int|
                0 <= r < n && 0 <= c < n ==> #[trigger] l@[r][c] == lpartial(self@, 0, r, c));
            assert(forall|r: int, c: int|
                0 <= r < n && 0 <= c < n ==> #[trigger] u@[r][c] == upartial(self@, 0, r, c));
        }
        while i < n
            invariant
                i <= n,
                n == self@.len(),
                self.wf(),
                spec_square(self@),
                lu_pivots_ok(self@),
                lu_fits(self@),
                l@.len() == n,
                u@.len() == n,
                mat_wf(l@),
                mat_wf(u@),
                forall|t: int| 0 <= t < n ==> (#[trigger] l@[t]).len() == n,
                forall|t: int| 0 <= t < n ==> (#[trigger] u@[t]).len() == n,
                forall|r: int, c: int|
                    0 <= r < n && 0 <= c < n ==> #[trigger] l@[r][c] == lpartial(
                        self@,
                        i as int,
                        r,
                        c,
                    ),
                forall|r: int, c: int|
                    0 <= r < n && 0 <= c < n ==> #[trigger] u@[r][c] == upartial(
                        self@,
                        i as int,
                        r,
                        c,
                    ),
            decreases n - i,
        {
            let mut j: usize = 0;
            while j < i + 1
                invariant
                    j <= i + 1,
                    i < n,
                    n == self@.len(),
                    self.wf(),
                    spec_square(self@),
                    lu_pivots_ok(self@),
                    lu_fits(self@),
                    l@.len() == n,
                    u@.len() == n,
                    mat_wf(l@),
                    mat_wf(u@),
                    forall|t: int| 0 <= t < n ==> (#[trigger] l@[t]).len() == n,
                    forall|t: int| 0 <= t < n ==> (#[trigger] u@[t]).len() == n,
                    forall|r: int, c: int|
                        0 <= r < n && 0 <= c < n ==> #[trigger] l@[r][c] == lpartial(
                            self@,
                            i as int,
                            r,
                            c,
                        ),
                    forall|r: int, c: int|
                        0 <= r < n && 0 <= c < n ==> #[trigger] u@[r][c] == (
                        if c == i as int && r < j {
                            lu_entry(self@, false, r, c)
                        } else {
                            upartial(self@, i as int, r, c)
                        }),
                decreases i + 1 - j,
            {
                proof {
                    assert(lu_sum_fits(self@, j as int, i as int, j as int));
                }
                let mut sum = Fraction::zero();
                let mut k: usize = 0;
                while k < j
                    invariant
                        k <= j,
                        j <= i,
                        i < n,
                        n == self@.len(),
                        self.wf(),
                        lu_sum_fits(self@, j as int, i as int, j as int),
                        l@.len() == n,
                        u@.len() == n,
                        forall|t: int| 0 <= t < n ==> (#[trigger] l@[t]).len() == n,
                        forall|t: int| 0 <= t < n ==> (#[trigger] u@[t]).len() == n,
                        forall|r: int, c: int|
                            0 <= r < n && 0 <= c < n ==> #[trigger] l@[r][c] == lpartial(
                                self@,
                                i as int,
                                r,
                                c,
                            ),
                        forall|r: int, c: int|
                            0 <= r < n && 0 <= c < n ==> #[trigger] u@[r][c] == (
                            if c == i as int && r < j {
                                lu_entry(self@, false, r, c)
                            } else {
                                upartial(self@, i as int, r, c)
                            }),
                        sum@ == lu_sum(self@, j as int, i as int, k as int),
                    decreases j - k,
                {
                    proof {
                        assert(l@[j as int][k as int] == lu_entry(self@, true, j as int, k as int));
                        assert(u@[k as int][i as int] == lu_entry(self@, false, k as int, i as int));
                        assert(rat_in_range(rat_mul(
                            lu_entry(self@, true, j as int, k as int),
                            lu_entry(self@, false, k as int, i as int),
                        )));
                        assert(rat_in_range(lu_sum(self@, j as int, i as int, k + 1)));
                    }
                    let term = l.get(j, k).mul(&u.get(k, i));
                    sum = sum.add(&term);
                    k += 1;
                }
                proof {
                    assert(rat_in_range(lu_entry(self@, false, j as int, i as int)));
                    assert(lu_entry(self@, false, j as int, i as int) == rat_sub(
                        self@[j as int][i as int],
                        lu_sum(self@, j as int, i as int, j as int),
                    ));
                }
                let e = self.get(j, i).sub(&sum);
                u.set(j, i, e);
                j += 1;
            }
            let mut j: usize = i + 1;
            while j < n
                invariant
                    i < j <= n,
                    i < n,
                    n == self@.len(),
                    self.wf(),
                    spec_square(self@),
                    lu_pivots_ok(self@),
                    lu_fits(self@),
                    l@.len() == n,
                    u@.len() == n,
                    mat_wf(l@),
                    mat_wf(u@),
                    forall|t: int| 0 <= t < n ==> (#[trigger] l@[t]).len() == n,
                    forall|t: int| 0 <= t < n ==> (#[trigger] u@[t]).len() == n,
                    forall|r: int, c: int|
                        0 <= r < n && 0 <= c < n ==> #[trigger] u@[r][c] == upartial(
                            self@,
                            i as int + 1,
                            r,
                            c,
                        ),
                    forall|r: int, c: int|
                        0 <= r < n && 0 <= c < n ==> #[trigger] l@[r][c] == (
                        if c == i as int && i < r < j {
                            lu_entry(self@, true, r, c)
                        } else {
                            lpartial(self@, i as int, r, c)
                        }),
                decreases n - j,
            {
                proof {
                    assert(lu_sum_fits(self@, j as int, i as int, i as int));
                }
                let mut sum = Fraction::zero();
                let mut k: usize = 0;
                while k < i
                    invariant
                        k <= i,
                        i < j < n,
                        n == self@.len(),
                        self.wf(),
                        lu_sum_fits(self@, j as int, i as int, i as int),
                        l@.len() == n,
                        u@.len() == n,
                        forall|t: int| 0 <= t < n ==> (#[trigger] l@[t]).len() == n,
                        forall|t: int| 0 <= t < n ==> (#[trigger] u@[t]).len() == n,
                        forall|r: int, c: int|
                            0 <= r < n && 0 <= c < n ==> #[trigger] u@[r][c] == upartial(
                                self@,
                                i as int + 1,
                                r,
                                c,
                            ),
                        forall|r: int, c: int|
                            0 <= r < n && 0 <= c < n ==> #[trigger] l@[r][c] == (
                            if c == i as int && i < r < j {
                                lu_entry(self@, true, r, c)
                            } else {
                                lpartial(self@, i as int, r, c)
                            }),
                        sum@ == lu_sum(self@, j as int, i as int, k as int),
                    decreases i - k,
                {
                    proof {
                        assert(l@[j as int][k as int] == lu_entry(self@, true, j as int, k as int));
                        assert(u@[k as int][i as int] == lu_entry(self@, false, k as int, i as int));
                        assert(rat_in_range(rat_mul(
                            lu_entry(self@, true, j as int, k as int),
                            lu_entry(self@, false, k as int, i as int),
                        )));
                        assert(rat_in_range(lu_sum(self@, j as int, i as int, k + 1)));
                    }
                    let term = l.get(j, k).mul(&u.get(k, i));
                    sum = sum.add(&term);
                    k += 1;
                }
                proof {
                    assert(rat_in_range(rat_sub(
                        self@[j as int][i as int],
                        lu_sum(self@, j as int, i as int, i as int),
                    )));
                    assert(u@[i as int][i as int] == lu_entry(self@, false, i as int, i as int));
                    assert(lu_entry(self@, false, i as int, i as int).n != 0);
                    assert(rat_in_range(lu_entry(self@, true, j as int, i as int)));
                    assert(lu_entry(self@, true, j as int, i as int) == rat_div(
                        rat_sub(
                            self@[j as int][i as int],
                            lu_sum(self@, j as int, i as int, i as int),
                        ),
                        lu_entry(self@, false, i as int, i as int),
                    ));
                }
                let e = self.get(j, i).sub(&sum);
                let piv = u.get(i, i);
                let entry = e.div(&piv);
                l.set(j, i, entry);
                j += 1;
            }
            i += 1;
        }
        proof {
            assert forall|r: int| 0 <= r < n implies l@[r] =~= spec_lu_l(self@)[r] by {}
            assert forall|r: int| 0 <= r < n implies u@[r] =~= spec_lu_u(self@)[r] by {}
            assert(l@ =~= spec_lu_l(self@));
            assert(u@ =~= spec_lu_u(self@));
        }
        (l, u)
    }
}

} // verus!
