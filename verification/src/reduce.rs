//! The elimination engine: row echelon form.
//!
//! Forward elimination processes rows top-down.  For pivot row `i`, let `j`
//! be the index of its first nonzero entry; every later row `k` is replaced
//! by `row k - (row k[j] / row i[j]) * row i` whenever `j` is a real
//! column.  No row exchange is ever performed, so a zero sitting at the
//! natural pivot column is never repaired.  A final stable sort by
//! leading-zero count produces the staircase shape and sinks zero rows.
//! The executable code mirrors the spec-level recursion step for step.

use vstd::prelude::*;

use crate::detail;
use crate::frac::{rat_div, rat_in_range, rat_mul, rat_neg, rat_one, Fraction, Rat};
use crate::matrix::{mat_wf, spec_cols, spec_square, Matrix};
use crate::vector::{
    lemma_lz, lemma_lz_is, saxpy_fits, spec_lz, spec_saxpy, zero_seq, Vector,
};

verus! {

/// The multiplier that clears the pivot column of row `k` under pivot row
/// `i`.
pub open spec fn elim_factor(m: Seq<Seq<Rat>>, i: int, k: int) -> Rat {
    rat_neg(rat_div(m[k][spec_lz(m[i])], m[i][spec_lz(m[i])]))
}

/// Whether pivot row `i` eliminates at all: its first nonzero entry must
/// sit in a real column.
pub open spec fn elim_active(m: Seq<Seq<Rat>>, i: int) -> bool {
    spec_lz(m[i]) < spec_cols(m)
}

/// Row `k` after elimination under pivot row `i`.  The update depends only
/// on rows `i` and `k`, and pivot rows are never themselves rewritten, so
/// the updates below one pivot are independent of their order.
pub open spec fn elim_row(m: Seq<Seq<Rat>>, i: int, k: int) -> Seq<Rat> {
    if elim_active(m, i) {
        spec_saxpy(m[k], m[i], elim_factor(m, i, k))
    } else {
        m[k]
    }
}

/// Every exact intermediate of one row's elimination fits the range.
pub open spec fn elim_one_fits(m: Seq<Seq<Rat>>, i: int, k: int) -> bool {
    elim_active(m, i) ==> rat_in_range(rat_div(m[k][spec_lz(m[i])], m[i][spec_lz(m[i])]))
        && saxpy_fits(m[k], m[i], elim_factor(m, i, k))
}

/// Eliminate rows `k ..` under pivot row `i`.
pub open spec fn elim_below(m: Seq<Seq<Rat>>, i: int, k: int) -> Seq<Seq<Rat>> {
    Seq::new(m.len(), |r: int| if r >= k { elim_row(m, i, r) } else { m[r] })
}

/// Every exact intermediate of `elim_below` fits the range.
pub open spec fn elim_below_fits(m: Seq<Seq<Rat>>, i: int, k: int) -> bool {
    forall|r: int| k <= r < m.len() ==> elim_one_fits(m, i, r)
}

/// Forward elimination from pivot row `i` on.
pub open spec fn forward(m: Seq<Seq<Rat>>, i: int) -> Seq<Seq<Rat>>
    decreases m.len() - i,
{
    if i < m.len() {
        forward(elim_below(m, i, i + 1), i + 1)
    } else {
        m
    }
}

/// Every exact intermediate of forward elimination fits the range.
pub open spec fn forward_fits(m: Seq<Seq<Rat>>, i: int) -> bool
    decreases m.len() - i,
{
    if i < m.len() {
        elim_below_fits(m, i, i + 1) && forward_fits(elim_below(m, i, i + 1), i + 1)
    } else {
        true
    }
}

/// Insert `row` into `s` behind every row whose leading-zero count does
/// not exceed its own: one step of a stable insertion sort.
pub open spec fn insert_row(s: Seq<Seq<Rat>>, row: Seq<Rat>) -> Seq<Seq<Rat>>
    decreases s.len(),
{
    if s.len() == 0 {
        seq![row]
    } else if spec_lz(s.last()) <= spec_lz(row) {
        s.push(row)
    } else {
        insert_row(s.drop_last(), row).push(s.last())
    }
}

/// Stable sort of the rows by ascending leading-zero count.
pub open spec fn sort_rows(m: Seq<Seq<Rat>>) -> Seq<Seq<Rat>>
    decreases m.len(),
{
    if m.len() == 0 {
        m
    } else {
        insert_row(sort_rows(m.drop_last()), m.last())
    }
}

/// Whether inserting `row` into the sorted prefix `s` displaces it past an
/// odd number of rows: the parity contributed by one insertion step.
pub open spec fn insert_odd(s: Seq<Seq<Rat>>, row: Seq<Rat>) -> bool
    decreases s.len(),
{
    if s.len() == 0 {
        false
    } else if spec_lz(s.last()) <= spec_lz(row) {
        false
    } else {
        !insert_odd(s.drop_last(), row)
    }
}

/// Whether the stable sort of the rows is an odd permutation: the parity
/// of the total number of transpositions its insertions perform.
pub open spec fn sort_odd(m: Seq<Seq<Rat>>) -> bool
    decreases m.len(),
{
    if m.len() == 0 {
        false
    } else {
        sort_odd(m.drop_last()) != insert_odd(sort_rows(m.drop_last()), m.last())
    }
}

/// Row echelon form: forward elimination, then the stable sort.
pub open spec fn spec_ref(m: Seq<Seq<Rat>>) -> Seq<Seq<Rat>> {
    sort_rows(forward(m, 0))
}

/// Every exact intermediate of the echelon transform fits the range.
pub open spec fn ref_fits(m: Seq<Seq<Rat>>) -> bool {
    forward_fits(m, 0)
}

/// `elim_below` keeps the shape and leaves rows before `k` untouched.
pub proof fn lemma_elim_below_shape(m: Seq<Seq<Rat>>, i: int, k: int)
    requires
        mat_wf(m),
        0 <= i < m.len(),
    ensures
        elim_below(m, i, k).len() == m.len(),
        spec_cols(elim_below(m, i, k)) == spec_cols(m),
        mat_wf(elim_below(m, i, k)),
        forall|r: int| 0 <= r < m.len() && r < k ==> #[trigger] elim_below(m, i, k)[r] == m[r],
{
    let e = elim_below(m, i, k);
    assert forall|r: int| 0 <= r < e.len() implies (#[trigger] e[r]).len() == spec_cols(m) by {
        if r >= k {
            assert(elim_row(m, i, r).len() == m[r].len());
        }
    }
    if m.len() > 0 {
        assert(e[0].len() == spec_cols(m));
    }
}

/// Forward elimination keeps the shape.
pub proof fn lemma_forward_shape(m: Seq<Seq<Rat>>, i: int)
    requires
        mat_wf(m),
        i >= 0,
    ensures
        forward(m, i).len() == m.len(),
        spec_cols(forward(m, i)) == spec_cols(m),
        mat_wf(forward(m, i)),
    decreases m.len() - i,
{
    if i < m.len() {
        lemma_elim_below_shape(m, i, i + 1);
        lemma_forward_shape(elim_below(m, i, i + 1), i + 1);
    }
}

/// Inserting a row of the common length keeps every row at that length and
/// grows the count by one.
pub proof fn lemma_insert_row_shape(s: Seq<Seq<Rat>>, row: Seq<Rat>, len: int)
    requires
        forall|r: int| 0 <= r < s.len() ==> (#[trigger] s[r]).len() == len,
        row.len() == len,
    ensures
        insert_row(s, row).len() == s.len() + 1,
        forall|r: int| 0 <= r < s.len() + 1 ==> (#[trigger] insert_row(s, row)[r]).len() == len,
    decreases s.len(),
{
    if s.len() == 0 {
    } else if spec_lz(s.last()) <= spec_lz(row) {
    } else {
        lemma_insert_row_shape(s.drop_last(), row, len);
    }
}

/// The stable sort keeps the row count and the common row length.
pub proof fn lemma_sort_rows_shape(m: Seq<Seq<Rat>>, len: int)
    requires
        forall|r: int| 0 <= r < m.len() ==> (#[trigger] m[r]).len() == len,
    ensures
        sort_rows(m).len() == m.len(),
        forall|r: int| 0 <= r < m.len() ==> (#[trigger] sort_rows(m)[r]).len() == len,
    decreases m.len(),
{
    if m.len() > 0 {
        lemma_sort_rows_shape(m.drop_last(), len);
        lemma_insert_row_shape(sort_rows(m.drop_last()), m.last(), len);
    }
}

/// Product of the first `k` diagonal entries, accumulated from one.
pub open spec fn spec_diag_prod(m: Seq<Seq<Rat>>, k: int) -> Rat
    decreases k,
{
    if k <= 0 {
        rat_one()
    } else {
        rat_mul(spec_diag_prod(m, k - 1), m[k - 1][k - 1])
    }
}

/// Determinant of a square model: the product of the diagonal of its row
/// echelon form, negated when the final staircase reordering is an odd
/// permutation.  Forward elimination only adds multiples of rows, which
/// preserves the determinant; the sort's permutation contributes exactly
/// the sign tracked by [`sort_odd`], so the corrected product is the exact
/// determinant.  The empty matrix has determinant one.
pub open spec fn spec_det(m: Seq<Seq<Rat>>) -> Rat {
    if sort_odd(forward(m, 0)) {
        rat_neg(spec_diag_prod(spec_ref(m), m.len() as int))
    } else {
        spec_diag_prod(spec_ref(m), m.len() as int)
    }
}

/// Every exact intermediate of the determinant fits the range.
pub open spec fn det_fits(m: Seq<Seq<Rat>>) -> bool {
    ref_fits(m) && forall|k: int|
        0 <= k < m.len() ==> rat_in_range(#[trigger] spec_diag_prod(spec_ref(m), k + 1))
}

/// The number of all-zero rows of a model.
pub open spec fn count_zero_rows(m: Seq<Seq<Rat>>) -> int
    decreases m.len(),
{
    if m.len() == 0 {
        0
    } else {
        count_zero_rows(m.drop_last()) + if zero_seq(m.last()) {
            1int
        } else {
            0int
        }
    }
}

/// Rank: the rows of the echelon form that are not all zero.
pub open spec fn spec_rank(m: Seq<Seq<Rat>>) -> int {
    m.len() - count_zero_rows(spec_ref(m))
}

/// The count of zero rows is between zero and the row count.
pub proof fn lemma_count_zero_bounds(m: Seq<Seq<Rat>>)
    ensures
        0 <= count_zero_rows(m) <= m.len(),
    decreases m.len(),
{
    if m.len() > 0 {
        lemma_count_zero_bounds(m.drop_last());
    }
}

/// One step of the stable insertion sort, executable form.  Besides the
/// grown matrix it reports whether the insertion displaced the row past an
/// odd number of others.
fn insert_row_exec(m: Matrix, row: Vector) -> (r: (Matrix, bool))
    requires
        forall|t: int| 0 <= t < m@.len() ==> (#[trigger] m@[t]).len() == row@.len(),
        row@.len() > 0,
    ensures
        r.0@ == insert_row(m@, row@),
        r.1 <==> insert_odd(m@, row@),
    decreases m@.len(),
{
    let ghost msnap = m@;
    let n = m.row_size();
    if n == 0 {
        let mut mm = m;
        mm.push_row(row);
        proof {
            assert(mm@ =~= insert_row(msnap, row@));
        }
        (mm, false)
    } else {
        let lz_last = m.row(n - 1).count_leading_zeros();
        let lz_row = row.count_leading_zeros();
        proof {
            assert(msnap[n - 1] == msnap.last());
        }
        if lz_last <= lz_row {
            let mut mm = m;
            mm.push_row(row);
            (mm, false)
        } else {
            let mut mm = m;
            let last = mm.pop_row();
            let inner = insert_row_exec(mm, row);
            let mut out = inner.0;
            out.push_row(last);
            proof {
                assert(out@ == insert_row(msnap.drop_last(), row@).push(msnap.last()));
            }
            (out, !inner.1)
        }
    }
}

/// Stable sort of the rows by ascending leading-zero count, executable
/// form.  Besides the sorted matrix it reports whether the sort performed
/// an odd permutation of the rows.
fn sort_rows_exec(m: Matrix) -> (r: (Matrix, bool))
    requires
        m.wf(),
        m@.len() > 0 ==> spec_cols(m@) > 0,
    ensures
        r.0@ == sort_rows(m@),
        r.1 <==> sort_odd(m@),
    decreases m@.len(),
{
    let ghost msnap = m@;
    if m.row_size() == 0 {
        (m, false)
    } else {
        let mut mm = m;
        let last = mm.pop_row();
        proof {
            assert(forall|t: int|
                0 <= t < mm@.len() ==> (#[trigger] mm@[t]).len() == spec_cols(msnap));
            assert(mat_wf(mm@));
        }
        let sorted = sort_rows_exec(mm);
        proof {
            lemma_sort_rows_shape(msnap.drop_last(), spec_cols(msnap));
            assert(forall|t: int|
                0 <= t < sorted.0@.len() ==> (#[trigger] sorted.0@[t]).len() == last@.len());
        }
        let inserted = insert_row_exec(sorted.0, last);
        (inserted.0, sorted.1 != inserted.1)
    }
}

impl Matrix {
    /// The echelon transform together with the parity of its final
    /// reordering, which the determinant needs for its sign.
    fn echelon_with_parity(&self) -> (r: (Matrix, bool))
        requires
            self.wf(),
            self@.len() > 0 ==> spec_cols(self@) > 0,
            ref_fits(self@),
        ensures
            r.0@ == spec_ref(self@),
            r.0.wf(),
            r.0@.len() == self@.len(),
            spec_cols(r.0@) == spec_cols(self@),
            r.1 <==> sort_odd(forward(self@, 0)),
    {
        let mut m = self.clone();
        let rows = m.row_size();
        let cols = m.col_size();
        let mut i: usize = 0;
        while i < rows
            invariant
                i <= rows,
                m.wf(),
                rows == m@.len(),
                rows == self@.len(),
                cols == spec_cols(m@),
                cols == spec_cols(self@),
                rows > 0 ==> cols > 0,
                forward(self@, 0) == forward(m@, i as int),
                forward_fits(m@, i as int),
            decreases rows - i,
        {
            let ghost m0 = m@;
            let mut j: usize = 0;
            while j < cols && m.get(i, j).is_zero()
                invariant
                    j <= cols,
                    m.wf(),
                    i < rows,
                    rows == m@.len(),
                    cols == spec_cols(m@),
                    m@ == m0,
                    forall|t: int| 0 <= t < j ==> m@[i as int][t].n == 0,
                decreases cols - j,
            {
                j += 1;
            }
            proof {
                lemma_lz_is(m0[i as int], j as int);
            }
            let mut k: usize = i + 1;
            while k < rows
                invariant
                    i < k <= rows,
                    i < rows,
                    m.wf(),
                    rows == m@.len(),
                    m0.len() == rows,
                    cols == spec_cols(m@),
                    cols == spec_cols(m0),
                    mat_wf(m0),
                    j as int == spec_lz(m0[i as int]),
                    j <= cols,
                    j < cols ==> m0[i as int][j as int].n != 0,
                    elim_below_fits(m0, i as int, i as int + 1),
                    forall|r: int| 0 <= r < rows && !(i < r < k) ==> #[trigger] m@[r] == m0[r],
                    forall|r: int|
                        i < r < k ==> #[trigger] m@[r] == elim_row(m0, i as int, r),
                decreases rows - k,
            {
                if j < cols {
                    proof {
                        assert(elim_active(m0, i as int));
                        assert(elim_one_fits(m0, i as int, k as int));
                        assert(m@[i as int] == m0[i as int]);
                        assert(m@[k as int] == m0[k as int]);
                    }
                    let factor = m.get(k, j).div(&m.get(i, j)).neg();
                    proof {
                        assert(factor@ == elim_factor(m0, i as int, k as int));
                    }
                    m.e_row_sum(k, i, factor);
                } else {
                    proof {
                        lemma_lz(m0[i as int]);
                        assert(!elim_active(m0, i as int));
                        assert(elim_row(m0, i as int, k as int) == m0[k as int]);
                    }
                }
                k += 1;
            }
            proof {
                assert(m@ =~= elim_below(m0, i as int, i as int + 1));
                lemma_elim_below_shape(m0, i as int, i as int + 1);
            }
            i += 1;
        }
        proof {
            assert(forward(m@, rows as int) == m@);
            assert(forward(self@, 0) == m@);
        }
        let r = sort_rows_exec(m);
        proof {
            lemma_forward_shape(self@, 0);
            lemma_sort_rows_shape(forward(self@, 0), spec_cols(self@));
            assert(forall|t: int|
                0 <= t < r.0@.len() ==> (#[trigger] r.0@[t]).len() == spec_cols(self@));
            assert(mat_wf(r.0@));
        }
        r
    }

    /// Row echelon form: Gaussian elimination without row exchange (the
    /// pivot of a row is its first nonzero entry, and a zero pivot is never
    /// repaired), then a stable sort of the rows by leading-zero count.
    pub fn row_echelon_form(&self) -> (r: Matrix)
        requires
            self.wf(),
            self@.len() > 0 ==> spec_cols(self@) > 0,
            ref_fits(self@),
        ensures
            r@ == spec_ref(self@),
            r.wf(),
            r@.len() == self@.len(),
            spec_cols(r@) == spec_cols(self@),
    {
        let e = self.echelon_with_parity();
        e.0
    }

    /// Determinant of a square matrix: the product of the diagonal of its
    /// row echelon form, negated when the final staircase reordering is an
    /// odd permutation, so that the result is the exact determinant; one
    /// for the empty matrix.
    pub fn det(&self) -> (r: Fraction)
        requires
            self.wf(),
            spec_square(self@),
            det_fits(self@),
        ensures
            r@ == spec_det(self@),
            self@.len() == 0 ==> r@ == crate::frac::rat_one(),
    {
        detail::check_square(self);
        let e = self.echelon_with_parity();
        let u = e.0;
        let odd = e.1;
        let mut d = Fraction::one();
        let n = u.row_size();
        let mut i: usize = 0;
        while i < n
            invariant
                i <= n,
                u.wf(),
                u@ == spec_ref(self@),
                n == u@.len(),
                n == self@.len(),
                spec_cols(u@) == n,
                det_fits(self@),
                d@ == spec_diag_prod(spec_ref(self@), i as int),
            decreases n - i,
        {
            proof {
                assert(rat_in_range(spec_diag_prod(spec_ref(self@), i + 1)));
                assert(spec_diag_prod(spec_ref(self@), i + 1) == rat_mul(
                    spec_diag_prod(spec_ref(self@), i as int),
                    u@[i as int][i as int],
                ));
            }
            d = d.mul(&u.get(i, i));
            i += 1;
        }
        if odd {
            d.neg()
        } else {
            d
        }
    }

    /// Rank: the number of rows of the echelon form that are not all zero.
    pub fn rank(&self) -> (r: usize)
        requires
            self.wf(),
            self@.len() > 0 ==> spec_cols(self@) > 0,
            ref_fits(self@),
        ensures
            r as int == spec_rank(self@),
            r <= self@.len(),
    {
        let u = self.row_echelon_form();
        let n = u.row_size();
        let mut zeros: usize = 0;
        let mut i: usize = 0;
        while i < n
            invariant
                i <= n,
                u.wf(),
                u@ == spec_ref(self@),
                n == u@.len(),
                n == self@.len(),
                n > 0 ==> spec_cols(u@) > 0,
                zeros as int == count_zero_rows(u@.take(i as int)),
                zeros <= i,
            decreases n - i,
        {
            proof {
                assert(u@.take(i + 1).drop_last() =~= u@.take(i as int));
                assert(u@.take(i + 1).last() == u@[i as int]);
            }
            if u.row(i).is_zero() {
                zeros += 1;
            }
            i += 1;
        }
        proof {
            assert(u@.take(n as int) =~= u@);
            lemma_count_zero_bounds(u@);
        }
        n - zeros
    }
}

} // verus!
