//! Algebraic laws of the matrix operations, proved against the models that
//! the executable functions are specified by.

use vstd::prelude::*;

use crate::frac::{
    lemma_norm_canonical_id, lemma_rat_add_cancel, lemma_rat_add_sub_cancel, lemma_rat_add_zero,
    lemma_rat_div_mul_cancel, lemma_rat_mul_cancel, lemma_rat_mul_comm, lemma_rat_mul_one,
    lemma_rat_mul_zero, lemma_rat_ops_canonical, rat_add, rat_canonical, rat_div, rat_mul, rat_one,
    rat_sub, rat_zero, Rat,
};
use crate::lu::{
    lemma_lu_entry_canonical, lemma_lu_sum_canonical, lu_entry, lu_pivots_ok, lu_shape, lu_sum,
    spec_lu_l, spec_lu_u,
};
use crate::canonical::{above_all, above_one, rref_n, scale_all, spec_rref};
use crate::cofactor::{spec_adj, spec_cofactor, spec_minor, spec_submatrix};
use crate::matrix::{
    mat_canonical, mat_wf, spec_col, spec_cols, spec_identity, spec_madd, spec_mmul, spec_mscale,
    spec_square, spec_transpose,
};
use crate::reduce::{
    elim_below, forward, insert_odd, insert_row, sort_odd, sort_rows, spec_det, spec_diag_prod,
    spec_ref,
};
use crate::vector::{spec_dot, spec_vadd, spec_vscale};

verus! {

/// The dot product of two equal-length rows does not depend on the order
/// of its operands.
pub proof fn lemma_dot_comm(a: Seq<Rat>, b: Seq<Rat>)
    requires
        a.len() == b.len(),
    ensures
        spec_dot(a, b) == spec_dot(b, a),
    decreases a.len(),
{
    if a.len() > 0 {
        lemma_dot_comm(a.drop_last(), b.drop_last());
        lemma_rat_mul_comm(a.last(), b.last());
    }
}

/// Transposition distributes over the sum: `(A + B)^T == A^T + B^T` for
/// rectangular matrices of identical shape.
pub proof fn lemma_transpose_add(a: Seq<Seq<Rat>>, b: Seq<Seq<Rat>>)
    requires
        mat_wf(a),
        mat_wf(b),
        a.len() == b.len(),
        spec_cols(a) == spec_cols(b),
    ensures
        spec_transpose(spec_madd(a, b)) == spec_madd(spec_transpose(a), spec_transpose(b)),
{
    let lhs = spec_transpose(spec_madd(a, b));
    let rhs = spec_madd(spec_transpose(a), spec_transpose(b));
    assert(spec_cols(spec_madd(a, b)) == spec_cols(a)) by {
        if a.len() > 0 {
            assert(spec_madd(a, b)[0] == spec_vadd(a[0], b[0]));
        }
    }
    assert forall|j: int| 0 <= j < lhs.len() implies lhs[j] == rhs[j] by {
        assert forall|i: int| 0 <= i < a.len() implies lhs[j][i] == rhs[j][i] by {
            assert(lhs[j][i] == spec_madd(a, b)[i][j]);
            assert(spec_madd(a, b)[i][j] == rat_add(a[i][j], b[i][j]));
            assert(rhs[j][i] == rat_add(spec_transpose(a)[j][i], spec_transpose(b)[j][i]));
        }
        assert(lhs[j] =~= rhs[j]);
    }
    assert(lhs =~= rhs);
}

/// Transposition reverses the product: `(A * B)^T == B^T * A^T` for
/// rectangular matrices with agreeing inner dimensions.
pub proof fn lemma_transpose_mul(a: Seq<Seq<Rat>>, b: Seq<Seq<Rat>>)
    requires
        mat_wf(a),
        mat_wf(b),
        spec_cols(a) == b.len(),
    ensures
        spec_transpose(spec_mmul(a, b)) == spec_mmul(spec_transpose(b), spec_transpose(a)),
{
    let lhs = spec_transpose(spec_mmul(a, b));
    let rhs = spec_mmul(spec_transpose(b), spec_transpose(a));
    assert(spec_cols(spec_mmul(a, b)) == if a.len() == 0 {
        0int
    } else {
        spec_cols(b)
    });
    if a.len() == 0 {
        assert(lhs =~= rhs);
    } else {
        assert(lhs.len() == spec_cols(b));
        assert(rhs.len() == spec_cols(b));
        assert forall|c: int| 0 <= c < lhs.len() implies lhs[c] == rhs[c] by {
            assert(lhs[c].len() == a.len());
            assert(rhs[c].len() == spec_cols(spec_transpose(a)));
            assert(spec_cols(spec_transpose(a)) == a.len());
            assert forall|r: int| 0 <= r < a.len() implies lhs[c][r] == rhs[c][r] by {
                assert(lhs[c][r] == spec_mmul(a, b)[r][c]);
                assert(spec_mmul(a, b)[r][c] == spec_dot(a[r], spec_col(b, c)));
                assert(rhs[c][r] == spec_dot(
                    spec_transpose(b)[c],
                    spec_col(spec_transpose(a), r),
                ));
                assert(spec_transpose(b)[c] =~= spec_col(b, c));
                assert(spec_col(spec_transpose(a), r) =~= a[r]);
                lemma_dot_comm(spec_col(b, c), a[r]);
            }
            assert(lhs[c] =~= rhs[c]);
        }
        assert(lhs =~= rhs);
    }
}

/// Splitting the rows at any valid boundary and recombining reconstructs
/// the matrix exactly: the two halves of `split_row` put back together by
/// `expand_row` are the original matrix.
pub proof fn lemma_split_row_expand_row(m: Seq<Seq<Rat>>, k: int)
    requires
        0 <= k <= m.len(),
    ensures
        m.take(k) + m.skip(k) == m,
{
    assert(m.take(k) + m.skip(k) =~= m);
}

/// The dot product of a prefix of row `j` of `L` with the matching prefix
/// of column `i` of `U` is the Doolittle partial sum.
proof fn lemma_lu_dot_prefix(a: Seq<Seq<Rat>>, j: int, i: int, t: int)
    requires
        mat_wf(a),
        spec_square(a),
        mat_canonical(a),
        lu_pivots_ok(a),
        0 <= j < a.len(),
        0 <= i < a.len(),
        0 <= t,
        t <= j,
        t <= i + 1,
    ensures
        spec_dot(spec_lu_l(a)[j].take(t), spec_col(spec_lu_u(a), i).take(t)) == lu_sum(a, j, i, t),
    decreases t,
{
    let x = spec_lu_l(a)[j];
    let y = spec_col(spec_lu_u(a), i);
    if t == 0 {
        assert(x.take(0) =~= Seq::<Rat>::empty());
        assert(y.take(0) =~= Seq::<Rat>::empty());
    } else {
        lemma_lu_dot_prefix(a, j, i, t - 1);
        assert(x.take(t).drop_last() =~= x.take(t - 1));
        assert(y.take(t).drop_last() =~= y.take(t - 1));
        assert(x.take(t).last() == x[t - 1]);
        assert(y.take(t).last() == y[t - 1]);
        assert(x[t - 1] == lu_entry(a, true, j, t - 1));
        assert(y[t - 1] == spec_lu_u(a)[t - 1][i]);
        assert(spec_lu_u(a)[t - 1][i] == lu_entry(a, false, t - 1, i));
    }
}

/// A dot product whose remaining terms are all zero keeps the value of its
/// prefix.
proof fn lemma_dot_tail_const(x: Seq<Rat>, y: Seq<Rat>, s: int, v: Rat)
    requires
        x.len() == y.len(),
        0 <= s <= x.len(),
        spec_dot(x.take(s), y.take(s)) == v,
        rat_canonical(v),
        forall|t: int| s <= t < x.len() ==> #[trigger] rat_mul(x[t], y[t]) == rat_zero(),
    ensures
        spec_dot(x, y) == v,
    decreases x.len() - s,
{
    if s == x.len() {
        assert(x.take(s) =~= x);
        assert(y.take(s) =~= y);
    } else {
        assert(x.take(s + 1).drop_last() =~= x.take(s));
        assert(y.take(s + 1).drop_last() =~= y.take(s));
        assert(x.take(s + 1).last() == x[s]);
        assert(y.take(s + 1).last() == y[s]);
        assert(rat_mul(x[s], y[s]) == rat_zero());
        lemma_rat_add_zero(v);
        assert(spec_dot(x.take(s + 1), y.take(s + 1)) == v);
        lemma_dot_tail_const(x, y, s + 1, v);
    }
}

/// A dot product whose leading terms are all zero starts from zero.
proof fn lemma_dot_prefix_zeros(x: Seq<Rat>, y: Seq<Rat>, t: int)
    requires
        x.len() == y.len(),
        0 <= t <= x.len(),
        forall|s: int| 0 <= s < t ==> #[trigger] rat_mul(x[s], y[s]) == rat_zero(),
    ensures
        spec_dot(x.take(t), y.take(t)) == rat_zero(),
    decreases t,
{
    if t == 0 {
        assert(x.take(0) =~= Seq::<Rat>::empty());
        assert(y.take(0) =~= Seq::<Rat>::empty());
    } else {
        lemma_dot_prefix_zeros(x, y, t - 1);
        assert(x.take(t).drop_last() =~= x.take(t - 1));
        assert(y.take(t).drop_last() =~= y.take(t - 1));
        assert(x.take(t).last() == x[t - 1]);
        assert(y.take(t).last() == y[t - 1]);
        assert(rat_mul(x[t - 1], y[t - 1]) == rat_zero());
        lemma_rat_ops_canonical(rat_zero(), rat_one());
        lemma_rat_add_zero(rat_zero());
    }
}

/// The identity is a left unit of the product: `I * A == A` for a
/// rectangular matrix of canonical entries.
pub proof fn lemma_mmul_identity_left(a: Seq<Seq<Rat>>)
    requires
        mat_wf(a),
        mat_canonical(a),
    ensures
        spec_mmul(spec_identity(a.len() as int), a) == a,
{
    let n = a.len() as int;
    let ident = spec_identity(n);
    let p = spec_mmul(ident, a);
    assert(p.len() == n);
    assert forall|j: int| 0 <= j < n implies p[j] == a[j] by {
        assert(p[j].len() == spec_cols(a));
        assert(a[j].len() == spec_cols(a));
        assert forall|i: int| 0 <= i < spec_cols(a) implies p[j][i] == a[j][i] by {
            let x = ident[j];
            let y = spec_col(a, i);
            assert(p[j][i] == spec_dot(x, y));
            assert(rat_canonical(a[j][i]));
            assert forall|s: int| 0 <= s < j implies #[trigger] rat_mul(x[s], y[s])
                == rat_zero() by {
                assert(x[s] == rat_zero());
                lemma_rat_mul_zero(y[s]);
            }
            lemma_dot_prefix_zeros(x, y, j);
            assert(x.take(j + 1).drop_last() =~= x.take(j));
            assert(y.take(j + 1).drop_last() =~= y.take(j));
            assert(x.take(j + 1).last() == x[j]);
            assert(y.take(j + 1).last() == y[j]);
            assert(x[j] == rat_one());
            assert(y[j] == a[j][i]);
            lemma_rat_mul_one(a[j][i]);
            lemma_rat_add_zero(a[j][i]);
            assert(spec_dot(x.take(j + 1), y.take(j + 1)) == a[j][i]);
            assert forall|s: int| j + 1 <= s < n implies #[trigger] rat_mul(x[s], y[s])
                == rat_zero() by {
                assert(x[s] == rat_zero());
                lemma_rat_mul_zero(y[s]);
            }
            lemma_dot_tail_const(x, y, j + 1, a[j][i]);
        }
        assert(p[j] =~= a[j]);
    }
    assert(p =~= a);
}

/// The Doolittle factors multiply back to the matrix: `L * U == A` for a
/// square matrix of canonical entries whose read pivots are all nonzero.
pub proof fn lemma_lu_product(a: Seq<Seq<Rat>>)
    requires
        mat_wf(a),
        spec_square(a),
        mat_canonical(a),
        lu_pivots_ok(a),
    ensures
        spec_mmul(spec_lu_l(a), spec_lu_u(a)) == a,
{
    let n = a.len() as int;
    let l = spec_lu_l(a);
    let u = spec_lu_u(a);
    let p = spec_mmul(l, u);
    assert(spec_cols(u) == n) by {
        if n > 0 {
            assert(u[0].len() == n);
        }
    }
    assert forall|j: int| 0 <= j < n implies p[j] == a[j] by {
        assert forall|i: int| 0 <= i < n implies p[j][i] == a[j][i] by {
            let x = l[j];
            let y = spec_col(u, i);
            assert(p[j][i] == spec_dot(x, y));
            assert(rat_canonical(a[j][i]));
            if j <= i {
                lemma_lu_dot_prefix(a, j, i, j);
                let sum = lu_sum(a, j, i, j);
                lemma_lu_sum_canonical(a, j, i, j);
                lemma_lu_entry_canonical(a, false, j, i);
                assert(x.take(j + 1).drop_last() =~= x.take(j));
                assert(y.take(j + 1).drop_last() =~= y.take(j));
                assert(x.take(j + 1).last() == x[j]);
                assert(y.take(j + 1).last() == y[j]);
                assert(x[j] == rat_one());
                assert(y[j] == lu_entry(a, false, j, i));
                lemma_rat_mul_one(lu_entry(a, false, j, i));
                assert(lu_entry(a, false, j, i) == rat_sub(a[j][i], sum));
                lemma_rat_add_sub_cancel(sum, a[j][i]);
                assert(spec_dot(x.take(j + 1), y.take(j + 1)) == a[j][i]);
                assert forall|t: int| j + 1 <= t < n implies #[trigger] rat_mul(x[t], y[t])
                    == rat_zero() by {
                    assert(x[t] == rat_zero());
                    lemma_rat_mul_zero(y[t]);
                }
                lemma_dot_tail_const(x, y, j + 1, a[j][i]);
            } else {
                lemma_lu_dot_prefix(a, j, i, i);
                let sum = lu_sum(a, j, i, i);
                let s = rat_sub(a[j][i], sum);
                let piv = lu_entry(a, false, i, i);
                lemma_lu_sum_canonical(a, j, i, i);
                lemma_lu_entry_canonical(a, false, i, i);
                lemma_rat_ops_canonical(a[j][i], sum);
                assert(piv.n != 0);
                lemma_rat_div_mul_cancel(s, piv);
                assert(x.take(i + 1).drop_last() =~= x.take(i));
                assert(y.take(i + 1).drop_last() =~= y.take(i));
                assert(x.take(i + 1).last() == x[i]);
                assert(y.take(i + 1).last() == y[i]);
                assert(x[i] == lu_entry(a, true, j, i));
                assert(y[i] == piv);
                assert(lu_entry(a, true, j, i) == rat_div(s, piv));
                assert(rat_mul(x[i], y[i]) == s);
                lemma_rat_add_sub_cancel(sum, a[j][i]);
                assert(spec_dot(x.take(i + 1), y.take(i + 1)) == a[j][i]);
                assert forall|t: int| i + 1 <= t < n implies #[trigger] rat_mul(x[t], y[t])
                    == rat_zero() by {
                    assert(y[t] == rat_zero());
                    lemma_rat_mul_zero(x[t]);
                }
                lemma_dot_tail_const(x, y, i + 1, a[j][i]);
            }
        }
        assert(p[j] =~= a[j]);
    }
    assert(p =~= a);
}

/// The reduced row echelon transform is idempotent, here for single-row
/// matrices: a second pass changes nothing, whether or not the one
/// assumed diagonal pivot was zero.
pub proof fn lemma_rref_idempotent_single_row(a: Seq<Seq<Rat>>)
    requires
        mat_wf(a),
        mat_canonical(a),
        a.len() == 1,
        spec_cols(a) >= 1,
    ensures
        spec_rref(spec_rref(a)) == spec_rref(a),
{
    let c = spec_cols(a);
    lemma_ref_small(a);
    assert(rref_n(a) == 1);
    assert(above_all(above_one(a, 0), 1, 1) == above_one(a, 0));
    assert(above_one(a, 0) =~= a);
    assert(above_all(a, 0, 1) == a);
    let r = spec_rref(a);
    assert(r == scale_all(a, 1));
    let a00 = a[0][0];
    assert(rat_canonical(a00));
    if a00.n == 0 {
        assert(scale_all(a, 1) =~= a);
        assert(r == a);
    } else {
        let k = rat_div(rat_one(), a00);
        lemma_rat_ops_canonical(rat_one(), a00);
        assert(r.len() == 1);
        assert(r[0] == spec_vscale(a[0], k));
        assert(r[0].len() == c);
        assert(spec_cols(r) == c);
        assert(mat_wf(r)) by {
            assert(forall|t: int| 0 <= t < r.len() ==> (#[trigger] r[t]).len() == spec_cols(r));
        }
        assert(r[0][0] == rat_mul(a00, k));
        lemma_rat_mul_comm(a00, k);
        lemma_rat_div_mul_cancel(rat_one(), a00);
        assert(r[0][0] == rat_one());
        lemma_ref_small(r);
        assert(rref_n(r) == 1);
        assert(above_all(above_one(r, 0), 1, 1) == above_one(r, 0));
        assert(above_one(r, 0) =~= r);
        assert(above_all(r, 0, 1) == r);
        assert(spec_rref(r) == scale_all(r, 1));
        let k2 = rat_div(rat_one(), rat_one());
        lemma_rat_ops_canonical(rat_one(), rat_one());
        lemma_norm_canonical_id(rat_one());
        assert(k2 == rat_one());
        assert forall|t: int| 0 <= t < c implies rat_mul(r[0][t], k2) == r[0][t] by {
            assert(rat_canonical(a[0][t]));
            lemma_rat_ops_canonical(a[0][t], k);
            assert(rat_canonical(r[0][t]));
            lemma_rat_mul_one(r[0][t]);
        }
        assert(scale_all(r, 1)[0] == spec_vscale(r[0], k2));
        assert(spec_vscale(r[0], k2) =~= r[0]);
        assert(scale_all(r, 1) =~= r);
    }
}

/// The echelon form of a matrix with at most one row is the matrix
/// itself, and its trivial sort is an even permutation.
proof fn lemma_ref_small(a: Seq<Seq<Rat>>)
    requires
        a.len() <= 1,
    ensures
        spec_ref(a) == a,
        forward(a, 0) == a,
        !sort_odd(forward(a, 0)),
{
    if a.len() == 0 {
        assert(forward(a, 0) == a);
        assert(sort_rows(a) == a);
        assert(!sort_odd(a));
    } else {
        assert(elim_below(a, 0, 1) =~= a);
        assert(forward(a, 1) == a);
        assert(forward(a, 0) == a);
        assert(sort_rows(a.drop_last()) == a.drop_last());
        assert(a.drop_last().len() == 0);
        assert(insert_row(a.drop_last(), a.last()) =~= a);
        assert(!sort_odd(a.drop_last()));
        assert(!insert_odd(sort_rows(a.drop_last()), a.last()));
        assert(!sort_odd(a));
    }
}

/// The adjugate identity `A * adj(A) == adj(A) * A == det(A) * I`, here
/// for square matrices of dimension at most one.
pub proof fn lemma_adjugate_identity_small(a: Seq<Seq<Rat>>)
    requires
        mat_wf(a),
        spec_square(a),
        mat_canonical(a),
        a.len() <= 1,
    ensures
        spec_mmul(a, spec_adj(a)) == spec_mscale(spec_identity(a.len() as int), spec_det(a)),
        spec_mmul(spec_adj(a), a) == spec_mscale(spec_identity(a.len() as int), spec_det(a)),
{
    let adj = spec_adj(a);
    let rhs = spec_mscale(spec_identity(a.len() as int), spec_det(a));
    if a.len() == 0 {
        assert(spec_mmul(a, adj) =~= rhs);
        assert(spec_cols(adj) == 0);
        assert(spec_mmul(adj, a) =~= rhs);
    } else {
        let a00 = a[0][0];
        assert(rat_canonical(a00));
        lemma_ref_small(a);
        assert(spec_det(a) == rat_mul(spec_diag_prod(a, 0), a00));
        lemma_rat_mul_one(a00);
        assert(spec_det(a) == a00);
        let sub = spec_submatrix(a, 0, 0);
        assert(sub.len() == 0);
        lemma_ref_small(sub);
        assert(spec_det(sub) == rat_one());
        assert(spec_minor(a)[0][0] == rat_one());
        assert(spec_cofactor(a)[0][0] == rat_one());
        assert(spec_cols(spec_cofactor(a)) == 1);
        assert(adj.len() == 1);
        assert(adj[0].len() == 1);
        assert(adj[0][0] == rat_one());
        let col = spec_col(adj, 0);
        assert(col =~= seq![rat_one()]);
        let row = a[0];
        assert(row.len() == 1);
        assert(spec_dot(row, col) == rat_add(
            spec_dot(row.drop_last(), col.drop_last()),
            rat_mul(row.last(), col.last()),
        ));
        assert(row.drop_last().len() == 0);
        lemma_rat_add_zero(a00);
        assert(spec_dot(row, col) == a00);
        assert(rhs[0][0] == rat_mul(rat_one(), spec_det(a)));
        assert(rhs[0][0] == a00);
        assert(spec_mmul(a, adj)[0] =~= rhs[0]);
        assert(spec_mmul(a, adj) =~= rhs);
        let cola = spec_col(a, 0);
        assert(cola =~= seq![a00]);
        assert(spec_dot(adj[0], cola) == rat_add(
            spec_dot(adj[0].drop_last(), cola.drop_last()),
            rat_mul(adj[0].last(), cola.last()),
        ));
        assert(spec_dot(adj[0], cola) == a00);
        assert(spec_mmul(adj, a)[0] =~= rhs[0]);
        assert(spec_mmul(adj, a) =~= rhs);
    }
}

/// The dot product of a prefix of row `j` of any properly shaped factor
/// pair with product `a` matches the Doolittle partial sum.
proof fn lemma_unique_sum(a: Seq<Seq<Rat>>, l: Seq<Seq<Rat>>, u: Seq<Seq<Rat>>, j: int, i: int, t: int)
    requires
        mat_wf(a),
        spec_square(a),
        mat_canonical(a),
        lu_pivots_ok(a),
        lu_shape(a, l, u),
        spec_mmul(l, u) == a,
        0 <= j < a.len(),
        0 <= i < a.len(),
        0 <= t,
        t <= j,
        t <= i + 1,
    ensures
        spec_dot(l[j].take(t), spec_col(u, i).take(t)) == lu_sum(a, j, i, t),
    decreases 2 * t, 0int,
{
    let x = l[j];
    let y = spec_col(u, i);
    if t <= 0 {
        assert(x.take(0) =~= Seq::<Rat>::empty());
        assert(y.take(0) =~= Seq::<Rat>::empty());
    } else {
        lemma_unique_sum(a, l, u, j, i, t - 1);
        lemma_unique_entry(a, l, u, true, j, t - 1);
        lemma_unique_entry(a, l, u, false, t - 1, i);
        assert(x.take(t).drop_last() =~= x.take(t - 1));
        assert(y.take(t).drop_last() =~= y.take(t - 1));
        assert(x.take(t).last() == x[t - 1]);
        assert(y.take(t).last() == y[t - 1]);
        assert(x[t - 1] == lu_entry(a, true, j, t - 1));
        assert(y[t - 1] == u[t - 1][i]);
        assert(u[t - 1][i] == lu_entry(a, false, t - 1, i));
    }
}

/// Each entry of a properly shaped factor pair with product `a` is forced
/// to be the corresponding Doolittle entry.
proof fn lemma_unique_entry(
    a: Seq<Seq<Rat>>,
    l: Seq<Seq<Rat>>,
    u: Seq<Seq<Rat>>,
    lower: bool,
    j: int,
    i: int,
)
    requires
        mat_wf(a),
        spec_square(a),
        mat_canonical(a),
        lu_pivots_ok(a),
        lu_shape(a, l, u),
        spec_mmul(l, u) == a,
        !lower ==> 0 <= j <= i < a.len(),
        lower ==> 0 <= i < j < a.len(),
    ensures
        !lower ==> u[j][i] == lu_entry(a, false, j, i),
        lower ==> l[j][i] == lu_entry(a, true, j, i),
    decreases
            (if lower {
                2 * i + 1
            } else {
                2 * j
            }),
            1int,
{
    let n = a.len() as int;
    let x = l[j];
    let y = spec_col(u, i);
    assert(spec_cols(u) == n) by {
        assert(u[0].len() == n);
    }
    assert(spec_mmul(l, u)[j][i] == spec_dot(x, y));
    assert(a[j][i] == spec_dot(x, y));
    assert(rat_canonical(a[j][i]));
    if lower {
        lemma_unique_sum(a, l, u, j, i, i);
        let s = lu_sum(a, j, i, i);
        lemma_lu_sum_canonical(a, j, i, i);
        lemma_unique_entry(a, l, u, false, i, i);
        let piv = lu_entry(a, false, i, i);
        assert(u[i][i] == piv);
        lemma_lu_entry_canonical(a, false, i, i);
        assert(piv.n != 0);
        assert(rat_canonical(l[j][i]));
        let term = rat_mul(l[j][i], piv);
        lemma_rat_ops_canonical(l[j][i], piv);
        lemma_rat_ops_canonical(s, term);
        let v = rat_add(s, term);
        assert(x.take(i + 1).drop_last() =~= x.take(i));
        assert(y.take(i + 1).drop_last() =~= y.take(i));
        assert(x.take(i + 1).last() == x[i]);
        assert(y.take(i + 1).last() == y[i]);
        assert(x[i] == l[j][i]);
        assert(y[i] == u[i][i]);
        assert(spec_dot(x.take(i + 1), y.take(i + 1)) == v);
        assert forall|k: int| i + 1 <= k < n implies #[trigger] rat_mul(x[k], y[k])
            == rat_zero() by {
            assert(y[k] == u[k][i]);
            assert(u[k][i] == rat_zero());
            lemma_rat_mul_zero(x[k]);
        }
        lemma_dot_tail_const(x, y, i + 1, v);
        assert(v == a[j][i]);
        lemma_rat_add_cancel(s, term, a[j][i]);
        assert(term == rat_sub(a[j][i], s));
        lemma_rat_ops_canonical(a[j][i], s);
        lemma_rat_mul_cancel(l[j][i], piv, rat_sub(a[j][i], s));
        assert(l[j][i] == rat_div(rat_sub(a[j][i], s), piv));
    } else {
        lemma_unique_sum(a, l, u, j, i, j);
        let s = lu_sum(a, j, i, j);
        lemma_lu_sum_canonical(a, j, i, j);
        assert(rat_canonical(u[j][i]));
        lemma_rat_ops_canonical(s, u[j][i]);
        let v = rat_add(s, u[j][i]);
        assert(x.take(j + 1).drop_last() =~= x.take(j));
        assert(y.take(j + 1).drop_last() =~= y.take(j));
        assert(x.take(j + 1).last() == x[j]);
        assert(y.take(j + 1).last() == y[j]);
        assert(x[j] == rat_one());
        assert(y[j] == u[j][i]);
        lemma_rat_mul_one(u[j][i]);
        assert(spec_dot(x.take(j + 1), y.take(j + 1)) == v);
        assert forall|k: int| j + 1 <= k < n implies #[trigger] rat_mul(x[k], y[k])
            == rat_zero() by {
            assert(x[k] == rat_zero());
            lemma_rat_mul_zero(y[k]);
        }
        lemma_dot_tail_const(x, y, j + 1, v);
        assert(v == a[j][i]);
        lemma_rat_add_cancel(s, u[j][i], a[j][i]);
        assert(u[j][i] == rat_sub(a[j][i], s));
    }
}

/// The Doolittle factorization is unique: any pair of the proper shape —
/// unit lower triangular `l`, upper triangular `u`, canonical entries —
/// whose product is `a` equals the Doolittle factors of `a`.
pub proof fn lemma_lu_unique(a: Seq<Seq<Rat>>, l: Seq<Seq<Rat>>, u: Seq<Seq<Rat>>)
    requires
        mat_wf(a),
        spec_square(a),
        mat_canonical(a),
        lu_pivots_ok(a),
        lu_shape(a, l, u),
        spec_mmul(l, u) == a,
    ensures
        l == spec_lu_l(a),
        u == spec_lu_u(a),
{
    let n = a.len() as int;
    assert forall|j: int| 0 <= j < n implies l[j] == spec_lu_l(a)[j] by {
        assert forall|i: int| 0 <= i < n implies l[j][i] == spec_lu_l(a)[j][i] by {
            if j > i {
                lemma_unique_entry(a, l, u, true, j, i);
            }
        }
        assert(l[j] =~= spec_lu_l(a)[j]);
    }
    assert(l =~= spec_lu_l(a));
    assert forall|j: int| 0 <= j < n implies u[j] == spec_lu_u(a)[j] by {
        assert forall|i: int| 0 <= i < n implies u[j][i] == spec_lu_u(a)[j][i] by {
            if j <= i {
                lemma_unique_entry(a, l, u, false, j, i);
            }
        }
        assert(u[j] =~= spec_lu_u(a)[j]);
    }
    assert(u =~= spec_lu_u(a));
}

/// The lower Doolittle factor is unit lower triangular and the upper one
/// upper triangular: ones on the diagonal of `L`, zeros above it, and
/// zeros below the diagonal of `U`.
pub proof fn lemma_lu_triangular(a: Seq<Seq<Rat>>)
    ensures
        forall|i: int| 0 <= i < a.len() ==> #[trigger] spec_lu_l(a)[i][i] == rat_one(),
        forall|j: int, i: int|
            0 <= j < i < a.len() ==> #[trigger] spec_lu_l(a)[j][i] == rat_zero(),
        forall|j: int, i: int|
            0 <= i < j < a.len() ==> #[trigger] spec_lu_u(a)[j][i] == rat_zero(),
{
}

} // verus!
