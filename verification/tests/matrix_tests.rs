use mymatrix::{Fraction, Matrix, Vector};

#[test]
fn construction_and_shape() {
    let m = Matrix::new();
    assert_eq!(m.row_size(), 0);
    assert_eq!(m.col_size(), 0);
    assert!(m.is_empty());
    let z = Matrix::zeros(2, 3);
    assert_eq!(z.row_size(), 2);
    assert_eq!(z.col_size(), 3);
    assert_eq!(z.get(1, 2), Fraction::zero());
    let o = Matrix::ones(2, 2);
    assert_eq!(o.get(0, 1), Fraction::one());
    let i = Matrix::identity(3);
    assert_eq!(i.get(0, 0), Fraction::one());
    assert_eq!(i.get(0, 1), Fraction::zero());
}

#[test]
fn default_values_are_empty() {
    assert_eq!(Matrix::default(), Matrix::new());
    assert_eq!(Vector::default(), Vector::new());
    assert!(Matrix::default().is_empty());
}

#[test]
fn shape_predicates() {
    let s = Matrix::from_ints(vec![vec![1, 2], vec![2, 5]]);
    assert!(s.is_symmetric());
    let ns = Matrix::from_ints(vec![vec![1, 2], vec![3, 5]]);
    assert!(!ns.is_symmetric());
    let u = Matrix::from_ints(vec![vec![1, 2], vec![0, 3]]);
    assert!(u.is_upper());
    assert!(!u.is_lower());
    let l = Matrix::from_ints(vec![vec![1, 0], vec![4, 3]]);
    assert!(l.is_lower());
    assert!(!l.is_upper());
    let d = Matrix::from_ints(vec![vec![2, 0], vec![0, 3]]);
    assert!(d.is_diagonal());
    assert!(!u.is_diagonal());
    let rect = Matrix::from_ints(vec![vec![1, 2, 3], vec![4, 5, 6]]);
    assert!(!rect.is_symmetric());
    assert!(!rect.is_upper());
}

#[test]
fn trace_of_square_matrix() {
    let m = Matrix::from_ints(vec![vec![1, 2], vec![3, 4]]);
    assert_eq!(m.trace(), Fraction::from_int(5));
    assert_eq!(Matrix::new().trace(), Fraction::zero());
}

#[test]
fn transpose_matrix() {
    let m = Matrix::from_ints(vec![vec![1, 2, 3], vec![4, 5, 6]]);
    let t = m.transpose();
    assert_eq!(t, Matrix::from_ints(vec![vec![1, 4], vec![2, 5], vec![3, 6]]));
    assert_eq!(t.transpose(), m);
}

#[test]
fn transpose_distributes_over_sum() {
    let a = Matrix::from_ints(vec![vec![1, 2], vec![3, 4], vec![5, 6]]);
    let b = Matrix::from_ints(vec![vec![7, 8], vec![9, 1], vec![2, 3]]);
    assert_eq!(a.add(&b).transpose(), a.transpose().add(&b.transpose()));
}

#[test]
fn transpose_reverses_product() {
    let a = Matrix::from_ints(vec![vec![1, 2, 3], vec![4, 5, 6]]);
    let b = Matrix::from_ints(vec![vec![7, 8], vec![9, 1], vec![2, 3]]);
    assert_eq!(a.mul(&b).transpose(), b.transpose().mul(&a.transpose()));
}

#[test]
fn matrix_arithmetic() {
    let a = Matrix::from_ints(vec![vec![1, 2], vec![3, 4]]);
    let b = Matrix::from_ints(vec![vec![5, 6], vec![7, 8]]);
    assert_eq!(a.add(&b), Matrix::from_ints(vec![vec![6, 8], vec![10, 12]]));
    assert_eq!(b.sub(&a), Matrix::from_ints(vec![vec![4, 4], vec![4, 4]]));
    assert_eq!(
        a.scalar_mul(&Fraction::from_int(2)),
        Matrix::from_ints(vec![vec![2, 4], vec![6, 8]])
    );
    assert_eq!(a.mul(&b), Matrix::from_ints(vec![vec![19, 22], vec![43, 50]]));
}

#[test]
fn product_with_identity() {
    let a = Matrix::from_ints(vec![vec![1, 2], vec![3, 4]]);
    let i = Matrix::identity(2);
    assert_eq!(a.mul(&i), a);
    assert_eq!(i.mul(&a), a);
}

#[test]
fn echelon_form_of_singular_matrix() {
    let m = Matrix::from_ints(vec![vec![1, 2, 3], vec![4, 5, 6], vec![7, 8, 9]]);
    let e = m.row_echelon_form();
    assert_eq!(e.row_size(), 3);
    // the last row is eliminated to zero
    assert!(e.row(2).is_zero());
    assert!(!e.row(0).is_zero());
    assert!(!e.row(1).is_zero());
}

#[test]
fn echelon_form_sinks_zero_rows() {
    let m = Matrix::from_ints(vec![vec![0, 0], vec![1, 2]]);
    let e = m.row_echelon_form();
    assert_eq!(e.row(0).count_leading_zeros(), 0);
    assert_eq!(e.row(1).count_leading_zeros(), 2);
}

#[test]
fn determinant_scenarios() {
    let singular = Matrix::from_ints(vec![vec![1, 2, 3], vec![4, 5, 6], vec![7, 8, 9]]);
    assert_eq!(singular.det(), Fraction::zero());
    let regular = Matrix::from_ints(vec![vec![1, 2, 3], vec![4, 5, 6], vec![7, 8, 0]]);
    assert_eq!(regular.det(), Fraction::from_int(27));
    assert_eq!(Matrix::new().det(), Fraction::one());
    let two = Matrix::from_ints(vec![vec![1, 2], vec![3, 4]]);
    assert_eq!(two.det(), Fraction::from_int(-2));
}

#[test]
fn determinant_with_row_reordering() {
    // the staircase reordering after elimination is an odd permutation
    // here; the sign correction makes the result the exact determinant
    let m = Matrix::from_ints(vec![vec![0, 1], vec![1, 0]]);
    assert_eq!(m.det(), Fraction::from_int(-1));
    let n = Matrix::from_ints(vec![vec![0, 0, 1], vec![0, 1, 0], vec![1, 0, 0]]);
    assert_eq!(n.det(), Fraction::from_int(-1));
    let p = Matrix::from_ints(vec![vec![0, 1, 0], vec![0, 0, 1], vec![1, 0, 0]]);
    assert_eq!(p.det(), Fraction::from_int(1));
}

#[test]
fn rank_scenarios() {
    let m = Matrix::from_ints(vec![vec![1, 2, 3], vec![4, 5, 6], vec![7, 8, 9]]);
    assert_eq!(m.rank(), 2);
    assert_eq!(Matrix::identity(3).rank(), 3);
    assert_eq!(Matrix::zeros(2, 2).rank(), 0);
}

#[test]
fn row_canonical_form_scenario() {
    let m = Matrix::from_ints(vec![vec![1, 2], vec![3, 4], vec![5, 6]]);
    let r = m.row_canonical_form();
    assert_eq!(
        r,
        Matrix::from_ints(vec![vec![1, 0], vec![0, 1], vec![0, 0]])
    );
}

#[test]
fn row_canonical_form_idempotent() {
    let m = Matrix::from_ints(vec![vec![1, 2], vec![3, 4], vec![5, 6]]);
    let r = m.row_canonical_form();
    assert_eq!(r.row_canonical_form(), r);
    let singular = Matrix::from_ints(vec![vec![1, 2, 3], vec![4, 5, 6], vec![7, 8, 9]]);
    let rs = singular.row_canonical_form();
    assert_eq!(rs.row_canonical_form(), rs);
    let deficient = Matrix::from_ints(vec![vec![0, 2], vec![0, 0]]);
    let rd = deficient.row_canonical_form();
    assert_eq!(rd.row_canonical_form(), rd);
}

#[test]
fn inverse_scenario() {
    let m = Matrix::from_ints(vec![vec![1, 2], vec![3, 4]]);
    let inv = m.inv().unwrap();
    let expected = Matrix::from_rows(vec![
        Vector::from_fracs(vec![Fraction::from_int(-2), Fraction::from_int(1)]),
        Vector::from_fracs(vec![Fraction::new(3, 2), Fraction::new(-1, 2)]),
    ]);
    assert_eq!(inv, expected);
}

#[test]
fn inverse_times_original_is_identity() {
    let m = Matrix::from_ints(vec![vec![1, 2, 3], vec![4, 5, 6], vec![7, 8, 0]]);
    let inv = m.inv().unwrap();
    assert_eq!(m.mul(&inv), Matrix::identity(3));
    assert_eq!(inv.mul(&m), Matrix::identity(3));
}

#[test]
fn no_inverse_iff_rank_deficient() {
    let singular = Matrix::from_ints(vec![vec![1, 2, 3], vec![4, 5, 6], vec![7, 8, 9]]);
    assert!(singular.rank() < singular.row_size());
    assert!(singular.inv().is_none());
    let regular = Matrix::from_ints(vec![vec![1, 2], vec![3, 4]]);
    assert_eq!(regular.rank(), regular.row_size());
    assert!(regular.inv().is_some());
    assert!(Matrix::zeros(2, 2).inv().is_none());
}

#[test]
fn inverse_of_empty_matrix() {
    let e = Matrix::new();
    assert_eq!(e.inv().unwrap(), Matrix::new());
}

#[test]
fn submatrix_minor_cofactor_adjugate() {
    let m = Matrix::from_ints(vec![vec![1, 2], vec![3, 4]]);
    assert_eq!(m.submatrix(0, 1), Matrix::from_ints(vec![vec![3]]));
    assert_eq!(m.minor(), Matrix::from_ints(vec![vec![4, 3], vec![2, 1]]));
    assert_eq!(m.cofactor(), Matrix::from_ints(vec![vec![4, -3], vec![-2, 1]]));
    assert_eq!(m.adj(), Matrix::from_ints(vec![vec![4, -2], vec![-3, 1]]));
}

#[test]
fn adjugate_identity_two_by_two() {
    let a = Matrix::from_ints(vec![vec![1, 2], vec![3, 4]]);
    let d = a.det();
    assert_eq!(a.mul(&a.adj()), Matrix::identity(2).scalar_mul(&d));
    assert_eq!(a.adj().mul(&a), Matrix::identity(2).scalar_mul(&d));
    // det(adj(A)) == det(A)^(n-1) with n == 2
    assert_eq!(a.adj().det(), d);
}

#[test]
fn adjugate_identity_three_by_three() {
    let a = Matrix::from_ints(vec![vec![1, 2, 3], vec![4, 5, 6], vec![7, 8, 0]]);
    let d = a.det();
    assert_eq!(a.mul(&a.adj()), Matrix::identity(3).scalar_mul(&d));
    assert_eq!(a.adj().mul(&a), Matrix::identity(3).scalar_mul(&d));
    // det(adj(A)) == det(A)^(n-1) with n == 3
    assert_eq!(a.adj().det(), d.mul(&d));
    let u = Matrix::from_ints(vec![vec![2, 1, 1], vec![0, 3, 1], vec![0, 0, 5]]);
    let du = u.det();
    assert_eq!(u.adj().det(), du.mul(&du));
    assert_eq!(u.mul(&u.adj()), Matrix::identity(3).scalar_mul(&du));
}

#[test]
fn adjugate_identity_with_reordering_and_singularity() {
    // a matrix whose elimination reorders rows
    let a = Matrix::from_ints(vec![vec![0, 1], vec![1, 0]]);
    let d = a.det();
    assert_eq!(d, Fraction::from_int(-1));
    assert_eq!(a.mul(&a.adj()), Matrix::identity(2).scalar_mul(&d));
    assert_eq!(a.adj().mul(&a), Matrix::identity(2).scalar_mul(&d));
    // a singular matrix: both products are the zero matrix
    let s = Matrix::from_ints(vec![vec![2, 0, 1], vec![1, 3, 2], vec![1, 1, 1]]);
    assert_eq!(s.det(), Fraction::zero());
    assert_eq!(s.mul(&s.adj()), Matrix::zeros(3, 3));
    assert_eq!(s.adj().mul(&s), Matrix::zeros(3, 3));
}

#[test]
fn lu_decomposition_general_case() {
    let a = Matrix::from_ints(vec![vec![4, 3], vec![6, 3]]);
    let (l, u) = a.lu_decomposition();
    let expected_l = Matrix::from_rows(vec![
        Vector::from_fracs(vec![Fraction::from_int(1), Fraction::from_int(0)]),
        Vector::from_fracs(vec![Fraction::new(3, 2), Fraction::from_int(1)]),
    ]);
    let expected_u = Matrix::from_rows(vec![
        Vector::from_fracs(vec![Fraction::from_int(4), Fraction::from_int(3)]),
        Vector::from_fracs(vec![Fraction::from_int(0), Fraction::new(-3, 2)]),
    ]);
    assert_eq!(l, expected_l);
    assert_eq!(u, expected_u);
    assert_eq!(l.mul(&u), a);
    assert!(l.is_lower());
    assert!(u.is_upper());
}

#[test]
fn lu_decomposition_reconstructs_product() {
    let a = Matrix::from_ints(vec![vec![2, 1, 1], vec![4, 3, 3], vec![8, 7, 9]]);
    let (l, u) = a.lu_decomposition();
    assert_eq!(l.mul(&u), a);
    assert!(l.is_lower());
    assert!(u.is_upper());
    assert_eq!(l.get(0, 0), Fraction::one());
    assert_eq!(l.get(1, 1), Fraction::one());
    assert_eq!(l.get(2, 2), Fraction::one());
}

#[test]
fn lu_decomposition_triangular_special_cases() {
    let upper = Matrix::from_ints(vec![vec![1, 2], vec![0, 3]]);
    let (l, u) = upper.lu_decomposition();
    assert_eq!(l, Matrix::identity(2));
    assert_eq!(u, upper);
    assert_eq!(l.mul(&u), upper);
    let lower = Matrix::from_ints(vec![vec![1, 0], vec![4, 3]]);
    let (l2, u2) = lower.lu_decomposition();
    assert_eq!(l2, lower);
    assert_eq!(u2, Matrix::zeros(2, 2));
}

#[test]
fn split_and_expand_rows_reconstruct() {
    let m = Matrix::from_ints(vec![vec![1, 2], vec![3, 4], vec![5, 6]]);
    for k in 0..=m.row_size() {
        let (mut top, bottom) = m.split_row(k);
        top.expand_row(bottom);
        assert_eq!(top, m);
    }
}

#[test]
fn split_and_expand_cols_reconstruct() {
    let m = Matrix::from_ints(vec![vec![1, 2, 3], vec![4, 5, 6]]);
    for k in 0..=m.col_size() {
        let (mut left, right) = m.split_col(k);
        left.expand_col(right);
        assert_eq!(left, m);
    }
}

#[test]
fn elementary_row_operations() {
    let mut m = Matrix::from_ints(vec![vec![1, 2], vec![3, 4]]);
    m.e_row_swap(0, 1);
    assert_eq!(m, Matrix::from_ints(vec![vec![3, 4], vec![1, 2]]));
    m.e_scalar_multiplication(0, Fraction::from_int(2));
    assert_eq!(m, Matrix::from_ints(vec![vec![6, 8], vec![1, 2]]));
    m.e_row_sum(0, 1, Fraction::from_int(-2));
    assert_eq!(m, Matrix::from_ints(vec![vec![4, 4], vec![1, 2]]));
}

#[test]
fn guards_accept_valid_arguments() {
    mymatrix::detail::check_bounds(1, 0, 3);
    mymatrix::detail::check_empty(2);
    mymatrix::detail::check_size(4, 4);
    mymatrix::detail::check_square(&Matrix::identity(2));
}
