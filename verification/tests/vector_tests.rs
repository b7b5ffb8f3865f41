use mymatrix::{Fraction, Vector};

#[test]
fn construction_and_size() {
    let v = Vector::new();
    assert_eq!(v.size(), 0);
    assert!(v.is_empty());
    let z = Vector::zeros(3);
    assert_eq!(z.size(), 3);
    assert_eq!(z.get(2), Fraction::zero());
    let o = Vector::ones(2);
    assert_eq!(o.get(0), Fraction::one());
    let c = Vector::create(4, Fraction::new(5, 3));
    assert_eq!(c.get(3), Fraction::new(5, 3));
}

#[test]
fn leading_zeros_and_zero_vector() {
    let v = Vector::from_ints(vec![0, 0, 3]);
    assert_eq!(v.count_leading_zeros(), 2);
    assert!(!v.is_zero());
    let z = Vector::zeros(4);
    assert_eq!(z.count_leading_zeros(), 4);
    assert!(z.is_zero());
    let w = Vector::from_ints(vec![7, 0]);
    assert_eq!(w.count_leading_zeros(), 0);
}

#[test]
fn dot_product() {
    let a = Vector::from_ints(vec![1, 2, 3]);
    let b = Vector::from_ints(vec![4, 5, 6]);
    assert_eq!(a.dot(&b), Fraction::from_int(32));
    assert_eq!(b.dot(&a), Fraction::from_int(32));
    let h = Vector::from_fracs(vec![Fraction::new(1, 2), Fraction::new(1, 3)]);
    assert_eq!(h.dot(&h), Fraction::new(13, 36));
}

#[test]
fn cross_product_two_dimensional() {
    let a = Vector::from_ints(vec![1, 2]);
    let b = Vector::from_ints(vec![3, 4]);
    assert_eq!(Vector::cross(&a, &b), Vector::from_ints(vec![-2]));
}

#[test]
fn cross_product_three_dimensional() {
    let a = Vector::from_ints(vec![1, 2, 3]);
    let b = Vector::from_ints(vec![4, 5, 6]);
    assert_eq!(Vector::cross(&a, &b), Vector::from_ints(vec![-3, 6, -3]));
}

#[test]
fn orthogonality() {
    let a = Vector::from_ints(vec![1, 0]);
    let b = Vector::from_ints(vec![0, 7]);
    assert!(a.is_orthogonal(&b));
    let c = Vector::from_ints(vec![1, 1]);
    assert!(!a.is_orthogonal(&c));
}

#[test]
fn parallel_vectors() {
    let a = Vector::from_ints(vec![1, 2]);
    assert!(a.is_parallel(&Vector::from_ints(vec![2, 4])));
    assert!(a.is_parallel(&Vector::from_ints(vec![-3, -6])));
    assert!(!a.is_parallel(&Vector::from_ints(vec![2, 5])));
}

#[test]
fn zero_vector_parallel_to_everything() {
    let z = Vector::zeros(3);
    let v = Vector::from_ints(vec![1, 2, 3]);
    assert!(z.is_parallel(&v));
    assert!(v.is_parallel(&z));
    assert!(z.is_parallel(&z));
}

#[test]
fn elementwise_arithmetic() {
    let a = Vector::from_ints(vec![1, 2, 3]);
    let b = Vector::from_ints(vec![4, 5, 6]);
    assert_eq!(a.add(&b), Vector::from_ints(vec![5, 7, 9]));
    assert_eq!(b.sub(&a), Vector::from_ints(vec![3, 3, 3]));
    assert_eq!(a.scale(&Fraction::from_int(2)), Vector::from_ints(vec![2, 4, 6]));
    assert_eq!(
        a.scale(&Fraction::new(1, 2)),
        Vector::from_fracs(vec![
            Fraction::new(1, 2),
            Fraction::from_int(1),
            Fraction::new(3, 2),
        ])
    );
}

#[test]
fn push_set_get_append() {
    let mut v = Vector::new();
    v.push(Fraction::from_int(1));
    v.push(Fraction::from_int(2));
    v.set(1, Fraction::from_int(5));
    assert_eq!(v, Vector::from_ints(vec![1, 5]));
    v.append(Vector::from_ints(vec![9]));
    assert_eq!(v, Vector::from_ints(vec![1, 5, 9]));
}
