use mymatrix::Fraction;

#[test]
fn reduction_to_lowest_terms() {
    assert_eq!(Fraction::new(2, 4), Fraction::new(1, 2));
    assert_eq!(Fraction::new(2, 4).numerator(), 1);
    assert_eq!(Fraction::new(2, 4).denominator(), 2);
    assert_eq!(Fraction::new(-6, 8), Fraction::new(-3, 4));
    assert_eq!(Fraction::new(100, 10), Fraction::from_int(10));
}

#[test]
fn denominator_kept_positive() {
    let f = Fraction::new(3, -6);
    assert_eq!(f.numerator(), -1);
    assert_eq!(f.denominator(), 2);
    let g = Fraction::new(-3, -6);
    assert_eq!(g.numerator(), 1);
    assert_eq!(g.denominator(), 2);
}

#[test]
fn zero_normalises_to_zero_over_one() {
    let z = Fraction::new(0, 17);
    assert_eq!(z, Fraction::zero());
    assert_eq!(z.denominator(), 1);
    assert!(z.is_zero());
    assert!(!Fraction::one().is_zero());
}

#[test]
fn addition_and_subtraction() {
    let a = Fraction::new(1, 2);
    let b = Fraction::new(1, 3);
    assert_eq!(a.add(&b), Fraction::new(5, 6));
    assert_eq!(a.sub(&b), Fraction::new(1, 6));
    assert_eq!(b.sub(&a), Fraction::new(-1, 6));
    assert_eq!(a.add(&a.neg()), Fraction::zero());
}

#[test]
fn multiplication_and_division() {
    let a = Fraction::new(2, 3);
    let b = Fraction::new(3, 4);
    assert_eq!(a.mul(&b), Fraction::new(1, 2));
    assert_eq!(a.div(&b), Fraction::new(8, 9));
    assert_eq!(a.div(&a), Fraction::one());
    assert_eq!(a.mul(&Fraction::zero()), Fraction::zero());
}

#[test]
fn negation_and_order() {
    let a = Fraction::new(-7, 2);
    assert_eq!(a.neg(), Fraction::new(7, 2));
    assert!(Fraction::new(1, 3).lt(&Fraction::new(1, 2)));
    assert!(Fraction::new(-1, 2).lt(&Fraction::new(-1, 3)));
    assert!(!Fraction::new(1, 2).lt(&Fraction::new(1, 2)));
}
