use complex::{gcd, get_ordering, DivByZeroError, Fraction};

#[test]
fn gcd_values() {
    assert_eq!(gcd(12, 18), 6);
    assert_eq!(gcd(18, 12), 6);
    assert_eq!(gcd(0, 5), 5);
    assert_eq!(gcd(5, 0), 5);
    assert_eq!(gcd(7, 13), 1);
    assert_eq!(gcd(21, 21), 21);
}

#[test]
fn ordering_pairs() {
    assert_eq!(get_ordering(3, 9), (3, 9));
    assert_eq!(get_ordering(9, 3), (3, 9));
    assert_eq!(get_ordering(4, 4), (4, 4));
}

#[test]
fn new_simplifies() {
    let simplified = Fraction::new(2, 4).unwrap();
    assert_eq!(simplified.get_components(), (1, 2));
}

#[test]
fn new_rejects_zero_denominator() {
    assert_eq!(Fraction::new(1, 0).unwrap_err(), DivByZeroError);
    assert_eq!(Fraction::unsimplified_new(1, 0).unwrap_err(), DivByZeroError);
}

#[test]
fn unsimplified_keeps_components() {
    let f = Fraction::unsimplified_new(2, 4).unwrap();
    assert_eq!(f.get_components(), (2, 4));
}

#[test]
fn unchecked_stores_anything() {
    let f = Fraction::unchecked_new(1, 0);
    assert_eq!(f.get_denominator(), 0);
}

#[test]
fn zero_simplifies_to_unit_denominator() {
    let f = Fraction::new(0, 7).unwrap();
    assert_eq!(f.get_components(), (0, 1));
}

#[test]
fn negative_simplification() {
    let f = Fraction::new(-6, 8).unwrap();
    assert_eq!(f.get_components(), (-3, 4));
}

#[test]
fn from_i32_is_whole() {
    let f = Fraction::from_i32(5);
    assert_eq!(f.get_numerator(), 5);
    assert_eq!(f.get_denominator(), 1);
}

#[test]
fn accessors() {
    let f = Fraction::unchecked_new(1, 2);
    assert_eq!(f.get_numerator(), 1);
    assert_eq!(f.get_denominator(), 2);
    assert_eq!(f.get_components(), (1, 2));
}

#[test]
fn value_equality_ignores_representation() {
    let a = Fraction::unchecked_new(1, 2);
    let b = Fraction::unchecked_new(2, 4);
    assert!(a.equals(&b));
    let c = Fraction::unchecked_new(1, 3);
    assert!(!a.equals(&c));
}

#[test]
fn comparison_by_cross_multiplication() {
    let half = Fraction::unchecked_new(1, 2);
    let third = Fraction::unchecked_new(1, 3);
    assert_eq!(half.compare(&third), 1);
    assert_eq!(third.compare(&half), -1);
    assert_eq!(half.compare(&Fraction::unchecked_new(2, 4)), 0);
    let negative = Fraction::unchecked_new(-1, 2);
    assert_eq!(negative.compare(&third), -1);
}

#[test]
fn addition_combines_over_common_denominator() {
    let a = Fraction::new(10, 3).unwrap();
    let b = Fraction::new(-4, 5).unwrap();
    let sum = a.add(b);
    assert_eq!(sum.get_components(), (38, 15));
}

#[test]
fn addition_is_commutative_here() {
    let a = Fraction::new(3, 8).unwrap();
    let b = Fraction::new(5, 12).unwrap();
    assert_eq!(a.add(b).get_components(), b.add(a).get_components());
}

#[test]
fn addition_is_associative_here() {
    let a = Fraction::new(1, 2).unwrap();
    let b = Fraction::new(1, 3).unwrap();
    let c = Fraction::new(1, 7).unwrap();
    assert_eq!(
        a.add(b).add(c).get_components(),
        a.add(b.add(c)).get_components()
    );
}

#[test]
fn adding_the_negation_gives_zero() {
    let a = Fraction::new(7, 12).unwrap();
    let zero = Fraction::from_i32(0);
    assert!(a.add(a.negate()).equals(&zero));
}

#[test]
fn multiplying_by_the_reciprocal_gives_one() {
    let a = Fraction::new(-7, 12).unwrap();
    let one = Fraction::from_i32(1);
    assert!(a.multiply(a.reciprocal().unwrap()).equals(&one));
}

#[test]
fn subtraction() {
    let a = Fraction::new(1, 2).unwrap();
    let b = Fraction::new(1, 3).unwrap();
    assert_eq!(a.subtract(b).get_components(), (1, 6));
}

#[test]
fn multiplication_reduces() {
    let a = Fraction::new(2, 3).unwrap();
    let b = Fraction::new(3, 4).unwrap();
    assert_eq!(a.multiply(b).get_components(), (1, 2));
}

#[test]
fn division_by_nonzero() {
    let a = Fraction::new(1, 2).unwrap();
    let b = Fraction::new(3, 4).unwrap();
    assert_eq!(a.divide(b).get_components(), (2, 3));
}

#[test]
fn negation_flips_the_numerator() {
    let f = Fraction::unchecked_new(3, 7);
    assert_eq!(f.negate().get_components(), (-3, 7));
}

#[test]
fn reciprocal_swaps_and_keeps_sign_on_top() {
    let f = Fraction::unchecked_new(1, 2);
    assert_eq!(f.reciprocal().unwrap().get_components(), (2, 1));
    let g = Fraction::unchecked_new(-3, 5);
    assert_eq!(g.reciprocal().unwrap().get_components(), (-5, 3));
}

#[test]
fn reciprocal_of_zero_fails() {
    let zero = Fraction::from_i32(0);
    assert_eq!(zero.reciprocal().unwrap_err(), DivByZeroError);
}

#[test]
fn absolute_value() {
    let f = Fraction::unchecked_new(-1, 2);
    assert_eq!(f.abs().get_components(), (1, 2));
    assert_eq!(f.abs().abs().get_components(), (1, 2));
}

#[test]
fn signum_values() {
    assert_eq!(Fraction::unchecked_new(-5, 2).signum(), -1);
    assert_eq!(Fraction::unchecked_new(5, 2).signum(), 1);
    assert_eq!(Fraction::unchecked_new(0, 2).signum(), 0);
}

#[test]
fn simplify_on_demand() {
    let unsimplified = Fraction::unchecked_new(2, 4);
    let simplified = unsimplified.simplify();
    assert_eq!(simplified.get_components(), (1, 2));
}

#[test]
fn assign_forms_replace_the_value() {
    let mut a = Fraction::new(1, 2).unwrap();
    a.add_assign(Fraction::new(1, 3).unwrap());
    assert_eq!(a.get_components(), (5, 6));
    a.sub_assign(Fraction::new(1, 3).unwrap());
    assert_eq!(a.get_components(), (1, 2));
    a.mul_assign(Fraction::new(2, 3).unwrap());
    assert_eq!(a.get_components(), (1, 3));
    a.div_assign(Fraction::new(2, 3).unwrap());
    assert_eq!(a.get_components(), (1, 2));
}
