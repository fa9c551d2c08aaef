use complex::{Complex, Fraction};

#[test]
fn constructors() {
    let re = Fraction::unchecked_new(1, 2);
    let im = Fraction::unchecked_new(3, 4);
    let z = Complex::from(re, im);
    assert_eq!(z.get_real().get_components(), (1, 2));
    assert_eq!(z.get_imaginary().get_components(), (3, 4));
    let w = Complex::from_fraction(re);
    assert_eq!(w.get_imaginary().get_components(), (0, 1));
    let v = Complex::from_i32(10);
    assert_eq!(v.get_real().get_components(), (10, 1));
    assert_eq!(v.get_imaginary().get_components(), (0, 1));
    let u = Complex::from_i32_pair(10, 4);
    let (r, i) = u.get_components();
    assert_eq!(r.get_components(), (10, 1));
    assert_eq!(i.get_components(), (4, 1));
}

#[test]
fn equality_is_by_value() {
    let a = Complex::from(Fraction::unchecked_new(1, 2), Fraction::unchecked_new(2, 4));
    let b = Complex::from(Fraction::unchecked_new(2, 4), Fraction::unchecked_new(1, 2));
    assert!(a.equals(&b));
    assert!(!a.equals(&Complex::from_i32(1)));
}

#[test]
fn addition_and_negation() {
    let a = Complex::from_i32_pair(1, 2);
    let b = Complex::from_i32_pair(3, -5);
    let sum = a.add(b);
    assert_eq!(sum.get_real().get_components(), (4, 1));
    assert_eq!(sum.get_imaginary().get_components(), (-3, 1));
    let neg = a.negate();
    assert_eq!(neg.get_real().get_components(), (-1, 1));
    assert_eq!(neg.get_imaginary().get_components(), (-2, 1));
}

#[test]
fn subtraction_of_integer_pairs() {
    let a = Complex::from_i32_pair(10, -4);
    let b = Complex::from_i32_pair(-1, 9);
    let difference = a.subtract(b);
    assert!(difference.equals(&Complex::from_i32_pair(11, -13)));
}

#[test]
fn multiplication_standard_form() {
    let a = Complex::from_i32_pair(1, 2);
    let b = Complex::from_i32_pair(3, 4);
    // (1 + 2i)(3 + 4i) == -5 + 10i
    let product = a.multiply(b);
    assert!(product.equals(&Complex::from_i32_pair(-5, 10)));
}

#[test]
fn conjugation_negates_the_imaginary_part() {
    let z = Complex::from_i32_pair(1, 5);
    assert!(z.conjugate().equals(&Complex::from_i32_pair(1, -5)));
}

#[test]
fn division_via_the_conjugate() {
    let c = Complex::from_i32_pair(20, -4);
    let d = Complex::from_i32_pair(3, 2);
    let quotient = c.divide(d);
    assert!(quotient.equals(&Complex::from_i32_pair(4, -4)));
}

#[test]
fn division_inverts_multiplication() {
    let a = Complex::from(Fraction::new(3, 4).unwrap(), Fraction::new(-2, 5).unwrap());
    let b = Complex::from_i32_pair(3, 2);
    assert!(a.divide(b).multiply(b).equals(&a));
}

#[test]
fn signum_of_components() {
    let z = Complex::from_i32_pair(10, -2);
    assert!(z.signum().equals(&Complex::from_i32_pair(1, -1)));
    let origin = Complex::from_i32_pair(0, 7);
    assert!(origin.signum().equals(&Complex::from_i32_pair(0, 1)));
}

#[test]
fn squared_modulus() {
    let z = Complex::from_i32_pair(3, 4);
    assert!(z.abs_squared().equals(&Fraction::from_i32(25)));
}

#[test]
fn modulus_of_a_perfect_square() {
    let z = Complex::from_i32_pair(3, 4);
    assert!(z.abs().equals(&Fraction::from_i32(5)));
}

#[test]
fn modulus_brackets_the_root() {
    // |1 + i|^2 == 2; the modulus approximates sqrt(2) from below on the
    // 1/4096 grid
    let z = Complex::from_i32_pair(1, 1);
    let m = z.abs();
    let square = m.multiply(m);
    let two = Fraction::from_i32(2);
    assert!(square.compare(&two) <= 0);
    let step = Fraction::new(1, 4096).unwrap();
    let next = m.add(step);
    assert!(next.multiply(next).compare(&two) > 0);
}

#[test]
fn square_root_of_a_negative_value_is_imaginary() {
    let minus_nine = Fraction::from_i32(-9);
    let root = minus_nine.sqrt();
    assert_eq!(root.get_real().get_components(), (0, 1));
    assert!(root.get_imaginary().equals(&Fraction::from_i32(3)));
}

#[test]
fn complex_assign_forms() {
    let mut z = Complex::from_i32_pair(1, 1);
    z.add_assign(Complex::from_i32_pair(2, 3));
    assert!(z.equals(&Complex::from_i32_pair(3, 4)));
    z.sub_assign(Complex::from_i32_pair(1, 1));
    assert!(z.equals(&Complex::from_i32_pair(2, 3)));
    z.mul_assign(Complex::from_i32_pair(0, 1));
    assert!(z.equals(&Complex::from_i32_pair(-3, 2)));
    z.div_assign(Complex::from_i32_pair(0, 1));
    assert!(z.equals(&Complex::from_i32_pair(2, 3)));
}
