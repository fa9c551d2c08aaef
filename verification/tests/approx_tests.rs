use complex::approx::{isqrt_u64, simplest_fraction_between};
use complex::Fraction;

const SCALE: f64 = 4294967296.0;

// The bounds a float conversion hands in: the fractional part of `value`
// with `error` on either side, as pairs over the 2^32 grid.
fn bounds(decimal: f64, error: f64) -> (u64, u64, u64, u64) {
    let a = ((decimal - error) * SCALE).floor() as u64;
    let b = ((decimal + error) * SCALE).ceil() as u64;
    let a = a.max(1);
    let b = b.max(a).min(4294967295);
    (a, 4294967296, b, 4294967296)
}

#[test]
fn one_fifth_is_the_simplest_fraction_near_a_fifth() {
    let (an, ad, bn, bd) = bounds(0.2, 1e-9);
    assert_eq!(simplest_fraction_between(an, ad, bn, bd), (1, 5));
}

#[test]
fn one_third_from_a_loose_tolerance() {
    let (an, ad, bn, bd) = bounds(0.33333, 0.00001);
    assert_eq!(simplest_fraction_between(an, ad, bn, bd), (1, 3));
}

#[test]
fn a_wide_interval_returns_the_simplest_member() {
    // [1/4, 3/4] contains 1/2, the simplest fraction in (0, 1)
    assert_eq!(simplest_fraction_between(1, 4, 3, 4), (1, 2));
}

#[test]
fn a_tight_interval_needs_a_larger_denominator() {
    // [3/10, 3/10]: the only candidate is 3/10
    assert_eq!(simplest_fraction_between(3, 10, 3, 10), (3, 10));
}

#[test]
fn recovering_a_float_value_within_tolerance() {
    let value: f64 = 144.2;
    let error: f64 = 1e-9;
    let integer_part = value.floor();
    let decimal_part = value - integer_part;
    let (an, ad, bn, bd) = bounds(decimal_part, error);
    let (n, d) = simplest_fraction_between(an, ad, bn, bd);
    let numerator = integer_part as i32 * d as i32 + n as i32;
    let f = Fraction::new(numerator, d).unwrap();
    assert_eq!(f.get_components(), (721, 5));
    let back = f.get_numerator() as f64 / f.get_denominator() as f64;
    assert!((back - value).abs() <= error);
}

#[test]
fn integer_square_roots() {
    assert_eq!(isqrt_u64(0), 0);
    assert_eq!(isqrt_u64(1), 1);
    assert_eq!(isqrt_u64(24), 4);
    assert_eq!(isqrt_u64(25), 5);
    assert_eq!(isqrt_u64(26), 5);
    assert_eq!(isqrt_u64(u64::MAX), 4294967295);
}
