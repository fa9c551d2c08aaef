use complex::{Complex, Fraction, ParseFractionError};

#[test]
fn render_whole_numbers_without_a_slash() {
    assert_eq!(Fraction::from_i32(7).render(), "7");
    assert_eq!(Fraction::from_i32(-7).render(), "-7");
    assert_eq!(Fraction::from_i32(0).render(), "0");
}

#[test]
fn render_proper_fractions() {
    assert_eq!(Fraction::unchecked_new(1, 2).render(), "1/2");
    assert_eq!(Fraction::unchecked_new(-4, 5).render(), "-4/5");
    assert_eq!(Fraction::unchecked_new(2, 4).render(), "2/4");
    assert_eq!(Fraction::unchecked_new(1234, 5678).render(), "1234/5678");
}

#[test]
fn parse_with_whitespace() {
    let f = Fraction::from_str("-4 / 5").unwrap();
    assert_eq!(f.get_components(), (-4, 5));
    assert_eq!(f.render(), "-4/5");
}

#[test]
fn parse_simplifies() {
    let f = Fraction::from_str("2/4").unwrap();
    assert_eq!(f.get_components(), (1, 2));
}

#[test]
fn parse_accepts_a_leading_plus() {
    let f = Fraction::from_str("+3 / +6").unwrap();
    assert_eq!(f.get_components(), (1, 2));
}

#[test]
fn parse_rejects_malformed_input() {
    assert_eq!(Fraction::from_str("5").unwrap_err(), ParseFractionError);
    assert_eq!(Fraction::from_str("").unwrap_err(), ParseFractionError);
    assert_eq!(Fraction::from_str("a/b").unwrap_err(), ParseFractionError);
    assert_eq!(Fraction::from_str("1/2/3").unwrap_err(), ParseFractionError);
    assert_eq!(Fraction::from_str("1/-2").unwrap_err(), ParseFractionError);
    assert_eq!(Fraction::from_str("/2").unwrap_err(), ParseFractionError);
    assert_eq!(Fraction::from_str("1/").unwrap_err(), ParseFractionError);
    assert_eq!(Fraction::from_str("1 0/2").unwrap_err(), ParseFractionError);
}

#[test]
fn parse_rejects_a_zero_denominator() {
    assert_eq!(Fraction::from_str("1/0").unwrap_err(), ParseFractionError);
}

#[test]
fn parse_rejects_out_of_range_values() {
    assert_eq!(Fraction::from_str("2147483648/1").unwrap_err(), ParseFractionError);
    assert_eq!(Fraction::from_str("1/4294967296").unwrap_err(), ParseFractionError);
    let f = Fraction::from_str("2147483647/1").unwrap();
    assert_eq!(f.get_components(), (2147483647, 1));
}

#[test]
fn round_trip_preserves_the_value() {
    let cases: Vec<(i32, u32)> = vec![(1, 2), (-4, 5), (2, 4), (0, 3), (100, 7), (-99, 100)];
    for (n, d) in cases {
        let f = Fraction::unchecked_new(n, d);
        let back = Fraction::from_str(&f.render()).unwrap();
        assert!(back.equals(&f));
    }
}

#[test]
fn complex_render_suppresses_zero_components() {
    assert_eq!(Complex::from_i32(10).render(), "10");
    assert_eq!(Complex::from_i32_pair(0, 5).render(), "5i");
    assert_eq!(Complex::from_i32_pair(0, -5).render(), "-5i");
    assert_eq!(Complex::from_i32_pair(0, 0).render(), "0");
}

#[test]
fn complex_render_signs() {
    assert_eq!(Complex::from_i32_pair(10, 4).render(), "10 + 4i");
    assert_eq!(Complex::from_i32_pair(10, -4).render(), "10 - 4i");
    let z = Complex::from(
        Fraction::unchecked_new(1, 2),
        Fraction::unchecked_new(-3, 4),
    );
    assert_eq!(z.render(), "1/2 - 3/4i");
}
