//! The `Complex` type: a pair of `Fraction`s for the real and imaginary
//! components, with every operation delegated component-wise to the exact
//! rational arithmetic.

use vstd::prelude::*;
use crate::fraction::{
    add_fits, div_fits, lemma_q_eq_trans, mul_fits, q_add, q_div, q_eq, q_mul, q_neg, q_sub,
    spec_add_frac, spec_div_frac, spec_mul_frac, spec_negate, spec_sub_frac, sub_fits, Fraction,
};

verus! {

/// A complex number: two exact rational components.
#[derive(Clone, Copy, Debug)]
pub struct Complex {
    pub real: Fraction,
    pub imaginary: Fraction,
}

// Complex values, at the specification level, are pairs of rational pairs
// (real, imaginary).

/// Component-wise sum of two complex values.
pub open spec fn c_add(a: ((int, int), (int, int)), b: ((int, int), (int, int))) -> (
    (int, int),
    (int, int),
) {
    (q_add(a.0, b.0), q_add(a.1, b.1))
}

/// Component-wise difference of two complex values.
pub open spec fn c_sub(a: ((int, int), (int, int)), b: ((int, int), (int, int))) -> (
    (int, int),
    (int, int),
) {
    (q_sub(a.0, b.0), q_sub(a.1, b.1))
}

/// Component-wise negation of a complex value.
pub open spec fn c_neg(a: ((int, int), (int, int))) -> ((int, int), (int, int)) {
    (q_neg(a.0), q_neg(a.1))
}

/// The complex conjugate: the imaginary component negated.
pub open spec fn c_conj(a: ((int, int), (int, int))) -> ((int, int), (int, int)) {
    (a.0, q_neg(a.1))
}

/// Complex multiplication: `(a + bi)(c + di) == (ac - bd) + (ad + bc)i`.
pub open spec fn c_mul(a: ((int, int), (int, int)), b: ((int, int), (int, int))) -> (
    (int, int),
    (int, int),
) {
    (q_sub(q_mul(a.0, b.0), q_mul(a.1, b.1)), q_add(q_mul(a.0, b.1), q_mul(a.1, b.0)))
}

/// The squared modulus of a complex value, a rational.
pub open spec fn c_norm_sq(b: ((int, int), (int, int))) -> (int, int) {
    q_add(q_mul(b.0, b.0), q_mul(b.1, b.1))
}

/// Complex division: the value multiplied by the divisor's conjugate, both
/// components divided by the divisor's squared modulus.
pub open spec fn c_div(a: ((int, int), (int, int)), b: ((int, int), (int, int))) -> (
    (int, int),
    (int, int),
) {
    (q_div(c_mul(a, c_conj(b)).0, c_norm_sq(b)), q_div(c_mul(a, c_conj(b)).1, c_norm_sq(b)))
}

/// Two complex values are equal when both components are, as rationals.
pub open spec fn c_eq(x: ((int, int), (int, int)), y: ((int, int), (int, int))) -> bool {
    q_eq(x.0, y.0) && q_eq(x.1, y.1)
}

impl Complex {
    /// Both components have positive denominators.
    pub open spec fn wf(self) -> bool {
        self.real.wf() && self.imaginary.wf()
    }

    /// Both components are in canonical form.
    pub open spec fn is_simplified(self) -> bool {
        self.real.is_simplified() && self.imaginary.is_simplified()
    }

    /// The pair of rational pairs this complex number stores.
    pub open spec fn vals(self) -> ((int, int), (int, int)) {
        (self.real.pair(), self.imaginary.pair())
    }

    /// Creates a complex number from its real and imaginary components.
    pub fn from(re: Fraction, im: Fraction) -> (r: Complex)
        ensures
            r.real == re,
            r.imaginary == im,
    {
        Complex { real: re, imaginary: im }
    }

    /// Creates a complex number with the given real component and a zero
    /// imaginary component.
    pub fn from_fraction(value: Fraction) -> (r: Complex)
        ensures
            r.real == value,
            r.imaginary.num() == 0,
            r.imaginary.den() == 1,
    {
        Complex::from(value, Fraction::from_i32(0))
    }

    /// Creates a complex number with the given whole-number real component
    /// and a zero imaginary component.
    pub fn from_i32(value: i32) -> (r: Complex)
        ensures
            r.real.num() == value,
            r.real.den() == 1,
            r.imaginary.num() == 0,
            r.imaginary.den() == 1,
    {
        Complex::from_i32_pair(value, 0)
    }

    /// Creates a complex number from whole-number real and imaginary
    /// components.
    pub fn from_i32_pair(re: i32, im: i32) -> (r: Complex)
        ensures
            r.real.num() == re,
            r.real.den() == 1,
            r.imaginary.num() == im,
            r.imaginary.den() == 1,
            r.is_simplified(),
    {
        Complex { real: Fraction::from_i32(re), imaginary: Fraction::from_i32(im) }
    }

    /// The real and imaginary components, as a pair.
    pub fn get_components(&self) -> (r: (Fraction, Fraction))
        ensures
            r.0 == self.real,
            r.1 == self.imaginary,
    {
        (self.real, self.imaginary)
    }

    /// The real component.
    pub fn get_real(&self) -> (r: Fraction)
        ensures
            r == self.real,
    {
        self.real
    }

    /// The imaginary component.
    pub fn get_imaginary(&self) -> (r: Fraction)
        ensures
            r == self.imaginary,
    {
        self.imaginary
    }

    /// Component-wise value equality of two complex numbers.
    pub fn equals(&self, other: &Complex) -> (r: bool)
        ensures
            r == c_eq(self.vals(), other.vals()),
    {
        self.real.equals(&other.real) && self.imaginary.equals(&other.imaginary)
    }
}

/// The intermediate values of the component sums stay within the machine
/// integers.
pub open spec fn complex_add_fits(a: Complex, b: Complex) -> bool {
    add_fits(a.real, b.real) && add_fits(a.imaginary, b.imaginary)
}

/// The intermediate values of the component differences stay within the
/// machine integers.
pub open spec fn complex_sub_fits(a: Complex, b: Complex) -> bool {
    sub_fits(a.real, b.real) && sub_fits(a.imaginary, b.imaginary)
}

/// The intermediate values of complex multiplication stay within the
/// machine integers.
pub open spec fn complex_mul_fits(a: Complex, b: Complex) -> bool {
    &&& mul_fits(a.real, b.real)
    &&& mul_fits(a.imaginary, b.imaginary)
    &&& mul_fits(a.real, b.imaginary)
    &&& mul_fits(a.imaginary, b.real)
    &&& sub_fits(spec_mul_frac(a.real, b.real), spec_mul_frac(a.imaginary, b.imaginary))
    &&& add_fits(spec_mul_frac(a.real, b.imaginary), spec_mul_frac(a.imaginary, b.real))
}

/// The conjugate, at the specification level.
pub open spec fn spec_conjugate(b: Complex) -> Complex {
    Complex { real: b.real, imaginary: spec_negate(b.imaginary) }
}

/// The squared modulus, at the specification level: the canonical form of
/// `real * real + imaginary * imaginary`.
pub open spec fn spec_norm_sq(b: Complex) -> Fraction {
    spec_add_frac(spec_mul_frac(b.real, b.real), spec_mul_frac(b.imaginary, b.imaginary))
}

/// The real component of a complex product, at the specification level.
pub open spec fn spec_c_mul_real(a: Complex, b: Complex) -> Fraction {
    spec_sub_frac(spec_mul_frac(a.real, b.real), spec_mul_frac(a.imaginary, b.imaginary))
}

/// The imaginary component of a complex product, at the specification
/// level.
pub open spec fn spec_c_mul_imag(a: Complex, b: Complex) -> Fraction {
    spec_add_frac(spec_mul_frac(a.real, b.imaginary), spec_mul_frac(a.imaginary, b.real))
}

/// The intermediate values of the squared modulus stay within the machine
/// integers.
pub open spec fn complex_abs_sq_fits(a: Complex) -> bool {
    &&& mul_fits(a.real, a.real)
    &&& mul_fits(a.imaginary, a.imaginary)
    &&& add_fits(spec_mul_frac(a.real, a.real), spec_mul_frac(a.imaginary, a.imaginary))
}

/// The intermediate values of complex division stay within the machine
/// integers, and the divisor is nonzero.
pub open spec fn complex_div_fits(a: Complex, b: Complex) -> bool {
    &&& b.imaginary.numerator > i32::MIN
    &&& complex_mul_fits(a, spec_conjugate(b))
    &&& complex_abs_sq_fits(b)
    &&& div_fits(spec_c_mul_real(a, spec_conjugate(b)), spec_norm_sq(b))
    &&& div_fits(spec_c_mul_imag(a, spec_conjugate(b)), spec_norm_sq(b))
}

/// Value equality of rational pairs passes through `q_add`.
#[verifier::rlimit(50)]
proof fn lemma_q_add_congruence(x: (int, int), y: (int, int), x2: (int, int), y2: (int, int))
    requires
        q_eq(x, x2),
        q_eq(y, y2),
    ensures
        q_eq(q_add(x, y), q_add(x2, y2)),
{
    let (a, b, c, d) = (x.0, x.1, x2.0, x2.1);
    let (e, f, g, h) = (y.0, y.1, y2.0, y2.1);
    assert((a * f + e * b) * (d * h) == (a * f) * (d * h) + (e * b) * (d * h)) by (nonlinear_arith);
    assert((a * f) * (d * h) == (a * d) * (f * h)) by (nonlinear_arith);
    assert((c * b) * (f * h) == (c * h) * (b * f)) by (nonlinear_arith);
    assert((e * b) * (d * h) == (e * h) * (b * d)) by (nonlinear_arith);
    assert((g * f) * (b * d) == (g * d) * (b * f)) by (nonlinear_arith);
    assert((c * h + g * d) * (b * f) == (c * h) * (b * f) + (g * d) * (b * f)) by (nonlinear_arith);
}

/// Value equality of rational pairs passes through `q_sub`.
#[verifier::rlimit(50)]
proof fn lemma_q_sub_congruence(x: (int, int), y: (int, int), x2: (int, int), y2: (int, int))
    requires
        q_eq(x, x2),
        q_eq(y, y2),
    ensures
        q_eq(q_sub(x, y), q_sub(x2, y2)),
{
    let (a, b, c, d) = (x.0, x.1, x2.0, x2.1);
    let (e, f, g, h) = (y.0, y.1, y2.0, y2.1);
    assert((a * f - e * b) * (d * h) == (a * f) * (d * h) - (e * b) * (d * h)) by (nonlinear_arith);
    assert((a * f) * (d * h) == (a * d) * (f * h)) by (nonlinear_arith);
    assert((c * b) * (f * h) == (c * h) * (b * f)) by (nonlinear_arith);
    assert((e * b) * (d * h) == (e * h) * (b * d)) by (nonlinear_arith);
    assert((g * f) * (b * d) == (g * d) * (b * f)) by (nonlinear_arith);
    assert((c * h - g * d) * (b * f) == (c * h) * (b * f) - (g * d) * (b * f)) by (nonlinear_arith);
}

/// Value equality of rational pairs passes through `q_mul`.
#[verifier::rlimit(50)]
proof fn lemma_q_mul_congruence(x: (int, int), y: (int, int), x2: (int, int), y2: (int, int))
    requires
        q_eq(x, x2),
        q_eq(y, y2),
    ensures
        q_eq(q_mul(x, y), q_mul(x2, y2)),
{
    assert((x.0 * y.0) * (x2.1 * y2.1) == (x2.0 * y2.0) * (x.1 * y.1)) by (nonlinear_arith)
        requires
            x.0 * x2.1 == x2.0 * x.1,
            y.0 * y2.1 == y2.0 * y.1,
    ;
}

/// Value equality of rational pairs passes through `q_div`.
#[verifier::rlimit(50)]
proof fn lemma_q_div_congruence(x: (int, int), y: (int, int), x2: (int, int), y2: (int, int))
    requires
        q_eq(x, x2),
        q_eq(y, y2),
    ensures
        q_eq(q_div(x, y), q_div(x2, y2)),
{
    assert((x.0 * y.1) * (x2.1 * y2.0) == (x2.0 * y2.1) * (x.1 * y.0)) by (nonlinear_arith)
        requires
            x.0 * x2.1 == x2.0 * x.1,
            y.0 * y2.1 == y2.0 * y.1,
    ;
}

/// Multiplying after a division by the same pair reorders into a division
/// of the product.
proof fn lemma_q_mul_div_swap(x: (int, int), y: (int, int), n: (int, int))
    ensures
        q_mul(q_div(x, n), y) == q_div(q_mul(x, y), n),
{
    assert((x.0 * n.1) * y.0 == (x.0 * y.0) * n.1) by (nonlinear_arith);
    assert((x.1 * n.0) * y.1 == (x.1 * y.1) * n.0) by (nonlinear_arith);
}

/// Regrouping a product around a shared pair of factors.
proof fn lemma_mul_pull2(p: int, e: int, d: int, q: int)
    ensures
        (p * (e * d)) * q == (p * e) * (d * q),
{
    assert((p * (e * d)) * q == (p * e) * (d * q)) by (nonlinear_arith);
}

/// Multiplying a difference out on the right.
proof fn lemma_mul_sub_right(a: int, b: int, c: int)
    ensures
        (a - b) * c == a * c - b * c,
{
    assert((a - b) * c == a * c - b * c) by (nonlinear_arith);
}

/// Multiplying a sum out on the right.
proof fn lemma_mul_add_right(a: int, b: int, c: int)
    ensures
        (a + b) * c == a * c + b * c,
{
    assert((a + b) * c == a * c + b * c) by (nonlinear_arith);
}

/// A difference of two quotients over a common divisor is the quotient of
/// the difference.
proof fn lemma_q_sub_div_common(x: (int, int), y: (int, int), n: (int, int))
    ensures
        q_eq(q_sub(q_div(x, n), q_div(y, n)), q_div(q_sub(x, y), n)),
{
    let p1 = (x.0 * n.1) * (y.1 * n.0);
    let p2 = (y.0 * n.1) * (x.1 * n.0);
    let c = (x.1 * y.1) * n.0;
    let d = (x.1 * n.0) * (y.1 * n.0);
    lemma_mul_sub_right(p1, p2, c);
    assert((x.0 * n.1) * (y.1 * n.0) == (x.0 * y.1) * (n.1 * n.0)) by (nonlinear_arith);
    assert((y.0 * n.1) * (x.1 * n.0) == (y.0 * x.1) * (n.1 * n.0)) by (nonlinear_arith);
    assert(n.0 * ((x.1 * y.1) * n.0) == (x.1 * n.0) * (y.1 * n.0)) by (nonlinear_arith);
    lemma_mul_pull2(x.0 * y.1, n.1, n.0, (x.1 * y.1) * n.0);
    lemma_mul_pull2(y.0 * x.1, n.1, n.0, (x.1 * y.1) * n.0);
    lemma_mul_sub_right(x.0 * y.1, y.0 * x.1, n.1);
    lemma_mul_sub_right((x.0 * y.1) * n.1, (y.0 * x.1) * n.1, d);
}

/// A sum of two quotients over a common divisor is the quotient of the sum.
proof fn lemma_q_add_div_common(x: (int, int), y: (int, int), n: (int, int))
    ensures
        q_eq(q_add(q_div(x, n), q_div(y, n)), q_div(q_add(x, y), n)),
{
    let p1 = (x.0 * n.1) * (y.1 * n.0);
    let p2 = (y.0 * n.1) * (x.1 * n.0);
    let c = (x.1 * y.1) * n.0;
    let d = (x.1 * n.0) * (y.1 * n.0);
    lemma_mul_add_right(p1, p2, c);
    assert((x.0 * n.1) * (y.1 * n.0) == (x.0 * y.1) * (n.1 * n.0)) by (nonlinear_arith);
    assert((y.0 * n.1) * (x.1 * n.0) == (y.0 * x.1) * (n.1 * n.0)) by (nonlinear_arith);
    assert(n.0 * ((x.1 * y.1) * n.0) == (x.1 * n.0) * (y.1 * n.0)) by (nonlinear_arith);
    lemma_mul_pull2(x.0 * y.1, n.1, n.0, (x.1 * y.1) * n.0);
    lemma_mul_pull2(y.0 * x.1, n.1, n.0, (x.1 * y.1) * n.0);
    lemma_mul_add_right(x.0 * y.1, y.0 * x.1, n.1);
    lemma_mul_add_right((x.0 * y.1) * n.1, (y.0 * x.1) * n.1, d);
}

/// Multiplying by a pair and dividing by the same pair returns the value.
proof fn lemma_q_div_mul_cancel(x: (int, int), n: (int, int))
    ensures
        q_eq(q_div(q_mul(x, n), n), x),
{
    assert(((x.0 * n.0) * n.1) * x.1 == x.0 * ((x.1 * n.1) * n.0)) by (nonlinear_arith);
}

/// Pulling a common factor out of a product.
proof fn lemma_mul_pull(h: int, m: int, a: int, b: int)
    ensures
        (m * a) * (h * b) == h * (m * (a * b)),
{
    assert((m * a) * (h * b) == h * (m * (a * b))) by (nonlinear_arith);
}

/// Multiplying a difference out in the middle.
proof fn lemma_mul_sub_mid(a: int, b: int, c: int)
    ensures
        a * (b - c) == a * b - a * c,
{
    assert(a * (b - c) == a * b - a * c) by (nonlinear_arith);
}

/// Multiplying a sum out in the middle.
proof fn lemma_mul_add_mid(a: int, b: int, c: int)
    ensures
        a * (b + c) == a * b + a * c,
{
    assert(a * (b + c) == a * b + a * c) by (nonlinear_arith);
}

/// Commutativity, on opaque products.
proof fn lemma_mul_comm(x: int, y: int)
    ensures
        x * y == y * x,
{
    assert(x * y == y * x) by (nonlinear_arith);
}

/// The final regrouping step shared by the two numerator identities.
proof fn lemma_p5_final(h: int, a: int, k: int, b: int, c: int, u: int, w: int, n1: int)
    requires
        h == b * (c * (u * w)),
        n1 == (u * u) * (w * w),
    ensures
        (h * (a * (c * k))) * (b * n1) == (a * k) * ((h * u) * (h * w)),
{
    assert((h * (a * (c * k))) * (b * n1) == (a * k) * (h * ((c * b) * n1))) by (nonlinear_arith);
    assert((c * b) * n1 == (u * (b * (c * (u * w)))) * w) by (nonlinear_arith)
        requires
            n1 == (u * u) * (w * w),
    ;
    assert(h * ((u * h) * w) == (h * u) * (h * w)) by (nonlinear_arith);
}

/// The real-part numerator identity behind `lemma_divide_multiply_inverse`,
/// over plain integers: `(a * conj(b)) * b` has real part `a.real` scaled
/// by `|b|^2`.
proof fn lemma_p5_real_numerator(
    p: int, q: int, r: int, s: int, t: int, u: int, v: int, w: int,
    m00: int, m01: int, m10: int, m11: int, k: int, n1: int,
)
    requires
        m00 == (p * t) * (s * w) - (r * (-v)) * (q * u),
        m01 == (q * u) * (s * w),
        m10 == (p * (-v)) * (s * u) + (r * t) * (q * w),
        m11 == (q * w) * (s * u),
        k == (t * t) * (w * w) + (v * v) * (u * u),
        n1 == (u * u) * (w * w),
    ensures
        (m00 * t * (m11 * w) - m10 * v * (m01 * u)) * (q * n1) == (p * k) * (m01 * u * (m11 * w)),
{
    assert(m01 == q * (s * (u * w))) by (nonlinear_arith)
        requires
            m01 == (q * u) * (s * w),
    ;
    assert(m11 == q * (s * (u * w))) by (nonlinear_arith)
        requires
            m11 == (q * w) * (s * u),
    ;
    lemma_mul_pull(q * (s * (u * w)), m00, t, w);
    lemma_mul_pull(q * (s * (u * w)), m10, v, u);
    lemma_mul_sub_mid(q * (s * (u * w)), m00 * (t * w), m10 * (v * u));
    lemma_mul_sub_right((p * t) * (s * w), (r * (-v)) * (q * u), t * w);
    lemma_mul_add_right((p * (-v)) * (s * u), (r * t) * (q * w), v * u);
    assert(((p * t) * (s * w)) * (t * w) == (p * s) * ((t * t) * (w * w))) by (nonlinear_arith);
    assert(((r * (-v)) * (q * u)) * (t * w) == -(((r * t) * (q * w)) * (v * u)))
        by (nonlinear_arith);
    assert(((p * (-v)) * (s * u)) * (v * u) == -((p * s) * ((v * v) * (u * u))))
        by (nonlinear_arith);
    assert(p * (s * ((t * t) * (w * w) + (v * v) * (u * u))) == (p * s) * ((t * t) * (w * w)) + (p
        * s) * ((v * v) * (u * u))) by (nonlinear_arith);
    assert(m00 * (t * w) - m10 * (v * u) == p * (s * k));
    lemma_p5_final(q * (s * (u * w)), p, k, q, s, u, w, n1);
}

/// The imaginary-part numerator identity behind
/// `lemma_divide_multiply_inverse`: `(a * conj(b)) * b` has imaginary part
/// `a.imaginary` scaled by `|b|^2`.
proof fn lemma_p5_imag_numerator(
    p: int, q: int, r: int, s: int, t: int, u: int, v: int, w: int,
    m00: int, m01: int, m10: int, m11: int, k: int, n1: int,
)
    requires
        m00 == (p * t) * (s * w) - (r * (-v)) * (q * u),
        m01 == (q * u) * (s * w),
        m10 == (p * (-v)) * (s * u) + (r * t) * (q * w),
        m11 == (q * w) * (s * u),
        k == (t * t) * (w * w) + (v * v) * (u * u),
        n1 == (u * u) * (w * w),
    ensures
        (m00 * v * (m11 * u) + m10 * t * (m01 * w)) * (s * n1) == (r * k) * (m01 * w * (m11 * u)),
{
    assert(m01 == s * (q * (u * w))) by (nonlinear_arith)
        requires
            m01 == (q * u) * (s * w),
    ;
    assert(m11 == s * (q * (u * w))) by (nonlinear_arith)
        requires
            m11 == (q * w) * (s * u),
    ;
    lemma_mul_pull(s * (q * (u * w)), m00, v, u);
    lemma_mul_pull(s * (q * (u * w)), m10, t, w);
    lemma_mul_add_mid(s * (q * (u * w)), m00 * (v * u), m10 * (t * w));
    lemma_mul_sub_right((p * t) * (s * w), (r * (-v)) * (q * u), v * u);
    lemma_mul_add_right((p * (-v)) * (s * u), (r * t) * (q * w), t * w);
    assert(((p * t) * (s * w)) * (v * u) == -(((p * (-v)) * (s * u)) * (t * w)))
        by (nonlinear_arith);
    assert(((r * (-v)) * (q * u)) * (v * u) == -((r * q) * ((v * v) * (u * u))))
        by (nonlinear_arith);
    assert(((r * t) * (q * w)) * (t * w) == (r * q) * ((t * t) * (w * w))) by (nonlinear_arith);
    assert(r * (q * ((t * t) * (w * w) + (v * v) * (u * u))) == (r * q) * ((t * t) * (w * w)) + (r
        * q) * ((v * v) * (u * u))) by (nonlinear_arith);
    assert(m00 * (v * u) + m10 * (t * w) == r * (q * k));
    lemma_p5_final(s * (q * (u * w)), r, k, s, q, u, w, n1);
    lemma_mul_comm(m01 * w, m11 * u);
    assert((m01 * w) * (m11 * u) == ((s * (q * (u * w))) * u) * ((s * (q * (u * w))) * w));
}

/// Complex division is the inverse of multiplication: for every value `a`
/// and every nonzero `b`, `(a / b) * b == a`, component-wise as exact
/// rationals.  `divide` and `multiply` return the canonical fractions of
/// exactly these values.
pub proof fn lemma_divide_multiply_inverse(a: Complex, b: Complex)
    requires
        a.wf(),
        b.wf(),
        b.real.num() != 0 || b.imaginary.num() != 0,
    ensures
        c_eq(c_mul(c_div(a.vals(), b.vals()), b.vals()), a.vals()),
{
    let x = a.real.pair();
    let y = a.imaginary.pair();
    let z = b.real.pair();
    let w2 = b.imaginary.pair();
    let av = a.vals();
    let bv = b.vals();
    let m = c_mul(av, c_conj(bv));
    let nn = c_norm_sq(bv);
    let (p, q, r, s) = (x.0, x.1, y.0, y.1);
    let (t, u, v, w) = (z.0, z.1, w2.0, w2.1);
    let m00 = m.0.0;
    let m01 = m.0.1;
    let m10 = m.1.0;
    let m11 = m.1.1;
    assert(nn.0 != 0 && nn.1 > 0) by (nonlinear_arith)
        requires
            u > 0,
            w > 0,
            t != 0 || v != 0,
            nn.0 == (t * t) * (w * w) + (v * v) * (u * u),
            nn.1 == (u * u) * (w * w),
    ;
    // both result components, rewritten as single quotients over nn
    lemma_q_mul_div_swap(m.0, z, nn);
    lemma_q_mul_div_swap(m.1, w2, nn);
    lemma_q_mul_div_swap(m.0, w2, nn);
    lemma_q_mul_div_swap(m.1, z, nn);
    lemma_q_sub_div_common(q_mul(m.0, z), q_mul(m.1, w2), nn);
    lemma_q_add_div_common(q_mul(m.0, w2), q_mul(m.1, z), nn);
    let s0 = q_sub(q_mul(m.0, z), q_mul(m.1, w2));
    let s1 = q_add(q_mul(m.0, w2), q_mul(m.1, z));
    // the numerator of (a * conj(b)) * b is a scaled by |b|^2, component-wise
    lemma_p5_real_numerator(p, q, r, s, t, u, v, w, m00, m01, m10, m11, nn.0, nn.1);
    lemma_p5_imag_numerator(p, q, r, s, t, u, v, w, m00, m01, m10, m11, nn.0, nn.1);
    assert(q_eq(s0, q_mul(x, nn)));
    assert(q_eq(s1, q_mul(y, nn)));
    lemma_q_div_congruence(s0, nn, q_mul(x, nn), nn);
    lemma_q_div_congruence(s1, nn, q_mul(y, nn), nn);
    lemma_q_div_mul_cancel(x, nn);
    lemma_q_div_mul_cancel(y, nn);
    // chain the value equalities through the intermediate quotients
    let g0 = c_mul(c_div(av, bv), bv).0;
    let g1 = c_mul(c_div(av, bv), bv).1;
    assert(s0.1 != 0 && s1.1 != 0) by (nonlinear_arith)
        requires
            s0.1 == (m01 * u) * (m11 * w),
            s1.1 == (m01 * w) * (m11 * u),
            m01 == (q * u) * (s * w),
            m11 == (q * w) * (s * u),
            q > 0,
            s > 0,
            u > 0,
            w > 0,
    ;
    assert(q_div(s0, nn).1 != 0) by (nonlinear_arith)
        requires
            q_div(s0, nn).1 == s0.1 * nn.0,
            s0.1 != 0,
            nn.0 != 0,
    ;
    assert(q_div(s1, nn).1 != 0) by (nonlinear_arith)
        requires
            q_div(s1, nn).1 == s1.1 * nn.0,
            s1.1 != 0,
            nn.0 != 0,
    ;
    assert(q_div(q_mul(x, nn), nn).1 != 0) by (nonlinear_arith)
        requires
            q_div(q_mul(x, nn), nn).1 == (q * nn.1) * nn.0,
            q > 0,
            nn.1 > 0,
            nn.0 != 0,
    ;
    assert(q_div(q_mul(y, nn), nn).1 != 0) by (nonlinear_arith)
        requires
            q_div(q_mul(y, nn), nn).1 == (s * nn.1) * nn.0,
            s > 0,
            nn.1 > 0,
            nn.0 != 0,
    ;
    lemma_q_eq_trans(g0, q_div(s0, nn), q_div(q_mul(x, nn), nn));
    lemma_q_eq_trans(g0, q_div(q_mul(x, nn), nn), x);
    lemma_q_eq_trans(g1, q_div(s1, nn), q_div(q_mul(y, nn), nn));
    lemma_q_eq_trans(g1, q_div(q_mul(y, nn), nn), y);
}

impl Complex {
    /// Component-wise sum.
    pub fn add(self, rhs: Complex) -> (r: Complex)
        requires
            self.wf(),
            rhs.wf(),
            complex_add_fits(self, rhs),
        ensures
            r.real == spec_add_frac(self.real, rhs.real),
            r.imaginary == spec_add_frac(self.imaginary, rhs.imaginary),
            r.is_simplified(),
            c_eq(r.vals(), c_add(self.vals(), rhs.vals())),
    {
        Complex { real: self.real.add(rhs.real), imaginary: self.imaginary.add(rhs.imaginary) }
    }

    /// Component-wise negation.
    pub fn negate(self) -> (r: Complex)
        requires
            self.real.numerator > i32::MIN,
            self.imaginary.numerator > i32::MIN,
        ensures
            r.real == spec_negate(self.real),
            r.imaginary == spec_negate(self.imaginary),
            c_eq(r.vals(), c_neg(self.vals())),
            self.is_simplified() ==> r.is_simplified(),
    {
        Complex { real: self.real.negate(), imaginary: self.imaginary.negate() }
    }

    /// Component-wise difference.
    pub fn subtract(self, rhs: Complex) -> (r: Complex)
        requires
            self.wf(),
            rhs.wf(),
            complex_sub_fits(self, rhs),
        ensures
            r.real == spec_sub_frac(self.real, rhs.real),
            r.imaginary == spec_sub_frac(self.imaginary, rhs.imaginary),
            r.is_simplified(),
            c_eq(r.vals(), c_sub(self.vals(), rhs.vals())),
    {
        Complex {
            real: self.real.subtract(rhs.real),
            imaginary: self.imaginary.subtract(rhs.imaginary),
        }
    }

    /// The complex conjugate: the imaginary component negated.
    pub fn conjugate(self) -> (r: Complex)
        requires
            self.imaginary.numerator > i32::MIN,
        ensures
            r.real == self.real,
            r.imaginary == spec_negate(self.imaginary),
            r == spec_conjugate(self),
            c_eq(r.vals(), c_conj(self.vals())),
            self.is_simplified() ==> r.is_simplified(),
    {
        Complex::from(self.real, self.imaginary.negate())
    }

    /// Standard complex multiplication:
    /// `(a + bi)(c + di) == (ac - bd) + (ad + bc)i`.
    pub fn multiply(self, rhs: Complex) -> (r: Complex)
        requires
            self.wf(),
            rhs.wf(),
            complex_mul_fits(self, rhs),
        ensures
            r.real == spec_c_mul_real(self, rhs),
            r.imaginary == spec_c_mul_imag(self, rhs),
            r.is_simplified(),
            c_eq(r.vals(), c_mul(self.vals(), rhs.vals())),
    {
        let rr = self.real.multiply(rhs.real);
        let ii = self.imaginary.multiply(rhs.imaginary);
        let ri = self.real.multiply(rhs.imaginary);
        let ir = self.imaginary.multiply(rhs.real);
        let re = rr.subtract(ii);
        let im = ri.add(ir);
        proof {
            let ar = self.real.pair();
            let ai = self.imaginary.pair();
            let br = rhs.real.pair();
            let bi = rhs.imaginary.pair();
            lemma_q_sub_congruence(rr.pair(), ii.pair(), q_mul(ar, br), q_mul(ai, bi));
            lemma_q_add_congruence(ri.pair(), ir.pair(), q_mul(ar, bi), q_mul(ai, br));
            assert(q_sub(rr.pair(), ii.pair()).1 != 0) by (nonlinear_arith)
                requires
                    rr.den() > 0,
                    ii.den() > 0,
                    q_sub(rr.pair(), ii.pair()).1 == rr.den() * ii.den(),
            ;
            assert(q_add(ri.pair(), ir.pair()).1 != 0) by (nonlinear_arith)
                requires
                    ri.den() > 0,
                    ir.den() > 0,
                    q_add(ri.pair(), ir.pair()).1 == ri.den() * ir.den(),
            ;
            lemma_q_eq_trans(
                re.pair(),
                q_sub(rr.pair(), ii.pair()),
                q_sub(q_mul(ar, br), q_mul(ai, bi)),
            );
            lemma_q_eq_trans(
                im.pair(),
                q_add(ri.pair(), ir.pair()),
                q_add(q_mul(ar, bi), q_mul(ai, br)),
            );
        }
        Complex { real: re, imaginary: im }
    }

    /// The squared modulus: `real * real + imaginary * imaginary`, a
    /// fraction that is never negative, and zero exactly for the zero
    /// complex number.
    pub fn abs_squared(self) -> (r: Fraction)
        requires
            self.wf(),
            complex_abs_sq_fits(self),
        ensures
            r == spec_norm_sq(self),
            r.is_simplified(),
            q_eq(r.pair(), c_norm_sq(self.vals())),
            r.num() >= 0,
            r.num() == 0 <==> self.real.num() == 0 && self.imaginary.num() == 0,
    {
        let rr = self.real.multiply(self.real);
        let ii = self.imaginary.multiply(self.imaginary);
        let r = rr.add(ii);
        proof {
            let br = self.real.pair();
            let bi = self.imaginary.pair();
            lemma_q_add_congruence(rr.pair(), ii.pair(), q_mul(br, br), q_mul(bi, bi));
            assert(q_add(rr.pair(), ii.pair()).1 != 0) by (nonlinear_arith)
                requires
                    rr.den() > 0,
                    ii.den() > 0,
                    q_add(rr.pair(), ii.pair()).1 == rr.den() * ii.den(),
            ;
            lemma_q_eq_trans(r.pair(), q_add(rr.pair(), ii.pair()), c_norm_sq(self.vals()));
            let s = c_norm_sq(self.vals()).0;
            let d = c_norm_sq(self.vals()).1;
            assert(s >= 0 && d > 0 && (s == 0 <==> (br.0 == 0 && bi.0 == 0))) by (nonlinear_arith)
                requires
                    s == br.0 * br.0 * (bi.1 * bi.1) + bi.0 * bi.0 * (br.1 * br.1),
                    d == br.1 * br.1 * (bi.1 * bi.1),
                    br.1 > 0,
                    bi.1 > 0,
            ;
            assert((r.num() >= 0 && (r.num() == 0 <==> s == 0))) by (nonlinear_arith)
                requires
                    r.num() * d == s * r.den(),
                    r.den() > 0,
                    d > 0,
                    s >= 0,
            ;
        }
        r
    }

    /// The quotient: the value multiplied by the divisor's conjugate, both
    /// components divided by the divisor's squared modulus.
    pub fn divide(self, rhs: Complex) -> (r: Complex)
        requires
            self.wf(),
            rhs.wf(),
            complex_div_fits(self, rhs),
        ensures
            r.real == spec_div_frac(spec_c_mul_real(self, spec_conjugate(rhs)), spec_norm_sq(rhs)),
            r.imaginary == spec_div_frac(
                spec_c_mul_imag(self, spec_conjugate(rhs)),
                spec_norm_sq(rhs),
            ),
            r.is_simplified(),
            c_eq(r.vals(), c_div(self.vals(), rhs.vals())),
    {
        let conj = rhs.conjugate();
        let numerator = self.multiply(conj);
        let denominator = rhs.abs_squared();
        let re = numerator.real.divide(denominator);
        let im = numerator.imaginary.divide(denominator);
        proof {
            let av = self.vals();
            let bv = rhs.vals();
            lemma_q_div_congruence(
                numerator.real.pair(),
                denominator.pair(),
                c_mul(av, c_conj(bv)).0,
                c_norm_sq(bv),
            );
            lemma_q_div_congruence(
                numerator.imaginary.pair(),
                denominator.pair(),
                c_mul(av, c_conj(bv)).1,
                c_norm_sq(bv),
            );
            assert(q_div(numerator.real.pair(), denominator.pair()).1 != 0) by (nonlinear_arith)
                requires
                    numerator.real.den() > 0,
                    denominator.num() != 0,
                    q_div(numerator.real.pair(), denominator.pair()).1 == numerator.real.den()
                        * denominator.num(),
            ;
            assert(q_div(numerator.imaginary.pair(), denominator.pair()).1 != 0)
                by (nonlinear_arith)
                requires
                    numerator.imaginary.den() > 0,
                    denominator.num() != 0,
                    q_div(numerator.imaginary.pair(), denominator.pair()).1
                        == numerator.imaginary.den() * denominator.num(),
            ;
            lemma_q_eq_trans(
                re.pair(),
                q_div(numerator.real.pair(), denominator.pair()),
                c_div(av, bv).0,
            );
            lemma_q_eq_trans(
                im.pair(),
                q_div(numerator.imaginary.pair(), denominator.pair()),
                c_div(av, bv).1,
            );
        }
        Complex { real: re, imaginary: im }
    }

    /// A complex number whose components are the signs (-1, 0 or 1) of the
    /// corresponding components of the input.
    pub fn signum(self) -> (r: Complex)
        ensures
            r.real.den() == 1,
            r.imaginary.den() == 1,
            r.real.num() == 1 <==> self.real.num() > 0,
            r.real.num() == -1 <==> self.real.num() < 0,
            r.real.num() == 0 <==> self.real.num() == 0,
            r.imaginary.num() == 1 <==> self.imaginary.num() > 0,
            r.imaginary.num() == -1 <==> self.imaginary.num() < 0,
            r.imaginary.num() == 0 <==> self.imaginary.num() == 0,
    {
        Complex::from_i32_pair(self.real.signum(), self.imaginary.signum())
    }

    /// Replaces the value by the component-wise sum.
    pub fn add_assign(&mut self, rhs: Complex)
        requires
            old(self).wf(),
            rhs.wf(),
            complex_add_fits(*old(self), rhs),
        ensures
            final(self).real == spec_add_frac(old(self).real, rhs.real),
            final(self).imaginary == spec_add_frac(old(self).imaginary, rhs.imaginary),
            final(self).is_simplified(),
    {
        let s = *self;
        *self = s.add(rhs);
    }

    /// Replaces the value by the component-wise difference.
    pub fn sub_assign(&mut self, rhs: Complex)
        requires
            old(self).wf(),
            rhs.wf(),
            complex_sub_fits(*old(self), rhs),
        ensures
            final(self).real == spec_sub_frac(old(self).real, rhs.real),
            final(self).imaginary == spec_sub_frac(old(self).imaginary, rhs.imaginary),
            final(self).is_simplified(),
    {
        let s = *self;
        *self = s.subtract(rhs);
    }

    /// Replaces the value by the complex product.
    pub fn mul_assign(&mut self, rhs: Complex)
        requires
            old(self).wf(),
            rhs.wf(),
            complex_mul_fits(*old(self), rhs),
        ensures
            final(self).real == spec_c_mul_real(*old(self), rhs),
            final(self).imaginary == spec_c_mul_imag(*old(self), rhs),
            final(self).is_simplified(),
    {
        let s = *self;
        *self = s.multiply(rhs);
    }

    /// Replaces the value by the complex quotient.
    pub fn div_assign(&mut self, rhs: Complex)
        requires
            old(self).wf(),
            rhs.wf(),
            complex_div_fits(*old(self), rhs),
        ensures
            final(self).is_simplified(),
            final(self).real == spec_div_frac(
                spec_c_mul_real(*old(self), spec_conjugate(rhs)),
                spec_norm_sq(rhs),
            ),
            final(self).imaginary == spec_div_frac(
                spec_c_mul_imag(*old(self), spec_conjugate(rhs)),
                spec_norm_sq(rhs),
            ),
            c_eq(final(self).vals(), c_div(old(self).vals(), rhs.vals())),
    {
        let s = *self;
        *self = s.divide(rhs);
    }
}

/// The scale of the square-root grid: roots are approximated from below
/// in steps of `1/4096`.
pub open spec fn sqrt_scale() -> int {
    4096
}

/// The square root of `n/d`, approximated from below on the `1/4096`
/// grid, as a canonical fraction.
fn sqrt_frac_parts(n: u64, d: u64) -> (r: Fraction)
    requires
        0 < d <= u32::MAX as u64,
        n <= i32::MAX as u64,
    ensures
        r.is_simplified(),
        r.num() >= 0,
        (r.num() * r.num()) * d <= n * (r.den() * r.den()),
        n * ((r.den() * 4096) * (r.den() * 4096)) < ((r.num() * 4096 + r.den()) * (r.num() * 4096
            + r.den())) * d,
{
    proof {
        assert(n * 16777216 <= 0x7fff_ffff_ffff_ffffu64) by (nonlinear_arith)
            requires
                n <= 0x7fff_ffff,
        ;
    }
    let scaled: u64 = n * 16777216;
    let q: u64 = scaled / d;
    let s: u64 = crate::approx::isqrt_u64(q);
    proof {
        vstd::arithmetic::div_mod::lemma_fundamental_div_mod(scaled as int, d as int);
        assert(q * d <= scaled && scaled < (q + 1) * d) by (nonlinear_arith)
            requires
                scaled == d * q + (scaled as int) % (d as int),
                0 <= (scaled as int) % (d as int) < d,
                d > 0,
        ;
        assert(s < 0x1000_0000) by (nonlinear_arith)
            requires
                s * s <= q,
                q < 0x100_0000_0000_0000,
                s >= 0,
        ;
    }
    let r = Fraction::new(s as i32, 4096).unwrap();
    proof {
        let rn = r.num();
        let rd = r.den();
        let ni = n as int;
        let di = d as int;
        let si = s as int;
        assert(rn * 4096 == si * rd);
        assert(rn >= 0) by (nonlinear_arith)
            requires
                rn * 4096 == si * rd,
                si >= 0,
                rd > 0,
        ;
        // the square of the result sits at or below n/d
        assert((rn * 4096) * (rn * 4096) == (si * si) * (rd * rd)) by (nonlinear_arith)
            requires
                rn * 4096 == si * rd,
        ;
        assert((si * si) * di <= ni * 16777216) by (nonlinear_arith)
            requires
                si * si <= q as int,
                (q as int) * di <= ni * 16777216,
                di > 0,
                si * si >= 0,
        ;
        assert((rn * rn) * di <= ni * (rd * rd)) by (nonlinear_arith)
            requires
                (rn * 4096) * (rn * 4096) == (si * si) * (rd * rd),
                (si * si) * di <= ni * 16777216,
                di > 0,
                rd > 0,
                rn >= 0,
        ;
        // one grid step up overshoots n/d
        assert(rn * 4096 + rd == (si + 1) * rd) by (nonlinear_arith)
            requires
                rn * 4096 == si * rd,
        ;
        assert(ni * 16777216 < ((si + 1) * (si + 1)) * di) by (nonlinear_arith)
            requires
                ni * 16777216 < ((q as int) + 1) * di,
                (q as int) < ((si + 1) * (si + 1)),
                di > 0,
        ;
        assert(ni * ((rd * 4096) * (rd * 4096)) < ((rn * 4096 + rd) * (rn * 4096 + rd)) * di)
            by (nonlinear_arith)
            requires
                rn * 4096 + rd == (si + 1) * rd,
                ni * 16777216 < ((si + 1) * (si + 1)) * di,
                rd > 0,
                ni >= 0,
        ;
    }
    r
}

impl Fraction {
    /// The square root as a complex number: real for a non-negative value,
    /// purely imaginary for a negative one.  The root is approximated from
    /// below on a `1/4096` grid: the nonzero component `c` satisfies
    /// `c * c <= |self| < (c + 1/4096) * (c + 1/4096)`.
    pub fn sqrt(self) -> (c: Complex)
        requires
            self.wf(),
            self.numerator > i32::MIN,
        ensures
            c.is_simplified(),
            self.num() >= 0 ==> {
                &&& c.imaginary.num() == 0
                &&& c.real.num() >= 0
                &&& (c.real.num() * c.real.num()) * self.den() <= self.num() * (c.real.den()
                    * c.real.den())
                &&& self.num() * ((c.real.den() * 4096) * (c.real.den() * 4096)) < ((c.real.num()
                    * 4096 + c.real.den()) * (c.real.num() * 4096 + c.real.den())) * self.den()
            },
            self.num() < 0 ==> {
                &&& c.real.num() == 0
                &&& c.imaginary.num() >= 0
                &&& (c.imaginary.num() * c.imaginary.num()) * self.den() <= (-self.num()) * (
                c.imaginary.den() * c.imaginary.den())
                &&& (-self.num()) * ((c.imaginary.den() * 4096) * (c.imaginary.den() * 4096)) < ((
                c.imaginary.num() * 4096 + c.imaginary.den()) * (c.imaginary.num() * 4096
                    + c.imaginary.den())) * self.den()
            },
    {
        if self.numerator >= 0 {
            let root = sqrt_frac_parts(self.numerator as u64, self.denominator as u64);
            Complex::from(root, Fraction::from_i32(0))
        } else {
            let mag: u32 = (-self.numerator) as u32;
            let root = sqrt_frac_parts(mag as u64, self.denominator as u64);
            Complex::from(Fraction::from_i32(0), root)
        }
    }
}

impl Complex {
    /// The modulus: the square root of the squared modulus, taking the
    /// real component of the (always real) root.  Approximate: the result
    /// `r` satisfies `r * r <= |self|^2 < (r + 1/4096) * (r + 1/4096)`.
    pub fn abs(self) -> (r: Fraction)
        requires
            self.wf(),
            complex_abs_sq_fits(self),
        ensures
            r.is_simplified(),
            r.num() >= 0,
            (r.num() * r.num()) * spec_norm_sq(self).den() <= spec_norm_sq(self).num() * (r.den()
                * r.den()),
            spec_norm_sq(self).num() * ((r.den() * 4096) * (r.den() * 4096)) < ((r.num() * 4096
                + r.den()) * (r.num() * 4096 + r.den())) * spec_norm_sq(self).den(),
    {
        self.abs_squared().sqrt().get_real()
    }
}

} // verus!
