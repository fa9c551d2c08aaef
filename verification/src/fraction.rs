//! The `Fraction` type: an exact rational number stored as a signed
//! numerator over an unsigned, positive denominator, kept canonical by
//! reduction to lowest terms.

use vstd::prelude::*;
use crate::gcd::{
    gcd, lemma_divides_bound, lemma_gcd_divides, lemma_gcd_pos, lemma_gcd_scale,
    lemma_reduce_coprime, spec_gcd,
};
use vstd::arithmetic::div_mod::lemma_div_multiples_vanish;

verus! {

/// A rational number: the sign lives in the numerator, the denominator is
/// unsigned and positive for every value built through a checked path.
#[derive(Clone, Copy, Debug)]
pub struct Fraction {
    pub numerator: i32,
    pub denominator: u32,
}

/// Marker error: a checked constructor was handed a zero denominator, or a
/// reciprocal was taken of the zero fraction.
#[derive(Clone, Copy, Debug, PartialEq, Eq, Structural)]
pub struct DivByZeroError;

/// Magnitude of an integer, as a natural number.
pub open spec fn abs_nat(n: int) -> nat {
    if n >= 0 {
        n as nat
    } else {
        (-n) as nat
    }
}

/// The gcd of `|n|` and `|d|`, as an integer.
pub open spec fn common_factor(n: int, d: int) -> int {
    spec_gcd(abs_nat(n), abs_nat(d)) as int
}

/// Numerator of `n/d` in lowest terms.
pub open spec fn reduced_num(n: int, d: int) -> int {
    n / common_factor(n, d)
}

/// Denominator of `n/d` in lowest terms.
pub open spec fn reduced_den(n: int, d: int) -> int {
    d / common_factor(n, d)
}

// Rational values, at the specification level, are pairs
// (numerator, denominator) of unbounded integers.

/// Sum of two rational pairs, over the common denominator.
pub open spec fn q_add(x: (int, int), y: (int, int)) -> (int, int) {
    (x.0 * y.1 + y.0 * x.1, x.1 * y.1)
}

/// Difference of two rational pairs.
pub open spec fn q_sub(x: (int, int), y: (int, int)) -> (int, int) {
    (x.0 * y.1 - y.0 * x.1, x.1 * y.1)
}

/// Product of two rational pairs.
pub open spec fn q_mul(x: (int, int), y: (int, int)) -> (int, int) {
    (x.0 * y.0, x.1 * y.1)
}

/// Negation of a rational pair.
pub open spec fn q_neg(x: (int, int)) -> (int, int) {
    (-x.0, x.1)
}

/// Quotient of two rational pairs.
pub open spec fn q_div(x: (int, int), y: (int, int)) -> (int, int) {
    (x.0 * y.1, x.1 * y.0)
}

/// Two rational pairs denote the same value: equality by cross
/// multiplication.
pub open spec fn q_eq(x: (int, int), y: (int, int)) -> bool {
    x.0 * y.1 == y.0 * x.1
}

impl Fraction {
    /// The stored numerator, as an unbounded integer.
    pub open spec fn num(self) -> int {
        self.numerator as int
    }

    /// The stored denominator, as an unbounded integer.
    pub open spec fn den(self) -> int {
        self.denominator as int
    }

    /// The rational pair this fraction stores.
    pub open spec fn pair(self) -> (int, int) {
        (self.num(), self.den())
    }

    /// The invariant of every checked constructor: a positive denominator.
    pub open spec fn wf(self) -> bool {
        self.den() > 0
    }

    /// Canonical form: positive denominator, numerator and denominator
    /// coprime.
    pub open spec fn is_simplified(self) -> bool {
        self.wf() && spec_gcd(abs_nat(self.num()), self.denominator as nat) == 1
    }

    /// The stored pair denotes the rational `n/d`.
    pub open spec fn represents(self, n: int, d: int) -> bool {
        self.num() * d == n * self.den()
    }

    /// Two fractions denote the same rational value, compared by cross
    /// multiplication of their components.
    pub open spec fn same_value(self, other: Fraction) -> bool {
        self.num() * other.den() == other.num() * self.den()
    }
}

/// Reduction to lowest terms: the reduced pair multiplies back to the
/// original one, is coprime, keeps the denominator positive, denotes the
/// same value, and is no larger in magnitude than what it came from.
pub proof fn lemma_reduced(n: int, d: int)
    requires
        d > 0,
    ensures
        common_factor(n, d) > 0,
        reduced_num(n, d) * common_factor(n, d) == n,
        reduced_den(n, d) * common_factor(n, d) == d,
        reduced_den(n, d) > 0,
        spec_gcd(abs_nat(reduced_num(n, d)), abs_nat(reduced_den(n, d))) == 1,
        reduced_num(n, d) * d == n * reduced_den(n, d),
        abs_nat(reduced_num(n, d)) <= abs_nat(n),
        abs_nat(reduced_num(n, d)) == abs_nat(n) / (common_factor(n, d) as nat),
        reduced_den(n, d) <= d,
        n > 0 ==> reduced_num(n, d) > 0,
        n == 0 ==> reduced_num(n, d) == 0 && reduced_den(n, d) == 1,
        n < 0 ==> reduced_num(n, d) < 0,
{
    let a = abs_nat(n);
    let b = d as nat;
    let g = spec_gcd(a, b);
    lemma_reduce_coprime(a, b);
    lemma_gcd_divides(a, b);
    let ka = choose|k: int| a as int == #[trigger] ((g as int) * k);
    let kb = choose|k: int| b as int == #[trigger] ((g as int) * k);
    assert(ka >= 0 && kb >= 1) by (nonlinear_arith)
        requires
            g > 0,
            a as int == (g as int) * ka,
            b as int == (g as int) * kb,
            a >= 0,
            b >= 1,
    ;
    assert((g as int) * ka == ka * (g as int) && (g as int) * kb == kb * (g as int))
        by (nonlinear_arith);
    lemma_div_multiples_vanish(ka, g as int);
    lemma_div_multiples_vanish(kb, g as int);
    assert((a / g) as int == (a as int) / (g as int));
    assert((a as int) / (g as int) == ka);
    assert((b as int) / (g as int) == kb);
    assert(reduced_den(n, d) == kb);
    // the numerator divides out exactly, on either sign
    if n >= 0 {
        assert(reduced_num(n, d) == ka);
        assert(reduced_num(n, d) * (g as int) == n);
    } else {
        assert(n == (g as int) * (-ka)) by (nonlinear_arith)
            requires
                a as int == (g as int) * ka,
                n < 0,
                a == abs_nat(n),
        ;
        lemma_div_multiples_vanish(-ka, g as int);
        assert(n / (g as int) == -ka);
        assert(reduced_num(n, d) == -ka);
        assert(reduced_num(n, d) * (g as int) == -ka * (g as int));
        assert(-ka * (g as int) == -(ka * (g as int))) by (nonlinear_arith);
    }
    let rn = reduced_num(n, d);
    let rd = reduced_den(n, d);
    assert(abs_nat(rn) == a / g);
    assert(spec_gcd(abs_nat(rn), abs_nat(rd)) == 1);
    assert(rn * d == n * rd) by (nonlinear_arith)
        requires
            rn * (g as int) == n,
            rd * (g as int) == d,
    ;
    assert(abs_nat(rn) <= a && rd <= d) by (nonlinear_arith)
        requires
            g >= 1,
            ka >= 0,
            kb >= 1,
            abs_nat(rn) == ka,
            rd == kb,
            a as int == (g as int) * ka,
            d == (g as int) * kb,
    ;
    assert((n > 0 ==> rn > 0) && (n < 0 ==> rn < 0)) by (nonlinear_arith)
        requires
            rn * (g as int) == n,
            g > 0,
    ;
    assert(abs_nat(rn) == a / g);
    if n == 0 {
        assert(a == 0);
        assert(spec_gcd(0, b) == spec_gcd(b, 0));
        assert(g == b);
        assert(kb == 1) by (nonlinear_arith)
            requires
                b as int == (g as int) * kb,
                g == b,
                b > 0,
        ;
    }
}

/// Scaling numerator and denominator by the same positive factor does not
/// change the reduced form.
pub proof fn lemma_reduced_scale(n: int, d: int, k: int)
    requires
        d > 0,
        k > 0,
    ensures
        reduced_num(k * n, k * d) == reduced_num(n, d),
        reduced_den(k * n, k * d) == reduced_den(n, d),
{
    let a = abs_nat(n);
    let g = common_factor(n, d);
    lemma_reduced(n, d);
    assert(abs_nat(k * n) == (k as nat) * a) by (nonlinear_arith)
        requires
            k > 0,
            a == abs_nat(n),
    ;
    assert(abs_nat(k * d) == (k as nat) * (d as nat)) by (nonlinear_arith)
        requires
            k > 0,
            d > 0,
    ;
    lemma_gcd_scale(k as nat, a, d as nat);
    assert(common_factor(k * n, k * d) == k * g);
    let rn = reduced_num(n, d);
    let rd = reduced_den(n, d);
    assert(k * n == (k * g) * rn && k * d == (k * g) * rd) by (nonlinear_arith)
        requires
            rn * g == n,
            rd * g == d,
    ;
    assert(k * g > 0) by (nonlinear_arith)
        requires
            k > 0,
            g > 0,
    ;
    lemma_div_multiples_vanish(rn, k * g);
    lemma_div_multiples_vanish(rd, k * g);
    assert((k * n) / (k * g) == rn);
    assert((k * n) / common_factor(k * n, k * d) == rn);
}

impl Fraction {
    /// Creates a fraction with the components exactly as given; fails if
    /// and only if the denominator is zero.  No reduction is applied.
    pub fn unsimplified_new(numerator: i32, denominator: u32) -> (r: Result<
        Fraction,
        DivByZeroError,
    >)
        ensures
            denominator == 0 <==> r is Err,
            r matches Ok(f) ==> f.numerator == numerator && f.denominator == denominator,
    {
        if denominator == 0 {
            return Err(DivByZeroError);
        }
        Ok(Fraction { numerator, denominator })
    }

    /// Creates a fraction with no checks at all; a zero denominator gives a
    /// value that every operation dividing by the denominator treats as
    /// erroneous.
    pub fn unchecked_new(numerator: i32, denominator: u32) -> (r: Fraction)
        ensures
            r.numerator == numerator,
            r.denominator == denominator,
    {
        Fraction { numerator, denominator }
    }

    /// Reduces the fraction to lowest terms by dividing both components by
    /// their greatest common divisor.  A zero numerator reduces to `0/1`.
    pub fn simplify(&self) -> (r: Fraction)
        requires
            self.wf(),
            self.numerator > i32::MIN,
        ensures
            r.num() == reduced_num(self.num(), self.den()),
            r.den() == reduced_den(self.num(), self.den()),
            r.is_simplified(),
            r.same_value(*self),
    {
        proof {
            lemma_reduced(self.num(), self.den());
        }
        let num_abs: u32 = if self.numerator < 0 {
            (-self.numerator) as u32
        } else {
            self.numerator as u32
        };
        let g: u32 = gcd(num_abs, self.denominator);
        let q: u32 = num_abs / g;
        let numerator: i32 = if self.numerator < 0 {
            -(q as i32)
        } else {
            q as i32
        };
        let denominator: u32 = self.denominator / g;
        proof {
            let n = self.num();
            let d = self.den();
            let gi = common_factor(n, d);
            assert(g == gi);
            assert(q == abs_nat(n) / (g as nat));
            assert(q as int == abs_nat(reduced_num(n, d)));
            assert(numerator as int == reduced_num(n, d));
            assert(denominator as int == (d as nat / g as nat) as int);
        }
        Fraction { numerator, denominator }
    }

    /// Creates a fully simplified fraction; fails if and only if the
    /// denominator is zero.
    pub fn new(numerator: i32, denominator: u32) -> (r: Result<Fraction, DivByZeroError>)
        requires
            denominator == 0 || numerator > i32::MIN,
        ensures
            denominator == 0 <==> r is Err,
            r matches Ok(f) ==> {
                &&& f.num() == reduced_num(numerator as int, denominator as int)
                &&& f.den() == reduced_den(numerator as int, denominator as int)
                &&& f.is_simplified()
                &&& f.represents(numerator as int, denominator as int)
            },
    {
        let fraction = match Fraction::unsimplified_new(numerator, denominator) {
            Ok(f) => f,
            Err(e) => {
                return Err(e);
            },
        };
        Ok(fraction.simplify())
    }

    /// Creates the whole-number fraction `value/1`; always valid and in
    /// lowest terms.
    pub fn from_i32(value: i32) -> (r: Fraction)
        ensures
            r.numerator == value,
            r.denominator == 1,
            r.is_simplified(),
    {
        proof {
            lemma_gcd_pos(abs_nat(value as int), 1);
            lemma_gcd_divides(abs_nat(value as int), 1);
            lemma_divides_bound(spec_gcd(abs_nat(value as int), 1) as int, 1);
        }
        Fraction::unchecked_new(value, 1)
    }

    /// The numerator and denominator, as a pair.
    pub fn get_components(&self) -> (r: (i32, u32))
        ensures
            r.0 == self.numerator,
            r.1 == self.denominator,
    {
        (self.numerator, self.denominator)
    }

    /// The numerator.
    pub fn get_numerator(&self) -> (r: i32)
        ensures
            r == self.numerator,
    {
        self.numerator
    }

    /// The denominator.
    pub fn get_denominator(&self) -> (r: u32)
        ensures
            r == self.denominator,
    {
        self.denominator
    }
}

/// The negation of `f`, at the specification level.
pub open spec fn spec_negate(f: Fraction) -> Fraction {
    Fraction { numerator: (-f.num()) as i32, denominator: f.denominator }
}

/// The reciprocal of `f`, at the specification level: numerator and
/// denominator swapped, the sign pushed onto the new numerator.
pub open spec fn spec_reciprocal(f: Fraction) -> Fraction {
    Fraction {
        numerator: (if f.num() > 0 {
            f.den()
        } else {
            -f.den()
        }) as i32,
        denominator: abs_nat(f.num()) as u32,
    }
}

/// The fraction `add` returns: the canonical form of the summed pair.
pub open spec fn spec_add_frac(a: Fraction, b: Fraction) -> Fraction {
    Fraction {
        numerator: reduced_num(q_add(a.pair(), b.pair()).0, q_add(a.pair(), b.pair()).1) as i32,
        denominator: reduced_den(q_add(a.pair(), b.pair()).0, q_add(a.pair(), b.pair()).1) as u32,
    }
}

/// The fraction `subtract` returns: the canonical form of the difference.
pub open spec fn spec_sub_frac(a: Fraction, b: Fraction) -> Fraction {
    Fraction {
        numerator: reduced_num(q_sub(a.pair(), b.pair()).0, q_sub(a.pair(), b.pair()).1) as i32,
        denominator: reduced_den(q_sub(a.pair(), b.pair()).0, q_sub(a.pair(), b.pair()).1) as u32,
    }
}

/// The fraction `multiply` returns: the canonical form of the product.
pub open spec fn spec_mul_frac(a: Fraction, b: Fraction) -> Fraction {
    Fraction {
        numerator: reduced_num(q_mul(a.pair(), b.pair()).0, q_mul(a.pair(), b.pair()).1) as i32,
        denominator: reduced_den(q_mul(a.pair(), b.pair()).0, q_mul(a.pair(), b.pair()).1) as u32,
    }
}

/// The fraction `divide` returns: the canonical form of the product with
/// the reciprocal of the divisor.
pub open spec fn spec_div_frac(a: Fraction, b: Fraction) -> Fraction {
    spec_mul_frac(a, spec_reciprocal(b))
}

/// The intermediate values of `add` stay within the machine integers.
/// The sum is combined over the least common multiple of the denominators,
/// `lcm(b, d) == b * d / gcd(b, d)`.
pub open spec fn add_fits(a: Fraction, b: Fraction) -> bool {
    let g = spec_gcd(a.denominator as nat, b.denominator as nat) as int;
    let x = a.num() * (b.den() / g);
    let y = b.num() * (a.den() / g);
    &&& i32::MIN <= x <= i32::MAX
    &&& i32::MIN <= y <= i32::MAX
    &&& i32::MIN < x + y <= i32::MAX
    &&& a.den() * (b.den() / g) <= u32::MAX
}

/// The intermediate values of `subtract` stay within the machine integers.
pub open spec fn sub_fits(a: Fraction, b: Fraction) -> bool {
    b.numerator > i32::MIN && add_fits(a, spec_negate(b))
}

/// The intermediate values of `multiply` stay within the machine integers.
pub open spec fn mul_fits(a: Fraction, b: Fraction) -> bool {
    &&& i32::MIN < a.num() * b.num() <= i32::MAX
    &&& a.den() * b.den() <= u32::MAX
}

/// The intermediate values of `divide` stay within the machine integers,
/// and the divisor is a nonzero fraction.
pub open spec fn div_fits(a: Fraction, b: Fraction) -> bool {
    &&& b.numerator != 0
    &&& b.numerator > i32::MIN
    &&& b.denominator <= i32::MAX as u32
    &&& mul_fits(a, spec_reciprocal(b))
}

/// A numerator crossed with a denominator fits a 64-bit machine integer.
proof fn lemma_cross_fits(n: int, d: int)
    requires
        i32::MIN <= n <= i32::MAX,
        0 <= d <= u32::MAX,
    ensures
        i64::MIN <= n * d <= i64::MAX,
{
    assert(i64::MIN <= n * d <= i64::MAX) by (nonlinear_arith)
        requires
            -0x8000_0000 <= n <= 0x7fff_ffff,
            0 <= d <= 0xffff_ffff,
    ;
}

impl Fraction {
    /// The sum of two fractions, reduced to lowest terms.  The result is
    /// the canonical form of `q_add` of the two stored pairs, so summing in
    /// either order gives the same fraction.
    pub fn add(self, rhs: Fraction) -> (r: Fraction)
        requires
            self.wf(),
            rhs.wf(),
            add_fits(self, rhs),
        ensures
            r.num() == reduced_num(q_add(self.pair(), rhs.pair()).0, q_add(self.pair(), rhs.pair()).1),
            r.den() == reduced_den(q_add(self.pair(), rhs.pair()).0, q_add(self.pair(), rhs.pair()).1),
            r.is_simplified(),
            r == spec_add_frac(self, rhs),
            q_eq(r.pair(), q_add(self.pair(), rhs.pair())),
    {
        let ghost ad = self.den();
        let ghost bd = rhs.den();
        let g: u32 = gcd(self.denominator, rhs.denominator);
        proof {
            lemma_gcd_pos(self.denominator as nat, rhs.denominator as nat);
            lemma_gcd_divides(self.denominator as nat, rhs.denominator as nat);
        }
        let bq: u32 = rhs.denominator / g;
        let aq: u32 = self.denominator / g;
        proof {
            let gi = g as int;
            let kb = choose|k: int| bd == #[trigger] (gi * k);
            let ka = choose|k: int| ad == #[trigger] (gi * k);
            lemma_div_exact(bd, gi, kb);
            lemma_div_exact(ad, gi, ka);
            assert(bq as int * gi == bd);
            assert(aq as int * gi == ad);
            assert(bq >= 1 && aq >= 1) by (nonlinear_arith)
                requires
                    bq as int * gi == bd,
                    aq as int * gi == ad,
                    gi > 0,
                    ad > 0,
                    bd > 0,
            ;
        }
        let x: i64 = (self.numerator as i64) * (bq as i64);
        let y: i64 = (rhs.numerator as i64) * (aq as i64);
        let num_lcm: i64 = x + y;
        let den_lcm: u64 = (self.denominator as u64) * (bq as u64);
        proof {
            assert(den_lcm > 0) by (nonlinear_arith)
                requires
                    den_lcm == ad * (bq as int),
                    ad > 0,
                    bq >= 1,
            ;
        }
        let r = Fraction::new(num_lcm as i32, den_lcm as u32).unwrap();
        proof {
            let s = q_add(self.pair(), rhs.pair()).0;
            let d = q_add(self.pair(), rhs.pair()).1;
            let gi = g as int;
            assert(gi * (num_lcm as int) == s && gi * (den_lcm as int) == d) by (nonlinear_arith)
                requires
                    num_lcm == self.num() * (bq as int) + rhs.num() * (aq as int),
                    den_lcm == self.den() * (bq as int),
                    bq as int * gi == rhs.den(),
                    aq as int * gi == self.den(),
                    s == self.num() * rhs.den() + rhs.num() * self.den(),
                    d == self.den() * rhs.den(),
            ;
            lemma_reduced_scale(num_lcm as int, den_lcm as int, gi);
            assert(d > 0) by (nonlinear_arith)
                requires
                    d == self.den() * rhs.den(),
                    self.den() > 0,
                    rhs.den() > 0,
            ;
            lemma_reduced(s, d);
        }
        r
    }

    /// The fraction with the numerator negated; the denominator, and hence
    /// canonicity, is untouched.
    pub fn negate(self) -> (r: Fraction)
        requires
            self.numerator > i32::MIN,
        ensures
            r.num() == -self.num(),
            r.den() == self.den(),
            q_eq(r.pair(), q_neg(self.pair())),
            self.is_simplified() ==> r.is_simplified(),
    {
        Fraction::unchecked_new(-self.numerator, self.denominator)
    }

    /// The difference of two fractions: the sum with the negation of the
    /// right-hand side, reduced to lowest terms.
    pub fn subtract(self, rhs: Fraction) -> (r: Fraction)
        requires
            self.wf(),
            rhs.wf(),
            sub_fits(self, rhs),
        ensures
            r.num() == reduced_num(q_sub(self.pair(), rhs.pair()).0, q_sub(self.pair(), rhs.pair()).1),
            r.den() == reduced_den(q_sub(self.pair(), rhs.pair()).0, q_sub(self.pair(), rhs.pair()).1),
            r.is_simplified(),
            r == spec_sub_frac(self, rhs),
            q_eq(r.pair(), q_sub(self.pair(), rhs.pair())),
    {
        let neg = rhs.negate();
        proof {
            assert(neg == spec_negate(rhs));
            assert(q_add(self.pair(), neg.pair()).0 == q_sub(self.pair(), rhs.pair()).0)
                by (nonlinear_arith)
                requires
                    neg.num() == -rhs.num(),
                    neg.den() == rhs.den(),
            ;
        }
        self.add(neg)
    }

    /// The product of two fractions, reduced to lowest terms.
    pub fn multiply(self, rhs: Fraction) -> (r: Fraction)
        requires
            self.wf(),
            rhs.wf(),
            mul_fits(self, rhs),
        ensures
            r.num() == reduced_num(q_mul(self.pair(), rhs.pair()).0, q_mul(self.pair(), rhs.pair()).1),
            r.den() == reduced_den(q_mul(self.pair(), rhs.pair()).0, q_mul(self.pair(), rhs.pair()).1),
            r.is_simplified(),
            r == spec_mul_frac(self, rhs),
            q_eq(r.pair(), q_mul(self.pair(), rhs.pair())),
    {
        proof {
            assert(i64::MIN <= self.num() * rhs.num() <= i64::MAX) by (nonlinear_arith)
                requires
                    -0x8000_0000 <= self.num() <= 0x7fff_ffff,
                    -0x8000_0000 <= rhs.num() <= 0x7fff_ffff,
            ;
            assert(self.den() * rhs.den() > 0) by (nonlinear_arith)
                requires
                    self.den() > 0,
                    rhs.den() > 0,
            ;
        }
        let num64: i64 = (self.numerator as i64) * (rhs.numerator as i64);
        let den64: u64 = (self.denominator as u64) * (rhs.denominator as u64);
        let r = Fraction::new(num64 as i32, den64 as u32).unwrap();
        proof {
            lemma_reduced(q_mul(self.pair(), rhs.pair()).0, q_mul(self.pair(), rhs.pair()).1);
        }
        r
    }

    /// The sign of the fraction: the sign of the numerator, since the
    /// denominator is never negative.
    pub fn signum(self) -> (r: i32)
        ensures
            r == 1 <==> self.num() > 0,
            r == -1 <==> self.num() < 0,
            r == 0 <==> self.num() == 0,
    {
        if self.numerator > 0 {
            1
        } else if self.numerator < 0 {
            -1
        } else {
            0
        }
    }

    /// Numerator and denominator swapped, the sign kept on the numerator
    /// side; fails if and only if the numerator is zero.  The result is not
    /// re-simplified, matching `unsimplified_new`.
    pub fn reciprocal(self) -> (r: Result<Fraction, DivByZeroError>)
        requires
            self.numerator > i32::MIN,
            self.denominator <= i32::MAX as u32,
        ensures
            self.numerator == 0 <==> r is Err,
            r matches Ok(f) ==> {
                &&& f == spec_reciprocal(self)
                &&& f.wf()
                &&& q_eq(f.pair(), (self.den(), self.num()))
            },
    {
        let signum: i32 = if self.numerator > 0 {
            1
        } else if self.numerator < 0 {
            -1
        } else {
            0
        };
        let numerator: i32 = (self.denominator as i32) * signum;
        let num_abs: u32 = if self.numerator < 0 {
            (-self.numerator) as u32
        } else {
            self.numerator as u32
        };
        let r = Fraction::unsimplified_new(numerator, num_abs);
        proof {
            if self.numerator != 0 {
                let f = spec_reciprocal(self);
                assert(numerator as int == f.num());
                assert(f.num() * self.num() == self.den() * f.den()) by (nonlinear_arith)
                    requires
                        f.num() == if self.num() > 0 {
                            self.den()
                        } else {
                            -self.den()
                        },
                        f.den() == abs_nat(self.num()),
                        self.num() != 0,
                ;
            }
        }
        r
    }

    /// The absolute value: the numerator's magnitude over the unchanged
    /// denominator.
    pub fn abs(self) -> (r: Fraction)
        requires
            self.numerator > i32::MIN,
        ensures
            r.num() == abs_nat(self.num()),
            r.den() == self.den(),
            self.is_simplified() ==> r.is_simplified(),
    {
        let numerator: i32 = if self.numerator < 0 {
            -self.numerator
        } else {
            self.numerator
        };
        Fraction::unchecked_new(numerator, self.denominator)
    }

    /// The quotient of two fractions: the product with the reciprocal of
    /// the divisor, reduced to lowest terms.
    pub fn divide(self, rhs: Fraction) -> (r: Fraction)
        requires
            self.wf(),
            rhs.wf(),
            div_fits(self, rhs),
        ensures
            r.num() == reduced_num(
                q_mul(self.pair(), spec_reciprocal(rhs).pair()).0,
                q_mul(self.pair(), spec_reciprocal(rhs).pair()).1,
            ),
            r.den() == reduced_den(
                q_mul(self.pair(), spec_reciprocal(rhs).pair()).0,
                q_mul(self.pair(), spec_reciprocal(rhs).pair()).1,
            ),
            r.is_simplified(),
            r == spec_div_frac(self, rhs),
            q_eq(r.pair(), q_div(self.pair(), rhs.pair())),
    {
        let recip = rhs.reciprocal().unwrap();
        let r = self.multiply(recip);
        proof {
            let q = q_mul(self.pair(), recip.pair());
            assert(q.1 != 0) by (nonlinear_arith)
                requires
                    q.1 == self.den() * recip.den(),
                    self.den() > 0,
                    recip.den() > 0,
            ;
            // r ~ a * (1/b), and a * (1/b) ~ a / b
            assert(q_eq(q, q_div(self.pair(), rhs.pair()))) by (nonlinear_arith)
                requires
                    q == q_mul(self.pair(), recip.pair()),
                    recip.num() * rhs.num() == rhs.den() * recip.den(),
            ;
            lemma_q_eq_trans(r.pair(), q, q_div(self.pair(), rhs.pair()));
        }
        r
    }

    /// Value equality, by cross multiplication of the components: `1/2`
    /// equals `2/4` even though the stored pairs differ.
    pub fn equals(&self, other: &Fraction) -> (r: bool)
        ensures
            r == (self.num() * other.den() == other.num() * self.den()),
    {
        proof {
            lemma_cross_fits(self.num(), other.den());
            lemma_cross_fits(other.num(), self.den());
        }
        (self.numerator as i64) * (other.denominator as i64) == (other.numerator as i64)
            * (self.denominator as i64)
    }

    /// Exact three-way comparison by cross multiplication, with no
    /// floating-point error: `1` if `self` is the larger cross product,
    /// `-1` if the smaller, `0` on equality.  For well-formed fractions
    /// this orders them by rational value.
    pub fn compare(&self, other: &Fraction) -> (r: i32)
        ensures
            r == 1 <==> self.num() * other.den() > other.num() * self.den(),
            r == -1 <==> self.num() * other.den() < other.num() * self.den(),
            r == 0 <==> self.num() * other.den() == other.num() * self.den(),
    {
        proof {
            lemma_cross_fits(self.num(), other.den());
            lemma_cross_fits(other.num(), self.den());
        }
        let lhs: i64 = (self.numerator as i64) * (other.denominator as i64);
        let rhs: i64 = (other.numerator as i64) * (self.denominator as i64);
        if lhs > rhs {
            1
        } else if lhs < rhs {
            -1
        } else {
            0
        }
    }

    /// Replaces the value by the sum, as `add` computes it.
    pub fn add_assign(&mut self, rhs: Fraction)
        requires
            old(self).wf(),
            rhs.wf(),
            add_fits(*old(self), rhs),
        ensures
            final(self).num() == reduced_num(
                q_add(old(self).pair(), rhs.pair()).0,
                q_add(old(self).pair(), rhs.pair()).1,
            ),
            final(self).den() == reduced_den(
                q_add(old(self).pair(), rhs.pair()).0,
                q_add(old(self).pair(), rhs.pair()).1,
            ),
            final(self).is_simplified(),
    {
        let s = *self;
        *self = s.add(rhs);
    }

    /// Replaces the value by the difference, as `subtract` computes it.
    pub fn sub_assign(&mut self, rhs: Fraction)
        requires
            old(self).wf(),
            rhs.wf(),
            sub_fits(*old(self), rhs),
        ensures
            final(self).num() == reduced_num(
                q_sub(old(self).pair(), rhs.pair()).0,
                q_sub(old(self).pair(), rhs.pair()).1,
            ),
            final(self).den() == reduced_den(
                q_sub(old(self).pair(), rhs.pair()).0,
                q_sub(old(self).pair(), rhs.pair()).1,
            ),
            final(self).is_simplified(),
    {
        let s = *self;
        *self = s.subtract(rhs);
    }

    /// Replaces the value by the product, as `multiply` computes it.
    pub fn mul_assign(&mut self, rhs: Fraction)
        requires
            old(self).wf(),
            rhs.wf(),
            mul_fits(*old(self), rhs),
        ensures
            final(self).num() == reduced_num(
                q_mul(old(self).pair(), rhs.pair()).0,
                q_mul(old(self).pair(), rhs.pair()).1,
            ),
            final(self).den() == reduced_den(
                q_mul(old(self).pair(), rhs.pair()).0,
                q_mul(old(self).pair(), rhs.pair()).1,
            ),
            final(self).is_simplified(),
    {
        let s = *self;
        *self = s.multiply(rhs);
    }

    /// Replaces the value by the quotient, as `divide` computes it.
    pub fn div_assign(&mut self, rhs: Fraction)
        requires
            old(self).wf(),
            rhs.wf(),
            div_fits(*old(self), rhs),
        ensures
            final(self).is_simplified(),
            *final(self) == spec_div_frac(*old(self), rhs),
            q_eq(final(self).pair(), q_div(old(self).pair(), rhs.pair())),
    {
        let s = *self;
        *self = s.divide(rhs);
    }
}

/// Exact division: if `n == g * k` with `g > 0`, then `n / g == k` and the
/// quotient multiplies back to `n`.
proof fn lemma_div_exact(n: int, g: int, k: int)
    requires
        g > 0,
        n == g * k,
    ensures
        n / g == k,
        (n / g) * g == n,
{
    lemma_div_multiples_vanish(k, g);
    assert(k * g == g * k) by (nonlinear_arith);
}

/// Value equality of rational pairs is transitive, through a pair whose
/// denominator is nonzero.
pub proof fn lemma_q_eq_trans(x: (int, int), y: (int, int), z: (int, int))
    requires
        y.1 != 0,
        q_eq(x, y),
        q_eq(y, z),
    ensures
        q_eq(x, z),
{
    assert(x.0 * z.1 == z.0 * x.1) by (nonlinear_arith)
        requires
            y.1 != 0,
            x.0 * y.1 == y.0 * x.1,
            y.0 * z.1 == z.0 * y.1,
    ;
}

/// Addition of fractions is commutative: the summed pairs coincide, so the
/// canonical fractions `add` returns coincide as well.
pub proof fn lemma_add_commutative(a: Fraction, b: Fraction)
    ensures
        q_add(a.pair(), b.pair()) == q_add(b.pair(), a.pair()),
{
    assert(q_add(a.pair(), b.pair()).1 == q_add(b.pair(), a.pair()).1) by (nonlinear_arith);
}

/// Addition of fractions is associative: grouping either way yields the
/// same summed pair, so the canonical fractions `add` returns coincide.
pub proof fn lemma_add_associative(a: Fraction, b: Fraction, c: Fraction)
    ensures
        q_add(q_add(a.pair(), b.pair()), c.pair()) == q_add(a.pair(), q_add(b.pair(), c.pair())),
{
    let x = a.pair();
    let y = b.pair();
    let z = c.pair();
    assert((x.0 * y.1 + y.0 * x.1) * z.1 == x.0 * (y.1 * z.1) + y.0 * (x.1 * z.1))
        by (nonlinear_arith);
    assert((y.0 * z.1 + z.0 * y.1) * x.1 == y.0 * (x.1 * z.1) + z.0 * (x.1 * y.1))
        by (nonlinear_arith);
    assert((x.1 * y.1) * z.1 == x.1 * (y.1 * z.1)) by (nonlinear_arith);
    assert(q_add(q_add(x, y), z).0 == q_add(x, q_add(y, z)).0);
    assert(q_add(q_add(x, y), z).1 == q_add(x, q_add(y, z)).1);
}

/// A fraction plus its negation is the zero value.
pub proof fn lemma_add_negate_zero(a: Fraction)
    requires
        a.wf(),
    ensures
        q_eq(q_add(a.pair(), q_neg(a.pair())), (0, 1)),
{
    let n = a.num();
    let d = a.den();
    assert(n * d + (-n) * d == 0) by (nonlinear_arith);
    assert(q_add(a.pair(), q_neg(a.pair())).0 == n * d + (-n) * d);
    assert(q_add(a.pair(), q_neg(a.pair())).0 * 1 == 0 * q_add(a.pair(), q_neg(a.pair())).1)
        by (nonlinear_arith)
        requires
            q_add(a.pair(), q_neg(a.pair())).0 == 0,
    ;
}

/// A nonzero fraction times its reciprocal is the unit value.
pub proof fn lemma_mul_reciprocal_one(a: Fraction)
    requires
        a.wf(),
        a.num() != 0,
    ensures
        q_eq(q_mul(a.pair(), (a.den(), a.num())), (1, 1)),
{
    assert(a.num() * a.den() * 1 == 1 * (a.den() * a.num())) by (nonlinear_arith);
}

} // verus!
