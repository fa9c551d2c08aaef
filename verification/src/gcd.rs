//! Greatest common divisor: the specification-level Euclidean recursion,
//! the divisibility lemmas that reduction to lowest terms relies on, and
//! the executable algorithm.

use vstd::prelude::*;
use vstd::arithmetic::div_mod::{
    lemma_fundamental_div_mod, lemma_fundamental_div_mod_converse, lemma_mod_multiples_basic,
};
use vstd::arithmetic::mul::lemma_mul_is_commutative;

verus! {

/// `d` divides `n`: some integer multiple of `d` equals `n`.
pub open spec fn divides(d: int, n: int) -> bool {
    exists|k: int| n == #[trigger] (d * k)
}

/// Greatest common divisor of two natural numbers, by the Euclidean
/// recursion.  `spec_gcd(a, 0) == a`, and hence `spec_gcd(0, n) == n`.
pub open spec fn spec_gcd(a: nat, b: nat) -> nat
    decreases b,
{
    if b == 0 {
        a
    } else {
        spec_gcd(b, a % b)
    }
}

/// A divisor of `x` and `y` divides every integer combination of them.
pub proof fn lemma_divides_linear(d: int, x: int, y: int, a: int, b: int)
    requires
        divides(d, x),
        divides(d, y),
    ensures
        divides(d, a * x + b * y),
{
    let kx = choose|k: int| x == #[trigger] (d * k);
    let ky = choose|k: int| y == #[trigger] (d * k);
    assert(a * (d * kx) + b * (d * ky) == d * (a * kx + b * ky)) by (nonlinear_arith);
    assert(a * x + b * y == d * (a * kx + b * ky));
}

/// The gcd divides both of its arguments.
pub proof fn lemma_gcd_divides(a: nat, b: nat)
    ensures
        divides(spec_gcd(a, b) as int, a as int),
        divides(spec_gcd(a, b) as int, b as int),
    decreases b,
{
    if b == 0 {
        assert(a as int == (a as int) * 1);
        assert(0int == (a as int) * 0);
    } else {
        lemma_gcd_divides(b, a % b);
        let g = spec_gcd(a, b) as int;
        lemma_fundamental_div_mod(a as int, b as int);
        assert(a as int == (b as int) * ((a as int) / (b as int)) + (a as int) % (b as int));
        lemma_divides_linear(g, b as int, (a % b) as int, (a as int) / (b as int), 1);
        assert((a as int) / (b as int) * (b as int) + 1 * ((a % b) as int) == a as int) by {
            lemma_mul_is_commutative(b as int, (a as int) / (b as int));
        }
    }
}

/// The gcd is positive as soon as one argument is.
pub proof fn lemma_gcd_pos(a: nat, b: nat)
    ensures
        a > 0 || b > 0 ==> spec_gcd(a, b) > 0,
    decreases b,
{
    if b != 0 {
        lemma_gcd_pos(b, a % b);
    }
}

/// A positive divisor of a positive number is no larger than it.
pub proof fn lemma_divides_bound(d: int, n: int)
    requires
        divides(d, n),
        d > 0,
        n > 0,
    ensures
        d <= n,
{
    let k = choose|kk: int| n == #[trigger] (d * kk);
    assert(d <= d * k) by (nonlinear_arith)
        requires d > 0, d * k > 0;
}

/// Every common divisor of `a` and `b` divides their gcd.
pub proof fn lemma_common_divides_gcd(a: nat, b: nat, c: int)
    requires
        divides(c, a as int),
        divides(c, b as int),
    ensures
        divides(c, spec_gcd(a, b) as int),
    decreases b,
{
    if b != 0 {
        lemma_fundamental_div_mod(a as int, b as int);
        assert((a % b) as int == 1 * (a as int) + (-((a as int) / (b as int))) * (b as int))
            by (nonlinear_arith)
            requires
                a as int == (b as int) * ((a as int) / (b as int)) + (a as int) % (b as int);
        lemma_divides_linear(c, a as int, b as int, 1, -((a as int) / (b as int)));
        lemma_common_divides_gcd(b, a % b, c);
    }
}

/// Scaling both arguments scales the gcd.
pub proof fn lemma_gcd_scale(k: nat, a: nat, b: nat)
    requires
        k > 0,
    ensures
        spec_gcd(k * a, k * b) == k * spec_gcd(a, b),
    decreases b,
{
    if b == 0 {
        assert(k * b == 0) by (nonlinear_arith)
            requires b == 0;
    } else {
        let q = (a as int) / (b as int);
        let r = (a as int) % (b as int);
        lemma_fundamental_div_mod(a as int, b as int);
        assert((k * a) as int == q * ((k * b) as int) + (k as int) * r) by (nonlinear_arith)
            requires a as int == (b as int) * q + r;
        assert(0 <= (k as int) * r < (k * b) as int) by (nonlinear_arith)
            requires k > 0, 0 <= r < b as int;
        lemma_fundamental_div_mod_converse((k * a) as int, (k * b) as int, q, (k as int) * r);
        assert((k * a) % (k * b) == k * (a % b)) by {
            assert(((k * a) as int) % ((k * b) as int) == (k as int) * r);
        }
        assert(k * b != 0) by (nonlinear_arith)
            requires k > 0, b > 0;
        lemma_gcd_scale(k, b, a % b);
    }
}

/// Dividing two numbers by their gcd leaves them coprime.
pub proof fn lemma_reduce_coprime(a: nat, b: nat)
    requires
        b > 0,
    ensures
        spec_gcd(a, b) > 0,
        a % spec_gcd(a, b) == 0,
        b % spec_gcd(a, b) == 0,
        spec_gcd(a / spec_gcd(a, b), b / spec_gcd(a, b)) == 1,
{
    let g = spec_gcd(a, b);
    lemma_gcd_pos(a, b);
    lemma_gcd_divides(a, b);
    let ka = choose|k: int| a as int == #[trigger] ((g as int) * k);
    let kb = choose|k: int| b as int == #[trigger] ((g as int) * k);
    assert(ka >= 0) by (nonlinear_arith)
        requires g > 0, a as int == (g as int) * ka, a >= 0;
    assert(kb >= 1) by (nonlinear_arith)
        requires g > 0, b as int == (g as int) * kb, b >= 1;
    lemma_mod_multiples_basic(ka, g as int);
    lemma_mod_multiples_basic(kb, g as int);
    assert((g as int) * ka == ka * (g as int)) by {
        lemma_mul_is_commutative(g as int, ka);
    }
    assert((g as int) * kb == kb * (g as int)) by {
        lemma_mul_is_commutative(g as int, kb);
    }
    assert(a % g == 0 && b % g == 0);
    vstd::arithmetic::div_mod::lemma_div_multiples_vanish(ka, g as int);
    vstd::arithmetic::div_mod::lemma_div_multiples_vanish(kb, g as int);
    assert((a / g) as int == ka);
    assert((b / g) as int == kb);
    let g2 = spec_gcd(a / g, b / g);
    lemma_gcd_pos(a / g, b / g);
    assert(g2 > 0);
    lemma_gcd_divides(a / g, b / g);
    let m1 = choose|k: int| ka == #[trigger] ((g2 as int) * k);
    let m2 = choose|k: int| kb == #[trigger] ((g2 as int) * k);
    // g * g2 divides both a and b, hence divides g itself
    assert(a as int == ((g * g2) as int) * m1) by (nonlinear_arith)
        requires a as int == (g as int) * ka, ka == (g2 as int) * m1;
    assert(b as int == ((g * g2) as int) * m2) by (nonlinear_arith)
        requires b as int == (g as int) * kb, kb == (g2 as int) * m2;
    assert(divides((g * g2) as int, a as int));
    assert(divides((g * g2) as int, b as int));
    lemma_common_divides_gcd(a, b, (g * g2) as int);
    let t = choose|k: int| g as int == #[trigger] (((g * g2) as int) * k);
    assert(g2 == 1) by (nonlinear_arith)
        requires g as int == ((g * g2) as int) * t, g > 0, g2 > 0;
}

/// Greatest common divisor of two machine integers, by Euclid's algorithm.
/// `gcd(0, n) == n` and `gcd(n, 0) == n`.
pub fn gcd(a: u32, b: u32) -> (r: u32)
    ensures
        r == spec_gcd(a as nat, b as nat),
{
    let mut x: u32 = a;
    let mut y: u32 = b;
    while y != 0
        invariant
            spec_gcd(x as nat, y as nat) == spec_gcd(a as nat, b as nat),
        decreases y,
    {
        let r: u32 = x % y;
        x = y;
        y = r;
    }
    x
}

/// Returns the pair with the smaller value first.
pub fn get_ordering(a: u32, b: u32) -> (r: (u32, u32))
    ensures
        r.0 <= r.1,
        (r.0 == a && r.1 == b) || (r.0 == b && r.1 == a),
{
    if a < b {
        (a, b)
    } else {
        (b, a)
    }
}

} // verus!
