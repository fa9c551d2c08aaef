//! Bounded search over the rationals: the Stern-Brocot (mediant) search
//! for the simplest fraction inside an interval, and an integer square
//! root.  These are the exact cores behind float conversions, which hand
//! in their targets as plain integer pairs.

use vstd::prelude::*;
use crate::gcd::{divides, lemma_divides_bound, lemma_gcd_divides, lemma_gcd_pos, spec_gcd};

verus! {

/// Any fraction strictly between two bounds in the unimodular relation
/// `un/ud - ln/ld == 1/(ld*ud)` has a denominator at least `ld + ud`.
proof fn lemma_interior_denominator(ln: int, ld: int, un: int, ud: int, pn: int, pd: int)
    requires
        ld > 0,
        ud > 0,
        pd > 0,
        un * ld - ln * ud == 1,
        ln * pd < pn * ld,
        pn * ud < un * pd,
    ensures
        pd >= ld + ud,
{
    assert(pd == ld * (un * pd - ud * pn) + ud * (pn * ld - ln * pd)) by (nonlinear_arith)
        requires
            un * ld - ln * ud == 1,
    ;
    assert(ld * (un * pd - ud * pn) >= ld) by (nonlinear_arith)
        requires
            ld > 0,
            un * pd - ud * pn >= 1,
    ;
    assert(ud * (pn * ld - ln * pd) >= ud) by (nonlinear_arith)
        requires
            ud > 0,
            pn * ld - ln * pd >= 1,
    ;
}

/// Products of 64-bit values fit the 128-bit machine integers.
proof fn lemma_u64_mul_fits(x: int, y: int)
    requires
        0 <= x <= u64::MAX,
        0 <= y <= u64::MAX,
    ensures
        0 <= x * y <= u128::MAX,
{
    assert(0 <= x * y <= u128::MAX) by (nonlinear_arith)
        requires
            0 <= x <= 0xffff_ffff_ffff_ffff,
            0 <= y <= 0xffff_ffff_ffff_ffff,
    ;
}

/// The simplest fraction inside the closed interval `[A, B]`, with
/// `A == a_num/a_den` and `B == b_num/b_den`, found by the Stern-Brocot
/// mediant search between `0/1` and `1/1`.  The result lies in the
/// interval, is in lowest terms, and among all fractions in the interval
/// it has the smallest denominator - the defining property of the search.
pub fn simplest_fraction_between(a_num: u64, a_den: u64, b_num: u64, b_den: u64) -> (r: (
    u32,
    u32,
))
    requires
        0 < a_num,
        0 < a_den <= u32::MAX as u64,
        0 < b_den,
        a_num * b_den <= b_num * a_den,
        b_num < b_den,
    ensures
        0 < r.0,
        0 < r.1,
        a_num * r.1 <= r.0 * a_den,
        r.0 * b_den <= b_num * r.1,
        spec_gcd(r.0 as nat, r.1 as nat) == 1,
        forall|pn: int, pd: int|
            #![trigger (a_num as int) * pd, pn * (b_den as int)]
            0 < pd && (a_num as int) * pd <= pn * (a_den as int) && pn * (b_den as int) <= (
            b_num as int) * pd ==> pd >= r.1,
{
    let mut ln: u64 = 0;
    let mut ld: u64 = 1;
    let mut un: u64 = 1;
    let mut ud: u64 = 1;
    proof {
        // A < 1 since A <= B < 1
        assert((a_num as int) * 1 < (a_den as int) * 1) by (nonlinear_arith)
            requires
                (a_num as int) * (b_den as int) <= (b_num as int) * (a_den as int),
                (b_num as int) < (b_den as int),
                a_den > 0,
                b_den > 0,
                a_num > 0,
        ;
    }
    loop
        invariant
            0 < a_num,
            0 < a_den <= u32::MAX as u64,
            0 < b_den,
            (a_num as int) * (b_den as int) <= (b_num as int) * (a_den as int),
            b_num < b_den,
            0 < ld,
            0 < ud,
            ln < ld,
            un <= ud,
            (un as int) * (ld as int) - (ln as int) * (ud as int) == 1,
            (ln as int) * (a_den as int) < (a_num as int) * (ld as int),
            (b_num as int) * (ud as int) < (un as int) * (b_den as int),
        decreases ((a_num as int) * (ld as int) - (ln as int) * (a_den as int)) + ((un as int) * (
        a_den as int) - (a_num as int) * (ud as int)),
    {
        proof {
            // A < u, so the measure's second half is positive
            assert((a_num as int) * (ud as int) < (un as int) * (a_den as int))
                by (nonlinear_arith)
                requires
                    (a_num as int) * (b_den as int) <= (b_num as int) * (a_den as int),
                    (b_num as int) * (ud as int) < (un as int) * (b_den as int),
                    a_den > 0,
                    b_den > 0,
                    ud > 0,
            ;
            // A strictly inside (l, u) bounds the mediant's denominator
            lemma_interior_denominator(
                ln as int,
                ld as int,
                un as int,
                ud as int,
                a_num as int,
                a_den as int,
            );
            lemma_u64_mul_fits((ln + un) as int, b_den as int);
            lemma_u64_mul_fits(b_num as int, (ld + ud) as int);
            lemma_u64_mul_fits((ln + un) as int, a_den as int);
            lemma_u64_mul_fits(a_num as int, (ld + ud) as int);
        }
        let mn: u64 = ln + un;
        let md: u64 = ld + ud;
        if (mn as u128) * (b_den as u128) > (b_num as u128) * (md as u128) {
            // the mediant overshoots B: it becomes the upper bound
            proof {
                assert((mn as int) * (ld as int) - (ln as int) * (md as int) == 1)
                    by (nonlinear_arith)
                    requires
                        mn == ln + un,
                        md == ld + ud,
                        (un as int) * (ld as int) - (ln as int) * (ud as int) == 1,
                ;
                assert((mn as int) * (a_den as int) - (a_num as int) * (md as int) == ((
                un as int) * (a_den as int) - (a_num as int) * (ud as int)) - ((a_num as int) * (
                ld as int) - (ln as int) * (a_den as int))) by (nonlinear_arith)
                    requires
                        mn == ln + un,
                        md == ld + ud,
                ;
            }
            un = mn;
            ud = md;
        } else if (mn as u128) * (a_den as u128) < (a_num as u128) * (md as u128) {
            // the mediant undershoots A: it becomes the lower bound
            proof {
                assert((un as int) * (md as int) - (mn as int) * (ud as int) == 1)
                    by (nonlinear_arith)
                    requires
                        mn == ln + un,
                        md == ld + ud,
                        (un as int) * (ld as int) - (ln as int) * (ud as int) == 1,
                ;
                assert((a_num as int) * (md as int) - (mn as int) * (a_den as int) == ((
                a_num as int) * (ld as int) - (ln as int) * (a_den as int)) - ((un as int) * (
                a_den as int) - (a_num as int) * (ud as int))) by (nonlinear_arith)
                    requires
                        mn == ln + un,
                        md == ld + ud,
                ;
            }
            ln = mn;
            ld = md;
        } else {
            // the mediant lies in [A, B]: it is the answer
            proof {
                // in lowest terms: the unimodular relation makes any
                // common divisor divide 1
                assert((un as int) * (md as int) - (ud as int) * (mn as int) == 1)
                    by (nonlinear_arith)
                    requires
                        mn == ln + un,
                        md == ld + ud,
                        (un as int) * (ld as int) - (ln as int) * (ud as int) == 1,
                ;
                let g = spec_gcd(mn as nat, md as nat) as int;
                lemma_gcd_pos(mn as nat, md as nat);
                lemma_gcd_divides(mn as nat, md as nat);
                let k1 = choose|k: int| mn as int == #[trigger] (g * k);
                let k2 = choose|k: int| md as int == #[trigger] (g * k);
                assert(1int == g * ((un as int) * k2 - (ud as int) * k1)) by (nonlinear_arith)
                    requires
                        mn as int == g * k1,
                        md as int == g * k2,
                        (un as int) * (md as int) - (ud as int) * (mn as int) == 1,
                ;
                assert(divides(g, 1));
                lemma_divides_bound(g, 1);
                // the mediant is positive: A <= m and A > 0
                assert(mn >= 1) by (nonlinear_arith)
                    requires
                        (a_num as int) * (md as int) <= (mn as int) * (a_den as int),
                        a_num >= 1,
                        md >= 1,
                        a_den > 0,
                        mn >= 0,
                ;
                // minimal denominator: everything in [A, B] lies strictly
                // between l and u, whose mediant denominator bounds it
                assert forall|pn: int, pd: int|
                    #![trigger (a_num as int) * pd, pn * (b_den as int)]
                    0 < pd && (a_num as int) * pd <= pn * (a_den as int) && pn * (b_den as int) <= (
                    b_num as int) * pd implies pd >= md as int by {
                    assert((ln as int) * pd < pn * (ld as int)) by (nonlinear_arith)
                        requires
                            (ln as int) * (a_den as int) < (a_num as int) * (ld as int),
                            (a_num as int) * pd <= pn * (a_den as int),
                            a_den > 0,
                            pd > 0,
                            ld > 0,
                    ;
                    assert(pn * (ud as int) < (un as int) * pd) by (nonlinear_arith)
                        requires
                            (b_num as int) * (ud as int) < (un as int) * (b_den as int),
                            pn * (b_den as int) <= (b_num as int) * pd,
                            b_den > 0,
                            pd > 0,
                            ud > 0,
                    ;
                    lemma_interior_denominator(
                        ln as int,
                        ld as int,
                        un as int,
                        ud as int,
                        pn,
                        pd,
                    );
                }
            }
            return (mn as u32, md as u32);
        }
    }
}

/// The integer square root: the largest `r` with `r * r <= x`.
pub fn isqrt_u64(x: u64) -> (r: u64)
    ensures
        r * r <= x,
        x < (r + 1) * (r + 1),
{
    let mut lo: u64 = 0;
    let mut hi: u64 = 0xffff_ffff;
    proof {
        assert((0x1_0000_0000 as int) * (0x1_0000_0000 as int) > u64::MAX as int)
            by (nonlinear_arith);
    }
    while lo < hi
        invariant
            lo <= hi <= 0xffff_ffff,
            lo * lo <= x,
            x < (hi + 1) * (hi + 1),
        decreases hi - lo,
    {
        let mid: u64 = lo + (hi - lo + 1) / 2;
        proof {
            assert(lo < mid <= hi);
            lemma_u64_mul_fits(mid as int, mid as int);
        }
        if (mid as u128) * (mid as u128) <= (x as u128) {
            lo = mid;
        } else {
            hi = mid - 1;
            proof {
                assert(x < mid * mid);
            }
        }
    }
    lo
}

} // verus!

