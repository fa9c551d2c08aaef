//! The two text grammars: rendering a fraction as `<integer>` or
//! `<integer>/<positive integer>`, and parsing the latter form back, with
//! surrounding whitespace tolerated around either side of the `/`.

use vstd::prelude::*;
use crate::fraction::{abs_nat, reduced_den, reduced_num, Fraction};
use crate::complex::Complex;
use vstd::arithmetic::div_mod::lemma_fundamental_div_mod;

verus! {

/// Marker error: malformed textual input for a fraction.
#[derive(Clone, Copy, Debug, PartialEq, Eq, Structural)]
pub struct ParseFractionError;

/// The character for a single decimal digit.
pub open spec fn digit_char(d: int) -> char {
    if d == 0 {
        '0'
    } else if d == 1 {
        '1'
    } else if d == 2 {
        '2'
    } else if d == 3 {
        '3'
    } else if d == 4 {
        '4'
    } else if d == 5 {
        '5'
    } else if d == 6 {
        '6'
    } else if d == 7 {
        '7'
    } else if d == 8 {
        '8'
    } else {
        '9'
    }
}

/// The decimal value of a digit character, `-1` for any other character.
pub open spec fn digit_value(c: char) -> int {
    if c == '0' {
        0
    } else if c == '1' {
        1
    } else if c == '2' {
        2
    } else if c == '3' {
        3
    } else if c == '4' {
        4
    } else if c == '5' {
        5
    } else if c == '6' {
        6
    } else if c == '7' {
        7
    } else if c == '8' {
        8
    } else if c == '9' {
        9
    } else {
        -1
    }
}

/// A decimal digit character.
pub open spec fn is_digit(c: char) -> bool {
    digit_value(c) >= 0
}

/// The decimal digit string of a natural number, most significant first.
pub open spec fn digits_of(n: nat) -> Seq<char>
    decreases n,
{
    if n < 10 {
        seq![digit_char(n as int)]
    } else {
        digits_of(n / 10).push(digit_char((n % 10) as int))
    }
}

/// The decimal string of an integer: a leading `-` for negative values.
pub open spec fn int_chars(n: int) -> Seq<char> {
    if n < 0 {
        seq!['-'] + digits_of((-n) as nat)
    } else {
        digits_of(n as nat)
    }
}

/// How a fraction renders: the bare numerator when the denominator is 1,
/// else `numerator/denominator`.
pub open spec fn fraction_chars(f: Fraction) -> Seq<char> {
    if f.den() == 1 {
        int_chars(f.num())
    } else {
        int_chars(f.num()) + seq!['/'] + digits_of(f.denominator as nat)
    }
}

/// Whitespace accepted around either side of the `/`.
pub open spec fn is_space(c: char) -> bool {
    c == ' ' || c == '\t' || c == '\n' || c == '\r'
}

/// The sequence with leading whitespace removed.
pub open spec fn trim_front(s: Seq<char>) -> Seq<char>
    decreases s.len(),
{
    if s.len() > 0 && is_space(s[0]) {
        trim_front(s.drop_first())
    } else {
        s
    }
}

/// The sequence with trailing whitespace removed.
pub open spec fn trim_back(s: Seq<char>) -> Seq<char>
    decreases s.len(),
{
    if s.len() > 0 && is_space(s.last()) {
        trim_back(s.drop_last())
    } else {
        s
    }
}

/// The sequence with whitespace removed from both ends.
pub open spec fn trimmed(s: Seq<char>) -> Seq<char> {
    trim_back(trim_front(s))
}

/// Every character is a decimal digit.
pub open spec fn all_digits(s: Seq<char>) -> bool {
    forall|i: int| 0 <= i < s.len() ==> is_digit(#[trigger] s[i])
}

/// The value of a string of decimal digits.
pub open spec fn digits_value(s: Seq<char>) -> int
    decreases s.len(),
{
    if s.len() == 0 {
        0
    } else {
        digits_value(s.drop_last()) * 10 + digit_value(s.last())
    }
}

/// The value of a nonempty, all-digit sequence; `None` otherwise.
pub open spec fn digits_opt(s: Seq<char>) -> Option<int> {
    if s.len() > 0 && all_digits(s) {
        Some(digits_value(s))
    } else {
        None
    }
}

/// An unsigned decimal integer: an optional `+`, then digits.
pub open spec fn parse_unsigned(s: Seq<char>) -> Option<int> {
    if s.len() > 0 && s[0] == '+' {
        digits_opt(s.drop_first())
    } else {
        digits_opt(s)
    }
}

/// A signed decimal integer: an optional `-` or `+`, then digits.
pub open spec fn parse_signed(s: Seq<char>) -> Option<int> {
    if s.len() > 0 && s[0] == '-' {
        match digits_opt(s.drop_first()) {
            Some(v) => Some(-v),
            None => None,
        }
    } else if s.len() > 0 && s[0] == '+' {
        digits_opt(s.drop_first())
    } else {
        digits_opt(s)
    }
}

/// A signed integer in the range of `i32`.
pub open spec fn parse_i32(s: Seq<char>) -> Option<int> {
    match parse_signed(s) {
        Some(v) => if i32::MIN <= v <= i32::MAX {
            Some(v)
        } else {
            None
        },
        None => None,
    }
}

/// An unsigned integer in the range of `u32`.
pub open spec fn parse_u32(s: Seq<char>) -> Option<int> {
    match parse_unsigned(s) {
        Some(v) => if v <= u32::MAX {
            Some(v)
        } else {
            None
        },
        None => None,
    }
}

/// Some character is a `/`.
pub open spec fn has_slash(s: Seq<char>) -> bool {
    exists|i: int| 0 <= i < s.len() && #[trigger] s[i] == '/'
}

/// The index of the first `/`.
pub open spec fn slash_index(s: Seq<char>) -> int
    decreases s.len(),
{
    if s.len() == 0 {
        0
    } else if s[0] == '/' {
        0
    } else {
        1 + slash_index(s.drop_first())
    }
}

/// What parsing a fraction yields: split at the first `/`, trim both
/// sides, read a signed `i32` numerator and an unsigned `u32` denominator,
/// and reject a zero denominator.  `None` on any malformed input.
pub open spec fn spec_parse_fraction(s: Seq<char>) -> Option<(int, int)> {
    if !has_slash(s) {
        None
    } else {
        let i = slash_index(s);
        let left = parse_i32(trimmed(s.subrange(0, i)));
        let right = parse_u32(trimmed(s.subrange(i + 1, s.len() as int)));
        match left {
            Some(n) => match right {
                Some(d) => if d == 0 {
                    None
                } else {
                    Some((n, d))
                },
                None => None,
            },
            None => None,
        }
    }
}

/// The digit string of `n` is nonempty, holds digits only, and reads back
/// as `n`.
pub proof fn lemma_digits_of(n: nat)
    ensures
        digits_of(n).len() >= 1,
        all_digits(digits_of(n)),
        digits_value(digits_of(n)) == n,
    decreases n,
{
    if n < 10 {
        let s = digits_of(n);
        assert(s.len() == 1);
        assert(s.drop_last().len() == 0);
        assert(s.last() == digit_char(n as int));
        assert(digit_value(digit_char(n as int)) == n);
        assert(digits_value(s) == digits_value(s.drop_last()) * 10 + digit_value(s.last()));
    } else {
        lemma_digits_of(n / 10);
        lemma_fundamental_div_mod(n as int, 10);
        let s = digits_of(n);
        assert(s.drop_last() =~= digits_of(n / 10));
        assert(s.last() == digit_char((n % 10) as int));
        assert(digit_value(digit_char((n % 10) as int)) == n % 10);
        assert(digits_value(s) == digits_value(s.drop_last()) * 10 + digit_value(s.last()));
        assert(digits_value(s.drop_last()) == n / 10);
        assert(n == ((n as int) / 10) * 10 + (n as int) % 10);
        assert(forall|i: int| 0 <= i < s.len() ==> is_digit(#[trigger] s[i]));
    }
}

/// Digit strings never contain a separator, a sign or whitespace.
pub proof fn lemma_digits_of_plain(n: nat)
    ensures
        forall|i: int|
            0 <= i < digits_of(n).len() ==> {
                let c = #[trigger] digits_of(n)[i];
                c != '/' && c != '-' && c != '+' && !is_space(c)
            },
    decreases n,
{
    lemma_digits_of(n);
    assert forall|i: int| 0 <= i < digits_of(n).len() implies {
        let c = #[trigger] digits_of(n)[i];
        c != '/' && c != '-' && c != '+' && !is_space(c)
    } by {
        assert(is_digit(digits_of(n)[i]));
    }
}

/// The value of an all-digit string is never negative.
pub proof fn lemma_digits_value_nonneg(s: Seq<char>)
    requires
        all_digits(s),
    ensures
        digits_value(s) >= 0,
    decreases s.len(),
{
    if s.len() > 0 {
        assert(all_digits(s.drop_last())) by {
            assert(forall|i: int|
                0 <= i < s.len() - 1 ==> #[trigger] s.drop_last()[i] == s[i]);
        }
        lemma_digits_value_nonneg(s.drop_last());
        assert(is_digit(s.last()));
    }
}

/// A prefix of an all-digit string reads as at most the whole.
pub proof fn lemma_digits_value_prefix(s: Seq<char>, j: int)
    requires
        all_digits(s),
        0 <= j <= s.len(),
    ensures
        digits_value(s.subrange(0, j)) <= digits_value(s),
    decreases s.len() - j,
{
    if j == s.len() {
        assert(s.subrange(0, j) =~= s);
    } else {
        lemma_digits_value_prefix(s, j + 1);
        let t = s.subrange(0, j + 1);
        assert(t.drop_last() =~= s.subrange(0, j));
        assert(t.last() == s[j]);
        assert(all_digits(s.subrange(0, j))) by {
            assert(forall|i: int|
                0 <= i < j ==> #[trigger] s.subrange(0, j)[i] == s[i]);
        }
        lemma_digits_value_nonneg(s.subrange(0, j));
        assert(is_digit(s[j]));
        assert(digits_value(t) == digits_value(s.subrange(0, j)) * 10 + digit_value(s[j]));
        assert(digits_value(s.subrange(0, j)) * 10 >= digits_value(s.subrange(0, j)))
            by (nonlinear_arith)
            requires
                digits_value(s.subrange(0, j)) >= 0,
        ;
    }
}

/// The first `/` of a string whose earlier characters are not `/`.
pub proof fn lemma_first_slash(s: Seq<char>, i: int)
    requires
        0 <= i < s.len(),
        s[i] == '/',
        forall|j: int| 0 <= j < i ==> #[trigger] s[j] != '/',
    ensures
        has_slash(s),
        slash_index(s) == i,
    decreases i,
{
    if i == 0 {
    } else {
        let t = s.drop_first();
        assert(forall|j: int| 0 <= j < i - 1 ==> #[trigger] t[j] == s[j + 1]);
        assert(t[i - 1] == '/');
        lemma_first_slash(t, i - 1);
    }
}

/// The digit characters of `digs`, read from the last entry down: the
/// digits a division loop collects, least significant first.
pub open spec fn rev_digit_chars(digs: Seq<u8>) -> Seq<char>
    decreases digs.len(),
{
    if digs.len() == 0 {
        Seq::<char>::empty()
    } else {
        seq![digit_char(digs.last() as int)] + rev_digit_chars(digs.drop_last())
    }
}

/// The one-character string for a decimal digit.
fn digit_str(d: u8) -> (r: &'static str)
    requires
        d < 10,
    ensures
        r@ == seq![digit_char(d as int)],
{
    proof {
        reveal_strlit("0");
        reveal_strlit("1");
        reveal_strlit("2");
        reveal_strlit("3");
        reveal_strlit("4");
        reveal_strlit("5");
        reveal_strlit("6");
        reveal_strlit("7");
        reveal_strlit("8");
        reveal_strlit("9");
    }
    let r: &'static str = if d == 0 {
        "0"
    } else if d == 1 {
        "1"
    } else if d == 2 {
        "2"
    } else if d == 3 {
        "3"
    } else if d == 4 {
        "4"
    } else if d == 5 {
        "5"
    } else if d == 6 {
        "6"
    } else if d == 7 {
        "7"
    } else if d == 8 {
        "8"
    } else {
        "9"
    };
    proof {
        assert(r@ =~= seq![digit_char(d as int)]);
    }
    r
}

/// Renders a natural number in decimal.
fn render_u32(n: u32) -> (s: String)
    ensures
        s@ == digits_of(n as nat),
{
    let mut digs: Vec<u8> = Vec::new();
    let mut m: u32 = n;
    while m >= 10
        invariant
            digits_of(n as nat) == digits_of(m as nat) + rev_digit_chars(digs@),
            forall|i: int| 0 <= i < digs@.len() ==> #[trigger] digs@[i] < 10,
        decreases m,
    {
        let d: u8 = (m % 10) as u8;
        let m2: u32 = m / 10;
        proof {
            lemma_fundamental_div_mod(m as int, 10);
            assert(digits_of(m as nat) == digits_of(m2 as nat).push(digit_char(d as int)));
            assert(digs@.push(d).drop_last() =~= digs@);
            assert(rev_digit_chars(digs@.push(d)) == seq![digit_char(d as int)] + rev_digit_chars(
                digs@,
            ));
            assert(digits_of(m2 as nat).push(digit_char(d as int)) + rev_digit_chars(digs@)
                =~= digits_of(m2 as nat) + (seq![digit_char(d as int)] + rev_digit_chars(digs@)));
        }
        digs.push(d);
        m = m2;
    }
    let d0: u8 = m as u8;
    proof {
        assert(digits_of(m as nat) == seq![digit_char(d0 as int)]);
        assert(digs@.push(d0).drop_last() =~= digs@);
        assert(rev_digit_chars(digs@.push(d0)) == seq![digit_char(d0 as int)] + rev_digit_chars(
            digs@,
        ));
        assert(digits_of(n as nat) =~= rev_digit_chars(digs@.push(d0)));
    }
    digs.push(d0);
    let mut out = String::new();
    let mut i: usize = digs.len();
    proof {
        assert(digs@.subrange(0, digs@.len() as int) =~= digs@);
        assert(out@ + rev_digit_chars(digs@) =~= rev_digit_chars(digs@));
    }
    while i > 0
        invariant
            i <= digs.len(),
            forall|j: int| 0 <= j < digs@.len() ==> #[trigger] digs@[j] < 10,
            rev_digit_chars(digs@) == out@ + rev_digit_chars(digs@.subrange(0, i as int)),
        decreases i,
    {
        i = i - 1;
        let ghost pre = digs@.subrange(0, i as int + 1);
        proof {
            assert(pre.drop_last() =~= digs@.subrange(0, i as int));
            assert(pre.last() == digs@[i as int]);
            assert(rev_digit_chars(pre) == seq![digit_char(digs@[i as int] as int)]
                + rev_digit_chars(digs@.subrange(0, i as int)));
        }
        out.append(digit_str(digs[i]));
        proof {
            assert(rev_digit_chars(digs@) =~= out@ + rev_digit_chars(
                digs@.subrange(0, i as int),
            ));
        }
    }
    proof {
        assert(digs@.subrange(0, 0) =~= Seq::<u8>::empty());
        assert(out@ =~= digits_of(n as nat));
    }
    out
}

/// Renders a signed integer in decimal, with a leading `-` when negative.
fn render_i32(n: i32) -> (s: String)
    ensures
        s@ == int_chars(n as int),
{
    if n < 0 {
        let mag: u32 = (-(n as i64)) as u32;
        let mut out = String::from_str("-");
        proof {
            reveal_strlit("-");
            assert(out@ =~= seq!['-']);
        }
        let digits = render_u32(mag);
        out.append(digits.as_str());
        out
    } else {
        render_u32(n as u32)
    }
}

impl Fraction {
    /// Renders the fraction: the bare numerator when the denominator is 1,
    /// else `numerator/denominator`.
    pub fn render(&self) -> (s: String)
        ensures
            s@ == fraction_chars(*self),
    {
        if self.denominator != 1 {
            let mut out = render_i32(self.numerator);
            out.append("/");
            proof {
                reveal_strlit("/");
                assert(out@ =~= int_chars(self.num()) + seq!['/']);
            }
            let den = render_u32(self.denominator);
            out.append(den.as_str());
            out
        } else {
            render_i32(self.numerator)
        }
    }
}

/// Whether a character counts as whitespace for parsing.
fn is_space_char(c: char) -> (r: bool)
    ensures
        r == is_space(c),
{
    c == ' ' || c == '\t' || c == '\n' || c == '\r'
}

/// The digit value of a character, `10` for a non-digit.
fn digit_of_char(c: char) -> (r: u32)
    ensures
        is_digit(c) ==> r == digit_value(c),
        !is_digit(c) ==> r == 10,
{
    if c == '0' {
        0
    } else if c == '1' {
        1
    } else if c == '2' {
        2
    } else if c == '3' {
        3
    } else if c == '4' {
        4
    } else if c == '5' {
        5
    } else if c == '6' {
        6
    } else if c == '7' {
        7
    } else if c == '8' {
        8
    } else if c == '9' {
        9
    } else {
        10
    }
}

/// Narrows a character range by the whitespace at either end.
fn trim_range(s: &str, lo: usize, hi: usize) -> (r: (usize, usize))
    requires
        lo <= hi <= s@.len(),
    ensures
        lo <= r.0 <= r.1 <= hi,
        s@.subrange(r.0 as int, r.1 as int) == trimmed(s@.subrange(lo as int, hi as int)),
{
    let mut a: usize = lo;
    while a < hi && is_space_char(s.get_char(a))
        invariant
            lo <= a <= hi <= s@.len(),
            trim_front(s@.subrange(lo as int, hi as int)) == trim_front(
                s@.subrange(a as int, hi as int),
            ),
        decreases hi - a,
    {
        proof {
            let t = s@.subrange(a as int, hi as int);
            assert(t[0] == s@[a as int]);
            assert(t.drop_first() =~= s@.subrange(a as int + 1, hi as int));
        }
        a = a + 1;
    }
    proof {
        let t = s@.subrange(a as int, hi as int);
        if a < hi {
            assert(t[0] == s@[a as int]);
        }
        assert(trim_front(t) == t);
    }
    let mut b: usize = hi;
    while b > a && is_space_char(s.get_char(b - 1))
        invariant
            lo <= a <= b <= hi <= s@.len(),
            trim_front(s@.subrange(lo as int, hi as int)) == s@.subrange(a as int, hi as int),
            trim_back(s@.subrange(a as int, hi as int)) == trim_back(
                s@.subrange(a as int, b as int),
            ),
        decreases b,
    {
        proof {
            let t = s@.subrange(a as int, b as int);
            assert(t.last() == s@[b as int - 1]);
            assert(t.drop_last() =~= s@.subrange(a as int, b as int - 1));
        }
        b = b - 1;
    }
    proof {
        let t = s@.subrange(a as int, b as int);
        if b > a {
            assert(t.last() == s@[b as int - 1]);
        }
        assert(trim_back(t) == t);
    }
    (a, b)
}

/// Reads a run of decimal digits as a number, refusing an empty range, a
/// non-digit, or a value beyond `u32`.
fn parse_digits_range(s: &str, lo: usize, hi: usize) -> (r: Option<u64>)
    requires
        lo <= hi <= s@.len(),
    ensures
        r is Some <==> (lo < hi && all_digits(s@.subrange(lo as int, hi as int)) && digits_value(
            s@.subrange(lo as int, hi as int),
        ) <= u32::MAX),
        r matches Some(v) ==> v == digits_value(s@.subrange(lo as int, hi as int)),
    {
    let ghost whole = s@.subrange(lo as int, hi as int);
    if lo == hi {
        return None;
    }
    let mut i: usize = lo;
    let mut val: u64 = 0;
    while i < hi
        invariant
            lo <= i <= hi <= s@.len(),
            all_digits(s@.subrange(lo as int, i as int)),
            val == digits_value(s@.subrange(lo as int, i as int)),
            val <= u32::MAX,
            whole == s@.subrange(lo as int, hi as int),
        decreases hi - i,
    {
        let c = s.get_char(i);
        let d = digit_of_char(c);
        proof {
            assert(whole[i - lo] == s@[i as int]);
        }
        if d >= 10 {
            proof {
                assert(!is_digit(whole[i - lo]));
                assert(!all_digits(whole));
            }
            return None;
        }
        let ghost prev = s@.subrange(lo as int, i as int);
        let ghost cur = s@.subrange(lo as int, i as int + 1);
        proof {
            assert(cur.drop_last() =~= prev);
            assert(cur.last() == s@[i as int]);
            assert(forall|j: int| 0 <= j < cur.len() ==> #[trigger] cur[j] == s@[lo + j]);
        }
        val = val * 10 + (d as u64);
        i = i + 1;
        if val > 0xffff_ffff {
            proof {
                if all_digits(whole) {
                    assert(cur =~= whole.subrange(0, i - lo));
                    lemma_digits_value_prefix(whole, i - lo);
                }
            }
            return None;
        }
    }
    proof {
        assert(s@.subrange(lo as int, i as int) =~= whole);
    }
    Some(val)
}

impl Fraction {
    /// Parses `<sign?><digits> / <digits>` with optional whitespace around
    /// either side of the first `/`; every malformed input is rejected.
    /// The result is the parsed pair reduced to lowest terms.
    pub fn from_str(s: &str) -> (r: Result<Fraction, ParseFractionError>)
        requires
            spec_parse_fraction(s@) matches Some(p) ==> p.0 != i32::MIN,
        ensures
            r is Err <==> spec_parse_fraction(s@) is None,
            r matches Ok(f) ==> spec_parse_fraction(s@) matches Some(p) && {
                &&& f.num() == reduced_num(p.0, p.1)
                &&& f.den() == reduced_den(p.0, p.1)
                &&& f.is_simplified()
                &&& f.represents(p.0, p.1)
            },
    {
        let len = s.unicode_len();
        let mut idx: usize = 0;
        let mut found: bool = false;
        while idx < len && !found
            invariant
                0 <= idx <= len,
                len == s@.len(),
                !found ==> forall|j: int| 0 <= j < idx ==> #[trigger] s@[j] != '/',
                found ==> idx < len && s@[idx as int] == '/' && forall|j: int|
                    0 <= j < idx ==> #[trigger] s@[j] != '/',
            decreases len - idx + (if found { 0int } else { 1int }),
        {
            if s.get_char(idx) == '/' {
                found = true;
            } else {
                idx = idx + 1;
            }
        }
        if !found {
            proof {
                assert(!has_slash(s@));
            }
            return Err(ParseFractionError);
        }
        proof {
            lemma_first_slash(s@, idx as int);
        }
        let ghost left0 = s@.subrange(0, idx as int);
        let ghost right0 = s@.subrange(idx as int + 1, len as int);
        let ghost lt = trimmed(left0);
        let ghost rt = trimmed(right0);
        let (llo, lhi) = trim_range(s, 0, idx);
        let (rlo, rhi) = trim_range(s, idx + 1, len);
        proof {
            assert(s@.subrange(llo as int, lhi as int) == lt);
            assert(s@.subrange(rlo as int, rhi as int) == rt);
        }
        // the numerator: optional sign, then digits
        let mut neg: bool = false;
        let mut dstart: usize = llo;
        if llo < lhi {
            let c0 = s.get_char(llo);
            if c0 == '-' {
                neg = true;
                dstart = llo + 1;
            } else if c0 == '+' {
                dstart = llo + 1;
            }
        }
        proof {
            assert(lt.len() == lhi - llo);
            if llo < lhi {
                assert(lt[0] == s@[llo as int]);
                assert(lt.drop_first() =~= s@.subrange(llo as int + 1, lhi as int));
            }
            assert(s@.subrange(dstart as int, lhi as int) =~= (if dstart == llo {
                lt
            } else {
                lt.drop_first()
            }));
        }
        let mag = match parse_digits_range(s, dstart, lhi) {
            Some(v) => v,
            None => {
                proof {
                    assert(parse_signed(lt) is None || (parse_signed(lt) matches Some(v2)
                        && (v2 > u32::MAX || v2 < -(u32::MAX as int))));
                    assert(parse_i32(lt) is None);
                }
                return Err(ParseFractionError);
            },
        };
        if !neg && mag > 0x7fff_ffff {
            proof {
                assert(parse_signed(lt) == Some(mag as int));
                assert(parse_i32(lt) is None);
            }
            return Err(ParseFractionError);
        }
        if neg && mag > 0x8000_0000 {
            proof {
                assert(parse_signed(lt) == Some(-(mag as int)));
                assert(parse_i32(lt) is None);
            }
            return Err(ParseFractionError);
        }
        // the denominator: optional plus, then digits
        let mut rstart: usize = rlo;
        if rlo < rhi {
            if s.get_char(rlo) == '+' {
                rstart = rlo + 1;
            }
        }
        proof {
            assert(rt.len() == rhi - rlo);
            if rlo < rhi {
                assert(rt[0] == s@[rlo as int]);
                assert(rt.drop_first() =~= s@.subrange(rlo as int + 1, rhi as int));
            }
            assert(s@.subrange(rstart as int, rhi as int) =~= (if rstart == rlo {
                rt
            } else {
                rt.drop_first()
            }));
        }
        let den = match parse_digits_range(s, rstart, rhi) {
            Some(v) => v,
            None => {
                proof {
                    assert(parse_u32(rt) is None);
                }
                return Err(ParseFractionError);
            },
        };
        if den == 0 {
            return Err(ParseFractionError);
        }
        let ghost numv: int = if neg {
            -(mag as int)
        } else {
            mag as int
        };
        proof {
            assert(parse_u32(rt) == Some(den as int));
            assert(parse_signed(lt) == Some(numv));
            assert(parse_i32(lt) == Some(numv));
            assert(spec_parse_fraction(s@) == Some((numv, den as int)));
        }
        if neg && mag == 0x8000_0000 {
            proof {
                assert(false);
            }
            return Err(ParseFractionError);
        }
        let num: i32 = if neg {
            -((mag as i64) as i32)
        } else {
            mag as i32
        };
        match Fraction::new(num, den as u32) {
            Ok(f) => Ok(f),
            Err(_) => Err(ParseFractionError),
        }
    }
}

/// Round trip: rendering a well-formed fraction whose denominator is not 1
/// and parsing the text back yields exactly the stored pair, which `from_str`
/// then reduces to a fraction of the same value.  A denominator of 1
/// renders without a `/`, which the parse grammar rejects.
#[verifier::rlimit(100)]
pub proof fn lemma_render_parse_round_trip(f: Fraction)
    requires
        f.wf(),
        f.den() != 1,
    ensures
        spec_parse_fraction(fraction_chars(f)) == Some((f.num(), f.den())),
{
    let nch = int_chars(f.num());
    let dch = digits_of(f.denominator as nat);
    let s = fraction_chars(f);
    let mag = abs_nat(f.num());
    lemma_digits_of(mag);
    lemma_digits_of_plain(mag);
    lemma_digits_of(f.denominator as nat);
    lemma_digits_of_plain(f.denominator as nat);
    let i = nch.len() as int;
    assert(s == nch + seq!['/'] + dch);
    assert(s[i] == '/');
    assert(forall|j: int| 0 <= j < i ==> #[trigger] s[j] == nch[j]);
    if f.num() < 0 {
        assert(nch == seq!['-'] + digits_of(mag));
        assert(nch[0] == '-');
        assert(forall|j: int| 1 <= j < nch.len() ==> #[trigger] nch[j] == digits_of(mag)[j - 1]);
        assert(forall|j: int| 0 <= j < i ==> #[trigger] s[j] != '/');
    } else {
        assert(nch == digits_of(mag));
        assert(forall|j: int| 0 <= j < i ==> #[trigger] s[j] != '/');
    }
    lemma_first_slash(s, i);
    assert(s.subrange(0, i) =~= nch);
    assert(s.subrange(i + 1, s.len() as int) =~= dch);
    // digit strings carry no whitespace, so trimming is the identity
    assert(trim_front(nch) == nch) by {
        if f.num() < 0 {
            assert(nch[0] == '-');
        } else {
            assert(is_digit(nch[0]));
        }
    }
    assert(trim_back(nch) == nch) by {
        if f.num() < 0 {
            if nch.len() == 1 {
                assert(nch.last() == '-');
            } else {
                assert(nch.last() == digits_of(mag)[nch.len() - 2]);
                assert(is_digit(nch.last()));
            }
        } else {
            assert(is_digit(nch.last()));
        }
    }
    assert(trim_front(dch) == dch) by {
        assert(is_digit(dch[0]));
    }
    assert(trim_back(dch) == dch) by {
        assert(is_digit(dch.last()));
    }
    // the numerator side parses back to the numerator
    if f.num() < 0 {
        assert(nch.drop_first() =~= digits_of(mag));
        assert(digits_opt(nch.drop_first()) == Some(mag as int));
        assert(parse_signed(nch) == Some(-(mag as int)));
        assert(parse_signed(nch) == Some(f.num()));
    } else {
        assert(nch[0] != '-' && nch[0] != '+');
        assert(digits_opt(nch) == Some(mag as int));
        assert(parse_signed(nch) == Some(f.num()));
    }
    assert(parse_i32(nch) == Some(f.num()));
    // the denominator side parses back to the denominator
    assert(dch[0] != '+');
    assert(digits_opt(dch) == Some(f.den()));
    assert(parse_u32(dch) == Some(f.den()));
}

/// The absolute value of a fraction, at the specification level.
pub open spec fn abs_frac(f: Fraction) -> Fraction {
    Fraction { numerator: abs_nat(f.num()) as i32, denominator: f.denominator }
}

/// How a complex number renders: a zero component is suppressed, and a
/// negative imaginary part renders as a subtraction of its magnitude.
pub open spec fn complex_chars(z: Complex) -> Seq<char> {
    if z.imaginary.num() == 0 {
        fraction_chars(z.real)
    } else if z.real.num() == 0 {
        fraction_chars(z.imaginary) + seq!['i']
    } else if z.imaginary.num() > 0 {
        fraction_chars(z.real) + seq![' ', '+', ' '] + fraction_chars(z.imaginary) + seq!['i']
    } else {
        fraction_chars(z.real) + seq![' ', '-', ' '] + fraction_chars(abs_frac(z.imaginary))
            + seq!['i']
    }
}

impl Complex {
    /// Renders the complex number per the zero-suppression rules: `<real>`,
    /// `<imag>i`, `<real> + <imag>i`, or `<real> - <|imag|>i`.
    pub fn render(&self) -> (s: String)
        requires
            self.imaginary.numerator > i32::MIN,
        ensures
            s@ == complex_chars(*self),
    {
        if self.imaginary.get_numerator() == 0 {
            self.real.render()
        } else if self.real.get_numerator() == 0 {
            let mut out = self.imaginary.render();
            out.append("i");
            proof {
                reveal_strlit("i");
                assert(out@ =~= fraction_chars(self.imaginary) + seq!['i']);
            }
            out
        } else if self.imaginary.get_numerator() > 0 {
            let mut out = self.real.render();
            out.append(" + ");
            let imag = self.imaginary.render();
            out.append(imag.as_str());
            out.append("i");
            proof {
                reveal_strlit(" + ");
                reveal_strlit("i");
                assert(" + "@ =~= seq![' ', '+', ' ']);
                assert(out@ =~= fraction_chars(self.real) + seq![' ', '+', ' '] + fraction_chars(
                    self.imaginary,
                ) + seq!['i']);
            }
            out
        } else {
            let mut out = self.real.render();
            out.append(" - ");
            let mag = self.imaginary.abs();
            proof {
                assert(mag == abs_frac(self.imaginary));
            }
            let imag = mag.render();
            out.append(imag.as_str());
            out.append("i");
            proof {
                reveal_strlit(" - ");
                reveal_strlit("i");
                assert(" - "@ =~= seq![' ', '-', ' ']);
                assert(out@ =~= fraction_chars(self.real) + seq![' ', '-', ' '] + fraction_chars(
                    abs_frac(self.imaginary),
                ) + seq!['i']);
            }
            out
        }
    }
}

} // verus!
