//! Writing numbers and fractions as text.

use vstd::prelude::*;

use crate::rational::Rational;

verus! {

/// The character of a decimal digit.
pub open spec fn digit_char(d: nat) -> char {
    (48 + d) as char
}

/// The decimal digits of `n`, most significant first, without leading zeros.
pub open spec fn decimal(n: nat) -> Seq<char>
    decreases n,
{
    if n < 10 {
        seq![digit_char(n)]
    } else {
        decimal(n / 10) + seq![digit_char(n % 10)]
    }
}

/// The greatest common divisor, by Euclid's algorithm.
pub open spec fn gcd(a: nat, b: nat) -> nat
    decreases b,
{
    if b == 0 {
        a
    } else {
        gcd(b, a % b)
    }
}

/// The places after the decimal point of `r / d`, for `r < d`, by long
/// division: `None` when the division has not ended within `fuel` places.
pub open spec fn fraction_digits(r: nat, d: nat, fuel: nat) -> Option<Seq<char>>
    decreases fuel,
{
    if r == 0 {
        Some(Seq::empty())
    } else if fuel == 0 || d == 0 {
        None
    } else {
        match fraction_digits((r * 10) % d, d, (fuel - 1) as nat) {
            Some(rest) => Some(seq![digit_char((r * 10) / d)] + rest),
            None => None,
        }
    }
}

/// The most places written after a decimal point.
pub const MAX_PLACES: u32 = 128;

/// The places after the decimal point of `n / d`, when its long division
/// ends within `MAX_PLACES` places and `10 * d` fits in 128 bits.
pub open spec fn decimal_places(n: nat, d: nat) -> Option<Seq<char>> {
    if 0 < d && d * 10 <= u128::MAX {
        fraction_digits(n % d, d, MAX_PLACES as nat)
    } else {
        None
    }
}

/// A fraction in lowest terms (left as it is when both parts are zero).
pub open spec fn reduced(q: Rational) -> (nat, nat) {
    let g = gcd(q.num as nat, q.den as nat);
    if g == 0 {
        (q.num as nat, q.den as nat)
    } else {
        ((q.num as nat) / g, (q.den as nat) / g)
    }
}

/// A fraction as text: a whole number when the denominator divides the
/// numerator; else, when its decimal expansion ends, that expansion, as in
/// `3.5` or `0.25`; else the fraction in lowest terms as
/// `numerator/denominator`.
pub open spec fn rational_text(q: Rational) -> Seq<char> {
    if q.den != 0 && q.num % q.den == 0 {
        decimal((q.num / q.den) as nat)
    } else {
        let (n, d) = reduced(q);
        match decimal_places(n, d) {
            Some(places) => decimal(n / d) + "."@ + places,
            None => decimal(n) + "/"@ + decimal(d),
        }
    }
}

/// The greatest common divisor of two numbers.
pub fn gcd_exec(a: u128, b: u128) -> (g: u128)
    ensures
        g == gcd(a as nat, b as nat),
{
    let mut x = a;
    let mut y = b;
    while y != 0
        invariant
            gcd(x as nat, y as nat) == gcd(a as nat, b as nat),
        decreases y,
    {
        let r = x % y;
        x = y;
        y = r;
    }
    x
}

/// Append one character to a string.
///
/// Calls `String::push`, which vstd gives no specification. Claimed: the
/// string afterwards is the one before followed by `c`.
#[verifier::external_body]
pub(crate) fn push_char(s: &mut String, c: char)
    ensures
        final(s)@ == old(s)@.push(c),
{
    s.push(c);
}

/// Append the decimal digits of `n`.
pub fn push_decimal(s: &mut String, n: u128)
    ensures
        final(s)@ == old(s)@ + decimal(n as nat),
    decreases n,
{
    let ghost start = s@;
    if n >= 10 {
        push_decimal(s, n / 10);
    }
    let d: u8 = (n % 10) as u8;
    let c = (48u8 + d) as char;
    assert(c == digit_char((n % 10) as nat));
    push_char(s, c);
    assert(s@ =~= start + decimal(n as nat));
}

/// The decimal digits of `n` as a string.
pub fn decimal_string(n: u128) -> (s: String)
    ensures
        s@ == decimal(n as nat),
{
    let mut s = String::new();
    push_decimal(&mut s, n);
    assert(s@ =~= decimal(n as nat));
    s
}

/// The places after the decimal point of `r / d`, by long division, when
/// the division ends within `MAX_PLACES` places.
pub fn fraction_digits_string(r: u128, d: u128) -> (o: Option<String>)
    requires
        0 < d,
        d * 10 <= u128::MAX,
        r < d,
    ensures
        match fraction_digits(r as nat, d as nat, MAX_PLACES as nat) {
            Some(places) => o matches Some(s) && s@ == places,
            None => o is None,
        },
{
    let mut out = String::new();
    let mut rem: u128 = r;
    let mut fuel: u32 = MAX_PLACES;
    while rem != 0 && fuel > 0
        invariant
            0 < d,
            d * 10 <= u128::MAX,
            rem < d,
            fuel <= MAX_PLACES,
            fraction_digits(r as nat, d as nat, MAX_PLACES as nat) == match fraction_digits(
                rem as nat,
                d as nat,
                fuel as nat,
            ) {
                Some(rest) => Some(out@ + rest),
                None => None::<Seq<char>>,
            },
        decreases fuel,
    {
        let ghost before = out@;
        assert(rem * 10 < d * 10) by (nonlinear_arith)
            requires
                rem < d,
        ;
        let t: u128 = rem * 10;
        let q: u128 = t / d;
        assert(q < 10) by (nonlinear_arith)
            requires
                t < d * 10,
                q == t / d,
                0 < d,
        ;
        let c = (48u8 + (q as u8)) as char;
        assert(c == digit_char(q as nat));
        push_char(&mut out, c);
        proof {
            let next = fraction_digits((t % d) as nat, d as nat, (fuel - 1) as nat);
            match next {
                Some(rest) => {
                    assert(out@ + rest =~= before + (seq![c] + rest));
                },
                None => {},
            }
        }
        rem = t % d;
        fuel = fuel - 1;
    }
    if rem == 0 {
        assert(out@ + Seq::<char>::empty() =~= out@);
        Some(out)
    } else {
        None
    }
}

/// A fraction as text.
pub fn rational_string(q: Rational) -> (s: String)
    ensures
        s@ == rational_text(q),
{
    if q.den != 0 && q.num % q.den == 0 {
        return decimal_string(q.num / q.den);
    }
    let g = gcd_exec(q.num, q.den);
    let n: u128 = if g == 0 { q.num } else { q.num / g };
    let d: u128 = if g == 0 { q.den } else { q.den / g };
    assert((n as nat, d as nat) == reduced(q));
    if 0 < d && d <= u128::MAX / 10 {
        match fraction_digits_string(n % d, d) {
            Some(places) => {
                let mut s = decimal_string(n / d);
                s.append(".");
                s.append(places.as_str());
                return s;
            },
            None => {},
        }
    }
    let mut s = decimal_string(n);
    s.append("/");
    push_decimal(&mut s, d);
    s
}

} // verus!
