//! Exact arithmetic on non-negative fractions, held as 128-bit numerator and
//! denominator. Every value an equation can take is such a fraction: digits,
//! fraction tiles, and the four operations where a subtraction never goes
//! below zero.
//!
//! The spec functions here are written once for two readings, picked by
//! `cap`: with `cap == false` they are plain arithmetic on integers; with
//! `cap == true` a step whose result does not fit in 128 bits fails with
//! `OutOfRange`, which is what the executable code computes.

use vstd::prelude::*;

verus! {

/// A fraction `num / den`. Values built by this crate have `den > 0`; they are
/// not reduced, so `2/4` and `1/2` are two representations of one value.
#[derive(Clone, Copy, Debug, PartialEq, Eq, Structural)]
pub struct Rational {
    pub num: u128,
    pub den: u128,
}

/// A fraction as a pair of mathematical integers: numerator, denominator.
pub type Frac = (int, int);

/// Why an expression has no value.
#[derive(Clone, Copy, Debug, PartialEq, Eq, Structural)]
pub enum EvalFault {
    /// The tiles do not form an expression, divide by zero, or a subtraction
    /// goes below zero.
    Malformed,
    /// A step needs an integer above `u128::MAX`.
    OutOfRange,
}

impl Rational {
    pub open spec fn frac(self) -> Frac {
        (self.num as int, self.den as int)
    }
}

/// The fraction held by a result of the executable code.
pub open spec fn result_frac(r: Result<Rational, EvalFault>) -> Result<Frac, EvalFault> {
    match r {
        Ok(x) => Ok(x.frac()),
        Err(e) => Err(e),
    }
}

/// The 128-bit fraction that holds `q`, for a `q` that fits.
pub open spec fn to_rational(q: Frac) -> Rational {
    Rational { num: q.0 as u128, den: q.1 as u128 }
}

/// Whether `x` may stand as an intermediate result.
pub open spec fn fits(x: int, cap: bool) -> bool {
    !cap || (0 <= x <= u128::MAX)
}

/// Two fractions have the same value.
pub open spec fn same_value(a: Frac, b: Frac) -> bool {
    a.0 * b.1 == b.0 * a.1
}

pub open spec fn frac_mul(a: Frac, b: Frac, cap: bool) -> Result<Frac, EvalFault> {
    let n = a.0 * b.0;
    let d = a.1 * b.1;
    if fits(n, cap) && fits(d, cap) {
        Ok((n, d))
    } else {
        Err(EvalFault::OutOfRange)
    }
}

pub open spec fn frac_div(a: Frac, b: Frac, cap: bool) -> Result<Frac, EvalFault> {
    if b.0 == 0 {
        Err(EvalFault::Malformed)
    } else {
        let n = a.0 * b.1;
        let d = a.1 * b.0;
        if fits(n, cap) && fits(d, cap) {
            Ok((n, d))
        } else {
            Err(EvalFault::OutOfRange)
        }
    }
}

pub open spec fn frac_add(a: Frac, b: Frac, cap: bool) -> Result<Frac, EvalFault> {
    let x = a.0 * b.1;
    let y = b.0 * a.1;
    let d = a.1 * b.1;
    if fits(x, cap) && fits(y, cap) && fits(x + y, cap) && fits(d, cap) {
        Ok((x + y, d))
    } else {
        Err(EvalFault::OutOfRange)
    }
}

/// Subtraction, which fails when the result would be negative.
pub open spec fn frac_sub(a: Frac, b: Frac, cap: bool) -> Result<Frac, EvalFault> {
    let x = a.0 * b.1;
    let y = b.0 * a.1;
    let d = a.1 * b.1;
    if !(fits(x, cap) && fits(y, cap) && fits(d, cap)) {
        Err(EvalFault::OutOfRange)
    } else if x < y {
        Err(EvalFault::Malformed)
    } else {
        Ok((x - y, d))
    }
}

/// A result computed under the 128-bit cap agrees with the exact one: the same
/// value, the same `Malformed`, or `OutOfRange` where the exact one may be
/// anything.
pub open spec fn agrees<T>(capped: Result<T, EvalFault>, exact: Result<T, EvalFault>) -> bool {
    match capped {
        Ok(x) => exact == Ok::<T, EvalFault>(x),
        Err(EvalFault::Malformed) => exact == Err::<T, EvalFault>(EvalFault::Malformed),
        Err(EvalFault::OutOfRange) => true,
    }
}

pub proof fn lemma_ops_agree(a: Frac, b: Frac)
    ensures
        agrees(frac_mul(a, b, true), frac_mul(a, b, false)),
        agrees(frac_div(a, b, true), frac_div(a, b, false)),
        agrees(frac_add(a, b, true), frac_add(a, b, false)),
        agrees(frac_sub(a, b, true), frac_sub(a, b, false)),
        frac_mul(a, b, false) != Err::<Frac, EvalFault>(EvalFault::OutOfRange),
        frac_div(a, b, false) != Err::<Frac, EvalFault>(EvalFault::OutOfRange),
        frac_add(a, b, false) != Err::<Frac, EvalFault>(EvalFault::OutOfRange),
        frac_sub(a, b, false) != Err::<Frac, EvalFault>(EvalFault::OutOfRange),
{
}

impl Rational {
    pub fn times(self, b: Rational) -> (r: Result<Rational, EvalFault>)
        ensures
            result_frac(r) == frac_mul(self.frac(), b.frac(), true),
    {
        match (self.num.checked_mul(b.num), self.den.checked_mul(b.den)) {
            (Some(n), Some(d)) => Ok(Rational { num: n, den: d }),
            _ => Err(EvalFault::OutOfRange),
        }
    }

    pub fn divided_by(self, b: Rational) -> (r: Result<Rational, EvalFault>)
        ensures
            result_frac(r) == frac_div(self.frac(), b.frac(), true),
    {
        if b.num == 0 {
            return Err(EvalFault::Malformed);
        }
        match (self.num.checked_mul(b.den), self.den.checked_mul(b.num)) {
            (Some(n), Some(d)) => Ok(Rational { num: n, den: d }),
            _ => Err(EvalFault::OutOfRange),
        }
    }

    pub fn plus(self, b: Rational) -> (r: Result<Rational, EvalFault>)
        ensures
            result_frac(r) == frac_add(self.frac(), b.frac(), true),
    {
        match (self.num.checked_mul(b.den), b.num.checked_mul(self.den), self.den.checked_mul(b.den)) {
            (Some(x), Some(y), Some(d)) => match x.checked_add(y) {
                Some(n) => Ok(Rational { num: n, den: d }),
                None => Err(EvalFault::OutOfRange),
            },
            _ => Err(EvalFault::OutOfRange),
        }
    }

    pub fn minus(self, b: Rational) -> (r: Result<Rational, EvalFault>)
        ensures
            result_frac(r) == frac_sub(self.frac(), b.frac(), true),
    {
        match (self.num.checked_mul(b.den), b.num.checked_mul(self.den), self.den.checked_mul(b.den)) {
            (Some(x), Some(y), Some(d)) => {
                if x < y {
                    Err(EvalFault::Malformed)
                } else {
                    Ok(Rational { num: x - y, den: d })
                }
            },
            _ => Err(EvalFault::OutOfRange),
        }
    }
}

} // verus!
