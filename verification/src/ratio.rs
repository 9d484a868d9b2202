//! Exact fractions.
//!
//! Non-integer values in a dice expression (decimal literals and the results
//! of division) are held as fractions of two 64-bit integers and computed
//! exactly; an operation whose exact result does not fit reports
//! [`RollError::Overflow`](crate::error::RollError) instead of wrapping.

use vstd::prelude::*;

use crate::error::RollError;

verus! {

/// A fraction `num / den`. Well-formed values keep `den` positive and `num`
/// above `i64::MIN`, so that negation never overflows.
#[derive(Clone, Copy, Debug)]
pub struct Ratio {
    pub num: i64,
    pub den: i64,
}

/// Whether an exact numerator or denominator fits the range kept by
/// well-formed fractions.
pub open spec fn fits(n: int) -> bool {
    -i64::MAX <= n <= i64::MAX
}

impl Ratio {
    /// The well-formedness every constructed fraction has.
    pub open spec fn wf(self) -> bool {
        &&& self.den > 0
        &&& self.num > i64::MIN
    }

    /// The whole number `n`, as a fraction.
    pub fn from_int(n: i32) -> (r: Ratio)
        ensures
            r.wf(),
            r.num == n,
            r.den == 1,
    {
        Ratio { num: n as i64, den: 1 }
    }

    /// The exact sum `self + rhs`, or `Overflow` exactly when that sum's
    /// numerator or denominator leaves the range.
    pub fn add(self, rhs: Ratio) -> (r: Result<Ratio, RollError>)
        requires
            self.wf(),
            rhs.wf(),
        ensures
            ({
                let n = self.num * rhs.den + rhs.num * self.den;
                let d = self.den * rhs.den;
                match r {
                    Ok(q) => q.wf() && q.num == n && q.den == d && fits(n) && fits(d),
                    Err(e) => e == RollError::Overflow && !(fits(n) && fits(d)),
                }
            }),
    {
        let n = wide(self.num, rhs.den) + wide(rhs.num, self.den);
        let d = wide(self.den, rhs.den);
        proof {
            lemma_mul_pos(self.den as int, rhs.den as int);
        }
        narrow(n, d)
    }

    /// The exact difference `self - rhs`, or `Overflow` exactly when it
    /// leaves the range.
    pub fn sub(self, rhs: Ratio) -> (r: Result<Ratio, RollError>)
        requires
            self.wf(),
            rhs.wf(),
        ensures
            ({
                let n = self.num * rhs.den - rhs.num * self.den;
                let d = self.den * rhs.den;
                match r {
                    Ok(q) => q.wf() && q.num == n && q.den == d && fits(n) && fits(d),
                    Err(e) => e == RollError::Overflow && !(fits(n) && fits(d)),
                }
            }),
    {
        let n = wide(self.num, rhs.den) - wide(rhs.num, self.den);
        let d = wide(self.den, rhs.den);
        proof {
            lemma_mul_pos(self.den as int, rhs.den as int);
        }
        narrow(n, d)
    }

    /// The exact product `self * rhs`, or `Overflow` exactly when it leaves
    /// the range.
    pub fn mul(self, rhs: Ratio) -> (r: Result<Ratio, RollError>)
        requires
            self.wf(),
            rhs.wf(),
        ensures
            ({
                let n = self.num * rhs.num;
                let d = self.den * rhs.den;
                match r {
                    Ok(q) => q.wf() && q.num == n && q.den == d && fits(n) && fits(d),
                    Err(e) => e == RollError::Overflow && !(fits(n) && fits(d)),
                }
            }),
    {
        let n = wide(self.num, rhs.num);
        let d = wide(self.den, rhs.den);
        proof {
            lemma_mul_pos(self.den as int, rhs.den as int);
        }
        narrow(n, d)
    }

    /// The exact quotient `self / rhs`, brought to a positive denominator.
    /// A zero right operand is `DivisionByZero`; a quotient out of range is
    /// `Overflow`, exactly when the brought-to-positive numerator or
    /// denominator leaves it.
    pub fn div(self, rhs: Ratio) -> (r: Result<Ratio, RollError>)
        requires
            self.wf(),
            rhs.wf(),
        ensures
            rhs.num == 0 <==> r == Err::<Ratio, RollError>(RollError::DivisionByZero),
            rhs.num != 0 ==> ({
                let n = if rhs.num > 0 { self.num * rhs.den } else { -(self.num * rhs.den) };
                let d = if rhs.num > 0 { self.den * rhs.num } else { self.den * -rhs.num };
                match r {
                    Ok(q) => q.wf() && q.num == n && q.den == d && fits(n) && fits(d),
                    Err(e) => e == RollError::Overflow && !(fits(n) && fits(d)),
                }
            }),
    {
        if rhs.num == 0 {
            return Err(RollError::DivisionByZero);
        }
        let n0 = wide(self.num, rhs.den);
        if rhs.num > 0 {
            let d = wide(self.den, rhs.num);
            proof {
                lemma_mul_pos(self.den as int, rhs.num as int);
            }
            narrow(n0, d)
        } else {
            let d = wide(self.den, -rhs.num);
            proof {
                lemma_mul_pos(self.den as int, -rhs.num as int);
            }
            narrow(-n0, d)
        }
    }
}

/// The product of two in-range 64-bit values, in 128 bits.
fn wide(a: i64, b: i64) -> (r: i128)
    requires
        a > i64::MIN || b > i64::MIN,
    ensures
        r == a * b,
        -0x3fff_ffff_ffff_ffff_8000_0000_0000_0000 <= r
            <= 0x3fff_ffff_ffff_ffff_8000_0000_0000_0000,
{
    proof {
        lemma_wide_product_bounds(a as int, b as int);
    }
    (a as i128) * (b as i128)
}

/// A product of two positive values is positive and no smaller than either.
proof fn lemma_mul_pos(a: int, b: int)
    by (nonlinear_arith)
    requires
        a >= 1,
        b >= 1,
    ensures
        a * b >= a,
        a * b >= b,
{
}

/// A product of 64-bit values, at least one above `i64::MIN`, stays inside
/// 128 bits.
proof fn lemma_wide_product_bounds(a: int, b: int)
    by (nonlinear_arith)
    requires
        i64::MIN <= a <= i64::MAX,
        i64::MIN <= b <= i64::MAX,
        a > i64::MIN || b > i64::MIN,
    ensures
        -0x3fff_ffff_ffff_ffff_8000_0000_0000_0000 <= a * b
            <= 0x3fff_ffff_ffff_ffff_8000_0000_0000_0000,
{
}

/// Brings an exact (numerator, denominator) pair back to 64 bits, or reports
/// `Overflow` exactly when one of the two leaves the range kept by
/// well-formed fractions.
fn narrow(n: i128, d: i128) -> (r: Result<Ratio, RollError>)
    requires
        d >= 1,
    ensures
        match r {
            Ok(q) => q.wf() && q.num == n && q.den == d && fits(n as int) && fits(d as int),
            Err(e) => e == RollError::Overflow && !(fits(n as int) && fits(d as int)),
        },
{
    let max = i64::MAX as i128;
    if -max <= n && n <= max && d <= max {
        Ok(Ratio { num: n as i64, den: d as i64 })
    } else {
        Err(RollError::Overflow)
    }
}

} // verus!
