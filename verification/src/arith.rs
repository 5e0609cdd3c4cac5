//! Integer arithmetic on 64-bit signed values, stated over mathematical integers.
//!
//! Every operation either returns the exact mathematical result or reports
//! that the result does not fit: nothing wraps and nothing saturates.

use vstd::prelude::*;

verus! {

/// Whether `v` is the value of some `i64`.
pub open spec fn fits(v: int) -> bool {
    i64::MIN <= v <= i64::MAX
}

/// `base` raised to the power `exp`.
pub open spec fn power(base: int, exp: nat) -> int
    decreases exp,
{
    if exp == 0 {
        1
    } else {
        base * power(base, (exp - 1) as nat)
    }
}

/// The quotient of `x` by `d` rounded towards zero.
pub open spec fn quotient(x: int, d: int) -> int
    recommends
        d != 0,
{
    if x >= 0 && d > 0 {
        x / d
    } else if x < 0 && d < 0 {
        (-x) / (-d)
    } else if x < 0 {
        -((-x) / d)
    } else {
        -(x / (-d))
    }
}

/// A power of zero with a positive exponent is zero.
pub proof fn lemma_power_of_zero(exp: nat)
    requires
        exp > 0,
    ensures
        power(0, exp) == 0,
{
}

/// Every power of one is one.
pub proof fn lemma_power_of_one(exp: nat)
    ensures
        power(1, exp) == 1,
    decreases exp,
{
    if exp > 0 {
        lemma_power_of_one((exp - 1) as nat);
    }
}

/// A power of minus one is one for an even exponent and minus one for an odd one.
pub proof fn lemma_power_of_minus_one(exp: nat)
    ensures
        power(-1, exp) == if exp % 2 == 0 { 1int } else { -1int },
    decreases exp,
{
    if exp > 0 {
        lemma_power_of_minus_one((exp - 1) as nat);
    }
}

/// A value outside the 64-bit range stays outside when it is multiplied by a
/// factor of magnitude two or more.
pub proof fn lemma_product_stays_outside(v: int, m: int)
    by (nonlinear_arith)
    requires
        !fits(v),
        m >= 2 || m <= -2,
    ensures
        !fits(m * v),
{
}

/// Once a power of a base of magnitude two or more has left the 64-bit range,
/// every higher power is outside of it too.
pub proof fn lemma_power_stays_outside(base: int, low: nat, high: nat)
    requires
        base >= 2 || base <= -2,
        low <= high,
        !fits(power(base, low)),
    ensures
        !fits(power(base, high)),
    decreases high - low,
{
    if low < high {
        lemma_power_stays_outside(base, low, (high - 1) as nat);
        lemma_product_stays_outside(power(base, (high - 1) as nat), base);
    }
}

/// `base` raised to `exp`, or `None` where the power is outside the 64-bit range.
pub fn checked_power(base: i64, exp: u64) -> (r: Option<i64>)
    ensures
        r == if fits(power(base as int, exp as nat)) {
            Some(power(base as int, exp as nat) as i64)
        } else {
            None
        },
{
    if exp == 0 {
        return Some(1);
    }
    if base == 0 {
        proof {
            lemma_power_of_zero(exp as nat);
        }
        return Some(0);
    }
    if base == 1 {
        proof {
            lemma_power_of_one(exp as nat);
        }
        return Some(1);
    }
    if base == -1 {
        proof {
            lemma_power_of_minus_one(exp as nat);
        }
        return Some(if exp % 2 == 0 { 1 } else { -1 });
    }
    let mut acc: i64 = 1;
    let mut done: u64 = 0;
    while done < exp
        invariant
            done <= exp,
            base >= 2 || base <= -2,
            acc as int == power(base as int, done as nat),
        decreases exp - done,
    {
        match acc.checked_mul(base) {
            None => {
                proof {
                    assert(power(base as int, (done + 1) as nat) == base * acc);
                    lemma_power_stays_outside(base as int, (done + 1) as nat, exp as nat);
                }
                return None;
            },
            Some(next) => {
                acc = next;
            },
        }
        done = done + 1;
    }
    Some(acc)
}

/// The quotient of `x` by `d` rounded towards zero, or `None` where `d` is zero
/// or the quotient is outside the 64-bit range.
pub fn checked_quotient(x: i64, d: i64) -> (r: Option<i64>)
    ensures
        r == if d != 0 && fits(quotient(x as int, d as int)) {
            Some(quotient(x as int, d as int) as i64)
        } else {
            None
        },
{
    x.checked_div(d)
}

} // verus!
