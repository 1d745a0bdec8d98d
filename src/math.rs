use vstd::prelude::*;
use vstd::arithmetic::div_mod::{
    lemma_div_is_ordered, lemma_fundamental_div_mod, lemma_fundamental_div_mod_converse,
};

verus! {

/// Every way a pool, quote, ledger or swap operation can fail.
#[derive(Debug, Clone, Copy, PartialEq, Eq, Structural)]
pub enum AmmError {
    InvalidSeed,
    RatioMismatch,
    InsufficientShares,
    InsufficientLiquidity,
    ZeroSize,
    ReserveExhausted,
    SlippageExceeded,
    MarketClosed,
    Overflow,
    DivisionByZero,
}

/// floor(a * b / d) over unbounded integers.
pub open spec fn floor_mul_div(a: int, b: int, d: int) -> int {
    a * b / d
}

/// ceil(a * b / d) over unbounded integers.
pub open spec fn ceil_mul_div(a: int, b: int, d: int) -> int {
    (a * b + d - 1) / d
}

/// What `mul_div` returns for the given operands.
pub open spec fn mul_div_result(a: u128, b: u128, d: u128) -> Result<u128, AmmError> {
    if d == 0 {
        Err(AmmError::DivisionByZero)
    } else if floor_mul_div(a as int, b as int, d as int) > u128::MAX {
        Err(AmmError::Overflow)
    } else {
        Ok(floor_mul_div(a as int, b as int, d as int) as u128)
    }
}

/// What `mul_div_up` returns for the given operands.
pub open spec fn mul_div_up_result(a: u128, b: u128, d: u128) -> Result<u128, AmmError> {
    if d == 0 {
        Err(AmmError::DivisionByZero)
    } else if ceil_mul_div(a as int, b as int, d as int) > u128::MAX {
        Err(AmmError::Overflow)
    } else {
        Ok(ceil_mul_div(a as int, b as int, d as int) as u128)
    }
}

/// Quotient and remainder of a * b by d, or `Overflow` when the quotient
/// does not fit in 128 bits. Works through the bits of `b`, so no product
/// wider than 128 bits is ever formed.
fn mul_div_parts(a: u128, b: u128, d: u128) -> (r: Result<(u128, u128), AmmError>)
    requires
        d > 0,
    ensures
        match r {
            Ok((q, rem)) => (q as int) * (d as int) + (rem as int) == (a as int) * (b as int)
                && rem < d,
            Err(e) => e == AmmError::Overflow && (a as int) * (b as int) / (d as int) > u128::MAX,
        },
    decreases b,
{
    if b == 0 {
        assert((a as int) * (b as int) == 0) by (nonlinear_arith)
            requires b == 0;
        return Ok((0, 0));
    }
    let h: u128 = b / 2;
    let bit: u128 = b % 2;
    let ghost ai = a as int;
    let ghost di = d as int;
    assert(ai * (b as int) == 2 * (ai * (h as int)) + ai * (bit as int)) by (nonlinear_arith)
        requires b as int == 2 * (h as int) + (bit as int);
    assert(ai * (h as int) <= ai * (b as int)) by (nonlinear_arith)
        requires h <= b, ai >= 0;
    let parts = mul_div_parts(a, h, d);
    match parts {
        Err(e) => {
            proof {
                lemma_div_is_ordered(ai * (h as int), ai * (b as int), di);
            }
            return Err(e);
        }
        Ok((q0, r0)) => {
            // Double the partial result: 2 * r0 == c1 * d + r1.
            let c1: u128;
            let r1: u128;
            if r0 >= d - r0 {
                c1 = 1;
                r1 = r0 - (d - r0);
            } else {
                c1 = 0;
                r1 = r0 + r0;
            }
            assert(2 * ai * (h as int) == (2 * (q0 as int) + (c1 as int)) * di + (r1 as int))
                by (nonlinear_arith)
                requires
                    (q0 as int) * di + (r0 as int) == ai * (h as int),
                    2 * (r0 as int) == (c1 as int) * di + (r1 as int);
            if q0 > (u128::MAX - c1) / 2 {
                proof {
                    assert(2 * (q0 as int) + (c1 as int) > u128::MAX);
                    assert((2 * (q0 as int) + (c1 as int)) * di <= ai * (b as int))
                        by (nonlinear_arith)
                        requires
                            2 * ai * (h as int) == (2 * (q0 as int) + (c1 as int)) * di + (r1 as int),
                            ai * (b as int) == 2 * (ai * (h as int)) + ai * (bit as int),
                            ai >= 0, bit >= 0, r1 >= 0;
                    lemma_div_is_ordered((2 * (q0 as int) + (c1 as int)) * di, ai * (b as int), di);
                    lemma_fundamental_div_mod_converse(
                        (2 * (q0 as int) + (c1 as int)) * di, di, 2 * (q0 as int) + (c1 as int), 0);
                }
                return Err(AmmError::Overflow);
            }
            let q1: u128 = 2 * q0 + c1;
            if bit == 0 {
                assert(ai * (b as int) == 2 * ai * (h as int)) by (nonlinear_arith)
                    requires
                        ai * (b as int) == 2 * (ai * (h as int)) + ai * (bit as int),
                        bit == 0;
                return Ok((q1, r1));
            }
            // Add a once more: a == qa * d + ra, then r1 + ra == c2 * d + r2.
            let qa: u128 = a / d;
            let ra: u128 = a % d;
            proof {
                lemma_fundamental_div_mod(ai, di);
            }
            let c2: u128;
            let r2: u128;
            if r1 >= d - ra {
                c2 = 1;
                r2 = r1 - (d - ra);
            } else {
                c2 = 0;
                r2 = r1 + ra;
            }
            assert(ai * (b as int) == ((q1 as int) + (qa as int) + (c2 as int)) * di + (r2 as int))
                by (nonlinear_arith)
                requires
                    2 * ai * (h as int) == (q1 as int) * di + (r1 as int),
                    ai * (b as int) == 2 * (ai * (h as int)) + ai * (bit as int),
                    bit == 1,
                    ai == di * (qa as int) + (ra as int),
                    (r1 as int) + (ra as int) == (c2 as int) * di + (r2 as int);
            if q1 > u128::MAX - qa || q1 + qa > u128::MAX - c2 {
                proof {
                    lemma_fundamental_div_mod_converse(
                        ai * (b as int), di, (q1 as int) + (qa as int) + (c2 as int), r2 as int);
                }
                return Err(AmmError::Overflow);
            }
            Ok((q1 + qa + c2, r2))
        }
    }
}

/// floor(a * b / d), computed without forming the 256-bit product.
/// Fails with `DivisionByZero` when d is zero and with `Overflow` when the
/// quotient does not fit in 128 bits.
pub fn mul_div(a: u128, b: u128, d: u128) -> (r: Result<u128, AmmError>)
    ensures
        r == mul_div_result(a, b, d),
{
    if d == 0 {
        return Err(AmmError::DivisionByZero);
    }
    match mul_div_parts(a, b, d) {
        Ok((q, rem)) => {
            proof {
                lemma_fundamental_div_mod_converse((a as int) * (b as int), d as int, q as int, rem as int);
            }
            Ok(q)
        }
        Err(e) => Err(e),
    }
}

/// ceil(a * b / d), computed without forming the 256-bit product; fails as
/// `mul_div` does.
pub fn mul_div_up(a: u128, b: u128, d: u128) -> (r: Result<u128, AmmError>)
    ensures
        r == mul_div_up_result(a, b, d),
{
    if d == 0 {
        return Err(AmmError::DivisionByZero);
    }
    let ghost p = (a as int) * (b as int);
    let ghost di = d as int;
    match mul_div_parts(a, b, d) {
        Ok((q, rem)) => {
            assert(p + di - 1 == ((q as int) + 1) * di + (rem - 1)) by (nonlinear_arith)
                requires p == (q as int) * di + (rem as int);
            if rem == 0 {
                proof {
                    lemma_fundamental_div_mod_converse(p + di - 1, di, q as int, di - 1);
                }
                Ok(q)
            } else if q == u128::MAX {
                proof {
                    lemma_fundamental_div_mod_converse(p + di - 1, di, q + 1, rem - 1);
                }
                Err(AmmError::Overflow)
            } else {
                proof {
                    lemma_fundamental_div_mod_converse(p + di - 1, di, q + 1, rem - 1);
                }
                Ok(q + 1)
            }
        }
        Err(e) => {
            proof {
                lemma_div_is_ordered(p, p + di - 1, di);
            }
            Err(e)
        }
    }
}

} // verus!
