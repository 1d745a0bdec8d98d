use vstd::prelude::*;
use crate::math::{AmmError, mul_div, mul_div_up, floor_mul_div, ceil_mul_div};
use crate::pool::{LiquidityPool, Outcome, BPS_DENOMINATOR};

verus! {

/// Whether the trader takes shares out of the pool or puts them in.
#[derive(Debug, Clone, Copy, PartialEq, Eq, Structural)]
pub enum Direction {
    Buy,
    Sell,
}

/// A priced trade: `amount` is what a buyer pays or a seller receives, in
/// the opposite reserve, and `price` is `amount / size` rounded down.
#[derive(Debug, Clone, Copy, PartialEq, Eq, Structural)]
pub struct Quote {
    pub price: u128,
    pub amount: u128,
}

/// The fee on `base` at `fee_bps` basis points, rounded up.
pub open spec fn fee_on(base: int, fee_bps: int) -> int {
    ceil_mul_div(base, fee_bps, BPS_DENOMINATOR as int)
}

/// Input that keeps the reserve product when `size` shares leave a reserve
/// of `r_out` against `r_in` on the other side, rounded up.
pub open spec fn buy_base(r_in: int, r_out: int, size: int) -> int {
    ceil_mul_div(r_in, size, r_out - size)
}

/// Output that keeps the reserve product when `size` shares enter a
/// reserve of `r_into` against `r_other`, rounded down.
pub open spec fn sell_base(r_other: int, r_into: int, size: int) -> int {
    floor_mul_div(r_other, size, r_into + size)
}

/// What `quote` returns.
pub open spec fn quote_result(pool: LiquidityPool, outcome: Outcome, direction: Direction, size: u128, fee_bps: u128) -> Result<Quote, AmmError> {
    let r_self = pool.reserve_spec(outcome) as int;
    let r_other = pool.reserve_spec(outcome.opposite_spec()) as int;
    if size == 0 {
        Err(AmmError::ZeroSize)
    } else if r_self == 0 || r_other == 0 {
        Err(AmmError::InsufficientLiquidity)
    } else {
        match direction {
            Direction::Buy => {
                let base = buy_base(r_other, r_self, size as int);
                let amount = base + fee_on(base, fee_bps as int);
                if size >= r_self {
                    Err(AmmError::InsufficientLiquidity)
                } else if amount > u128::MAX {
                    Err(AmmError::Overflow)
                } else {
                    Ok(Quote { price: (amount / size as int) as u128, amount: amount as u128 })
                }
            },
            Direction::Sell => {
                let base = sell_base(r_other, r_self, size as int);
                let amount = base - fee_on(base, fee_bps as int);
                if r_self + size > u128::MAX {
                    Err(AmmError::Overflow)
                } else {
                    Ok(Quote { price: (amount / size as int) as u128, amount: amount as u128 })
                }
            },
        }
    }
}

/// ceil(base * fee_bps / 10000) lies between zero and base, and is positive
/// when both factors are.
pub proof fn lemma_fee_bounds(base: int, fee_bps: int)
    requires
        base >= 0,
        0 <= fee_bps <= 10000,
    ensures
        0 <= fee_on(base, fee_bps) <= base,
        base > 0 && fee_bps > 0 ==> fee_on(base, fee_bps) >= 1,
{
    let d = BPS_DENOMINATOR as int;
    assert(base * fee_bps + d - 1 <= base * d + d - 1) by (nonlinear_arith)
        requires base >= 0, fee_bps <= d;
    vstd::arithmetic::div_mod::lemma_div_is_ordered(base * fee_bps + d - 1, base * d + d - 1, d);
    vstd::arithmetic::div_mod::lemma_fundamental_div_mod_converse(base * d + d - 1, d, base, d - 1);
    assert(base * fee_bps >= 0) by (nonlinear_arith) requires base >= 0, fee_bps >= 0;
    vstd::arithmetic::div_mod::lemma_div_is_ordered(0, base * fee_bps + d - 1, d);
    if base > 0 && fee_bps > 0 {
        assert(base * fee_bps >= 1) by (nonlinear_arith) requires base >= 1, fee_bps >= 1;
        vstd::arithmetic::div_mod::lemma_div_is_ordered(d, base * fee_bps + d - 1, d);
    }
}

/// A larger buy of the same outcome from the same pool never costs less in
/// total, fee included.
pub proof fn lemma_buy_cost_grows_with_size(r_in: int, r_out: int, s1: int, s2: int, fee_bps: int)
    requires
        r_in > 0,
        0 < s1 < s2 < r_out,
        0 <= fee_bps <= 10000,
    ensures
        ({
            let b1 = buy_base(r_in, r_out, s1);
            let b2 = buy_base(r_in, r_out, s2);
            b1 + fee_on(b1, fee_bps) <= b2 + fee_on(b2, fee_bps)
        }),
{
    let d1 = r_out - s1;
    let d2 = r_out - s2;
    let x1 = r_in * s1;
    let x2 = r_in * s2;
    let b1 = buy_base(r_in, r_out, s1);
    let b2 = buy_base(r_in, r_out, s2);
    vstd::arithmetic::div_mod::lemma_fundamental_div_mod(x2 + d2 - 1, d2);
    let m2 = (x2 + d2 - 1) % d2;
    assert(x2 + d2 - 1 == d2 * b2 + m2);
    assert(b2 * d2 >= x2) by (nonlinear_arith)
        requires x2 + d2 - 1 == d2 * b2 + m2, m2 < d2;
    assert(x2 * d1 - x1 * d2 == r_in * r_out * (s2 - s1)) by (nonlinear_arith)
        requires x1 == r_in * s1, x2 == r_in * s2, d1 == r_out - s1, d2 == r_out - s2;
    assert(r_in * r_out * (s2 - s1) >= 0) by (nonlinear_arith)
        requires r_in > 0, r_out > 0, s2 > s1;
    assert(b2 * d1 >= x1) by (nonlinear_arith)
        requires b2 * d2 >= x2, x1 * d2 <= x2 * d1, d1 > 0, d2 > 0;
    vstd::arithmetic::div_mod::lemma_div_is_ordered(x1 + d1 - 1, b2 * d1 + d1 - 1, d1);
    vstd::arithmetic::div_mod::lemma_fundamental_div_mod_converse(b2 * d1 + d1 - 1, d1, b2, d1 - 1);
    assert(b1 <= b2);
    assert(b1 * fee_bps <= b2 * fee_bps) by (nonlinear_arith) requires b1 <= b2, fee_bps >= 0;
    vstd::arithmetic::div_mod::lemma_div_is_ordered(b1 * fee_bps + 9999, b2 * fee_bps + 9999, 10000);
}

/// Prices a trade of `size` shares of `outcome` against the constant-product
/// curve of `pool`, with a fee of `fee_bps` basis points taken on the
/// buyer's input or the seller's payout.
pub fn quote(pool: &LiquidityPool, outcome: Outcome, direction: Direction, size: u128, fee_bps: u128) -> (r: Result<Quote, AmmError>)
    requires
        pool.wf(),
        fee_bps <= BPS_DENOMINATOR,
    ensures
        r == quote_result(*pool, outcome, direction, size, fee_bps),
{
    let r_self = pool.reserve(outcome);
    let r_other = pool.reserve(outcome.opposite());
    if size == 0 {
        return Err(AmmError::ZeroSize);
    }
    if r_self == 0 || r_other == 0 {
        return Err(AmmError::InsufficientLiquidity);
    }
    match direction {
        Direction::Buy => {
            if size >= r_self {
                return Err(AmmError::InsufficientLiquidity);
            }
            let base = match mul_div_up(r_other, size, r_self - size) {
                Ok(v) => v,
                Err(e) => {
                    proof {
                        lemma_fee_bounds(buy_base(r_other as int, r_self as int, size as int), fee_bps as int);
                    }
                    return Err(e);
                },
            };
            proof {
                lemma_fee_bounds(base as int, fee_bps as int);
            }
            let fee = match mul_div_up(base, fee_bps, BPS_DENOMINATOR) {
                Ok(v) => v,
                Err(e) => { return Err(e); },
            };
            if base > u128::MAX - fee {
                return Err(AmmError::Overflow);
            }
            let amount = base + fee;
            Ok(Quote { price: amount / size, amount })
        },
        Direction::Sell => {
            if r_self > u128::MAX - size {
                return Err(AmmError::Overflow);
            }
            proof {
                assert((r_other as int) * (size as int) / ((r_self + size) as int) <= r_other) by {
                    assert((r_other as int) * (size as int) <= (r_other as int) * ((r_self + size) as int))
                        by (nonlinear_arith) requires r_other >= 0, size <= r_self + size;
                    vstd::arithmetic::div_mod::lemma_div_is_ordered(
                        (r_other as int) * (size as int), (r_other as int) * ((r_self + size) as int), (r_self + size) as int);
                    assert((r_other as int) * ((r_self + size) as int) == (r_other as int) * ((r_self + size) as int) + 0);
                    vstd::arithmetic::div_mod::lemma_fundamental_div_mod_converse(
                        (r_other as int) * ((r_self + size) as int), (r_self + size) as int, r_other as int, 0);
                }
            }
            let base = match mul_div(r_other, size, r_self + size) {
                Ok(v) => v,
                Err(e) => { return Err(e); },
            };
            proof {
                lemma_fee_bounds(base as int, fee_bps as int);
            }
            let fee = match mul_div_up(base, fee_bps, BPS_DENOMINATOR) {
                Ok(v) => v,
                Err(e) => { return Err(e); },
            };
            let amount = base - fee;
            Ok(Quote { price: amount / size, amount })
        },
    }
}

} // verus!
