use vstd::prelude::*;
use crate::math::{AmmError, mul_div, mul_div_result, floor_mul_div};

verus! {

/// One of the two outcomes of a binary market.
#[derive(Debug, Clone, Copy, PartialEq, Eq, Structural)]
pub enum Outcome {
    Yes,
    No,
}

impl Outcome {
    /// The other outcome.
    pub fn opposite(self) -> (r: Outcome)
        ensures
            r != self,
    {
        match self {
            Outcome::Yes => Outcome::No,
            Outcome::No => Outcome::Yes,
        }
    }
}

/// Tolerance, in basis points of the larger contribution, within which a
/// deposit must match the pool's reserve ratio.
pub const RATIO_TOLERANCE_BPS: u128 = 100;

/// Basis points in one whole.
pub const BPS_DENOMINATOR: u128 = 10000;

/// The two outcome reserves of one market and the liquidity shares that own them.
#[derive(Debug, Clone, Copy, PartialEq, Eq, Structural)]
pub struct LiquidityPool {
    pub reserve_yes: u128,
    pub reserve_no: u128,
    pub total_liquidity_shares: u128,
}

/// The pool with both reserves replaced.
pub open spec fn with_reserves(p: LiquidityPool, yes: int, no: int) -> LiquidityPool {
    LiquidityPool { reserve_yes: yes as u128, reserve_no: no as u128, ..p }
}

impl LiquidityPool {
    /// Either live (both reserves and the share supply positive) or fully drained.
    pub open spec fn wf(&self) -> bool {
        (self.reserve_yes > 0 && self.reserve_no > 0 && self.total_liquidity_shares > 0)
        || (self.reserve_yes == 0 && self.reserve_no == 0 && self.total_liquidity_shares == 0)
    }

    pub open spec fn reserve_spec(&self, o: Outcome) -> u128 {
        match o {
            Outcome::Yes => self.reserve_yes,
            Outcome::No => self.reserve_no,
        }
    }

    /// The product of the two reserves, which swaps never decrease.
    pub open spec fn product(&self) -> int {
        (self.reserve_yes as int) * (self.reserve_no as int)
    }

    /// The pool after `amount_in` enters the `o_in` reserve and `amount_out`
    /// leaves the other one.
    pub open spec fn swapped(&self, o_in: Outcome, amount_in: int, amount_out: int) -> LiquidityPool {
        match o_in {
            Outcome::Yes => with_reserves(*self, self.reserve_yes + amount_in, self.reserve_no - amount_out),
            Outcome::No => with_reserves(*self, self.reserve_yes - amount_out, self.reserve_no + amount_in),
        }
    }

    /// What `apply_swap` returns.
    pub open spec fn apply_swap_result(&self, o_in: Outcome, amount_in: u128, amount_out: u128) -> Result<(), AmmError> {
        if amount_out >= self.reserve_spec(o_in.opposite_spec()) {
            Err(AmmError::ReserveExhausted)
        } else if self.reserve_spec(o_in) + amount_in > u128::MAX {
            Err(AmmError::Overflow)
        } else {
            Ok(())
        }
    }

    /// Shares that `add_liquidity` mints for the given deposit, or its error.
    pub open spec fn add_liquidity_result(&self, amount_yes: u128, amount_no: u128) -> Result<u128, AmmError> {
        let t = self.total_liquidity_shares as int;
        if self.reserve_yes == 0 || self.reserve_no == 0 {
            Err(AmmError::DivisionByZero)
        } else {
            let sy = floor_mul_div(amount_yes as int, t, self.reserve_yes as int);
            let sn = floor_mul_div(amount_no as int, t, self.reserve_no as int);
            let lo = if sy <= sn { sy } else { sn };
            let hi = if sy <= sn { sn } else { sy };
            if sy > u128::MAX || sn > u128::MAX {
                Err(AmmError::Overflow)
            } else if hi - lo > floor_mul_div(hi, RATIO_TOLERANCE_BPS as int, BPS_DENOMINATOR as int) {
                Err(AmmError::RatioMismatch)
            } else if lo == 0 {
                Err(AmmError::InsufficientShares)
            } else if self.reserve_yes + amount_yes > u128::MAX || self.reserve_no + amount_no
                > u128::MAX || t + lo > u128::MAX {
                Err(AmmError::Overflow)
            } else {
                Ok(lo as u128)
            }
        }
    }

    /// The pool after a deposit that minted `minted` shares.
    pub open spec fn deposited(&self, amount_yes: u128, amount_no: u128, minted: u128) -> LiquidityPool {
        LiquidityPool {
            reserve_yes: (self.reserve_yes + amount_yes) as u128,
            reserve_no: (self.reserve_no + amount_no) as u128,
            total_liquidity_shares: (self.total_liquidity_shares + minted) as u128,
        }
    }

    /// Reserves that burning `shares` pays out, or `InsufficientShares`.
    pub open spec fn remove_liquidity_result(&self, shares: u128) -> Result<(u128, u128), AmmError> {
        if shares == 0 || shares > self.total_liquidity_shares {
            Err(AmmError::InsufficientShares)
        } else {
            let t = self.total_liquidity_shares as int;
            Ok((
                floor_mul_div(shares as int, self.reserve_yes as int, t) as u128,
                floor_mul_div(shares as int, self.reserve_no as int, t) as u128,
            ))
        }
    }

    /// The pool after `shares` were burned for `out_yes` and `out_no`.
    pub open spec fn withdrawn(&self, shares: u128, out_yes: u128, out_no: u128) -> LiquidityPool {
        LiquidityPool {
            reserve_yes: (self.reserve_yes - out_yes) as u128,
            reserve_no: (self.reserve_no - out_no) as u128,
            total_liquidity_shares: (self.total_liquidity_shares - shares) as u128,
        }
    }

    /// A new pool seeded with both reserves; the initial share supply is the
    /// smaller seed. Fails with `InvalidSeed` unless both seeds are positive.
    pub fn initialize(seed_yes: u128, seed_no: u128) -> (r: Result<LiquidityPool, AmmError>)
        ensures
            (seed_yes == 0 || seed_no == 0) <==> r is Err,
            r is Err ==> r == Err::<LiquidityPool, AmmError>(AmmError::InvalidSeed),
            r matches Ok(p) ==> p.wf() && p.reserve_yes == seed_yes && p.reserve_no == seed_no
                && p.total_liquidity_shares == (if seed_yes <= seed_no { seed_yes } else { seed_no }),
    {
        if seed_yes == 0 || seed_no == 0 {
            return Err(AmmError::InvalidSeed);
        }
        let shares = if seed_yes <= seed_no { seed_yes } else { seed_no };
        Ok(LiquidityPool { reserve_yes: seed_yes, reserve_no: seed_no, total_liquidity_shares: shares })
    }

    /// Reserve held of outcome `o`.
    pub fn reserve(&self, o: Outcome) -> (r: u128)
        ensures
            r == self.reserve_spec(o),
    {
        match o {
            Outcome::Yes => self.reserve_yes,
            Outcome::No => self.reserve_no,
        }
    }

    /// Moves `amount_in` into the `o_in` reserve and `amount_out` out of the
    /// other one. Fails with `ReserveExhausted`, changing nothing, when the
    /// other reserve would reach zero.
    pub fn apply_swap(&mut self, o_in: Outcome, amount_in: u128, amount_out: u128) -> (r: Result<(), AmmError>)
        requires
            old(self).wf(),
        ensures
            r == old(self).apply_swap_result(o_in, amount_in, amount_out),
            r is Ok ==> *final(self) == old(self).swapped(o_in, amount_in as int, amount_out as int),
            r is Ok ==> final(self).wf(),
            r is Err ==> *final(self) == *old(self),
    {
        let out_side = o_in.opposite();
        let reserve_out = self.reserve(out_side);
        let reserve_in = self.reserve(o_in);
        if amount_out >= reserve_out {
            return Err(AmmError::ReserveExhausted);
        }
        if reserve_in > u128::MAX - amount_in {
            return Err(AmmError::Overflow);
        }
        match o_in {
            Outcome::Yes => {
                self.reserve_yes = reserve_in + amount_in;
                self.reserve_no = reserve_out - amount_out;
            }
            Outcome::No => {
                self.reserve_no = reserve_in + amount_in;
                self.reserve_yes = reserve_out - amount_out;
            }
        }
        Ok(())
    }

    /// Deposits both reserves and mints shares in proportion to the smaller
    /// relative contribution. Fails with `RatioMismatch` when the two
    /// contributions differ by more than the tolerance, and with
    /// `InsufficientShares` when nothing would be minted.
    pub fn add_liquidity(&mut self, amount_yes: u128, amount_no: u128) -> (r: Result<u128, AmmError>)
        requires
            old(self).wf(),
        ensures
            r == old(self).add_liquidity_result(amount_yes, amount_no),
            r matches Ok(m) ==> *final(self) == old(self).deposited(amount_yes, amount_no, m),
            final(self).wf(),
            r is Err ==> *final(self) == *old(self),
    {
        let t = self.total_liquidity_shares;
        if self.reserve_yes == 0 || self.reserve_no == 0 {
            return Err(AmmError::DivisionByZero);
        }
        let sy = mul_div(amount_yes, t, self.reserve_yes);
        let sn = mul_div(amount_no, t, self.reserve_no);
        let (sy, sn) = match (sy, sn) {
            (Ok(a), Ok(b)) => (a, b),
            _ => { return Err(AmmError::Overflow); },
        };
        let lo = if sy <= sn { sy } else { sn };
        let hi = if sy <= sn { sn } else { sy };
        let tol = mul_div(hi, RATIO_TOLERANCE_BPS, BPS_DENOMINATOR);
        proof {
            assert(floor_mul_div(hi as int, 100, 10000) <= hi) by (nonlinear_arith)
                requires hi >= 0;
        }
        let tol = match tol {
            Ok(v) => v,
            Err(e) => { return Err(e); },
        };
        if hi - lo > tol {
            return Err(AmmError::RatioMismatch);
        }
        if lo == 0 {
            return Err(AmmError::InsufficientShares);
        }
        if self.reserve_yes > u128::MAX - amount_yes || self.reserve_no > u128::MAX - amount_no
            || t > u128::MAX - lo {
            return Err(AmmError::Overflow);
        }
        self.reserve_yes = self.reserve_yes + amount_yes;
        self.reserve_no = self.reserve_no + amount_no;
        self.total_liquidity_shares = t + lo;
        Ok(lo)
    }

    /// Burns `shares` and pays out the same fraction of each reserve, rounded
    /// down. Fails with `InsufficientShares` unless 0 < shares <= supply.
    pub fn remove_liquidity(&mut self, shares: u128) -> (r: Result<(u128, u128), AmmError>)
        requires
            old(self).wf(),
        ensures
            r == old(self).remove_liquidity_result(shares),
            r matches Ok((y, n)) ==> *final(self) == old(self).withdrawn(shares, y, n),
            final(self).wf(),
            r is Err ==> *final(self) == *old(self),
    {
        let t = self.total_liquidity_shares;
        if shares == 0 || shares > t {
            return Err(AmmError::InsufficientShares);
        }
        let ry = self.reserve_yes;
        let rn = self.reserve_no;
        proof {
            lemma_share_of(shares as int, ry as int, t as int);
            lemma_share_of(shares as int, rn as int, t as int);
        }
        let out_yes = mul_div(shares, ry, t);
        let out_no = mul_div(shares, rn, t);
        match (out_yes, out_no) {
            (Ok(y), Ok(n)) => {
                self.reserve_yes = ry - y;
                self.reserve_no = rn - n;
                self.total_liquidity_shares = t - shares;
                Ok((y, n))
            }
            _ => Err(AmmError::Overflow),
        }
    }
}

impl Outcome {
    pub open spec fn opposite_spec(self) -> Outcome {
        match self {
            Outcome::Yes => Outcome::No,
            Outcome::No => Outcome::Yes,
        }
    }
}

/// s * r / t is at most r, and below r when s < t.
proof fn lemma_share_of(s: int, r: int, t: int)
    requires
        0 < s <= t,
        r >= 0,
    ensures
        s * r / t <= r,
        s < t && r > 0 ==> s * r / t < r,
        s == t ==> s * r / t == r,
{
    assert(s * r <= t * r) by (nonlinear_arith) requires s <= t, r >= 0;
    vstd::arithmetic::div_mod::lemma_div_is_ordered(s * r, t * r, t);
    assert(t * r == r * t) by (nonlinear_arith);
    vstd::arithmetic::div_mod::lemma_fundamental_div_mod_converse(t * r, t, r, 0);
    if s < t && r > 0 {
        assert(s * r <= t * r - r) by (nonlinear_arith) requires s < t, r > 0;
        vstd::arithmetic::div_mod::lemma_div_is_ordered(s * r, t * r - r, t);
        assert(t * r - r <= (r - 1) * t + (t - 1)) by (nonlinear_arith) requires t >= 1, r >= 1;
        vstd::arithmetic::div_mod::lemma_fundamental_div_mod_converse(
            (r - 1) * t + (t - 1), t, r - 1, t - 1);
        vstd::arithmetic::div_mod::lemma_div_is_ordered(t * r - r, (r - 1) * t + (t - 1), t);
    }
}

} // verus!

verus! {

/// Depositing liquidity and at once burning exactly the shares minted pays
/// back no more than was deposited on either side, and leaves the pool with
/// the same share supply and reserves no smaller than before, so the other
/// providers' shares lose no value.
pub proof fn lemma_liquidity_round_trip(pool: LiquidityPool, amount_yes: u128, amount_no: u128)
    requires
        pool.wf(),
        pool.add_liquidity_result(amount_yes, amount_no) is Ok,
    ensures
        ({
            let minted = pool.add_liquidity_result(amount_yes, amount_no)->Ok_0;
            let mid = pool.deposited(amount_yes, amount_no, minted);
            let back = mid.remove_liquidity_result(minted);
            &&& mid.wf()
            &&& back is Ok
            &&& back->Ok_0.0 <= amount_yes
            &&& back->Ok_0.1 <= amount_no
            &&& mid.withdrawn(minted, back->Ok_0.0, back->Ok_0.1).total_liquidity_shares == pool.total_liquidity_shares
            &&& mid.withdrawn(minted, back->Ok_0.0, back->Ok_0.1).reserve_yes >= pool.reserve_yes
            &&& mid.withdrawn(minted, back->Ok_0.0, back->Ok_0.1).reserve_no >= pool.reserve_no
        }),
{
    let t = pool.total_liquidity_shares as int;
    let m = pool.add_liquidity_result(amount_yes, amount_no)->Ok_0 as int;
    lemma_round_trip_side(amount_yes as int, pool.reserve_yes as int, t, m);
    lemma_round_trip_side(amount_no as int, pool.reserve_no as int, t, m);
}

/// One side of the round trip: with m <= a * t / r, burning m of t + m
/// shares of a reserve r + a pays at most a.
proof fn lemma_round_trip_side(a: int, r: int, t: int, m: int)
    requires
        r > 0,
        t > 0,
        a >= 0,
        0 < m <= a * t / r,
    ensures
        m * (r + a) / (t + m) <= a,
        m * (r + a) / (t + m) >= 0,
{
    vstd::arithmetic::div_mod::lemma_fundamental_div_mod(a * t, r);
    let q = a * t / r;
    let rem = (a * t) % r;
    assert(m * r <= a * t) by (nonlinear_arith)
        requires m <= q, a * t == r * q + rem, 0 <= rem, r > 0, m >= 0;
    assert(m * (r + a) <= a * (t + m)) by (nonlinear_arith)
        requires m * r <= a * t;
    vstd::arithmetic::div_mod::lemma_div_is_ordered(m * (r + a), a * (t + m), t + m);
    assert(a * (t + m) == a * (t + m) + 0);
    vstd::arithmetic::div_mod::lemma_fundamental_div_mod_converse(a * (t + m), t + m, a, 0);
    assert(m * (r + a) >= 0) by (nonlinear_arith) requires m >= 0, r + a >= 0;
    vstd::arithmetic::div_mod::lemma_div_is_ordered(0, m * (r + a), t + m);
}

} // verus!
