use vstd::prelude::*;
use vstd::arithmetic::div_mod::lemma_fundamental_div_mod;
use crate::math::{AmmError, ceil_mul_div};
use crate::pool::{LiquidityPool, Outcome, BPS_DENOMINATOR};
use crate::curve::{Direction, Quote, quote, quote_result, buy_base, sell_base, fee_on, lemma_fee_bounds};
use crate::ledger::{AccountId, Trade, TradeLedger, last_n};

verus! {

/// One market's automated market maker: its pool, its recent trades, the
/// fee it charges on swaps and whether the market still trades.
pub struct Amm {
    pub pool: LiquidityPool,
    pub ledger: TradeLedger,
    pub fee_bps: u128,
    pub market_closed: bool,
}

/// The reserve that a swap fills.
pub open spec fn side_in(outcome: Outcome, direction: Direction) -> Outcome {
    match direction {
        Direction::Buy => outcome.opposite_spec(),
        Direction::Sell => outcome,
    }
}

/// What enters the filled reserve and what leaves the other, for a quote.
pub open spec fn swap_amounts(direction: Direction, size: u128, q: Quote) -> (u128, u128) {
    match direction {
        Direction::Buy => (q.amount, size),
        Direction::Sell => (size, q.amount),
    }
}

/// Whether a quote respects the trader's bound: at most `limit` paid on a
/// buy, at least `limit` received on a sell.
pub open spec fn within_limit(direction: Direction, q: Quote, limit: u128) -> bool {
    match direction {
        Direction::Buy => q.amount <= limit,
        Direction::Sell => q.amount >= limit,
    }
}

/// What `execute_swap` returns.
pub open spec fn swap_result(
    pool: LiquidityPool,
    fee_bps: u128,
    market_closed: bool,
    trader: AccountId,
    outcome: Outcome,
    direction: Direction,
    size: u128,
    limit: u128,
    now: u64,
) -> Result<Trade, AmmError> {
    if market_closed {
        Err(AmmError::MarketClosed)
    } else {
        match quote_result(pool, outcome, direction, size, fee_bps) {
            Err(e) => Err(e),
            Ok(q) => if !within_limit(direction, q, limit) {
                Err(AmmError::SlippageExceeded)
            } else {
                let (a_in, a_out) = swap_amounts(direction, size, q);
                match pool.apply_swap_result(side_in(outcome, direction), a_in, a_out) {
                    Err(e) => Err(e),
                    Ok(_) => Ok(Trade { trader, outcome, quantity: size, price: q.price, timestamp: now }),
                }
            },
        }
    }
}

/// The pool after a successful swap at quote `q`.
pub open spec fn pool_after(pool: LiquidityPool, outcome: Outcome, direction: Direction, size: u128, q: Quote) -> LiquidityPool {
    let (a_in, a_out) = swap_amounts(direction, size, q);
    pool.swapped(side_in(outcome, direction), a_in as int, a_out as int)
}

/// A buy of `s` from a reserve of `r_out` against `r_in`, paid at the curve
/// plus the fee, never shrinks the reserve product, and grows it when a fee
/// is charged.
pub proof fn lemma_buy_keeps_product(r_in: int, r_out: int, s: int, fee_bps: int)
    requires
        r_in > 0,
        0 < s < r_out,
        0 <= fee_bps <= 10000,
    ensures
        ({
            let base = buy_base(r_in, r_out, s);
            let paid = base + fee_on(base, fee_bps);
            &&& (r_out - s) * (r_in + paid) >= r_out * r_in
            &&& fee_bps > 0 ==> (r_out - s) * (r_in + paid) > r_out * r_in
        }),
{
    let d = r_out - s;
    let x = r_in * s;
    let base = buy_base(r_in, r_out, s);
    lemma_fundamental_div_mod(x + d - 1, d);
    let m = (x + d - 1) % d;
    assert(x >= 1) by (nonlinear_arith) requires r_in >= 1, s >= 1, x == r_in * s;
    assert(x + d - 1 == d * base + m);
    assert(0 <= m < d);
    assert(base * d >= x && base >= 1) by (nonlinear_arith)
        requires
            x + d - 1 == d * base + m,
            0 <= m < d,
            x >= 1, d >= 1;
    let fee = fee_on(base, fee_bps);
    lemma_fee_bounds(base, fee_bps);
    assert(d * (r_in + base + fee) == r_out * r_in - x + base * d + fee * d) by (nonlinear_arith)
        requires d == r_out - s, x == r_in * s;
    assert(fee * d >= fee) by (nonlinear_arith) requires fee >= 0, d >= 1;
    assert((r_out - s) * (r_in + base + fee) >= r_out * r_in);
    if fee_bps > 0 {
        assert((r_out - s) * (r_in + base + fee) > r_out * r_in);
    }
}

/// A sale of `s` into a reserve of `r_into` against `r_other`, paid out at
/// the curve less the fee, never shrinks the reserve product, and grows it
/// when a fee is charged.
pub proof fn lemma_sell_keeps_product(r_other: int, r_into: int, s: int, fee_bps: int)
    requires
        r_other > 0,
        r_into > 0,
        s > 0,
        0 <= fee_bps <= 10000,
    ensures
        ({
            let base = sell_base(r_other, r_into, s);
            let paid = base - fee_on(base, fee_bps);
            &&& 0 <= paid < r_other
            &&& (r_into + s) * (r_other - paid) >= r_into * r_other
            &&& fee_bps > 0 ==> (r_into + s) * (r_other - paid) > r_into * r_other
        }),
{
    let d = r_into + s;
    let x = r_other * s;
    let base = sell_base(r_other, r_into, s);
    lemma_fundamental_div_mod(x, d);
    let m = x % d;
    assert(x >= 0) by (nonlinear_arith) requires r_other >= 0, s >= 0, x == r_other * s;
    assert(x == d * base + m);
    assert(0 <= m < d);
    assert(base * d <= x && base >= 0) by (nonlinear_arith)
        requires
            x == d * base + m,
            0 <= m < d,
            x >= 0, d >= 1;
    let fee = fee_on(base, fee_bps);
    lemma_fee_bounds(base, fee_bps);
    let paid = base - fee;
    assert(paid <= base);
    assert(base < r_other) by (nonlinear_arith)
        requires base * d <= x, x == r_other * s, d >= s + 1, s >= 1, base >= 0, r_other >= 1;
    assert(d * (r_other - paid) == r_into * r_other + x - paid * d) by (nonlinear_arith)
        requires d == r_into + s, x == r_other * s;
    assert(paid * d <= base * d) by (nonlinear_arith) requires paid <= base, d >= 1;
    assert((r_into + s) * (r_other - paid) >= r_into * r_other);
    if fee_bps > 0 {
        if base >= 1 {
            assert(paid * d <= base * d - d) by (nonlinear_arith) requires paid <= base - 1, d >= 1;
            assert((r_into + s) * (r_other - paid) > r_into * r_other);
        } else {
            assert(paid <= 0);
            assert(paid * d <= 0) by (nonlinear_arith) requires paid <= 0, d >= 1;
            assert(x >= 1) by (nonlinear_arith) requires r_other >= 1, s >= 1, x == r_other * s;
            assert((r_into + s) * (r_other - paid) > r_into * r_other);
        }
    }
}

/// A quoted swap that the pool accepts never shrinks the reserve product,
/// and grows it when a fee is charged.
pub proof fn lemma_swap_keeps_product(before: LiquidityPool, outcome: Outcome, direction: Direction, size: u128, fee_bps: u128)
    requires
        before.wf(),
        fee_bps <= BPS_DENOMINATOR,
        quote_result(before, outcome, direction, size, fee_bps) is Ok,
        ({
            let q = quote_result(before, outcome, direction, size, fee_bps)->Ok_0;
            let (a_in, a_out) = swap_amounts(direction, size, q);
            before.apply_swap_result(side_in(outcome, direction), a_in, a_out) is Ok
        }),
    ensures
        ({
            let q = quote_result(before, outcome, direction, size, fee_bps)->Ok_0;
            &&& pool_after(before, outcome, direction, size, q).wf()
            &&& pool_after(before, outcome, direction, size, q).product() >= before.product()
            &&& fee_bps > 0 ==> pool_after(before, outcome, direction, size, q).product() > before.product()
        }),
{
    let q = quote_result(before, outcome, direction, size, fee_bps)->Ok_0;
        let r_self = before.reserve_spec(outcome) as int;
    let r_other = before.reserve_spec(outcome.opposite_spec()) as int;
    let f = fee_bps as int;
    match direction {
        Direction::Buy => {
            lemma_buy_keeps_product(r_other, r_self, size as int, f);
            let base = buy_base(r_other, r_self, size as int);
            assert(q.amount == base + fee_on(base, f));
            assert((r_self - size) * (r_other + q.amount) >= r_self * r_other);
            assert(f > 0 ==> (r_self - size) * (r_other + q.amount) > r_self * r_other);
        },
        Direction::Sell => {
            lemma_sell_keeps_product(r_other, r_self, size as int, f);
            let base = sell_base(r_other, r_self, size as int);
            assert(q.amount == base - fee_on(base, f));
            assert((r_self + size) * (r_other - q.amount) >= r_self * r_other);
            assert(f > 0 ==> (r_self + size) * (r_other - q.amount) > r_self * r_other);
        },
    }
    let pa = pool_after(before, outcome, direction, size, q);
    match (outcome, direction) {
        (Outcome::Yes, Direction::Buy) => assert(pa.product() == (r_self - size) * (r_other + q.amount)),
        (Outcome::No, Direction::Buy) => assert(pa.product() == (r_other + q.amount) * (r_self - size)),
        (Outcome::Yes, Direction::Sell) => assert(pa.product() == (r_self + size) * (r_other - q.amount)),
        (Outcome::No, Direction::Sell) => assert(pa.product() == (r_other - q.amount) * (r_self + size)),
    }
    assert(r_self * r_other == before.product() || r_other * r_self == before.product());
    assert(r_self * r_other == r_other * r_self) by (nonlinear_arith);
    assert((r_other + q.amount) * (r_self - size) == (r_self - size) * (r_other + q.amount)) by (nonlinear_arith);
    assert((r_other - q.amount) * (r_self + size) == (r_self + size) * (r_other - q.amount)) by (nonlinear_arith);
}

/// The pool after the swap `sw` (outcome, direction, size) at `fee_bps`;
/// a swap that the curve or the pool rejects leaves it as it was.
pub open spec fn swap_step(pool: LiquidityPool, sw: (Outcome, Direction, u128), fee_bps: u128) -> LiquidityPool {
    match quote_result(pool, sw.0, sw.1, sw.2, fee_bps) {
        Err(_) => pool,
        Ok(q) => {
            let (a_in, a_out) = swap_amounts(sw.1, sw.2, q);
            if pool.apply_swap_result(side_in(sw.0, sw.1), a_in, a_out) is Ok {
                pool_after(pool, sw.0, sw.1, sw.2, q)
            } else {
                pool
            }
        },
    }
}

/// The pool after each of `swaps` in turn.
pub open spec fn run_swaps(pool: LiquidityPool, swaps: Seq<(Outcome, Direction, u128)>, fee_bps: u128) -> LiquidityPool
    decreases swaps.len(),
{
    if swaps.len() == 0 {
        pool
    } else {
        swap_step(run_swaps(pool, swaps.drop_last(), fee_bps), swaps.last(), fee_bps)
    }
}

/// Over any sequence of swaps at one fee rate the reserve product never
/// falls; with a positive fee it has grown as soon as any swap went through.
pub proof fn lemma_swaps_keep_product(pool: LiquidityPool, swaps: Seq<(Outcome, Direction, u128)>, fee_bps: u128)
    requires
        pool.wf(),
        fee_bps <= BPS_DENOMINATOR,
    ensures
        run_swaps(pool, swaps, fee_bps).wf(),
        run_swaps(pool, swaps, fee_bps).product() >= pool.product(),
        fee_bps > 0 && run_swaps(pool, swaps, fee_bps) != pool
            ==> run_swaps(pool, swaps, fee_bps).product() > pool.product(),
    decreases swaps.len(),
{
    if swaps.len() > 0 {
        lemma_swaps_keep_product(pool, swaps.drop_last(), fee_bps);
        let mid = run_swaps(pool, swaps.drop_last(), fee_bps);
        let sw = swaps.last();
        if quote_result(mid, sw.0, sw.1, sw.2, fee_bps) is Ok {
            let q = quote_result(mid, sw.0, sw.1, sw.2, fee_bps)->Ok_0;
            let (a_in, a_out) = swap_amounts(sw.1, sw.2, q);
            if mid.apply_swap_result(side_in(sw.0, sw.1), a_in, a_out) is Ok {
                lemma_swap_keeps_product(mid, sw.0, sw.1, sw.2, fee_bps);
            }
        }
    }
}

impl Amm {
    pub open spec fn wf(&self) -> bool {
        &&& self.pool.wf()
        &&& self.ledger.wf()
        &&& self.fee_bps <= BPS_DENOMINATOR
    }

    /// A market maker over a freshly seeded pool with an empty ledger of
    /// `capacity` trades. Fails with `InvalidSeed` unless both seeds are positive.
    pub fn new(seed_yes: u128, seed_no: u128, fee_bps: u128, capacity: usize) -> (r: Result<Amm, AmmError>)
        requires
            fee_bps <= BPS_DENOMINATOR,
            capacity > 0,
        ensures
            (seed_yes == 0 || seed_no == 0) <==> r is Err,
            r is Err ==> r == Err::<Amm, AmmError>(AmmError::InvalidSeed),
            r matches Ok(a) ==> {
                &&& a.wf()
                &&& a.pool.reserve_yes == seed_yes
                &&& a.pool.reserve_no == seed_no
                &&& a.ledger@ == Seq::<Trade>::empty()
                &&& a.ledger.cap() == capacity
                &&& a.fee_bps == fee_bps
                &&& !a.market_closed
            },
    {
        match LiquidityPool::initialize(seed_yes, seed_no) {
            Ok(pool) => Ok(Amm { pool, ledger: TradeLedger::new(capacity), fee_bps, market_closed: false }),
            Err(e) => Err(e),
        }
    }

    /// Records the market collaborator's word on whether trading has ended.
    pub fn set_market_closed(&mut self, closed: bool)
        requires
            old(self).wf(),
        ensures
            final(self).wf(),
            final(self).market_closed == closed,
            final(self).pool == old(self).pool,
            final(self).ledger@ == old(self).ledger@,
            final(self).fee_bps == old(self).fee_bps,
    {
        self.market_closed = closed;
    }

    /// Up to `limit` of the recorded trades, the newest first.
    pub fn get_recent_trades(&self, limit: usize) -> (r: Vec<Trade>)
        requires
            self.wf(),
        ensures
            r@ == crate::ledger::newest_first(self.ledger@, limit as nat),
    {
        self.ledger.get_recent_trades(limit)
    }

    /// Quotes, checks the trader's bound `limit`, moves the reserves and
    /// records the trade; the returned trade is also the event to publish.
    /// On any failure the pool and the ledger are left as they were.
    pub fn execute_swap(
        &mut self,
        trader: AccountId,
        outcome: Outcome,
        direction: Direction,
        size: u128,
        limit: u128,
        now: u64,
    ) -> (r: Result<Trade, AmmError>)
        requires
            old(self).wf(),
        ensures
            final(self).wf(),
            r == swap_result(old(self).pool, old(self).fee_bps, old(self).market_closed, trader, outcome, direction, size, limit, now),
            final(self).fee_bps == old(self).fee_bps,
            final(self).market_closed == old(self).market_closed,
            final(self).ledger.cap() == old(self).ledger.cap(),
            r is Err ==> final(self).pool == old(self).pool && final(self).ledger@ == old(self).ledger@,
            r matches Ok(t) ==> {
                &&& final(self).pool == pool_after(old(self).pool, outcome, direction, size,
                    quote_result(old(self).pool, outcome, direction, size, old(self).fee_bps)->Ok_0)
                &&& final(self).ledger@ == last_n(old(self).ledger@.push(t), old(self).ledger.cap())
                &&& final(self).pool.product() >= old(self).pool.product()
                &&& old(self).fee_bps > 0 ==> final(self).pool.product() > old(self).pool.product()
            },
    {
        if self.market_closed {
            return Err(AmmError::MarketClosed);
        }
        let ghost before = self.pool;
        let q = match quote(&self.pool, outcome, direction, size, self.fee_bps) {
            Ok(q) => q,
            Err(e) => { return Err(e); },
        };
        let within = match direction {
            Direction::Buy => q.amount <= limit,
            Direction::Sell => q.amount >= limit,
        };
        if !within {
            return Err(AmmError::SlippageExceeded);
        }
        let side = match direction {
            Direction::Buy => outcome.opposite(),
            Direction::Sell => outcome,
        };
        let (a_in, a_out) = match direction {
            Direction::Buy => (q.amount, size),
            Direction::Sell => (size, q.amount),
        };
        match self.pool.apply_swap(side, a_in, a_out) {
            Ok(()) => {},
            Err(e) => { return Err(e); },
        }
        proof {
            lemma_swap_keeps_product(before, outcome, direction, size, self.fee_bps);
        }
        let trade = Trade { trader, outcome, quantity: size, price: q.price, timestamp: now };
        self.ledger.record_trade(trade);
        Ok(trade)
    }
}

} // verus!
