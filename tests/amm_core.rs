use boxmeout::amm::Amm;
use boxmeout::curve::{quote, Direction, Quote};
use boxmeout::events::CreatorRewardsDistributedEvent;
use boxmeout::ledger::{AccountId, Trade, TradeLedger, DEFAULT_TRADE_CAPACITY};
use boxmeout::math::{mul_div, mul_div_up, AmmError};
use boxmeout::pool::{LiquidityPool, Outcome};

fn trade_at(ts: u64) -> Trade {
    Trade { trader: AccountId(ts), outcome: Outcome::Yes, quantity: 1, price: 1, timestamp: ts }
}

#[test]
fn mul_div_exact_values() {
    assert_eq!(mul_div(7, 3, 2), Ok(10));
    assert_eq!(mul_div_up(7, 3, 2), Ok(11));
    assert_eq!(mul_div_up(6, 3, 2), Ok(9));
    assert_eq!(mul_div(1000, 100, 900), Ok(111));
    assert_eq!(mul_div_up(1000, 100, 900), Ok(112));
}

#[test]
fn mul_div_wide_intermediate() {
    assert_eq!(mul_div(u128::MAX, u128::MAX, u128::MAX), Ok(u128::MAX));
    assert_eq!(mul_div(u128::MAX, 6, 3), Err(AmmError::Overflow));
    assert_eq!(mul_div(u128::MAX - 1, u128::MAX, u128::MAX), Ok(u128::MAX - 1));
    assert_eq!(mul_div_up(u128::MAX, 3, 2), Err(AmmError::Overflow));
}

#[test]
fn mul_div_by_zero() {
    assert_eq!(mul_div(1, 1, 0), Err(AmmError::DivisionByZero));
    assert_eq!(mul_div_up(1, 1, 0), Err(AmmError::DivisionByZero));
}

#[test]
fn initialize_rejects_empty_seed() {
    assert_eq!(LiquidityPool::initialize(0, 5), Err(AmmError::InvalidSeed));
    assert_eq!(LiquidityPool::initialize(5, 0), Err(AmmError::InvalidSeed));
    let p = LiquidityPool::initialize(400, 900).unwrap();
    assert_eq!((p.reserve_yes, p.reserve_no, p.total_liquidity_shares), (400, 900, 400));
}

#[test]
fn buy_scenario_zero_fee() {
    let mut amm = Amm::new(1000, 1000, 0, 50).unwrap();
    let t = amm.execute_swap(AccountId(7), Outcome::Yes, Direction::Buy, 100, u128::MAX, 5).unwrap();
    assert_eq!(t, Trade { trader: AccountId(7), outcome: Outcome::Yes, quantity: 100, price: 1, timestamp: 5 });
    assert_eq!(amm.pool.reserve_yes, 900);
    assert_eq!(amm.pool.reserve_no, 1112);
    assert_eq!(amm.get_recent_trades(10), vec![t]);
}

#[test]
fn buy_with_fee_grows_product() {
    let mut amm = Amm::new(1000, 1000, 30, 50).unwrap();
    let t = amm.execute_swap(AccountId(7), Outcome::No, Direction::Buy, 100, u128::MAX, 5).unwrap();
    assert_eq!(t.price, 1);
    assert_eq!(amm.pool.reserve_no, 900);
    assert_eq!(amm.pool.reserve_yes, 1113);
    assert!(amm.pool.reserve_yes * amm.pool.reserve_no > 1000 * 1000);
}

#[test]
fn zero_fee_swap_keeps_product_at_least() {
    let mut amm = Amm::new(1000, 1000, 0, 50).unwrap();
    amm.execute_swap(AccountId(1), Outcome::Yes, Direction::Buy, 100, u128::MAX, 1).unwrap();
    assert!(amm.pool.reserve_yes * amm.pool.reserve_no >= 1000 * 1000);
    amm.execute_swap(AccountId(1), Outcome::No, Direction::Sell, 50, 0, 2).unwrap();
    assert!(amm.pool.reserve_yes * amm.pool.reserve_no >= 1000 * 1000);
}

#[test]
fn sell_pays_curve_less_fee() {
    let pool = LiquidityPool::initialize(1000, 1000).unwrap();
    assert_eq!(quote(&pool, Outcome::Yes, Direction::Sell, 100, 0), Ok(Quote { price: 0, amount: 90 }));
    assert_eq!(quote(&pool, Outcome::Yes, Direction::Sell, 100, 100), Ok(Quote { price: 0, amount: 89 }));
    let mut amm = Amm::new(1000, 1000, 0, 50).unwrap();
    amm.execute_swap(AccountId(3), Outcome::Yes, Direction::Sell, 100, 90, 9).unwrap();
    assert_eq!((amm.pool.reserve_yes, amm.pool.reserve_no), (1100, 910));
}

#[test]
fn larger_buys_pay_more() {
    let pool = LiquidityPool::initialize(1000, 1000).unwrap();
    let small = quote(&pool, Outcome::Yes, Direction::Buy, 100, 0).unwrap();
    let large = quote(&pool, Outcome::Yes, Direction::Buy, 200, 0).unwrap();
    assert_eq!(small, Quote { price: 1, amount: 112 });
    assert_eq!(large, Quote { price: 1, amount: 250 });
    let larger = quote(&pool, Outcome::Yes, Direction::Buy, 500, 0).unwrap();
    assert_eq!(larger, Quote { price: 2, amount: 1000 });
    assert!(small.price <= large.price && large.price <= larger.price);
}

#[test]
fn quote_errors() {
    let pool = LiquidityPool::initialize(1000, 1000).unwrap();
    assert_eq!(quote(&pool, Outcome::Yes, Direction::Buy, 0, 0), Err(AmmError::ZeroSize));
    assert_eq!(quote(&pool, Outcome::Yes, Direction::Buy, 1000, 0), Err(AmmError::InsufficientLiquidity));
    let skewed = LiquidityPool::initialize(2, u128::MAX).unwrap();
    assert_eq!(quote(&skewed, Outcome::Yes, Direction::Buy, 1, 30), Err(AmmError::Overflow));
}

#[test]
fn swap_failure_changes_nothing() {
    let mut amm = Amm::new(1000, 1000, 0, 50).unwrap();
    amm.execute_swap(AccountId(1), Outcome::Yes, Direction::Buy, 10, u128::MAX, 1).unwrap();
    let pool = amm.pool;
    let r = amm.execute_swap(AccountId(2), Outcome::Yes, Direction::Buy, 100, 100, 2);
    assert_eq!(r, Err(AmmError::SlippageExceeded));
    let r = amm.execute_swap(AccountId(2), Outcome::Yes, Direction::Sell, 100, 1000, 2);
    assert_eq!(r, Err(AmmError::SlippageExceeded));
    let r = amm.execute_swap(AccountId(2), Outcome::No, Direction::Buy, 0, u128::MAX, 2);
    assert_eq!(r, Err(AmmError::ZeroSize));
    assert_eq!(amm.pool, pool);
    assert_eq!(amm.get_recent_trades(100).len(), 1);
    amm.set_market_closed(true);
    let r = amm.execute_swap(AccountId(2), Outcome::Yes, Direction::Buy, 1, u128::MAX, 3);
    assert_eq!(r, Err(AmmError::MarketClosed));
    assert_eq!(amm.pool, pool);
    assert_eq!(amm.get_recent_trades(100).len(), 1);
}

#[test]
fn swap_overflow_on_reserve() {
    let mut amm = Amm::new(2, u128::MAX, 0, 5).unwrap();
    let r = amm.execute_swap(AccountId(1), Outcome::Yes, Direction::Buy, 1, u128::MAX, 1);
    assert_eq!(r, Err(AmmError::Overflow));
    assert_eq!((amm.pool.reserve_yes, amm.pool.reserve_no), (2, u128::MAX));
}

#[test]
fn apply_swap_rejects_exhaustion() {
    let mut pool = LiquidityPool::initialize(1000, 1000).unwrap();
    assert_eq!(pool.apply_swap(Outcome::Yes, 10, 1000), Err(AmmError::ReserveExhausted));
    assert_eq!((pool.reserve_yes, pool.reserve_no), (1000, 1000));
    assert_eq!(pool.apply_swap(Outcome::Yes, 10, 999), Ok(()));
    assert_eq!((pool.reserve_yes, pool.reserve_no), (1010, 1));
}

#[test]
fn liquidity_round_trip() {
    let mut pool = LiquidityPool::initialize(1000, 1000).unwrap();
    let minted = pool.add_liquidity(100, 101).unwrap();
    assert_eq!(minted, 100);
    assert_eq!((pool.reserve_yes, pool.reserve_no, pool.total_liquidity_shares), (1100, 1101, 1100));
    let (y, n) = pool.remove_liquidity(minted).unwrap();
    assert_eq!((y, n), (100, 100));
    assert_eq!((pool.reserve_yes, pool.reserve_no, pool.total_liquidity_shares), (1000, 1001, 1000));
}

#[test]
fn liquidity_errors() {
    let mut pool = LiquidityPool::initialize(1000, 1000).unwrap();
    assert_eq!(pool.add_liquidity(100, 200), Err(AmmError::RatioMismatch));
    assert_eq!(pool.add_liquidity(0, 0), Err(AmmError::InsufficientShares));
    assert_eq!(pool.remove_liquidity(0), Err(AmmError::InsufficientShares));
    assert_eq!(pool.remove_liquidity(1001), Err(AmmError::InsufficientShares));
    assert_eq!((pool.reserve_yes, pool.reserve_no, pool.total_liquidity_shares), (1000, 1000, 1000));
    assert_eq!(pool.remove_liquidity(1000), Ok((1000, 1000)));
    assert_eq!(pool.add_liquidity(5, 5), Err(AmmError::DivisionByZero));
}

#[test]
fn recent_trades_limits() {
    let mut ledger = TradeLedger::new(DEFAULT_TRADE_CAPACITY);
    assert_eq!(ledger.get_recent_trades(5), Vec::new());
    for i in 0..50u64 {
        ledger.record_trade(trade_at(i));
    }
    assert_eq!(ledger.get_recent_trades(0), Vec::new());
    assert_eq!(ledger.get_recent_trades(1000).len(), 50);
    assert_eq!(ledger.get_recent_trades(1000)[0].timestamp, 49);
}

#[test]
fn ledger_keeps_last_capacity_trades() {
    let mut ledger = TradeLedger::new(3);
    for i in 1..=5u64 {
        ledger.record_trade(trade_at(i));
        assert!(ledger.len() <= 3);
    }
    assert_eq!(ledger.capacity(), 3);
    assert_eq!(ledger.get_recent_trades(3), vec![trade_at(5), trade_at(4), trade_at(3)]);
    assert_eq!(ledger.get_recent_trades(2), vec![trade_at(5), trade_at(4)]);
}

#[test]
fn creator_rewards_event_fields() {
    let e = CreatorRewardsDistributedEvent::new(-5, 3);
    assert_eq!((e.total_amount, e.count), (-5, 3));
}
