use boxmeout::ledger::{AccountId, Trade};
use boxmeout::pool::Outcome;

#[test]
fn test_trade_struct_creation() {
    let trader = AccountId(1);
    let trade = Trade {
        trader: trader.clone(),
        outcome: Outcome::Yes,
        quantity: 1000,
        price: 500,
        timestamp: 1000,
    };
    assert_eq!(trade.trader, trader);
    assert_eq!(trade.outcome, Outcome::Yes);
    assert_eq!(trade.quantity, 1000);
    assert_eq!(trade.price, 500);
    assert_eq!(trade.timestamp, 1000);
}

#[test]
fn test_trade_struct_no_outcome() {
    let trader = AccountId(1);
    let trade = Trade { trader: trader.clone(), outcome: Outcome::No, quantity: 2000, price: 300, timestamp: 2000 };
    assert_eq!(trade.outcome, Outcome::No);
    assert_eq!(trade.quantity, 2000);
    assert_eq!(trade.price, 300);
}

#[test]
fn test_trade_struct_zero_quantity() {
    let trader = AccountId(1);
    let trade = Trade { trader, outcome: Outcome::Yes, quantity: 0, price: 0, timestamp: 3000 };
    assert_eq!(trade.quantity, 0);
    assert_eq!(trade.price, 0);
}

#[test]
fn test_trade_struct_large_values() {
    let trader = AccountId(1);
    let large_quantity = u128::MAX / 2;
    let large_price = u128::MAX / 2;
    let trade = Trade { trader, outcome: Outcome::Yes, quantity: large_quantity, price: large_price, timestamp: u64::MAX };
    assert_eq!(trade.quantity, large_quantity);
    assert_eq!(trade.price, large_price);
    assert_eq!(trade.timestamp, u64::MAX);
}

#[test]
fn test_multiple_trades_different_traders() {
    let trader1 = AccountId(1);
    let trader2 = AccountId(2);
    let trader3 = AccountId(3);
    let trade1 = Trade { trader: trader1.clone(), outcome: Outcome::Yes, quantity: 100, price: 500, timestamp: 1000 };
    let trade2 = Trade { trader: trader2.clone(), outcome: Outcome::No, quantity: 200, price: 400, timestamp: 2000 };
    let trade3 = Trade { trader: trader3.clone(), outcome: Outcome::Yes, quantity: 150, price: 550, timestamp: 3000 };
    assert_ne!(trade1.trader, trade2.trader);
    assert_ne!(trade2.trader, trade3.trader);
    assert_eq!(trade1.outcome, Outcome::Yes);
    assert_eq!(trade2.outcome, Outcome::No);
    assert_eq!(trade3.outcome, Outcome::Yes);
}

#[test]
fn test_trade_timestamp_ordering() {
    let trader = AccountId(1);
    let trade1 = Trade { trader: trader.clone(), outcome: Outcome::Yes, quantity: 100, price: 500, timestamp: 1000 };
    let trade2 = Trade { trader: trader.clone(), outcome: Outcome::Yes, quantity: 200, price: 510, timestamp: 2000 };
    let trade3 = Trade { trader: trader.clone(), outcome: Outcome::Yes, quantity: 150, price: 520, timestamp: 3000 };
    assert!(trade1.timestamp < trade2.timestamp);
    assert!(trade2.timestamp < trade3.timestamp);
}

#[test]
fn test_trade_price_calculation() {
    let trader = AccountId(1);
    let trade = Trade { trader, outcome: Outcome::Yes, quantity: 2000, price: 500, timestamp: 1000 };
    assert_eq!(trade.price, 500);
}

#[test]
fn test_trade_outcome_validation() {
    let trader = AccountId(1);
    let trade_yes = Trade { trader: trader.clone(), outcome: Outcome::Yes, quantity: 100, price: 500, timestamp: 1000 };
    let trade_no = Trade { trader: trader.clone(), outcome: Outcome::No, quantity: 100, price: 500, timestamp: 2000 };
    assert!(trade_yes.outcome == Outcome::No || trade_yes.outcome == Outcome::Yes);
    assert!(trade_no.outcome == Outcome::No || trade_no.outcome == Outcome::Yes);
}

#[test]
fn test_trade_struct_cloning() {
    let trader = AccountId(1);
    let trade1 = Trade { trader: trader.clone(), outcome: Outcome::Yes, quantity: 100, price: 500, timestamp: 1000 };
    let trade2 = trade1.clone();
    assert_eq!(trade1, trade2);
    assert_eq!(trade1.trader, trade2.trader);
    assert_eq!(trade1.quantity, trade2.quantity);
}

#[test]
fn test_trade_struct_equality() {
    let trader = AccountId(1);
    let trade1 = Trade { trader: trader.clone(), outcome: Outcome::Yes, quantity: 100, price: 500, timestamp: 1000 };
    let trade2 = Trade { trader: trader.clone(), outcome: Outcome::Yes, quantity: 100, price: 500, timestamp: 1000 };
    assert_eq!(trade1, trade2);
}

#[test]
fn test_trade_struct_inequality() {
    let trader = AccountId(1);
    let trade1 = Trade { trader: trader.clone(), outcome: Outcome::Yes, quantity: 100, price: 500, timestamp: 1000 };
    let trade2 = Trade { trader: trader.clone(), outcome: Outcome::No, quantity: 100, price: 500, timestamp: 1000 };
    assert_ne!(trade1, trade2);
}

#[test]
fn test_trade_minimum_values() {
    let trader = AccountId(1);
    let trade = Trade { trader, outcome: Outcome::No, quantity: 1, price: 1, timestamp: 0 };
    assert_eq!(trade.quantity, 1);
    assert_eq!(trade.price, 1);
    assert_eq!(trade.timestamp, 0);
}

#[test]
fn test_trade_field_independence() {
    let trader1 = AccountId(1);
    let trader2 = AccountId(2);
    let mut trade1 = Trade { trader: trader1.clone(), outcome: Outcome::Yes, quantity: 100, price: 500, timestamp: 1000 };
    let trade2 = Trade { trader: trader2.clone(), outcome: Outcome::Yes, quantity: 100, price: 500, timestamp: 1000 };
    trade1.quantity = 200;
    assert_eq!(trade2.quantity, 100);
    assert_ne!(trade1.quantity, trade2.quantity);
}

#[test]
fn test_trade_same_trader_different_outcomes() {
    let trader = AccountId(1);
    let trade_yes = Trade { trader: trader.clone(), outcome: Outcome::Yes, quantity: 100, price: 500, timestamp: 1000 };
    let trade_no = Trade { trader: trader.clone(), outcome: Outcome::No, quantity: 100, price: 500, timestamp: 2000 };
    assert_eq!(trade_yes.trader, trade_no.trader);
    assert_ne!(trade_yes.outcome, trade_no.outcome);
}

#[test]
fn test_trade_struct_all_fields_accessible() {
    let trader = AccountId(1);
    let trade = Trade { trader: trader.clone(), outcome: Outcome::Yes, quantity: 1000, price: 500, timestamp: 1000 };
    let _ = trade.trader;
    let _ = trade.outcome;
    let _ = trade.quantity;
    let _ = trade.price;
    let _ = trade.timestamp;
    assert_eq!(trade.outcome, Outcome::Yes);
}
