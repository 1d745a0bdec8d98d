//! Pricing and trading core of a binary-outcome prediction market: integer
//! fixed-point helpers, a two-reserve liquidity pool, a constant-product
//! pricing curve with fees, a bounded ledger of recent trades, and the
//! market maker that ties them together.
use vstd::prelude::*;

pub mod math;
pub mod pool;
pub mod curve;
pub mod ledger;
pub mod amm;
pub mod events;

verus! {

} // verus!
