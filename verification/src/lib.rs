//! Constant-product exchange pools: the pricing rule, liquidity shares and
//! multi-hop routing, with every reserve update computed through a 256-bit
//! intermediate and proved against its arithmetic meaning.

pub mod account;
pub mod ledger;
pub mod multipool;
pub mod pricing;
pub mod single_pool;
pub mod wide;
