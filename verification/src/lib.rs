//! A continuous double-auction matching engine for fixed-income instruments.
//!
//! Orders for named symbols are matched against a central limit order book
//! under price-time priority; the engine emits the resulting trades and keeps
//! per-account positions and pre-trade risk limits. All monetary values are
//! exact fixed-point integers (a number of price or quantity units); the
//! surrounding application chooses the unit scale.

pub mod engine;
pub mod matching;
pub mod order_book;
pub mod position_manager;
pub mod risk_manager;
pub mod types;
