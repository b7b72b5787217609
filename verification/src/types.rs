//! Core data model: orders, trades, positions, risk limits and errors.
//!
//! Prices and quantities are exact fixed-point values: an `i64` number of
//! units at a scale the application chooses (`UNIT_SCALE` units per whole
//! number is the convention used by the bundled front end and the tests).
//! Position quantities and monetary aggregates use `i128` so that products
//! of in-range prices and quantities always fit.

use vstd::prelude::*;

verus! {

/// Units per whole number in the fixed-point representation used by the
/// bundled front end and the tests (two decimal places).
pub const UNIT_SCALE: i64 = 100;

/// Largest accepted order quantity or price, in units. Keeping both factors
/// within this bound keeps every product used by the engine within `i128`.
pub const MAX_UNITS: i64 = 1_000_000_000_000;

/// Largest position quantity the ledger will hold, in units.
pub const MAX_POSITION_UNITS: i128 = 1_000_000_000_000_000_000;

/// Largest realized-P&L magnitude the ledger will accumulate, in units.
pub const MAX_PNL_UNITS: i128 = 1_000_000_000_000_000_000_000_000_000_000_000;

/// A quantity is in range: strictly positive and within the engine's bound.
pub open spec fn qty_in_range(q: i64) -> bool {
    0 < q <= MAX_UNITS
}

/// A price is in range: strictly positive and within the engine's bound.
pub open spec fn price_in_range(p: i64) -> bool {
    0 < p <= MAX_UNITS
}

#[derive(Clone, Copy, Debug, PartialEq, Eq, Structural)]
pub enum OrderSide {
    Buy,
    Sell,
}

#[derive(Clone, Copy, Debug, PartialEq, Eq, Structural)]
pub enum OrderType {
    Market,
    Limit,
    Stop,
    StopLimit,
    IcebergLimit { display_quantity: i64 },
    FillOrKill,
    ImmediateOrCancel,
    GoodTillDate { expiry: i64 },
    PostOnly,
}

#[derive(Clone, Copy, Debug, PartialEq, Eq, Structural)]
pub enum OrderStatus {
    Pending,
    PartiallyFilled,
    Filled,
    Cancelled,
    Rejected,
    Expired,
}

#[derive(Clone, Copy, Debug, PartialEq, Eq, Structural)]
pub enum TimeInForce {
    GoodTillCancel,
    ImmediateOrCancel,
    FillOrKill,
    GoodTillDate(i64),
    GoodForDay,
}

#[derive(Clone, Copy, Debug, PartialEq, Eq, Structural)]
pub enum TradeType {
    Regular,
    Block,
    Repo,
    ReverseRepo,
}

#[derive(Clone, Copy, Debug, PartialEq, Eq, Structural)]
pub enum BondType {
    GovernmentSecurity,
    TreasuryBill,
    CorporateBond,
    StateGovernmentBond,
    MunicipalBond,
    CertificateOfDeposit,
    CommercialPaper,
}

/// An order: immutable identity plus mutable execution state.
///
/// `id`, `user_id` and `account_id` are engine-assigned 128-bit identifiers;
/// `timestamp` is the server-assigned ingest time in milliseconds.
#[derive(Clone, Debug)]
pub struct Order {
    pub id: u128,
    pub client_order_id: String,
    pub symbol: String,
    pub side: OrderSide,
    pub order_type: OrderType,
    pub quantity: i64,
    pub price: Option<i64>,
    pub filled_quantity: i64,
    pub remaining_quantity: i64,
    pub status: OrderStatus,
    pub timestamp: i64,
    pub user_id: u128,
    pub account_id: u128,
    pub time_in_force: TimeInForce,
}

/// Mathematical value of an [`Order`]: strings become character sequences
/// and machine integers become unbounded integers.
#[verifier::ext_equal]
pub struct OrderV {
    pub id: int,
    pub client_order_id: Seq<char>,
    pub symbol: Seq<char>,
    pub side: OrderSide,
    pub order_type: OrderType,
    pub quantity: int,
    pub price: Option<int>,
    pub filled_quantity: int,
    pub remaining_quantity: int,
    pub status: OrderStatus,
    pub timestamp: int,
    pub user_id: int,
    pub account_id: int,
    pub time_in_force: TimeInForce,
}

impl View for Order {
    type V = OrderV;

    open spec fn view(&self) -> OrderV {
        OrderV {
            id: self.id as int,
            client_order_id: self.client_order_id@,
            symbol: self.symbol@,
            side: self.side,
            order_type: self.order_type,
            quantity: self.quantity as int,
            price: match self.price {
                Some(p) => Some(p as int),
                None => None,
            },
            filled_quantity: self.filled_quantity as int,
            remaining_quantity: self.remaining_quantity as int,
            status: self.status,
            timestamp: self.timestamp as int,
            user_id: self.user_id as int,
            account_id: self.account_id as int,
            time_in_force: self.time_in_force,
        }
    }
}

impl OrderV {
    /// Execution-state accounting: the two mutable quantities always split
    /// the original quantity exactly, and neither is negative.
    pub open spec fn accounting_ok(self) -> bool {
        &&& 0 < self.quantity <= MAX_UNITS
        &&& 0 <= self.filled_quantity
        &&& 0 <= self.remaining_quantity
        &&& self.filled_quantity + self.remaining_quantity == self.quantity
    }

    /// The price is absent or strictly positive and in range.
    pub open spec fn price_ok(self) -> bool {
        match self.price {
            Some(p) => 0 < p <= MAX_UNITS,
            None => true,
        }
    }

    /// Shape of a validated order as it enters matching: nothing filled yet,
    /// status `Pending`, and a strictly positive in-range price when present.
    pub open spec fn fresh_for_matching(self) -> bool {
        &&& self.accounting_ok()
        &&& self.filled_quantity == 0
        &&& self.remaining_quantity == self.quantity
        &&& self.status == OrderStatus::Pending
        &&& self.price_ok()
    }
}

/// An executed fill between one buy and one sell order.
#[derive(Clone, Debug)]
pub struct Trade {
    pub id: u128,
    pub symbol: String,
    pub buyer_order_id: u128,
    pub seller_order_id: u128,
    pub quantity: i64,
    pub price: i64,
    pub timestamp: i64,
    pub trade_type: TradeType,
}

/// Mathematical value of a [`Trade`].
#[verifier::ext_equal]
pub struct TradeV {
    pub id: int,
    pub symbol: Seq<char>,
    pub buyer_order_id: int,
    pub seller_order_id: int,
    pub quantity: int,
    pub price: int,
    pub timestamp: int,
    pub trade_type: TradeType,
}

impl View for Trade {
    type V = TradeV;

    open spec fn view(&self) -> TradeV {
        TradeV {
            id: self.id as int,
            symbol: self.symbol@,
            buyer_order_id: self.buyer_order_id as int,
            seller_order_id: self.seller_order_id as int,
            quantity: self.quantity as int,
            price: self.price as int,
            timestamp: self.timestamp as int,
            trade_type: self.trade_type,
        }
    }
}

impl TradeV {
    /// Well-formed trade: positive in-range quantity and price, and two
    /// distinct orders on its two sides.
    pub open spec fn wf(self) -> bool {
        &&& 0 < self.quantity <= MAX_UNITS
        &&& 0 < self.price <= MAX_UNITS
        &&& self.buyer_order_id != self.seller_order_id
    }
}

/// Per-(account, symbol) holdings and profit-and-loss.
#[derive(Clone, Debug)]
pub struct Position {
    pub symbol: String,
    pub account_id: u128,
    pub quantity: i128,
    pub average_price: i128,
    pub market_value: i128,
    pub unrealized_pnl: i128,
    pub realized_pnl: i128,
    pub last_updated: i64,
}

/// Mathematical value of a [`Position`].
#[verifier::ext_equal]
pub struct PositionV {
    pub symbol: Seq<char>,
    pub account_id: int,
    pub quantity: int,
    pub average_price: int,
    pub market_value: int,
    pub unrealized_pnl: int,
    pub realized_pnl: int,
    pub last_updated: int,
}

impl View for Position {
    type V = PositionV;

    open spec fn view(&self) -> PositionV {
        PositionV {
            symbol: self.symbol@,
            account_id: self.account_id as int,
            quantity: self.quantity as int,
            average_price: self.average_price as int,
            market_value: self.market_value as int,
            unrealized_pnl: self.unrealized_pnl as int,
            realized_pnl: self.realized_pnl as int,
            last_updated: self.last_updated as int,
        }
    }
}

/// One aggregated price level of an order-book snapshot.
#[derive(Clone, Copy, Debug, PartialEq, Eq, Structural)]
pub struct PriceLevel {
    pub price: i64,
    pub quantity: i128,
    pub order_count: usize,
}

/// An aggregated order-book snapshot: bids best (highest) first, asks best
/// (lowest) first.
#[derive(Clone, Debug)]
pub struct OrderBook {
    pub symbol: String,
    pub bids: Vec<PriceLevel>,
    pub asks: Vec<PriceLevel>,
    pub last_update: i64,
}

/// Static description of a tradable fixed-income instrument.
#[derive(Clone, Debug)]
pub struct Bond {
    pub isin: String,
    pub symbol: String,
    pub issuer: String,
    pub maturity_date: i64,
    pub coupon_rate: i64,
    pub face_value: i64,
    pub bond_type: BondType,
    pub rating: Option<String>,
    pub is_active: bool,
}

/// A market-data observation for one symbol.
#[derive(Clone, Debug)]
pub struct MarketData {
    pub symbol: String,
    pub bid_price: Option<i64>,
    pub ask_price: Option<i64>,
    pub last_price: Option<i64>,
    pub volume: i64,
    pub timestamp: i64,
    pub yield_to_maturity: Option<i64>,
    pub duration: Option<i64>,
    pub accrued_interest: Option<i64>,
}

/// Per-account pre-trade limits. `concentration_limit` is a fraction scaled
/// by `UNIT_SCALE * UNIT_SCALE` (so 2_500 stands for 0.25).
#[derive(Clone, Copy, Debug, PartialEq, Eq, Structural)]
pub struct RiskLimits {
    pub account_id: u128,
    pub max_position_size: i64,
    pub max_order_value: i128,
    pub max_daily_loss: i64,
    pub concentration_limit: i64,
    pub var_limit: i64,
}

/// The wire-visible failure taxonomy. Every rejection is deterministic; the
/// `String` payloads carry human-readable detail only.
#[derive(Clone, Debug)]
pub enum TradingError {
    OrderNotFound(String),
    InsufficientBalance { required: i128, available: i128 },
    RiskLimitExceeded(String),
    InvalidOrder(String),
    MarketClosed,
    DatabaseError(String),
    RedisError(String),
    InternalError(String),
}

} // verus!
