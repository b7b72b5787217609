//! End-to-end scenarios through the engine facade. All monetary values are
//! in fixed-point units at two decimal places: 98.50 is written 9_850, and
//! a quantity of 100 is written 10_000.

use trading_engine::engine::{EngineEvent, TradingEngine};
use trading_engine::types::{
    Order, OrderSide, OrderStatus, OrderType, RiskLimits, TimeInForce, TradingError,
};

fn mk_order(
    symbol: &str,
    side: OrderSide,
    order_type: OrderType,
    quantity: i64,
    price: Option<i64>,
    account_id: u128,
) -> Order {
    Order {
        id: 0,
        client_order_id: "TEST001".to_string(),
        symbol: symbol.to_string(),
        side,
        order_type,
        quantity,
        price,
        filled_quantity: 0,
        remaining_quantity: 0,
        status: OrderStatus::Pending,
        timestamp: 0,
        user_id: 7,
        account_id,
        time_in_force: TimeInForce::GoodTillCancel,
    }
}

fn buy(symbol: &str, quantity: i64, price: i64, account: u128) -> Order {
    mk_order(symbol, OrderSide::Buy, OrderType::Limit, quantity, Some(price), account)
}

fn sell(symbol: &str, quantity: i64, price: i64, account: u128) -> Order {
    mk_order(symbol, OrderSide::Sell, OrderType::Limit, quantity, Some(price), account)
}

#[test]
fn test_submit_order() {
    let mut engine = TradingEngine::new();
    // A 1,000,000 @ 98.50 order is worth more than the default order-value
    // limit allows, so this account registers wider limits first.
    engine
        .risk_manager
        .set_risk_limits(RiskLimits {
            account_id: 1,
            max_position_size: 1_000_000_000_000,
            max_order_value: 1_000_000_000_000_000,
            max_daily_loss: 1_000_000_000,
            concentration_limit: 2_500,
            var_limit: 1_000_000_000,
        })
        .unwrap();
    let order = buy("GSEC10Y", 100_000_000, 9_850, 1);
    let result = engine.submit_order(order);
    assert!(result.is_ok());
    let id = result.unwrap();
    let stored = engine.get_order(id).unwrap();
    assert_eq!(stored.id, id);
    assert_eq!(stored.symbol, "GSEC10Y".to_string());
    assert_eq!(stored.quantity, 100_000_000);
    assert_eq!(stored.price, Some(9_850));
    assert_eq!(stored.status, OrderStatus::Pending);
    assert_eq!(stored.remaining_quantity, 100_000_000);
}

#[test]
fn test_simple_cross() {
    let mut engine = TradingEngine::new();
    let s1 = engine.submit_order(sell("GSEC10Y", 10_000, 9_850, 1)).unwrap();
    let b1 = engine.submit_order(buy("GSEC10Y", 10_000, 9_850, 2)).unwrap();
    let trades = engine.get_trades();
    assert_eq!(trades.len(), 1);
    assert_eq!(trades[0].quantity, 10_000);
    assert_eq!(trades[0].price, 9_850);
    assert_eq!(trades[0].buyer_order_id, b1);
    assert_eq!(trades[0].seller_order_id, s1);
    assert_eq!(engine.get_order(s1).unwrap().status, OrderStatus::Filled);
    assert_eq!(engine.get_order(b1).unwrap().status, OrderStatus::Filled);
    let book = engine.get_orderbook(&"GSEC10Y".to_string()).unwrap();
    assert!(book.bids.is_empty());
    assert!(book.asks.is_empty());
}

#[test]
fn test_price_time_priority() {
    let mut engine = TradingEngine::new();
    let s1 = engine.submit_order(sell("GSEC10Y", 5_000, 9_850, 1)).unwrap();
    let s2 = engine.submit_order(sell("GSEC10Y", 5_000, 9_850, 2)).unwrap();
    let _b = engine.submit_order(buy("GSEC10Y", 7_500, 9_850, 3)).unwrap();
    let trades = engine.get_trades();
    assert_eq!(trades.len(), 2);
    assert_eq!(trades[0].seller_order_id, s1);
    assert_eq!(trades[0].quantity, 5_000);
    assert_eq!(trades[0].price, 9_850);
    assert_eq!(trades[1].seller_order_id, s2);
    assert_eq!(trades[1].quantity, 2_500);
    assert_eq!(trades[1].price, 9_850);
    assert_eq!(engine.get_order(s1).unwrap().status, OrderStatus::Filled);
    let o2 = engine.get_order(s2).unwrap();
    assert_eq!(o2.status, OrderStatus::PartiallyFilled);
    assert_eq!(o2.remaining_quantity, 2_500);
    let book = engine.get_orderbook(&"GSEC10Y".to_string()).unwrap();
    assert_eq!(book.asks.len(), 1);
    assert_eq!(book.asks[0].price, 9_850);
    assert_eq!(book.asks[0].quantity, 2_500);
    assert_eq!(book.asks[0].order_count, 1);
}

#[test]
fn test_price_improvement() {
    let mut engine = TradingEngine::new();
    let _s1 = engine.submit_order(sell("GSEC10Y", 10_000, 9_840, 1)).unwrap();
    let _b1 = engine.submit_order(buy("GSEC10Y", 10_000, 9_860, 2)).unwrap();
    let trades = engine.get_trades();
    assert_eq!(trades.len(), 1);
    assert_eq!(trades[0].price, 9_840);
}

#[test]
fn test_market_order_partial_fill() {
    let mut engine = TradingEngine::new();
    let _s1 = engine.submit_order(sell("GSEC10Y", 3_000, 9_900, 1)).unwrap();
    let m = mk_order("GSEC10Y", OrderSide::Buy, OrderType::Market, 10_000, None, 2);
    let b1 = engine.submit_order(m).unwrap();
    let trades = engine.get_trades();
    assert_eq!(trades.len(), 1);
    assert_eq!(trades[0].quantity, 3_000);
    assert_eq!(trades[0].price, 9_900);
    let o = engine.get_order(b1).unwrap();
    assert_eq!(o.filled_quantity, 3_000);
    assert_eq!(o.remaining_quantity, 7_000);
    assert_eq!(o.status, OrderStatus::Cancelled);
    let book = engine.get_orderbook(&"GSEC10Y".to_string()).unwrap();
    assert!(book.bids.is_empty());
    assert!(book.asks.is_empty());
}

#[test]
fn test_walk_multiple_levels() {
    let mut engine = TradingEngine::new();
    let _s1 = engine.submit_order(sell("GSEC10Y", 1_000, 9_900, 1)).unwrap();
    let _s2 = engine.submit_order(sell("GSEC10Y", 1_000, 9_910, 1)).unwrap();
    let _s3 = engine.submit_order(sell("GSEC10Y", 1_000, 9_920, 1)).unwrap();
    let b1 = engine.submit_order(buy("GSEC10Y", 2_500, 9_915, 2)).unwrap();
    let trades = engine.get_trades();
    assert_eq!(trades.len(), 2);
    assert_eq!(trades[0].quantity, 1_000);
    assert_eq!(trades[0].price, 9_900);
    assert_eq!(trades[1].quantity, 1_000);
    assert_eq!(trades[1].price, 9_910);
    let o = engine.get_order(b1).unwrap();
    assert_eq!(o.remaining_quantity, 500);
    assert_eq!(o.status, OrderStatus::PartiallyFilled);
    let book = engine.get_orderbook(&"GSEC10Y".to_string()).unwrap();
    assert_eq!(book.bids.len(), 1);
    assert_eq!(book.bids[0].price, 9_915);
    assert_eq!(book.bids[0].quantity, 500);
    assert_eq!(book.asks.len(), 1);
    assert_eq!(book.asks[0].price, 9_920);
}

#[test]
fn test_cancel_resting_partial() {
    let mut engine = TradingEngine::new();
    let s1 = engine.submit_order(sell("GSEC10Y", 10_000, 9_850, 1)).unwrap();
    let _b1 = engine.submit_order(buy("GSEC10Y", 4_000, 9_850, 2)).unwrap();
    let o = engine.get_order(s1).unwrap();
    assert_eq!(o.status, OrderStatus::PartiallyFilled);
    assert_eq!(o.remaining_quantity, 6_000);
    let cancelled = engine.cancel_order(s1).unwrap();
    assert!(cancelled);
    let o = engine.get_order(s1).unwrap();
    assert_eq!(o.status, OrderStatus::Cancelled);
    assert_eq!(o.filled_quantity, 4_000);
    let book = engine.get_orderbook(&"GSEC10Y".to_string()).unwrap();
    assert!(book.asks.is_empty());
    let b2 = engine.submit_order(buy("GSEC10Y", 1_000, 9_850, 3)).unwrap();
    assert_eq!(engine.get_trades().len(), 1);
    assert_eq!(engine.get_order(b2).unwrap().status, OrderStatus::Pending);
    let book = engine.get_orderbook(&"GSEC10Y".to_string()).unwrap();
    assert_eq!(book.bids.len(), 1);
}

#[test]
fn test_zero_quantity_rejected() {
    let mut engine = TradingEngine::new();
    let r = engine.submit_order(buy("GSEC10Y", 0, 9_850, 1));
    assert!(matches!(r, Err(TradingError::InvalidOrder(_))));
}

#[test]
fn test_negative_quantity_rejected() {
    let mut engine = TradingEngine::new();
    let r = engine.submit_order(buy("GSEC10Y", -500, 9_850, 1));
    assert!(matches!(r, Err(TradingError::InvalidOrder(_))));
}

#[test]
fn test_limit_without_price_rejected() {
    let mut engine = TradingEngine::new();
    let o = mk_order("GSEC10Y", OrderSide::Buy, OrderType::Limit, 1_000, None, 1);
    let r = engine.submit_order(o);
    assert!(matches!(r, Err(TradingError::InvalidOrder(_))));
}

#[test]
fn test_market_with_price_rejected() {
    let mut engine = TradingEngine::new();
    let o = mk_order("GSEC10Y", OrderSide::Buy, OrderType::Market, 1_000, Some(9_850), 1);
    let r = engine.submit_order(o);
    assert!(matches!(r, Err(TradingError::InvalidOrder(_))));
}

#[test]
fn test_empty_symbol_rejected() {
    let mut engine = TradingEngine::new();
    let r = engine.submit_order(buy("", 1_000, 9_850, 1));
    assert!(matches!(r, Err(TradingError::InvalidOrder(_))));
}

#[test]
fn test_cancel_unknown_id() {
    let mut engine = TradingEngine::new();
    let r = engine.cancel_order(42);
    assert_eq!(r.unwrap(), false);
}

#[test]
fn test_submit_then_cancel_restores_book() {
    let mut engine = TradingEngine::new();
    let _s0 = engine.submit_order(sell("GSEC10Y", 2_000, 9_900, 1)).unwrap();
    let before = engine.get_orderbook(&"GSEC10Y".to_string()).unwrap();
    let b1 = engine.submit_order(buy("GSEC10Y", 1_000, 9_800, 2)).unwrap();
    let ok = engine.cancel_order(b1).unwrap();
    assert!(ok);
    let after = engine.get_orderbook(&"GSEC10Y".to_string()).unwrap();
    assert_eq!(before.bids, after.bids);
    assert_eq!(before.asks, after.asks);
    assert!(engine.get_trades().is_empty());
}

#[test]
fn test_resting_count_after_quiet_flow() {
    let mut engine = TradingEngine::new();
    let a = engine.submit_order(buy("GSEC10Y", 1_000, 9_700, 1)).unwrap();
    let _b = engine.submit_order(buy("GSEC10Y", 1_000, 9_600, 1)).unwrap();
    let _c = engine.submit_order(sell("GSEC10Y", 1_000, 9_900, 2)).unwrap();
    assert!(engine.cancel_order(a).unwrap());
    let book = engine.get_orderbook(&"GSEC10Y".to_string()).unwrap();
    let resting: usize =
        book.bids.iter().map(|l| l.order_count).sum::<usize>()
            + book.asks.iter().map(|l| l.order_count).sum::<usize>();
    assert_eq!(resting, 2);
    assert!(engine.get_trades().is_empty());
}

#[test]
fn test_best_bid_ask_never_crossed() {
    let mut engine = TradingEngine::new();
    let _ = engine.submit_order(buy("GSEC10Y", 1_000, 9_800, 1)).unwrap();
    let _ = engine.submit_order(sell("GSEC10Y", 1_000, 9_900, 2)).unwrap();
    let _ = engine.submit_order(buy("GSEC10Y", 500, 9_850, 1)).unwrap();
    let _ = engine.submit_order(sell("GSEC10Y", 500, 9_870, 2)).unwrap();
    let sym = "GSEC10Y".to_string();
    let bid = engine.matching_engine.get_best_bid(&sym).unwrap();
    let ask = engine.matching_engine.get_best_ask(&sym).unwrap();
    assert!(bid < ask);
    assert_eq!(bid, 9_850);
    assert_eq!(ask, 9_870);
}

#[test]
fn test_fills_account_exactly() {
    let mut engine = TradingEngine::new();
    let s1 = engine.submit_order(sell("GSEC10Y", 5_000, 9_850, 1)).unwrap();
    let _ = engine.submit_order(buy("GSEC10Y", 2_000, 9_850, 2)).unwrap();
    let _ = engine.submit_order(buy("GSEC10Y", 3_000, 9_850, 3)).unwrap();
    let o = engine.get_order(s1).unwrap();
    let total: i64 = engine
        .get_trades()
        .iter()
        .filter(|t| t.seller_order_id == s1)
        .map(|t| t.quantity)
        .sum();
    assert_eq!(total, o.filled_quantity);
    assert_eq!(o.filled_quantity, o.quantity);
    assert_eq!(o.status, OrderStatus::Filled);
}

#[test]
fn test_events_for_one_match() {
    let mut engine = TradingEngine::new();
    let s1 = engine.submit_order(sell("GSEC10Y", 1_000, 9_850, 1)).unwrap();
    let b1 = engine.submit_order(buy("GSEC10Y", 1_000, 9_850, 2)).unwrap();
    let events = engine.subscribe_events();
    // submitted(s1), traded, filled(aggressor), filled(resting), submitted(b1)
    assert_eq!(events.len(), 5);
    assert!(matches!(&events[0], EngineEvent::OrderSubmitted(o) if o.id == s1));
    assert!(matches!(&events[1], EngineEvent::TradeExecuted(t) if t.quantity == 1_000));
    assert!(matches!(&events[2], EngineEvent::OrderFilled { order_id, .. } if *order_id == b1));
    assert!(matches!(&events[3], EngineEvent::OrderFilled { order_id, .. } if *order_id == s1));
    assert!(matches!(&events[4], EngineEvent::OrderSubmitted(o) if o.id == b1));
}

#[test]
fn test_metrics_count_operations() {
    let mut engine = TradingEngine::new();
    let a = engine.submit_order(sell("GSEC10Y", 1_000, 9_850, 1)).unwrap();
    let _ = engine.submit_order(buy("GSEC10Y", 500, 9_850, 2)).unwrap();
    let _ = engine.cancel_order(a).unwrap();
    let m = engine.get_metrics();
    assert_eq!(m.orders_submitted, 2);
    assert_eq!(m.trades_executed, 1);
    assert_eq!(m.orders_cancelled, 1);
}
