//! Component-level tests: the position ledger's update rule, the risk
//! gate's limits and defaults, and the snapshot store.

use trading_engine::engine::TradingEngine;
use trading_engine::order_book::OrderBookManager;
use trading_engine::position_manager::PositionManager;
use trading_engine::risk_manager::RiskManager;
use trading_engine::types::{
    Order, OrderSide, OrderStatus, OrderType, PriceLevel, RiskLimits, TimeInForce, Trade,
    TradeType, TradingError,
};

fn trade(symbol: &str, buyer: u128, seller: u128, quantity: i64, price: i64) -> Trade {
    Trade {
        id: 1,
        symbol: symbol.to_string(),
        buyer_order_id: buyer,
        seller_order_id: seller,
        quantity,
        price,
        timestamp: 5,
        trade_type: TradeType::Regular,
    }
}

#[test]
fn test_position_open_and_average() {
    let mut pm = PositionManager::new();
    // Buyer account 1 opens long 100 @ 100.00; seller 2 goes short.
    pm.update_position(&trade("BOND1", 0, 0, 10_000, 10_000), 1, 2).unwrap();
    let p1 = pm.get_position(1, &"BOND1".to_string()).unwrap();
    assert_eq!(p1.quantity, 10_000);
    assert_eq!(p1.average_price, 10_000);
    assert_eq!(p1.market_value, 100_000_000);
    assert_eq!(p1.unrealized_pnl, 0);
    let p2 = pm.get_position(2, &"BOND1".to_string()).unwrap();
    assert_eq!(p2.quantity, -10_000);
    // Buyer 1 extends: 100 more @ 200.00 -> weighted average 150.00.
    pm.update_position(&trade("BOND1", 0, 0, 10_000, 20_000), 1, 3).unwrap();
    let p1 = pm.get_position(1, &"BOND1".to_string()).unwrap();
    assert_eq!(p1.quantity, 20_000);
    assert_eq!(p1.average_price, 15_000);
}

#[test]
fn test_position_close_realizes_pnl() {
    let mut pm = PositionManager::new();
    pm.update_position(&trade("BOND1", 0, 0, 10_000, 10_000), 1, 2).unwrap();
    // Account 1 sells the whole position at 110.00: profit 10.00 * 100.
    pm.update_position(&trade("BOND1", 0, 0, 10_000, 11_000), 3, 1).unwrap();
    let p1 = pm.get_position(1, &"BOND1".to_string()).unwrap();
    assert_eq!(p1.quantity, 0);
    assert_eq!(p1.average_price, 0);
    assert_eq!(p1.realized_pnl, 10_000_000);
}

#[test]
fn test_position_flip_reseeds_cost_basis() {
    let mut pm = PositionManager::new();
    pm.update_position(&trade("BOND1", 0, 0, 10_000, 10_000), 1, 2).unwrap();
    // Account 1 sells 250 @ 120.00: closes the 100 long (+20.00 each),
    // leaves a short of 150 with cost basis re-seeded at 120.00.
    pm.update_position(&trade("BOND1", 0, 0, 25_000, 12_000), 3, 1).unwrap();
    let p1 = pm.get_position(1, &"BOND1".to_string()).unwrap();
    assert_eq!(p1.quantity, -15_000);
    assert_eq!(p1.average_price, 12_000);
    assert_eq!(p1.realized_pnl, 20_000_000);
}

#[test]
fn test_portfolio_value_and_pnl_sums() {
    let mut pm = PositionManager::new();
    pm.update_position(&trade("BOND1", 0, 0, 10_000, 10_000), 1, 2).unwrap();
    pm.update_position(&trade("BOND2", 0, 0, 5_000, 20_000), 1, 2).unwrap();
    let v = pm.calculate_portfolio_value(1).unwrap();
    assert_eq!(v, 100_000_000 + 100_000_000);
    let (unrealized, realized) = pm.calculate_total_pnl(1).unwrap();
    assert_eq!(unrealized, 0);
    assert_eq!(realized, 0);
    assert_eq!(pm.get_positions(Some(1)).len(), 2);
    assert_eq!(pm.get_positions(None).len(), 4);
}

#[test]
fn test_risk_gate_order_value() {
    let mut engine = TradingEngine::new();
    let limits = RiskLimits {
        account_id: 9,
        max_position_size: 1_000_000,
        max_order_value: 1_000_000,
        max_daily_loss: 1_000_000,
        concentration_limit: 2_500,
        var_limit: 1_000_000,
    };
    engine.risk_manager.set_risk_limits(limits).unwrap();
    // 200 units at 98.50 -> value 1_970_000 exceeds 1_000_000.
    let o = Order {
        id: 0,
        client_order_id: "RISK1".to_string(),
        symbol: "GSEC10Y".to_string(),
        side: OrderSide::Buy,
        order_type: OrderType::Limit,
        quantity: 200,
        price: Some(9_850),
        filled_quantity: 0,
        remaining_quantity: 0,
        status: OrderStatus::Pending,
        timestamp: 0,
        user_id: 1,
        account_id: 9,
        time_in_force: TimeInForce::GoodTillCancel,
    };
    let r = engine.submit_order(o);
    assert!(matches!(r, Err(TradingError::RiskLimitExceeded(_))));
    assert!(engine.get_orders().is_empty());
}

#[test]
fn test_risk_gate_position_size() {
    let rm = RiskManager::new();
    let o = Order {
        id: 0,
        client_order_id: "RISK2".to_string(),
        symbol: "GSEC10Y".to_string(),
        side: OrderSide::Buy,
        order_type: OrderType::Market,
        quantity: 10_000_000_001,
        price: None,
        filled_quantity: 0,
        remaining_quantity: 0,
        status: OrderStatus::Pending,
        timestamp: 0,
        user_id: 1,
        account_id: 4,
        time_in_force: TimeInForce::GoodTillCancel,
    };
    // Default max position size is 10_000_000_000 units (100M whole).
    assert!(matches!(rm.check_order(&o), Err(TradingError::RiskLimitExceeded(_))));
    assert_eq!(rm.calculate_var(4).unwrap(), 100_000_000);
    assert!(rm.check_market_hours().is_ok());
}

#[test]
fn test_snapshot_store() {
    let mut obm = OrderBookManager::new();
    let bids = vec![
        PriceLevel { price: 9_800, quantity: 500, order_count: 2 },
        PriceLevel { price: 9_700, quantity: 300, order_count: 1 },
    ];
    let asks = vec![PriceLevel { price: 9_900, quantity: 400, order_count: 1 }];
    obm.update_orderbook("GSEC10Y".to_string(), bids, asks, 77);
    let sym = "GSEC10Y".to_string();
    assert_eq!(obm.get_best_bid(&sym), Some(9_800));
    assert_eq!(obm.get_best_ask(&sym), Some(9_900));
    assert_eq!(obm.get_spread(&sym), Some(100));
    let (db, da) = obm.get_market_depth(&sym, 1).unwrap();
    assert_eq!(db.len(), 1);
    assert_eq!(db[0].price, 9_800);
    assert_eq!(da.len(), 1);
    let b = obm.get_orderbook(&sym).unwrap();
    assert_eq!(b.last_update, 77);
    assert_eq!(b.bids.len(), 2);
    assert!(obm.get_orderbook(&"OTHER".to_string()).is_none());
}

#[test]
fn test_positions_update_through_engine() {
    let mut engine = TradingEngine::new();
    let _s = engine.submit_order(Order {
        id: 0,
        client_order_id: "A".to_string(),
        symbol: "GSEC10Y".to_string(),
        side: OrderSide::Sell,
        order_type: OrderType::Limit,
        quantity: 1_000,
        price: Some(9_850),
        filled_quantity: 0,
        remaining_quantity: 0,
        status: OrderStatus::Pending,
        timestamp: 0,
        user_id: 1,
        account_id: 11,
        time_in_force: TimeInForce::GoodTillCancel,
    }).unwrap();
    let _b = engine.submit_order(Order {
        id: 0,
        client_order_id: "B".to_string(),
        symbol: "GSEC10Y".to_string(),
        side: OrderSide::Buy,
        order_type: OrderType::Limit,
        quantity: 1_000,
        price: Some(9_850),
        filled_quantity: 0,
        remaining_quantity: 0,
        status: OrderStatus::Pending,
        timestamp: 0,
        user_id: 2,
        account_id: 22,
        time_in_force: TimeInForce::GoodTillCancel,
    }).unwrap();
    let buyer_positions = engine.get_positions(Some(22));
    assert_eq!(buyer_positions.len(), 1);
    assert_eq!(buyer_positions[0].quantity, 1_000);
    assert_eq!(buyer_positions[0].average_price, 9_850);
    let seller_positions = engine.get_positions(Some(11));
    assert_eq!(seller_positions.len(), 1);
    assert_eq!(seller_positions[0].quantity, -1_000);
}
