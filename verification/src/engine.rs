//! The engine facade: owns the order registry, the matching engine, the
//! position ledger, the risk gate, the published snapshots, the recent-trade
//! ring and the event backlog, and drives one submission through
//! `validate -> risk check -> match -> position update -> event emit`.

use std::collections::VecDeque;
use vstd::prelude::*;

use crate::matching::{
    book_pos, copy_order, find_book_from, insert_pos, lemma_process_trade_ranges, process_spec, queue_pos,
    row_pos, rows_view, rows_without, side_after_removal, side_view, some_price, BookEntry,
    IndexEntryV, LevelV, MatchingEngine, PriceLevelQueue, SymbolBookV,
};
use crate::order_book::{snap_pos, snapshots_view, OrderBookManager, OrderBookV};
use crate::position_manager::{ledger_apply, ledger_step_fits, ledger_view, PositionManager};
use crate::risk_manager::{risk_ok, RiskManager};
use crate::types::{
    MAX_UNITS, Order, OrderBook, OrderSide, OrderStatus, OrderType, OrderV, Position, PositionV,
    PriceLevel, Trade, TradeV, TradingError,
};

verus! {

/// Capacity of the recent-trades ring; the oldest trade is evicted first.
pub const TRADE_BUFFER_CAP: usize = 100_000;

/// Capacity of the event backlog; slow consumers lose the oldest events.
pub const EVENT_BUFFER_CAP: usize = 10_000;

/// Everything the engine publishes.
#[derive(Clone, Debug)]
pub enum EngineEvent {
    OrderSubmitted(Order),
    OrderCancelled(u128),
    OrderFilled { order_id: u128, trade: Trade },
    TradeExecuted(Trade),
    PositionUpdated(Position),
    RiskViolation { account_id: u128, violation: String },
}

/// Mathematical value of an [`EngineEvent`].
#[verifier::ext_equal]
pub enum EngineEventV {
    OrderSubmitted(OrderV),
    OrderCancelled(int),
    OrderFilled { order_id: int, trade: TradeV },
    TradeExecuted(TradeV),
    PositionUpdated(PositionV),
    RiskViolation { account_id: int, violation: Seq<char> },
}

impl View for EngineEvent {
    type V = EngineEventV;

    open spec fn view(&self) -> EngineEventV {
        match self {
            EngineEvent::OrderSubmitted(o) => EngineEventV::OrderSubmitted(o@),
            EngineEvent::OrderCancelled(id) => EngineEventV::OrderCancelled(*id as int),
            EngineEvent::OrderFilled { order_id, trade } => EngineEventV::OrderFilled {
                order_id: *order_id as int,
                trade: trade@,
            },
            EngineEvent::TradeExecuted(t) => EngineEventV::TradeExecuted(t@),
            EngineEvent::PositionUpdated(p) => EngineEventV::PositionUpdated(p@),
            EngineEvent::RiskViolation { account_id, violation } => EngineEventV::RiskViolation {
                account_id: *account_id as int,
                violation: violation@,
            },
        }
    }
}

/// Operation counters.
#[derive(Clone, Copy, Debug, PartialEq, Eq, Structural)]
pub struct Metrics {
    pub orders_submitted: u64,
    pub orders_cancelled: u64,
    pub trades_executed: u64,
}

/// Saturating counter bump.
pub open spec fn sat_add(a: int, b: int) -> int {
    if a + b <= u64::MAX as int {
        a + b
    } else {
        u64::MAX as int
    }
}

/// A bounded ring after one more element: the oldest leaves when full.
pub open spec fn ring_push<T>(s: Seq<T>, x: T, cap: int) -> Seq<T> {
    if s.len() + 1 > cap {
        s.drop_first().push(x)
    } else {
        s.push(x)
    }
}

/// A bounded ring after a whole sequence arrives, oldest evicted first.
pub open spec fn ring_extend<T>(s: Seq<T>, xs: Seq<T>, cap: int) -> Seq<T>
    decreases xs.len(),
{
    if xs.len() == 0 {
        s
    } else {
        ring_extend(ring_push(s, xs[0], cap), xs.drop_first(), cap)
    }
}

/// The three events published for one trade, in order: the execution, the
/// aggressor's fill, the resting order's fill.
pub open spec fn events_of_trade(t: TradeV, aggressor_id: int, side: OrderSide) -> Seq<EngineEventV> {
    let resting = if side == OrderSide::Buy {
        t.seller_order_id
    } else {
        t.buyer_order_id
    };
    seq![
        EngineEventV::TradeExecuted(t),
        EngineEventV::OrderFilled { order_id: aggressor_id, trade: t },
        EngineEventV::OrderFilled { order_id: resting, trade: t },
    ]
}

/// The events of a whole trade list, in execution order.
pub open spec fn events_of_trades(ts: Seq<TradeV>, aggressor_id: int, side: OrderSide) -> Seq<
    EngineEventV,
>
    decreases ts.len(),
{
    if ts.len() == 0 {
        Seq::empty()
    } else {
        events_of_trade(ts[0], aggressor_id, side) + events_of_trades(
            ts.drop_first(),
            aggressor_id,
            side,
        )
    }
}

/// Mathematical value of the order registry.
pub open spec fn orders_view(os: Seq<Order>) -> Seq<OrderV> {
    os.map_values(|o: Order| o@)
}

/// Mathematical value of the trade ring.
pub open spec fn trades_view(ts: Seq<Trade>) -> Seq<TradeV> {
    ts.map_values(|t: Trade| t@)
}

/// Mathematical value of the event backlog.
pub open spec fn events_view(es: Seq<EngineEvent>) -> Seq<EngineEventV> {
    es.map_values(|e: EngineEvent| e@)
}

/// A registered order fully filled: terminal bookkeeping for a resting
/// order that matching removed.
pub open spec fn filled_out(o: OrderV) -> OrderV {
    OrderV {
        filled_quantity: o.quantity,
        remaining_quantity: 0,
        status: OrderStatus::Filled,
        ..o
    }
}

/// The registry after the removed (fully filled) resting orders are marked.
pub open spec fn mark_filled(os: Seq<OrderV>, ids: Seq<int>) -> Seq<OrderV>
    decreases ids.len(),
{
    if ids.len() == 0 {
        os
    } else {
        let os1 = if 0 <= ids[0] < os.len() {
            os.update(ids[0], filled_out(os[ids[0]]))
        } else {
            os
        };
        mark_filled(os1, ids.drop_first())
    }
}

/// The registry entry `base` with the execution state of `upd` copied in.
pub open spec fn exec_state_from(base: OrderV, upd: OrderV) -> OrderV {
    OrderV {
        filled_quantity: upd.filled_quantity,
        remaining_quantity: upd.remaining_quantity,
        status: upd.status,
        ..base
    }
}

/// The registry after the partially filled resting order, if any, is
/// brought up to date.
pub open spec fn mark_partial(os: Seq<OrderV>, partial: Option<OrderV>) -> Seq<OrderV> {
    match partial {
        Some(o) => if 0 <= o.id < os.len() {
            os.update(o.id, exec_state_from(os[o.id], o))
        } else {
            os
        },
        None => os,
    }
}

/// The account that placed order `id`, or zero for an unknown id.
pub open spec fn account_of(os: Seq<OrderV>, id: int) -> int {
    if 0 <= id < os.len() {
        os[id].account_id
    } else {
        0
    }
}

/// The ledger after a trade list is applied: for each trade, the buyer's
/// position gains its quantity and the seller's loses it, both at the trade
/// price; a side whose step leaves the ledger's bounds is skipped. The
/// second component is whether every side fit.
pub open spec fn ledger_after_trades(lv: Seq<PositionV>, ts: Seq<TradeV>, os: Seq<OrderV>) -> (
    Seq<PositionV>,
    bool,
)
    decreases ts.len(),
{
    if ts.len() == 0 {
        (lv, true)
    } else {
        let t = ts[0];
        let ba = account_of(os, t.buyer_order_id);
        let sa = account_of(os, t.seller_order_id);
        let f1 = ledger_step_fits(lv, ba, t.symbol, t.quantity, t.price);
        let lv1 = if f1 {
            ledger_apply(lv, ba, t.symbol, t.quantity, t.price, t.timestamp)
        } else {
            lv
        };
        let f2 = ledger_step_fits(lv1, sa, t.symbol, 0 - t.quantity, t.price);
        let lv2 = if f2 {
            ledger_apply(lv1, sa, t.symbol, 0 - t.quantity, t.price, t.timestamp)
        } else {
            lv1
        };
        let rest = ledger_after_trades(lv2, ts.drop_first(), os);
        (rest.0, f1 && f2 && rest.1)
    }
}

/// Aggregated resting quantity of one queue.
pub open spec fn depth_of_queue(q: Seq<crate::matching::BookEntryV>) -> int
    decreases q.len(),
{
    if q.len() == 0 {
        0
    } else {
        q[0].order.remaining_quantity + depth_of_queue(q.drop_first())
    }
}

/// Published form of one side: per level `(price, total quantity, order
/// count)`, in the side's stored (best first) order.
pub open spec fn side_depth(levels: Seq<LevelV>) -> Seq<PriceLevel> {
    levels.map_values(
        |l: LevelV|
            PriceLevel {
                price: l.price as i64,
                quantity: depth_of_queue(l.queue) as i128,
                order_count: l.queue.len() as usize,
            },
    )
}

/// The §-style validation of an order descriptor: positive in-range
/// quantity, positive in-range price when present, a non-empty symbol, a
/// price exactly when the type demands one.
pub open spec fn validate_ok(o: OrderV) -> bool {
    &&& 0 < o.quantity <= MAX_UNITS
    &&& (o.price matches Some(p) ==> 0 < p <= MAX_UNITS)
    &&& o.symbol.len() > 0
    &&& (o.order_type == OrderType::Limit ==> o.price is Some)
    &&& (o.order_type == OrderType::Market ==> o.price is None)
}

/// The order as the engine books it: a fresh id, the ingest timestamp, and
/// clean execution state.
pub open spec fn stamped_view(o: OrderV, id: int, ts: int) -> OrderV {
    OrderV {
        id: id,
        timestamp: ts,
        filled_quantity: 0,
        remaining_quantity: o.quantity,
        status: OrderStatus::Pending,
        ..o
    }
}

/// Relies on chrono's `Utc::now`: the current wall-clock time in
/// milliseconds since the epoch. Nothing is assumed about the value.
#[verifier::external_body]
fn now_millis() -> (r: i64) {
    chrono::Utc::now().timestamp_millis()
}

fn copy_trade(t: &Trade) -> (r: Trade)
    ensures
        r@ == t@,
{
    let r = Trade {
        id: t.id,
        symbol: t.symbol.clone(),
        buyer_order_id: t.buyer_order_id,
        seller_order_id: t.seller_order_id,
        quantity: t.quantity,
        price: t.price,
        timestamp: t.timestamp,
        trade_type: t.trade_type,
    };
    proof {
        assert(r@ =~= t@);
    }
    r
}

fn ring_push_trade(buf: &mut VecDeque<Trade>, t: Trade)
    ensures
        trades_view(final(buf)@) == ring_push(trades_view(old(buf)@), t@, TRADE_BUFFER_CAP as int),
{
    buf.push_back(t);
    if buf.len() > TRADE_BUFFER_CAP {
        buf.pop_front();
        proof {
            assert(trades_view(buf@) =~= trades_view(old(buf)@).drop_first().push(t@));
        }
    } else {
        proof {
            assert(trades_view(buf@) =~= trades_view(old(buf)@).push(t@));
        }
    }
}

fn ring_push_event(buf: &mut VecDeque<EngineEvent>, e: EngineEvent)
    ensures
        events_view(final(buf)@) == ring_push(events_view(old(buf)@), e@, EVENT_BUFFER_CAP as int),
{
    buf.push_back(e);
    if buf.len() > EVENT_BUFFER_CAP {
        buf.pop_front();
        proof {
            assert(events_view(buf@) =~= events_view(old(buf)@).drop_first().push(e@));
        }
    } else {
        proof {
            assert(events_view(buf@) =~= events_view(old(buf)@).push(e@));
        }
    }
}

proof fn lemma_ring_extend_concat<T>(s: Seq<T>, a: Seq<T>, b: Seq<T>, cap: int)
    ensures
        ring_extend(s, a + b, cap) == ring_extend(ring_extend(s, a, cap), b, cap),
    decreases a.len(),
{
    if a.len() == 0 {
        assert(a + b =~= b);
    } else {
        assert((a + b)[0] == a[0]);
        assert((a + b).drop_first() =~= a.drop_first() + b);
        lemma_ring_extend_concat(ring_push(s, a[0], cap), a.drop_first(), b, cap);
    }
}

fn mark_filled_from(orders: &mut Vec<Order>, removed: &Vec<u128>, k: usize)
    requires
        k <= removed@.len(),
    ensures
        orders_view(final(orders)@) == mark_filled(
            orders_view(old(orders)@),
            crate::matching::ids_view(removed@.skip(k as int)),
        ),
    decreases removed@.len() - k,
{
    let ghost os0 = orders_view(orders@);
    let ghost ids = crate::matching::ids_view(removed@.skip(k as int));
    if k == removed.len() {
        proof {
            assert(removed@.skip(k as int) =~= Seq::<u128>::empty());
            assert(crate::matching::ids_view(Seq::<u128>::empty()) =~= Seq::<int>::empty());
        }
        return ;
    }
    proof {
        assert(removed@.skip(k as int)[0] == removed@[k as int]);
        assert(removed@.skip(k as int).drop_first() =~= removed@.skip(k as int + 1));
        assert(crate::matching::ids_view(removed@.skip(k as int)).drop_first()
            =~= crate::matching::ids_view(removed@.skip(k as int + 1)));
    }
    let id = removed[k];
    if id < orders.len() as u128 {
        let i = id as usize;
        let base = &orders[i];
        let upd = Order {
            id: base.id,
            client_order_id: base.client_order_id.clone(),
            symbol: base.symbol.clone(),
            side: base.side,
            order_type: base.order_type,
            quantity: base.quantity,
            price: base.price,
            filled_quantity: base.quantity,
            remaining_quantity: 0,
            status: OrderStatus::Filled,
            timestamp: base.timestamp,
            user_id: base.user_id,
            account_id: base.account_id,
            time_in_force: base.time_in_force,
        };
        proof {
            assert(upd@ =~= filled_out(os0[id as int]));
        }
        orders.remove(i);
        orders.insert(i, upd);
        proof {
            assert(orders_view(orders@) =~~= os0.update(id as int, filled_out(os0[id as int])));
        }
    }
    mark_filled_from(orders, removed, k + 1);
}

fn mark_partial_exec(orders: &mut Vec<Order>, partial: &Option<Order>)
    ensures
        orders_view(final(orders)@) == mark_partial(
            orders_view(old(orders)@),
            crate::matching::opt_order_view(*partial),
        ),
{
    let ghost os0 = orders_view(orders@);
    match partial {
        None => {},
        Some(o) => {
            if o.id < orders.len() as u128 {
                let i = o.id as usize;
                let base = &orders[i];
                let upd = Order {
                    id: base.id,
                    client_order_id: base.client_order_id.clone(),
                    symbol: base.symbol.clone(),
                    side: base.side,
                    order_type: base.order_type,
                    quantity: base.quantity,
                    price: base.price,
                    filled_quantity: o.filled_quantity,
                    remaining_quantity: o.remaining_quantity,
                    status: o.status,
                    timestamp: base.timestamp,
                    user_id: base.user_id,
                    account_id: base.account_id,
                    time_in_force: base.time_in_force,
                };
                proof {
                    assert(upd@ =~= exec_state_from(os0[o.id as int], o@));
                }
                orders.remove(i);
                orders.insert(i, upd);
                proof {
                    assert(orders_view(orders@) =~~= os0.update(
                        o.id as int,
                        exec_state_from(os0[o.id as int], o@),
                    ));
                }
            }
        },
    }
}

fn store_trades_from(buf: &mut VecDeque<Trade>, trades: &Vec<Trade>, k: usize)
    requires
        k <= trades@.len(),
    ensures
        trades_view(final(buf)@) == ring_extend(
            trades_view(old(buf)@),
            trades_view(trades@).skip(k as int),
            TRADE_BUFFER_CAP as int,
        ),
    decreases trades@.len() - k,
{
    proof {
        let tv = trades_view(trades@).skip(k as int);
        if k < trades@.len() {
            assert(tv[0] == trades@[k as int]@);
            assert(tv.drop_first() =~= trades_view(trades@).skip(k as int + 1));
        } else {
            assert(tv =~= Seq::<TradeV>::empty());
        }
    }
    if k < trades.len() {
        let t = copy_trade(&trades[k]);
        ring_push_trade(buf, t);
        store_trades_from(buf, trades, k + 1);
    }
}

fn account_of_exec(orders: &Vec<Order>, id: u128) -> (r: u128)
    ensures
        r as int == account_of(orders_view(orders@), id as int),
{
    if id < orders.len() as u128 {
        orders[id as usize].account_id
    } else {
        0
    }
}

fn apply_trades_from(
    pm: &mut PositionManager,
    registry: &Vec<Order>,
    trades: &Vec<Trade>,
    k: usize,
) -> (r: bool)
    requires
        old(pm).wf(),
        k <= trades@.len(),
        forall|j: int|
            k <= j < trades@.len() ==> 0 < (#[trigger] trades@[j])@.quantity <= MAX_UNITS as int && 0
                < trades@[j]@.price <= MAX_UNITS as int,
    ensures
        final(pm).wf(),
        ({
            let res = ledger_after_trades(
                ledger_view(old(pm).positions@),
                trades_view(trades@).skip(k as int),
                orders_view(registry@),
            );
            &&& ledger_view(final(pm).positions@) == res.0
            &&& r == res.1
        }),
    decreases trades@.len() - k,
{
    proof {
        let tv = trades_view(trades@).skip(k as int);
        if k < trades@.len() {
            assert(tv[0] == trades@[k as int]@);
            assert(tv.drop_first() =~= trades_view(trades@).skip(k as int + 1));
        } else {
            assert(tv =~= Seq::<TradeV>::empty());
        }
    }
    if k == trades.len() {
        return true;
    }
    let t = &trades[k];
    let ba = account_of_exec(registry, t.buyer_order_id);
    let sa = account_of_exec(registry, t.seller_order_id);
    let f1 = pm.apply_side(ba, &t.symbol, t.quantity as i128, t.price, t.timestamp);
    let f2 = pm.apply_side(sa, &t.symbol, -(t.quantity as i128), t.price, t.timestamp);
    let rest = apply_trades_from(pm, registry, trades, k + 1);
    f1 && f2 && rest
}

fn publish_trade_events_from(
    buf: &mut VecDeque<EngineEvent>,
    trades: &Vec<Trade>,
    k: usize,
    aggressor_id: u128,
    side: OrderSide,
)
    requires
        k <= trades@.len(),
    ensures
        events_view(final(buf)@) == ring_extend(
            events_view(old(buf)@),
            events_of_trades(trades_view(trades@).skip(k as int), aggressor_id as int, side),
            EVENT_BUFFER_CAP as int,
        ),
    decreases trades@.len() - k,
{
    proof {
        let tv = trades_view(trades@).skip(k as int);
        if k < trades@.len() {
            assert(tv[0] == trades@[k as int]@);
            assert(tv.drop_first() =~= trades_view(trades@).skip(k as int + 1));
        } else {
            assert(tv =~= Seq::<TradeV>::empty());
        }
    }
    if k == trades.len() {
        return ;
    }
    let ghost ev0 = events_view(buf@);
    let ghost t0 = trades@[k as int]@;
    let resting_id = match side {
        OrderSide::Buy => trades[k].seller_order_id,
        OrderSide::Sell => trades[k].buyer_order_id,
    };
    let e1 = EngineEvent::TradeExecuted(copy_trade(&trades[k]));
    let e2 = EngineEvent::OrderFilled { order_id: aggressor_id, trade: copy_trade(&trades[k]) };
    let e3 = EngineEvent::OrderFilled { order_id: resting_id, trade: copy_trade(&trades[k]) };
    let ghost ev1 = events_of_trade(t0, aggressor_id as int, side);
    ring_push_event(buf, e1);
    ring_push_event(buf, e2);
    ring_push_event(buf, e3);
    proof {
        let cap = EVENT_BUFFER_CAP as int;
        assert(ev1[0] == e1@ && ev1[1] == e2@ && ev1[2] == e3@);
        assert(ev1.drop_first() =~= seq![e2@, e3@]);
        assert(ev1.drop_first().drop_first() =~= seq![e3@]);
        assert(seq![e3@].drop_first() =~= Seq::<EngineEventV>::empty());
        let s1 = ring_push(ev0, e1@, cap);
        let s2 = ring_push(s1, e2@, cap);
        let s3 = ring_push(s2, e3@, cap);
        assert(ring_extend(ev0, ev1, cap) == ring_extend(s1, ev1.drop_first(), cap));
        assert(ring_extend(s1, ev1.drop_first(), cap) == ring_extend(
            s2,
            ev1.drop_first().drop_first(),
            cap,
        ));
        assert(ring_extend(s2, ev1.drop_first().drop_first(), cap) == ring_extend(
            s3,
            Seq::<EngineEventV>::empty(),
            cap,
        ));
        assert(ring_extend(s3, Seq::<EngineEventV>::empty(), cap) == s3);
        assert(events_view(buf@) =~= ring_extend(ev0, ev1, cap));
    }
    publish_trade_events_from(buf, trades, k + 1, aggressor_id, side);
    proof {
        let cap = EVENT_BUFFER_CAP as int;
        let tv = trades_view(trades@).skip(k as int);
        lemma_ring_extend_concat(
            ev0,
            ev1,
            events_of_trades(tv.drop_first(), aggressor_id as int, side),
            cap,
        );
        assert(events_of_trades(tv, aggressor_id as int, side) =~= ev1 + events_of_trades(
            tv.drop_first(),
            aggressor_id as int,
            side,
        ));
    }
}

fn depth_of_queue_exec(q: &VecDeque<BookEntry>, k: usize) -> (r: i128)
    requires
        k <= q@.len(),
        forall|j: int|
            0 <= j < q@.len() ==> 0 < (#[trigger] q@[j])@.order.remaining_quantity <= MAX_UNITS as int,
    ensures
        r as int == crate::engine::depth_of_queue(
            q@.map_values(|e: BookEntry| e@).skip(k as int),
        ),
        0 <= r as int <= (q@.len() - k) * (MAX_UNITS as int),
    decreases q@.len() - k,
{
    let ghost qv = q@.map_values(|e: BookEntry| e@);
    proof {
        let s = qv.skip(k as int);
        if k < q@.len() {
            assert(s[0] == q@[k as int]@);
            assert(s.drop_first() =~= qv.skip(k as int + 1));
        } else {
            assert(s =~= Seq::<crate::matching::BookEntryV>::empty());
        }
    }
    if k == q.len() {
        0
    } else {
        let rest = depth_of_queue_exec(q, k + 1);
        proof {
            assert((q@.len() - k) * (MAX_UNITS as int) == (q@.len() - (k + 1)) * (MAX_UNITS as int)
                + MAX_UNITS as int) by (nonlinear_arith);
            assert((q@.len() - k) * (MAX_UNITS as int) < i128::MAX as int) by (nonlinear_arith)
                requires
                    q@.len() < 0x1_0000_0000_0000_0000int,
            ;
        }
        (q[k].order.remaining_quantity as i128) + rest
    }
}

fn side_depth_exec(levels: &Vec<PriceLevelQueue>, k: usize) -> (r: Vec<PriceLevel>)
    requires
        k <= levels@.len(),
        forall|j: int, qj: int|
            0 <= j < side_view(levels@).len() && 0 <= qj < side_view(levels@)[j].queue.len()
                ==> 0 < (#[trigger] side_view(levels@)[j].queue[qj]).order.remaining_quantity
                <= MAX_UNITS as int,
    ensures
        r@ == side_depth(side_view(levels@).skip(k as int)),
    decreases levels@.len() - k,
{
    let ghost sv = side_view(levels@);
    proof {
        let s = sv.skip(k as int);
        if k < levels@.len() {
            assert(s[0] == levels@[k as int]@);
            assert(s.drop_first() =~= sv.skip(k as int + 1));
        } else {
            assert(s =~= Seq::<LevelV>::empty());
        }
    }
    if k == levels.len() {
        let r = Vec::new();
        proof {
            assert(r@ =~= side_depth(sv.skip(k as int)));
        }
        r
    } else {
        let mut rest = side_depth_exec(levels, k + 1);
        proof {
            assert forall|j: int|
                0 <= j < levels@[k as int].orders@.len() implies 0 < (
            #[trigger] levels@[k as int].orders@[j])@.order.remaining_quantity <= MAX_UNITS as int by {
                assert(sv[k as int].queue[j] == levels@[k as int].orders@[j]@);
            }
        }
        let d = depth_of_queue_exec(&levels[k].orders, 0);
        proof {
            assert(levels@[k as int].orders@.map_values(|e: BookEntry| e@).skip(0)
                =~= sv[k as int].queue);
        }
        let lvl = PriceLevel {
            price: levels[k].price,
            quantity: d,
            order_count: levels[k].orders.len(),
        };
        rest.insert(0, lvl);
        proof {
            assert(rest@ =~= side_depth(sv.skip(k as int)));
        }
        rest
    }
}

/// The whole trading engine: the matching core, the published snapshots,
/// the position ledger, the risk gate, the authoritative order registry,
/// the recent-trade ring, the event backlog, the operation counters, and
/// the ingest clock.
pub struct TradingEngine {
    pub matching_engine: MatchingEngine,
    pub order_book_manager: OrderBookManager,
    pub position_manager: PositionManager,
    pub risk_manager: RiskManager,
    pub orders: Vec<Order>,
    pub trades: VecDeque<Trade>,
    pub events: VecDeque<EngineEvent>,
    pub metrics: Metrics,
    pub last_ts: i64,
}

impl TradingEngine {
    /// Engine well-formedness: every component is well formed and the
    /// registry is dense — the order with id `i` sits at index `i`.
    pub open spec fn wf(self) -> bool {
        &&& self.matching_engine.wf()
        &&& self.position_manager.wf()
        &&& self.risk_manager.wf()
        &&& self.order_book_manager.wf()
        &&& forall|i: int|
            0 <= i < orders_view(self.orders@).len() ==> (#[trigger] orders_view(self.orders@)[i].id)
                == i
    }

    /// A fresh engine: everything empty, counters at zero.
    pub fn new() -> (r: Self)
        ensures
            r.wf(),
            orders_view(r.orders@) == Seq::<OrderV>::empty(),
            trades_view(r.trades@) == Seq::<TradeV>::empty(),
            events_view(r.events@) == Seq::<EngineEventV>::empty(),
            r.matching_engine.books_v() == Seq::<SymbolBookV>::empty(),
            rows_view(r.matching_engine.order_index@) == Seq::<IndexEntryV>::empty(),
            ledger_view(r.position_manager.positions@) == Seq::<PositionV>::empty(),
            r.risk_manager.risk_limits@ == Seq::<crate::types::RiskLimits>::empty(),
            r.metrics == (Metrics { orders_submitted: 0, orders_cancelled: 0, trades_executed: 0 }),
    {
        let r = TradingEngine {
            matching_engine: MatchingEngine::new(),
            order_book_manager: OrderBookManager::new(),
            position_manager: PositionManager::new(),
            risk_manager: RiskManager::new(),
            orders: Vec::new(),
            trades: VecDeque::new(),
            events: VecDeque::new(),
            metrics: Metrics { orders_submitted: 0, orders_cancelled: 0, trades_executed: 0 },
            last_ts: 0,
        };
        proof {
            assert(orders_view(r.orders@) =~= Seq::<OrderV>::empty());
            assert(trades_view(r.trades@) =~= Seq::<TradeV>::empty());
            assert(events_view(r.events@) =~= Seq::<EngineEventV>::empty());
        }
        r
    }

    fn validate_order(&self, order: &Order) -> (r: Result<(), TradingError>)
        ensures
            r is Ok <==> validate_ok(order@),
            r matches Err(e) ==> e is InvalidOrder,
    {
        if order.quantity <= 0 {
            return Err(TradingError::InvalidOrder("quantity must be positive".to_string()));
        }
        if order.quantity > MAX_UNITS {
            return Err(TradingError::InvalidOrder("quantity out of range".to_string()));
        }
        match order.price {
            Some(p) => {
                if p <= 0 {
                    return Err(TradingError::InvalidOrder("price must be positive".to_string()));
                }
                if p > MAX_UNITS {
                    return Err(TradingError::InvalidOrder("price out of range".to_string()));
                }
            },
            None => {},
        }
        if order.symbol.as_str().is_empty() {
            return Err(TradingError::InvalidOrder("symbol cannot be empty".to_string()));
        }
        match order.order_type {
            OrderType::Limit => {
                if order.price.is_none() {
                    return Err(TradingError::InvalidOrder("limit orders must have a price".to_string()));
                }
            },
            OrderType::Market => {
                if order.price.is_some() {
                    return Err(TradingError::InvalidOrder("market orders cannot have a price".to_string()));
                }
            },
            _ => {},
        }
        Ok(())
    }

    /// Submit one order: validate it, run the risk gate, stamp it with a
    /// fresh dense id and a strictly advancing ingest timestamp, match it,
    /// bring the registry up to date, store the trades, publish the events,
    /// and update both sides' positions. Returns the assigned id, or the
    /// first failure. Validation and risk failures leave the engine
    /// untouched; a position-bounds failure is reported as `InternalError`
    /// after the match (which is authoritative) has been recorded.
    #[verifier::rlimit(100)]
    pub fn submit_order(&mut self, order: Order) -> (r: Result<u128, TradingError>)
        requires
            old(self).wf(),
        ensures
            final(self).wf(),
            ({
                let o = order@;
                let os0 = orders_view(old(self).orders@);
                let n = os0.len() as int;
                if !validate_ok(o) {
                    &&& r matches Err(e) && e is InvalidOrder
                    &&& *final(self) == *old(self)
                } else if !risk_ok(
                    old(self).risk_manager.risk_limits@,
                    o.quantity,
                    o.price,
                    o.account_id,
                ) {
                    &&& r matches Err(e) && e is RiskLimitExceeded
                    &&& *final(self) == *old(self)
                } else if old(self).matching_engine.exhausted(o) {
                    &&& r matches Err(e) && e is InternalError
                    &&& *final(self) == *old(self)
                } else {
                    let ts = final(self).last_ts as int;
                    let stamped = stamped_view(o, n, ts);
                    let p = process_spec(
                        old(self).matching_engine.books_v(),
                        stamped,
                        old(self).matching_engine.next_trade_id as int,
                        old(self).matching_engine.next_priority as int,
                    );
                    let os1 = mark_partial(mark_filled(os0, p.removed), p.partial).push(p.taker);
                    let led = ledger_after_trades(
                        ledger_view(old(self).position_manager.positions@),
                        p.trades,
                        os1,
                    );
                    &&& (old(self).last_ts as int) <= ts
                    &&& (old(self).last_ts < i64::MAX ==> (old(self).last_ts as int) < ts)
                    &&& final(self).matching_engine.books_v() == p.books
                    &&& rows_view(final(self).matching_engine.order_index@) == rows_without(
                        rows_view(old(self).matching_engine.order_index@),
                        p.removed,
                    ) + (if p.rested {
                        seq![
                            IndexEntryV {
                                order_id: n,
                                symbol: o.symbol,
                                price: some_price(p.taker.price),
                                side: o.side,
                            },
                        ]
                    } else {
                        Seq::<IndexEntryV>::empty()
                    })
                    &&& final(self).matching_engine.next_trade_id as int
                        == old(self).matching_engine.next_trade_id as int + p.trades.len()
                    &&& final(self).matching_engine.next_priority as int
                        == old(self).matching_engine.next_priority as int + (if p.rested {
                        1int
                    } else {
                        0int
                    })
                    &&& orders_view(final(self).orders@) == os1
                    &&& trades_view(final(self).trades@) == ring_extend(
                        trades_view(old(self).trades@),
                        p.trades,
                        TRADE_BUFFER_CAP as int,
                    )
                    &&& events_view(final(self).events@) == ring_push(
                        ring_extend(
                            events_view(old(self).events@),
                            events_of_trades(p.trades, n, o.side),
                            EVENT_BUFFER_CAP as int,
                        ),
                        EngineEventV::OrderSubmitted(stamped),
                        EVENT_BUFFER_CAP as int,
                    )
                    &&& ledger_view(final(self).position_manager.positions@) == led.0
                    &&& final(self).metrics.orders_submitted as int == sat_add(
                        old(self).metrics.orders_submitted as int,
                        1,
                    )
                    &&& final(self).metrics.trades_executed as int == sat_add(
                        old(self).metrics.trades_executed as int,
                        p.trades.len() as int,
                    )
                    &&& final(self).metrics.orders_cancelled == old(self).metrics.orders_cancelled
                    &&& final(self).risk_manager == old(self).risk_manager
                    &&& final(self).order_book_manager == old(self).order_book_manager
                    &&& (led.1 ==> (r matches Ok(rid) && rid as int == n))
                    &&& (!led.1 ==> (r matches Err(e) && e is InternalError))
                }
            }),
    {
        let ghost os0 = orders_view(self.orders@);
        if let Err(e) = self.validate_order(&order) {
            return Err(e);
        }
        if let Err(e) = self.risk_manager.check_order(&order) {
            return Err(e);
        }
        let n64 = self.orders.len();
        let id = n64 as u128;
        let now = now_millis();
        let ts = if self.last_ts < i64::MAX && now <= self.last_ts {
            self.last_ts + 1
        } else if now > self.last_ts {
            now
        } else {
            self.last_ts
        };
        let stamped = Order {
            id: id,
            client_order_id: order.client_order_id.clone(),
            symbol: order.symbol.clone(),
            side: order.side,
            order_type: order.order_type,
            quantity: order.quantity,
            price: order.price,
            filled_quantity: 0,
            remaining_quantity: order.quantity,
            status: OrderStatus::Pending,
            timestamp: ts,
            user_id: order.user_id,
            account_id: order.account_id,
            time_in_force: order.time_in_force,
        };
        proof {
            assert(stamped@ =~= stamped_view(order@, os0.len() as int, ts as int));
            assert(self.matching_engine.exhausted(stamped@) == self.matching_engine.exhausted(
                order@,
            ));
        }
        let ghost b0 = self.matching_engine.books_v();
        let ghost tid0 = self.matching_engine.next_trade_id as int;
        let ghost npri0 = self.matching_engine.next_priority as int;
        let ghost sv = stamped@;
        let ghost p = process_spec(b0, sv, tid0, npri0);
        let stamped_copy = copy_order(&stamped);
        let (final_taker, trade_list, removed, partial) = match self.matching_engine.process_order(
            stamped,
        ) {
            Ok(res) => res,
            Err(e) => {
                return Err(e);
            },
        };
        self.last_ts = ts;
        proof {
            lemma_process_trade_ranges(b0, sv, tid0, npri0);
            assert(ids_view_local(removed@) == p.removed);
        }
        mark_filled_from(&mut self.orders, &removed, 0);
        proof {
            assert(removed@.skip(0) =~= removed@);
        }
        mark_partial_exec(&mut self.orders, &partial);
        self.orders.push(final_taker);
        proof {
            assert(orders_view(self.orders@) =~~= mark_partial(
                mark_filled(os0, p.removed),
                p.partial,
            ).push(p.taker));
            lemma_marks_keep_ids(os0, p.removed, p.partial);
        }
        store_trades_from(&mut self.trades, &trade_list, 0);
        proof {
            assert(trades_view(trade_list@).skip(0) =~= p.trades);
        }
        publish_trade_events_from(&mut self.events, &trade_list, 0, id, order.side);
        proof {
            assert(events_of_trades(trades_view(trade_list@).skip(0), id as int, order.side)
                =~= events_of_trades(p.trades, os0.len() as int, order@.side));
        }
        ring_push_event(&mut self.events, EngineEvent::OrderSubmitted(stamped_copy));
        proof {
            assert forall|j: int|
                0 <= j < trade_list@.len() implies 0 < (#[trigger] trade_list@[j])@.quantity
                <= MAX_UNITS as int && 0 < trade_list@[j]@.price <= MAX_UNITS as int by {
                assert(trades_view(trade_list@)[j] == trade_list@[j]@);
                assert(p.trades[j] == trades_view(trade_list@)[j]);
            }
        }
        let ok = apply_trades_from(&mut self.position_manager, &self.orders, &trade_list, 0);
        self.metrics.orders_submitted = sat_add_u64(self.metrics.orders_submitted, 1);
        self.metrics.trades_executed = sat_add_u64(
            self.metrics.trades_executed,
            trade_list.len() as u64,
        );
        if ok {
            Ok(id)
        } else {
            Err(TradingError::InternalError("position bounds exceeded".to_string()))
        }
    }
}

impl TradingEngine {
    /// Cancel a registered order: remove its resting remainder from the
    /// book via the matching engine and mark the registered record
    /// `Cancelled` with its last execution state. An unknown id cancels
    /// nothing and reports `false` without an error; an order no longer
    /// resting (already filled or cancelled) likewise reports `false` and
    /// is left in its terminal state.
    pub fn cancel_order(&mut self, order_id: u128) -> (r: Result<bool, TradingError>)
        requires
            old(self).wf(),
        ensures
            final(self).wf(),
            final(self).position_manager == old(self).position_manager,
            final(self).risk_manager == old(self).risk_manager,
            final(self).order_book_manager == old(self).order_book_manager,
            final(self).trades == old(self).trades,
            final(self).last_ts == old(self).last_ts,
            ({
                let rows0 = rows_view(old(self).matching_engine.order_index@);
                let rp = row_pos(rows0, order_id as int);
                let n = orders_view(old(self).orders@).len() as int;
                &&& ((order_id as int) >= n ==> (r matches Ok(b) && b == false) && *final(self)
                    == *old(self))
                &&& ((order_id as int) < n && rp == rows0.len() ==> (r matches Ok(b) && b == false)
                    && *final(self) == *old(self))
                &&& ((order_id as int) < n && rp < rows0.len() ==> {
                    let row = rows0[rp];
                    let bi = book_pos(old(self).matching_engine.books_v(), row.symbol);
                    let located = ({
                        &&& bi < old(self).matching_engine.books_v().len()
                        &&& ({
                            let levels = if row.side == OrderSide::Buy {
                                old(self).matching_engine.books_v()[bi].bids
                            } else {
                                old(self).matching_engine.books_v()[bi].asks
                            };
                            let lp = insert_pos(levels, row.price, row.side);
                            &&& lp < levels.len()
                            &&& levels[lp].price == row.price
                            &&& queue_pos(levels[lp].queue, order_id as int) < levels[lp].queue.len()
                        })
                    });
                    &&& rows_view(final(self).matching_engine.order_index@) == rows0.remove(rp)
                    &&& (located ==> {
                        let levels = if row.side == OrderSide::Buy {
                            old(self).matching_engine.books_v()[bi].bids
                        } else {
                            old(self).matching_engine.books_v()[bi].asks
                        };
                        let lp = insert_pos(levels, row.price, row.side);
                        let qp = queue_pos(levels[lp].queue, order_id as int);
                        let entry = levels[lp].queue[qp].order;
                        &&& (r matches Ok(b) && b == true)
                        &&& final(self).matching_engine.books_v()
                            == old(self).matching_engine.books_v().update(
                            bi,
                            if row.side == OrderSide::Buy {
                                SymbolBookV {
                                    bids: side_after_removal(levels, lp, qp),
                                    ..old(self).matching_engine.books_v()[bi]
                                }
                            } else {
                                SymbolBookV {
                                    asks: side_after_removal(levels, lp, qp),
                                    ..old(self).matching_engine.books_v()[bi]
                                }
                            },
                        )
                        &&& orders_view(final(self).orders@) == orders_view(
                            old(self).orders@,
                        ).update(
                            order_id as int,
                            OrderV {
                                filled_quantity: entry.filled_quantity,
                                remaining_quantity: entry.remaining_quantity,
                                status: OrderStatus::Cancelled,
                                ..orders_view(old(self).orders@)[order_id as int]
                            },
                        )
                        &&& events_view(final(self).events@) == ring_push(
                            events_view(old(self).events@),
                            EngineEventV::OrderCancelled(order_id as int),
                            EVENT_BUFFER_CAP as int,
                        )
                        &&& final(self).metrics.orders_cancelled as int == sat_add(
                            old(self).metrics.orders_cancelled as int,
                            1,
                        )
                        &&& final(self).metrics.orders_submitted == old(self).metrics.orders_submitted
                        &&& final(self).metrics.trades_executed == old(self).metrics.trades_executed
                    })
                    &&& (!located ==> (r matches Ok(b) && b == false)
                        && final(self).matching_engine.books_v()
                        == old(self).matching_engine.books_v() && final(self).orders
                        == old(self).orders && final(self).events == old(self).events
                        && final(self).metrics == old(self).metrics)
                })
            }),
    {
        if order_id >= self.orders.len() as u128 {
            return Ok(false);
        }
        match self.matching_engine.cancel_order(order_id) {
            None => Ok(false),
            Some(o) => {
                let ghost os0 = orders_view(self.orders@);
                let i = order_id as usize;
                let base = &self.orders[i];
                let upd = Order {
                    id: base.id,
                    client_order_id: base.client_order_id.clone(),
                    symbol: base.symbol.clone(),
                    side: base.side,
                    order_type: base.order_type,
                    quantity: base.quantity,
                    price: base.price,
                    filled_quantity: o.filled_quantity,
                    remaining_quantity: o.remaining_quantity,
                    status: OrderStatus::Cancelled,
                    timestamp: base.timestamp,
                    user_id: base.user_id,
                    account_id: base.account_id,
                    time_in_force: base.time_in_force,
                };
                proof {
                    assert(upd@ =~= (OrderV {
                        filled_quantity: o@.filled_quantity,
                        remaining_quantity: o@.remaining_quantity,
                        status: OrderStatus::Cancelled,
                        ..os0[order_id as int]
                    }));
                }
                self.orders.remove(i);
                self.orders.insert(i, upd);
                proof {
                    assert(orders_view(self.orders@) =~~= os0.update(order_id as int, upd@));
                }
                ring_push_event(&mut self.events, EngineEvent::OrderCancelled(order_id));
                self.metrics.orders_cancelled = sat_add_u64(self.metrics.orders_cancelled, 1);
                Ok(true)
            },
        }
    }

    /// The registered record for an id, if the id was ever assigned.
    pub fn get_order(&self, order_id: u128) -> (r: Option<Order>)
        requires
            self.wf(),
        ensures
            ({
                let os = orders_view(self.orders@);
                if (order_id as int) < os.len() {
                    r matches Some(o) && o@ == os[order_id as int]
                } else {
                    r is None
                }
            }),
    {
        if order_id < self.orders.len() as u128 {
            Some(copy_order(&self.orders[order_id as usize]))
        } else {
            None
        }
    }

    /// Every registered order, in id order.
    pub fn get_orders(&self) -> (r: Vec<Order>)
        ensures
            orders_view(r@) == orders_view(self.orders@),
    {
        self.copy_orders_from(0)
    }

    fn copy_orders_from(&self, k: usize) -> (r: Vec<Order>)
        requires
            k <= self.orders@.len(),
        ensures
            orders_view(r@) == orders_view(self.orders@).skip(k as int),
        decreases self.orders@.len() - k,
    {
        proof {
            let s = orders_view(self.orders@).skip(k as int);
            if k < self.orders@.len() {
                assert(s[0] == self.orders@[k as int]@);
                assert(s.drop_first() =~= orders_view(self.orders@).skip(k as int + 1));
            } else {
                assert(s =~= Seq::<OrderV>::empty());
            }
        }
        if k == self.orders.len() {
            let r = Vec::new();
            proof {
                assert(orders_view(r@) =~= orders_view(self.orders@).skip(k as int));
            }
            r
        } else {
            let mut rest = self.copy_orders_from(k + 1);
            let ghost r0 = rest@;
            let item = copy_order(&self.orders[k]);
            rest.insert(0, item);
            proof {
                let target = orders_view(self.orders@).skip(k as int);
                assert(orders_view(rest@).len() == target.len());
                assert forall|i: int| 0 <= i < rest@.len() implies orders_view(rest@)[i] == target[i] by {
                    assert(target[i] == orders_view(self.orders@)[i + k]);
                    if i == 0 {
                        assert(rest@[0] == item);
                    } else {
                        assert(rest@[i] == r0[i - 1]);
                        assert(orders_view(r0)[i - 1] == orders_view(self.orders@).skip(k as int + 1)[i - 1]);
                    }
                }
                assert(orders_view(rest@) =~~= target);
            }
            rest
        }
    }

    /// The recent trades, oldest first.
    pub fn get_trades(&self) -> (r: Vec<Trade>)
        ensures
            trades_view(r@) == trades_view(self.trades@),
    {
        self.copy_trades_from(0)
    }

    fn copy_trades_from(&self, k: usize) -> (r: Vec<Trade>)
        requires
            k <= self.trades@.len(),
        ensures
            trades_view(r@) == trades_view(self.trades@).skip(k as int),
        decreases self.trades@.len() - k,
    {
        proof {
            let s = trades_view(self.trades@).skip(k as int);
            if k < self.trades@.len() {
                assert(s[0] == self.trades@[k as int]@);
                assert(s.drop_first() =~= trades_view(self.trades@).skip(k as int + 1));
            } else {
                assert(s =~= Seq::<TradeV>::empty());
            }
        }
        if k == self.trades.len() {
            let r = Vec::new();
            proof {
                assert(trades_view(r@) =~= trades_view(self.trades@).skip(k as int));
            }
            r
        } else {
            let mut rest = self.copy_trades_from(k + 1);
            let ghost r0 = rest@;
            let item = copy_trade(&self.trades[k]);
            rest.insert(0, item);
            proof {
                let target = trades_view(self.trades@).skip(k as int);
                assert(trades_view(rest@).len() == target.len());
                assert forall|i: int| 0 <= i < rest@.len() implies trades_view(rest@)[i] == target[i] by {
                    assert(target[i] == trades_view(self.trades@)[i + k]);
                    if i == 0 {
                        assert(rest@[0] == item);
                    } else {
                        assert(rest@[i] == r0[i - 1]);
                        assert(trades_view(r0)[i - 1] == trades_view(self.trades@).skip(k as int + 1)[i - 1]);
                    }
                }
                assert(trades_view(rest@) =~~= target);
            }
            rest
        }
    }

    /// A live aggregated order-book snapshot for one symbol: per price
    /// level, `(price, total resting quantity, order count)`, bids best
    /// (highest) first and asks best (lowest) first — so the published
    /// depth is exactly the sum of resting remainders at each price.
    pub fn get_orderbook(&self, symbol: &String) -> (r: Option<OrderBook>)
        requires
            self.wf(),
        ensures
            ({
                let books = self.matching_engine.books_v();
                let bi = book_pos(books, symbol@);
                if bi < books.len() {
                    r matches Some(b) && b@.symbol == symbol@ && b@.bids == side_depth(
                        books[bi].bids,
                    ) && b@.asks == side_depth(books[bi].asks) && b@.last_update
                        == self.last_ts as int
                } else {
                    r is None
                }
            }),
    {
        let ghost books = self.matching_engine.books_v();
        match find_book_from(&self.matching_engine.books, symbol, 0) {
            None => {
                proof {
                    crate::matching::lemma_book_pos_props(books, symbol@);
                    crate::matching::lemma_book_pos_unique(books, symbol@, books.len() as int);
                }
                None
            },
            Some(bi) => {
                proof {
                    crate::matching::lemma_book_pos_unique(books, symbol@, bi as int);
                    assert(crate::matching::book_wf(books[bi as int]));
                    assert forall|j: int, qj: int|
                        0 <= j < books[bi as int].bids.len() && 0 <= qj
                            < books[bi as int].bids[j].queue.len() implies 0 < (
                    #[trigger] books[bi as int].bids[j].queue[qj]).order.remaining_quantity
                        <= MAX_UNITS as int by {
                        assert(crate::matching::level_wf(
                            books[bi as int].bids[j],
                            books[bi as int].symbol,
                            OrderSide::Buy,
                        ));
                        assert(crate::matching::entry_wf(
                            books[bi as int].bids[j].queue[qj],
                            books[bi as int].symbol,
                            OrderSide::Buy,
                            books[bi as int].bids[j].price,
                        ));
                    }
                    assert forall|j: int, qj: int|
                        0 <= j < books[bi as int].asks.len() && 0 <= qj
                            < books[bi as int].asks[j].queue.len() implies 0 < (
                    #[trigger] books[bi as int].asks[j].queue[qj]).order.remaining_quantity
                        <= MAX_UNITS as int by {
                        assert(crate::matching::level_wf(
                            books[bi as int].asks[j],
                            books[bi as int].symbol,
                            OrderSide::Sell,
                        ));
                        assert(crate::matching::entry_wf(
                            books[bi as int].asks[j].queue[qj],
                            books[bi as int].symbol,
                            OrderSide::Sell,
                            books[bi as int].asks[j].price,
                        ));
                    }
                }
                let bids = side_depth_exec(&self.matching_engine.books[bi].bids, 0);
                let asks = side_depth_exec(&self.matching_engine.books[bi].asks, 0);
                proof {
                    assert(side_view(self.matching_engine.books@[bi as int].bids@).skip(0)
                        =~= books[bi as int].bids);
                    assert(side_view(self.matching_engine.books@[bi as int].asks@).skip(0)
                        =~= books[bi as int].asks);
                }
                let b = OrderBook {
                    symbol: symbol.clone(),
                    bids: bids,
                    asks: asks,
                    last_update: self.last_ts,
                };
                Some(b)
            },
        }
    }

    /// The stored position records, optionally for one account.
    pub fn get_positions(&self, account_id: Option<u128>) -> (r: Vec<Position>)
        ensures
            ledger_view(r@) == crate::position_manager::positions_filtered(
                ledger_view(self.position_manager.positions@),
                match account_id {
                    Some(a) => Some(a as int),
                    None => None,
                },
            ),
    {
        self.position_manager.get_positions(account_id)
    }

    /// A copy of the event backlog, oldest first.
    pub fn subscribe_events(&self) -> (r: Vec<EngineEvent>)
        ensures
            events_view(r@) == events_view(self.events@),
    {
        self.copy_events_from(0)
    }

    fn copy_events_from(&self, k: usize) -> (r: Vec<EngineEvent>)
        requires
            k <= self.events@.len(),
        ensures
            events_view(r@) == events_view(self.events@).skip(k as int),
        decreases self.events@.len() - k,
    {
        proof {
            let s = events_view(self.events@).skip(k as int);
            if k < self.events@.len() {
                assert(s[0] == self.events@[k as int]@);
                assert(s.drop_first() =~= events_view(self.events@).skip(k as int + 1));
            } else {
                assert(s =~= Seq::<EngineEventV>::empty());
            }
        }
        if k == self.events.len() {
            let r = Vec::new();
            proof {
                assert(events_view(r@) =~= events_view(self.events@).skip(k as int));
            }
            r
        } else {
            let mut rest = self.copy_events_from(k + 1);
            let ghost r0 = rest@;
            let item = copy_event(&self.events[k]);
            rest.insert(0, item);
            proof {
                let target = events_view(self.events@).skip(k as int);
                assert(events_view(rest@).len() == target.len());
                assert forall|i: int| 0 <= i < rest@.len() implies events_view(rest@)[i] == target[i] by {
                    assert(target[i] == events_view(self.events@)[i + k]);
                    if i == 0 {
                        assert(rest@[0] == item);
                    } else {
                        assert(rest@[i] == r0[i - 1]);
                        assert(events_view(r0)[i - 1] == events_view(self.events@).skip(k as int + 1)[i - 1]);
                    }
                }
                assert(events_view(rest@) =~~= target);
            }
            rest
        }
    }

    /// The operation counters.
    pub fn get_metrics(&self) -> (r: Metrics)
        ensures
            r == self.metrics,
    {
        self.metrics
    }
}

fn copy_position_local(p: &Position) -> (r: Position)
    ensures
        r@ == p@,
{
    let r = Position {
        symbol: p.symbol.clone(),
        account_id: p.account_id,
        quantity: p.quantity,
        average_price: p.average_price,
        market_value: p.market_value,
        unrealized_pnl: p.unrealized_pnl,
        realized_pnl: p.realized_pnl,
        last_updated: p.last_updated,
    };
    proof {
        assert(r@ =~= p@);
    }
    r
}

fn copy_event(e: &EngineEvent) -> (r: EngineEvent)
    ensures
        r@ == e@,
{
    match e {
        EngineEvent::OrderSubmitted(o) => EngineEvent::OrderSubmitted(copy_order(o)),
        EngineEvent::OrderCancelled(id) => EngineEvent::OrderCancelled(*id),
        EngineEvent::OrderFilled { order_id, trade } => EngineEvent::OrderFilled {
            order_id: *order_id,
            trade: copy_trade(trade),
        },
        EngineEvent::TradeExecuted(t) => EngineEvent::TradeExecuted(copy_trade(t)),
        EngineEvent::PositionUpdated(p) => EngineEvent::PositionUpdated(copy_position_local(p)),
        EngineEvent::RiskViolation { account_id, violation } => EngineEvent::RiskViolation {
            account_id: *account_id,
            violation: violation.clone(),
        },
    }
}

/// Saturating add on the counter type.
fn sat_add_u64(a: u64, b: u64) -> (r: u64)
    ensures
        r as int == sat_add(a as int, b as int),
{
    if a <= u64::MAX - b {
        a + b
    } else {
        u64::MAX
    }
}

/// `ids_view` under its local name, for proof readability.
pub open spec fn ids_view_local(ids: Seq<u128>) -> Seq<int> {
    crate::matching::ids_view(ids)
}

/// Marking registry entries filled or partially filled keeps every entry's
/// id (and the registry's length).
proof fn lemma_marks_keep_ids(os: Seq<OrderV>, ids: Seq<int>, partial: Option<OrderV>)
    ensures
        mark_filled(os, ids).len() == os.len(),
        forall|i: int|
            0 <= i < os.len() ==> (#[trigger] mark_filled(os, ids)[i].id) == os[i].id,
        mark_partial(mark_filled(os, ids), partial).len() == os.len(),
        forall|i: int|
            0 <= i < os.len() ==> (#[trigger] mark_partial(mark_filled(os, ids), partial)[i].id)
                == os[i].id,
    decreases ids.len(),
{
    if ids.len() > 0 {
        let os1 = if 0 <= ids[0] < os.len() {
            os.update(ids[0], filled_out(os[ids[0]]))
        } else {
            os
        };
        lemma_marks_keep_ids(os1, ids.drop_first(), partial);
        assert forall|i: int| 0 <= i < os.len() implies (#[trigger] mark_filled(os, ids)[i].id)
            == os[i].id by {
            assert(mark_filled(os, ids)[i].id == mark_filled(os1, ids.drop_first())[i].id);
            assert(os1[i].id == os[i].id);
        }
    }
    let mf = mark_filled(os, ids);
    assert forall|i: int| 0 <= i < os.len() implies (#[trigger] mark_partial(mf, partial)[i].id)
        == os[i].id by {
        match partial {
            Some(o) => {
                if i != o.id || !(0 <= o.id < mf.len()) {
                    assert(mark_partial(mf, partial)[i] == mf[i]);
                }
            },
            None => {},
        }
    }
}

} // verus!
