//! The central limit order book and the price-time-priority matching
//! algorithm.
//!
//! Per symbol and side the book is a list of price levels, each holding a
//! FIFO queue of resting entries; levels are kept sorted best price first
//! (highest first for bids, lowest first for asks). Matching walks the
//! opposite side's levels in that order and is specified exactly by the
//! recursive function [`match_rec`], which the executable code is proved to
//! implement.

use std::collections::VecDeque;
use vstd::prelude::*;

use crate::types::{
    MAX_UNITS, Order, OrderSide, OrderStatus, OrderV, Trade, TradeType, TradeV, TradingError,
};

verus! {

/// One resting order together with its arrival priority (the "time" in
/// price-time priority; strictly increasing per insertion).
#[derive(Clone, Debug)]
pub struct BookEntry {
    pub order: Order,
    pub priority: u64,
}

/// Mathematical value of a [`BookEntry`].
#[verifier::ext_equal]
pub struct BookEntryV {
    pub order: OrderV,
    pub priority: int,
}

impl View for BookEntry {
    type V = BookEntryV;

    open spec fn view(&self) -> BookEntryV {
        BookEntryV { order: self.order@, priority: self.priority as int }
    }
}

/// A price level: all resting orders at one price, in arrival order.
#[derive(Clone, Debug)]
pub struct PriceLevelQueue {
    pub price: i64,
    pub orders: VecDeque<BookEntry>,
}

/// Mathematical value of a [`PriceLevelQueue`].
#[verifier::ext_equal]
pub struct LevelV {
    pub price: int,
    pub queue: Seq<BookEntryV>,
}

impl View for PriceLevelQueue {
    type V = LevelV;

    open spec fn view(&self) -> LevelV {
        LevelV { price: self.price as int, queue: self.orders@.map_values(|e: BookEntry| e@) }
    }
}

/// Mathematical value of one side of one symbol's book.
pub open spec fn side_view(levels: Seq<PriceLevelQueue>) -> Seq<LevelV> {
    levels.map_values(|l: PriceLevelQueue| l@)
}

/// The side opposite to `side`.
pub open spec fn opposite(side: OrderSide) -> OrderSide {
    match side {
        OrderSide::Buy => OrderSide::Sell,
        OrderSide::Sell => OrderSide::Buy,
    }
}

/// `p1` is a strictly better price than `p2` from the point of view of a
/// resting order on `side`: higher for bids, lower for asks.
pub open spec fn strictly_better(side: OrderSide, p1: int, p2: int) -> bool {
    match side {
        OrderSide::Buy => p1 > p2,
        OrderSide::Sell => p1 < p2,
    }
}

/// An aggressor on `side` with limit `limit` is willing to trade at the
/// opposite-side price `level_price`. A market order (no limit) always is.
pub open spec fn crosses(side: OrderSide, limit: Option<int>, level_price: int) -> bool {
    match limit {
        None => true,
        Some(l) => match side {
            OrderSide::Buy => level_price <= l,
            OrderSide::Sell => level_price >= l,
        },
    }
}

/// A resting entry is well formed for a book slot `(symbol, side, price)`:
/// the order names that slot, something remains to fill, the accounting
/// invariant holds, and the status reflects whether it was partially filled.
pub open spec fn entry_wf(e: BookEntryV, symbol: Seq<char>, side: OrderSide, price: int) -> bool {
    &&& e.order.symbol == symbol
    &&& e.order.side == side
    &&& e.order.price == Some(price)
    &&& e.order.accounting_ok()
    &&& 0 < e.order.remaining_quantity
    &&& e.order.status == (if e.order.filled_quantity == 0 {
        OrderStatus::Pending
    } else {
        OrderStatus::PartiallyFilled
    })
}

/// A price level is well formed: in-range price, a non-empty queue of well
/// formed entries, and strictly increasing priorities (arrival order).
pub open spec fn level_wf(l: LevelV, symbol: Seq<char>, side: OrderSide) -> bool {
    &&& 0 < l.price <= MAX_UNITS
    &&& l.queue.len() > 0
    &&& forall|i: int| 0 <= i < l.queue.len() ==> entry_wf(#[trigger] l.queue[i], symbol, side, l.price)
    &&& forall|i: int, j: int|
        0 <= i < j < l.queue.len() ==> #[trigger] l.queue[i].priority < #[trigger] l.queue[j].priority
}

/// One side of one symbol's book is well formed: every level is, and levels
/// are sorted strictly best price first.
pub open spec fn side_wf(levels: Seq<LevelV>, symbol: Seq<char>, side: OrderSide) -> bool {
    &&& forall|i: int| 0 <= i < levels.len() ==> level_wf(#[trigger] levels[i], symbol, side)
    &&& forall|i: int, j: int|
        0 <= i < j < levels.len() ==> strictly_better(side, #[trigger] levels[i].price, #[trigger] levels[j].price)
}

/// Total number of resting entries on one side.
pub open spec fn total_entries(levels: Seq<LevelV>) -> int
    decreases levels.len(),
{
    if levels.len() == 0 {
        0
    } else {
        levels[0].queue.len() + total_entries(levels.drop_first())
    }
}

/// Length of the first level's queue; `0` for an empty side. Used as the
/// second component of the termination measure of [`match_rec`].
pub open spec fn first_queue_len(levels: Seq<LevelV>) -> int {
    if levels.len() == 0 {
        0
    } else {
        levels[0].queue.len() as int
    }
}

/// The smaller of two integers.
pub open spec fn min_int(a: int, b: int) -> int {
    if a <= b {
        a
    } else {
        b
    }
}

/// The order after a fill of `fill` units: quantities shift and the status
/// becomes `Filled` exactly when nothing remains.
pub open spec fn fill_applied(o: OrderV, fill: int) -> OrderV {
    OrderV {
        filled_quantity: o.filled_quantity + fill,
        remaining_quantity: o.remaining_quantity - fill,
        status: if o.remaining_quantity == fill {
            OrderStatus::Filled
        } else {
            OrderStatus::PartiallyFilled
        },
        ..o
    }
}

/// The trade produced when aggressor `taker` fills against resting order
/// `resting` at the resting level's price. Ids are assigned sequentially by
/// the engine; the timestamp is the aggressor's ingest time.
pub open spec fn mk_trade(taker: OrderV, resting: OrderV, fill: int, price: int, tid: int) -> TradeV {
    TradeV {
        id: tid,
        symbol: taker.symbol,
        buyer_order_id: if taker.side == OrderSide::Buy {
            taker.id
        } else {
            resting.id
        },
        seller_order_id: if taker.side == OrderSide::Buy {
            resting.id
        } else {
            taker.id
        },
        quantity: fill,
        price: price,
        timestamp: taker.timestamp,
        trade_type: TradeType::Regular,
    }
}

/// Everything one matching walk produces: the trades in execution order, the
/// opposite side's book afterwards, the aggressor's final state, the ids of
/// resting orders that were fully filled and removed, and the state of the
/// at most one resting order that was left partially filled.
#[verifier::ext_equal]
pub struct MatchOutcome {
    pub trades: Seq<TradeV>,
    pub levels: Seq<LevelV>,
    pub taker: OrderV,
    pub removed: Seq<int>,
    pub partial: Option<OrderV>,
}

/// The matching algorithm, exactly: walk the opposite side's levels (best
/// first), and within a level fill against the head entry; fills are
/// `min(taker remaining, resting remaining)` at the resting level's price.
/// Stop when the taker is filled, the book side is exhausted, or the next
/// level no longer crosses the taker's limit. A partially filled resting
/// order keeps its place and priority; a fully filled one is removed, and an
/// emptied level is pruned. Trade ids count up from `tid`.
pub open spec fn match_rec(levels: Seq<LevelV>, taker: OrderV, tid: int) -> MatchOutcome
    decreases levels.len(), first_queue_len(levels),
{
    if levels.len() == 0 || taker.remaining_quantity <= 0
        || !crosses(taker.side, taker.price, levels[0].price) || levels[0].queue.len() == 0 {
        MatchOutcome { trades: seq![], levels, taker, removed: seq![], partial: None }
    } else {
        let lvl = levels[0];
        let head = lvl.queue[0];
        let fill = min_int(taker.remaining_quantity, head.order.remaining_quantity);
        let tr = mk_trade(taker, head.order, fill, lvl.price, tid);
        let taker2 = fill_applied(taker, fill);
        let resting2 = fill_applied(head.order, fill);
        if resting2.remaining_quantity > 0 {
            // The taker is fully filled; the resting head keeps its place.
            let lvl2 = LevelV {
                price: lvl.price,
                queue: lvl.queue.update(0, BookEntryV { order: resting2, priority: head.priority }),
            };
            MatchOutcome {
                trades: seq![tr],
                levels: levels.update(0, lvl2),
                taker: taker2,
                removed: seq![],
                partial: Some(resting2),
            }
        } else {
            // The resting head is fully filled and leaves the book.
            let levels2 = if lvl.queue.len() == 1 {
                levels.drop_first()
            } else {
                levels.update(0, LevelV { price: lvl.price, queue: lvl.queue.drop_first() })
            };
            if taker2.remaining_quantity == 0 {
                MatchOutcome {
                    trades: seq![tr],
                    levels: levels2,
                    taker: taker2,
                    removed: seq![head.order.id],
                    partial: None,
                }
            } else {
                let m = match_rec(levels2, taker2, tid + 1);
                MatchOutcome {
                    trades: seq![tr] + m.trades,
                    levels: m.levels,
                    taker: m.taker,
                    removed: seq![head.order.id] + m.removed,
                    partial: m.partial,
                }
            }
        }
    }
}

/// Sum of the quantities of a sequence of trades.
pub open spec fn trades_qty_sum(ts: Seq<TradeV>) -> int
    decreases ts.len(),
{
    if ts.len() == 0 {
        0
    } else {
        ts[0].quantity + trades_qty_sum(ts.drop_first())
    }
}

/// Some entry of level `l` carries order id `id`.
pub open spec fn level_has_id(l: LevelV, id: int) -> bool {
    exists|qi: int| 0 <= qi < l.queue.len() && l.queue[qi].order.id == id
}

/// Some entry on this side carries order id `id`.
pub open spec fn side_has_id(levels: Seq<LevelV>, id: int) -> bool {
    exists|li: int| 0 <= li < levels.len() && level_has_id(levels[li], id)
}

/// Every priority on this side is strictly below `bound`.
pub open spec fn pris_below(levels: Seq<LevelV>, bound: int) -> bool {
    forall|li: int, qi: int|
        0 <= li < levels.len() && 0 <= qi < levels[li].queue.len()
            ==> #[trigger] levels[li].queue[qi].priority < bound
}

proof fn lemma_total_entries_nonneg(levels: Seq<LevelV>)
    ensures
        total_entries(levels) >= 0,
    decreases levels.len(),
{
    if levels.len() > 0 {
        lemma_total_entries_nonneg(levels.drop_first());
    }
}

proof fn lemma_total_entries_update0(levels: Seq<LevelV>, lvl2: LevelV)
    requires
        levels.len() > 0,
    ensures
        total_entries(levels.update(0, lvl2)) == total_entries(levels) - levels[0].queue.len()
            + lvl2.queue.len(),
{
    assert(levels.update(0, lvl2).drop_first() =~= levels.drop_first());
}

/// Popping the head entry of the first level (and pruning the level if that
/// empties it) keeps one side of the book well formed.
proof fn lemma_side_wf_after_pop(levels: Seq<LevelV>, symbol: Seq<char>, side: OrderSide)
    requires
        side_wf(levels, symbol, side),
        levels.len() > 0,
        levels[0].queue.len() >= 1,
    ensures
        levels[0].queue.len() == 1 ==> side_wf(levels.drop_first(), symbol, side),
        levels[0].queue.len() > 1 ==> side_wf(
            levels.update(0, LevelV { price: levels[0].price, queue: levels[0].queue.drop_first() }),
            symbol,
            side,
        ),
{
    let dropped = levels.drop_first();
    assert forall|i: int| 0 <= i < dropped.len() implies level_wf(#[trigger] dropped[i], symbol, side) by {
        assert(dropped[i] == levels[i + 1]);
    }
    assert forall|i: int, j: int| 0 <= i < j < dropped.len() implies strictly_better(
        side,
        #[trigger] dropped[i].price,
        #[trigger] dropped[j].price,
    ) by {
        assert(dropped[i] == levels[i + 1]);
        assert(dropped[j] == levels[j + 1]);
    }
    if levels[0].queue.len() > 1 {
        let lvl2 = LevelV { price: levels[0].price, queue: levels[0].queue.drop_first() };
        let updated = levels.update(0, lvl2);
        assert(level_wf(levels[0], symbol, side));
        assert forall|i: int| 0 <= i < lvl2.queue.len() implies entry_wf(
            #[trigger] lvl2.queue[i],
            symbol,
            side,
            lvl2.price,
        ) by {
            assert(lvl2.queue[i] == levels[0].queue[i + 1]);
        }
        assert forall|i: int, j: int| 0 <= i < j < lvl2.queue.len() implies #[trigger] lvl2.queue[i].priority
            < #[trigger] lvl2.queue[j].priority by {
            assert(lvl2.queue[i] == levels[0].queue[i + 1]);
            assert(lvl2.queue[j] == levels[0].queue[j + 1]);
        }
        assert(level_wf(lvl2, symbol, side));
        assert forall|i: int| 0 <= i < updated.len() implies level_wf(#[trigger] updated[i], symbol, side) by {
            if i != 0 {
                assert(updated[i] == levels[i]);
            }
        }
    }
}

/// An order id present after popping the head entry of the first level was
/// present before.
proof fn lemma_side_has_id_pop(levels: Seq<LevelV>, id: int)
    requires
        levels.len() > 0,
        levels[0].queue.len() >= 1,
    ensures
        side_has_id(levels.drop_first(), id) ==> side_has_id(levels, id),
        levels[0].queue.len() > 1 ==> (side_has_id(
            levels.update(0, LevelV { price: levels[0].price, queue: levels[0].queue.drop_first() }),
            id,
        ) ==> side_has_id(levels, id)),
{
    if side_has_id(levels.drop_first(), id) {
        let d = levels.drop_first();
        let li = choose|li: int| 0 <= li < d.len() && level_has_id(d[li], id);
        assert(d[li] == levels[li + 1]);
        assert(side_has_id(levels, id));
    }
    if levels[0].queue.len() > 1 {
        let lvl2 = LevelV { price: levels[0].price, queue: levels[0].queue.drop_first() };
        let updated = levels.update(0, lvl2);
        if side_has_id(updated, id) {
            let li = choose|li: int| 0 <= li < updated.len() && level_has_id(updated[li], id);
            if li == 0 {
                let qi = choose|qi: int| 0 <= qi < lvl2.queue.len() && lvl2.queue[qi].order.id == id;
                assert(lvl2.queue[qi] == levels[0].queue[qi + 1]);
                assert(level_has_id(levels[0], id));
            } else {
                assert(updated[li] == levels[li]);
            }
            assert(side_has_id(levels, id));
        }
    }
}

/// The central properties of one matching walk, proved by induction over
/// [`match_rec`]: the book side stays well formed, the aggressor's
/// accounting and identity are preserved, its filled quantity grows by
/// exactly the sum of the trade quantities, every trade is priced at a
/// crossing level and pairs the aggressor with a resting order, removals are
/// counted exactly, and the walk stops only for a stated reason.
pub proof fn lemma_match_rec_props(levels: Seq<LevelV>, taker: OrderV, tid: int)
    requires
        side_wf(levels, taker.symbol, opposite(taker.side)),
        taker.accounting_ok(),
        taker.price_ok(),
    ensures
        ({
            let m = match_rec(levels, taker, tid);
            &&& side_wf(m.levels, taker.symbol, opposite(taker.side))
            &&& m.taker.accounting_ok()
            &&& m.taker == (OrderV {
                filled_quantity: m.taker.filled_quantity,
                remaining_quantity: m.taker.remaining_quantity,
                status: m.taker.status,
                ..taker
            })
            &&& m.taker.filled_quantity == taker.filled_quantity + trades_qty_sum(m.trades)
            &&& m.taker.remaining_quantity <= taker.remaining_quantity
            &&& (m.trades.len() == 0 ==> m.levels == levels && m.taker == taker && m.removed
                == Seq::<int>::empty() && m.partial is None)
            &&& (m.trades.len() > 0 ==> m.taker.status == (if m.taker.remaining_quantity == 0 {
                OrderStatus::Filled
            } else {
                OrderStatus::PartiallyFilled
            }))
            &&& (forall|k: int|
                0 <= k < m.trades.len() ==> {
                    let t = #[trigger] m.trades[k];
                    &&& t.id == tid + k
                    &&& t.symbol == taker.symbol
                    &&& t.timestamp == taker.timestamp
                    &&& t.trade_type == TradeType::Regular
                    &&& 0 < t.quantity <= MAX_UNITS
                    &&& 0 < t.price <= MAX_UNITS
                    &&& crosses(taker.side, taker.price, t.price)
                    &&& (taker.side == OrderSide::Buy ==> t.buyer_order_id == taker.id
                        && side_has_id(levels, t.seller_order_id))
                    &&& (taker.side == OrderSide::Sell ==> t.seller_order_id == taker.id
                        && side_has_id(levels, t.buyer_order_id))
                })
            &&& m.trades.len() <= m.removed.len() + 1
            &&& total_entries(m.levels) == total_entries(levels) - m.removed.len()
            &&& (forall|k: int|
                0 <= k < m.removed.len() ==> side_has_id(levels, #[trigger] m.removed[k]))
            &&& (m.partial matches Some(o) ==> m.levels.len() > 0 && m.levels[0].queue.len() > 0
                && m.levels[0].queue[0].order == o && side_has_id(levels, o.id))
            &&& (m.taker.remaining_quantity > 0 && m.levels.len() > 0 ==> !crosses(
                taker.side,
                taker.price,
                m.levels[0].price,
            ))
            &&& (forall|b: int| pris_below(levels, b) ==> #[trigger] pris_below(m.levels, b))
            &&& (forall|li: int|
                0 <= li < m.levels.len() ==> exists|lj: int|
                    0 <= lj < levels.len() && levels[lj].price == #[trigger] m.levels[li].price)
            &&& (forall|id: int| #[trigger] side_has_id(m.levels, id) ==> side_has_id(levels, id))
        }),
    decreases levels.len(), first_queue_len(levels),
{
    let m = match_rec(levels, taker, tid);
    let side = opposite(taker.side);
    if levels.len() == 0 || taker.remaining_quantity <= 0
        || !crosses(taker.side, taker.price, levels[0].price) || levels[0].queue.len() == 0 {
        if levels.len() > 0 {
            assert(level_wf(levels[0], taker.symbol, side));
        }
        assert forall|li: int| 0 <= li < m.levels.len() implies exists|lj: int|
            0 <= lj < levels.len() && levels[lj].price == #[trigger] m.levels[li].price by {
            assert(levels[li].price == m.levels[li].price);
        }
    } else {
        let lvl = levels[0];
        let head = lvl.queue[0];
        assert(level_wf(lvl, taker.symbol, side));
        assert(entry_wf(head, taker.symbol, side, lvl.price));
        let fill = min_int(taker.remaining_quantity, head.order.remaining_quantity);
        let tr = mk_trade(taker, head.order, fill, lvl.price, tid);
        let taker2 = fill_applied(taker, fill);
        let resting2 = fill_applied(head.order, fill);
        assert(level_has_id(levels[0], head.order.id));
        assert(side_has_id(levels, head.order.id));
        if resting2.remaining_quantity > 0 {
            let lvl2 = LevelV {
                price: lvl.price,
                queue: lvl.queue.update(0, BookEntryV { order: resting2, priority: head.priority }),
            };
            let updated = levels.update(0, lvl2);
            assert(entry_wf(lvl2.queue[0], taker.symbol, side, lvl2.price));
            assert forall|i: int| 0 <= i < lvl2.queue.len() implies entry_wf(
                #[trigger] lvl2.queue[i],
                taker.symbol,
                side,
                lvl2.price,
            ) by {
                if i != 0 {
                    assert(lvl2.queue[i] == lvl.queue[i]);
                }
            }
            assert(level_wf(lvl2, taker.symbol, side));
            assert forall|i: int| 0 <= i < updated.len() implies level_wf(
                #[trigger] updated[i],
                taker.symbol,
                side,
            ) by {
                if i != 0 {
                    assert(updated[i] == levels[i]);
                }
            }
            assert(side_wf(m.levels, taker.symbol, side));
            assert(m.trades =~= seq![tr]);
            assert(m.trades[0] == tr);
            assert(m.trades.drop_first() =~= Seq::<TradeV>::empty());
            assert(trades_qty_sum(Seq::<TradeV>::empty()) == 0);
            assert(trades_qty_sum(m.trades) == fill);
            lemma_total_entries_update0(levels, lvl2);
            assert forall|li: int| 0 <= li < m.levels.len() implies exists|lj: int|
                0 <= lj < levels.len() && levels[lj].price == #[trigger] m.levels[li].price by {
                assert(levels[li].price == m.levels[li].price);
            }
            assert forall|id: int| #[trigger] side_has_id(m.levels, id) implies side_has_id(
                levels,
                id,
            ) by {
                let li = choose|li: int| 0 <= li < m.levels.len() && level_has_id(m.levels[li], id);
                let qi = choose|qi: int|
                    0 <= qi < m.levels[li].queue.len() && m.levels[li].queue[qi].order.id == id;
                assert(levels[li].queue[qi].order.id == id);
                assert(level_has_id(levels[li], id));
            }
        } else {
            let levels2 = if lvl.queue.len() == 1 {
                levels.drop_first()
            } else {
                levels.update(0, LevelV { price: lvl.price, queue: lvl.queue.drop_first() })
            };
            lemma_side_wf_after_pop(levels, taker.symbol, side);
            if lvl.queue.len() == 1 {
                assert(total_entries(levels) == lvl.queue.len() + total_entries(levels.drop_first()));
            } else {
                lemma_total_entries_update0(
                    levels,
                    LevelV { price: lvl.price, queue: lvl.queue.drop_first() },
                );
            }
            assert forall|b: int| pris_below(levels, b) implies #[trigger] pris_below(levels2, b) by {
                assert forall|li: int, qi: int|
                    0 <= li < levels2.len() && 0 <= qi < levels2[li].queue.len() implies #[trigger] levels2[li].queue[qi].priority
                    < b by {
                    if lvl.queue.len() == 1 {
                        assert(levels2[li] == levels[li + 1]);
                    } else {
                        if li == 0 {
                            assert(levels2[0].queue[qi] == levels[0].queue[qi + 1]);
                        } else {
                            assert(levels2[li] == levels[li]);
                        }
                    }
                }
            }
            assert forall|id: int| #[trigger] side_has_id(levels2, id) implies side_has_id(
                levels,
                id,
            ) by {
                lemma_side_has_id_pop(levels, id);
            }
            assert forall|li: int| 0 <= li < levels2.len() implies exists|lj: int|
                0 <= lj < levels.len() && levels[lj].price == #[trigger] levels2[li].price by {
                if lvl.queue.len() == 1 {
                    assert(levels[li + 1].price == levels2[li].price);
                } else {
                    assert(levels[li].price == levels2[li].price);
                }
            }
            if taker2.remaining_quantity == 0 {
                assert(m.trades =~= seq![tr]);
                assert(m.trades[0] == tr);
                assert(m.trades.drop_first() =~= Seq::<TradeV>::empty());
                assert(trades_qty_sum(Seq::<TradeV>::empty()) == 0);
                assert(trades_qty_sum(m.trades) == fill);
            } else {
                lemma_match_rec_props(levels2, taker2, tid + 1);
                let m2 = match_rec(levels2, taker2, tid + 1);
                assert(m.trades =~= seq![tr] + m2.trades);
                assert(m.trades.drop_first() =~= m2.trades);
                assert(trades_qty_sum(m.trades) == fill + trades_qty_sum(m2.trades));
                assert(m.removed =~= seq![head.order.id] + m2.removed);
                assert forall|k: int| 0 <= k < m.trades.len() implies {
                    let t = #[trigger] m.trades[k];
                    &&& t.id == tid + k
                    &&& t.symbol == taker.symbol
                    &&& t.timestamp == taker.timestamp
                    &&& t.trade_type == TradeType::Regular
                    &&& 0 < t.quantity <= MAX_UNITS
                    &&& 0 < t.price <= MAX_UNITS
                    &&& crosses(taker.side, taker.price, t.price)
                    &&& (taker.side == OrderSide::Buy ==> t.buyer_order_id == taker.id
                        && side_has_id(levels, t.seller_order_id))
                    &&& (taker.side == OrderSide::Sell ==> t.seller_order_id == taker.id
                        && side_has_id(levels, t.buyer_order_id))
                } by {
                    if k == 0 {
                        assert(m.trades[0] == tr);
                    } else {
                        assert(m.trades[k] == m2.trades[k - 1]);
                        let t = m2.trades[k - 1];
                        if taker.side == OrderSide::Buy {
                            lemma_side_has_id_pop(levels, t.seller_order_id);
                        } else {
                            lemma_side_has_id_pop(levels, t.buyer_order_id);
                        }
                    }
                }
                assert forall|k: int| 0 <= k < m.removed.len() implies side_has_id(
                    levels,
                    #[trigger] m.removed[k],
                ) by {
                    if k > 0 {
                        assert(m.removed[k] == m2.removed[k - 1]);
                        lemma_side_has_id_pop(levels, m2.removed[k - 1]);
                    }
                }
                match m.partial {
                    Some(o) => lemma_side_has_id_pop(levels, o.id),
                    None => (),
                }
                assert forall|li: int| 0 <= li < m.levels.len() implies exists|lj: int|
                    0 <= lj < levels.len() && levels[lj].price == #[trigger] m.levels[li].price by {
                    let lj2 = choose|lj2: int|
                        0 <= lj2 < levels2.len() && levels2[lj2].price == m.levels[li].price;
                    assert(exists|lj: int|
                        0 <= lj < levels.len() && levels[lj].price == levels2[lj2].price);
                }
            }
        }
    }
}

/// The mathematical value of an optional order.
pub open spec fn opt_order_view(o: Option<Order>) -> Option<OrderV> {
    match o {
        Some(x) => Some(x@),
        None => None,
    }
}

/// A field-by-field copy of an order, equal to the original in value.
pub(crate) fn copy_order(o: &Order) -> (r: Order)
    ensures
        r@ == o@,
{
    let r = Order {
        id: o.id,
        client_order_id: o.client_order_id.clone(),
        symbol: o.symbol.clone(),
        side: o.side,
        order_type: o.order_type,
        quantity: o.quantity,
        price: o.price,
        filled_quantity: o.filled_quantity,
        remaining_quantity: o.remaining_quantity,
        status: o.status,
        timestamp: o.timestamp,
        user_id: o.user_id,
        account_id: o.account_id,
        time_in_force: o.time_in_force,
    };
    proof {
        assert(r@ =~= o@);
    }
    r
}

/// The executable matching walk. It mutates the opposite side's levels and
/// the aggressor in place, appends the produced trades and the ids of fully
/// filled (removed) resting orders, records the partially filled resting
/// order if one was left, and is proved to compute exactly [`match_rec`].
fn match_against(
    levels: &mut Vec<PriceLevelQueue>,
    taker: &mut Order,
    trades: &mut Vec<Trade>,
    removed: &mut Vec<u128>,
    partial: &mut Option<Order>,
    tid: u128,
)
    requires
        side_wf(side_view(old(levels)@), old(taker)@.symbol, opposite(old(taker).side)),
        old(taker)@.accounting_ok(),
        old(taker)@.price_ok(),
        *old(partial) is None,
        tid as int + total_entries(side_view(old(levels)@)) <= u128::MAX as int,
    ensures
        ({
            let m = match_rec(side_view(old(levels)@), old(taker)@, tid as int);
            &&& side_view(final(levels)@) == m.levels
            &&& final(taker)@ == m.taker
            &&& final(trades)@.map_values(|t: Trade| t@) == old(trades)@.map_values(|t: Trade| t@)
                + m.trades
            &&& final(removed)@.map_values(|r: u128| r as int) == old(removed)@.map_values(
                |r: u128| r as int,
            ) + m.removed
            &&& opt_order_view(*final(partial)) == m.partial
        }),
    decreases levels@.len(), first_queue_len(side_view(levels@)),
{
    let ghost m = match_rec(side_view(levels@), (*taker)@, tid as int);
    let ghost f_tr = |t: Trade| t@;
    let ghost f_rm = |r: u128| r as int;
    if levels.len() == 0 || taker.remaining_quantity <= 0 {
        proof {
            assert(final(trades)@.map_values(f_tr) =~= old(trades)@.map_values(f_tr) + m.trades);
            assert(final(removed)@.map_values(f_rm) =~= old(removed)@.map_values(f_rm) + m.removed);
        }
        return ;
    }
    let lvl_price = levels[0].price;
    proof {
        assert(side_view(levels@)[0] == levels@[0]@);
    }
    let does_cross = match taker.price {
        None => true,
        Some(l) => match taker.side {
            OrderSide::Buy => lvl_price <= l,
            OrderSide::Sell => lvl_price >= l,
        },
    };
    if !does_cross {
        proof {
            assert(!crosses(old(taker)@.side, old(taker)@.price, side_view(levels@)[0].price));
            assert(final(trades)@.map_values(f_tr) =~= old(trades)@.map_values(f_tr) + m.trades);
            assert(final(removed)@.map_values(f_rm) =~= old(removed)@.map_values(f_rm) + m.removed);
        }
        return ;
    }
    proof {
        assert(level_wf(side_view(levels@)[0], old(taker)@.symbol, opposite(old(taker).side)));
    }
    let ghost levels0 = side_view(levels@);
    let mut lvl = levels.remove(0);
    let head_opt = lvl.orders.pop_front();
    let mut head = head_opt.unwrap();
    proof {
        assert(head@ == levels0[0].queue[0]);
        assert(entry_wf(levels0[0].queue[0], old(taker)@.symbol, opposite(old(taker).side), levels0[0].price));
    }
    let fill = if taker.remaining_quantity <= head.order.remaining_quantity {
        taker.remaining_quantity
    } else {
        head.order.remaining_quantity
    };
    let tr = Trade {
        id: tid,
        symbol: taker.symbol.clone(),
        buyer_order_id: match taker.side {
            OrderSide::Buy => taker.id,
            OrderSide::Sell => head.order.id,
        },
        seller_order_id: match taker.side {
            OrderSide::Buy => head.order.id,
            OrderSide::Sell => taker.id,
        },
        quantity: fill,
        price: lvl.price,
        timestamp: taker.timestamp,
        trade_type: TradeType::Regular,
    };
    proof {
        assert(tr@ =~= mk_trade(old(taker)@, levels0[0].queue[0].order, fill as int, levels0[0].price, tid as int));
    }
    taker.filled_quantity = taker.filled_quantity + fill;
    taker.remaining_quantity = taker.remaining_quantity - fill;
    taker.status = if taker.remaining_quantity == 0 {
        OrderStatus::Filled
    } else {
        OrderStatus::PartiallyFilled
    };
    head.order.filled_quantity = head.order.filled_quantity + fill;
    head.order.remaining_quantity = head.order.remaining_quantity - fill;
    head.order.status = if head.order.remaining_quantity == 0 {
        OrderStatus::Filled
    } else {
        OrderStatus::PartiallyFilled
    };
    proof {
        assert((*taker)@ =~= fill_applied(old(taker)@, fill as int));
        assert(head@.order =~= fill_applied(levels0[0].queue[0].order, fill as int));
    }
    trades.push(tr);
    if head.order.remaining_quantity > 0 {
        let snapshot = copy_order(&head.order);
        *partial = Some(snapshot);
        lvl.orders.push_front(head);
        levels.insert(0, lvl);
        proof {
            let lvl2 = LevelV {
                price: levels0[0].price,
                queue: levels0[0].queue.update(
                    0,
                    BookEntryV {
                        order: fill_applied(levels0[0].queue[0].order, fill as int),
                        priority: levels0[0].queue[0].priority,
                    },
                ),
            };
            assert(lvl@.queue =~= lvl2.queue);
            assert(lvl@ =~= lvl2);
            assert(side_view(final(levels)@) =~= levels0.update(0, lvl2));
            assert(final(trades)@.map_values(f_tr) =~= old(trades)@.map_values(f_tr) + m.trades);
            assert(final(removed)@.map_values(f_rm) =~= old(removed)@.map_values(f_rm) + m.removed);
        }
        return ;
    }
    removed.push(head.order.id);
    let ghost removed_id = head.order.id as int;
    if lvl.orders.len() > 0 {
        levels.insert(0, lvl);
    }
    proof {
        let lvl2 = LevelV { price: levels0[0].price, queue: levels0[0].queue.drop_first() };
        if levels0[0].queue.len() == 1 {
            assert(side_view(levels@) =~= levels0.drop_first());
        } else {
            assert(lvl@.queue =~= lvl2.queue);
            assert(side_view(levels@) =~= levels0.update(0, lvl2));
        }
        lemma_side_wf_after_pop(levels0, old(taker)@.symbol, opposite(old(taker).side));
        if levels0[0].queue.len() == 1 {
            lemma_total_entries_nonneg(levels0.drop_first());
            assert(total_entries(levels0) == levels0[0].queue.len() + total_entries(levels0.drop_first()));
        } else {
            lemma_total_entries_update0(levels0, lvl2);
            lemma_total_entries_nonneg(side_view(levels@));
        }
    }
    if taker.remaining_quantity == 0 {
        proof {
            assert(final(trades)@.map_values(f_tr) =~= old(trades)@.map_values(f_tr) + m.trades);
            assert(final(removed)@.map_values(f_rm) =~= old(removed)@.map_values(f_rm) + m.removed);
        }
        return ;
    }
    let ghost levels_mid = side_view(levels@);
    let ghost taker_mid = (*taker)@;
    let ghost trades_mid = trades@;
    let ghost removed_mid = removed@;
    let ghost m2 = match_rec(levels_mid, taker_mid, tid as int + 1);
    match_against(levels, taker, trades, removed, partial, tid + 1);
    proof {
        assert(m.trades =~= seq![tr@] + m2.trades);
        assert(m.removed =~= seq![removed_id] + m2.removed);
        assert(m.levels == m2.levels);
        assert(m.taker == m2.taker);
        assert(trades_mid.map_values(f_tr) =~= old(trades)@.map_values(f_tr) + seq![tr@]);
        assert(final(trades)@.map_values(f_tr) =~= old(trades)@.map_values(f_tr) + m.trades);
        assert(removed_mid.map_values(f_rm) =~= old(removed)@.map_values(f_rm) + seq![removed_id]);
        assert(final(removed)@.map_values(f_rm) =~= old(removed)@.map_values(f_rm) + m.removed);
    }
}

/// Position at which a level with price `price` belongs on a side stored
/// best price first: the number of levels with strictly better prices.
pub open spec fn insert_pos(levels: Seq<LevelV>, price: int, side: OrderSide) -> int
    decreases levels.len(),
{
    if levels.len() == 0 {
        0
    } else if strictly_better(side, levels[0].price, price) {
        1 + insert_pos(levels.drop_first(), price, side)
    } else {
        0
    }
}

/// One side of the book after a new resting entry arrives at `price`: it
/// joins the back of the existing level's queue, or opens a new level at the
/// sorted position.
pub open spec fn insert_into_side(levels: Seq<LevelV>, e: BookEntryV, price: int, side: OrderSide) -> Seq<LevelV> {
    let i = insert_pos(levels, price, side);
    if i < levels.len() && levels[i].price == price {
        levels.update(i, LevelV { price: price, queue: levels[i].queue.push(e) })
    } else {
        levels.insert(i, LevelV { price: price, queue: seq![e] })
    }
}

proof fn lemma_insert_pos_props(levels: Seq<LevelV>, price: int, side: OrderSide)
    ensures
        0 <= insert_pos(levels, price, side) <= levels.len(),
        forall|j: int|
            0 <= j < insert_pos(levels, price, side) ==> strictly_better(
                side,
                #[trigger] levels[j].price,
                price,
            ),
        insert_pos(levels, price, side) < levels.len() ==> !strictly_better(
            side,
            levels[insert_pos(levels, price, side)].price,
            price,
        ),
    decreases levels.len(),
{
    if levels.len() > 0 && strictly_better(side, levels[0].price, price) {
        lemma_insert_pos_props(levels.drop_first(), price, side);
        let p1 = insert_pos(levels.drop_first(), price, side);
        assert forall|j: int| 0 <= j < 1 + p1 implies strictly_better(
            side,
            #[trigger] levels[j].price,
            price,
        ) by {
            if j > 0 {
                assert(levels.drop_first()[j - 1] == levels[j]);
            }
        }
        if 1 + p1 < levels.len() {
            assert(levels.drop_first()[p1] == levels[p1 + 1]);
        }
    }
}

proof fn lemma_pos_unique(levels: Seq<LevelV>, price: int, side: OrderSide, i: int)
    requires
        0 <= i <= levels.len(),
        forall|j: int| 0 <= j < i ==> strictly_better(side, #[trigger] levels[j].price, price),
        i < levels.len() ==> !strictly_better(side, levels[i].price, price),
    ensures
        insert_pos(levels, price, side) == i,
    decreases levels.len(),
{
    if levels.len() > 0 {
        if i == 0 {
        } else {
            assert(strictly_better(side, levels[0].price, price));
            let d = levels.drop_first();
            assert forall|j: int| 0 <= j < i - 1 implies strictly_better(
                side,
                #[trigger] d[j].price,
                price,
            ) by {
                assert(d[j] == levels[j + 1]);
            }
            if i - 1 < d.len() {
                assert(d[i - 1] == levels[i]);
            }
            lemma_pos_unique(d, price, side, i - 1);
        }
    }
}

proof fn lemma_total_entries_update(levels: Seq<LevelV>, i: int, lvl2: LevelV)
    requires
        0 <= i < levels.len(),
    ensures
        total_entries(levels.update(i, lvl2)) == total_entries(levels) - levels[i].queue.len()
            + lvl2.queue.len(),
    decreases i,
{
    if i == 0 {
        lemma_total_entries_update0(levels, lvl2);
    } else {
        lemma_total_entries_update(levels.drop_first(), i - 1, lvl2);
        assert(levels.update(i, lvl2).drop_first() =~= levels.drop_first().update(i - 1, lvl2));
        assert(levels.drop_first()[i - 1] == levels[i]);
    }
}

proof fn lemma_total_entries_insert(levels: Seq<LevelV>, i: int, lvl: LevelV)
    requires
        0 <= i <= levels.len(),
    ensures
        total_entries(levels.insert(i, lvl)) == total_entries(levels) + lvl.queue.len(),
    decreases i,
{
    if i == 0 {
        assert(levels.insert(0, lvl).drop_first() =~= levels);
        assert(levels.insert(0, lvl)[0] == lvl);
    } else {
        lemma_total_entries_insert(levels.drop_first(), i - 1, lvl);
        assert(levels.insert(i, lvl).drop_first() =~= levels.drop_first().insert(i - 1, lvl));
        assert(levels.insert(i, lvl)[0] == levels[0]);
    }
}

/// Inserting a fresh entry at its sorted position preserves side
/// well-formedness, bounds, and counts.
proof fn lemma_insert_side_wf(
    levels: Seq<LevelV>,
    e: BookEntryV,
    price: int,
    side: OrderSide,
    symbol: Seq<char>,
)
    requires
        side_wf(levels, symbol, side),
        entry_wf(e, symbol, side, price),
        0 < price <= MAX_UNITS,
        pris_below(levels, e.priority),
    ensures
        ({
            let r = insert_into_side(levels, e, price, side);
            &&& side_wf(r, symbol, side)
            &&& pris_below(r, e.priority + 1)
            &&& total_entries(r) == total_entries(levels) + 1
            &&& (forall|id: int|
                #[trigger] side_has_id(r, id) <==> side_has_id(levels, id) || id == e.order.id)
            &&& (forall|li: int|
                0 <= li < r.len() ==> (#[trigger] r[li].price) == price || exists|lj: int|
                    0 <= lj < levels.len() && levels[lj].price == r[li].price)
        }),
{
    lemma_insert_pos_props(levels, price, side);
    let i = insert_pos(levels, price, side);
    let r = insert_into_side(levels, e, price, side);
    if i < levels.len() && levels[i].price == price {
        let lvl2 = LevelV { price: price, queue: levels[i].queue.push(e) };
        assert(level_wf(levels[i], symbol, side));
        assert forall|q: int| 0 <= q < lvl2.queue.len() implies entry_wf(
            #[trigger] lvl2.queue[q],
            symbol,
            side,
            price,
        ) by {
            if q < lvl2.queue.len() - 1 {
                assert(lvl2.queue[q] == levels[i].queue[q]);
            }
        }
        assert forall|q1: int, q2: int| 0 <= q1 < q2 < lvl2.queue.len() implies #[trigger] lvl2.queue[q1].priority
            < #[trigger] lvl2.queue[q2].priority by {
            assert(lvl2.queue[q1] == levels[i].queue[q1]);
            if q2 < lvl2.queue.len() - 1 {
                assert(lvl2.queue[q2] == levels[i].queue[q2]);
            }
        }
        assert(level_wf(lvl2, symbol, side));
        assert forall|k: int| 0 <= k < r.len() implies level_wf(#[trigger] r[k], symbol, side) by {
            if k != i {
                assert(r[k] == levels[k]);
            }
        }
        assert forall|k1: int, k2: int| 0 <= k1 < k2 < r.len() implies strictly_better(
            side,
            #[trigger] r[k1].price,
            #[trigger] r[k2].price,
        ) by {
            assert(r[k1].price == levels[k1].price);
            assert(r[k2].price == levels[k2].price);
        }
        assert forall|li: int, qi: int|
            0 <= li < r.len() && 0 <= qi < r[li].queue.len() implies #[trigger] r[li].queue[qi].priority
            < e.priority + 1 by {
            if li == i && qi == r[li].queue.len() - 1 {
            } else if li == i {
                assert(r[li].queue[qi] == levels[i].queue[qi]);
            } else {
                assert(r[li] == levels[li]);
            }
        }
        lemma_total_entries_update(levels, i, lvl2);
        assert forall|id: int| #[trigger] side_has_id(r, id) implies side_has_id(levels, id) || id
            == e.order.id by {
            let li = choose|li: int| 0 <= li < r.len() && level_has_id(r[li], id);
            if li != i {
                assert(r[li] == levels[li]);
                assert(side_has_id(levels, id));
            } else {
                let qi = choose|qi: int| 0 <= qi < r[i].queue.len() && r[i].queue[qi].order.id == id;
                if qi < levels[i].queue.len() {
                    assert(levels[i].queue[qi].order.id == id);
                    assert(level_has_id(levels[i], id));
                    assert(side_has_id(levels, id));
                }
            }
        }
        assert forall|id: int| side_has_id(levels, id) || id == e.order.id implies #[trigger] side_has_id(
            r,
            id,
        ) by {
            if side_has_id(levels, id) {
                let li = choose|li: int| 0 <= li < levels.len() && level_has_id(levels[li], id);
                if li != i {
                    assert(r[li] == levels[li]);
                } else {
                    let qi = choose|qi: int|
                        0 <= qi < levels[i].queue.len() && levels[i].queue[qi].order.id == id;
                    assert(r[i].queue[qi].order.id == id);
                    assert(level_has_id(r[i], id));
                }
                assert(side_has_id(r, id));
            } else {
                assert(r[i].queue[r[i].queue.len() - 1] == e);
                assert(level_has_id(r[i], e.order.id));
                assert(side_has_id(r, id));
            }
        }
        assert forall|li: int| 0 <= li < r.len() implies (#[trigger] r[li].price) == price
            || exists|lj: int| 0 <= lj < levels.len() && levels[lj].price == r[li].price by {
            if li != i {
                assert(levels[li].price == r[li].price);
            }
        }
    } else {
        let lvl = LevelV { price: price, queue: seq![e] };
        assert(level_wf(lvl, symbol, side));
        assert forall|k: int| 0 <= k < r.len() implies level_wf(#[trigger] r[k], symbol, side) by {
            if k < i {
                assert(r[k] == levels[k]);
            } else if k > i {
                assert(r[k] == levels[k - 1]);
            }
        }
        assert forall|k1: int, k2: int| 0 <= k1 < k2 < r.len() implies strictly_better(
            side,
            #[trigger] r[k1].price,
            #[trigger] r[k2].price,
        ) by {
            if k1 < i && k2 == i {
                assert(r[k1] == levels[k1]);
            } else if k1 == i && k2 > i {
                assert(r[k2] == levels[k2 - 1]);
                assert(!strictly_better(side, levels[i].price, price));
                assert(levels[i].price != price);
                if k2 - 1 > i {
                    assert(strictly_better(side, levels[i].price, levels[k2 - 1].price));
                }
            } else if k1 < i && k2 > i {
                assert(r[k1] == levels[k1]);
                assert(r[k2] == levels[k2 - 1]);
                if k2 - 1 > k1 {
                    assert(strictly_better(side, levels[k1].price, levels[k2 - 1].price));
                }
            } else if k2 < i {
                assert(r[k1] == levels[k1]);
                assert(r[k2] == levels[k2]);
            } else if k1 > i {
                assert(r[k1] == levels[k1 - 1]);
                assert(r[k2] == levels[k2 - 1]);
            }
        }
        assert forall|li: int, qi: int|
            0 <= li < r.len() && 0 <= qi < r[li].queue.len() implies #[trigger] r[li].queue[qi].priority
            < e.priority + 1 by {
            if li < i {
                assert(r[li] == levels[li]);
            } else if li > i {
                assert(r[li] == levels[li - 1]);
            }
        }
        lemma_total_entries_insert(levels, i, lvl);
        assert forall|id: int| #[trigger] side_has_id(r, id) implies side_has_id(levels, id) || id
            == e.order.id by {
            let li = choose|li: int| 0 <= li < r.len() && level_has_id(r[li], id);
            if li < i {
                assert(r[li] == levels[li]);
                assert(side_has_id(levels, id));
            } else if li > i {
                assert(r[li] == levels[li - 1]);
                assert(side_has_id(levels, id));
            } else {
                let qi = choose|qi: int| 0 <= qi < r[i].queue.len() && r[i].queue[qi].order.id == id;
                assert(r[i].queue[qi] == e);
            }
        }
        assert forall|id: int| side_has_id(levels, id) || id == e.order.id implies #[trigger] side_has_id(
            r,
            id,
        ) by {
            if side_has_id(levels, id) {
                let li = choose|li: int| 0 <= li < levels.len() && level_has_id(levels[li], id);
                if li < i {
                    assert(r[li] == levels[li]);
                    assert(level_has_id(r[li], id));
                } else {
                    assert(r[li + 1] == levels[li]);
                    assert(level_has_id(r[li + 1], id));
                }
                assert(side_has_id(r, id));
            } else {
                assert(r[i].queue[0] == e);
                assert(level_has_id(r[i], e.order.id));
                assert(side_has_id(r, id));
            }
        }
        assert forall|li: int| 0 <= li < r.len() implies (#[trigger] r[li].price) == price
            || exists|lj: int| 0 <= lj < levels.len() && levels[lj].price == r[li].price by {
            if li < i {
                assert(levels[li].price == r[li].price);
            } else if li > i {
                assert(levels[li - 1].price == r[li].price);
            }
        }
    }
}

/// Both sides of one symbol's book.
#[derive(Clone, Debug)]
pub struct SymbolBook {
    pub symbol: String,
    pub bids: Vec<PriceLevelQueue>,
    pub asks: Vec<PriceLevelQueue>,
}

/// Mathematical value of a [`SymbolBook`].
#[verifier::ext_equal]
pub struct SymbolBookV {
    pub symbol: Seq<char>,
    pub bids: Seq<LevelV>,
    pub asks: Seq<LevelV>,
}

impl View for SymbolBook {
    type V = SymbolBookV;

    open spec fn view(&self) -> SymbolBookV {
        SymbolBookV { symbol: self.symbol@, bids: side_view(self.bids@), asks: side_view(self.asks@) }
    }
}

/// One row of the order index: where a resting order can be found.
#[derive(Clone, Debug)]
pub struct IndexEntry {
    pub order_id: u128,
    pub symbol: String,
    pub price: i64,
    pub side: OrderSide,
}

/// Mathematical value of an [`IndexEntry`].
#[verifier::ext_equal]
pub struct IndexEntryV {
    pub order_id: int,
    pub symbol: Seq<char>,
    pub price: int,
    pub side: OrderSide,
}

impl View for IndexEntry {
    type V = IndexEntryV;

    open spec fn view(&self) -> IndexEntryV {
        IndexEntryV {
            order_id: self.order_id as int,
            symbol: self.symbol@,
            price: self.price as int,
            side: self.side,
        }
    }
}

/// Mathematical value of a whole book list.
pub open spec fn books_view(books: Seq<SymbolBook>) -> Seq<SymbolBookV> {
    books.map_values(|b: SymbolBook| b@)
}

/// Mathematical value of the index rows.
pub open spec fn rows_view(rows: Seq<IndexEntry>) -> Seq<IndexEntryV> {
    rows.map_values(|r: IndexEntry| r@)
}

/// Mathematical value of a list of order ids.
pub open spec fn ids_view(ids: Seq<u128>) -> Seq<int> {
    ids.map_values(|x: u128| x as int)
}

/// Position of the book for `symbol`, or the number of books when absent.
pub open spec fn book_pos(books: Seq<SymbolBookV>, symbol: Seq<char>) -> int
    decreases books.len(),
{
    if books.len() == 0 {
        0
    } else if books[0].symbol == symbol {
        0
    } else {
        1 + book_pos(books.drop_first(), symbol)
    }
}

pub proof fn lemma_book_pos_unique(books: Seq<SymbolBookV>, symbol: Seq<char>, i: int)
    requires
        0 <= i <= books.len(),
        forall|j: int| 0 <= j < i ==> (#[trigger] books[j].symbol) != symbol,
        i < books.len() ==> books[i].symbol == symbol,
    ensures
        book_pos(books, symbol) == i,
    decreases books.len(),
{
    if books.len() > 0 && i > 0 {
        let d = books.drop_first();
        assert(books[0].symbol != symbol);
        assert forall|j: int| 0 <= j < i - 1 implies (#[trigger] d[j].symbol) != symbol by {
            assert(d[j] == books[j + 1]);
        }
        if i - 1 < d.len() {
            assert(d[i - 1] == books[i]);
        }
        lemma_book_pos_unique(d, symbol, i - 1);
    }
}

/// Index rows whose order id is not among `ids`, in their original order.
pub open spec fn rows_without(rows: Seq<IndexEntryV>, ids: Seq<int>) -> Seq<IndexEntryV>
    decreases rows.len(),
{
    if rows.len() == 0 {
        Seq::empty()
    } else if ids.contains(rows[0].order_id) {
        rows_without(rows.drop_first(), ids)
    } else {
        seq![rows[0]] + rows_without(rows.drop_first(), ids)
    }
}

proof fn lemma_rows_without_nil(rows: Seq<IndexEntryV>)
    ensures
        rows_without(rows, Seq::<int>::empty()) == rows,
    decreases rows.len(),
{
    if rows.len() > 0 {
        lemma_rows_without_nil(rows.drop_first());
        assert(rows_without(rows, Seq::<int>::empty()) =~= rows);
    }
}

/// No bid is priced at or above any ask; a crossed pair would have traded.
pub open spec fn book_not_crossed(b: SymbolBookV) -> bool {
    forall|bi: int, ai: int|
        0 <= bi < b.bids.len() && 0 <= ai < b.asks.len() ==> (#[trigger] b.bids[bi].price)
            < (#[trigger] b.asks[ai].price)
}

/// A symbol's book is well formed: both sides are, and they do not cross.
pub open spec fn book_wf(b: SymbolBookV) -> bool {
    &&& side_wf(b.bids, b.symbol, OrderSide::Buy)
    &&& side_wf(b.asks, b.symbol, OrderSide::Sell)
    &&& book_not_crossed(b)
}

/// Every priority in the book is strictly below `bound`.
pub open spec fn book_pris_below(b: SymbolBookV, bound: int) -> bool {
    pris_below(b.bids, bound) && pris_below(b.asks, bound)
}

/// Everything [`process_spec`] yields: the books afterwards, the trades, the
/// aggressor's final state, the removed resting ids, the partially filled
/// resting order if any, and whether the aggressor's residue was rested.
#[verifier::ext_equal]
pub struct ProcessOutcome {
    pub books: Seq<SymbolBookV>,
    pub trades: Seq<TradeV>,
    pub taker: OrderV,
    pub removed: Seq<int>,
    pub partial: Option<OrderV>,
    pub rested: bool,
}

/// One whole order submission against the books, exactly: match against the
/// opposite side of the order's symbol (an absent book matches nothing),
/// then rest the residue at its limit price, or drop it — a market order
/// never rests and its residue is cancelled.
pub open spec fn process_spec(books: Seq<SymbolBookV>, ord: OrderV, tid: int, npri: int) -> ProcessOutcome {
    let bi = book_pos(books, ord.symbol);
    let present = bi < books.len();
    let opp = if present {
        if ord.side == OrderSide::Buy {
            books[bi].asks
        } else {
            books[bi].bids
        }
    } else {
        Seq::empty()
    };
    let m = match_rec(opp, ord, tid);
    let books1 = if present {
        if ord.side == OrderSide::Buy {
            books.update(bi, SymbolBookV { asks: m.levels, ..books[bi] })
        } else {
            books.update(bi, SymbolBookV { bids: m.levels, ..books[bi] })
        }
    } else {
        books
    };
    if m.taker.remaining_quantity > 0 {
        match m.taker.price {
            Some(p) => {
                let e = BookEntryV { order: m.taker, priority: npri };
                let books2 = if present {
                    if ord.side == OrderSide::Buy {
                        books1.update(
                            bi,
                            SymbolBookV {
                                bids: insert_into_side(books1[bi].bids, e, p, OrderSide::Buy),
                                ..books1[bi]
                            },
                        )
                    } else {
                        books1.update(
                            bi,
                            SymbolBookV {
                                asks: insert_into_side(books1[bi].asks, e, p, OrderSide::Sell),
                                ..books1[bi]
                            },
                        )
                    }
                } else {
                    books1.push(
                        SymbolBookV {
                            symbol: ord.symbol,
                            bids: if ord.side == OrderSide::Buy {
                                seq![LevelV { price: p, queue: seq![e] }]
                            } else {
                                seq![]
                            },
                            asks: if ord.side == OrderSide::Sell {
                                seq![LevelV { price: p, queue: seq![e] }]
                            } else {
                                seq![]
                            },
                        },
                    )
                };
                ProcessOutcome {
                    books: books2,
                    trades: m.trades,
                    taker: m.taker,
                    removed: m.removed,
                    partial: m.partial,
                    rested: true,
                }
            },
            None => ProcessOutcome {
                books: books1,
                trades: m.trades,
                taker: OrderV { status: OrderStatus::Cancelled, ..m.taker },
                removed: m.removed,
                partial: m.partial,
                rested: false,
            },
        }
    } else {
        ProcessOutcome {
            books: books1,
            trades: m.trades,
            taker: m.taker,
            removed: m.removed,
            partial: m.partial,
            rested: false,
        }
    }
}

proof fn lemma_trades_qty_sum_pos(ts: Seq<TradeV>)
    requires
        forall|k: int| 0 <= k < ts.len() ==> (#[trigger] ts[k].quantity) > 0,
    ensures
        trades_qty_sum(ts) >= 0,
        ts.len() > 0 ==> trades_qty_sum(ts) > 0,
    decreases ts.len(),
{
    if ts.len() > 0 {
        let d = ts.drop_first();
        assert forall|k: int| 0 <= k < d.len() implies (#[trigger] d[k].quantity) > 0 by {
            assert(d[k] == ts[k + 1]);
        }
        lemma_trades_qty_sum_pos(d);
    }
}

/// One book under one submission: the matched side is replaced by the walk's
/// outcome and the residue, if any, is inserted on the order's own side; the
/// book stays well formed, uncrossed, and priority-bounded.
#[verifier::rlimit(100)]
pub proof fn lemma_process_book_wf(b: SymbolBookV, ord: OrderV, tid: int, npri: int)
    requires
        book_wf(b),
        book_pris_below(b, npri),
        ord.symbol == b.symbol,
        ord.fresh_for_matching(),
    ensures
        ({
            let opp = if ord.side == OrderSide::Buy {
                b.asks
            } else {
                b.bids
            };
            let m = match_rec(opp, ord, tid);
            let b1 = if ord.side == OrderSide::Buy {
                SymbolBookV { asks: m.levels, ..b }
            } else {
                SymbolBookV { bids: m.levels, ..b }
            };
            &&& book_wf(b1)
            &&& book_pris_below(b1, npri)
            &&& (m.taker.remaining_quantity > 0 ==> (m.taker.price matches Some(p) ==> {
                let e = BookEntryV { order: m.taker, priority: npri };
                let b2 = if ord.side == OrderSide::Buy {
                    SymbolBookV { bids: insert_into_side(b1.bids, e, p, OrderSide::Buy), ..b1 }
                } else {
                    SymbolBookV { asks: insert_into_side(b1.asks, e, p, OrderSide::Sell), ..b1 }
                };
                &&& entry_wf(e, b.symbol, ord.side, p)
                &&& book_wf(b2)
                &&& book_pris_below(b2, npri + 1)
            }))
        }),
{
    let opp = if ord.side == OrderSide::Buy {
        b.asks
    } else {
        b.bids
    };
    lemma_match_rec_props(opp, ord, tid);
    let m = match_rec(opp, ord, tid);
    let b1 = if ord.side == OrderSide::Buy {
        SymbolBookV { asks: m.levels, ..b }
    } else {
        SymbolBookV { bids: m.levels, ..b }
    };
    assert(pris_below(opp, npri));
    assert(pris_below(m.levels, npri));
    if ord.side == OrderSide::Buy {
        assert forall|bi2: int, ai2: int|
            0 <= bi2 < b1.bids.len() && 0 <= ai2 < b1.asks.len() implies (
        #[trigger] b1.bids[bi2].price) < (#[trigger] b1.asks[ai2].price) by {
            let lj = choose|lj: int| 0 <= lj < b.asks.len() && b.asks[lj].price == m.levels[ai2].price;
            assert(b.bids[bi2].price < b.asks[lj].price);
        }
    } else {
        assert forall|bi2: int, ai2: int|
            0 <= bi2 < b1.bids.len() && 0 <= ai2 < b1.asks.len() implies (
        #[trigger] b1.bids[bi2].price) < (#[trigger] b1.asks[ai2].price) by {
            let lj = choose|lj: int| 0 <= lj < b.bids.len() && b.bids[lj].price == m.levels[bi2].price;
            assert(b.bids[lj].price < b.asks[ai2].price);
        }
    }
    assert(book_wf(b1));
    if m.taker.remaining_quantity > 0 {
        match m.taker.price {
            Some(p) => {
                let e = BookEntryV { order: m.taker, priority: npri };
                // The residue is a well formed resting entry at its limit.
                if m.trades.len() == 0 {
                    assert(m.taker == ord);
                } else {
                    lemma_trades_qty_sum_pos(m.trades);
                    assert(m.taker.filled_quantity > 0);
                }
                assert(entry_wf(e, b.symbol, ord.side, p));
                if ord.side == OrderSide::Buy {
                    lemma_insert_side_wf(b1.bids, e, p, OrderSide::Buy, b.symbol);
                    let bids2 = insert_into_side(b1.bids, e, p, OrderSide::Buy);
                    let b2 = SymbolBookV { bids: bids2, ..b1 };
                    assert forall|bi2: int, ai2: int|
                        0 <= bi2 < b2.bids.len() && 0 <= ai2 < b2.asks.len() implies (
                    #[trigger] b2.bids[bi2].price) < (#[trigger] b2.asks[ai2].price) by {
                        if bids2[bi2].price == p {
                            assert(!crosses(ord.side, ord.price, m.levels[0].price));
                            assert(m.levels[0].price > p);
                            if ai2 > 0 {
                                assert(strictly_better(
                                    OrderSide::Sell,
                                    m.levels[0].price,
                                    m.levels[ai2].price,
                                ));
                            }
                        } else {
                            let lj = choose|lj: int|
                                0 <= lj < b1.bids.len() && b1.bids[lj].price == bids2[bi2].price;
                            assert(b1.bids[lj].price < b1.asks[ai2].price);
                        }
                    }
                    assert(book_wf(b2));
                    assert(pris_below(b2.asks, npri + 1));
                } else {
                    lemma_insert_side_wf(b1.asks, e, p, OrderSide::Sell, b.symbol);
                    let asks2 = insert_into_side(b1.asks, e, p, OrderSide::Sell);
                    let b2 = SymbolBookV { asks: asks2, ..b1 };
                    assert forall|bi2: int, ai2: int|
                        0 <= bi2 < b2.bids.len() && 0 <= ai2 < b2.asks.len() implies (
                    #[trigger] b2.bids[bi2].price) < (#[trigger] b2.asks[ai2].price) by {
                        if asks2[ai2].price == p {
                            assert(!crosses(ord.side, ord.price, m.levels[0].price));
                            assert(m.levels[0].price < p);
                            if bi2 > 0 {
                                assert(strictly_better(
                                    OrderSide::Buy,
                                    m.levels[0].price,
                                    m.levels[bi2].price,
                                ));
                            }
                        } else {
                            let lj = choose|lj: int|
                                0 <= lj < b1.asks.len() && b1.asks[lj].price == asks2[ai2].price;
                            assert(b1.bids[bi2].price < b1.asks[lj].price);
                        }
                    }
                    assert(book_wf(b2));
                    assert(pris_below(b2.bids, npri + 1));
                }
            },
            None => {},
        }
    }
}

fn string_eq(a: &String, b: &String) -> (r: bool)
    ensures
        r == (a@ == b@),
{
    a.eq(b)
}

pub(crate) fn find_book_from(books: &Vec<SymbolBook>, symbol: &String, i: usize) -> (r: Option<usize>)
    requires
        i <= books@.len(),
        forall|j: int| 0 <= j < i ==> (#[trigger] books_view(books@)[j].symbol) != symbol@,
    ensures
        match r {
            Some(k) => {
                &&& (k as int) < books@.len()
                &&& books_view(books@)[k as int].symbol == symbol@
                &&& forall|j: int| 0 <= j < k ==> (#[trigger] books_view(books@)[j].symbol) != symbol@
            },
            None => forall|j: int|
                0 <= j < books@.len() ==> (#[trigger] books_view(books@)[j].symbol) != symbol@,
        },
    decreases books@.len() - i,
{
    if i < books.len() {
        if string_eq(&books[i].symbol, symbol) {
            Some(i)
        } else {
            find_book_from(books, symbol, i + 1)
        }
    } else {
        None
    }
}

fn count_entries_from(levels: &Vec<PriceLevelQueue>, i: usize) -> (r: Option<u128>)
    requires
        i <= levels@.len(),
    ensures
        match r {
            Some(c) => c as int == total_entries(side_view(levels@).skip(i as int)),
            None => total_entries(side_view(levels@).skip(i as int)) > u128::MAX as int,
        },
    decreases levels@.len() - i,
{
    if i == levels.len() {
        proof {
            assert(side_view(levels@).skip(i as int) =~= Seq::<LevelV>::empty());
        }
        Some(0)
    } else {
        let rest = count_entries_from(levels, i + 1);
        proof {
            let s = side_view(levels@).skip(i as int);
            assert(s.drop_first() =~= side_view(levels@).skip(i as int + 1));
            assert(s[0] == levels@[i as int]@);
            lemma_total_entries_nonneg(s.drop_first());
        }
        match rest {
            None => None,
            Some(c) => {
                let here = levels[i].orders.len() as u128;
                here.checked_add(c)
            },
        }
    }
}

fn ids_contain_from(ids: &Vec<u128>, id: u128, i: usize) -> (r: bool)
    requires
        i <= ids@.len(),
        forall|j: int| 0 <= j < i ==> ids@[j] != id,
    ensures
        r == ids_view(ids@).contains(id as int),
    decreases ids@.len() - i,
{
    if i < ids.len() {
        if ids[i] == id {
            proof {
                assert(ids_view(ids@)[i as int] == id as int);
            }
            true
        } else {
            ids_contain_from(ids, id, i + 1)
        }
    } else {
        proof {
            if ids_view(ids@).contains(id as int) {
                let j = choose|j: int| 0 <= j < ids_view(ids@).len() && ids_view(ids@)[j] == id as int;
                assert(ids@[j] != id);
                assert(ids@[j] as int == id as int);
            }
        }
        false
    }
}

fn rows_without_from(rows: &Vec<IndexEntry>, ids: &Vec<u128>, i: usize) -> (r: Vec<IndexEntry>)
    requires
        i <= rows@.len(),
    ensures
        rows_view(r@) == rows_without(rows_view(rows@).skip(i as int), ids_view(ids@)),
    decreases rows@.len() - i,
{
    if i == rows.len() {
        proof {
            assert(rows_view(rows@).skip(i as int) =~= Seq::<IndexEntryV>::empty());
        }
        Vec::new()
    } else {
        let mut rest = rows_without_from(rows, ids, i + 1);
        let keep = !ids_contain_from(ids, rows[i].order_id, 0);
        proof {
            let s = rows_view(rows@).skip(i as int);
            assert(s.drop_first() =~= rows_view(rows@).skip(i as int + 1));
            assert(s[0] == rows@[i as int]@);
        }
        if keep {
            let e = IndexEntry {
                order_id: rows[i].order_id,
                symbol: rows[i].symbol.clone(),
                price: rows[i].price,
                side: rows[i].side,
            };
            proof {
                assert(e@ =~= rows@[i as int]@);
            }
            rest.insert(0, e);
            proof {
                assert(rows_view(rest@) =~= rows_without(
                    rows_view(rows@).skip(i as int),
                    ids_view(ids@),
                ));
            }
        }
        rest
    }
}

/// Remove every index row whose order id occurs in `ids`.
fn remove_index_rows(rows: &mut Vec<IndexEntry>, ids: &Vec<u128>)
    ensures
        rows_view(final(rows)@) == rows_without(rows_view(old(rows)@), ids_view(ids@)),
{
    let filtered = rows_without_from(rows, ids, 0);
    proof {
        assert(rows_view(rows@).skip(0) =~= rows_view(rows@));
    }
    *rows = filtered;
}

fn find_level_pos(levels: &Vec<PriceLevelQueue>, price: i64, side: OrderSide, i: usize) -> (r: usize)
    requires
        i <= levels@.len(),
        forall|j: int|
            0 <= j < i ==> strictly_better(side, #[trigger] side_view(levels@)[j].price, price as int),
    ensures
        i <= r <= levels@.len(),
        forall|j: int|
            0 <= j < r ==> strictly_better(side, #[trigger] side_view(levels@)[j].price, price as int),
        (r as int) < levels@.len() ==> !strictly_better(
            side,
            side_view(levels@)[r as int].price,
            price as int,
        ),
    decreases levels@.len() - i,
{
    if i < levels.len() {
        let better = match side {
            OrderSide::Buy => levels[i].price > price,
            OrderSide::Sell => levels[i].price < price,
        };
        if better {
            find_level_pos(levels, price, side, i + 1)
        } else {
            i
        }
    } else {
        i
    }
}

/// Insert one resting entry at `price` on one side of the book, keeping the
/// best-first order; exactly [`insert_into_side`].
fn insert_level_entry(levels: &mut Vec<PriceLevelQueue>, entry: BookEntry, price: i64, side: OrderSide)
    requires
        entry.order.price == Some(price),
    ensures
        side_view(final(levels)@) == insert_into_side(
            side_view(old(levels)@),
            entry@,
            price as int,
            side,
        ),
{
    let ghost levels0 = side_view(levels@);
    let i = find_level_pos(levels, price, side, 0);
    proof {
        lemma_pos_unique(levels0, price as int, side, i as int);
    }
    if i < levels.len() && levels[i].price == price {
        let mut lvl = levels.remove(i);
        lvl.orders.push_back(entry);
        levels.insert(i, lvl);
        proof {
            assert(side_view(levels@) =~~= levels0.update(
                i as int,
                LevelV { price: price as int, queue: levels0[i as int].queue.push(entry@) },
            ));
        }
    } else {
        let mut q: VecDeque<BookEntry> = VecDeque::new();
        q.push_back(entry);
        let lvl = PriceLevelQueue { price: price, orders: q };
        proof {
            assert(lvl@.queue =~= seq![entry@]);
        }
        levels.insert(i, lvl);
        proof {
            assert(side_view(levels@) =~~= levels0.insert(
                i as int,
                LevelV { price: price as int, queue: seq![entry@] },
            ));
        }
    }
}

/// Ranges of the trades of one submission: every trade's quantity and
/// price are positive and in range, its symbol and timestamp are the
/// aggressor's, and the aggressor's identity survives.
pub proof fn lemma_process_trade_ranges(books: Seq<SymbolBookV>, ord: OrderV, tid: int, npri: int)
    requires
        forall|i: int| 0 <= i < books.len() ==> book_wf(#[trigger] books[i]),
        ord.fresh_for_matching(),
    ensures
        ({
            let p = process_spec(books, ord, tid, npri);
            &&& (forall|k: int|
                0 <= k < p.trades.len() ==> {
                    let t = #[trigger] p.trades[k];
                    &&& 0 < t.quantity <= MAX_UNITS
                    &&& 0 < t.price <= MAX_UNITS
                    &&& t.symbol == ord.symbol
                    &&& t.timestamp == ord.timestamp
                })
            &&& p.taker == (OrderV {
                filled_quantity: p.taker.filled_quantity,
                remaining_quantity: p.taker.remaining_quantity,
                status: p.taker.status,
                ..ord
            })
            &&& (p.rested ==> p.taker.price is Some && p.taker.remaining_quantity > 0)
        }),
{
    let p = process_spec(books, ord, tid, npri);
    let bi = book_pos(books, ord.symbol);
    lemma_book_pos_props(books, ord.symbol);
    let present = bi < books.len();
    let opp = if present {
        if ord.side == OrderSide::Buy {
            books[bi].asks
        } else {
            books[bi].bids
        }
    } else {
        Seq::empty()
    };
    let m = match_rec(opp, ord, tid);
    lemma_match_rec_props(opp, ord, tid);
    assert(p.trades == m.trades);
    assert forall|k: int| 0 <= k < p.trades.len() implies {
        let t = #[trigger] p.trades[k];
        &&& 0 < t.quantity <= MAX_UNITS
        &&& 0 < t.price <= MAX_UNITS
        &&& t.symbol == ord.symbol
        &&& t.timestamp == ord.timestamp
    } by {
        let t = m.trades[k];
        assert(0 < t.quantity <= MAX_UNITS && 0 < t.price <= MAX_UNITS);
    }
}

/// Law: every resting order splits its quantity exactly between filled and
/// remaining quantity, always has something left to fill, and is `Pending`
/// or `PartiallyFilled` — for every entry of every book of a well formed
/// engine.
pub proof fn lemma_resting_order_invariants(
    e: MatchingEngine,
    bi: int,
    side: OrderSide,
    li: int,
    qi: int,
)
    requires
        e.wf(),
        0 <= bi < e.books_v().len(),
        ({
            let levels = if side == OrderSide::Buy {
                e.books_v()[bi].bids
            } else {
                e.books_v()[bi].asks
            };
            &&& 0 <= li < levels.len()
            &&& 0 <= qi < levels[li].queue.len()
        }),
    ensures
        ({
            let levels = if side == OrderSide::Buy {
                e.books_v()[bi].bids
            } else {
                e.books_v()[bi].asks
            };
            let o = levels[li].queue[qi].order;
            &&& o.filled_quantity + o.remaining_quantity == o.quantity
            &&& o.remaining_quantity > 0
            &&& (o.status == OrderStatus::Pending || o.status == OrderStatus::PartiallyFilled)
        }),
{
    assert(book_wf(e.books_v()[bi]));
    let levels = if side == OrderSide::Buy {
        e.books_v()[bi].bids
    } else {
        e.books_v()[bi].asks
    };
    assert(level_wf(levels[li], e.books_v()[bi].symbol, side));
    assert(entry_wf(levels[li].queue[qi], e.books_v()[bi].symbol, side, levels[li].price));
}

/// Law: the best bid is strictly below the best ask in every book of a
/// well formed engine — a crossed pair would have traded.
pub proof fn lemma_book_never_crossed(e: MatchingEngine, bi: int)
    requires
        e.wf(),
        0 <= bi < e.books_v().len(),
        e.books_v()[bi].bids.len() > 0,
        e.books_v()[bi].asks.len() > 0,
    ensures
        e.books_v()[bi].bids[0].price < e.books_v()[bi].asks[0].price,
{
    assert(book_wf(e.books_v()[bi]));
}

/// Law: fill accounting across one matching walk. A fresh aggressor's
/// filled quantity afterwards equals the sum of the walk's trade
/// quantities, never exceeds its original quantity, and equals it exactly
/// when (and only when) the order ends `Filled`.
pub proof fn lemma_fill_accounting(levels: Seq<LevelV>, taker: OrderV, tid: int)
    requires
        side_wf(levels, taker.symbol, opposite(taker.side)),
        taker.fresh_for_matching(),
    ensures
        ({
            let m = match_rec(levels, taker, tid);
            &&& m.taker.filled_quantity == trades_qty_sum(m.trades)
            &&& m.taker.filled_quantity <= m.taker.quantity
            &&& (m.taker.filled_quantity == m.taker.quantity <==> m.taker.status
                == OrderStatus::Filled)
        }),
{
    lemma_match_rec_props(levels, taker, tid);
    let m = match_rec(levels, taker, tid);
    if m.trades.len() == 0 {
        assert(m.taker == taker);
    }
}

/// The limit price inside an optional price, `0` when absent.
pub open spec fn some_price(p: Option<int>) -> int {
    match p {
        Some(v) => v,
        None => 0,
    }
}

/// The matching engine: per-symbol books, the order index mapping resting
/// order ids to their `(symbol, price, side)` slot, and the process-wide
/// priority and trade-id counters.
pub struct MatchingEngine {
    pub books: Vec<SymbolBook>,
    pub order_index: Vec<IndexEntry>,
    pub next_priority: u64,
    pub next_trade_id: u128,
}

impl MatchingEngine {
    /// Mathematical value of all books.
    pub open spec fn books_v(self) -> Seq<SymbolBookV> {
        books_view(self.books@)
    }

    /// The opposite-side levels an order for `symbol` on `side` matches
    /// against; empty when the symbol has no book.
    pub open spec fn opp_levels(self, symbol: Seq<char>, side: OrderSide) -> Seq<LevelV> {
        let bi = book_pos(self.books_v(), symbol);
        if bi < self.books_v().len() {
            if side == OrderSide::Buy {
                self.books_v()[bi].asks
            } else {
                self.books_v()[bi].bids
            }
        } else {
            Seq::empty()
        }
    }

    /// Engine well-formedness: every book is well formed (both sides sorted
    /// best first, entries accounted, bid and ask never crossed) and bounded
    /// by the priority counter, and no two books share a symbol.
    pub open spec fn wf(self) -> bool {
        &&& forall|i: int| 0 <= i < self.books_v().len() ==> book_wf(#[trigger] self.books_v()[i])
        &&& forall|i: int, j: int|
            0 <= i < j < self.books_v().len() ==> (#[trigger] self.books_v()[i].symbol)
                != (#[trigger] self.books_v()[j].symbol)
        &&& forall|i: int|
            0 <= i < self.books_v().len() ==> book_pris_below(
                #[trigger] self.books_v()[i],
                self.next_priority as int,
            )
    }

    /// A counter is about to run out for this submission. Unreachable in any
    /// practical run, but stated exactly: it is the only reason
    /// [`Self::process_order`] fails.
    pub open spec fn exhausted(self, ord: OrderV) -> bool {
        ||| self.next_priority == u64::MAX
        ||| (book_pos(self.books_v(), ord.symbol) < self.books_v().len() && self.next_trade_id as int
            + total_entries(self.opp_levels(ord.symbol, ord.side)) >= u128::MAX as int)
    }

    /// A fresh engine: no books, no index rows, counters at zero.
    pub fn new() -> (r: Self)
        ensures
            r.wf(),
            r.books_v() == Seq::<SymbolBookV>::empty(),
            rows_view(r.order_index@) == Seq::<IndexEntryV>::empty(),
            r.next_priority == 0,
            r.next_trade_id == 0,
    {
        let r = MatchingEngine {
            books: Vec::new(),
            order_index: Vec::new(),
            next_priority: 0,
            next_trade_id: 0,
        };
        proof {
            assert(r.books_v() =~= Seq::<SymbolBookV>::empty());
            assert(rows_view(r.order_index@) =~= Seq::<IndexEntryV>::empty());
        }
        r
    }

    /// Process one validated order: match it against the opposite side of
    /// its symbol's book, then rest or drop the residue — exactly
    /// [`process_spec`]. Returns the order's final state, the trades in
    /// execution order, the ids of fully filled resting orders, and the
    /// partially filled resting order if one was left; the index rows of
    /// removed orders are dropped and a row is appended when the residue
    /// rests.
    #[verifier::rlimit(100)]
    pub fn process_order(&mut self, order: Order) -> (r: Result<
        (Order, Vec<Trade>, Vec<u128>, Option<Order>),
        TradingError,
    >)
        requires
            old(self).wf(),
            order@.fresh_for_matching(),
        ensures
            final(self).wf(),
            ({
                let p = process_spec(
                    old(self).books_v(),
                    order@,
                    old(self).next_trade_id as int,
                    old(self).next_priority as int,
                );
                match r {
                    Ok(res) => {
                        &&& !old(self).exhausted(order@)
                        &&& final(self).books_v() == p.books
                        &&& res.0@ == p.taker
                        &&& res.1@.map_values(|t: Trade| t@) == p.trades
                        &&& ids_view(res.2@) == p.removed
                        &&& opt_order_view(res.3) == p.partial
                        &&& rows_view(final(self).order_index@) == rows_without(
                            rows_view(old(self).order_index@),
                            p.removed,
                        ) + (if p.rested {
                            seq![
                                IndexEntryV {
                                    order_id: order.id as int,
                                    symbol: order@.symbol,
                                    price: some_price(p.taker.price),
                                    side: order.side,
                                },
                            ]
                        } else {
                            Seq::<IndexEntryV>::empty()
                        })
                        &&& final(self).next_priority as int == old(self).next_priority as int + (
                        if p.rested {
                            1int
                        } else {
                            0int
                        })
                        &&& final(self).next_trade_id as int == old(self).next_trade_id as int
                            + p.trades.len()
                    },
                    Err(e) => {
                        &&& old(self).exhausted(order@)
                        &&& *final(self) == *old(self)
                        &&& e is InternalError
                    },
                }
            }),
    {
        let ghost b0 = self.books_v();
        let ghost tid0 = self.next_trade_id as int;
        let ghost npri0 = self.next_priority as int;
        let ghost p = process_spec(b0, order@, tid0, npri0);
        if self.next_priority == u64::MAX {
            return Err(TradingError::InternalError("priority counter exhausted".to_string()));
        }
        let bi_opt = find_book_from(&self.books, &order.symbol, 0);
        proof {
            match bi_opt {
                Some(bi) => lemma_book_pos_unique(b0, order@.symbol, bi as int),
                None => lemma_book_pos_unique(b0, order@.symbol, b0.len() as int),
            }
        }
        let ghost opp0 = self.opp_levels(order@.symbol, order.side);
        let ghost m = match_rec(opp0, order@, tid0);
        proof {
            lemma_match_rec_props(opp0, order@, tid0);
        }
        let mut taker = order;
        let mut trades: Vec<Trade> = Vec::new();
        let mut removed: Vec<u128> = Vec::new();
        let mut partial: Option<Order> = None;
        let tid = self.next_trade_id;
        match bi_opt {
            Some(bi) => {
                let c_opt = match taker.side {
                    OrderSide::Buy => count_entries_from(&self.books[bi].asks, 0),
                    OrderSide::Sell => count_entries_from(&self.books[bi].bids, 0),
                };
                proof {
                    assert(side_view(self.books@[bi as int].asks@).skip(0) =~= b0[bi as int].asks);
                    assert(side_view(self.books@[bi as int].bids@).skip(0) =~= b0[bi as int].bids);
                }
                let ok = match c_opt {
                    Some(c) => c < u128::MAX - tid,
                    None => false,
                };
                if !ok {
                    return Err(TradingError::InternalError("trade id space exhausted".to_string()));
                }
                let mut sb = self.books.remove(bi);
                match taker.side {
                    OrderSide::Buy => match_against(
                        &mut sb.asks,
                        &mut taker,
                        &mut trades,
                        &mut removed,
                        &mut partial,
                        tid,
                    ),
                    OrderSide::Sell => match_against(
                        &mut sb.bids,
                        &mut taker,
                        &mut trades,
                        &mut removed,
                        &mut partial,
                        tid,
                    ),
                }
                self.books.insert(bi, sb);
                proof {
                    lemma_total_entries_nonneg(m.levels);
                    assert(self.books@ =~= old(self).books@.update(bi as int, sb));
                    if order.side == OrderSide::Buy {
                        assert(sb@ =~~= (SymbolBookV { asks: m.levels, ..b0[bi as int] }));
                    } else {
                        assert(sb@ =~~= (SymbolBookV { bids: m.levels, ..b0[bi as int] }));
                    }
                    assert(trades@.map_values(|t: Trade| t@) =~= m.trades);
                    assert(ids_view(removed@) =~= m.removed);
                }
                self.next_trade_id = tid + (trades.len() as u128);
                remove_index_rows(&mut self.order_index, &removed);
            },
            None => {
                proof {
                    assert(m.trades =~= Seq::<TradeV>::empty());
                    assert(m.removed =~= Seq::<int>::empty());
                    assert(trades@.map_values(|t: Trade| t@) =~= m.trades);
                    lemma_rows_without_nil(rows_view(self.order_index@));
                }
            },
        }
        let ghost books1 = if (book_pos(b0, order@.symbol) < b0.len()) {
            if order@.side == OrderSide::Buy {
                b0.update(
                    book_pos(b0, order@.symbol),
                    SymbolBookV { asks: m.levels, ..b0[book_pos(b0, order@.symbol)] },
                )
            } else {
                b0.update(
                    book_pos(b0, order@.symbol),
                    SymbolBookV { bids: m.levels, ..b0[book_pos(b0, order@.symbol)] },
                )
            }
        } else {
            b0
        };
        proof {
            assert(self.books_v() =~~= books1);
        }
        if taker.remaining_quantity > 0 {
            match taker.price {
                Some(pv) => {
                    let pri = self.next_priority;
                    self.next_priority = pri + 1;
                    let row = IndexEntry {
                        order_id: taker.id,
                        symbol: taker.symbol.clone(),
                        price: pv,
                        side: taker.side,
                    };
                    self.order_index.push(row);
                    let entry_order = copy_order(&taker);
                    let entry = BookEntry { order: entry_order, priority: pri };
                    proof {
                        assert(entry@ =~~= (BookEntryV { order: m.taker, priority: npri0 }));
                    }
                    match bi_opt {
                        Some(bi) => {
                            let mut sb = self.books.remove(bi);
                            match taker.side {
                                OrderSide::Buy => insert_level_entry(
                                    &mut sb.bids,
                                    entry,
                                    pv,
                                    OrderSide::Buy,
                                ),
                                OrderSide::Sell => insert_level_entry(
                                    &mut sb.asks,
                                    entry,
                                    pv,
                                    OrderSide::Sell,
                                ),
                            }
                            self.books.insert(bi, sb);
                            proof {
                                if order.side == OrderSide::Buy {
                                    assert(sb@ =~~= (SymbolBookV {
                                        bids: insert_into_side(
                                            books1[bi as int].bids,
                                            BookEntryV { order: m.taker, priority: npri0 },
                                            pv as int,
                                            OrderSide::Buy,
                                        ),
                                        ..books1[bi as int]
                                    }));
                                } else {
                                    assert(sb@ =~~= (SymbolBookV {
                                        asks: insert_into_side(
                                            books1[bi as int].asks,
                                            BookEntryV { order: m.taker, priority: npri0 },
                                            pv as int,
                                            OrderSide::Sell,
                                        ),
                                        ..books1[bi as int]
                                    }));
                                }
                                assert(self.books_v() =~~= p.books);
                            }
                        },
                        None => {
                            let mut bids: Vec<PriceLevelQueue> = Vec::new();
                            let mut asks: Vec<PriceLevelQueue> = Vec::new();
                            let mut q: VecDeque<BookEntry> = VecDeque::new();
                            q.push_back(entry);
                            let lvl = PriceLevelQueue { price: pv, orders: q };
                            match taker.side {
                                OrderSide::Buy => bids.push(lvl),
                                OrderSide::Sell => asks.push(lvl),
                            }
                            let nb = SymbolBook { symbol: taker.symbol.clone(), bids, asks };
                            self.books.push(nb);
                            proof {
                                assert(self.books_v() =~~= p.books);
                            }
                        },
                    }
                },
                None => {
                    taker.status = OrderStatus::Cancelled;
                    proof {
                        assert(taker@ =~= (OrderV { status: OrderStatus::Cancelled, ..m.taker }));
                    }
                },
            }
        }
        proof {
            lemma_process_order_wf_glue(b0, order@, tid0, npri0, *self);
        }
        Ok((taker, trades, removed, partial))
    }

    /// Cancel a resting order by id, via the order index: remove its index
    /// row, take its entry out of the located book slot and prune an emptied
    /// level. Returns the removed order's state, or `None` when the index
    /// has no row for the id.
    pub fn cancel_order(&mut self, order_id: u128) -> (r: Option<Order>)
        requires
            old(self).wf(),
        ensures
            final(self).wf(),
            final(self).next_priority == old(self).next_priority,
            final(self).next_trade_id == old(self).next_trade_id,
            ({
                let rows0 = rows_view(old(self).order_index@);
                let rp = row_pos(rows0, order_id as int);
                if rp == rows0.len() {
                    &&& r is None
                    &&& *final(self) == *old(self)
                } else {
                    let row = rows0[rp];
                    let bi = book_pos(old(self).books_v(), row.symbol);
                    let located = ({
                        &&& bi < old(self).books_v().len()
                        &&& ({
                            let levels = if row.side == OrderSide::Buy {
                                old(self).books_v()[bi].bids
                            } else {
                                old(self).books_v()[bi].asks
                            };
                            let lp = insert_pos(levels, row.price, row.side);
                            &&& lp < levels.len()
                            &&& levels[lp].price == row.price
                            &&& queue_pos(levels[lp].queue, order_id as int) < levels[lp].queue.len()
                        })
                    });
                    &&& rows_view(final(self).order_index@) == rows0.remove(rp)
                    &&& (if located {
                        let levels = if row.side == OrderSide::Buy {
                            old(self).books_v()[bi].bids
                        } else {
                            old(self).books_v()[bi].asks
                        };
                        let lp = insert_pos(levels, row.price, row.side);
                        let qp = queue_pos(levels[lp].queue, order_id as int);
                        let levels2 = side_after_removal(levels, lp, qp);
                        &&& r matches Some(o) && o@ == levels[lp].queue[qp].order
                        &&& final(self).books_v() == old(self).books_v().update(
                            bi,
                            if row.side == OrderSide::Buy {
                                SymbolBookV { bids: levels2, ..old(self).books_v()[bi] }
                            } else {
                                SymbolBookV { asks: levels2, ..old(self).books_v()[bi] }
                            },
                        )
                    } else {
                        &&& r is None
                        &&& final(self).books_v() == old(self).books_v()
                    })
                }
            }),
    {
        let ghost b0 = self.books_v();
        let ghost rows0 = rows_view(self.order_index@);
        let rk_opt = find_row_from(&self.order_index, order_id, 0);
        let rk = match rk_opt {
            None => {
                proof {
                    lemma_row_pos_unique(rows0, order_id as int, rows0.len() as int);
                }
                return None;
            },
            Some(rk) => rk,
        };
        proof {
            lemma_row_pos_unique(rows0, order_id as int, rk as int);
        }
        let row_symbol = self.order_index[rk].symbol.clone();
        let row_price = self.order_index[rk].price;
        let row_side = self.order_index[rk].side;
        self.order_index.remove(rk);
        proof {
            assert(rows_view(self.order_index@) =~= rows0.remove(rk as int));
        }
        let bi = match find_book_from(&self.books, &row_symbol, 0) {
            None => {
                proof {
                    lemma_book_pos_unique(b0, rows0[rk as int].symbol, b0.len() as int);
                }
                return None;
            },
            Some(bi) => bi,
        };
        proof {
            lemma_book_pos_unique(b0, rows0[rk as int].symbol, bi as int);
        }
        let mut sb = self.books.remove(bi);
        let ghost levels0 = if row_side == OrderSide::Buy {
            b0[bi as int].bids
        } else {
            b0[bi as int].asks
        };
        let r = match row_side {
            OrderSide::Buy => remove_from_side(&mut sb.bids, row_price, row_side, order_id),
            OrderSide::Sell => remove_from_side(&mut sb.asks, row_price, row_side, order_id),
        };
        self.books.insert(bi, sb);
        proof {
            assert(self.books@ =~= old(self).books@.update(bi as int, sb));
            let lp = insert_pos(levels0, row_price as int, row_side);
            assert(book_wf(b0[bi as int]));
            assert(b0[bi as int].symbol == rows0[rk as int].symbol);
            if row_side == OrderSide::Buy {
                assert(levels0 =~~= side_view(old(self).books@[bi as int].bids@));
            } else {
                assert(levels0 =~~= side_view(old(self).books@[bi as int].asks@));
            }
            let locd = lp < levels0.len() && levels0[lp].price == row_price as int && queue_pos(
                levels0[lp].queue,
                order_id as int,
            ) < levels0[lp].queue.len();
            assert(locd || r is None);
            if r is Some {
                let qp = queue_pos(levels0[lp].queue, order_id as int);
                lemma_insert_pos_props(levels0, row_price as int, row_side);
                lemma_queue_pos_range(levels0[lp].queue, order_id as int);
                assert(lp < levels0.len() && levels0[lp].price == row_price as int && qp
                    < levels0[lp].queue.len());
                lemma_remove_entry_side_wf(
                    levels0,
                    lp,
                    qp,
                    rows0[rk as int].symbol,
                    row_side,
                );
                if row_side == OrderSide::Buy {
                    assert(sb@ =~~= (SymbolBookV {
                        bids: side_after_removal(levels0, lp, qp),
                        ..b0[bi as int]
                    }));
                } else {
                    assert(sb@ =~~= (SymbolBookV {
                        asks: side_after_removal(levels0, lp, qp),
                        ..b0[bi as int]
                    }));
                }
                assert(self.books_v() =~~= b0.update(
                    bi as int,
                    if row_side == OrderSide::Buy {
                        SymbolBookV { bids: side_after_removal(levels0, lp, qp), ..b0[bi as int] }
                    } else {
                        SymbolBookV { asks: side_after_removal(levels0, lp, qp), ..b0[bi as int] }
                    },
                ));
                lemma_cancel_wf_glue(b0, bi as int, row_side, lp, qp, *self);
            } else {
                assert(sb@ =~~= b0[bi as int]);
                assert(self.books_v() =~~= b0);
            }
        }
        r
    }

    /// The best (highest) bid price for a symbol, or `None` when no bid
    /// rests.
    pub fn get_best_bid(&self, symbol: &String) -> (r: Option<i64>)
        ensures
            ({
                let bi = book_pos(self.books_v(), symbol@);
                if bi < self.books_v().len() && self.books_v()[bi].bids.len() > 0 {
                    r matches Some(p) && p as int == self.books_v()[bi].bids[0].price
                } else {
                    r is None
                }
            }),
    {
        let ghost b0 = self.books_v();
        match find_book_from(&self.books, symbol, 0) {
            None => {
                proof {
                    lemma_book_pos_unique(b0, symbol@, b0.len() as int);
                }
                None
            },
            Some(bi) => {
                proof {
                    lemma_book_pos_unique(b0, symbol@, bi as int);
                }
                if self.books[bi].bids.len() > 0 {
                    Some(self.books[bi].bids[0].price)
                } else {
                    None
                }
            },
        }
    }

    /// The best (lowest) ask price for a symbol, or `None` when no ask
    /// rests.
    pub fn get_best_ask(&self, symbol: &String) -> (r: Option<i64>)
        ensures
            ({
                let bi = book_pos(self.books_v(), symbol@);
                if bi < self.books_v().len() && self.books_v()[bi].asks.len() > 0 {
                    r matches Some(p) && p as int == self.books_v()[bi].asks[0].price
                } else {
                    r is None
                }
            }),
    {
        let ghost b0 = self.books_v();
        match find_book_from(&self.books, symbol, 0) {
            None => {
                proof {
                    lemma_book_pos_unique(b0, symbol@, b0.len() as int);
                }
                None
            },
            Some(bi) => {
                proof {
                    lemma_book_pos_unique(b0, symbol@, bi as int);
                }
                if self.books[bi].asks.len() > 0 {
                    Some(self.books[bi].asks[0].price)
                } else {
                    None
                }
            },
        }
    }
}

fn find_row_from(rows: &Vec<IndexEntry>, id: u128, i: usize) -> (r: Option<usize>)
    requires
        i <= rows@.len(),
        forall|j: int| 0 <= j < i ==> (#[trigger] rows_view(rows@)[j].order_id) != id as int,
    ensures
        match r {
            Some(k) => {
                &&& (k as int) < rows@.len()
                &&& rows_view(rows@)[k as int].order_id == id as int
                &&& forall|j: int|
                    0 <= j < k ==> (#[trigger] rows_view(rows@)[j].order_id) != id as int
            },
            None => forall|j: int|
                0 <= j < rows@.len() ==> (#[trigger] rows_view(rows@)[j].order_id) != id as int,
        },
    decreases rows@.len() - i,
{
    if i < rows.len() {
        if rows[i].order_id == id {
            Some(i)
        } else {
            find_row_from(rows, id, i + 1)
        }
    } else {
        None
    }
}

fn find_queue_pos(q: &VecDeque<BookEntry>, id: u128, i: usize) -> (r: usize)
    requires
        i <= q@.len(),
        forall|j: int| 0 <= j < i ==> (#[trigger] q@[j])@.order.id != id as int,
    ensures
        i <= r <= q@.len(),
        queue_pos(q@.map_values(|e: BookEntry| e@), id as int) == r,
    decreases q@.len() - i,
{
    let ghost qv = q@.map_values(|e: BookEntry| e@);
    if i < q.len() {
        if q[i].order.id == id {
            proof {
                assert forall|j: int| 0 <= j < i implies (#[trigger] qv[j].order.id) != id as int by {
                    assert(qv[j] == q@[j]@);
                }
                lemma_queue_pos_unique(qv, id as int, i as int);
            }
            i
        } else {
            find_queue_pos(q, id, i + 1)
        }
    } else {
        proof {
            assert forall|j: int| 0 <= j < i implies (#[trigger] qv[j].order.id) != id as int by {
                assert(qv[j] == q@[j]@);
            }
            lemma_queue_pos_unique(qv, id as int, i as int);
        }
        i
    }
}

/// Remove the first entry carrying `id` from the level priced `price` on
/// one side, pruning the level if it empties; exactly [`side_after_removal`]
/// at the positions the specs name, or no change when nothing is located.
fn remove_from_side(levels: &mut Vec<PriceLevelQueue>, price: i64, side: OrderSide, id: u128) -> (r:
    Option<Order>)
    ensures
        ({
            let levels0 = side_view(old(levels)@);
            let lp = insert_pos(levels0, price as int, side);
            let located = lp < levels0.len() && levels0[lp].price == price as int && queue_pos(
                levels0[lp].queue,
                id as int,
            ) < levels0[lp].queue.len();
            if located {
                let qp = queue_pos(levels0[lp].queue, id as int);
                &&& r matches Some(o) && o@ == levels0[lp].queue[qp].order
                &&& side_view(final(levels)@) == side_after_removal(levels0, lp, qp)
            } else {
                &&& r is None
                &&& side_view(final(levels)@) == levels0
            }
        }),
{
    let ghost levels0 = side_view(levels@);
    let lp = find_level_pos(levels, price, side, 0);
    proof {
        lemma_pos_unique(levels0, price as int, side, lp as int);
    }
    if lp >= levels.len() || levels[lp].price != price {
        return None;
    }
    let qp = find_queue_pos(&levels[lp].orders, id, 0);
    if qp >= levels[lp].orders.len() {
        return None;
    }
    let mut lvl = levels.remove(lp);
    let removed = lvl.orders.remove(qp);
    let entry = match removed {
        Some(e) => e,
        None => {
            return None;
        },
    };
    if lvl.orders.len() > 0 {
        levels.insert(lp, lvl);
        proof {
            assert(lvl@.queue =~= levels0[lp as int].queue.remove(qp as int));
            assert(side_view(levels@) =~~= side_after_removal(levels0, lp as int, qp as int));
        }
    } else {
        proof {
            assert(side_view(levels@) =~~= side_after_removal(levels0, lp as int, qp as int));
        }
    }
    Some(entry.order)
}

/// Final engine well-formedness after a cancellation removed one entry.
proof fn lemma_cancel_wf_glue(
    b0: Seq<SymbolBookV>,
    bi: int,
    side: OrderSide,
    lp: int,
    qp: int,
    post: MatchingEngine,
)
    requires
        0 <= bi < b0.len(),
        forall|i: int| 0 <= i < b0.len() ==> book_wf(#[trigger] b0[i]),
        forall|i: int, j: int|
            0 <= i < j < b0.len() ==> (#[trigger] b0[i].symbol) != (#[trigger] b0[j].symbol),
        forall|i: int| 0 <= i < b0.len() ==> book_pris_below(#[trigger] b0[i], post.next_priority as int),
        ({
            let levels = if side == OrderSide::Buy {
                b0[bi].bids
            } else {
                b0[bi].asks
            };
            &&& 0 <= lp < levels.len()
            &&& 0 <= qp < levels[lp].queue.len()
        }),
        post.books_v() == b0.update(
            bi,
            if side == OrderSide::Buy {
                SymbolBookV { bids: side_after_removal(b0[bi].bids, lp, qp), ..b0[bi] }
            } else {
                SymbolBookV { asks: side_after_removal(b0[bi].asks, lp, qp), ..b0[bi] }
            },
        ),
    ensures
        post.wf(),
{
    let levels = if side == OrderSide::Buy {
        b0[bi].bids
    } else {
        b0[bi].asks
    };
    lemma_remove_entry_side_wf(levels, lp, qp, b0[bi].symbol, side);
    let levels2 = side_after_removal(levels, lp, qp);
    let nb = if side == OrderSide::Buy {
        SymbolBookV { bids: levels2, ..b0[bi] }
    } else {
        SymbolBookV { asks: levels2, ..b0[bi] }
    };
    assert(book_wf(b0[bi]));
    if side == OrderSide::Buy {
        assert forall|bi2: int, ai2: int|
            0 <= bi2 < nb.bids.len() && 0 <= ai2 < nb.asks.len() implies (
        #[trigger] nb.bids[bi2].price) < (#[trigger] nb.asks[ai2].price) by {
            if levels[lp].queue.len() == 1 {
                if bi2 < lp {
                    assert(nb.bids[bi2] == levels[bi2]);
                } else {
                    assert(nb.bids[bi2] == levels[bi2 + 1]);
                }
            } else {
                assert(nb.bids[bi2].price == levels[bi2].price);
            }
        }
    } else {
        assert forall|bi2: int, ai2: int|
            0 <= bi2 < nb.bids.len() && 0 <= ai2 < nb.asks.len() implies (
        #[trigger] nb.bids[bi2].price) < (#[trigger] nb.asks[ai2].price) by {
            if levels[lp].queue.len() == 1 {
                if ai2 < lp {
                    assert(nb.asks[ai2] == levels[ai2]);
                } else {
                    assert(nb.asks[ai2] == levels[ai2 + 1]);
                }
            } else {
                assert(nb.asks[ai2].price == levels[ai2].price);
            }
        }
    }
    assert(book_wf(nb));
    assert(book_pris_below(nb, post.next_priority as int));
    assert forall|i: int| 0 <= i < post.books_v().len() implies book_wf(
        #[trigger] post.books_v()[i],
    ) by {
        if i != bi {
            assert(post.books_v()[i] == b0[i]);
        }
    }
    assert forall|i: int, j: int| 0 <= i < j < post.books_v().len() implies (
    #[trigger] post.books_v()[i].symbol) != (#[trigger] post.books_v()[j].symbol) by {
        if i != bi {
            assert(post.books_v()[i] == b0[i]);
        }
        if j != bi {
            assert(post.books_v()[j] == b0[j]);
        }
        assert(post.books_v()[bi].symbol == b0[bi].symbol);
    }
    assert forall|i: int| 0 <= i < post.books_v().len() implies book_pris_below(
        #[trigger] post.books_v()[i],
        post.next_priority as int,
    ) by {
        if i != bi {
            assert(post.books_v()[i] == b0[i]);
        }
    }
}

/// Final well-formedness of the engine after one processed order, given
/// that its fields match [`process_spec`]'s outcome.
proof fn lemma_process_order_wf_glue(
    b0: Seq<SymbolBookV>,
    ord: OrderV,
    tid: int,
    npri: int,
    post: MatchingEngine,
)
    requires
        forall|i: int| 0 <= i < b0.len() ==> book_wf(#[trigger] b0[i]),
        forall|i: int, j: int|
            0 <= i < j < b0.len() ==> (#[trigger] b0[i].symbol) != (#[trigger] b0[j].symbol),
        forall|i: int| 0 <= i < b0.len() ==> book_pris_below(#[trigger] b0[i], npri),
        ord.fresh_for_matching(),
        npri < u64::MAX as int,
        post.books_v() == process_spec(b0, ord, tid, npri).books,
        post.next_priority as int == npri + (if process_spec(b0, ord, tid, npri).rested {
            1int
        } else {
            0int
        }),
    ensures
        post.wf(),
{
    let p = process_spec(b0, ord, tid, npri);
    let bi = book_pos(b0, ord.symbol);
    lemma_book_pos_props(b0, ord.symbol);
    let present = bi < b0.len();
    let opp = if present {
        if ord.side == OrderSide::Buy {
            b0[bi].asks
        } else {
            b0[bi].bids
        }
    } else {
        Seq::empty()
    };
    let m = match_rec(opp, ord, tid);
    lemma_match_rec_props(opp, ord, tid);
    let bound = post.next_priority as int;
    if present {
        lemma_process_book_wf(b0[bi], ord, tid, npri);
        let b1 = if ord.side == OrderSide::Buy {
            SymbolBookV { asks: m.levels, ..b0[bi] }
        } else {
            SymbolBookV { bids: m.levels, ..b0[bi] }
        };
        let books1 = b0.update(bi, b1);
        if m.taker.remaining_quantity > 0 && m.taker.price is Some {
            let pp = some_price(m.taker.price);
            let e = BookEntryV { order: m.taker, priority: npri };
            let b2 = if ord.side == OrderSide::Buy {
                SymbolBookV { bids: insert_into_side(b1.bids, e, pp, OrderSide::Buy), ..b1 }
            } else {
                SymbolBookV { asks: insert_into_side(b1.asks, e, pp, OrderSide::Sell), ..b1 }
            };
            assert(p.books =~~= books1.update(bi, b2));
            assert(book_wf(b2));
            assert(book_pris_below(b2, npri + 1));
            assert forall|i: int| 0 <= i < p.books.len() implies book_wf(#[trigger] p.books[i]) by {
                if i != bi {
                    assert(p.books[i] == b0[i]);
                }
            }
            assert forall|i: int, j: int| 0 <= i < j < p.books.len() implies (
            #[trigger] p.books[i].symbol) != (#[trigger] p.books[j].symbol) by {
                if i != bi {
                    assert(p.books[i] == b0[i]);
                }
                if j != bi {
                    assert(p.books[j] == b0[j]);
                }
                assert(p.books[bi].symbol == b0[bi].symbol);
            }
            assert forall|i: int| 0 <= i < p.books.len() implies book_pris_below(
                #[trigger] p.books[i],
                bound,
            ) by {
                if i != bi {
                    assert(p.books[i] == b0[i]);
                    assert(book_pris_below(b0[i], npri));
                }
            }
        } else {
            assert(p.books =~~= books1);
            assert forall|i: int| 0 <= i < p.books.len() implies book_wf(#[trigger] p.books[i]) by {
                if i != bi {
                    assert(p.books[i] == b0[i]);
                }
            }
            assert forall|i: int, j: int| 0 <= i < j < p.books.len() implies (
            #[trigger] p.books[i].symbol) != (#[trigger] p.books[j].symbol) by {
                if i != bi {
                    assert(p.books[i] == b0[i]);
                }
                if j != bi {
                    assert(p.books[j] == b0[j]);
                }
                assert(p.books[bi].symbol == b0[bi].symbol);
            }
            assert forall|i: int| 0 <= i < p.books.len() implies book_pris_below(
                #[trigger] p.books[i],
                bound,
            ) by {
                if i != bi {
                    assert(p.books[i] == b0[i]);
                }
                assert(book_pris_below(b0[i], npri));
                assert(p.books[bi] == b1);
            }
        }
    } else {
        assert(m.trades.len() == 0);
        assert(m.taker == ord);
        if m.taker.remaining_quantity > 0 && m.taker.price is Some {
            let pp = some_price(m.taker.price);
            let e = BookEntryV { order: ord, priority: npri };
            let lvl = LevelV { price: pp, queue: seq![e] };
            let nb = p.books[b0.len() as int];
            if ord.side == OrderSide::Buy {
                assert(nb =~~= (SymbolBookV {
                    symbol: ord.symbol,
                    bids: seq![lvl],
                    asks: Seq::<LevelV>::empty(),
                }));
            } else {
                assert(nb =~~= (SymbolBookV {
                    symbol: ord.symbol,
                    bids: Seq::<LevelV>::empty(),
                    asks: seq![lvl],
                }));
            }
            assert(entry_wf(e, ord.symbol, ord.side, pp));
            assert(level_wf(lvl, ord.symbol, ord.side));
            assert(book_wf(nb));
            assert(book_pris_below(nb, npri + 1));
            assert forall|i: int| 0 <= i < p.books.len() implies book_wf(#[trigger] p.books[i]) by {
                if i < b0.len() {
                    assert(p.books[i] == b0[i]);
                }
            }
            assert forall|i: int, j: int| 0 <= i < j < p.books.len() implies (
            #[trigger] p.books[i].symbol) != (#[trigger] p.books[j].symbol) by {
                if j < b0.len() {
                    assert(p.books[i] == b0[i]);
                    assert(p.books[j] == b0[j]);
                } else {
                    assert(p.books[i] == b0[i]);
                    assert(p.books[j].symbol == ord.symbol);
                    assert(b0[i].symbol != ord.symbol);
                }
            }
            assert forall|i: int| 0 <= i < p.books.len() implies book_pris_below(
                #[trigger] p.books[i],
                bound,
            ) by {
                if i < b0.len() {
                    assert(p.books[i] == b0[i]);
                    assert(book_pris_below(b0[i], npri));
                }
            }
        } else {
            assert(p.books =~= b0);
            assert(!p.rested);
            assert forall|i: int| 0 <= i < p.books.len() implies book_pris_below(
                #[trigger] p.books[i],
                bound,
            ) by {
                assert(book_pris_below(b0[i], npri));
            }
        }
    }
}

/// Position of the first index row carrying `id`, or the number of rows.
pub open spec fn row_pos(rows: Seq<IndexEntryV>, id: int) -> int
    decreases rows.len(),
{
    if rows.len() == 0 {
        0
    } else if rows[0].order_id == id {
        0
    } else {
        1 + row_pos(rows.drop_first(), id)
    }
}

proof fn lemma_row_pos_unique(rows: Seq<IndexEntryV>, id: int, i: int)
    requires
        0 <= i <= rows.len(),
        forall|j: int| 0 <= j < i ==> (#[trigger] rows[j].order_id) != id,
        i < rows.len() ==> rows[i].order_id == id,
    ensures
        row_pos(rows, id) == i,
    decreases rows.len(),
{
    if rows.len() > 0 && i > 0 {
        let d = rows.drop_first();
        assert forall|j: int| 0 <= j < i - 1 implies (#[trigger] d[j].order_id) != id by {
            assert(d[j] == rows[j + 1]);
        }
        if i - 1 < d.len() {
            assert(d[i - 1] == rows[i]);
        }
        lemma_row_pos_unique(d, id, i - 1);
    }
}

/// Position of the first entry carrying `id` in a queue, or its length.
pub open spec fn queue_pos(q: Seq<BookEntryV>, id: int) -> int
    decreases q.len(),
{
    if q.len() == 0 {
        0
    } else if q[0].order.id == id {
        0
    } else {
        1 + queue_pos(q.drop_first(), id)
    }
}

proof fn lemma_queue_pos_range(q: Seq<BookEntryV>, id: int)
    ensures
        0 <= queue_pos(q, id) <= q.len(),
    decreases q.len(),
{
    if q.len() > 0 && q[0].order.id != id {
        lemma_queue_pos_range(q.drop_first(), id);
    }
}

pub proof fn lemma_queue_pos_found(q: Seq<BookEntryV>, id: int)
    ensures
        queue_pos(q, id) < q.len() ==> q[queue_pos(q, id)].order.id == id,
        0 <= queue_pos(q, id) <= q.len(),
    decreases q.len(),
{
    if q.len() > 0 && q[0].order.id != id {
        lemma_queue_pos_found(q.drop_first(), id);
        if queue_pos(q, id) < q.len() {
            assert(q.drop_first()[queue_pos(q.drop_first(), id)] == q[queue_pos(q, id)]);
        }
    }
}

/// Every id resting after a removal was resting before it.
pub proof fn lemma_removal_ids_subset(levels: Seq<LevelV>, lp: int, qp: int)
    requires
        0 <= lp < levels.len(),
        0 <= qp < levels[lp].queue.len(),
    ensures
        forall|id: int|
            #[trigger] side_has_id(side_after_removal(levels, lp, qp), id) ==> side_has_id(
                levels,
                id,
            ),
{
    let r = side_after_removal(levels, lp, qp);
    assert forall|id: int| #[trigger] side_has_id(r, id) implies side_has_id(levels, id) by {
        let li = choose|li: int| 0 <= li < r.len() && level_has_id(r[li], id);
        let qi = choose|qi: int| 0 <= qi < r[li].queue.len() && r[li].queue[qi].order.id == id;
        if levels[lp].queue.len() == 1 {
            if li < lp {
                assert(r[li] == levels[li]);
                assert(level_has_id(levels[li], id));
            } else {
                assert(r[li] == levels[li + 1]);
                assert(level_has_id(levels[li + 1], id));
            }
        } else {
            if li != lp {
                assert(r[li] == levels[li]);
                assert(level_has_id(levels[li], id));
            } else {
                if qi < qp {
                    assert(r[lp].queue[qi] == levels[lp].queue[qi]);
                } else {
                    assert(r[lp].queue[qi] == levels[lp].queue[qi + 1]);
                }
                assert(level_has_id(levels[lp], id));
            }
        }
        assert(side_has_id(levels, id));
    }
}

proof fn lemma_queue_pos_unique(q: Seq<BookEntryV>, id: int, i: int)
    requires
        0 <= i <= q.len(),
        forall|j: int| 0 <= j < i ==> (#[trigger] q[j].order.id) != id,
        i < q.len() ==> q[i].order.id == id,
    ensures
        queue_pos(q, id) == i,
    decreases q.len(),
{
    if q.len() > 0 && i > 0 {
        let d = q.drop_first();
        assert forall|j: int| 0 <= j < i - 1 implies (#[trigger] d[j].order.id) != id by {
            assert(d[j] == q[j + 1]);
        }
        if i - 1 < d.len() {
            assert(d[i - 1] == q[i]);
        }
        lemma_queue_pos_unique(d, id, i - 1);
    }
}

/// One side of the book after the entry at queue position `qp` of level `lp`
/// leaves; an emptied level is pruned.
pub open spec fn side_after_removal(levels: Seq<LevelV>, lp: int, qp: int) -> Seq<LevelV> {
    if levels[lp].queue.len() == 1 {
        levels.remove(lp)
    } else {
        levels.update(lp, LevelV { price: levels[lp].price, queue: levels[lp].queue.remove(qp) })
    }
}

/// Removing one resting entry (and pruning its level if emptied) keeps one
/// side of the book well formed and bounded.
proof fn lemma_remove_entry_side_wf(
    levels: Seq<LevelV>,
    lp: int,
    qp: int,
    symbol: Seq<char>,
    side: OrderSide,
)
    requires
        side_wf(levels, symbol, side),
        0 <= lp < levels.len(),
        0 <= qp < levels[lp].queue.len(),
    ensures
        ({
            let r = side_after_removal(levels, lp, qp);
            &&& side_wf(r, symbol, side)
            &&& total_entries(r) == total_entries(levels) - 1
            &&& (forall|b: int| pris_below(levels, b) ==> #[trigger] pris_below(r, b))
        }),
{
    assert(level_wf(levels[lp], symbol, side));
    let r = side_after_removal(levels, lp, qp);
    if levels[lp].queue.len() == 1 {
        assert forall|i: int| 0 <= i < r.len() implies level_wf(#[trigger] r[i], symbol, side) by {
            if i < lp {
                assert(r[i] == levels[i]);
            } else {
                assert(r[i] == levels[i + 1]);
            }
        }
        assert forall|i: int, j: int| 0 <= i < j < r.len() implies strictly_better(
            side,
            #[trigger] r[i].price,
            #[trigger] r[j].price,
        ) by {
            if i < lp {
                assert(r[i] == levels[i]);
            } else {
                assert(r[i] == levels[i + 1]);
            }
            if j < lp {
                assert(r[j] == levels[j]);
            } else {
                assert(r[j] == levels[j + 1]);
            }
        }
        lemma_total_entries_remove(levels, lp);
        assert forall|b: int| pris_below(levels, b) implies #[trigger] pris_below(r, b) by {
            assert forall|li: int, qi: int|
                0 <= li < r.len() && 0 <= qi < r[li].queue.len() implies #[trigger] r[li].queue[qi].priority
                < b by {
                if li < lp {
                    assert(r[li] == levels[li]);
                } else {
                    assert(r[li] == levels[li + 1]);
                }
            }
        }
    } else {
        let lvl2 = LevelV { price: levels[lp].price, queue: levels[lp].queue.remove(qp) };
        assert forall|i: int| 0 <= i < lvl2.queue.len() implies entry_wf(
            #[trigger] lvl2.queue[i],
            symbol,
            side,
            lvl2.price,
        ) by {
            if i < qp {
                assert(lvl2.queue[i] == levels[lp].queue[i]);
            } else {
                assert(lvl2.queue[i] == levels[lp].queue[i + 1]);
            }
        }
        assert forall|i: int, j: int| 0 <= i < j < lvl2.queue.len() implies #[trigger] lvl2.queue[i].priority
            < #[trigger] lvl2.queue[j].priority by {
            if i < qp {
                assert(lvl2.queue[i] == levels[lp].queue[i]);
            } else {
                assert(lvl2.queue[i] == levels[lp].queue[i + 1]);
            }
            if j < qp {
                assert(lvl2.queue[j] == levels[lp].queue[j]);
            } else {
                assert(lvl2.queue[j] == levels[lp].queue[j + 1]);
            }
        }
        assert(level_wf(lvl2, symbol, side));
        assert forall|i: int| 0 <= i < r.len() implies level_wf(#[trigger] r[i], symbol, side) by {
            if i != lp {
                assert(r[i] == levels[i]);
            }
        }
        assert forall|i: int, j: int| 0 <= i < j < r.len() implies strictly_better(
            side,
            #[trigger] r[i].price,
            #[trigger] r[j].price,
        ) by {
            assert(r[i].price == levels[i].price);
            assert(r[j].price == levels[j].price);
        }
        lemma_total_entries_update(levels, lp, lvl2);
        assert forall|b: int| pris_below(levels, b) implies #[trigger] pris_below(r, b) by {
            assert forall|li: int, qi: int|
                0 <= li < r.len() && 0 <= qi < r[li].queue.len() implies #[trigger] r[li].queue[qi].priority
                < b by {
                if li != lp {
                    assert(r[li] == levels[li]);
                } else {
                    if qi < qp {
                        assert(r[lp].queue[qi] == levels[lp].queue[qi]);
                    } else {
                        assert(r[lp].queue[qi] == levels[lp].queue[qi + 1]);
                    }
                }
            }
        }
    }
}

proof fn lemma_total_entries_remove(levels: Seq<LevelV>, i: int)
    requires
        0 <= i < levels.len(),
    ensures
        total_entries(levels.remove(i)) == total_entries(levels) - levels[i].queue.len(),
    decreases i,
{
    if i == 0 {
        assert(levels.remove(0) =~= levels.drop_first());
    } else {
        lemma_total_entries_remove(levels.drop_first(), i - 1);
        assert(levels.remove(i).drop_first() =~= levels.drop_first().remove(i - 1));
        assert(levels.drop_first()[i - 1] == levels[i]);
        assert(levels.remove(i)[0] == levels[0]);
    }
}

pub proof fn lemma_book_pos_props(books: Seq<SymbolBookV>, symbol: Seq<char>)
    ensures
        0 <= book_pos(books, symbol) <= books.len(),
        book_pos(books, symbol) < books.len() ==> books[book_pos(books, symbol)].symbol == symbol,
        book_pos(books, symbol) == books.len() ==> forall|i: int|
            0 <= i < books.len() ==> (#[trigger] books[i].symbol) != symbol,
    decreases books.len(),
{
    if books.len() > 0 && books[0].symbol != symbol {
        let d = books.drop_first();
        lemma_book_pos_props(d, symbol);
        if book_pos(d, symbol) < d.len() {
            assert(d[book_pos(d, symbol)] == books[book_pos(d, symbol) + 1]);
        }
        if book_pos(books, symbol) == books.len() {
            assert forall|i: int| 0 <= i < books.len() implies (#[trigger] books[i].symbol)
                != symbol by {
                if i > 0 {
                    assert(d[i - 1] == books[i]);
                }
            }
        }
    }
}

} // verus!
