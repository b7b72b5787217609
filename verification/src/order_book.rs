//! Published order-book snapshots: aggregated depth per symbol, refreshed by
//! the engine after every change to the live book.

use vstd::prelude::*;

use crate::types::{MAX_UNITS, OrderBook, PriceLevel};

verus! {

/// Mathematical value of a snapshot.
#[verifier::ext_equal]
pub struct OrderBookV {
    pub symbol: Seq<char>,
    pub bids: Seq<PriceLevel>,
    pub asks: Seq<PriceLevel>,
    pub last_update: int,
}

impl View for OrderBook {
    type V = OrderBookV;

    open spec fn view(&self) -> OrderBookV {
        OrderBookV {
            symbol: self.symbol@,
            bids: self.bids@,
            asks: self.asks@,
            last_update: self.last_update as int,
        }
    }
}

/// Mathematical value of the stored snapshots.
pub open spec fn snapshots_view(bs: Seq<OrderBook>) -> Seq<OrderBookV> {
    bs.map_values(|b: OrderBook| b@)
}

/// Position of the snapshot for `symbol`, or the number of snapshots.
pub open spec fn snap_pos(bs: Seq<OrderBookV>, symbol: Seq<char>) -> int
    decreases bs.len(),
{
    if bs.len() == 0 {
        0
    } else if bs[0].symbol == symbol {
        0
    } else {
        1 + snap_pos(bs.drop_first(), symbol)
    }
}

/// Every published price is in range (so spreads fit the price type).
pub open spec fn snapshot_prices_ok(b: OrderBookV) -> bool {
    &&& forall|i: int| 0 <= i < b.bids.len() ==> 0 < (#[trigger] b.bids[i].price) <= MAX_UNITS
    &&& forall|i: int| 0 <= i < b.asks.len() ==> 0 < (#[trigger] b.asks[i].price) <= MAX_UNITS
}

fn copy_levels(v: &Vec<PriceLevel>) -> (r: Vec<PriceLevel>)
    ensures
        r@ == v@,
{
    let mut r: Vec<PriceLevel> = Vec::new();
    let mut i: usize = 0;
    while i < v.len()
        invariant
            i <= v@.len(),
            r@ == v@.take(i as int),
        decreases v@.len() - i,
    {
        r.push(v[i]);
        proof {
            assert(r@ =~= v@.take(i as int + 1));
        }
        i = i + 1;
    }
    proof {
        assert(v@.take(v@.len() as int) =~= v@);
    }
    r
}

fn copy_prefix(v: &Vec<PriceLevel>, n: usize) -> (r: Vec<PriceLevel>)
    ensures
        r@ == v@.take(if n as int <= v@.len() {
            n as int
        } else {
            v@.len() as int
        }),
{
    let m = if n <= v.len() {
        n
    } else {
        v.len()
    };
    let mut r: Vec<PriceLevel> = Vec::new();
    let mut i: usize = 0;
    while i < m
        invariant
            i <= m <= v@.len(),
            r@ == v@.take(i as int),
        decreases m - i,
    {
        r.push(v[i]);
        proof {
            assert(r@ =~= v@.take(i as int + 1));
        }
        i = i + 1;
    }
    r
}

fn string_eq(a: &String, b: &String) -> (r: bool)
    ensures
        r == (a@ == b@),
{
    a.eq(b)
}

/// The snapshot store: at most one snapshot per symbol.
pub struct OrderBookManager {
    pub order_books: Vec<OrderBook>,
}

impl OrderBookManager {
    /// Symbols are unique and every stored price is in range.
    pub open spec fn wf(self) -> bool {
        &&& forall|i: int, j: int|
            0 <= i < j < snapshots_view(self.order_books@).len() ==> (
            #[trigger] snapshots_view(self.order_books@)[i].symbol) != (
            #[trigger] snapshots_view(self.order_books@)[j].symbol)
        &&& forall|i: int|
            0 <= i < snapshots_view(self.order_books@).len() ==> snapshot_prices_ok(
                #[trigger] snapshots_view(self.order_books@)[i],
            )
    }

    /// An empty snapshot store.
    pub fn new() -> (r: Self)
        ensures
            r.wf(),
            snapshots_view(r.order_books@) == Seq::<OrderBookV>::empty(),
    {
        let r = OrderBookManager { order_books: Vec::new() };
        proof {
            assert(snapshots_view(r.order_books@) =~= Seq::<OrderBookV>::empty());
        }
        r
    }

    fn find_snap_from(&self, symbol: &String, i: usize) -> (r: Option<usize>)
        requires
            i <= self.order_books@.len(),
            forall|j: int|
                0 <= j < i ==> (#[trigger] snapshots_view(self.order_books@)[j].symbol) != symbol@,
        ensures
            match r {
                Some(k) => {
                    &&& (k as int) < self.order_books@.len()
                    &&& snapshots_view(self.order_books@)[k as int].symbol == symbol@
                    &&& snap_pos(snapshots_view(self.order_books@), symbol@) == k as int
                },
                None => snap_pos(snapshots_view(self.order_books@), symbol@)
                    == self.order_books@.len() && forall|j: int|
                    0 <= j < self.order_books@.len() ==> (#[trigger] snapshots_view(
                        self.order_books@,
                    )[j].symbol) != symbol@,
            },
        decreases self.order_books@.len() - i,
    {
        let ghost sv = snapshots_view(self.order_books@);
        if i < self.order_books.len() {
            if string_eq(&self.order_books[i].symbol, symbol) {
                proof {
                    lemma_snap_pos_unique(sv, symbol@, i as int);
                }
                Some(i)
            } else {
                self.find_snap_from(symbol, i + 1)
            }
        } else {
            proof {
                lemma_snap_pos_unique(sv, symbol@, i as int);
            }
            None
        }
    }

    /// Replace (or create) the snapshot for `symbol` with the given sides,
    /// stamped `ts`.
    pub fn update_orderbook(
        &mut self,
        symbol: String,
        bids: Vec<PriceLevel>,
        asks: Vec<PriceLevel>,
        ts: i64,
    )
        requires
            old(self).wf(),
            forall|i: int| 0 <= i < bids@.len() ==> 0 < (#[trigger] bids@[i].price) <= MAX_UNITS,
            forall|i: int| 0 <= i < asks@.len() ==> 0 < (#[trigger] asks@[i].price) <= MAX_UNITS,
        ensures
            final(self).wf(),
            ({
                let sv0 = snapshots_view(old(self).order_books@);
                let k = snap_pos(sv0, symbol@);
                let nb = OrderBookV {
                    symbol: symbol@,
                    bids: bids@,
                    asks: asks@,
                    last_update: ts as int,
                };
                snapshots_view(final(self).order_books@) == (if k < sv0.len() {
                    sv0.update(k, nb)
                } else {
                    sv0.push(nb)
                })
            }),
    {
        let ghost sv0 = snapshots_view(self.order_books@);
        let found = self.find_snap_from(&symbol, 0);
        let nb = OrderBook { symbol: symbol, bids: bids, asks: asks, last_update: ts };
        match found {
            Some(k) => {
                self.order_books.remove(k);
                self.order_books.insert(k, nb);
                proof {
                    assert(snapshots_view(self.order_books@) =~~= sv0.update(
                        snap_pos(sv0, nb.symbol@),
                        nb@,
                    ));
                }
            },
            None => {
                self.order_books.push(nb);
                proof {
                    assert(snapshots_view(self.order_books@) =~~= sv0.push(nb@));
                }
            },
        }
        proof {
            let sv1 = snapshots_view(self.order_books@);
            assert forall|i: int, j: int| 0 <= i < j < sv1.len() implies (
            #[trigger] sv1[i].symbol) != (#[trigger] sv1[j].symbol) by {
                let k = snap_pos(sv0, nb.symbol@);
                if i != k && i < sv0.len() {
                    assert(sv1[i] == sv0[i]);
                }
                if j != k && j < sv0.len() {
                    assert(sv1[j] == sv0[j]);
                }
                if k < sv0.len() {
                    if i != k && j == k {
                        assert(sv0[i].symbol != sv0[k].symbol);
                    }
                    if i == k && j != k {
                        assert(sv0[k].symbol != sv0[j].symbol);
                    }
                }
            }
            assert forall|i: int| 0 <= i < sv1.len() implies snapshot_prices_ok(
                #[trigger] sv1[i],
            ) by {
                let k = snap_pos(sv0, nb.symbol@);
                if i != k && i < sv0.len() {
                    assert(sv1[i] == sv0[i]);
                }
            }
        }
    }

    /// The stored snapshot for `symbol`, if any.
    pub fn get_orderbook(&self, symbol: &String) -> (r: Option<OrderBook>)
        ensures
            ({
                let sv = snapshots_view(self.order_books@);
                let k = snap_pos(sv, symbol@);
                if k < sv.len() {
                    r matches Some(b) && b@ == sv[k]
                } else {
                    r is None
                }
            }),
    {
        match self.find_snap_from(symbol, 0) {
            Some(k) => {
                let b = &self.order_books[k];
                let r = OrderBook {
                    symbol: b.symbol.clone(),
                    bids: copy_levels(&b.bids),
                    asks: copy_levels(&b.asks),
                    last_update: b.last_update,
                };
                proof {
                    assert(r@ =~= self.order_books@[snap_pos(
                        snapshots_view(self.order_books@),
                        symbol@,
                    )]@);
                }
                Some(r)
            },
            None => None,
        }
    }

    /// The published best bid: the first bid level's price.
    pub fn get_best_bid(&self, symbol: &String) -> (r: Option<i64>)
        ensures
            ({
                let sv = snapshots_view(self.order_books@);
                let k = snap_pos(sv, symbol@);
                if k < sv.len() && sv[k].bids.len() > 0 {
                    r matches Some(p) && p as int == sv[k].bids[0].price
                } else {
                    r is None
                }
            }),
    {
        match self.find_snap_from(symbol, 0) {
            Some(k) => {
                if self.order_books[k].bids.len() > 0 {
                    Some(self.order_books[k].bids[0].price)
                } else {
                    None
                }
            },
            None => None,
        }
    }

    /// The published best ask: the first ask level's price.
    pub fn get_best_ask(&self, symbol: &String) -> (r: Option<i64>)
        ensures
            ({
                let sv = snapshots_view(self.order_books@);
                let k = snap_pos(sv, symbol@);
                if k < sv.len() && sv[k].asks.len() > 0 {
                    r matches Some(p) && p as int == sv[k].asks[0].price
                } else {
                    r is None
                }
            }),
    {
        match self.find_snap_from(symbol, 0) {
            Some(k) => {
                if self.order_books[k].asks.len() > 0 {
                    Some(self.order_books[k].asks[0].price)
                } else {
                    None
                }
            },
            None => None,
        }
    }

    /// Best ask minus best bid, when both sides are published.
    pub fn get_spread(&self, symbol: &String) -> (r: Option<i64>)
        requires
            self.wf(),
        ensures
            ({
                let sv = snapshots_view(self.order_books@);
                let k = snap_pos(sv, symbol@);
                if k < sv.len() && sv[k].bids.len() > 0 && sv[k].asks.len() > 0 {
                    r matches Some(s) && s as int == sv[k].asks[0].price - sv[k].bids[0].price
                } else {
                    r is None
                }
            }),
    {
        match self.find_snap_from(symbol, 0) {
            Some(k) => {
                if self.order_books[k].bids.len() > 0 && self.order_books[k].asks.len() > 0 {
                    proof {
                        let b = snapshots_view(self.order_books@)[k as int];
                        assert(snapshot_prices_ok(b));
                        assert(0 < b.bids[0].price <= MAX_UNITS);
                        assert(0 < b.asks[0].price <= MAX_UNITS);
                    }
                    Some(self.order_books[k].asks[0].price - self.order_books[k].bids[0].price)
                } else {
                    None
                }
            },
            None => None,
        }
    }

    /// The top `levels` published levels of each side.
    pub fn get_market_depth(&self, symbol: &String, levels: usize) -> (r: Option<
        (Vec<PriceLevel>, Vec<PriceLevel>),
    >)
        ensures
            ({
                let sv = snapshots_view(self.order_books@);
                let k = snap_pos(sv, symbol@);
                if k < sv.len() {
                    r matches Some(d) && d.0@ == sv[k].bids.take(
                        if levels as int <= sv[k].bids.len() {
                            levels as int
                        } else {
                            sv[k].bids.len() as int
                        },
                    ) && d.1@ == sv[k].asks.take(
                        if levels as int <= sv[k].asks.len() {
                            levels as int
                        } else {
                            sv[k].asks.len() as int
                        },
                    )
                } else {
                    r is None
                }
            }),
    {
        match self.find_snap_from(symbol, 0) {
            Some(k) => {
                let bids = copy_prefix(&self.order_books[k].bids, levels);
                let asks = copy_prefix(&self.order_books[k].asks, levels);
                Some((bids, asks))
            },
            None => None,
        }
    }
}

proof fn lemma_snap_pos_unique(bs: Seq<OrderBookV>, symbol: Seq<char>, i: int)
    requires
        0 <= i <= bs.len(),
        forall|j: int| 0 <= j < i ==> (#[trigger] bs[j].symbol) != symbol,
        i < bs.len() ==> bs[i].symbol == symbol,
    ensures
        snap_pos(bs, symbol) == i,
    decreases bs.len(),
{
    if bs.len() > 0 && i > 0 {
        let d = bs.drop_first();
        assert forall|j: int| 0 <= j < i - 1 implies (#[trigger] d[j].symbol) != symbol by {
            assert(d[j] == bs[j + 1]);
        }
        if i - 1 < d.len() {
            assert(d[i - 1] == bs[i]);
        }
        lemma_snap_pos_unique(d, symbol, i - 1);
    }
}

} // verus!
