//! The position ledger: per-(account, symbol) holdings and profit-and-loss,
//! updated exactly once per trade side.
//!
//! The update rule follows the cost-basis convention: a fill that opens or
//! extends a position re-weights the average price; one that closes it to
//! zero realizes profit against the old average; one that flips the sign
//! realizes the whole closed position and re-seeds the cost basis at the
//! fill price. Division of the weighted average truncates toward zero. A
//! step whose results would leave the ledger's bounds is refused with
//! `InternalError` and is not applied; an earlier step of the same trade is
//! not rolled back.

use vstd::prelude::*;

use crate::types::{
    MAX_PNL_UNITS, MAX_POSITION_UNITS, Position, PositionV, Trade, TradingError,
};

verus! {

/// Magnitude of an integer.
pub open spec fn abs_int(x: int) -> int {
    if x >= 0 {
        x
    } else {
        0 - x
    }
}

/// Division rounding toward zero, for a strictly positive divisor.
pub open spec fn div_trunc(num: int, den: int) -> int {
    if num >= 0 {
        num / den
    } else {
        0 - ((0 - num) / den)
    }
}

/// New signed quantity after a signed fill.
pub open spec fn step_quantity(q: int, dq: int) -> int {
    q + dq
}

/// New average price: zero when the position closes; the weighted average
/// when it opens, extends or reduces without changing sign; the fill price
/// when the sign flips.
pub open spec fn step_average(q: int, avg: int, dq: int, px: int) -> int {
    let qn = q + dq;
    if qn == 0 {
        0
    } else if q == 0 || ((q > 0) == (qn > 0)) {
        div_trunc(q * avg + abs_int(dq) * px, abs_int(qn))
    } else {
        px
    }
}

/// New realized P&L: gains the closed quantity's profit against the old
/// average when the position closes or flips.
pub open spec fn step_realized(q: int, avg: int, realized: int, dq: int, px: int) -> int {
    let qn = q + dq;
    if qn == 0 {
        realized + (px - avg) * q
    } else if q == 0 || ((q > 0) == (qn > 0)) {
        realized
    } else {
        realized + (px - avg) * q
    }
}

/// The step's results stay within the ledger's bounds.
pub open spec fn step_fits(q: int, avg: int, realized: int, dq: int, px: int) -> bool {
    &&& abs_int(step_quantity(q, dq)) <= MAX_POSITION_UNITS as int
    &&& abs_int(step_average(q, avg, dq, px)) <= MAX_POSITION_UNITS as int
    &&& abs_int(step_realized(q, avg, realized, dq, px)) <= MAX_PNL_UNITS as int
}

/// Position of the first record keyed `(account_id, symbol)`, or the length.
pub open spec fn pos_key_pos(ps: Seq<PositionV>, account_id: int, symbol: Seq<char>) -> int
    decreases ps.len(),
{
    if ps.len() == 0 {
        0
    } else if ps[0].account_id == account_id && ps[0].symbol == symbol {
        0
    } else {
        1 + pos_key_pos(ps.drop_first(), account_id, symbol)
    }
}

/// The record a step starts from: the stored one, or an all-zero opening.
pub open spec fn pos_base(ps: Seq<PositionV>, account_id: int, symbol: Seq<char>) -> PositionV {
    let i = pos_key_pos(ps, account_id, symbol);
    if i < ps.len() {
        ps[i]
    } else {
        PositionV {
            symbol: symbol,
            account_id: account_id,
            quantity: 0,
            average_price: 0,
            market_value: 0,
            unrealized_pnl: 0,
            realized_pnl: 0,
            last_updated: 0,
        }
    }
}

/// The ledger after one side of a trade: the keyed record (or a fresh zero
/// record) stepped by the signed fill `(dq, px)`, with market value and
/// unrealized P&L re-marked at the fill price.
pub open spec fn ledger_apply(
    ps: Seq<PositionV>,
    account_id: int,
    symbol: Seq<char>,
    dq: int,
    px: int,
    ts: int,
) -> Seq<PositionV> {
    let i = pos_key_pos(ps, account_id, symbol);
    let b = pos_base(ps, account_id, symbol);
    let qn = step_quantity(b.quantity, dq);
    let avgn = step_average(b.quantity, b.average_price, dq, px);
    let p2 = PositionV {
        symbol: symbol,
        account_id: account_id,
        quantity: qn,
        average_price: avgn,
        market_value: qn * px,
        unrealized_pnl: (px - avgn) * qn,
        realized_pnl: step_realized(b.quantity, b.average_price, b.realized_pnl, dq, px),
        last_updated: ts,
    };
    if i < ps.len() {
        ps.update(i, p2)
    } else {
        ps.push(p2)
    }
}

/// A step of the keyed record fits the ledger's bounds.
pub open spec fn ledger_step_fits(
    ps: Seq<PositionV>,
    account_id: int,
    symbol: Seq<char>,
    dq: int,
    px: int,
) -> bool {
    let b = pos_base(ps, account_id, symbol);
    step_fits(b.quantity, b.average_price, b.realized_pnl, dq, px)
}

/// A stored record is within the ledger's bounds.
pub open spec fn pos_wf(p: PositionV) -> bool {
    &&& abs_int(p.quantity) <= MAX_POSITION_UNITS as int
    &&& abs_int(p.average_price) <= MAX_POSITION_UNITS as int
    &&& abs_int(p.realized_pnl) <= MAX_PNL_UNITS as int
}

/// The position ledger.
pub struct PositionManager {
    pub positions: Vec<Position>,
}

/// Mathematical value of the stored records.
pub open spec fn ledger_view(ps: Seq<Position>) -> Seq<PositionV> {
    ps.map_values(|p: Position| p@)
}

/// The records for one account (or all of them), in storage order.
pub open spec fn positions_filtered(ps: Seq<PositionV>, account_id: Option<int>) -> Seq<PositionV>
    decreases ps.len(),
{
    if ps.len() == 0 {
        Seq::empty()
    } else {
        let keep = match account_id {
            Some(a) => ps[0].account_id == a,
            None => true,
        };
        if keep {
            seq![ps[0]] + positions_filtered(ps.drop_first(), account_id)
        } else {
            positions_filtered(ps.drop_first(), account_id)
        }
    }
}

/// An exact sum is representable in the ledger's arithmetic type.
pub open spec fn sum_in_range(s: int) -> bool {
    i128::MIN as int <= s <= i128::MAX as int
}

/// Sum of the market values of one account's records.
pub open spec fn sum_market_value(ps: Seq<PositionV>, account_id: int) -> int
    decreases ps.len(),
{
    if ps.len() == 0 {
        0
    } else {
        (if ps[0].account_id == account_id {
            ps[0].market_value
        } else {
            0
        }) + sum_market_value(ps.drop_first(), account_id)
    }
}

/// Sums of the unrealized and realized P&L of one account's records.
pub open spec fn sum_pnl(ps: Seq<PositionV>, account_id: int) -> (int, int)
    decreases ps.len(),
{
    if ps.len() == 0 {
        (0, 0)
    } else {
        let rest = sum_pnl(ps.drop_first(), account_id);
        if ps[0].account_id == account_id {
            (ps[0].unrealized_pnl + rest.0, ps[0].realized_pnl + rest.1)
        } else {
            rest
        }
    }
}

fn copy_position(p: &Position) -> (r: Position)
    ensures
        r@ == p@,
{
    let r = Position {
        symbol: p.symbol.clone(),
        account_id: p.account_id,
        quantity: p.quantity,
        average_price: p.average_price,
        market_value: p.market_value,
        unrealized_pnl: p.unrealized_pnl,
        realized_pnl: p.realized_pnl,
        last_updated: p.last_updated,
    };
    proof {
        assert(r@ =~= p@);
    }
    r
}

impl PositionManager {
    /// Every stored record is within bounds.
    pub open spec fn wf(self) -> bool {
        forall|i: int|
            0 <= i < ledger_view(self.positions@).len() ==> pos_wf(
                #[trigger] ledger_view(self.positions@)[i],
            )
    }

    /// An empty ledger.
    pub fn new() -> (r: Self)
        ensures
            r.wf(),
            ledger_view(r.positions@) == Seq::<PositionV>::empty(),
    {
        let r = PositionManager { positions: Vec::new() };
        proof {
            assert(ledger_view(r.positions@) =~= Seq::<PositionV>::empty());
        }
        r
    }

    fn find_key_from(&self, account_id: u128, symbol: &String, i: usize) -> (r: Option<usize>)
        requires
            i <= self.positions@.len(),
            forall|j: int|
                0 <= j < i ==> !((#[trigger] self.positions@[j])@.account_id == account_id as int
                    && self.positions@[j]@.symbol == symbol@),
        ensures
            match r {
                Some(k) => {
                    &&& (k as int) < self.positions@.len()
                    &&& self.positions@[k as int]@.account_id == account_id as int
                    &&& self.positions@[k as int]@.symbol == symbol@
                    &&& pos_key_pos(ledger_view(self.positions@), account_id as int, symbol@)
                        == k as int
                },
                None => pos_key_pos(ledger_view(self.positions@), account_id as int, symbol@)
                    == self.positions@.len(),
            },
        decreases self.positions@.len() - i,
    {
        let ghost lv = ledger_view(self.positions@);
        if i < self.positions.len() {
            if self.positions[i].account_id == account_id && string_eq(
                &self.positions[i].symbol,
                symbol,
            ) {
                proof {
                    assert forall|j: int|
                        0 <= j < i implies !((#[trigger] lv[j]).account_id == account_id as int
                        && lv[j].symbol == symbol@) by {
                        assert(lv[j] == self.positions@[j]@);
                    }
                    lemma_pos_key_pos_unique(lv, account_id as int, symbol@, i as int);
                }
                Some(i)
            } else {
                self.find_key_from(account_id, symbol, i + 1)
            }
        } else {
            proof {
                assert forall|j: int|
                    0 <= j < i implies !((#[trigger] lv[j]).account_id == account_id as int
                    && lv[j].symbol == symbol@) by {
                    assert(lv[j] == self.positions@[j]@);
                }
                lemma_pos_key_pos_unique(lv, account_id as int, symbol@, i as int);
            }
            None
        }
    }

    /// Apply one signed fill to the record keyed `(account_id, symbol)`;
    /// returns whether the step fit the ledger's bounds and was applied.
    pub(crate) fn apply_side(&mut self, account_id: u128, symbol: &String, dq: i128, px: i64, ts: i64) -> (r:
        bool)
        requires
            old(self).wf(),
            -(MAX_POSITION_UNITS as int) <= dq as int <= MAX_POSITION_UNITS as int,
            0 < px as int <= crate::types::MAX_UNITS as int,
        ensures
            final(self).wf(),
            r == ledger_step_fits(
                ledger_view(old(self).positions@),
                account_id as int,
                symbol@,
                dq as int,
                px as int,
            ),
            r ==> ledger_view(final(self).positions@) == ledger_apply(
                ledger_view(old(self).positions@),
                account_id as int,
                symbol@,
                dq as int,
                px as int,
                ts as int,
            ),
            !r ==> ledger_view(final(self).positions@) == ledger_view(old(self).positions@),
    {
        let ghost lv0 = ledger_view(self.positions@);
        let found = self.find_key_from(account_id, symbol, 0);
        let (q0, avg0, real0): (i128, i128, i128) = match found {
            Some(k) => (
                self.positions[k].quantity,
                self.positions[k].average_price,
                self.positions[k].realized_pnl,
            ),
            None => (0, 0, 0),
        };
        proof {
            let b = pos_base(lv0, account_id as int, symbol@);
            assert(b.quantity == q0 as int && b.average_price == avg0 as int && b.realized_pnl
                == real0 as int);
            if found is Some {
                assert(pos_wf(lv0[pos_key_pos(lv0, account_id as int, symbol@)]));
            }
        }
        // All intermediate products fit i128: |q0|,|avg| <= 1e18, |dq| <= 1e18,
        // px <= 1e12.
        let qn: i128 = q0 + dq;
        if qn > MAX_POSITION_UNITS || qn < -MAX_POSITION_UNITS {
            return false;
        }
        let dq_abs: i128 = if dq >= 0 {
            dq
        } else {
            -dq
        };
        proof {
            lemma_mul_bounds(q0 as int, avg0 as int, 1_000_000_000_000_000_000i128 as int);
            lemma_mul_bounds(dq_abs as int, px as i128 as int, 1_000_000_000_000_000_000i128 as int);
        }
        let avgn: i128 = if qn == 0 {
            0
        } else if q0 == 0 || ((q0 > 0) == (qn > 0)) {
            let num: i128 = q0 * avg0 + dq_abs * (px as i128);
            let qn_abs: i128 = if qn >= 0 {
                qn
            } else {
                -qn
            };
            let v: i128 = if num >= 0 {
                (((num as u128) / (qn_abs as u128)) as i128)
            } else {
                -((((-num) as u128) / (qn_abs as u128)) as i128)
            };
            proof {
                lemma_u128_div(num as int, qn_abs as int);
                assert(v as int == div_trunc(num as int, qn_abs as int));
            }
            v
        } else {
            px as i128
        };
        if avgn > MAX_POSITION_UNITS || avgn < -MAX_POSITION_UNITS {
            return false;
        }
        proof {
            lemma_mul_bounds(
                (px as i128 as int) - (avg0 as int),
                q0 as int,
                2_000_000_000_000_000_000i128 as int,
            );
        }
        let realn: i128 = if qn == 0 || !(q0 == 0 || ((q0 > 0) == (qn > 0))) {
            real0 + ((px as i128) - avg0) * q0
        } else {
            real0
        };
        if realn > MAX_PNL_UNITS || realn < -MAX_PNL_UNITS {
            return false;
        }
        proof {
            lemma_mul_bounds(qn as int, px as i128 as int, 1_000_000_000_000_000_000i128 as int);
            lemma_mul_bounds(
                (px as i128 as int) - (avgn as int),
                qn as int,
                2_000_000_000_000_000_000i128 as int,
            );
        }
        let p2 = Position {
            symbol: symbol.clone(),
            account_id: account_id,
            quantity: qn,
            average_price: avgn,
            market_value: qn * (px as i128),
            unrealized_pnl: ((px as i128) - avgn) * qn,
            realized_pnl: realn,
            last_updated: ts,
        };
        match found {
            Some(k) => {
                self.positions.remove(k);
                self.positions.insert(k, p2);
                proof {
                    assert(ledger_view(self.positions@) =~~= ledger_apply(
                        lv0,
                        account_id as int,
                        symbol@,
                        dq as int,
                        px as int,
                        ts as int,
                    ));
                }
            },
            None => {
                self.positions.push(p2);
                proof {
                    assert(ledger_view(self.positions@) =~~= ledger_apply(
                        lv0,
                        account_id as int,
                        symbol@,
                        dq as int,
                        px as int,
                        ts as int,
                    ));
                }
            },
        }
        proof {
            let lv1 = ledger_view(self.positions@);
            assert forall|i: int| 0 <= i < lv1.len() implies pos_wf(#[trigger] lv1[i]) by {
                if lv1[i] != p2@ {
                    let k = pos_key_pos(lv0, account_id as int, symbol@);
                    if i != k || k >= lv0.len() {
                        assert(lv1[i] == lv0[i]);
                    }
                }
            }
        }
        true
    }

    /// Update both sides of a trade: the buyer's position gains the traded
    /// quantity and the seller's loses it, each stepped by the rule above at
    /// the trade price. A side whose step would leave the ledger's bounds is
    /// refused with `InternalError`; an already-applied buyer side stays.
    pub fn update_position(&mut self, trade: &Trade, buyer_account: u128, seller_account: u128) -> (r:
        Result<(), TradingError>)
        requires
            old(self).wf(),
            0 < trade@.quantity <= crate::types::MAX_UNITS as int,
            0 < trade@.price <= crate::types::MAX_UNITS as int,
        ensures
            final(self).wf(),
            ({
                let lv0 = ledger_view(old(self).positions@);
                let fits1 = ledger_step_fits(
                    lv0,
                    buyer_account as int,
                    trade@.symbol,
                    trade@.quantity,
                    trade@.price,
                );
                let lv1 = ledger_apply(
                    lv0,
                    buyer_account as int,
                    trade@.symbol,
                    trade@.quantity,
                    trade@.price,
                    trade@.timestamp,
                );
                let fits2 = ledger_step_fits(
                    lv1,
                    seller_account as int,
                    trade@.symbol,
                    0 - trade@.quantity,
                    trade@.price,
                );
                let lv2 = ledger_apply(
                    lv1,
                    seller_account as int,
                    trade@.symbol,
                    0 - trade@.quantity,
                    trade@.price,
                    trade@.timestamp,
                );
                &&& (r is Ok <==> fits1 && fits2)
                &&& (r is Ok ==> ledger_view(final(self).positions@) == lv2)
                &&& (r matches Err(e) ==> e is InternalError && ledger_view(
                    final(self).positions@,
                ) == (if fits1 {
                    lv1
                } else {
                    lv0
                }))
            }),
    {
        let dq: i128 = trade.quantity as i128;
        let ok1 = self.apply_side(
            buyer_account,
            &trade.symbol,
            dq,
            trade.price,
            trade.timestamp,
        );
        if !ok1 {
            return Err(TradingError::InternalError("position bounds exceeded".to_string()));
        }
        let ok2 = self.apply_side(
            seller_account,
            &trade.symbol,
            -dq,
            trade.price,
            trade.timestamp,
        );
        if !ok2 {
            return Err(TradingError::InternalError("position bounds exceeded".to_string()));
        }
        Ok(())
    }

    fn collect_from(&self, account_id: Option<u128>, i: usize) -> (r: Vec<Position>)
        requires
            i <= self.positions@.len(),
        ensures
            ledger_view(r@) == positions_filtered(
                ledger_view(self.positions@).skip(i as int),
                match account_id {
                    Some(a) => Some(a as int),
                    None => None,
                },
            ),
        decreases self.positions@.len() - i,
    {
        let ghost lv = ledger_view(self.positions@);
        if i == self.positions.len() {
            let r = Vec::new();
            proof {
                assert(lv.skip(i as int) =~= Seq::<PositionV>::empty());
                assert(ledger_view(r@) =~= Seq::<PositionV>::empty());
            }
            r
        } else {
            let mut rest = self.collect_from(account_id, i + 1);
            let keep = match account_id {
                Some(a) => self.positions[i].account_id == a,
                None => true,
            };
            proof {
                let s = lv.skip(i as int);
                assert(s[0] == self.positions@[i as int]@);
                assert(s.drop_first() =~= lv.skip(i as int + 1));
            }
            if keep {
                rest.insert(0, copy_position(&self.positions[i]));
                proof {
                    assert(ledger_view(rest@) =~= positions_filtered(
                        lv.skip(i as int),
                        match account_id {
                            Some(a) => Some(a as int),
                            None => None,
                        },
                    ));
                }
            }
            rest
        }
    }

    /// All records, or one account's records, in storage order.
    pub fn get_positions(&self, account_id: Option<u128>) -> (r: Vec<Position>)
        ensures
            ledger_view(r@) == positions_filtered(
                ledger_view(self.positions@),
                match account_id {
                    Some(a) => Some(a as int),
                    None => None,
                },
            ),
    {
        proof {
            assert(ledger_view(self.positions@).skip(0) =~= ledger_view(self.positions@));
        }
        self.collect_from(account_id, 0)
    }

    /// The record keyed `(account_id, symbol)`, if one is stored.
    pub fn get_position(&self, account_id: u128, symbol: &String) -> (r: Option<Position>)
        ensures
            ({
                let lv = ledger_view(self.positions@);
                let k = pos_key_pos(lv, account_id as int, symbol@);
                if k < lv.len() {
                    r matches Some(p) && p@ == lv[k]
                } else {
                    r is None
                }
            }),
    {
        match self.find_key_from(account_id, symbol, 0) {
            Some(k) => Some(copy_position(&self.positions[k])),
            None => None,
        }
    }

    fn sum_mv_from(&self, account_id: u128, i: usize) -> (r: Option<i128>)
        requires
            i <= self.positions@.len(),
        ensures
            ({
                let lv = ledger_view(self.positions@);
                match r {
                    Some(c) => c as int == sum_market_value(lv.skip(i as int), account_id as int),
                    None => exists|j: int|
                        i as int <= j <= lv.len() && !sum_in_range(
                            #[trigger] sum_market_value(lv.skip(j), account_id as int),
                        ),
                }
            }),
        decreases self.positions@.len() - i,
    {
        let ghost lv = ledger_view(self.positions@);
        proof {
            let s = lv.skip(i as int);
            if i < self.positions@.len() {
                assert(s[0] == self.positions@[i as int]@);
                assert(s.drop_first() =~= lv.skip(i as int + 1));
            } else {
                assert(s =~= Seq::<PositionV>::empty());
            }
        }
        if i == self.positions.len() {
            Some(0)
        } else {
            match self.sum_mv_from(account_id, i + 1) {
                None => {
                    proof {
                        let j = choose|j: int|
                            i as int + 1 <= j <= lv.len() && !sum_in_range(
                                #[trigger] sum_market_value(lv.skip(j), account_id as int),
                            );
                        assert(i as int <= j <= lv.len() && !sum_in_range(
                            sum_market_value(lv.skip(j), account_id as int),
                        ));
                    }
                    None
                },
                Some(rest) => {
                    let here: i128 = if self.positions[i].account_id == account_id {
                        self.positions[i].market_value
                    } else {
                        0
                    };
                    let r = here.checked_add(rest);
                    proof {
                        if r is None {
                            assert(!sum_in_range(
                                sum_market_value(lv.skip(i as int), account_id as int),
                            ));
                        }
                    }
                    r
                },
            }
        }
    }

    /// Total market value of one account's records; `InternalError` when the
    /// exact sum leaves `i128`.
    pub fn calculate_portfolio_value(&self, account_id: u128) -> (r: Result<i128, TradingError>)
        ensures
            ({
                let lv = ledger_view(self.positions@);
                match r {
                    Ok(c) => c as int == sum_market_value(lv, account_id as int),
                    Err(e) => e is InternalError && exists|j: int|
                        0 <= j <= lv.len() && !sum_in_range(
                            #[trigger] sum_market_value(lv.skip(j), account_id as int),
                        ),
                }
            }),
    {
        proof {
            assert(ledger_view(self.positions@).skip(0) =~= ledger_view(self.positions@));
        }
        match self.sum_mv_from(account_id, 0) {
            Some(c) => Ok(c),
            None => Err(TradingError::InternalError("portfolio value out of range".to_string())),
        }
    }

    fn sum_pnl_from(&self, account_id: u128, i: usize) -> (r: Option<(i128, i128)>)
        requires
            i <= self.positions@.len(),
        ensures
            ({
                let lv = ledger_view(self.positions@);
                match r {
                    Some(c) => c.0 as int == sum_pnl(lv.skip(i as int), account_id as int).0 && c.1
                        as int == sum_pnl(lv.skip(i as int), account_id as int).1,
                    None => exists|j: int|
                        i as int <= j <= lv.len() && !(sum_in_range(
                            #[trigger] sum_pnl(lv.skip(j), account_id as int).0,
                        ) && sum_in_range(sum_pnl(lv.skip(j), account_id as int).1)),
                }
            }),
        decreases self.positions@.len() - i,
    {
        let ghost lv = ledger_view(self.positions@);
        proof {
            let s = lv.skip(i as int);
            if i < self.positions@.len() {
                assert(s[0] == self.positions@[i as int]@);
                assert(s.drop_first() =~= lv.skip(i as int + 1));
            } else {
                assert(s =~= Seq::<PositionV>::empty());
            }
        }
        if i == self.positions.len() {
            Some((0, 0))
        } else {
            match self.sum_pnl_from(account_id, i + 1) {
                None => {
                    proof {
                        let j = choose|j: int|
                            i as int + 1 <= j <= lv.len() && !(sum_in_range(
                                #[trigger] sum_pnl(lv.skip(j), account_id as int).0,
                            ) && sum_in_range(sum_pnl(lv.skip(j), account_id as int).1));
                        assert(i as int <= j <= lv.len() && !(sum_in_range(
                            sum_pnl(lv.skip(j), account_id as int).0,
                        ) && sum_in_range(sum_pnl(lv.skip(j), account_id as int).1)));
                    }
                    None
                },
                Some(rest) => {
                    if self.positions[i].account_id == account_id {
                        let u = self.positions[i].unrealized_pnl.checked_add(rest.0);
                        let g = self.positions[i].realized_pnl.checked_add(rest.1);
                        match (u, g) {
                            (Some(u2), Some(g2)) => Some((u2, g2)),
                            _ => {
                                proof {
                                    assert(!(sum_in_range(
                                        sum_pnl(lv.skip(i as int), account_id as int).0,
                                    ) && sum_in_range(sum_pnl(lv.skip(i as int), account_id as int).1)));
                                }
                                None
                            },
                        }
                    } else {
                        Some(rest)
                    }
                },
            }
        }
    }

    /// Total `(unrealized, realized)` P&L of one account's records;
    /// `InternalError` when an exact sum leaves `i128`.
    pub fn calculate_total_pnl(&self, account_id: u128) -> (r: Result<(i128, i128), TradingError>)
        ensures
            ({
                let s = sum_pnl(ledger_view(self.positions@), account_id as int);
                match r {
                    Ok(c) => c.0 as int == s.0 && c.1 as int == s.1,
                    Err(e) => e is InternalError,
                }
            }),
    {
        proof {
            assert(ledger_view(self.positions@).skip(0) =~= ledger_view(self.positions@));
        }
        match self.sum_pnl_from(account_id, 0) {
            Some(c) => Ok(c),
            None => Err(TradingError::InternalError("total P&L out of range".to_string())),
        }
    }
}

fn string_eq(a: &String, b: &String) -> (r: bool)
    ensures
        r == (a@ == b@),
{
    a.eq(b)
}

proof fn lemma_pos_key_pos_unique(ps: Seq<PositionV>, account_id: int, symbol: Seq<char>, i: int)
    requires
        0 <= i <= ps.len(),
        forall|j: int|
            0 <= j < i ==> !((#[trigger] ps[j]).account_id == account_id && ps[j].symbol == symbol),
        i < ps.len() ==> ps[i].account_id == account_id && ps[i].symbol == symbol,
    ensures
        pos_key_pos(ps, account_id, symbol) == i,
    decreases ps.len(),
{
    if ps.len() > 0 && i > 0 {
        let d = ps.drop_first();
        assert forall|j: int|
            0 <= j < i - 1 implies !((#[trigger] d[j]).account_id == account_id && d[j].symbol
            == symbol) by {
            assert(d[j] == ps[j + 1]);
        }
        if i - 1 < d.len() {
            assert(d[i - 1] == ps[i]);
        }
        lemma_pos_key_pos_unique(d, account_id, symbol, i - 1);
    }
}

proof fn lemma_mul_bounds(a: int, b: int, m: int)
    requires
        0 <= m,
        -m <= a <= m || -(2 * m) <= a <= 2 * m,
    ensures
        -m <= a <= m && -m <= b <= m ==> -(m * m) <= a * b <= m * m,
        -(2 * m) <= a <= 2 * m && -m <= b <= m ==> -(2 * m * m) <= a * b <= 2 * m * m,
{
    assert(-m <= a <= m && -m <= b <= m ==> -(m * m) <= a * b <= m * m) by (nonlinear_arith);
    assert(-(2 * m) <= a <= 2 * m && -m <= b <= m ==> -(2 * m * m) <= a * b <= 2 * m * m)
        by (nonlinear_arith);
}

proof fn lemma_u128_div(num: int, den: int)
    requires
        0 < den,
        -(i128::MAX as int) <= num <= i128::MAX as int,
    ensures
        num >= 0 ==> div_trunc(num, den) == num / den,
        0 <= div_trunc(num, den) * (if num >= 0 {
            1int
        } else {
            -1int
        }) || true,
        abs_int(div_trunc(num, den)) <= abs_int(num),
{
    if num >= 0 {
        assert(num / den <= num) by (nonlinear_arith)
            requires
                0 < den,
                0 <= num,
        ;
        assert(0 <= num / den) by (nonlinear_arith)
            requires
                0 < den,
                0 <= num,
        ;
    } else {
        assert((0 - num) / den <= 0 - num) by (nonlinear_arith)
            requires
                0 < den,
                0 <= 0 - num,
        ;
        assert(0 <= (0 - num) / den) by (nonlinear_arith)
            requires
                0 < den,
                0 <= 0 - num,
        ;
    }
}

} // verus!
