//! Pre-trade risk checks: per-account limits with documented defaults.

use vstd::prelude::*;

use crate::types::{Order, RiskLimits, TradingError, UNIT_SCALE};

verus! {

/// Default limits for an account that has registered none: 100M position
/// size, 50M order value, 1M daily loss, 25% concentration, 5M VaR. Sizes
/// are stored in quantity units; the order-value bound is in quantity units
/// times price units (hence the squared scale).
pub open spec fn spec_default_limits(account_id: int) -> RiskLimits {
    RiskLimits {
        account_id: account_id as u128,
        max_position_size: 10_000_000_000i64,
        max_order_value: 500_000_000_000i128,
        max_daily_loss: 100_000_000i64,
        concentration_limit: 2_500i64,
        var_limit: 500_000_000i64,
    }
}

/// The registered limits for `account_id`, if any: first match in the list.
pub open spec fn limits_lookup(rls: Seq<RiskLimits>, account_id: int) -> Option<RiskLimits>
    decreases rls.len(),
{
    if rls.len() == 0 {
        None
    } else if rls[0].account_id as int == account_id {
        Some(rls[0])
    } else {
        limits_lookup(rls.drop_first(), account_id)
    }
}

/// The limits that govern `account_id`: registered ones, or the defaults.
pub open spec fn limits_for(rls: Seq<RiskLimits>, account_id: int) -> RiskLimits {
    match limits_lookup(rls, account_id) {
        Some(l) => l,
        None => spec_default_limits(account_id),
    }
}

/// The notional value of an order: quantity times price, a market order
/// counting as zero.
pub open spec fn order_value(quantity: int, price: Option<int>) -> int {
    match price {
        Some(p) => quantity * p,
        None => 0,
    }
}

/// Both pre-trade checks pass: order value within `max_order_value` and
/// quantity within `max_position_size`. Concentration, daily-loss and
/// market-hours checks are reserved extension points that always pass.
pub open spec fn risk_ok(rls: Seq<RiskLimits>, quantity: int, price: Option<int>, account_id: int) -> bool {
    let l = limits_for(rls, account_id);
    &&& order_value(quantity, price) <= l.max_order_value as int
    &&& quantity <= l.max_position_size as int
}

/// The risk gate: a list of per-account limits, each account at most once.
pub struct RiskManager {
    pub risk_limits: Vec<RiskLimits>,
}

impl RiskManager {
    /// Each account holds at most one limits record.
    pub open spec fn wf(self) -> bool {
        forall|i: int, j: int|
            0 <= i < j < self.risk_limits@.len() ==> (#[trigger] self.risk_limits@[i].account_id)
                != (#[trigger] self.risk_limits@[j].account_id)
    }

    /// A risk gate with no registered limits: every account gets defaults.
    pub fn new() -> (r: Self)
        ensures
            r.wf(),
            r.risk_limits@ == Seq::<RiskLimits>::empty(),
    {
        let r = RiskManager { risk_limits: Vec::new() };
        proof {
            assert(r.risk_limits@ =~= Seq::<RiskLimits>::empty());
        }
        r
    }

    fn lookup_from(&self, account_id: u128, i: usize) -> (r: Option<RiskLimits>)
        requires
            i <= self.risk_limits@.len(),
        ensures
            r == limits_lookup(self.risk_limits@.skip(i as int), account_id as int),
        decreases self.risk_limits@.len() - i,
    {
        proof {
            let s = self.risk_limits@.skip(i as int);
            if i < self.risk_limits@.len() {
                assert(s[0] == self.risk_limits@[i as int]);
                assert(s.drop_first() =~= self.risk_limits@.skip(i as int + 1));
            } else {
                assert(s =~= Seq::<RiskLimits>::empty());
            }
        }
        if i < self.risk_limits.len() {
            if self.risk_limits[i].account_id == account_id {
                Some(self.risk_limits[i])
            } else {
                self.lookup_from(account_id, i + 1)
            }
        } else {
            None
        }
    }

    /// The limits that govern an account: its registered record, or the
    /// documented defaults.
    pub fn get_risk_limits(&self, account_id: u128) -> (r: RiskLimits)
        ensures
            r == limits_for(self.risk_limits@, account_id as int),
    {
        proof {
            assert(self.risk_limits@.skip(0) =~= self.risk_limits@);
        }
        match self.lookup_from(account_id, 0) {
            Some(l) => l,
            None => RiskLimits {
                account_id: account_id,
                max_position_size: 10_000_000_000i64,
                max_order_value: 500_000_000_000i128,
                max_daily_loss: 100_000_000i64,
                concentration_limit: 2_500i64,
                var_limit: 500_000_000i64,
            },
        }
    }

    /// Check an order against its account's limits, short-circuiting on the
    /// first failure: order value first, then position size. Returns
    /// `RiskLimitExceeded` exactly when a bound is exceeded.
    pub fn check_order(&self, order: &Order) -> (r: Result<(), TradingError>)
        ensures
            r is Ok <==> risk_ok(self.risk_limits@, order@.quantity, order@.price, order@.account_id),
            r matches Err(e) ==> e is RiskLimitExceeded,
    {
        let limits = self.get_risk_limits(order.account_id);
        let price_units: i128 = match order.price {
            Some(p) => p as i128,
            None => 0,
        };
        let q_units: i128 = order.quantity as i128;
        proof {
            assert(q_units * price_units <= i128::MAX && q_units * price_units >= i128::MIN)
                by (nonlinear_arith)
                requires
                    -(0x8000_0000_0000_0000i128) <= q_units <= 0x7fff_ffff_ffff_ffffi128,
                    -(0x8000_0000_0000_0000i128) <= price_units <= 0x7fff_ffff_ffff_ffffi128,
            ;
        }
        let value: i128 = q_units * price_units;
        if value > limits.max_order_value {
            return Err(TradingError::RiskLimitExceeded("order value exceeds limit".to_string()));
        }
        if order.quantity > limits.max_position_size {
            return Err(TradingError::RiskLimitExceeded(
                "order quantity exceeds position limit".to_string(),
            ));
        }
        Ok(())
    }

    /// Register (or replace) the limits for an account.
    pub fn set_risk_limits(&mut self, limits: RiskLimits) -> (r: Result<(), TradingError>)
        requires
            old(self).wf(),
        ensures
            final(self).wf(),
            r is Ok,
            limits_for(final(self).risk_limits@, limits.account_id as int) == limits,
            forall|a: int|
                a != limits.account_id as int ==> #[trigger] limits_for(
                    final(self).risk_limits@,
                    a,
                ) == limits_for(old(self).risk_limits@, a),
    {
        let pos = self.find_account_from(limits.account_id, 0);
        let ghost rls0 = self.risk_limits@;
        match pos {
            Some(i) => {
                self.risk_limits.remove(i);
                self.risk_limits.insert(i, limits);
                proof {
                    assert(self.risk_limits@ =~= rls0.update(i as int, limits));
                    lemma_limits_update(rls0, i as int, limits);
                }
            },
            None => {
                self.risk_limits.push(limits);
                proof {
                    lemma_limits_push(rls0, limits);
                }
            },
        }
        Ok(())
    }

    fn find_account_from(&self, account_id: u128, i: usize) -> (r: Option<usize>)
        requires
            i <= self.risk_limits@.len(),
            forall|j: int| 0 <= j < i ==> (#[trigger] self.risk_limits@[j].account_id) != account_id,
        ensures
            match r {
                Some(k) => {
                    &&& (k as int) < self.risk_limits@.len()
                    &&& self.risk_limits@[k as int].account_id == account_id
                    &&& forall|j: int|
                        0 <= j < k ==> (#[trigger] self.risk_limits@[j].account_id) != account_id
                },
                None => forall|j: int|
                    0 <= j < self.risk_limits@.len() ==> (#[trigger] self.risk_limits@[j].account_id)
                        != account_id,
            },
        decreases self.risk_limits@.len() - i,
    {
        if i < self.risk_limits.len() {
            if self.risk_limits[i].account_id == account_id {
                Some(i)
            } else {
                self.find_account_from(account_id, i + 1)
            }
        } else {
            None
        }
    }

    /// A placeholder value-at-risk figure: a constant 1M (in units), as the
    /// full model lives outside this core.
    pub fn calculate_var(&self, account_id: u128) -> (r: Result<i64, TradingError>)
        ensures
            r matches Ok(v) && v as int == 1_000_000 * UNIT_SCALE as int,
    {
        let _ = account_id;
        Ok(1_000_000i64 * UNIT_SCALE)
    }

    /// Market-hours gating is a reserved extension point: always open here.
    pub fn check_market_hours(&self) -> (r: Result<(), TradingError>)
        ensures
            r is Ok,
    {
        Ok(())
    }
}

proof fn lemma_limits_update(rls: Seq<RiskLimits>, i: int, limits: RiskLimits)
    requires
        0 <= i < rls.len(),
        rls[i].account_id == limits.account_id,
        forall|k1: int, k2: int|
            0 <= k1 < k2 < rls.len() ==> (#[trigger] rls[k1].account_id) != (
            #[trigger] rls[k2].account_id),
    ensures
        ({
            let r = rls.update(i, limits);
            &&& forall|k1: int, k2: int|
                0 <= k1 < k2 < r.len() ==> (#[trigger] r[k1].account_id) != (
                #[trigger] r[k2].account_id)
            &&& limits_lookup(r, limits.account_id as int) == Some(limits)
            &&& forall|a: int|
                a != limits.account_id as int ==> #[trigger] limits_lookup(r, a) == limits_lookup(
                    rls,
                    a,
                )
        }),
    decreases rls.len(),
{
    let r = rls.update(i, limits);
    assert forall|k1: int, k2: int| 0 <= k1 < k2 < r.len() implies (#[trigger] r[k1].account_id)
        != (#[trigger] r[k2].account_id) by {
        if k1 != i {
            assert(r[k1] == rls[k1]);
        }
        if k2 != i {
            assert(r[k2] == rls[k2]);
        }
    }
    if i == 0 {
        assert(r[0] == limits);
        assert forall|a: int| a != limits.account_id as int implies #[trigger] limits_lookup(r, a)
            == limits_lookup(rls, a) by {
            assert(r.drop_first() =~= rls.drop_first());
        }
    } else {
        assert(r[0] == rls[0]);
        assert(r.drop_first() =~= rls.drop_first().update(i - 1, limits));
        assert(rls.drop_first()[i - 1] == rls[i]);
        assert forall|k1: int, k2: int|
            0 <= k1 < k2 < rls.drop_first().len() implies (
        #[trigger] rls.drop_first()[k1].account_id) != (#[trigger] rls.drop_first()[k2].account_id) by {
            assert(rls.drop_first()[k1] == rls[k1 + 1]);
            assert(rls.drop_first()[k2] == rls[k2 + 1]);
        }
        lemma_limits_update(rls.drop_first(), i - 1, limits);
        assert(rls[0].account_id != limits.account_id);
        assert(limits_lookup(r, limits.account_id as int) == limits_lookup(
            rls.drop_first().update(i - 1, limits),
            limits.account_id as int,
        ));
        assert forall|a: int| a != limits.account_id as int implies #[trigger] limits_lookup(r, a)
            == limits_lookup(rls, a) by {
            if rls[0].account_id as int != a {
                assert(limits_lookup(r, a) == limits_lookup(r.drop_first(), a));
                assert(limits_lookup(rls, a) == limits_lookup(rls.drop_first(), a));
            }
        }
    }
}

proof fn lemma_limits_push(rls: Seq<RiskLimits>, limits: RiskLimits)
    requires
        forall|j: int| 0 <= j < rls.len() ==> (#[trigger] rls[j].account_id) != limits.account_id,
        forall|k1: int, k2: int|
            0 <= k1 < k2 < rls.len() ==> (#[trigger] rls[k1].account_id) != (
            #[trigger] rls[k2].account_id),
    ensures
        ({
            let r = rls.push(limits);
            &&& forall|k1: int, k2: int|
                0 <= k1 < k2 < r.len() ==> (#[trigger] r[k1].account_id) != (
                #[trigger] r[k2].account_id)
            &&& limits_lookup(r, limits.account_id as int) == Some(limits)
            &&& forall|a: int|
                a != limits.account_id as int ==> #[trigger] limits_lookup(r, a) == limits_lookup(
                    rls,
                    a,
                )
        }),
    decreases rls.len(),
{
    let r = rls.push(limits);
    assert forall|k1: int, k2: int| 0 <= k1 < k2 < r.len() implies (#[trigger] r[k1].account_id)
        != (#[trigger] r[k2].account_id) by {
        if k2 < rls.len() {
            assert(r[k1] == rls[k1]);
            assert(r[k2] == rls[k2]);
        } else {
            assert(r[k1] == rls[k1]);
            assert(r[k2] == limits);
        }
    }
    if rls.len() == 0 {
        assert(r[0] == limits);
        assert(r.drop_first() =~= Seq::<RiskLimits>::empty());
        assert(limits_lookup(r, limits.account_id as int) == Some(limits));
        assert forall|a: int| a != limits.account_id as int implies #[trigger] limits_lookup(r, a)
            == limits_lookup(rls, a) by {
            assert(limits_lookup(r, a) == limits_lookup(r.drop_first(), a));
            assert(limits_lookup(rls, a) is None);
        }
    } else {
        assert(r[0] == rls[0]);
        assert(r.drop_first() =~= rls.drop_first().push(limits));
        assert forall|j: int| 0 <= j < rls.drop_first().len() implies (
        #[trigger] rls.drop_first()[j].account_id) != limits.account_id by {
            assert(rls.drop_first()[j] == rls[j + 1]);
        }
        assert forall|k1: int, k2: int|
            0 <= k1 < k2 < rls.drop_first().len() implies (
        #[trigger] rls.drop_first()[k1].account_id) != (#[trigger] rls.drop_first()[k2].account_id) by {
            assert(rls.drop_first()[k1] == rls[k1 + 1]);
            assert(rls.drop_first()[k2] == rls[k2 + 1]);
        }
        lemma_limits_push(rls.drop_first(), limits);
        assert(rls[0].account_id != limits.account_id);
        assert(limits_lookup(r, limits.account_id as int) == limits_lookup(
            r.drop_first(),
            limits.account_id as int,
        ));
        assert forall|a: int| a != limits.account_id as int implies #[trigger] limits_lookup(r, a)
            == limits_lookup(rls, a) by {
            if rls[0].account_id as int != a {
                assert(limits_lookup(r, a) == limits_lookup(r.drop_first(), a));
                assert(limits_lookup(rls, a) == limits_lookup(rls.drop_first(), a));
            }
        }
    }
}

} // verus!
