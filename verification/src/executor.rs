//! Turning full orders into per-follower order placements.
//!
//! For each full order the dispatcher looks its leader up in the cache
//! snapshot and enqueues one task per active follower on a bounded queue —
//! dropping, never blocking, when the queue is full. A worker sizes each
//! task under the follower's ratio and risk cap, builds the limit-order
//! request, and classifies the venue's response. The exchange call itself
//! happens outside the library; the worker logic here is the pure part on
//! either side of it.

use vstd::prelude::*;
use crate::cache::{CacheSnapshot, FollowersCache};
use crate::decimal::{
    dec_div, dec_mul, div_fits, lemma_dec_div_bound, lemma_dec_mul_bound, lemma_round_he_close,
    mul_fits, round_he, Dec,
};
use crate::grouper::FullOrder;
use crate::text::str_eq;

verus! {

/// Number of long-lived workers draining the task queue.
pub const WORKER_COUNT: usize = 10;

/// Capacity of the bounded task queue.
pub const CHANNEL_CAPACITY: usize = 1000;

/// The epsilon guard on the average price in the risk-cap division, in
/// units: `10^-7`.
pub const EPS_UNITS: i128 = 100_000;

/// The dust threshold, in units: orders of at most `10^-6` are rejected.
pub const DUST_UNITS: i128 = 1_000_000;

/// The rounding step of the submitted size, in units: `10^-8`.
pub const SIZE_STEP_UNITS: i128 = 10_000;

/// One status out of the venue's order-placement response.
#[derive(Debug)]
pub enum ExchangeStatus {
    /// The order filled immediately, with the venue order id.
    Filled(u64),
    /// The order rests on the book, with the venue order id.
    Resting(u64),
    /// Any other terminal or rejected form, with its description.
    Other(String),
}

/// Why an order task failed.
#[derive(Debug)]
pub enum ExecutorError {
    InvalidAgentKey(String),
    ClientInitialization(String),
    OrderPlacement(String),
    OrderSizeTooSmall,
    NoDataInResponse,
    UnexpectedStatus(ExchangeStatus),
    Database(String),
    DecimalConversion,
}

/// A full order paired with one follower configuration; the unit of work on
/// the task queue.
pub struct OrderTask {
    pub order: FullOrder,
    pub follower: FollowersCache,
}

impl Clone for OrderTask {
    /// An exact copy, field for field.
    fn clone(&self) -> (r: OrderTask)
        ensures
            r == *self,
    {
        OrderTask { order: self.order.clone(), follower: self.follower.clone() }
    }
}

/// The limit order to submit for one task: good-till-cancelled at the
/// aggregated average price.
#[derive(Debug)]
pub struct OrderRequest {
    pub asset: String,
    pub is_buy: bool,
    pub reduce_only: bool,
    pub limit_px: Dec,
    pub sz: Dec,
}

/// The follower's unscaled size: the leader's total size times the ratio.
pub open spec fn raw_size(order: FullOrder, follower: FollowersCache) -> int {
    dec_mul(order.total_sz.units as int, follower.ratio.units as int)
}

/// The average price with the epsilon guard applied, as the risk-cap
/// division uses it.
pub open spec fn eps_guarded(avg: int) -> int {
    if avg >= EPS_UNITS as int {
        avg
    } else {
        EPS_UNITS as int
    }
}

/// Whether the follower's risk cap binds: a cap is set and the unscaled
/// notional exceeds it.
pub open spec fn cap_binds(order: FullOrder, follower: FollowersCache) -> bool {
    match follower.max_risk {
        Some(m) => dec_mul(raw_size(order, follower), order.avg_px.units as int) > m.units,
        None => false,
    }
}

/// The size after the risk cap, before the final rounding.
pub open spec fn capped_size(order: FullOrder, follower: FollowersCache) -> int {
    match follower.max_risk {
        Some(m) => if cap_binds(order, follower) {
            dec_div(m.units as int, eps_guarded(order.avg_px.units as int))
        } else {
            raw_size(order, follower)
        },
        None => raw_size(order, follower),
    }
}

/// The side a direction label maps to: opening a long or closing a short
/// buys; everything else — including unknown labels — sells.
pub open spec fn spec_is_buy(dir: Seq<char>) -> bool {
    dir == "Open Long"@ || dir == "Close Short"@
}

/// The machine-range conditions under which a task can be sized.
pub open spec fn sizing_fits(order: FullOrder, follower: FollowersCache) -> bool {
    &&& order.total_sz.units > i128::MIN
    &&& follower.ratio.units > i128::MIN
    &&& order.avg_px.units > i128::MIN
    &&& mul_fits(order.total_sz.units as int, follower.ratio.units as int)
    &&& match follower.max_risk {
        Some(m) => m.units > i128::MIN && div_fits(m.units as int) && mul_fits(
            raw_size(order, follower),
            order.avg_px.units as int,
        ),
        None => true,
    }
}

/// The buy/sell side of a direction label.
pub fn is_buy_dir(dir: &str) -> (r: bool)
    ensures
        r == spec_is_buy(dir@),
{
    str_eq(dir, "Open Long") || str_eq(dir, "Close Short")
}

/// Size one task and build its order request.
///
/// The size is the leader's total size scaled by the follower's ratio; when
/// a risk cap is set and the notional would exceed it, the size is cut to
/// `max_risk / max(avg_px, eps)`. A size at or below the dust threshold is
/// rejected as too small — this is the only error this path produces — and
/// an accepted size is rounded to eight decimal places, half to even.
pub fn size_follower_order(order: &FullOrder, follower: &FollowersCache) -> (r: Result<
    OrderRequest,
    ExecutorError,
>)
    requires
        sizing_fits(*order, *follower),
    ensures
        r is Ok <==> capped_size(*order, *follower) > DUST_UNITS as int,
        r matches Ok(req) ==> {
            &&& req.sz.units == round_he(capped_size(*order, *follower), SIZE_STEP_UNITS as int)
            &&& req.limit_px == order.avg_px
            &&& req.asset == order.coin
            &&& req.is_buy == spec_is_buy(order.dir@)
            &&& !req.reduce_only
        },
        r matches Err(e) ==> e is OrderSizeTooSmall,
{
    let mut sz = order.total_sz.mul(follower.ratio);
    proof {
        lemma_dec_mul_bound(order.total_sz.units as int, follower.ratio.units as int);
    }
    match follower.max_risk {
        Some(m) => {
            let notional = sz.mul(order.avg_px);
            if notional.gt(m) {
                let guard = if order.avg_px.units >= EPS_UNITS {
                    order.avg_px
                } else {
                    Dec::from_units(EPS_UNITS)
                };
                sz = m.div(guard);
                proof {
                    lemma_dec_div_bound(m.units as int, guard.units as int);
                }
            }
        },
        None => {},
    }
    if sz.units <= DUST_UNITS {
        return Err(ExecutorError::OrderSizeTooSmall);
    }
    let rounded = sz.round_dp(8);
    proof {
        vstd::arithmetic::power::lemma_pow_positive(10, 4);
        assert(crate::decimal::pow10(4) == 10000) by {
            reveal_with_fuel(crate::decimal::pow10, 5);
        };
    }
    Ok(
        OrderRequest {
            asset: order.coin.clone(),
            is_buy: is_buy_dir(order.dir.as_str()),
            reduce_only: false,
            limit_px: order.avg_px,
            sz: rounded,
        },
    )
}

/// How one status is classified: an immediately filled or resting order is
/// a success carrying the venue order id; anything else fails as
/// unexpected.
pub open spec fn spec_classify(status: ExchangeStatus) -> Result<u64, ExecutorError> {
    match status {
        ExchangeStatus::Filled(oid) => Ok(oid),
        ExchangeStatus::Resting(oid) => Ok(oid),
        ExchangeStatus::Other(_) => Err(ExecutorError::UnexpectedStatus(status)),
    }
}

/// Classify one status of the venue's response.
pub fn classify_status(status: ExchangeStatus) -> (r: Result<u64, ExecutorError>)
    ensures
        r == spec_classify(status),
{
    match status {
        ExchangeStatus::Filled(oid) => Ok(oid),
        ExchangeStatus::Resting(oid) => Ok(oid),
        s => Err(ExecutorError::UnexpectedStatus(s)),
    }
}

/// Classify the venue's whole order-placement response: a rejection fails
/// with its message, a response without data fails as empty, and otherwise
/// the first status decides.
pub fn classify_response(resp: Result<Option<Vec<ExchangeStatus>>, String>) -> (r: Result<
    u64,
    ExecutorError,
>)
    requires
        resp matches Ok(d) && d matches Some(sts) ==> sts@.len() > 0,
    ensures
        match resp {
            Err(msg) => r matches Err(e) && (e matches ExecutorError::OrderPlacement(t) && t
                == msg),
            Ok(None) => r matches Err(e) && e is NoDataInResponse,
            Ok(Some(sts)) => r == spec_classify(sts@[0]),
        },
{
    match resp {
        Err(msg) => Err(ExecutorError::OrderPlacement(msg)),
        Ok(None) => Err(ExecutorError::NoDataInResponse),
        Ok(Some(mut sts)) => {
            let first = sts.remove(0);
            classify_status(first)
        },
    }
}

/// Fan one full order out to its leader's followers: one task per follower,
/// in cache order. A leader absent from the snapshot produces no task at
/// all — an unsubscribed leader is dropped silently, not an error.
pub fn dispatch(snapshot: &CacheSnapshot, order: &FullOrder) -> (tasks: Vec<OrderTask>)
    requires
        snapshot.wf(),
    ensures
        !snapshot.contains_leader(order.user@) ==> tasks@.len() == 0,
        snapshot.contains_leader(order.user@) ==> ({
            let fs = snapshot.followers_of(order.user@);
            &&& tasks@.len() == fs.len()
            &&& forall|i: int|
                0 <= i < fs.len() ==> (#[trigger] tasks@[i]).follower == fs[i] && tasks@[i].order
                    == *order
        }),
{
    let mut tasks: Vec<OrderTask> = Vec::new();
    match snapshot.lookup(order.user.as_str()) {
        None => tasks,
        Some(followers) => {
            let n = followers.len();
            let mut i: usize = 0;
            while i < n
                invariant
                    n == followers@.len(),
                    i <= n,
                    tasks@.len() == i,
                    forall|j: int|
                        0 <= j < i ==> (#[trigger] tasks@[j]).follower == followers@[j]
                            && tasks@[j].order == *order,
                decreases n - i,
            {
                tasks.push(OrderTask { order: order.clone(), follower: followers[i].clone() });
                i = i + 1;
            }
            tasks
        },
    }
}

/// The bounded queue between the dispatcher and the workers. A full queue
/// refuses new tasks — the dispatcher drops and warns, it never blocks.
pub struct TaskQueue {
    pub tasks: Vec<OrderTask>,
    pub capacity: usize,
}

impl TaskQueue {
    /// Never more tasks than the capacity.
    pub open spec fn wf(self) -> bool {
        self.tasks@.len() <= self.capacity
    }

    /// An empty queue of the given capacity.
    pub fn new(capacity: usize) -> (q: TaskQueue)
        ensures
            q.wf(),
            q.tasks@.len() == 0,
            q.capacity == capacity,
    {
        TaskQueue { tasks: Vec::new(), capacity }
    }

    /// How many tasks wait.
    pub fn len(&self) -> (n: usize)
        ensures
            n == self.tasks@.len(),
    {
        self.tasks.len()
    }

    /// Enqueue a task if there is room; report a backpressure drop
    /// otherwise, leaving the queue unchanged.
    pub fn try_push(&mut self, task: OrderTask) -> (accepted: bool)
        requires
            old(self).wf(),
        ensures
            final(self).wf(),
            accepted == (old(self).tasks@.len() < old(self).capacity),
            accepted ==> final(self).tasks@ == old(self).tasks@.push(task),
            !accepted ==> *final(self) == *old(self),
            final(self).capacity == old(self).capacity,
    {
        if self.tasks.len() < self.capacity {
            self.tasks.push(task);
            true
        } else {
            false
        }
    }

    /// Take the oldest task, if any.
    pub fn pop_front(&mut self) -> (r: Option<OrderTask>)
        requires
            old(self).wf(),
        ensures
            final(self).wf(),
            final(self).capacity == old(self).capacity,
            old(self).tasks@.len() == 0 ==> r is None && *final(self) == *old(self),
            old(self).tasks@.len() > 0 ==> (r matches Some(t) && {
                &&& t == old(self).tasks@[0]
                &&& final(self).tasks@ == old(self).tasks@.subrange(
                    1,
                    old(self).tasks@.len() as int,
                )
            }),
    {
        if self.tasks.len() == 0 {
            None
        } else {
            let t = self.tasks.remove(0);
            proof {
                assert(self.tasks@ =~= old(self).tasks@.subrange(1, old(self).tasks@.len() as int));
            }
            Some(t)
        }
    }
}

/// Law: the executor's size respects the risk cap. When the cap binds, the
/// size before the final rounding is exactly `max_risk / max(avg_px, eps)`
/// in the engine's arithmetic, rounding moves it by at most half a step,
/// and — for a nonnegative cap — the notional of the unrounded size at the
/// guarded price never exceeds the cap. Without a cap the size stays
/// exactly `total_sz * ratio`.
pub proof fn lemma_risk_cap(order: FullOrder, follower: FollowersCache)
    requires
        sizing_fits(order, follower),
    ensures
        cap_binds(order, follower) ==> ({
            let m = follower.max_risk->Some_0;
            let c = capped_size(order, follower);
            &&& c == dec_div(m.units as int, eps_guarded(order.avg_px.units as int))
            &&& 2 * (round_he(c, SIZE_STEP_UNITS as int) - c) <= SIZE_STEP_UNITS as int
            &&& 2 * (c - round_he(c, SIZE_STEP_UNITS as int)) <= SIZE_STEP_UNITS as int
            &&& m.units >= 0 ==> dec_mul(c, eps_guarded(order.avg_px.units as int)) <= m.units
        }),
        follower.max_risk is None ==> capped_size(order, follower) == raw_size(order, follower),
{
    if cap_binds(order, follower) {
        let c = capped_size(order, follower);
        lemma_round_he_close(c, SIZE_STEP_UNITS as int);
        let m = follower.max_risk->Some_0;
        if m.units >= 0 {
            let mi = m.units as int;
            let g = eps_guarded(order.avg_px.units as int);
            let u = crate::decimal::DEC_UNIT as int;
            let p = mi * u;
            vstd::arithmetic::mul::lemma_mul_nonnegative(mi, u);
            assert(c == p / g);
            vstd::arithmetic::div_mod::lemma_fundamental_div_mod(p, g);
            vstd::arithmetic::div_mod::lemma_mod_division_less_than_divisor(p, g);
            assert(c * g <= p) by (nonlinear_arith)
                requires
                    p == g * c + p % g,
                    p % g >= 0,
            ;
            vstd::arithmetic::div_mod::lemma_div_pos_is_pos(p, g);
            vstd::arithmetic::mul::lemma_mul_nonnegative(c, g);
            lemma_div_is_ordered_local(c * g, p, u);
            vstd::arithmetic::div_mod::lemma_div_multiples_vanish(mi, u);
            assert(u * mi == mi * u) by (nonlinear_arith);
            assert(dec_mul(c, g) == (c * g) / u);
        }
    }
}

proof fn lemma_div_is_ordered_local(x: int, y: int, z: int)
    requires
        x <= y,
        0 < z,
    ensures
        x / z <= y / z,
{
    vstd::arithmetic::div_mod::lemma_div_is_ordered(x, y, z);
}

/// Law: the submitted size is the nearest multiple of the rounding step —
/// within half a step of the capped size, and an exact multiple — never a
/// truncation toward zero.
pub proof fn lemma_size_rounding_nearest(c: int)
    ensures
        2 * (round_he(c, SIZE_STEP_UNITS as int) - c) <= SIZE_STEP_UNITS as int,
        2 * (c - round_he(c, SIZE_STEP_UNITS as int)) <= SIZE_STEP_UNITS as int,
        round_he(c, SIZE_STEP_UNITS as int) % (SIZE_STEP_UNITS as int) == 0,
{
    lemma_round_he_close(c, SIZE_STEP_UNITS as int);
}

/// Law: a risk cap that binds at a zero average price cannot produce a
/// runaway order. The cap can only bind there with a negative `max_risk`;
/// the epsilon guard then bounds the size to exactly `max_risk * 10^7`,
/// which is negative and so falls to the dust threshold — the task is
/// rejected as too small.
pub proof fn lemma_zero_avg_price_rejected(order: FullOrder, follower: FollowersCache)
    requires
        sizing_fits(order, follower),
        order.avg_px.units == 0,
        cap_binds(order, follower),
    ensures
        follower.max_risk->Some_0.units < 0,
        capped_size(order, follower) == follower.max_risk->Some_0.units * 10_000_000,
        capped_size(order, follower) < 0,
        capped_size(order, follower) <= DUST_UNITS as int,
{
    let m = follower.max_risk->Some_0;
    let raw = raw_size(order, follower);
    assert(raw * 0 == 0) by (nonlinear_arith);
    assert(0int / (crate::decimal::DEC_UNIT as int) == 0);
    assert(dec_mul(raw, 0) == 0);
    assert(m.units < 0);
    let mi = m.units as int;
    let u = crate::decimal::DEC_UNIT as int;
    assert(mi * 1_000_000_000_000 == (mi * 10_000_000) * 100_000) by (nonlinear_arith);
    assert(mi * u == (mi * 10_000_000) * (EPS_UNITS as int));
    crate::decimal::lemma_tdiv_exact(mi * 10_000_000, EPS_UNITS as int);
    assert(capped_size(order, follower) == dec_div(mi, EPS_UNITS as int));
    assert(dec_div(mi, EPS_UNITS as int) == crate::decimal::tdiv(mi * u, EPS_UNITS as int));
    assert(mi * 10_000_000 < 0) by (nonlinear_arith)
        requires
            mi < 0,
    ;
}

} // verus!
