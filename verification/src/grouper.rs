//! Debounced aggregation of partial fills into full orders.
//!
//! The venue fills one user order as many smaller fills sharing an order id.
//! The grouper accumulates, per order id, the summed size and the
//! size-weighted price sum, and emits a single [`FullOrder`] with the
//! volume-weighted average price once the id has been quiet long enough.
//! Timing is handed in: callers pass a monotonic clock reading in
//! milliseconds, fire a one-shot debounce after [`DEBOUNCE_MS`], and run the
//! sweep every few seconds as a safety net.

use vstd::prelude::*;
use vstd::pervasive::VecAdditionalExecFns;
use crate::decimal::{dec_div, dec_mul, div_fits, mul_fits, tdiv, Dec, DEC_UNIT};
use crate::ingest::{clone_opt_string, WsFill};
use crate::parser::str_units;

verus! {

/// Delay of the one-shot debounce timer armed by a fresh order id.
pub const DEBOUNCE_MS: u64 = 420;

/// Quiet time after which the debounce timer may emit.
pub const QUIET_MS: u64 = 400;

/// Quiet time after which the periodic sweep flushes an entry.
pub const SWEEP_QUIET_MS: u64 = 600;

/// Largest magnitude, in units, that the accumulated sums may reach; within
/// it the average-price division cannot overflow.
pub const ACC_LIMIT: i128 = 170_141_183_460_469_231_731_687_303;

/// The accumulator for one order id: identity fields from the first fill,
/// sums over all fills seen, and the time the id was last seen.
pub struct PendingOrder {
    pub user: String,
    pub coin: String,
    pub dir: String,
    pub total_sz: Dec,
    pub weighted_px: Dec,
    pub timestamp: u64,
    pub last_seen: u64,
    pub hash: String,
    pub oid: u64,
    /// The `(px, sz)` pairs accepted for this id, in arrival order.
    pub fills: Ghost<Seq<(Dec, Dec)>>,
}

/// The aggregated parent order emitted to the executor.
#[derive(Debug)]
pub struct FullOrder {
    pub user: String,
    pub coin: String,
    pub dir: String,
    pub total_sz: Dec,
    pub avg_px: Dec,
    pub timestamp: u64,
    pub hash: String,
    pub oid: u64,
}

impl Clone for FullOrder {
    /// An exact copy, field for field.
    fn clone(&self) -> (r: FullOrder)
        ensures
            r == *self,
    {
        FullOrder {
            user: self.user.clone(),
            coin: self.coin.clone(),
            dir: self.dir.clone(),
            total_sz: self.total_sz,
            avg_px: self.avg_px,
            timestamp: self.timestamp,
            hash: self.hash.clone(),
            oid: self.oid,
        }
    }
}

/// The sum of the fill sizes, in units.
pub open spec fn sum_sz(fills: Seq<(Dec, Dec)>) -> int
    decreases fills.len(),
{
    if fills.len() == 0 {
        0
    } else {
        sum_sz(fills.drop_last()) + fills.last().1.units
    }
}

/// The sum of the per-fill products `px * sz`, in units.
pub open spec fn sum_wpx(fills: Seq<(Dec, Dec)>) -> int
    decreases fills.len(),
{
    if fills.len() == 0 {
        0
    } else {
        sum_wpx(fills.drop_last()) + dec_mul(fills.last().0.units as int, fills.last().1.units as int)
    }
}

/// A sum small enough that dividing it at the fixed scale cannot overflow.
pub open spec fn acc_ok(x: int) -> bool {
    -(ACC_LIMIT as int) <= x <= ACC_LIMIT as int
}

/// Well-formedness of one accumulator: the stored sums are exactly the sums
/// over the accepted fills, and stay within the divisible range.
pub open spec fn entry_wf(e: PendingOrder) -> bool {
    &&& e.total_sz.units == sum_sz(e.fills@)
    &&& e.weighted_px.units == sum_wpx(e.fills@)
    &&& acc_ok(e.total_sz.units as int)
    &&& acc_ok(e.weighted_px.units as int)
}

/// Identity fields that the first fill fixes and later fills never change.
pub open spec fn same_identity(a: PendingOrder, b: PendingOrder) -> bool {
    &&& a.user == b.user
    &&& a.coin == b.coin
    &&& a.dir == b.dir
    &&& a.hash == b.hash
    &&& a.timestamp == b.timestamp
    &&& a.oid == b.oid
}

/// Whether `fo` is exactly the emission of accumulator `e`: identity and
/// total size carried over, and the average price the truncating quotient of
/// the weighted price sum by the total size.
pub open spec fn is_emission_of(fo: FullOrder, e: PendingOrder) -> bool {
    &&& fo.user == e.user
    &&& fo.coin == e.coin
    &&& fo.dir == e.dir
    &&& fo.hash == e.hash
    &&& fo.timestamp == e.timestamp
    &&& fo.oid == e.oid
    &&& fo.total_sz == e.total_sz
    &&& fo.avg_px.units == dec_div(e.weighted_px.units as int, e.total_sz.units as int)
}

/// Whether the sweep considers an entry stale at `now_ms`.
pub open spec fn spec_stale(e: PendingOrder, now_ms: u64) -> bool {
    now_ms >= e.last_seen && now_ms - e.last_seen > SWEEP_QUIET_MS
}

/// The unit count a venue numeric string stands for, a failed or
/// out-of-range parse counting as zero (the value then contributes nothing,
/// though the entry is still created).
pub open spec fn units_or_zero(s: Seq<char>) -> int {
    match str_units(s) {
        Ok(u) => u,
        Err(_) => 0,
    }
}

/// The price a fill report carries, at the fixed scale.
pub open spec fn fill_px(f: WsFill) -> Dec {
    Dec { units: units_or_zero(f.px@) as i128 }
}

/// The size a fill report carries, at the fixed scale.
pub open spec fn fill_sz(f: WsFill) -> Dec {
    Dec { units: units_or_zero(f.sz@) as i128 }
}

/// How accepting one fill changes the grouper: an existing accumulator for
/// the id has the size and the price-size product added and its clock
/// stamped, its identity and all other entries untouched; a new id appends
/// a fresh accumulator seeded from this fill, with the direction label
/// defaulting to `Unknown`.
pub open spec fn fill_applied(
    pre: Grouper,
    post: Grouper,
    user: String,
    coin: String,
    dir_label: Seq<char>,
    hash: String,
    timestamp: u64,
    oid: u64,
    px: Dec,
    sz: Dec,
    now_ms: u64,
) -> bool {
    if pre.has_oid(oid) {
        let i = pre.idx_of(oid);
        let e0 = pre.pending@[i];
        let e1 = post.pending@[i];
        &&& post.pending@.len() == pre.pending@.len()
        &&& forall|j: int|
            0 <= j < pre.pending@.len() && j != i ==> post.pending@[j] == pre.pending@[j]
        &&& same_identity(e1, e0)
        &&& e1.total_sz.units == e0.total_sz.units + sz.units
        &&& e1.weighted_px.units == e0.weighted_px.units + dec_mul(
            px.units as int,
            sz.units as int,
        )
        &&& e1.last_seen == now_ms
        &&& e1.fills@ == e0.fills@.push((px, sz))
    } else {
        let e1 = post.pending@.last();
        &&& post.pending@.len() == pre.pending@.len() + 1
        &&& forall|j: int| 0 <= j < pre.pending@.len() ==> post.pending@[j] == pre.pending@[j]
        &&& e1.user == user
        &&& e1.coin == coin
        &&& e1.dir@ == dir_label
        &&& e1.hash == hash
        &&& e1.timestamp == timestamp
        &&& e1.oid == oid
        &&& e1.last_seen == now_ms
        &&& e1.total_sz.units == sz.units
        &&& e1.weighted_px.units == dec_mul(px.units as int, sz.units as int)
        &&& e1.fills@ == seq![(px, sz)]
    }
}

/// What became of one inbound fill.
#[derive(Clone, Copy, Debug, PartialEq, Eq, Structural)]
pub enum FillOutcome {
    /// The fill was folded into its accumulator; when it opened a fresh one,
    /// the caller must arm the one-shot debounce timer.
    Accepted { armed_debounce: bool },
    /// Accepting the fill would take a sum outside the machine range; the
    /// state is unchanged.
    OutOfRange,
}

/// The grouper state: one accumulator per in-flight order id.
pub struct Grouper {
    pub pending: Vec<PendingOrder>,
}

impl Grouper {
    /// All order ids distinct, every accumulator well-formed.
    pub open spec fn wf(self) -> bool {
        &&& forall|i: int, j: int|
            0 <= i < j < self.pending@.len() ==> (#[trigger] self.pending@[i]).oid != (
            #[trigger] self.pending@[j]).oid
        &&& forall|i: int| 0 <= i < self.pending@.len() ==> entry_wf(#[trigger] self.pending@[i])
    }

    /// Whether an accumulator for `oid` exists.
    pub open spec fn has_oid(self, oid: u64) -> bool {
        exists|i: int| 0 <= i < self.pending@.len() && (#[trigger] self.pending@[i]).oid == oid
    }

    /// The index of the accumulator for `oid` (meaningful under `has_oid`).
    pub open spec fn idx_of(self, oid: u64) -> int {
        choose|i: int| 0 <= i < self.pending@.len() && (#[trigger] self.pending@[i]).oid == oid
    }

    /// The accumulator for `oid` (meaningful under `has_oid`).
    pub open spec fn entry_of(self, oid: u64) -> PendingOrder {
        self.pending@[self.idx_of(oid)]
    }

    /// Whether a fill of `(px, sz)` for `oid` keeps the sums in range.
    pub open spec fn fill_fits(self, oid: u64, px: Dec, sz: Dec) -> bool {
        let t0 = if self.has_oid(oid) {
            self.entry_of(oid).total_sz.units as int
        } else {
            0
        };
        let w0 = if self.has_oid(oid) {
            self.entry_of(oid).weighted_px.units as int
        } else {
            0
        };
        &&& px.units > i128::MIN
        &&& sz.units > i128::MIN
        &&& mul_fits(px.units as int, sz.units as int)
        &&& acc_ok(t0 + sz.units)
        &&& acc_ok(w0 + dec_mul(px.units as int, sz.units as int))
    }

    /// A fresh grouper with no pending ids.
    pub fn new() -> (g: Grouper)
        ensures
            g.wf(),
            g.pending@.len() == 0,
    {
        Grouper { pending: Vec::new() }
    }

    /// Linear scan for the accumulator of `oid`.
    fn find_idx(&self, oid: u64) -> (r: Option<usize>)
        ensures
            match r {
                Some(i) => i < self.pending@.len() && self.pending@[i as int].oid == oid,
                None => !self.has_oid(oid),
            },
    {
        let n = self.pending.len();
        let mut i: usize = 0;
        while i < n
            invariant
                n == self.pending@.len(),
                i <= n,
                forall|j: int| 0 <= j < i ==> (#[trigger] self.pending@[j]).oid != oid,
            decreases n - i,
        {
            if self.pending[i].oid == oid {
                return Some(i);
            }
            i = i + 1;
        }
        None
    }

    /// Accept one already-parsed fill: seed a fresh accumulator when the id
    /// is new (the caller then arms the one-shot debounce timer — the
    /// returned flag says so), add the size and the price-size product, and
    /// stamp the id as just seen. The direction and hash of the first fill
    /// win; later fills never overwrite them.
    pub fn on_fill_parsed(
        &mut self,
        user: String,
        coin: String,
        dir: Option<String>,
        hash: String,
        timestamp: u64,
        oid: u64,
        px: Dec,
        sz: Dec,
        now_ms: u64,
    ) -> (armed: bool)
        requires
            old(self).wf(),
            old(self).fill_fits(oid, px, sz),
        ensures
            final(self).wf(),
            armed == !old(self).has_oid(oid),
            final(self).has_oid(oid),
            fill_applied(
                *old(self),
                *final(self),
                user,
                coin,
                match dir {
                    Some(d) => d@,
                    None => "Unknown"@,
                },
                hash,
                timestamp,
                oid,
                px,
                sz,
                now_ms,
            ),
    {
        let weighted = px.mul(sz);
        match self.find_idx(oid) {
            Some(i) => {
                proof {
                    lemma_oid_at(*self, i as int, oid);
                }
                let updated = {
                    let e = &self.pending[i];
                    PendingOrder {
                        user: e.user.clone(),
                        coin: e.coin.clone(),
                        dir: e.dir.clone(),
                        total_sz: e.total_sz.add(sz),
                        weighted_px: e.weighted_px.add(weighted),
                        timestamp: e.timestamp,
                        last_seen: now_ms,
                        hash: e.hash.clone(),
                        oid: e.oid,
                        fills: Ghost(e.fills@.push((px, sz))),
                    }
                };
                proof {
                    lemma_sum_push(self.pending@[i as int].fills@, px, sz);
                }
                self.pending.set(i, updated);
                proof {
                    assert(self.pending@[i as int].oid == oid);
                    assert(self.has_oid(oid));
                }
                false
            },
            None => {
                let ghost first_fill: Seq<(Dec, Dec)> = seq![(px, sz)];
                let entry = PendingOrder {
                    user,
                    coin,
                    dir: match dir {
                        Some(d) => d,
                        None => "Unknown".to_owned(),
                    },
                    total_sz: sz,
                    weighted_px: weighted,
                    timestamp,
                    last_seen: now_ms,
                    hash,
                    oid,
                    fills: Ghost(first_fill),
                };
                proof {
                    lemma_sum_push(Seq::<(Dec, Dec)>::empty(), px, sz);
                    assert(seq![(px, sz)].drop_last() =~= Seq::<(Dec, Dec)>::empty());
                    assert(Seq::<(Dec, Dec)>::empty().push((px, sz)) =~= seq![(px, sz)]);
                }
                self.pending.push(entry);
                proof {
                    assert(self.pending@[self.pending@.len() - 1].oid == oid);
                    assert(self.has_oid(oid));
                }
                true
            },
        }
    }

    /// Accept one raw fill report for `user`: parse its price and size (a
    /// bad numeric string counts as zero), and fold it into the accumulator
    /// for its order id. When a sum would leave the machine range the fill
    /// is refused and the state unchanged.
    pub fn on_fill(&mut self, user: String, fill: &WsFill, now_ms: u64) -> (r: FillOutcome)
        requires
            old(self).wf(),
        ensures
            final(self).wf(),
            ({
                let px = fill_px(*fill);
                let sz = fill_sz(*fill);
                if old(self).fill_fits(fill.oid, px, sz) {
                    &&& r == (FillOutcome::Accepted {
                        armed_debounce: !old(self).has_oid(fill.oid),
                    })
                    &&& final(self).has_oid(fill.oid)
                    &&& fill_applied(
                        *old(self),
                        *final(self),
                        user,
                        fill.coin,
                        match fill.dir {
                            Some(d) => d@,
                            None => "Unknown"@,
                        },
                        fill.hash,
                        fill.time,
                        fill.oid,
                        px,
                        sz,
                        now_ms,
                    )
                } else {
                    r == FillOutcome::OutOfRange && *final(self) == *old(self)
                }
            }),
    {
        let px = parse_or_zero(&fill.px);
        let sz = parse_or_zero(&fill.sz);
        if !crate::decimal::mul_in_range(px, sz) {
            return FillOutcome::OutOfRange;
        }
        let weighted = px.mul(sz);
        let (t0, w0) = match self.find_idx(fill.oid) {
            Some(i) => {
                proof {
                    lemma_oid_at(*self, i as int, fill.oid);
                }
                (self.pending[i].total_sz, self.pending[i].weighted_px)
            },
            None => (Dec::zero(), Dec::zero()),
        };
        let t_ok = match t0.units.checked_add(sz.units) {
            Some(t) => -ACC_LIMIT <= t && t <= ACC_LIMIT,
            None => false,
        };
        let w_ok = match w0.units.checked_add(weighted.units) {
            Some(w) => -ACC_LIMIT <= w && w <= ACC_LIMIT,
            None => false,
        };
        if !(t_ok && w_ok) {
            return FillOutcome::OutOfRange;
        }
        let armed = self.on_fill_parsed(
            user,
            fill.coin.clone(),
            clone_opt_string(&fill.dir),
            fill.hash.clone(),
            fill.time,
            fill.oid,
            px,
            sz,
            now_ms,
        );
        FillOutcome::Accepted { armed_debounce: armed }
    }

    /// Fire the one-shot debounce timer for `oid`. If the id has been quiet
    /// for at least [`QUIET_MS`], the accumulator is removed and, when its
    /// total size is positive, emitted as one full order whose total size is
    /// the exact sum of the accepted fill sizes and whose average price is
    /// the volume-weighted average of their prices. A still-hot id is left
    /// untouched for the sweep; a zero or negative total is dropped
    /// silently, so no emitted order ever has a non-positive size.
    pub fn on_debounce(&mut self, oid: u64, now_ms: u64) -> (r: Option<FullOrder>)
        requires
            old(self).wf(),
        ensures
            final(self).wf(),
            !old(self).has_oid(oid) ==> r is None && *final(self) == *old(self),
            old(self).has_oid(oid) ==> ({
                let i = old(self).idx_of(oid);
                let e = old(self).pending@[i];
                if !(now_ms >= e.last_seen && now_ms - e.last_seen >= QUIET_MS) {
                    r is None && *final(self) == *old(self)
                } else {
                    &&& final(self).pending@ == old(self).pending@.remove(i)
                    &&& !final(self).has_oid(oid)
                    &&& (e.total_sz.units > 0 ==> (r matches Some(fo) && {
                        &&& is_emission_of(fo, e)
                        &&& fo.total_sz.units == sum_sz(e.fills@)
                        &&& fo.avg_px.units == dec_div(sum_wpx(e.fills@), sum_sz(e.fills@))
                        &&& fo.total_sz.units > 0
                    }))
                    &&& (e.total_sz.units <= 0 ==> r is None)
                }
            }),
    {
        match self.find_idx(oid) {
            None => None,
            Some(i) => {
                proof {
                    lemma_oid_at(*self, i as int, oid);
                }
                let quiet = now_ms >= self.pending[i].last_seen && now_ms - self.pending[i].last_seen
                    >= QUIET_MS;
                if !quiet {
                    return None;
                }
                let ghost pre = self.pending@;
                let e = self.pending.remove(i);
                proof {
                    lemma_remove_keeps_wf(pre, i as int);
                    lemma_removed_oid_gone(pre, i as int, oid, self.pending@);
                }
                if e.total_sz.is_positive() {
                    proof {
                        lemma_acc_div_fits(e.weighted_px.units as int);
                    }
                    let avg = e.weighted_px.div(e.total_sz);
                    Some(
                        FullOrder {
                            user: e.user,
                            coin: e.coin,
                            dir: e.dir,
                            total_sz: e.total_sz,
                            avg_px: avg,
                            timestamp: e.timestamp,
                            hash: e.hash,
                            oid: e.oid,
                        },
                    )
                } else {
                    None
                }
            },
        }
    }

    /// Periodic safety net: flush every accumulator that has been quiet for
    /// more than [`SWEEP_QUIET_MS`]. Stale entries with positive total size
    /// are emitted, in their stored order, exactly as the debounce path
    /// would emit them; stale entries without positive size are dropped; the
    /// rest stay untouched.
    pub fn sweep(&mut self, now_ms: u64) -> (out: Vec<FullOrder>)
        requires
            old(self).wf(),
        ensures
            final(self).wf(),
            final(self).pending@ == old(self).pending@.filter(
                |e: PendingOrder| !spec_stale(e, now_ms),
            ),
            ({
                let emitted = old(self).pending@.filter(
                    |e: PendingOrder| spec_stale(e, now_ms) && e.total_sz.units > 0,
                );
                &&& out@.len() == emitted.len()
                &&& forall|k: int|
                    0 <= k < out@.len() ==> is_emission_of(#[trigger] out@[k], emitted[k])
                        && out@[k].total_sz.units > 0
            }),
    {
        let ghost keep_p = |e: PendingOrder| !spec_stale(e, now_ms);
        let ghost emit_p = |e: PendingOrder| spec_stale(e, now_ms) && e.total_sz.units > 0;
        let n = self.pending.len();
        let mut kept: Vec<PendingOrder> = Vec::new();
        let mut out: Vec<FullOrder> = Vec::new();
        let mut i: usize = 0;
        proof {
            assert(self.pending@.subrange(0, 0) =~= Seq::<PendingOrder>::empty());
            reveal(Seq::filter);
        }
        while i < n
            invariant
                n == self.pending@.len(),
                i <= n,
                self.pending@ == old(self).pending@,
                old(self).wf(),
                kept@ == self.pending@.subrange(0, i as int).filter(keep_p),
                out@.len() == self.pending@.subrange(0, i as int).filter(emit_p).len(),
                forall|k: int|
                    0 <= k < out@.len() ==> is_emission_of(
                        #[trigger] out@[k],
                        self.pending@.subrange(0, i as int).filter(emit_p)[k],
                    ),
                keep_p == (|e: PendingOrder| !spec_stale(e, now_ms)),
                emit_p == (|e: PendingOrder| spec_stale(e, now_ms) && e.total_sz.units > 0),
            decreases n - i,
        {
            let ghost pre_sub = self.pending@.subrange(0, i as int);
            let e = &self.pending[i];
            let is_stale = now_ms >= e.last_seen && now_ms - e.last_seen > SWEEP_QUIET_MS;
            if is_stale {
                if e.total_sz.is_positive() {
                    proof {
                        lemma_acc_div_fits(e.weighted_px.units as int);
                    }
                    let avg = e.weighted_px.div(e.total_sz);
                    out.push(
                        FullOrder {
                            user: e.user.clone(),
                            coin: e.coin.clone(),
                            dir: e.dir.clone(),
                            total_sz: e.total_sz,
                            avg_px: avg,
                            timestamp: e.timestamp,
                            hash: e.hash.clone(),
                            oid: e.oid,
                        },
                    );
                }
            } else {
                kept.push(self.pending[i].clone());
            }
            proof {
                reveal(Seq::filter);
                let sub1 = self.pending@.subrange(0, i + 1);
                assert(sub1.drop_last() =~= pre_sub);
                assert(sub1.last() == self.pending@[i as int]);
            }
            i = i + 1;
        }
        proof {
            assert(self.pending@.subrange(0, n as int) =~= self.pending@);
            lemma_filter_distinct_oids(self.pending@, keep_p);
            lemma_filter_elems(self.pending@, keep_p);
            assert forall|a: int| 0 <= a < kept@.len() implies entry_wf(#[trigger] kept@[a]) by {
                let i0 = choose|i0: int|
                    0 <= i0 < self.pending@.len() && self.pending@[i0] == self.pending@.filter(
                        keep_p,
                    )[a];
            }
        }
        self.pending = kept;
        out
    }
}

/// Parse a venue numeric string, a failed or out-of-range parse counting
/// as zero.
fn parse_or_zero(s: &str) -> (d: Dec)
    ensures
        d.units == units_or_zero(s@),
        d.units > i128::MIN,
{
    match crate::parser::parse_price(s) {
        Ok(d) => d,
        Err(_) => Dec::zero(),
    }
}

/// Every element of a filtered sequence is an element of the original.
proof fn lemma_filter_elems(s: Seq<PendingOrder>, p: spec_fn(PendingOrder) -> bool)
    ensures
        forall|k: int|
            0 <= k < s.filter(p).len() ==> exists|i: int|
                0 <= i < s.len() && s[i] == #[trigger] s.filter(p)[k],
    decreases s.len(),
{
    reveal(Seq::filter);
    if s.len() > 0 {
        let s0 = s.drop_last();
        lemma_filter_elems(s0, p);
        assert forall|k: int| 0 <= k < s.filter(p).len() implies exists|i: int|
            0 <= i < s.len() && s[i] == #[trigger] s.filter(p)[k] by {
            if k < s0.filter(p).len() {
                let i = choose|i: int| 0 <= i < s0.len() && s0[i] == s0.filter(p)[k];
                assert(s[i] == s.filter(p)[k]);
            } else {
                assert(s[s.len() - 1] == s.filter(p)[k]);
            }
        }
    }
}

/// Filtering a sequence of entries with pairwise distinct ids leaves the
/// ids pairwise distinct.
proof fn lemma_filter_distinct_oids(s: Seq<PendingOrder>, p: spec_fn(PendingOrder) -> bool)
    requires
        forall|a: int, b: int|
            0 <= a < b < s.len() ==> (#[trigger] s[a]).oid != (#[trigger] s[b]).oid,
    ensures
        forall|a: int, b: int|
            0 <= a < b < s.filter(p).len() ==> (#[trigger] s.filter(p)[a]).oid != (
            #[trigger] s.filter(p)[b]).oid,
    decreases s.len(),
{
    reveal(Seq::filter);
    if s.len() > 0 {
        let s0 = s.drop_last();
        let e = s.last();
        lemma_filter_distinct_oids(s0, p);
        lemma_filter_elems(s0, p);
        let f = s.filter(p);
        let f0 = s0.filter(p);
        assert forall|a: int, b: int| 0 <= a < b < f.len() implies (#[trigger] f[a]).oid != (
        #[trigger] f[b]).oid by {
            if b < f0.len() {
                assert(f[a] == f0[a] && f[b] == f0[b]);
            } else {
                assert(p(e) && f[b] == e);
                assert(f[a] == f0[a]);
                let i = choose|i: int| 0 <= i < s0.len() && s0[i] == f0[a];
                assert(s[i].oid != s[s.len() - 1].oid);
            }
        }
    }
}

/// Removing one entry keeps all ids distinct and all entries well-formed.
proof fn lemma_remove_keeps_wf(s: Seq<PendingOrder>, i: int)
    requires
        0 <= i < s.len(),
        forall|a: int, b: int|
            0 <= a < b < s.len() ==> (#[trigger] s[a]).oid != (#[trigger] s[b]).oid,
        forall|a: int| 0 <= a < s.len() ==> entry_wf(#[trigger] s[a]),
    ensures
        forall|a: int, b: int|
            0 <= a < b < s.remove(i).len() ==> (#[trigger] s.remove(i)[a]).oid != (
            #[trigger] s.remove(i)[b]).oid,
        forall|a: int| 0 <= a < s.remove(i).len() ==> entry_wf(#[trigger] s.remove(i)[a]),
{
    let t = s.remove(i);
    assert forall|a: int| 0 <= a < t.len() implies entry_wf(#[trigger] t[a]) by {
        if a < i {
            assert(t[a] == s[a]);
        } else {
            assert(t[a] == s[a + 1]);
        }
    }
    assert forall|a: int, b: int| 0 <= a < b < t.len() implies (#[trigger] t[a]).oid != (
    #[trigger] t[b]).oid by {
        let a0 = if a < i {
            a
        } else {
            a + 1
        };
        let b0 = if b < i {
            b
        } else {
            b + 1
        };
        assert(t[a] == s[a0]);
        assert(t[b] == s[b0]);
        assert(s[a0].oid != s[b0].oid);
    }
}

/// After removing the only entry holding `oid`, no entry holds it.
proof fn lemma_removed_oid_gone(s: Seq<PendingOrder>, i: int, oid: u64, t: Seq<PendingOrder>)
    requires
        0 <= i < s.len(),
        s[i].oid == oid,
        forall|a: int, b: int|
            0 <= a < b < s.len() ==> (#[trigger] s[a]).oid != (#[trigger] s[b]).oid,
        t == s.remove(i),
    ensures
        !(exists|a: int| 0 <= a < t.len() && (#[trigger] t[a]).oid == oid),
{
    assert forall|a: int| 0 <= a < t.len() implies (#[trigger] t[a]).oid != oid by {
        if a < i {
            assert(t[a] == s[a]);
            assert(s[a].oid != s[i].oid);
        } else {
            assert(t[a] == s[a + 1]);
            assert(s[i].oid != s[a + 1].oid);
        }
    }
}

impl Clone for PendingOrder {
    /// An exact copy, field for field, with the ghost fill record.
    fn clone(&self) -> (r: PendingOrder)
        ensures
            r == *self,
    {
        PendingOrder {
            user: self.user.clone(),
            coin: self.coin.clone(),
            dir: self.dir.clone(),
            total_sz: self.total_sz,
            weighted_px: self.weighted_px,
            timestamp: self.timestamp,
            last_seen: self.last_seen,
            hash: self.hash.clone(),
            oid: self.oid,
            fills: Ghost(self.fills@),
        }
    }
}

/// A sum within the accumulator limit can stand as a dividend of the
/// average-price division.
pub proof fn lemma_acc_div_fits(x: int)
    requires
        acc_ok(x),
    ensures
        div_fits(x),
        x > i128::MIN,
{
    assert((ACC_LIMIT as int) * (DEC_UNIT as int) <= i128::MAX as int) by (nonlinear_arith);
    if x >= 0 {
        vstd::arithmetic::mul::lemma_mul_inequality(x, ACC_LIMIT as int, DEC_UNIT as int);
    } else {
        vstd::arithmetic::mul::lemma_mul_inequality(-(ACC_LIMIT as int), x, DEC_UNIT as int);
        assert((-(ACC_LIMIT as int)) * (DEC_UNIT as int) == -((ACC_LIMIT as int) * (
        DEC_UNIT as int))) by (nonlinear_arith);
    }
}

/// Under well-formedness, an index holding `oid` is the index `idx_of`
/// chooses, and `has_oid` holds.
pub proof fn lemma_oid_at(g: Grouper, i: int, oid: u64)
    requires
        g.wf(),
        0 <= i < g.pending@.len(),
        g.pending@[i].oid == oid,
    ensures
        g.has_oid(oid),
        g.idx_of(oid) == i,
{
    assert(g.has_oid(oid));
    let j = g.idx_of(oid);
    if i < j {
        assert(g.pending@[i].oid != g.pending@[j].oid);
    } else if j < i {
        assert(g.pending@[j].oid != g.pending@[i].oid);
    }
}

/// Appending a fill extends both running sums by exactly that fill's
/// contribution.
proof fn lemma_sum_push(fills: Seq<(Dec, Dec)>, px: Dec, sz: Dec)
    ensures
        sum_sz(fills.push((px, sz))) == sum_sz(fills) + sz.units,
        sum_wpx(fills.push((px, sz))) == sum_wpx(fills) + dec_mul(px.units as int, sz.units as int),
{
    let pushed = fills.push((px, sz));
    assert(pushed.drop_last() =~= fills);
    assert(pushed.last() == (px, sz));
}

/// Law: aggregation is order-insensitive. Two fills contribute the same
/// size sum and the same price-size sum whichever of them arrives first,
/// so the emitted totals do not depend on delivery order within an id.
pub proof fn lemma_aggregation_order_insensitive(
    fills: Seq<(Dec, Dec)>,
    a: (Dec, Dec),
    b: (Dec, Dec),
)
    ensures
        sum_sz(fills.push(a).push(b)) == sum_sz(fills.push(b).push(a)),
        sum_wpx(fills.push(a).push(b)) == sum_wpx(fills.push(b).push(a)),
{
    lemma_sum_push(fills, a.0, a.1);
    lemma_sum_push(fills, b.0, b.1);
    lemma_sum_push(fills.push(a), b.0, b.1);
    lemma_sum_push(fills.push(b), a.0, a.1);
    assert(fills.push(a).push(b) == fills.push((a.0, a.1)).push((b.0, b.1)));
    assert(fills.push(b).push(a) == fills.push((b.0, b.1)).push((a.0, a.1)));
}

/// Law: an emitted order reports exactly the accepted fills. Its total
/// size is the sum of the child fill sizes, and its average price is the
/// truncating quotient of the summed price-size products by that total —
/// the volume-weighted average — on the debounce path and the sweep path
/// alike.
pub proof fn lemma_emission_sums(fo: FullOrder, e: PendingOrder)
    requires
        entry_wf(e),
        is_emission_of(fo, e),
    ensures
        fo.total_sz.units == sum_sz(e.fills@),
        fo.avg_px.units == dec_div(sum_wpx(e.fills@), sum_sz(e.fills@)),
{
}

/// Law: a group holding exactly one fill is emitted at that fill's price,
/// whenever the price-size product is exactly representable at the fixed
/// scale (no truncation in `px * sz`).
pub proof fn lemma_single_fill_avg(px: Dec, sz: Dec)
    requires
        sz.units > 0,
        mul_fits(px.units as int, sz.units as int),
        (px.units as int * sz.units as int) % (DEC_UNIT as int) == 0,
    ensures
        dec_div(dec_mul(px.units as int, sz.units as int), sz.units as int) == px.units,
        sum_sz(seq![(px, sz)]) == sz.units,
        sum_wpx(seq![(px, sz)]) == dec_mul(px.units as int, sz.units as int),
        dec_div(sum_wpx(seq![(px, sz)]), sum_sz(seq![(px, sz)])) == px.units,
{
    let a = px.units as int;
    let z = sz.units as int;
    let u = DEC_UNIT as int;
    let m = dec_mul(a, z);
    crate::decimal::lemma_tdiv_of_multiple(a * z, u);
    assert(m * u == a * z);
    crate::decimal::lemma_tdiv_exact(a, z);
    assert(a * z == z * a) by (nonlinear_arith);
    assert(dec_div(m, z) == px.units);
    let fills = seq![(px, sz)];
    assert(fills.drop_last() =~= Seq::<(Dec, Dec)>::empty());
    assert(fills.last() == (px, sz));
    assert(sum_sz(Seq::<(Dec, Dec)>::empty()) == 0);
    assert(sum_wpx(Seq::<(Dec, Dec)>::empty()) == 0);
    assert(sum_sz(fills) == sum_sz(fills.drop_last()) + fills.last().1.units);
    assert(sum_wpx(fills) == sum_wpx(fills.drop_last()) + dec_mul(
        fills.last().0.units as int,
        fills.last().1.units as int,
    ));
}

/// Law: two fills of the same size at prices `a` and `b` average to
/// `(a + b) / 2`, whenever both price-size products are exactly
/// representable and `a + b` is even in units (the midpoint itself
/// representable).
pub proof fn lemma_equal_size_two_fill_avg(a: Dec, b: Dec, s: Dec)
    requires
        s.units > 0,
        mul_fits(a.units as int, s.units as int),
        mul_fits(b.units as int, s.units as int),
        (a.units as int * s.units as int) % (DEC_UNIT as int) == 0,
        (b.units as int * s.units as int) % (DEC_UNIT as int) == 0,
        (a.units + b.units) % 2 == 0,
    ensures
        dec_div(
            dec_mul(a.units as int, s.units as int) + dec_mul(b.units as int, s.units as int),
            2 * s.units as int,
        ) == (a.units + b.units) / 2,
{
    let au = a.units as int;
    let bu = b.units as int;
    let su = s.units as int;
    let u = DEC_UNIT as int;
    let ma = dec_mul(au, su);
    let mb = dec_mul(bu, su);
    crate::decimal::lemma_tdiv_of_multiple(au * su, u);
    crate::decimal::lemma_tdiv_of_multiple(bu * su, u);
    assert(ma * u == au * su);
    assert(mb * u == bu * su);
    let c = (au + bu) / 2;
    vstd::arithmetic::div_mod::lemma_fundamental_div_mod(au + bu, 2);
    assert(au + bu == 2 * c);
    assert((ma + mb) * u == (au + bu) * su) by (nonlinear_arith)
        requires
            ma * u == au * su,
            mb * u == bu * su,
    ;
    assert((au + bu) * su == c * (2 * su)) by (nonlinear_arith)
        requires
            au + bu == 2 * c,
    ;
    crate::decimal::lemma_tdiv_exact(c, 2 * su);
    assert(dec_div(ma + mb, 2 * su) == tdiv((ma + mb) * u, 2 * su));
    assert(tdiv((ma + mb) * u, 2 * su) == tdiv(c * (2 * su), 2 * su));
}

} // verus!
