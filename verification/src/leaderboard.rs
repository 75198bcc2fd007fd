//! The daily leaderboard metrics, computed from a trader's stored trades.
//!
//! The store queries (sums, counts, the daily-return and profit-and-loss
//! series) happen outside the library; this module holds the verified
//! arithmetic that turns those plain values into the leaderboard row:
//! profit percentage, win rate, a simplified Sharpe figure, and the maximum
//! drawdown of the running equity curve.

use vstd::prelude::*;
use crate::decimal::{
    dec_div, dec_mul, div_fits, lemma_dec_mul_bound, lemma_tdiv_le, lemma_tdiv_ratio, mul_fits,
    pow10, round_he, tdiv, units_from_parts, Dec, DEC_UNIT,
};

verus! {

/// Bound, in units, on each element of a metric series: large enough for
/// any realistic account, small enough that every intermediate sum, square
/// and quotient stays in machine range.
pub const METRIC_LIMIT: i128 = 100_000_000_000_000_000;

/// Largest number of series elements the metric computations accept.
pub const SERIES_LIMIT: usize = 100;

/// The computed leaderboard metrics for one trader.
#[derive(Debug)]
pub struct TraderMetrics {
    pub pnl_percent_30d: Dec,
    pub win_rate: Dec,
    pub sharpe: Dec,
    pub max_drawdown: Dec,
    pub followers_count: i64,
    pub volume_7d: Dec,
}

/// The mantissa and scale of the square root that `rust_decimal` computes
/// for a nonnegative fixed-scale value; a function of the units alone.
pub uninterp spec fn sqrt_parts(units: int) -> (int, int);

/// Relies on rust_decimal's `MathematicalOps::sqrt` (Babylonian method),
/// whose result depends on the value alone; the root of a nonnegative
/// value is nonnegative, with a 96-bit mantissa and a scale of at most 28.
#[verifier::external_body]
fn dec_sqrt_raw(units: i128) -> (r: (i128, u32))
    requires
        0 <= units,
    ensures
        r.0 == sqrt_parts(units as int).0,
        r.1 == sqrt_parts(units as int).1,
        0 <= r.0 < 0x1000000000000000000000000,
        r.1 <= 28,
{
    let root = rust_decimal::Decimal::try_from_i128_with_scale(units, 12)
        .ok()
        .and_then(|d| rust_decimal::MathematicalOps::sqrt(&d))
        .unwrap_or(rust_decimal::Decimal::ZERO);
    (root.mantissa(), root.scale())
}

/// The square root's unit count at the fixed scale, zero when the rescaled
/// root would not fit.
pub open spec fn spec_sqrt_units(units: int) -> int {
    let m = sqrt_parts(units).0;
    let sc = sqrt_parts(units).1;
    if sc > 12 || -(i128::MAX as int) <= m * pow10((12 - sc) as nat) <= i128::MAX as int {
        units_from_parts(m, sc as nat)
    } else {
        0
    }
}

/// The square root of a nonnegative value, through `rust_decimal`.
fn dec_sqrt(v: Dec) -> (r: Dec)
    requires
        v.units >= 0,
    ensures
        r.units == spec_sqrt_units(v.units as int),
{
    let (m, sc) = dec_sqrt_raw(v.units);
    match Dec::from_parts(m, sc) {
        Some(d) => d,
        None => Dec::zero(),
    }
}

/// The win rate in percent, two decimal places: `wins / total * 100`, zero
/// when there are no scored trades.
pub open spec fn spec_win_rate(wins: int, total: int) -> int {
    if total > 0 {
        round_he(
            dec_mul(dec_div(wins * DEC_UNIT, total * DEC_UNIT), 100 * DEC_UNIT),
            pow10(10),
        )
    } else {
        0
    }
}

/// The share of scored trades that closed with a profit, in percent.
pub fn win_rate(wins: i64, total: i64) -> (r: Dec)
    requires
        0 <= wins <= total,
        total <= 100_000_000_000_000,
    ensures
        r.units == spec_win_rate(wins as int, total as int),
{
    if total <= 0 {
        return Dec::zero();
    }
    let w = Dec::from_int(wins);
    let t = Dec::from_int(total);
    let ghost u = DEC_UNIT as int;
    let ghost wu = wins as int * u;
    let ghost tu = total as int * u;
    proof {
        assert(0 <= wu && wu <= tu && tu <= 100_000_000_000_000 * u && wu * u <= i128::MAX as int
            && wu * u <= (tu) * u) by (nonlinear_arith)
            requires
                0 <= wins as int <= total as int <= 100_000_000_000_000,
                wu == wins as int * u,
                tu == total as int * u,
                u == 1_000_000_000_000,
        ;
    }
    let q = w.div(t);
    proof {
        lemma_tdiv_ratio(wu * u, tu, u);
        assert(q.units as int * (100 * u) <= u128::MAX as int && -(u128::MAX as int) <= q.units
            as int * (100 * u)) by (nonlinear_arith)
            requires
                0 <= q.units as int <= u,
                u == 1_000_000_000_000,
        ;
    }
    let pct = q.mul(Dec::from_units(100 * DEC_UNIT));
    proof {
        lemma_dec_mul_bound(q.units as int, 100 * u);
        assert(pow10(10) == 10_000_000_000int) by {
            reveal_with_fuel(pow10, 11);
        };
    }
    pct.round_dp(2)
}

/// The 30-day profit in percent of the average position, two decimal
/// places: `pnl / avg_position * 100`, zero when the average position is
/// not positive.
pub open spec fn spec_pnl_percent(pnl: int, avg_position: int) -> int {
    if avg_position > 0 {
        round_he(dec_mul(dec_div(pnl, avg_position), 100 * DEC_UNIT), pow10(10))
    } else {
        0
    }
}

/// The 30-day profit of a trader relative to its average position size.
pub fn pnl_percent(pnl: Dec, avg_position: Dec) -> (r: Dec)
    requires
        -METRIC_LIMIT <= pnl.units <= METRIC_LIMIT,
        avg_position.units > 0 ==> mul_fits(
            dec_div(pnl.units as int, avg_position.units as int),
            100 * DEC_UNIT as int,
        ),
    ensures
        r.units == spec_pnl_percent(pnl.units as int, avg_position.units as int),
{
    if !avg_position.is_positive() {
        return Dec::zero();
    }
    let ghost u = DEC_UNIT as int;
    proof {
        assert(div_fits(pnl.units as int)) by (nonlinear_arith)
            requires
                -100_000_000_000_000_000 <= pnl.units as int <= 100_000_000_000_000_000,
        ;
    }
    let q = pnl.div(avg_position);
    proof {
        lemma_tdiv_le(pnl.units as int * u, avg_position.units as int);
        assert(q.units > i128::MIN) by (nonlinear_arith)
            requires
                -100_000_000_000_000_000 <= pnl.units as int <= 100_000_000_000_000_000,
                u == 1_000_000_000_000,
                (if pnl.units as int * u >= 0 {
                    -(pnl.units as int * u)
                } else {
                    pnl.units as int * u
                }) <= q.units as int <= (if pnl.units as int * u >= 0 {
                    pnl.units as int * u
                } else {
                    -(pnl.units as int * u)
                }),
        ;
    }
    let pct = q.mul(Dec::from_units(100 * DEC_UNIT));
    proof {
        lemma_dec_mul_bound(q.units as int, 100 * u);
        assert(pow10(10) == 10_000_000_000int) by {
            reveal_with_fuel(pow10, 11);
        };
    }
    pct.round_dp(2)
}

/// The sum of the units of a series.
pub open spec fn sum_units(s: Seq<Dec>) -> int
    decreases s.len(),
{
    if s.len() == 0 {
        0
    } else {
        sum_units(s.drop_last()) + s.last().units
    }
}

/// Every element within the metric bound.
pub open spec fn series_bounded(s: Seq<Dec>) -> bool {
    forall|i: int|
        0 <= i < s.len() ==> -(METRIC_LIMIT as int) <= (#[trigger] s[i]).units <= METRIC_LIMIT as int
}

/// The mean of a series: its sum over `max(len, 1)`.
pub open spec fn spec_mean(s: Seq<Dec>) -> int {
    let n = if s.len() == 0 {
        1int
    } else {
        s.len() as int
    };
    dec_div(sum_units(s), n * DEC_UNIT)
}

/// The variance of a series about its mean, each squared deviation taken
/// at the fixed scale.
pub open spec fn spec_variance(s: Seq<Dec>) -> int {
    let n = if s.len() == 0 {
        1int
    } else {
        s.len() as int
    };
    dec_div(sum_sq_dev(s, spec_mean(s)), n * DEC_UNIT)
}

/// The sum of squared deviations from `mean`, in units.
pub open spec fn sum_sq_dev(s: Seq<Dec>, mean: int) -> int
    decreases s.len(),
{
    if s.len() == 0 {
        0
    } else {
        sum_sq_dev(s.drop_last(), mean) + dec_mul(s.last().units - mean, s.last().units - mean)
    }
}

/// The simplified Sharpe figure of a return series, three decimal places:
/// the mean daily return over the square root of its variance, zero when
/// the variance (or the computed root) is not positive.
pub open spec fn spec_sharpe(s: Seq<Dec>) -> int {
    let mean = spec_mean(s);
    let var = spec_variance(s);
    if var > 0 {
        let root = spec_sqrt_units(var);
        if root > 0 {
            round_he(dec_div(mean, root), pow10(9))
        } else {
            0
        }
    } else {
        0
    }
}

/// Sum a bounded series.
fn sum_series(s: &Vec<Dec>) -> (r: Dec)
    requires
        series_bounded(s@),
        s@.len() <= SERIES_LIMIT,
    ensures
        r.units == sum_units(s@),
        -(METRIC_LIMIT as int) * s@.len() <= r.units <= (METRIC_LIMIT as int) * s@.len(),
        -(METRIC_LIMIT as int) * 100 <= r.units <= (METRIC_LIMIT as int) * 100,
{
    let n = s.len();
    let mut acc: i128 = 0;
    let mut i: usize = 0;
    proof {
        assert(s@.subrange(0, 0) =~= Seq::<Dec>::empty());
        assert((METRIC_LIMIT as int) * 0 == 0) by (nonlinear_arith);
    }
    while i < n
        invariant
            n == s@.len(),
            i <= n,
            n <= SERIES_LIMIT,
            series_bounded(s@),
            acc as int == sum_units(s@.subrange(0, i as int)),
            -(METRIC_LIMIT as int) * (i as int) <= acc as int <= (METRIC_LIMIT as int) * (i as int),
        decreases n - i,
    {
        proof {
            let sub1 = s@.subrange(0, i + 1);
            assert(sub1.drop_last() =~= s@.subrange(0, i as int));
            assert(sub1.last() == s@[i as int]);
            assert((METRIC_LIMIT as int) * (i as int + 1) == (METRIC_LIMIT as int) * (i as int)
                + METRIC_LIMIT as int) by (nonlinear_arith);
            assert((-(METRIC_LIMIT as int)) * (i as int + 1) == -((METRIC_LIMIT as int) * (
            i as int + 1)) && (-(METRIC_LIMIT as int)) * (i as int) == -((METRIC_LIMIT as int) * (
            i as int))) by (nonlinear_arith);
            assert((METRIC_LIMIT as int) * (i as int + 1) <= (METRIC_LIMIT as int) * 100
                && (METRIC_LIMIT as int) * (i as int) <= (METRIC_LIMIT as int) * 100)
                by (nonlinear_arith)
                requires
                    0 <= i as int + 1 <= 100,
                    METRIC_LIMIT as int >= 0,
            ;
            assert(-(METRIC_LIMIT as int) <= s@[i as int].units <= METRIC_LIMIT as int);
            assert(-(METRIC_LIMIT as int) * (i as int + 1) <= acc as int + s@[i as int].units <= (
            METRIC_LIMIT as int) * (i as int + 1));
            assert((METRIC_LIMIT as int) * 100 == 10_000_000_000_000_000_000int)
                by (nonlinear_arith);
        }
        acc = acc + s[i].units;
        i = i + 1;
    }
    proof {
        assert(s@.subrange(0, n as int) =~= s@);
        assert((METRIC_LIMIT as int) * (n as int) <= (METRIC_LIMIT as int) * 100)
            by (nonlinear_arith)
            requires
                0 <= n as int <= 100,
                METRIC_LIMIT as int >= 0,
        ;
        assert((-(METRIC_LIMIT as int)) * (n as int) == -((METRIC_LIMIT as int) * (n as int))
            && (-(METRIC_LIMIT as int)) * 100 == -((METRIC_LIMIT as int) * 100))
            by (nonlinear_arith);
        assert((METRIC_LIMIT as int) * 100 == 10_000_000_000_000_000_000int) by (nonlinear_arith);

    }
    Dec::from_units(acc)
}

/// The simplified Sharpe figure of a bounded daily-return series.
pub fn sharpe(daily: &Vec<Dec>) -> (r: Dec)
    requires
        series_bounded(daily@),
        daily@.len() <= SERIES_LIMIT,
    ensures
        r.units == spec_sharpe(daily@),
{
    let total = sum_series(daily);
    let n: i64 = if daily.len() == 0 {
        1
    } else {
        daily.len() as i64
    };
    let ghost u = DEC_UNIT as int;
    proof {
        lemma_series_sum_fits(total.units as int);
        assert(n as int * u >= u) by (nonlinear_arith)
            requires
                n as int >= 1,
                u == 1_000_000_000_000,
        ;
        if daily@.len() == 0 {
            assert(total.units == 0);
            assert(-(METRIC_LIMIT as int) * (n as int) <= total.units
                <= (METRIC_LIMIT as int) * (n as int)) by (nonlinear_arith)
                requires
                    total.units == 0,
                    n as int >= 1,
                    METRIC_LIMIT == 100_000_000_000_000_000,
            ;
        }
    }
    let mean = total.div(Dec::from_int(n));
    proof {
        lemma_mean_bound(total.units as int, mean.units as int, n as int);
        assert(mean.units == spec_mean(daily@));
    }
    let mut sq_sum: i128 = 0;
    let m = daily.len();
    let mut i: usize = 0;
    proof {
        assert(daily@.subrange(0, 0) =~= Seq::<Dec>::empty());
        assert(4_000_000_000_000_000_000_000_0int * 0 == 0) by (nonlinear_arith);
    }
    while i < m
        invariant
            m == daily@.len(),
            i <= m,
            m <= SERIES_LIMIT,
            series_bounded(daily@),
            -(METRIC_LIMIT as int) <= mean.units as int <= METRIC_LIMIT as int,
            sq_sum as int == sum_sq_dev(daily@.subrange(0, i as int), mean.units as int),
            0 <= sq_sum as int <= 90_000_000_000_000_000_000_000int * (i as int),
        decreases m - i,
    {
        let d = daily[i].sub(mean);
        let ghost di = d.units as int;
        proof {
            assert(-(300_000_000_000_000_000int) <= di <= 300_000_000_000_000_000int);
            assert(mul_fits(di, di) && di * di <= 90_000_000_000_000_000_000_000_000_000_000_000int)
                by (nonlinear_arith)
                requires
                    -(300_000_000_000_000_000int) <= di <= 300_000_000_000_000_000int,
            ;
            lemma_sq_dev_step(di);
            let sub1 = daily@.subrange(0, i + 1);
            assert(sub1.drop_last() =~= daily@.subrange(0, i as int));
            assert(sub1.last() == daily@[i as int]);
            assert(90_000_000_000_000_000_000_000int * (i as int + 1)
                == 90_000_000_000_000_000_000_000int * (i as int)
                + 90_000_000_000_000_000_000_000int) by (nonlinear_arith);
            assert(90_000_000_000_000_000_000_000int * (i as int + 1)
                <= 90_000_000_000_000_000_000_000int * 100) by (nonlinear_arith)
                requires
                    i as int + 1 <= 100,
            ;
        }
        let sq = d.mul(d);
        sq_sum = sq_sum + sq.units;
        i = i + 1;
    }
    proof {
        assert(daily@.subrange(0, m as int) =~= daily@);
        assert(90_000_000_000_000_000_000_000int * (m as int)
            <= 90_000_000_000_000_000_000_000int * 100) by (nonlinear_arith)
            requires
                m as int <= 100,
        ;
        assert(div_fits(sq_sum as int)) by (nonlinear_arith)
            requires
                0 <= sq_sum as int <= 9_000_000_000_000_000_000_000_000int,
        ;
    }
    let variance = Dec::from_units(sq_sum).div(Dec::from_int(n));
    proof {
        assert(variance.units == spec_variance(daily@));
        lemma_tdiv_le(sq_sum as int * u, n as int * u);
    }
    if !variance.is_positive() {
        return Dec::zero();
    }
    let root = dec_sqrt(variance);
    if !root.is_positive() {
        return Dec::zero();
    }
    proof {
        assert(div_fits(mean.units as int)) by (nonlinear_arith)
            requires
                -(METRIC_LIMIT as int) <= mean.units as int <= METRIC_LIMIT as int,
                METRIC_LIMIT == 100_000_000_000_000_000,
        ;
    }
    let ratio = mean.div(root);
    proof {
        lemma_tdiv_le(mean.units as int * u, root.units as int);
        assert(ratio.units > i128::MIN && -(i128::MAX - DEC_UNIT) <= ratio.units <= i128::MAX
            - DEC_UNIT) by (nonlinear_arith)
            requires
                (if mean.units as int * u >= 0 {
                    -(mean.units as int * u)
                } else {
                    mean.units as int * u
                }) <= ratio.units as int <= (if mean.units as int * u >= 0 {
                    mean.units as int * u
                } else {
                    -(mean.units as int * u)
                }),
                -(METRIC_LIMIT as int) <= mean.units as int <= METRIC_LIMIT as int,
                u == 1_000_000_000_000,
                METRIC_LIMIT == 100_000_000_000_000_000,
        ;
        assert(pow10(9) == 1_000_000_000int) by {
            reveal_with_fuel(pow10, 10);
        };
    }
    ratio.round_dp(3)
}

/// The state of the drawdown fold after a series: running equity, the peak
/// so far, and the worst drawdown seen.
pub open spec fn dd_state(s: Seq<Dec>) -> (int, int, int)
    decreases s.len(),
{
    if s.len() == 0 {
        (0, 0, 0)
    } else {
        let prev = dd_state(s.drop_last());
        let c = prev.0 + s.last().units;
        let p = if c > prev.1 {
            c
        } else {
            prev.1
        };
        let guard = if p > DEC_UNIT as int {
            p
        } else {
            DEC_UNIT as int
        };
        let d = dec_div(p - c, guard);
        let m = if d > prev.2 {
            d
        } else {
            prev.2
        };
        (c, p, m)
    }
}

/// The maximum drawdown of the running equity curve: each step divides the
/// distance from the peak by the peak (floored at one).
pub open spec fn spec_max_drawdown(s: Seq<Dec>) -> int {
    dd_state(s).2
}

/// The worst peak-to-trough drawdown of a bounded profit-and-loss series,
/// as a fraction of the peak.
pub fn max_drawdown(pnls: &Vec<Dec>) -> (r: Dec)
    requires
        series_bounded(pnls@),
        pnls@.len() <= SERIES_LIMIT,
    ensures
        r.units == spec_max_drawdown(pnls@),
        0 <= r.units <= 40_000_000_000_000_000_000,
{
    let n = pnls.len();
    let mut current: i128 = 0;
    let mut peak: i128 = 0;
    let mut max_dd: i128 = 0;
    let mut i: usize = 0;
    proof {
        assert(pnls@.subrange(0, 0) =~= Seq::<Dec>::empty());
        assert((METRIC_LIMIT as int) * 0 == 0) by (nonlinear_arith);
    }
    while i < n
        invariant
            n == pnls@.len(),
            i <= n,
            n <= SERIES_LIMIT,
            series_bounded(pnls@),
            (current as int, peak as int, max_dd as int) == dd_state(pnls@.subrange(0, i as int)),
            -(METRIC_LIMIT as int) * (i as int) <= current as int <= (METRIC_LIMIT as int) * (
            i as int),
            0 <= peak as int <= (METRIC_LIMIT as int) * (i as int),
            0 <= max_dd as int <= 40_000_000_000_000_000_000int,
        decreases n - i,
    {
        proof {
            let sub1 = pnls@.subrange(0, i + 1);
            assert(sub1.drop_last() =~= pnls@.subrange(0, i as int));
            assert(sub1.last() == pnls@[i as int]);
            assert((METRIC_LIMIT as int) * (i as int + 1) == (METRIC_LIMIT as int) * (i as int)
                + METRIC_LIMIT as int) by (nonlinear_arith);
            assert((-(METRIC_LIMIT as int)) * (i as int + 1) == -((METRIC_LIMIT as int) * (
            i as int + 1)) && (-(METRIC_LIMIT as int)) * (i as int) == -((METRIC_LIMIT as int) * (
            i as int))) by (nonlinear_arith);
            assert((METRIC_LIMIT as int) * (i as int + 1) <= (METRIC_LIMIT as int) * 100
                && (METRIC_LIMIT as int) * (i as int) <= (METRIC_LIMIT as int) * 100)
                by (nonlinear_arith)
                requires
                    0 <= i as int + 1 <= 100,
                    METRIC_LIMIT as int >= 0,
            ;
        }
        current = current + pnls[i].units;
        if current > peak {
            peak = current;
        }
        let guard: i128 = if peak > DEC_UNIT {
            peak
        } else {
            DEC_UNIT
        };
        proof {
            assert(div_fits(peak as int - current as int)) by (nonlinear_arith)
                requires
                    -(METRIC_LIMIT as int) * 100 <= current as int <= (METRIC_LIMIT as int) * 100,
                    current as int <= peak as int <= (METRIC_LIMIT as int) * 100,
                    METRIC_LIMIT == 100_000_000_000_000_000,
            ;
        }
        let dd = Dec::from_units(peak - current).div(Dec::from_units(guard));
        proof {
            lemma_dd_bound(peak as int, current as int, guard as int, dd.units as int);
        }
        if dd.units > max_dd {
            max_dd = dd.units;
        }
        i = i + 1;
    }
    proof {
        assert(pnls@.subrange(0, n as int) =~= pnls@);
    }
    Dec::from_units(max_dd)
}

/// Assemble the leaderboard row from the store's plain figures.
pub fn trader_metrics(
    pnl_30d: Dec,
    avg_position: Dec,
    wins: i64,
    total: i64,
    daily_returns: &Vec<Dec>,
    pnls: &Vec<Dec>,
    followers_count: i64,
    volume_7d: Dec,
) -> (r: TraderMetrics)
    requires
        -METRIC_LIMIT <= pnl_30d.units <= METRIC_LIMIT,
        avg_position.units > 0 ==> mul_fits(
            dec_div(pnl_30d.units as int, avg_position.units as int),
            100 * DEC_UNIT as int,
        ),
        0 <= wins <= total,
        total <= 100_000_000_000_000,
        series_bounded(daily_returns@),
        daily_returns@.len() <= SERIES_LIMIT,
        series_bounded(pnls@),
        pnls@.len() <= SERIES_LIMIT,
    ensures
        r.pnl_percent_30d.units == spec_pnl_percent(
            pnl_30d.units as int,
            avg_position.units as int,
        ),
        r.win_rate.units == spec_win_rate(wins as int, total as int),
        r.sharpe.units == spec_sharpe(daily_returns@),
        r.max_drawdown.units == round_he(
            dec_mul(spec_max_drawdown(pnls@), 100 * DEC_UNIT),
            pow10(10),
        ),
        r.followers_count == followers_count,
        r.volume_7d == volume_7d,
{
    let dd = max_drawdown(pnls);
    proof {
        assert(mul_fits(dd.units as int, 100 * DEC_UNIT as int) && dd.units > i128::MIN)
            by (nonlinear_arith)
            requires
                0 <= dd.units as int <= 40_000_000_000_000_000_000int,
        ;
    }
    let dd_pct = dd.mul(Dec::from_units(100 * DEC_UNIT));
    proof {
        lemma_dec_mul_bound(dd.units as int, 100 * DEC_UNIT as int);
        assert(pow10(10) == 10_000_000_000int) by {
            reveal_with_fuel(pow10, 11);
        };
    }
    TraderMetrics {
        pnl_percent_30d: pnl_percent(pnl_30d, avg_position),
        win_rate: win_rate(wins, total),
        sharpe: sharpe(daily_returns),
        max_drawdown: dd_pct.round_dp(2),
        followers_count,
        volume_7d,
    }
}

/// A series sum at the metric bound can stand as a dividend.
proof fn lemma_series_sum_fits(x: int)
    requires
        -(METRIC_LIMIT as int) * 100 <= x <= (METRIC_LIMIT as int) * 100,
    ensures
        div_fits(x),
        x > i128::MIN,
{
    assert(div_fits(x) && x > i128::MIN) by (nonlinear_arith)
        requires
            -10_000_000_000_000_000_000int <= x <= 10_000_000_000_000_000_000int,
    ;
    assert((METRIC_LIMIT as int) * 100 == 10_000_000_000_000_000_000int) by (nonlinear_arith);
}

/// The mean of a bounded series stays within the metric bound.
proof fn lemma_mean_bound(total: int, mean: int, n: int)
    requires
        n >= 1,
        -(METRIC_LIMIT as int) * n <= total <= (METRIC_LIMIT as int) * n,
        mean == tdiv(total * (DEC_UNIT as int), n * (DEC_UNIT as int)),
    ensures
        -(METRIC_LIMIT as int) <= mean <= METRIC_LIMIT as int,
{
    let u = DEC_UNIT as int;
    let p = total * u;
    let np = if p >= 0 {
        p
    } else {
        -p
    };
    assert(np <= (METRIC_LIMIT as int) * (n * u) && n * u >= 1) by (nonlinear_arith)
        requires
            n >= 1,
            -(METRIC_LIMIT as int) * n <= total <= (METRIC_LIMIT as int) * n,
            p == total * u,
            np == if p >= 0 {
                p
            } else {
                -p
            },
            u == 1_000_000_000_000,
            METRIC_LIMIT == 100_000_000_000_000_000,
    ;
    lemma_tdiv_ratio(np, n * u, METRIC_LIMIT as int);
    assert(tdiv(p, n * u) == if p >= 0 {
        np / (n * u)
    } else {
        -(np / (n * u))
    });
}

/// One squared deviation at the fixed scale is nonnegative and bounded.
proof fn lemma_sq_dev_step(d: int)
    requires
        -(300_000_000_000_000_000int) <= d <= 300_000_000_000_000_000int,
    ensures
        0 <= dec_mul(d, d) <= 90_000_000_000_000_000_000_000int,
        mul_fits(d, d),
{
    let u = DEC_UNIT as int;
    let p = d * d;
    assert(0 <= p <= 90_000_000_000_000_000_000_000_000_000_000_000int) by (nonlinear_arith)
        requires
            -(300_000_000_000_000_000int) <= d <= 300_000_000_000_000_000int,
            p == d * d,
    ;
    assert(90_000_000_000_000_000_000_000int * 1_000_000_000_000int
        == 90_000_000_000_000_000_000_000_000_000_000_000int) by (nonlinear_arith);
    crate::decimal::lemma_tdiv_ratio(p, u, 90_000_000_000_000_000_000_000int);
}

/// One drawdown step is a fraction in `[0, 40e18]` units (the distance to
/// the peak over the peak floored at one can exceed one only while the
/// floor binds).
proof fn lemma_dd_bound(peak: int, current: int, guard: int, dd: int)
    requires
        current <= peak,
        -(METRIC_LIMIT as int) * 100 <= current,
        peak <= (METRIC_LIMIT as int) * 100,
        guard == if peak > DEC_UNIT as int {
            peak
        } else {
            DEC_UNIT as int
        },
        dd == dec_div(peak - current, guard),
    ensures
        0 <= dd <= 40_000_000_000_000_000_000int,
{
    let u = DEC_UNIT as int;
    let num = (peak - current) * u;
    assert(0 <= num) by (nonlinear_arith)
        requires
            current <= peak,
            num == (peak - current) * u,
            u == 1_000_000_000_000,
    ;
    assert(num <= 40_000_000_000_000_000_000int * guard) by (nonlinear_arith)
        requires
            num == (peak - current) * u,
            current <= peak,
            -(METRIC_LIMIT as int) * 100 <= current,
            peak <= (METRIC_LIMIT as int) * 100,
            guard == if peak > u {
                peak
            } else {
                u
            },
            u == 1_000_000_000_000,
            METRIC_LIMIT == 100_000_000_000_000_000,
    ;
    crate::decimal::lemma_tdiv_ratio(num, guard, 40_000_000_000_000_000_000int);
}

} // verus!
