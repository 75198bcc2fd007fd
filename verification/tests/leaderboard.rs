use trading_engine::decimal::Dec;
use trading_engine::leaderboard::{max_drawdown, pnl_percent, sharpe, trader_metrics, win_rate};

const ONE: i128 = 1_000_000_000_000;

#[test]
fn win_rate_basics() {
    assert_eq!(win_rate(2, 2), Dec::from_units(100 * ONE));
    assert_eq!(win_rate(3, 4), Dec::from_units(75 * ONE));
    assert_eq!(win_rate(0, 5), Dec::from_units(0));
    assert_eq!(win_rate(0, 0), Dec::from_units(0));
    // 1/3 rounds to 33.33 percent at two decimal places.
    assert_eq!(win_rate(1, 3), Dec::from_units(33_330_000_000_000));
}

#[test]
fn pnl_percent_basics() {
    // 1500 profit on a 100000 average position is 1.50 percent.
    let r = pnl_percent(Dec::from_units(1500 * ONE), Dec::from_units(100_000 * ONE));
    assert_eq!(r, Dec::from_units(1_500_000_000_000));
    // A non-positive average position yields zero.
    assert_eq!(pnl_percent(Dec::from_units(1500 * ONE), Dec::from_units(0)), Dec::from_units(0));
}

#[test]
fn max_drawdown_detects_the_deepest_trough() {
    // Equity curve: +1000, +500, -800, +200 -> peak 1500, trough 700,
    // drawdown 800/1500 = 0.5333...
    let pnls = vec![
        Dec::from_units(1000 * ONE),
        Dec::from_units(500 * ONE),
        Dec::from_units(-800 * ONE),
        Dec::from_units(200 * ONE),
    ];
    let dd = max_drawdown(&pnls);
    assert_eq!(dd, Dec::from_units(533_333_333_333));
}

#[test]
fn max_drawdown_of_rising_curve_is_zero() {
    let pnls = vec![Dec::from_units(1000 * ONE), Dec::from_units(500 * ONE)];
    assert_eq!(max_drawdown(&pnls), Dec::from_units(0));
    assert_eq!(max_drawdown(&Vec::new()), Dec::from_units(0));
}

#[test]
fn sharpe_of_known_series() {
    // Returns 3 and 7: mean 5, deviations -2 and 2, variance 4, root 2,
    // sharpe 5 / 2 = 2.5. The root must really be computed: handing the
    // variance back unchanged would give 1.25 instead.
    let daily = vec![Dec::from_units(3 * ONE), Dec::from_units(7 * ONE)];
    assert_eq!(sharpe(&daily), Dec::from_units(2_500_000_000_000));
}

#[test]
fn sharpe_degenerate_cases_are_zero() {
    assert_eq!(sharpe(&Vec::new()), Dec::from_units(0));
    // Constant returns: variance zero.
    let daily = vec![Dec::from_units(5 * ONE), Dec::from_units(5 * ONE)];
    assert_eq!(sharpe(&daily), Dec::from_units(0));
}

#[test]
fn trader_metrics_assembles_all_figures() {
    let pnls = vec![
        Dec::from_units(1000 * ONE),
        Dec::from_units(500 * ONE),
        Dec::from_units(-800 * ONE),
        Dec::from_units(200 * ONE),
    ];
    let daily = vec![Dec::from_units(3 * ONE), Dec::from_units(7 * ONE)];
    let m = trader_metrics(
        Dec::from_units(900 * ONE),
        Dec::from_units(100_000 * ONE),
        3,
        4,
        &daily,
        &pnls,
        2,
        Dec::from_units(12_345 * ONE),
    );
    assert_eq!(m.pnl_percent_30d, Dec::from_units(900_000_000_000)); // 0.90 percent
    assert_eq!(m.win_rate, Dec::from_units(75 * ONE));
    assert_eq!(m.sharpe, Dec::from_units(2_500_000_000_000));
    // 0.5333... scaled to percent and rounded: 53.33
    assert_eq!(m.max_drawdown, Dec::from_units(53_330_000_000_000));
    assert_eq!(m.followers_count, 2);
    assert_eq!(m.volume_7d, Dec::from_units(12_345 * ONE));
}
