use trading_engine::decimal::Dec;
use trading_engine::grouper::{FillOutcome, Grouper};
use trading_engine::ingest::WsFill;

fn fill(oid: u64, px: &str, sz: &str, time: u64, hash: &str, dir: Option<&str>) -> WsFill {
    WsFill {
        coin: "BTC".to_string(),
        px: px.to_string(),
        sz: sz.to_string(),
        side: "B".to_string(),
        time,
        hash: hash.to_string(),
        oid,
        startPosition: None,
        closedPnl: None,
        dir: dir.map(|d| d.to_string()),
        crossed: false,
        fee: "10.0".to_string(),
        feeToken: "USDC".to_string(),
    }
}

#[test]
fn test_order_grouping() {
    let mut g = Grouper::new();
    let user = "test_user".to_string();

    let fill1 = fill(123, "50000.0", "1.0", 1, "hash1", Some("Open Long"));
    let fill2 = fill(123, "51000.0", "2.0", 2, "hash2", Some("Open Long"));

    let r1 = g.on_fill(user.clone(), &fill1, 0);
    assert_eq!(r1, FillOutcome::Accepted { armed_debounce: true });
    let r2 = g.on_fill(user.clone(), &fill2, 10);
    assert_eq!(r2, FillOutcome::Accepted { armed_debounce: false });

    // The one-shot debounce fires 420 ms after the first fill; by then the
    // id has been quiet for 410 ms and the group is emitted.
    let full_order = g.on_debounce(123, 420).expect("order should be emitted");

    let expected_total_sz = Dec::from_units(3_000_000_000_000);
    let expected_avg_px = Dec::from_units(50_666_670_000_000_000); // 50666.67

    assert_eq!(full_order.oid, 123);
    assert_eq!(full_order.total_sz, expected_total_sz);
    assert_eq!(full_order.avg_px.round_dp(2), expected_avg_px.round_dp(2));
    assert_eq!(full_order.user, "test_user");
    assert_eq!(full_order.dir, "Open Long");
    assert_eq!(full_order.hash, "hash1"); // first fill's hash wins
    assert_eq!(full_order.timestamp, 1); // first fill's venue time wins
}

#[test]
fn single_fill_avg_px_is_that_fills_px() {
    let mut g = Grouper::new();
    g.on_fill("u".to_string(), &fill(7, "250.5", "4.0", 5, "h", None), 0);
    let full = g.on_debounce(7, 500).expect("emitted");
    assert_eq!(full.avg_px, Dec::from_units(250_500_000_000_000));
    assert_eq!(full.total_sz, Dec::from_units(4_000_000_000_000));
    assert_eq!(full.dir, "Unknown"); // absent direction defaults
}

#[test]
fn late_fill_starts_a_new_group() {
    let mut g = Grouper::new();
    g.on_fill("u".to_string(), &fill(9, "100.0", "1.0", 1, "h1", None), 0);

    // 500 ms after all prior fills the debounce path flushes the group.
    let first = g.on_debounce(9, 500).expect("first group emitted");
    assert_eq!(first.total_sz, Dec::from_units(1_000_000_000_000));

    // A later fill with the same oid starts a fresh group.
    let r = g.on_fill("u".to_string(), &fill(9, "200.0", "2.0", 2, "h2", None), 600);
    assert_eq!(r, FillOutcome::Accepted { armed_debounce: true });
    let second = g.on_debounce(9, 1100).expect("second group emitted");
    assert_eq!(second.total_sz, Dec::from_units(2_000_000_000_000));
    assert_eq!(second.avg_px, Dec::from_units(200_000_000_000_000));
    assert_eq!(second.hash, "h2");
}

#[test]
fn hot_entry_is_kept_for_the_sweep() {
    let mut g = Grouper::new();
    g.on_fill("u".to_string(), &fill(5, "10.0", "1.0", 1, "h1", None), 0);
    g.on_fill("u".to_string(), &fill(5, "10.0", "1.0", 2, "h2", None), 300);

    // The debounce timer armed by the first fill finds the id still hot.
    assert!(g.on_debounce(5, 420).is_none());
    assert_eq!(g.pending.len(), 1);

    // The periodic sweep flushes it once it has been quiet for over 600 ms.
    let flushed = g.sweep(1000);
    assert_eq!(flushed.len(), 1);
    assert_eq!(flushed[0].total_sz, Dec::from_units(2_000_000_000_000));
    assert_eq!(g.pending.len(), 0);
}

#[test]
fn zero_size_group_is_dropped_silently() {
    let mut g = Grouper::new();
    g.on_fill("u".to_string(), &fill(11, "100.0", "0", 1, "h", None), 0);
    assert!(g.on_debounce(11, 500).is_none());
    assert_eq!(g.pending.len(), 0);

    // A bad numeric string counts as zero and the group is dropped too.
    g.on_fill("u".to_string(), &fill(12, "100.0", "junk", 1, "h", None), 0);
    assert!(g.on_debounce(12, 500).is_none());
    let swept = g.sweep(5000);
    assert!(swept.is_empty());
}

#[test]
fn sweep_keeps_fresh_entries() {
    let mut g = Grouper::new();
    g.on_fill("u".to_string(), &fill(1, "10.0", "1.0", 1, "h1", None), 0);
    g.on_fill("u".to_string(), &fill(2, "20.0", "1.0", 2, "h2", None), 900);
    let flushed = g.sweep(1000);
    assert_eq!(flushed.len(), 1);
    assert_eq!(flushed[0].oid, 1);
    assert_eq!(g.pending.len(), 1);
    assert_eq!(g.pending[0].oid, 2);
}

#[test]
fn out_of_range_fill_is_refused() {
    let mut g = Grouper::new();
    let huge = "70000000000000000000000000"; // 7e25, representable alone
    let r = g.on_fill(
        "u".to_string(),
        &fill(3, huge, huge, 1, "h", None),
        0,
    );
    assert_eq!(r, FillOutcome::OutOfRange);
    assert_eq!(g.pending.len(), 0);
}
