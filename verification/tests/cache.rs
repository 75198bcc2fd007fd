use trading_engine::cache::{refreshed, CacheSnapshot, ConfigRow};
use trading_engine::decimal::Dec;

fn row(trader: &str, addr: &str, ratio: i128, max_risk: Option<i128>) -> ConfigRow {
    ConfigRow {
        trader_address: trader.to_string(),
        address: addr.to_string(),
        agent_signature: "SECRET-REDACTED".to_string(),
        ratio: Dec::from_units(ratio),
        max_risk_per_trade: max_risk.map(Dec::from_units),
    }
}

#[test]
fn from_rows_groups_by_leader_in_row_order() {
    let rows = vec![
        row("0xlead", "0xf1", 500_000_000_000, None),
        row("0xother", "0xf2", 250_000_000_000, None),
        row("0xlead", "0xf3", 100_000_000_000, Some(300_000_000_000_000)),
    ];
    let s = CacheSnapshot::from_rows(&rows);

    let lead = s.lookup("0xlead").expect("leader present");
    assert_eq!(lead.len(), 2);
    assert_eq!(lead[0].address, "0xf1");
    assert_eq!(lead[1].address, "0xf3");
    assert_eq!(lead[1].max_risk, Some(Dec::from_units(300_000_000_000_000)));

    let other = s.lookup("0xother").expect("leader present");
    assert_eq!(other.len(), 1);
    assert_eq!(other[0].address, "0xf2");
}

#[test]
fn lookup_of_unknown_leader_is_none() {
    let rows = vec![row("0xlead", "0xf1", 500_000_000_000, None)];
    let s = CacheSnapshot::from_rows(&rows);
    assert!(s.lookup("0xUNK").is_none());
    assert!(CacheSnapshot::new().lookup("0xlead").is_none());
}

#[test]
fn successful_refresh_replaces_the_whole_snapshot() {
    // Follower A's ratio changes from 0.5 to 0.25 across a refresh: a
    // reader sees either the old row or the new row in full, never a mix.
    let old_rows = vec![row("0xlead", "0xA", 500_000_000_000, Some(1_000_000_000_000))];
    let current = CacheSnapshot::from_rows(&old_rows);

    let new_rows = vec![row("0xlead", "0xA", 250_000_000_000, Some(2_000_000_000_000))];
    let after = refreshed(&current, Ok(new_rows));
    let fs = after.lookup("0xlead").expect("leader present");
    assert_eq!(fs[0].ratio, Dec::from_units(250_000_000_000));
    assert_eq!(fs[0].max_risk, Some(Dec::from_units(2_000_000_000_000)));
}

#[test]
fn failed_refresh_preserves_the_previous_snapshot() {
    let old_rows = vec![row("0xlead", "0xA", 500_000_000_000, Some(1_000_000_000_000))];
    let current = CacheSnapshot::from_rows(&old_rows);

    let after = refreshed(&current, Err("connection reset".to_string()));
    let fs = after.lookup("0xlead").expect("leader still present");
    assert_eq!(fs[0].ratio, Dec::from_units(500_000_000_000));
    assert_eq!(fs[0].max_risk, Some(Dec::from_units(1_000_000_000_000)));
}

#[test]
fn refresh_to_empty_load_drops_all_leaders() {
    let old_rows = vec![row("0xlead", "0xA", 500_000_000_000, None)];
    let current = CacheSnapshot::from_rows(&old_rows);
    let after = refreshed(&current, Ok(Vec::new()));
    assert!(after.lookup("0xlead").is_none());
}
