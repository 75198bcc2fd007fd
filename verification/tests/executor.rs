use trading_engine::cache::{CacheSnapshot, ConfigRow, FollowersCache};
use trading_engine::decimal::Dec;
use trading_engine::executor::{
    classify_response, classify_status, dispatch, size_follower_order, ExchangeStatus,
    ExecutorError, TaskQueue, CHANNEL_CAPACITY,
};
use trading_engine::grouper::FullOrder;

fn order(user: &str, dir: &str, total_sz: i128, avg_px: i128) -> FullOrder {
    FullOrder {
        user: user.to_string(),
        coin: "BTC".to_string(),
        dir: dir.to_string(),
        total_sz: Dec::from_units(total_sz),
        avg_px: Dec::from_units(avg_px),
        timestamp: 1,
        hash: "h".to_string(),
        oid: 1,
    }
}

fn follower(ratio: i128, max_risk: Option<i128>) -> FollowersCache {
    FollowersCache {
        address: "0xfollower".to_string(),
        signature: "SECRET-REDACTED".to_string(),
        ratio: Dec::from_units(ratio),
        max_risk: max_risk.map(Dec::from_units),
    }
}

#[test]
fn test_preload() {}

#[test]
fn sizing_with_binding_cap() {
    // total 10, avg 100, ratio 0.5, max_risk 300: unbounded size 5 (notional
    // 500), the cap binds: size = 300 / 100 = 3.
    let o = order("0xlead", "Open Long", 10_000_000_000_000, 100_000_000_000_000);
    let f = follower(500_000_000_000, Some(300_000_000_000_000));
    let req = size_follower_order(&o, &f).expect("sized");
    assert!(req.is_buy);
    assert!(!req.reduce_only);
    assert_eq!(req.asset, "BTC");
    assert_eq!(req.limit_px, Dec::from_units(100_000_000_000_000));
    assert_eq!(req.sz, Dec::from_units(3_000_000_000_000));
}

#[test]
fn sizing_without_cap() {
    let o = order("0xlead", "Close Long", 10_000_000_000_000, 100_000_000_000_000);
    let f = follower(500_000_000_000, None);
    let req = size_follower_order(&o, &f).expect("sized");
    assert!(!req.is_buy); // Close Long sells
    assert_eq!(req.sz, Dec::from_units(5_000_000_000_000));
}

#[test]
fn sizing_with_loose_cap_keeps_raw_size() {
    let o = order("0xlead", "Close Short", 10_000_000_000_000, 100_000_000_000_000);
    let f = follower(500_000_000_000, Some(600_000_000_000_000));
    let req = size_follower_order(&o, &f).expect("sized");
    assert!(req.is_buy); // Close Short buys
    assert_eq!(req.sz, Dec::from_units(5_000_000_000_000));
}

#[test]
fn dust_size_is_rejected() {
    // total 0.000001 at ratio 1 is exactly the dust threshold.
    let o = order("0xlead", "Open Long", 1_000_000, 100_000_000_000_000);
    let f = follower(1_000_000_000_000, None);
    assert!(matches!(
        size_follower_order(&o, &f),
        Err(ExecutorError::OrderSizeTooSmall)
    ));
}

#[test]
fn zero_avg_px_with_binding_cap_is_rejected() {
    // With avg_px = 0 the cap can only bind through a negative max_risk; the
    // epsilon guard bounds the size, which then falls to the dust threshold.
    let o = order("0xlead", "Open Long", 10_000_000_000_000, 0);
    let f = follower(1_000_000_000_000, Some(-1_000_000_000_000));
    assert!(matches!(
        size_follower_order(&o, &f),
        Err(ExecutorError::OrderSizeTooSmall)
    ));
}

#[test]
fn submitted_size_is_rounded_to_eight_decimals() {
    // total 1.0 at ratio 0.123456789015: the ninth decimal rounds up.
    let o = order("0xlead", "Open Long", 1_000_000_000_000, 100_000_000_000_000);
    let f = follower(123_456_789_015, None);
    let req = size_follower_order(&o, &f).expect("sized");
    assert_eq!(req.sz, Dec::from_units(123_456_790_000));
}

#[test]
fn dispatch_unknown_leader_produces_no_tasks() {
    let rows = vec![row("0xlead", "0xf1", 500_000_000_000)];
    let snapshot = CacheSnapshot::from_rows(&rows);
    let o = order("0xUNK", "Open Long", 1_000_000_000_000, 100_000_000_000_000);
    let tasks = dispatch(&snapshot, &o);
    assert_eq!(tasks.len(), 0);
}

fn row(trader: &str, addr: &str, ratio: i128) -> ConfigRow {
    ConfigRow {
        trader_address: trader.to_string(),
        address: addr.to_string(),
        agent_signature: "SECRET-REDACTED".to_string(),
        ratio: Dec::from_units(ratio),
        max_risk_per_trade: None,
    }
}

#[test]
fn dispatch_fans_out_one_task_per_follower() {
    let rows = vec![
        row("0xlead", "0xf1", 500_000_000_000),
        row("0xother", "0xf2", 250_000_000_000),
        row("0xlead", "0xf3", 100_000_000_000),
    ];
    let snapshot = CacheSnapshot::from_rows(&rows);
    let o = order("0xlead", "Open Long", 1_000_000_000_000, 100_000_000_000_000);
    let tasks = dispatch(&snapshot, &o);
    assert_eq!(tasks.len(), 2);
    assert_eq!(tasks[0].follower.address, "0xf1");
    assert_eq!(tasks[1].follower.address, "0xf3");
    assert_eq!(tasks[0].order.user, "0xlead");
}

#[test]
fn full_queue_drops_tasks() {
    let o = order("0xlead", "Open Long", 1_000_000_000_000, 100_000_000_000_000);
    let f = follower(500_000_000_000, None);
    let mut q = TaskQueue::new(CHANNEL_CAPACITY);
    let mut dropped: usize = 0;
    for _ in 0..2000 {
        let task = trading_engine::executor::OrderTask { order: o.clone(), follower: f.clone() };
        if !q.try_push(task) {
            dropped += 1;
        }
    }
    assert_eq!(dropped, 1000);
    assert_eq!(q.len(), 1000);
    // The queue drained in order: the oldest task comes out first.
    let first = q.pop_front().expect("task");
    assert_eq!(first.follower.address, "0xfollower");
    assert_eq!(q.len(), 999);
}

#[test]
fn classify_filled_and_resting_succeed() {
    assert_eq!(classify_status(ExchangeStatus::Filled(7)).unwrap(), 7);
    assert_eq!(classify_status(ExchangeStatus::Resting(9)).unwrap(), 9);
    assert!(matches!(
        classify_status(ExchangeStatus::Other("rejected".to_string())),
        Err(ExecutorError::UnexpectedStatus(_))
    ));
}

#[test]
fn classify_response_paths() {
    let ok = classify_response(Ok(Some(vec![ExchangeStatus::Filled(42)])));
    assert_eq!(ok.unwrap(), 42);

    let no_data = classify_response(Ok(None));
    assert!(matches!(no_data, Err(ExecutorError::NoDataInResponse)));

    let rejected = classify_response(Err("boom".to_string()));
    match rejected {
        Err(ExecutorError::OrderPlacement(msg)) => assert_eq!(msg, "boom"),
        other => panic!("unexpected: {:?}", other),
    }
}
