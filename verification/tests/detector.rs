use trading_engine::detector::{detect_trades, TradeMessage, WsTrade};

fn trade(users: Vec<&str>, tid: usize) -> WsTrade {
    WsTrade {
        coin: "BTC".to_string(),
        side: "B".to_string(),
        px: "50000".to_string(),
        sz: "0.5".to_string(),
        hash: "0xhash".to_string(),
        time: 42,
        tid,
        users: users.into_iter().map(|u| u.to_string()).collect(),
    }
}

#[test]
fn monitored_participants_are_detected() {
    let monitored = vec!["0xaaa".to_string(), "0xbbb".to_string()];
    let msg = TradeMessage {
        channel: "trades".to_string(),
        data: vec![trade(vec!["0xaaa", "0xccc"], 1), trade(vec!["0xddd"], 2)],
    };
    let out = detect_trades(&monitored, &msg);
    assert_eq!(out.len(), 1);
    assert_eq!(out[0].trader_address, "0xaaa");
    assert_eq!(out[0].coin, "BTC");
    assert_eq!(out[0].price, "50000");
    assert_eq!(out[0].size, "0.5");
    assert_eq!(out[0].trade_id, 1);
    assert_eq!(out[0].tx_hash, "0xhash");
}

#[test]
fn both_sides_of_one_trade_can_match() {
    let monitored = vec!["0xaaa".to_string(), "0xbbb".to_string()];
    let msg = TradeMessage {
        channel: "trades".to_string(),
        data: vec![trade(vec!["0xaaa", "0xbbb"], 7)],
    };
    let out = detect_trades(&monitored, &msg);
    assert_eq!(out.len(), 2);
    assert_eq!(out[0].trader_address, "0xaaa");
    assert_eq!(out[1].trader_address, "0xbbb");
}

#[test]
fn unmonitored_trades_produce_nothing() {
    let monitored = vec!["0xaaa".to_string()];
    let msg = TradeMessage {
        channel: "trades".to_string(),
        data: vec![trade(vec!["0xccc", "0xddd"], 3)],
    };
    assert!(detect_trades(&monitored, &msg).is_empty());
    let empty: Vec<String> = Vec::new();
    assert!(detect_trades(&empty, &msg).is_empty());
}
