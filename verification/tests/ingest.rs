use trading_engine::ingest::{
    route_batch, ingest_step, FillsBatch, IngestAction, IngestFrame, IngestState, WsFill,
};

fn fill(oid: u64, px: &str, sz: &str) -> WsFill {
    WsFill {
        coin: "ETH".to_string(),
        px: px.to_string(),
        sz: sz.to_string(),
        side: "A".to_string(),
        time: 5,
        hash: "0xabc".to_string(),
        oid,
        startPosition: Some("1.0".to_string()),
        closedPnl: None,
        dir: Some("Open Short".to_string()),
        crossed: true,
        fee: "0.1".to_string(),
        feeToken: "USDC".to_string(),
    }
}

#[test]
fn snapshot_batch_is_suppressed() {
    let batch = FillsBatch {
        is_snapshot: true,
        user: "0xlead".to_string(),
        fills: vec![fill(1, "10", "1"), fill(2, "11", "2")],
    };
    assert!(route_batch(&batch).is_empty());
}

#[test]
fn live_batch_is_tagged_with_its_user() {
    let batch = FillsBatch {
        is_snapshot: false,
        user: "0xlead".to_string(),
        fills: vec![fill(1, "10", "1"), fill(2, "11", "2")],
    };
    let out = route_batch(&batch);
    assert_eq!(out.len(), 2);
    assert_eq!(out[0].user, "0xlead");
    assert_eq!(out[0].fill.oid, 1);
    assert_eq!(out[1].fill.oid, 2);
    assert_eq!(out[1].fill.px, "11");
}

#[test]
fn session_waits_for_the_acknowledgement() {
    let (s, a) = ingest_step(
        IngestState::AwaitingAck,
        IngestFrame::Fills(FillsBatch {
            is_snapshot: false,
            user: "0xlead".to_string(),
            fills: vec![fill(1, "10", "1")],
        }),
    );
    assert_eq!(s, IngestState::AwaitingAck);
    assert!(matches!(a, IngestAction::Nothing));

    let (s, a) = ingest_step(IngestState::AwaitingAck, IngestFrame::Ack);
    assert_eq!(s, IngestState::Subscribed);
    assert!(matches!(a, IngestAction::Nothing));
}

#[test]
fn subscribed_session_routes_fills_and_answers_pings() {
    let (s, a) = ingest_step(
        IngestState::Subscribed,
        IngestFrame::Fills(FillsBatch {
            is_snapshot: false,
            user: "0xlead".to_string(),
            fills: vec![fill(1, "10", "1")],
        }),
    );
    assert_eq!(s, IngestState::Subscribed);
    match a {
        IngestAction::EmitFills(out) => {
            assert_eq!(out.len(), 1);
            assert_eq!(out[0].user, "0xlead");
        }
        other => panic!("unexpected action: {:?}", other),
    }

    let (_, a) = ingest_step(IngestState::Subscribed, IngestFrame::Ping(vec![1, 2, 3]));
    match a {
        IngestAction::Pong(d) => assert_eq!(d, vec![1, 2, 3]),
        other => panic!("unexpected action: {:?}", other),
    }
}

#[test]
fn close_asks_for_a_reconnect() {
    let (_, a) = ingest_step(IngestState::Subscribed, IngestFrame::Closed);
    assert!(matches!(a, IngestAction::Reconnect));
    let (_, a) = ingest_step(IngestState::AwaitingAck, IngestFrame::Closed);
    assert!(matches!(a, IngestAction::Reconnect));
}

#[test]
fn subscribed_snapshot_batch_emits_nothing() {
    let (_, a) = ingest_step(
        IngestState::Subscribed,
        IngestFrame::Fills(FillsBatch {
            is_snapshot: true,
            user: "0xlead".to_string(),
            fills: vec![fill(1, "10", "1")],
        }),
    );
    match a {
        IngestAction::EmitFills(out) => assert!(out.is_empty()),
        other => panic!("unexpected action: {:?}", other),
    }
}
