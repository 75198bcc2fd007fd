//! Detection of trades by monitored traders in the public trade feed.
//!
//! The feed delivers batches of trades, each listing the two account
//! addresses involved. The detector filters the batch against the list of
//! monitored trader addresses and republishes one detected trade per
//! monitored participant.

use vstd::prelude::*;
use crate::text::str_eq;

verus! {

/// One public trade as the feed delivers it.
#[derive(Debug)]
pub struct WsTrade {
    pub coin: String,
    pub side: String,
    pub px: String,
    pub sz: String,
    pub hash: String,
    pub time: usize,
    pub tid: usize,
    pub users: Vec<String>,
}

/// One decoded feed frame: a channel label and a batch of trades.
#[derive(Debug)]
pub struct TradeMessage {
    pub channel: String,
    pub data: Vec<WsTrade>,
}

/// A trade attributed to one monitored trader.
#[derive(Debug)]
pub struct DetectedTrade {
    pub trader_address: String,
    pub coin: String,
    pub side: String,
    pub price: String,
    pub size: String,
    pub timestamp: usize,
    pub trade_id: usize,
    pub tx_hash: String,
}

/// Two trade records carrying the same values, the participant list
/// compared element for element.
pub open spec fn same_trade(a: WsTrade, b: WsTrade) -> bool {
    &&& a.coin == b.coin
    &&& a.side == b.side
    &&& a.px == b.px
    &&& a.sz == b.sz
    &&& a.hash == b.hash
    &&& a.time == b.time
    &&& a.tid == b.tid
    &&& a.users@ == b.users@
}

impl Clone for WsTrade {
    /// An exact copy: every field equal, the participant list element for
    /// element.
    fn clone(&self) -> (r: WsTrade)
        ensures
            same_trade(r, *self),
    {
        let mut users: Vec<String> = Vec::new();
        let n = self.users.len();
        let mut i: usize = 0;
        while i < n
            invariant
                n == self.users@.len(),
                i <= n,
                users@.len() == i,
                forall|j: int| 0 <= j < i ==> users@[j] == self.users@[j],
            decreases n - i,
        {
            users.push(self.users[i].clone());
            i = i + 1;
        }
        proof {
            assert(users@ =~= self.users@);
        }
        WsTrade {
            coin: self.coin.clone(),
            side: self.side.clone(),
            px: self.px.clone(),
            sz: self.sz.clone(),
            hash: self.hash.clone(),
            time: self.time,
            tid: self.tid,
            users,
        }
    }
}

impl Clone for TradeMessage {
    /// An exact copy: the label equal, the batch element for element.
    fn clone(&self) -> (r: TradeMessage)
        ensures
            r.channel == self.channel,
            r.data@.len() == self.data@.len(),
            forall|j: int|
                0 <= j < self.data@.len() ==> same_trade(#[trigger] r.data@[j], self.data@[j]),
    {
        let mut data: Vec<WsTrade> = Vec::new();
        let n = self.data.len();
        let mut i: usize = 0;
        while i < n
            invariant
                n == self.data@.len(),
                i <= n,
                data@.len() == i,
                forall|j: int| 0 <= j < i ==> same_trade(#[trigger] data@[j], self.data@[j]),
            decreases n - i,
        {
            data.push(self.data[i].clone());
            i = i + 1;
        }
        TradeMessage { channel: self.channel.clone(), data }
    }
}

impl Clone for DetectedTrade {
    /// An exact copy, field for field.
    fn clone(&self) -> (r: DetectedTrade)
        ensures
            r == *self,
    {
        DetectedTrade {
            trader_address: self.trader_address.clone(),
            coin: self.coin.clone(),
            side: self.side.clone(),
            price: self.price.clone(),
            size: self.size.clone(),
            timestamp: self.timestamp,
            trade_id: self.trade_id,
            tx_hash: self.tx_hash.clone(),
        }
    }
}

/// Parse trade side to human-readable format.
pub fn parse_side(side: &str) -> (r: &str)
    ensures
        r@ == crate::parser::spec_parse_side(side@),
{
    crate::parser::parse_side(side)
}

/// Whether `user` is one of the monitored addresses.
pub open spec fn is_monitored(monitored: Seq<String>, user: Seq<char>) -> bool {
    exists|i: int| 0 <= i < monitored.len() && (#[trigger] monitored[i])@ == user
}

/// The detected trade attributing `t` to `user`.
pub open spec fn spec_detected(t: WsTrade, user: String) -> DetectedTrade {
    DetectedTrade {
        trader_address: user,
        coin: t.coin,
        side: t.side,
        price: t.px,
        size: t.sz,
        timestamp: t.time,
        trade_id: t.tid,
        tx_hash: t.hash,
    }
}

/// The detections one trade yields over a prefix of its participants, in
/// listed order.
pub open spec fn detect_users(monitored: Seq<String>, t: WsTrade, users: Seq<String>) -> Seq<
    DetectedTrade,
>
    decreases users.len(),
{
    if users.len() == 0 {
        Seq::empty()
    } else {
        let rest = detect_users(monitored, t, users.drop_last());
        if is_monitored(monitored, users.last()@) {
            rest.push(spec_detected(t, users.last()))
        } else {
            rest
        }
    }
}

/// The detections one whole message yields, in trade and participant order.
pub open spec fn detect_msg(monitored: Seq<String>, data: Seq<WsTrade>) -> Seq<DetectedTrade>
    decreases data.len(),
{
    if data.len() == 0 {
        Seq::empty()
    } else {
        detect_msg(monitored, data.drop_last()) + detect_users(
            monitored,
            data.last(),
            data.last().users@,
        )
    }
}

/// Whether `user` appears in the monitored list.
fn contains_addr(monitored: &Vec<String>, user: &str) -> (r: bool)
    ensures
        r == is_monitored(monitored@, user@),
{
    let n = monitored.len();
    let mut i: usize = 0;
    while i < n
        invariant
            n == monitored@.len(),
            i <= n,
            forall|j: int| 0 <= j < i ==> (#[trigger] monitored@[j])@ != user@,
        decreases n - i,
    {
        if str_eq(monitored[i].as_str(), user) {
            return true;
        }
        i = i + 1;
    }
    false
}

/// Filter one message against the monitored list: exactly one detected
/// trade per monitored participant of each trade, in feed order.
pub fn detect_trades(monitored: &Vec<String>, msg: &TradeMessage) -> (out: Vec<DetectedTrade>)
    ensures
        out@ == detect_msg(monitored@, msg.data@),
{
    let mut out: Vec<DetectedTrade> = Vec::new();
    let n = msg.data.len();
    let mut i: usize = 0;
    proof {
        assert(msg.data@.subrange(0, 0) =~= Seq::<WsTrade>::empty());
    }
    while i < n
        invariant
            n == msg.data@.len(),
            i <= n,
            out@ == detect_msg(monitored@, msg.data@.subrange(0, i as int)),
        decreases n - i,
    {
        let trade = &msg.data[i];
        let m = trade.users.len();
        let mut k: usize = 0;
        proof {
            assert(trade.users@.subrange(0, 0) =~= Seq::<String>::empty());
        }
        while k < m
            invariant
                m == trade.users@.len(),
                n == msg.data@.len(),
                i < n,
                k <= m,
                trade == msg.data@[i as int],
                out@ == detect_msg(monitored@, msg.data@.subrange(0, i as int)) + detect_users(
                    monitored@,
                    msg.data@[i as int],
                    trade.users@.subrange(0, k as int),
                ),
            decreases m - k,
        {
            let user = &trade.users[k];
            if contains_addr(monitored, user.as_str()) {
                out.push(
                    DetectedTrade {
                        trader_address: user.clone(),
                        coin: trade.coin.clone(),
                        side: trade.side.clone(),
                        price: trade.px.clone(),
                        size: trade.sz.clone(),
                        timestamp: trade.time,
                        trade_id: trade.tid,
                        tx_hash: trade.hash.clone(),
                    },
                );
            }
            proof {
                let sub1 = trade.users@.subrange(0, k + 1);
                assert(sub1.drop_last() =~= trade.users@.subrange(0, k as int));
                assert(sub1.last() == trade.users@[k as int]);
            }
            k = k + 1;
        }
        proof {
            assert(trade.users@.subrange(0, m as int) =~= trade.users@);
            let dsub1 = msg.data@.subrange(0, i + 1);
            assert(dsub1.drop_last() =~= msg.data@.subrange(0, i as int));
            assert(dsub1.last() == msg.data@[i as int]);
        }
        i = i + 1;
    }
    proof {
        assert(msg.data@.subrange(0, n as int) =~= msg.data@);
    }
    out
}

} // verus!
