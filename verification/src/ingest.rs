//! Normalisation of inbound venue frames.
//!
//! A subscription delivers fill batches over a websocket. The session logic
//! is a small state machine: wait for the subscription acknowledgement,
//! suppress the historical snapshot batch, tag every live fill with the
//! leader it was received for, answer pings, and ask for a reconnect when
//! the stream closes. The socket itself lives outside the library; it hands
//! frames in as plain values.

use vstd::prelude::*;

verus! {

/// One fill report as the venue delivers it, all numeric values as strings.
#[derive(Debug)]
#[allow(non_snake_case)]
pub struct WsFill {
    pub coin: String,
    pub px: String,
    pub sz: String,
    pub side: String,
    pub time: u64,
    pub hash: String,
    pub oid: u64,
    pub startPosition: Option<String>,
    pub closedPnl: Option<String>,
    pub dir: Option<String>,
    pub crossed: bool,
    pub fee: String,
    pub feeToken: String,
}

impl Clone for WsFill {
    /// An exact copy, field for field.
    fn clone(&self) -> (r: WsFill)
        ensures
            r == *self,
    {
        WsFill {
            coin: self.coin.clone(),
            px: self.px.clone(),
            sz: self.sz.clone(),
            side: self.side.clone(),
            time: self.time,
            hash: self.hash.clone(),
            oid: self.oid,
            startPosition: clone_opt_string(&self.startPosition),
            closedPnl: clone_opt_string(&self.closedPnl),
            dir: clone_opt_string(&self.dir),
            crossed: self.crossed,
            fee: self.fee.clone(),
            feeToken: self.feeToken.clone(),
        }
    }
}

/// An exact copy of an optional string.
pub(crate) fn clone_opt_string(s: &Option<String>) -> (r: Option<String>)
    ensures
        r == *s,
{
    match s {
        Some(v) => Some(v.clone()),
        None => None,
    }
}

/// A fill tagged with the leader address it was received for.
#[derive(Debug)]
pub struct WsFillChannel {
    pub fill: WsFill,
    pub user: String,
}

impl Clone for WsFillChannel {
    /// An exact copy, field for field.
    fn clone(&self) -> (r: WsFillChannel)
        ensures
            r == *self,
    {
        WsFillChannel { fill: self.fill.clone(), user: self.user.clone() }
    }
}

/// One decoded `userFills` frame: a batch of fills for one user, with the
/// snapshot marker.
#[derive(Debug)]
pub struct FillsBatch {
    pub is_snapshot: bool,
    pub user: String,
    pub fills: Vec<WsFill>,
}

/// Where a subscription session stands.
#[derive(Clone, Copy, Debug, PartialEq, Eq, Structural)]
pub enum IngestState {
    /// The subscribe frame was sent; the acknowledgement has not come yet.
    AwaitingAck,
    /// The acknowledgement came; fills are live.
    Subscribed,
}

/// One inbound frame, already decoded to plain values.
#[derive(Debug)]
pub enum IngestFrame {
    /// The subscription acknowledgement.
    Ack,
    /// A batch of user fills.
    Fills(FillsBatch),
    /// A ping carrying its payload.
    Ping(Vec<u8>),
    /// The peer closed the stream, or it failed.
    Closed,
    /// Anything else; ignored.
    Other,
}

/// What the session should do in response to a frame.
#[derive(Debug)]
pub enum IngestAction {
    /// Nothing to do.
    Nothing,
    /// Publish these tagged fills on the fill bus.
    EmitFills(Vec<WsFillChannel>),
    /// Answer the ping with this payload.
    Pong(Vec<u8>),
    /// Tear the session down and reconnect after the fixed delay.
    Reconnect,
}

/// Tag every fill of a live batch with its user; drop a snapshot batch
/// whole, so that already-settled activity is never replayed.
pub fn route_batch(batch: &FillsBatch) -> (r: Vec<WsFillChannel>)
    ensures
        batch.is_snapshot ==> r@.len() == 0,
        !batch.is_snapshot ==> r@.len() == batch.fills@.len() && forall|i: int|
            0 <= i < r@.len() ==> (#[trigger] r@[i]).fill == batch.fills@[i] && r@[i].user
                == batch.user,
{
    let mut out: Vec<WsFillChannel> = Vec::new();
    if batch.is_snapshot {
        return out;
    }
    let n = batch.fills.len();
    let mut i: usize = 0;
    while i < n
        invariant
            n == batch.fills@.len(),
            i <= n,
            out@.len() == i,
            forall|j: int|
                0 <= j < i ==> (#[trigger] out@[j]).fill == batch.fills@[j] && out@[j].user
                    == batch.user,
        decreases n - i,
    {
        out.push(
            WsFillChannel { fill: batch.fills[i].clone(), user: batch.user.clone() },
        );
        i = i + 1;
    }
    out
}

/// Advance a subscription session by one frame.
///
/// Before the acknowledgement every frame but a close is ignored; after it,
/// fill batches are routed (snapshots suppressed), pings are answered, and a
/// close asks for a reconnect.
pub fn ingest_step(state: IngestState, frame: IngestFrame) -> (r: (IngestState, IngestAction))
    ensures
        match frame {
            IngestFrame::Closed => r.0 == state && r.1 is Reconnect,
            IngestFrame::Ack => r.0 is Subscribed && r.1 is Nothing,
            IngestFrame::Fills(batch) => r.0 == state && (match state {
                IngestState::AwaitingAck => r.1 is Nothing,
                IngestState::Subscribed => r.1 matches IngestAction::EmitFills(out) && {
                    &&& batch.is_snapshot ==> out@.len() == 0
                    &&& !batch.is_snapshot ==> out@.len() == batch.fills@.len() && forall|i: int|
                        0 <= i < out@.len() ==> (#[trigger] out@[i]).fill == batch.fills@[i]
                            && out@[i].user == batch.user
                },
            }),
            IngestFrame::Ping(data) => r.0 == state && (match state {
                IngestState::AwaitingAck => r.1 is Nothing,
                IngestState::Subscribed => r.1 matches IngestAction::Pong(d) && d == data,
            }),
            IngestFrame::Other => r.0 == state && r.1 is Nothing,
        },
{
    match frame {
        IngestFrame::Closed => (state, IngestAction::Reconnect),
        IngestFrame::Ack => (IngestState::Subscribed, IngestAction::Nothing),
        IngestFrame::Fills(batch) => {
            match state {
                IngestState::AwaitingAck => (state, IngestAction::Nothing),
                IngestState::Subscribed => {
                    let out = route_batch(&batch);
                    (state, IngestAction::EmitFills(out))
                },
            }
        },
        IngestFrame::Ping(data) => {
            match state {
                IngestState::AwaitingAck => (state, IngestAction::Nothing),
                IngestState::Subscribed => (state, IngestAction::Pong(data)),
            }
        },
        IngestFrame::Other => (state, IngestAction::Nothing),
    }
}

} // verus!
