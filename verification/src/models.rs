//! Store-facing record types, as plain values.

use vstd::prelude::*;
use crate::cache::ConfigRow;
use crate::decimal::Dec;

verus! {

/// One registered follower account.
#[derive(Debug)]
pub struct Follower {
    pub id: i32,
    pub address: String,
    pub agent_signature: String,
}

impl Clone for Follower {
    /// An exact copy, field for field.
    fn clone(&self) -> (r: Follower)
        ensures
            r == *self,
    {
        Follower {
            id: self.id,
            address: self.address.clone(),
            agent_signature: self.agent_signature.clone(),
        }
    }
}

/// One copy relationship between a follower and a leader.
#[derive(Debug)]
pub struct CopyConfig {
    pub id: i32,
    pub follower_id: i32,
    pub trader_address: String,
    pub ratio: Dec,
    pub is_active: bool,
    pub max_risk_per_trade: Option<Dec>,
}

/// One row of the leaderboard, metric fields as the store returns them.
#[derive(Debug)]
pub struct LeaderboardEntry {
    pub trader_address: String,
    pub pnl_percent_30d: Option<Dec>,
    pub win_rate: Option<Dec>,
    pub sharpe: Option<Dec>,
    pub max_drawdown: Option<Dec>,
    pub followers_count: Option<i32>,
    pub volume_7d: Option<Dec>,
    /// Milliseconds since the epoch, when set.
    pub updated_at: Option<i64>,
}

/// The join row a follower and one of its copy configurations form, as the
/// cache loads it.
pub fn config_row(follower: &Follower, config: &CopyConfig) -> (r: ConfigRow)
    ensures
        r.trader_address == config.trader_address,
        r.address == follower.address,
        r.agent_signature == follower.agent_signature,
        r.ratio == config.ratio,
        r.max_risk_per_trade == config.max_risk_per_trade,
{
    ConfigRow {
        trader_address: config.trader_address.clone(),
        address: follower.address.clone(),
        agent_signature: follower.agent_signature.clone(),
        ratio: config.ratio,
        max_risk_per_trade: config.max_risk_per_trade,
    }
}

} // verus!
