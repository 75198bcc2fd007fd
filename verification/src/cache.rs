//! The follower-configuration cache.
//!
//! The executor resolves each full order against a snapshot mapping leader
//! address to the list of active follower configurations copying that
//! leader. A snapshot is an immutable value built off-line from the rows of
//! the store's join; the refresher builds a complete new snapshot and the
//! holder swaps it in whole, so a reader only ever sees one load in full —
//! never rows of two loads mixed. A failed load keeps the previous
//! snapshot.

use vstd::prelude::*;
use crate::decimal::Dec;
use crate::text::str_eq;

verus! {

/// One active copy relationship, as the executor needs it.
#[derive(Debug)]
pub struct FollowersCache {
    pub address: String,
    pub signature: String,
    pub ratio: Dec,
    pub max_risk: Option<Dec>,
}

impl Clone for FollowersCache {
    /// An exact copy, field for field.
    fn clone(&self) -> (r: FollowersCache)
        ensures
            r == *self,
    {
        FollowersCache {
            address: self.address.clone(),
            signature: self.signature.clone(),
            ratio: self.ratio,
            max_risk: self.max_risk,
        }
    }
}

/// One row of the join of active copy configurations with their followers.
#[derive(Debug)]
pub struct ConfigRow {
    pub trader_address: String,
    pub address: String,
    pub agent_signature: String,
    pub ratio: Dec,
    pub max_risk_per_trade: Option<Dec>,
}

/// The follower configuration a row carries.
pub open spec fn to_follower(r: ConfigRow) -> FollowersCache {
    FollowersCache {
        address: r.address,
        signature: r.agent_signature,
        ratio: r.ratio,
        max_risk: r.max_risk_per_trade,
    }
}

/// The followers of `leader` among `rows`, in row order.
pub open spec fn group_rows(rows: Seq<ConfigRow>, leader: Seq<char>) -> Seq<FollowersCache>
    decreases rows.len(),
{
    if rows.len() == 0 {
        Seq::empty()
    } else {
        let rest = group_rows(rows.drop_last(), leader);
        if rows.last().trader_address@ == leader {
            rest.push(to_follower(rows.last()))
        } else {
            rest
        }
    }
}

/// One leader and the followers copying it.
pub struct CacheEntry {
    pub leader: String,
    pub followers: Vec<FollowersCache>,
}

/// An immutable mapping from leader address to active follower
/// configurations.
pub struct CacheSnapshot {
    pub entries: Vec<CacheEntry>,
}

impl CacheSnapshot {
    /// Each leader appears at most once.
    pub open spec fn wf(self) -> bool {
        forall|i: int, j: int|
            0 <= i < j < self.entries@.len() ==> (#[trigger] self.entries@[i]).leader@ != (
            #[trigger] self.entries@[j]).leader@
    }

    /// Whether the snapshot holds an entry for `leader`.
    pub open spec fn contains_leader(self, leader: Seq<char>) -> bool {
        exists|i: int|
            0 <= i < self.entries@.len() && (#[trigger] self.entries@[i]).leader@ == leader
    }

    /// The index of the entry for `leader` (meaningful under
    /// `contains_leader`).
    pub open spec fn idx_of(self, leader: Seq<char>) -> int {
        choose|i: int|
            0 <= i < self.entries@.len() && (#[trigger] self.entries@[i]).leader@ == leader
    }

    /// The followers of `leader` in this snapshot, the empty sequence when
    /// the leader is unknown.
    pub open spec fn followers_of(self, leader: Seq<char>) -> Seq<FollowersCache> {
        if self.contains_leader(leader) {
            self.entries@[self.idx_of(leader)].followers@
        } else {
            Seq::empty()
        }
    }

    /// An empty snapshot: every leader unknown.
    pub fn new() -> (s: CacheSnapshot)
        ensures
            s.wf(),
            forall|l: Seq<char>| !s.contains_leader(l),
    {
        CacheSnapshot { entries: Vec::new() }
    }

    /// Linear scan for the entry of `leader`.
    fn find_idx(&self, leader: &str) -> (r: Option<usize>)
        ensures
            match r {
                Some(i) => i < self.entries@.len() && self.entries@[i as int].leader@ == leader@,
                None => !self.contains_leader(leader@),
            },
    {
        let n = self.entries.len();
        let mut i: usize = 0;
        while i < n
            invariant
                n == self.entries@.len(),
                i <= n,
                forall|j: int| 0 <= j < i ==> (#[trigger] self.entries@[j]).leader@ != leader@,
            decreases n - i,
        {
            if str_eq(self.entries[i].leader.as_str(), leader) {
                return Some(i);
            }
            i = i + 1;
        }
        None
    }

    /// The followers copying `leader`, or `None` when the leader is not in
    /// the snapshot.
    pub fn lookup(&self, leader: &str) -> (r: Option<&Vec<FollowersCache>>)
        requires
            self.wf(),
        ensures
            match r {
                Some(v) => self.contains_leader(leader@) && v@ == self.followers_of(leader@),
                None => !self.contains_leader(leader@),
            },
    {
        match self.find_idx(leader) {
            Some(i) => {
                proof {
                    lemma_leader_at(*self, i as int, leader@);
                }
                Some(&self.entries[i].followers)
            },
            None => None,
        }
    }

    /// Build a snapshot from the rows of one complete load: every leader's
    /// list holds exactly that load's rows for it, in row order.
    pub fn from_rows(rows: &Vec<ConfigRow>) -> (s: CacheSnapshot)
        ensures
            s.wf(),
            forall|l: Seq<char>| #[trigger] s.followers_of(l) == group_rows(rows@, l),
    {
        let mut s = CacheSnapshot { entries: Vec::new() };
        let n = rows.len();
        let mut i: usize = 0;
        proof {
            assert(rows@.subrange(0, 0) =~= Seq::<ConfigRow>::empty());
            assert forall|l: Seq<char>| #[trigger] s.followers_of(l) == group_rows(
                rows@.subrange(0, 0),
                l,
            ) by {
                assert(!s.contains_leader(l));
            }
        }
        while i < n
            invariant
                n == rows@.len(),
                i <= n,
                s.wf(),
                forall|l: Seq<char>| #[trigger] s.followers_of(l) == group_rows(
                    rows@.subrange(0, i as int),
                    l,
                ),
            decreases n - i,
        {
            let ghost pre = s;
            let ghost sub0 = rows@.subrange(0, i as int);
            let ghost sub1 = rows@.subrange(0, i + 1);
            let row = &rows[i];
            let follower = FollowersCache {
                address: row.address.clone(),
                signature: row.agent_signature.clone(),
                ratio: row.ratio,
                max_risk: row.max_risk_per_trade,
            };
            let ghost trader = row.trader_address@;
            match s.find_idx(row.trader_address.as_str()) {
                Some(k) => {
                    proof {
                        lemma_leader_at(s, k as int, trader);
                    }
                    let ghost fol = follower;
                    let mut entry = s.entries.remove(k);
                    let ghost removed = entry;
                    entry.followers.push(follower);
                    let ghost efinal = entry;
                    s.entries.insert(k, entry);
                    proof {
                        assert(removed == pre.entries@[k as int]);
                        assert(efinal.leader == removed.leader);
                        assert(efinal.followers@ == removed.followers@.push(fol));
                        assert(fol == to_follower(rows@[i as int]));
                        assert(s.entries@ =~= pre.entries@.update(k as int, efinal));
                        lemma_same_leaders_same_shape(pre, s);
                        assert forall|l: Seq<char>| #[trigger] s.followers_of(l) == group_rows(
                            sub1,
                            l,
                        ) by {
                            lemma_group_rows_step(rows@, i as int, l);
                            if l == trader {
                                lemma_leader_at(pre, k as int, l);
                                lemma_leader_at(s, k as int, l);
                                assert(s.followers_of(l) == efinal.followers@);
                                assert(pre.followers_of(l) == removed.followers@);
                                assert(pre.followers_of(l) == group_rows(sub0, l));
                                assert(group_rows(sub1, l) == group_rows(sub0, l).push(
                                    to_follower(rows@[i as int]),
                                ));
                                assert(efinal.followers@ == group_rows(sub0, l).push(fol));
                                assert(s.followers_of(l) == group_rows(sub1, l));
                            } else {
                                if pre.contains_leader(l) {
                                    let k2 = pre.idx_of(l);
                                    lemma_leader_at(pre, k2, l);
                                    lemma_leader_at(s, k2, l);
                                    assert(k2 != k);
                                    assert(s.entries@[k2] == pre.entries@[k2]);
                                    assert(s.followers_of(l) == s.entries@[k2].followers@);
                                    assert(pre.followers_of(l) == pre.entries@[k2].followers@);
                                    assert(pre.followers_of(l) == group_rows(sub0, l));
                                    assert(group_rows(sub1, l) == group_rows(sub0, l));
                                    assert(s.followers_of(l) == group_rows(sub1, l));
                                } else {
                                    assert(forall|a: int|
                                        0 <= a < pre.entries@.len() ==> (
                                        #[trigger] pre.entries@[a]).leader@ != l);
                                    assert forall|a: int|
                                        0 <= a < s.entries@.len() implies (
                                    #[trigger] s.entries@[a]).leader@ != l by {
                                        if a != k {
                                            assert(s.entries@[a] == pre.entries@[a]);
                                        } else {
                                            assert(s.entries@[k as int].leader@ == trader);
                                        }
                                    }
                                    assert(!s.contains_leader(l));
                                    assert(s.followers_of(l) =~= Seq::<FollowersCache>::empty());
                                    assert(pre.followers_of(l) =~= Seq::<FollowersCache>::empty());
                                    assert(group_rows(sub1, l) == group_rows(sub0, l));
                                    assert(s.followers_of(l) == group_rows(sub1, l));
                                }
                            }
                        }
                    }
                },
                None => {
                    let ghost fol = follower;
                    let mut followers: Vec<FollowersCache> = Vec::new();
                    followers.push(follower);
                    let entry = CacheEntry { leader: row.trader_address.clone(), followers };
                    let ghost efinal = entry;
                    s.entries.push(entry);
                    proof {
                        assert(fol == to_follower(rows@[i as int]));
                        assert(efinal.leader@ == trader);
                        assert(efinal.followers@ =~= Seq::<FollowersCache>::empty().push(fol));
                        assert(s.entries@ =~= pre.entries@.push(efinal));
                        assert forall|a: int, b: int|
                            0 <= a < b < s.entries@.len() implies (#[trigger] s.entries@[a]).leader@
                            != (#[trigger] s.entries@[b]).leader@ by {
                            if b == s.entries@.len() - 1 {
                                assert(s.entries@[a] == pre.entries@[a]);
                                assert(!pre.contains_leader(trader));
                            }
                        }
                        assert forall|l: Seq<char>| #[trigger] s.followers_of(l) == group_rows(
                            sub1,
                            l,
                        ) by {
                            lemma_group_rows_step(rows@, i as int, l);
                            if l == trader {
                                lemma_leader_at(s, s.entries@.len() - 1, l);
                                assert(!pre.contains_leader(l));
                                assert(pre.followers_of(l) == group_rows(sub0, l));
                                assert(group_rows(sub0, l).len() == 0);
                                assert(s.followers_of(l) == efinal.followers@);
                                assert(group_rows(sub1, l) =~= group_rows(sub0, l).push(
                                    to_follower(rows@[i as int]),
                                ));
                                assert(s.followers_of(l) =~= group_rows(sub1, l));
                            } else {
                                if pre.contains_leader(l) {
                                    let k2 = pre.idx_of(l);
                                    lemma_leader_at(pre, k2, l);
                                    assert(s.entries@[k2] == pre.entries@[k2]);
                                    lemma_leader_at(s, k2, l);
                                    assert(s.followers_of(l) == s.entries@[k2].followers@);
                                    assert(pre.followers_of(l) == pre.entries@[k2].followers@);
                                    assert(pre.followers_of(l) == group_rows(sub0, l));
                                    assert(group_rows(sub1, l) == group_rows(sub0, l));
                                    assert(s.followers_of(l) == group_rows(sub1, l));
                                } else {
                                    assert forall|a: int|
                                        0 <= a < s.entries@.len() implies (
                                    #[trigger] s.entries@[a]).leader@ != l by {
                                        if a < s.entries@.len() - 1 {
                                            assert(s.entries@[a] == pre.entries@[a]);
                                        } else {
                                            assert(s.entries@[a] == efinal);
                                            assert(efinal.leader@ == trader);
                                        }
                                    }
                                    assert(!s.contains_leader(l));
                                    assert(s.followers_of(l) =~= Seq::<FollowersCache>::empty());
                                    assert(pre.followers_of(l) =~= Seq::<FollowersCache>::empty());
                                    assert(pre.followers_of(l) == group_rows(sub0, l));
                                    assert(group_rows(sub1, l) == group_rows(sub0, l));
                                    assert(s.followers_of(l) =~= group_rows(sub1, l));
                                }
                            }
                        }
                    }
                },
            }
            i = i + 1;
        }
        proof {
            assert(rows@.subrange(0, n as int) =~= rows@);
        }
        s
    }

    /// A deep copy of the snapshot: same leaders, same follower lists.
    pub fn duplicate(&self) -> (r: CacheSnapshot)
        requires
            self.wf(),
        ensures
            r.wf(),
            forall|l: Seq<char>| #[trigger] r.followers_of(l) == self.followers_of(l),
    {
        let mut entries: Vec<CacheEntry> = Vec::new();
        let n = self.entries.len();
        let mut i: usize = 0;
        while i < n
            invariant
                n == self.entries@.len(),
                i <= n,
                entries@.len() == i,
                forall|j: int|
                    0 <= j < i ==> (#[trigger] entries@[j]).leader@ == self.entries@[j].leader@
                        && entries@[j].followers@ == self.entries@[j].followers@,
            decreases n - i,
        {
            let e = &self.entries[i];
            let mut followers: Vec<FollowersCache> = Vec::new();
            let m = e.followers.len();
            let mut k: usize = 0;
            while k < m
                invariant
                    m == e.followers@.len(),
                    k <= m,
                    followers@.len() == k,
                    forall|j: int| 0 <= j < k ==> followers@[j] == e.followers@[j],
                decreases m - k,
            {
                followers.push(e.followers[k].clone());
                k = k + 1;
            }
            proof {
                assert(followers@ =~= e.followers@);
            }
            entries.push(CacheEntry { leader: e.leader.clone(), followers });
            i = i + 1;
        }
        let r = CacheSnapshot { entries };
        proof {
            lemma_same_shape_same_followers(*self, r);
        }
        r
    }
}

/// The refreshed snapshot: a successful load replaces the mapping whole, a
/// failed load preserves the previous snapshot unchanged. In either case
/// every leader's follower list comes entirely from one load — the swap is
/// atomic at the snapshot level, and no reader can observe rows of two
/// loads mixed.
pub fn refreshed(current: &CacheSnapshot, loaded: Result<Vec<ConfigRow>, String>) -> (r:
    CacheSnapshot)
    requires
        current.wf(),
    ensures
        r.wf(),
        match loaded {
            Ok(rows) => forall|l: Seq<char>| #[trigger] r.followers_of(l) == group_rows(rows@, l),
            Err(_) => forall|l: Seq<char>| #[trigger] r.followers_of(l) == current.followers_of(l),
        },
{
    match loaded {
        Ok(rows) => CacheSnapshot::from_rows(&rows),
        Err(_) => current.duplicate(),
    }
}

/// Law: after a refresh, each leader's follower list is exactly the new
/// load's rows for that leader (on success) or exactly the previous
/// snapshot's list (on failure) — never a mixture of the two.
pub proof fn lemma_refresh_atomic(
    current: CacheSnapshot,
    loaded: Result<Vec<ConfigRow>, String>,
    r: CacheSnapshot,
    l: Seq<char>,
)
    requires
        current.wf(),
        match loaded {
            Ok(rows) => forall|l2: Seq<char>| #[trigger] r.followers_of(l2) == group_rows(
                rows@,
                l2,
            ),
            Err(_) => forall|l2: Seq<char>| #[trigger] r.followers_of(l2) == current.followers_of(
                l2,
            ),
        },
    ensures
        match loaded {
            Ok(rows) => r.followers_of(l) == group_rows(rows@, l),
            Err(_) => r.followers_of(l) == current.followers_of(l),
        },
{
}

/// Under well-formedness, an index holding `leader` is the index `idx_of`
/// chooses, and `contains_leader` holds.
proof fn lemma_leader_at(s: CacheSnapshot, i: int, leader: Seq<char>)
    requires
        s.wf(),
        0 <= i < s.entries@.len(),
        s.entries@[i].leader@ == leader,
    ensures
        s.contains_leader(leader),
        s.idx_of(leader) == i,
{
    assert(s.contains_leader(leader));
    let j = s.idx_of(leader);
    if i < j {
        assert(s.entries@[i].leader@ != s.entries@[j].leader@);
    } else if j < i {
        assert(s.entries@[j].leader@ != s.entries@[i].leader@);
    }
}

/// Two snapshots whose entries agree on length and leaders contain the same
/// leaders at the same indices.
proof fn lemma_same_leaders_same_shape(a: CacheSnapshot, b: CacheSnapshot)
    requires
        a.entries@.len() == b.entries@.len(),
        forall|i: int|
            0 <= i < a.entries@.len() ==> (#[trigger] a.entries@[i]).leader@ == (
            #[trigger] b.entries@[i]).leader@,
        a.wf(),
    ensures
        b.wf(),
        forall|l: Seq<char>| a.contains_leader(l) == b.contains_leader(l),
{
    assert forall|i: int, j: int| 0 <= i < j < b.entries@.len() implies (
    #[trigger] b.entries@[i]).leader@ != (#[trigger] b.entries@[j]).leader@ by {
        assert(a.entries@[i].leader@ == b.entries@[i].leader@);
        assert(a.entries@[j].leader@ == b.entries@[j].leader@);
        assert(a.entries@[i].leader@ != a.entries@[j].leader@);
    }
    assert forall|l: Seq<char>| a.contains_leader(l) == #[trigger] b.contains_leader(l) by {
        if a.contains_leader(l) {
            let i = a.idx_of(l);
            assert(a.entries@[i].leader@ == l);
            assert(b.entries@[i].leader@ == l);
        }
        if b.contains_leader(l) {
            let i = choose|i: int|
                0 <= i < b.entries@.len() && (#[trigger] b.entries@[i]).leader@ == l;
            assert(a.entries@[i].leader@ == l);
        }
    }
}

/// Two snapshots of the same shape (same leaders and follower lists at the
/// same indices) map every leader to the same followers.
proof fn lemma_same_shape_same_followers(a: CacheSnapshot, b: CacheSnapshot)
    requires
        a.wf(),
        a.entries@.len() == b.entries@.len(),
        forall|i: int|
            0 <= i < a.entries@.len() ==> (#[trigger] b.entries@[i]).leader@ == a.entries@[i].leader@
                && b.entries@[i].followers@ == a.entries@[i].followers@,
    ensures
        b.wf(),
        forall|l: Seq<char>| #[trigger] b.followers_of(l) == a.followers_of(l),
{
    assert forall|i: int|
        0 <= i < a.entries@.len() implies (#[trigger] a.entries@[i]).leader@ == (
    #[trigger] b.entries@[i]).leader@ by {}
    lemma_same_leaders_same_shape(a, b);
    assert forall|l: Seq<char>| #[trigger] b.followers_of(l) == a.followers_of(l) by {
        if a.contains_leader(l) {
            let i = a.idx_of(l);
            lemma_leader_at(a, i, l);
            lemma_leader_at(b, i, l);
        }
    }
}

/// One step of `group_rows`: extending the prefix by row `i` appends that
/// row's follower to its own leader's list and leaves every other list
/// unchanged.
proof fn lemma_group_rows_step(rows: Seq<ConfigRow>, i: int, l: Seq<char>)
    requires
        0 <= i < rows.len(),
    ensures
        rows[i].trader_address@ == l ==> group_rows(rows.subrange(0, i + 1), l) == group_rows(
            rows.subrange(0, i),
            l,
        ).push(to_follower(rows[i])),
        rows[i].trader_address@ != l ==> group_rows(rows.subrange(0, i + 1), l) == group_rows(
            rows.subrange(0, i),
            l,
        ),
{
    let sub1 = rows.subrange(0, i + 1);
    assert(sub1.drop_last() =~= rows.subrange(0, i));
    assert(sub1.last() == rows[i]);
}

} // verus!
