//! The ledger of mining rewards: reward entries by id, the ids of each user's
//! rewards per MCP and of each MCP's rewards, the rewards still pending, and
//! their claim.
use vstd::prelude::*;
use crate::sorted_map::{SortedMap, KeyFields, MapKey, pair_key, text_key, rank_pair};
use crate::text::{Rank, utf8_of, text_equal, lemma_utf8_injective, concat_text};
use crate::trace_storage::{TraceItem, TraceStore, TraceRecord, trace_restamped, lemma_restamped, lemma_restamped_twice};
use crate::sorted_map::map_of;
use crate::mcp_asset_types::{McpStackRecord, StackStatus, staked_total, lemma_staked_total_prefix};

verus! {

/// A reward granted to a staker of an MCP for one call.
#[derive(Debug)]
pub struct RewardEntry {
    pub principal_id: String,
    pub mcp_name: String,
    pub reward_amount: u64,
    pub block_id: u64,
    pub status: String,
}

/// A reward entry as a value.
#[verifier::ext_equal]
pub struct RewardRecord {
    pub principal_id: Seq<char>,
    pub mcp_name: Seq<char>,
    pub reward_amount: u64,
    pub block_id: u64,
    pub status: Seq<char>,
}

impl View for RewardEntry {
    type V = RewardRecord;

    open spec fn view(&self) -> RewardRecord {
        RewardRecord {
            principal_id: self.principal_id@,
            mcp_name: self.mcp_name@,
            reward_amount: self.reward_amount,
            block_id: self.block_id,
            status: self.status@,
        }
    }
}

impl Clone for RewardEntry {
    fn clone(&self) -> (r: Self)
        ensures
            r == *self,
    {
        RewardEntry {
            principal_id: self.principal_id.clone(),
            mcp_name: self.mcp_name.clone(),
            reward_amount: self.reward_amount,
            block_id: self.block_id,
            status: self.status.clone(),
        }
    }
}

/// The records of a list of entries.
pub open spec fn records_of(v: Seq<RewardEntry>) -> Seq<RewardRecord> {
    v.map_values(|e: RewardEntry| e@)
}

/// The key of a user's rewards for one MCP: by principal, then by MCP name.
#[derive(Debug)]
pub struct UserRewardKey {
    pub principal_id: String,
    pub mcp_name: String,
}

impl MapKey for UserRewardKey {
    open spec fn key_fields(&self) -> KeyFields {
        pair_key(self.principal_id@, self.mcp_name@)
    }

    fn rank_key(&self, other: &Self) -> (r: Rank) {
        rank_pair(self.principal_id.as_str(), self.mcp_name.as_str(), other.principal_id.as_str(), other.mcp_name.as_str())
    }
}

/// The ids listed under `k` in `m`, none when there is no list.
pub open spec fn ids_at(m: Map<KeyFields, Seq<u64>>, k: KeyFields) -> Seq<u64> {
    if m.contains_key(k) {
        m[k]
    } else {
        Seq::empty()
    }
}

/// The ids of the rewards of principal `p`: the lists of its keys, in key order.
pub open spec fn principal_ids(keys: Seq<KeyFields>, lists: Seq<Seq<u64>>, p: Seq<char>) -> Seq<u64>
    decreases keys.len(),
{
    if keys.len() == 0 || lists.len() == 0 {
        Seq::empty()
    } else {
        let prev = principal_ids(keys.drop_last(), lists.drop_last(), p);
        if keys.last()[0] == utf8_of(p) {
            prev + lists.last()
        } else {
            prev
        }
    }
}

/// The entries under `ids` that exist and are pending, in the order of `ids`.
pub open spec fn pending_of(entries: Seq<RewardRecord>, ids: Seq<u64>) -> Seq<RewardRecord>
    decreases ids.len(),
{
    if ids.len() == 0 {
        Seq::empty()
    } else {
        let prev = pending_of(entries, ids.drop_last());
        let id = ids.last();
        if id < entries.len() && entries[id as int].status == "pending"@ {
            prev.push(entries[id as int])
        } else {
            prev
        }
    }
}

/// The entries under `ids` that exist, in the order of `ids`.
pub open spec fn existing_of(entries: Seq<RewardRecord>, ids: Seq<u64>) -> Seq<RewardRecord>
    decreases ids.len(),
{
    if ids.len() == 0 {
        Seq::empty()
    } else {
        let prev = existing_of(entries, ids.drop_last());
        let id = ids.last();
        if id < entries.len() {
            prev.push(entries[id as int])
        } else {
            prev
        }
    }
}

/// The sum of the amounts of a list of rewards.
pub open spec fn amount_sum(s: Seq<RewardRecord>) -> nat
    decreases s.len(),
{
    if s.len() == 0 {
        0
    } else {
        (amount_sum(s.drop_last()) + s.last().reward_amount) as nat
    }
}

pub proof fn lemma_amount_sum_prefix(s: Seq<RewardRecord>, i: int)
    requires
        0 <= i <= s.len(),
    ensures
        amount_sum(s.take(i)) <= amount_sum(s),
    decreases s.len() - i,
{
    if i < s.len() {
        lemma_amount_sum_prefix(s, i + 1);
        assert(s.take(i + 1).drop_last() =~= s.take(i));
    } else {
        assert(s.take(i) =~= s);
    }
}

/// A record after its claim: a pending reward of `p` becomes claimed.
pub open spec fn claimed_for(e: RewardRecord, p: Seq<char>) -> RewardRecord {
    if e.principal_id == p && e.status == "pending"@ {
        RewardRecord { status: "claimed"@, ..e }
    } else {
        e
    }
}

/// The reward ledger.
pub struct RewardLedger {
    entries: Vec<RewardEntry>,
    user_index: SortedMap<UserRewardKey, Vec<u64>>,
    mcp_index: SortedMap<String, Vec<u64>>,
}

impl RewardLedger {
    /// The entries, by id.
    pub closed spec fn records(&self) -> Seq<RewardRecord> {
        records_of(self.entries@)
    }

    /// The keys of the user index, in ascending order.
    pub closed spec fn user_keys(&self) -> Seq<KeyFields> {
        self.user_index.key_seq()
    }

    /// The id lists of the user index, in the order of its keys.
    pub closed spec fn user_lists(&self) -> Seq<Seq<u64>> {
        self.user_index.val_seq().map_values(|v: Vec<u64>| v@)
    }

    /// The id lists of the user index, by key.
    pub closed spec fn user_map(&self) -> Map<KeyFields, Seq<u64>> {
        self.user_index.as_map().map_values(|v: Vec<u64>| v@)
    }

    /// The id lists of the MCP index, by MCP name.
    pub closed spec fn mcp_map(&self) -> Map<KeyFields, Seq<u64>> {
        self.mcp_index.as_map().map_values(|v: Vec<u64>| v@)
    }

    pub closed spec fn wf(&self) -> bool {
        self.user_index.wf() && self.mcp_index.wf()
    }

    /// The ids of the rewards of principal `p`, in key order.
    pub open spec fn ids_of(&self, p: Seq<char>) -> Seq<u64> {
        principal_ids(self.user_keys(), self.user_lists(), p)
    }

    /// The pending rewards of principal `p`.
    pub open spec fn pending_for(&self, p: Seq<char>) -> Seq<RewardRecord> {
        pending_of(self.records(), self.ids_of(p))
    }

    pub fn new() -> (l: Self)
        ensures
            l.wf(),
            l.records() == Seq::<RewardRecord>::empty(),
            l.user_map() == Map::<KeyFields, Seq<u64>>::empty(),
            l.user_keys() == Seq::<KeyFields>::empty(),
            l.user_lists() == Seq::<Seq<u64>>::empty(),
            l.mcp_map() == Map::<KeyFields, Seq<u64>>::empty(),
    {
        let l = RewardLedger { entries: Vec::new(), user_index: SortedMap::new(), mcp_index: SortedMap::new() };
        assert(l.records() =~= Seq::<RewardRecord>::empty());
        assert(l.user_map() =~= Map::<KeyFields, Seq<u64>>::empty());
        assert(l.mcp_map() =~= Map::<KeyFields, Seq<u64>>::empty());
        assert(l.user_lists() =~= Seq::<Seq<u64>>::empty());
        l
    }

    /// The id the next reward takes: the number of entries.
    pub fn next_reward_id(&self) -> (id: u64)
        requires
            self.records().len() <= u64::MAX,
        ensures
            id == self.records().len(),
    {
        self.entries.len() as u64
    }

    /// Stores `entry` under id `id` (replacing what was there), and lists the
    /// id under the entry's user and MCP.
    pub fn record_reward(&mut self, id: u64, entry: RewardEntry)
        requires
            old(self).wf(),
            id <= old(self).records().len(),
        ensures
            final(self).wf(),
            final(self).records() == if id < old(self).records().len() {
                old(self).records().update(id as int, entry@)
            } else {
                old(self).records().push(entry@)
            },
            final(self).user_map() == old(self).user_map().insert(
                pair_key(entry@.principal_id, entry@.mcp_name),
                ids_at(old(self).user_map(), pair_key(entry@.principal_id, entry@.mcp_name)).push(id),
            ),
            final(self).mcp_map() == old(self).mcp_map().insert(
                text_key(entry@.mcp_name),
                ids_at(old(self).mcp_map(), text_key(entry@.mcp_name)).push(id),
            ),
    {
        let ghost e = entry@;
        let user_key = UserRewardKey { principal_id: entry.principal_id.clone(), mcp_name: entry.mcp_name.clone() };
        let mcp = entry.mcp_name.clone();
        if id < (self.entries.len() as u64) {
            self.entries.set(id as usize, entry);
            proof {
                assert(self.records() =~= old(self).records().update(id as int, e));
            }
        } else {
            self.entries.push(entry);
            proof {
                assert(self.records() =~= old(self).records().push(e));
            }
        }
        let mut ids: Vec<u64> = match self.user_index.get(&user_key) {
            Some(v) => v.clone(),
            None => Vec::new(),
        };
        ids.push(id);
        let ghost user_ids = ids@;
        proof {
            assert(user_ids =~= ids_at(old(self).user_map(), pair_key(e.principal_id, e.mcp_name)).push(id));
        }
        self.user_index.insert(user_key, ids);
        proof {
            assert(self.user_map() =~= old(self).user_map().insert(pair_key(e.principal_id, e.mcp_name), user_ids));
        }
        let mut mids: Vec<u64> = match self.mcp_index.get(&mcp) {
            Some(v) => v.clone(),
            None => Vec::new(),
        };
        mids.push(id);
        let ghost mcp_ids = mids@;
        proof {
            assert(mcp_ids =~= ids_at(old(self).mcp_map(), text_key(e.mcp_name)).push(id));
        }
        self.mcp_index.insert(mcp, mids);
        proof {
            assert(self.mcp_map() =~= old(self).mcp_map().insert(text_key(e.mcp_name), mcp_ids));
        }
    }

    /// The ids of the rewards of `principal`: the lists of its keys, in key
    /// order.
    fn reward_ids_of(&self, principal: &str) -> (r: Vec<u64>)
        requires
            self.wf(),
        ensures
            r@ == self.ids_of(principal@),
    {
        let mut out: Vec<u64> = Vec::new();
        let n = self.user_index.len();
        for i in 0..n
            invariant
                n == self.user_index.key_seq().len(),
                self.wf(),
                out@ == principal_ids(self.user_keys().take(i as int), self.user_lists().take(i as int), principal@),
        {
            let (k, v) = self.user_index.entry_at(i);
            proof {
                assert(self.user_keys().take(i + 1).drop_last() =~= self.user_keys().take(i as int));
                assert(self.user_lists().take(i + 1).drop_last() =~= self.user_lists().take(i as int));
                assert(self.user_keys().take(i + 1).last() == k.key_fields());
                assert(self.user_lists().take(i + 1).last() == v@);
                lemma_utf8_injective(k.principal_id@, principal@);
            }
            if text_equal(k.principal_id.as_str(), principal) {
                let mut j: usize = 0;
                let ghost base = out@;
                while j < v.len()
                    invariant
                        j <= v@.len(),
                        out@ == base + v@.take(j as int),
                    decreases v@.len() - j,
                {
                    out.push(v[j]);
                    j = j + 1;
                    proof {
                        assert(out@ =~= base + v@.take(j as int));
                    }
                }
                proof {
                    assert(v@.take(j as int) =~= v@);
                }
            }
        }
        proof {
            assert(self.user_keys().take(n as int) =~= self.user_keys());
            assert(self.user_lists().take(n as int) =~= self.user_lists());
        }
        out
    }

    /// The pending rewards of `principal`, in the order of its ids.
    pub fn get_pending_rewards(&self, principal: &str) -> (r: Vec<RewardEntry>)
        requires
            self.wf(),
        ensures
            records_of(r@) == self.pending_for(principal@),
    {
        let ids = self.reward_ids_of(principal);
        let mut out: Vec<RewardEntry> = Vec::new();
        let n = ids.len();
        for i in 0..n
            invariant
                n == ids@.len(),
                ids@ == self.ids_of(principal@),
                records_of(out@) == pending_of(self.records(), ids@.take(i as int)),
        {
            proof {
                assert(ids@.take(i + 1).drop_last() =~= ids@.take(i as int));
            }
            let id = ids[i];
            if id < (self.entries.len() as u64) && text_equal(self.entries[id as usize].status.as_str(), "pending") {
                let ghost before = out@;
                out.push(self.entries[id as usize].clone());
                proof {
                    assert(records_of(out@) =~= records_of(before).push(self.records()[id as int]));
                }
            }
        }
        proof {
            assert(ids@.take(n as int) =~= ids@);
        }
        out
    }

    /// The rewards listed under MCP `mcp_name`, in the order of its ids.
    pub fn get_mcp_rewards(&self, mcp_name: &str) -> (r: Vec<RewardEntry>)
        requires
            self.wf(),
        ensures
            records_of(r@) == existing_of(self.records(), ids_at(self.mcp_map(), text_key(mcp_name@))),
    {
        let key = mcp_name.to_owned();
        let ids: Vec<u64> = match self.mcp_index.get(&key) {
            Some(v) => v.clone(),
            None => Vec::new(),
        };
        proof {
            assert(ids@ == ids_at(self.mcp_map(), text_key(mcp_name@)));
        }
        let mut out: Vec<RewardEntry> = Vec::new();
        let n = ids.len();
        for i in 0..n
            invariant
                n == ids@.len(),
                records_of(out@) == existing_of(self.records(), ids@.take(i as int)),
        {
            proof {
                assert(ids@.take(i + 1).drop_last() =~= ids@.take(i as int));
            }
            let id = ids[i];
            if id < (self.entries.len() as u64) {
                let ghost before = out@;
                out.push(self.entries[id as usize].clone());
                proof {
                    assert(records_of(out@) =~= records_of(before).push(self.records()[id as int]));
                }
            }
        }
        proof {
            assert(ids@.take(n as int) =~= ids@);
        }
        out
    }

    /// The total of the pending rewards of `principal`.
    pub fn cal_unclaim_rewards(&self, principal: &str) -> (total: u64)
        requires
            self.wf(),
            amount_sum(self.pending_for(principal@)) <= u64::MAX,
        ensures
            total == amount_sum(self.pending_for(principal@)),
    {
        let pending = self.get_pending_rewards(principal);
        sum_amounts(&pending)
    }

    /// What a claim by `principal` would transfer: the total of its pending
    /// rewards, or an error when none is pending.
    pub fn pending_claim(&self, principal: &str) -> (r: Result<u64, String>)
        requires
            self.wf(),
            amount_sum(self.pending_for(principal@)) <= u64::MAX,
        ensures
            match r {
                Ok(total) => self.pending_for(principal@).len() > 0 && total == amount_sum(self.pending_for(principal@)),
                Err(e) => self.pending_for(principal@).len() == 0 && e@ == "No pending rewards to claim"@,
            },
    {
        let pending = self.get_pending_rewards(principal);
        if pending.len() == 0 {
            return Err("No pending rewards to claim".to_string());
        }
        Ok(sum_amounts(&pending))
    }

    /// Marks every pending reward of `principal` claimed (after its transfer).
    pub fn mark_claimed(&mut self, principal: &str)
        requires
            old(self).wf(),
        ensures
            final(self).wf(),
            final(self).records() == old(self).records().map_values(|e: RewardRecord| claimed_for(e, principal@)),
            final(self).user_keys() == old(self).user_keys(),
            final(self).user_lists() == old(self).user_lists(),
            final(self).user_map() == old(self).user_map(),
            final(self).mcp_map() == old(self).mcp_map(),
    {
        let n = self.entries.len();
        for i in 0..n
            invariant
                n == self.entries@.len(),
                n == old(self).records().len(),
                self.user_index == old(self).user_index,
                self.mcp_index == old(self).mcp_index,
                forall|j: int| 0 <= j < i ==> #[trigger] self.records()[j] == claimed_for(old(self).records()[j], principal@),
                forall|j: int| i <= j < n ==> #[trigger] self.records()[j] == old(self).records()[j],
        {
            if text_equal(self.entries[i].principal_id.as_str(), principal)
                && text_equal(self.entries[i].status.as_str(), "pending") {
                let mut e = self.entries[i].clone();
                e.status = "claimed".to_string();
                let ghost before = self.records();
                proof {
                    assert(old(self).records()[i as int] == before[i as int]);
                    assert(e@.status == "claimed"@);
                    assert(e@ == claimed_for(old(self).records()[i as int], principal@));
                }
                self.entries.set(i, e);
                proof {
                    assert(self.records() =~= before.update(i as int, claimed_for(old(self).records()[i as int], principal@)));
                }
            }
        }
        proof {
            assert(self.records() =~= old(self).records().map_values(|e: RewardRecord| claimed_for(e, principal@)));
        }
    }

    /// The total of every reward entry, or none when it exceeds `u64`.
    pub fn checked_total_claimable(&self) -> (r: Option<u64>)
        ensures
            r == if amount_sum(self.records()) <= u64::MAX {
                Some(amount_sum(self.records()) as u64)
            } else {
                None::<u64>
            },
    {
        let mut total: u64 = 0;
        let n = self.entries.len();
        for i in 0..n
            invariant
                n == self.entries@.len(),
                total == amount_sum(records_of(self.entries@).take(i as int)),
        {
            proof {
                assert(records_of(self.entries@).take(i + 1).drop_last() =~= records_of(self.entries@).take(i as int));
            }
            match total.checked_add(self.entries[i].reward_amount) {
                Some(t) => {
                    total = t;
                },
                None => {
                    proof {
                        lemma_amount_sum_prefix(records_of(self.entries@), i + 1);
                    }
                    return None;
                },
            }
        }
        proof {
            assert(records_of(self.entries@).take(n as int) =~= records_of(self.entries@));
        }
        Some(total)
    }

    /// The total of every reward entry, whatever its status.
    pub fn get_total_aiotoken_claimable(&self) -> (total: u64)
        requires
            amount_sum(self.records()) <= u64::MAX,
        ensures
            total == amount_sum(self.records()),
    {
        sum_amounts(&self.entries)
    }
}

/// The sum of the amounts of `v`.
fn sum_amounts(v: &Vec<RewardEntry>) -> (total: u64)
    requires
        amount_sum(records_of(v@)) <= u64::MAX,
    ensures
        total == amount_sum(records_of(v@)),
{
    let mut total: u64 = 0;
    let n = v.len();
    for i in 0..n
        invariant
            n == v@.len(),
            amount_sum(records_of(v@)) <= u64::MAX,
            total == amount_sum(records_of(v@).take(i as int)),
    {
        proof {
            assert(records_of(v@).take(i + 1).drop_last() =~= records_of(v@).take(i as int));
            lemma_amount_sum_prefix(records_of(v@), i + 1);
        }
        total = total + v[i].reward_amount;
    }
    proof {
        assert(records_of(v@).take(n as int) =~= records_of(v@));
    }
    total
}

/// Once the rewards of `p` are marked claimed, none listed under `p` is pending
/// any more, provided every id listed under `p` names an entry of `p` (an id
/// reused for another staker keeps that staker's reward pending).
pub proof fn lemma_claim_clears_pending(records: Seq<RewardRecord>, ids: Seq<u64>, p: Seq<char>)
    requires
        forall|k: int| 0 <= k < ids.len() && ids[k] < records.len() ==> #[trigger] records[ids[k] as int].principal_id == p,
    ensures
        pending_of(records.map_values(|e: RewardRecord| claimed_for(e, p)), ids).len() == 0,
    decreases ids.len(),
{
    reveal_strlit("claimed");
    reveal_strlit("pending");
    if ids.len() > 0 {
        let after = records.map_values(|e: RewardRecord| claimed_for(e, p));
        assert forall|k: int| 0 <= k < ids.drop_last().len() && ids.drop_last()[k] < records.len() implies
            #[trigger] records[ids.drop_last()[k] as int].principal_id == p by {
            assert(ids.drop_last()[k] == ids[k]);
        }
        lemma_claim_clears_pending(records, ids.drop_last(), p);
        let id = ids.last();
        if id < records.len() {
            assert(records[id as int].principal_id == p);
            assert(after[id as int] == claimed_for(records[id as int], p));
            assert("claimed"@ != "pending"@) by {
                assert("claimed"@[0] != "pending"@[0]);
            }
        }
    }
}

// ---------------------------------------------------------------------------
// Mining rounds: which traces count, and the stake they are shared by.
// ---------------------------------------------------------------------------

/// The position of the group of `agent` in `g`, or -1.
pub open spec fn agent_index(g: Seq<(Seq<char>, Seq<usize>)>, agent: Seq<char>) -> int
    decreases g.len(),
{
    if g.len() == 0 {
        -1
    } else if g.last().0 == agent {
        g.len() - 1
    } else {
        agent_index(g.drop_last(), agent)
    }
}

pub proof fn lemma_agent_index(g: Seq<(Seq<char>, Seq<usize>)>, agent: Seq<char>)
    ensures
        -1 <= agent_index(g, agent) < g.len(),
        0 <= agent_index(g, agent) ==> g[agent_index(g, agent)].0 == agent,
    decreases g.len(),
{
    if g.len() > 0 && g.last().0 != agent {
        lemma_agent_index(g.drop_last(), agent);
    }
}

/// The traces of `items` not yet claimed, grouped by agent: each agent once,
/// in the order of its first such trace, with the positions of its traces.
pub open spec fn unclaimed_groups(items: Seq<TraceItem>) -> Seq<(Seq<char>, Seq<usize>)>
    decreases items.len(),
{
    if items.len() == 0 {
        Seq::empty()
    } else {
        let g = unclaimed_groups(items.drop_last());
        let t = items.last();
        let pos = (items.len() - 1) as usize;
        if t.status@ == "claimed"@ {
            g
        } else {
            let i = agent_index(g, t.agent@);
            if 0 <= i {
                g.update(i, (g[i].0, g[i].1.push(pos)))
            } else {
                g.push((t.agent@, seq![pos]))
            }
        }
    }
}

/// The agents and trace positions of a list of groups.
pub open spec fn agent_groups_view(g: Seq<(String, Vec<usize>)>) -> Seq<(Seq<char>, Seq<usize>)> {
    g.map_values(|x: (String, Vec<usize>)| (x.0@, x.1@))
}

/// The position of the group of `agent` (the last one), if any.
fn find_agent(groups: &Vec<(String, Vec<usize>)>, agent: &String) -> (r: Option<usize>)
    ensures
        match r {
            Some(j) => j < groups@.len() && j == agent_index(agent_groups_view(groups@), agent@),
            None => agent_index(agent_groups_view(groups@), agent@) == -1,
        },
{
    let ghost g = agent_groups_view(groups@);
    let mut j = groups.len();
    proof {
        assert(g.take(j as int) =~= g);
    }
    while j > 0
        invariant
            j <= groups@.len(),
            g == agent_groups_view(groups@),
            agent_index(g, agent@) == agent_index(g.take(j as int), agent@),
        decreases j,
    {
        proof {
            assert(g.take(j as int).drop_last() =~= g.take(j - 1));
        }
        if groups[j - 1].0 == *agent {
            return Some(j - 1);
        }
        j = j - 1;
    }
    None
}

/// Groups the traces of a page that are not yet claimed by their agent.
pub fn group_unclaimed_by_agent(items: &Vec<TraceItem>) -> (r: Vec<(String, Vec<usize>)>)
    ensures
        agent_groups_view(r@) == unclaimed_groups(items@),
{
    let mut groups: Vec<(String, Vec<usize>)> = Vec::new();
    let n = items.len();
    for i in 0..n
        invariant
            n == items@.len(),
            agent_groups_view(groups@) == unclaimed_groups(items@.take(i as int)),
    {
        proof {
            assert(items@.take(i + 1).drop_last() =~= items@.take(i as int));
            assert(items@.take(i + 1).last() == items@[i as int]);
        }
        if !text_equal(items[i].status.as_str(), "claimed") {
            let ghost g = agent_groups_view(groups@);
            match find_agent(&groups, &items[i].agent) {
                Some(j) => {
                    let (agent, mut list) = groups.remove(j);
                    list.push(i);
                    groups.insert(j, (agent, list));
                    proof {
                        assert(agent_groups_view(groups@) =~= g.update(j as int, (g[j as int].0, g[j as int].1.push(i))));
                    }
                },
                None => {
                    let mut list: Vec<usize> = Vec::new();
                    list.push(i);
                    groups.push((items[i].agent.clone(), list));
                    proof {
                        assert(agent_groups_view(groups@) =~= g.push((items@[i as int].agent@, seq![i])));
                    }
                },
            }
        }
    }
    proof {
        assert(items@.take(n as int) =~= items@);
    }
    groups
}

/// The total stake of the records of `records` still staked.
pub fn stacked_total(records: &Vec<McpStackRecord>) -> (total: u64)
    requires
        staked_total(records@) <= u64::MAX,
    ensures
        total == staked_total(records@),
{
    let mut total: u64 = 0;
    let n = records.len();
    for i in 0..n
        invariant
            n == records@.len(),
            staked_total(records@) <= u64::MAX,
            total == staked_total(records@.take(i as int)),
    {
        proof {
            assert(records@.take(i + 1).drop_last() =~= records@.take(i as int));
            lemma_staked_total_prefix(records@, i + 1);
        }
        if records[i].stack_status == StackStatus::Stacked {
            total = total + records[i].stack_amount;
        }
    }
    proof {
        assert(records@.take(n as int) =~= records@);
    }
    total
}

/// The positions among `positions` of the calls that succeeded.
pub open spec fn ok_positions(items: Seq<TraceItem>, positions: Seq<usize>) -> Seq<usize> {
    positions.filter(|p: usize| items[p as int].status@ == "ok"@)
}

/// The pending rewards of the staker of `rec`, `reward` each, for the calls at
/// `oks`.
pub open spec fn row_entries(items: Seq<TraceItem>, oks: Seq<usize>, rec: McpStackRecord, reward: u64, mcp: Seq<char>) -> Seq<RewardRecord> {
    oks.map_values(|p: usize| RewardRecord {
        principal_id: rec.principal_id@,
        mcp_name: mcp,
        reward_amount: reward,
        block_id: items[p as int].timestamp,
        status: "pending"@,
    })
}

/// The keys of the traces of the calls at `oks`.
pub open spec fn row_keys(items: Seq<TraceItem>, oks: Seq<usize>) -> Seq<KeyFields> {
    oks.map_values(|p: usize| text_key(items[p as int].trace_id@))
}

/// The rewards of one mining round of an MCP: for each staked record in turn
/// (with its reward amount from `rewards`), one pending entry per successful
/// call at `positions`, in order.
pub open spec fn mined_entries(items: Seq<TraceItem>, positions: Seq<usize>, recs: Seq<McpStackRecord>, rewards: Seq<u64>, mcp: Seq<char>) -> Seq<RewardRecord>
    decreases recs.len(),
{
    if recs.len() == 0 || rewards.len() == 0 {
        Seq::empty()
    } else {
        mined_entries(items, positions, recs.drop_last(), rewards.drop_last(), mcp) + if recs.last().stack_status
            == StackStatus::Stacked {
            row_entries(items, ok_positions(items, positions), recs.last(), rewards.last(), mcp)
        } else {
            Seq::empty()
        }
    }
}

/// The keys of the traces marked claimed by that round, in the order they are
/// marked.
pub open spec fn mined_keys(items: Seq<TraceItem>, positions: Seq<usize>, recs: Seq<McpStackRecord>) -> Seq<KeyFields>
    decreases recs.len(),
{
    if recs.len() == 0 {
        Seq::empty()
    } else {
        mined_keys(items, positions, recs.drop_last()) + if recs.last().stack_status == StackStatus::Stacked {
            row_keys(items, ok_positions(items, positions))
        } else {
            Seq::empty()
        }
    }
}

/// Whether some record is staked.
pub open spec fn has_stake(recs: Seq<McpStackRecord>) -> bool {
    exists|i: int| 0 <= i < recs.len() && (#[trigger] recs[i]).stack_status == StackStatus::Stacked
}

/// Whether the trace of some successful call at `positions` is not among `ks`.
pub open spec fn missing_trace(items: Seq<TraceItem>, positions: Seq<usize>, ks: Set<KeyFields>) -> bool {
    exists|j: int| 0 <= j < positions.len() && items[positions[j] as int].status@ == "ok"@
        && !ks.contains(text_key(#[trigger] items[positions[j] as int].trace_id@))
}

/// The user index after the entries `es` are filed with ids from `first` on.
pub open spec fn users_after(m: Map<KeyFields, Seq<u64>>, es: Seq<RewardRecord>, first: nat) -> Map<KeyFields, Seq<u64>>
    decreases es.len(),
{
    if es.len() == 0 {
        m
    } else {
        let prev = users_after(m, es.drop_last(), first);
        let k = pair_key(es.last().principal_id, es.last().mcp_name);
        prev.insert(k, ids_at(prev, k).push((first + es.len() - 1) as u64))
    }
}

/// The MCP index after the entries `es` are filed with ids from `first` on.
pub open spec fn mcps_after(m: Map<KeyFields, Seq<u64>>, es: Seq<RewardRecord>, first: nat) -> Map<KeyFields, Seq<u64>>
    decreases es.len(),
{
    if es.len() == 0 {
        m
    } else {
        let prev = mcps_after(m, es.drop_last(), first);
        let k = text_key(es.last().mcp_name);
        prev.insert(k, ids_at(prev, k).push((first + es.len() - 1) as u64))
    }
}

/// Whether `m1` is `m0` with the traces under `ks` marked claimed and the
/// others as they were.
pub open spec fn claimed_from(m0: Map<KeyFields, TraceRecord>, m1: Map<KeyFields, TraceRecord>, ks: Seq<KeyFields>) -> bool {
    &&& m1.dom() == m0.dom()
    &&& forall|k: KeyFields| #[trigger] m0.contains_key(k) ==> if ks.contains(k) {
        trace_restamped(m0[k], m1[k], "claimed"@)
    } else {
        m1[k] == m0[k]
    }
}

impl RewardLedger {
    /// One mining round of the MCP `mcp_name` over the calls at `positions` of
    /// `trace_items`: for each staked record of `stack_records` in turn, and each
    /// successful call, a pending reward of `rewards[i]` for the staker, stamped
    /// with the call's time, is filed under the next id, and the call's trace is
    /// marked claimed. Refused, with the trace store's message, when a trace to
    /// mark is not in the store.
    pub fn mine_mcp_group(
        &mut self,
        traces: &mut TraceStore,
        mcp_name: &str,
        trace_items: &Vec<TraceItem>,
        positions: &Vec<usize>,
        stack_records: &Vec<McpStackRecord>,
        rewards: &Vec<u64>,
    ) -> (r: Result<Vec<RewardEntry>, String>)
        requires
            old(self).wf(),
            old(traces).wf(),
            rewards@.len() == stack_records@.len(),
            forall|j: int| 0 <= j < positions@.len() ==> #[trigger] positions@[j] < trace_items@.len(),
        ensures
            final(self).wf(),
            final(traces).wf(),
            r is Err <==> has_stake(stack_records@) && missing_trace(
                trace_items@,
                positions@,
                map_of(old(traces)@.traces).dom(),
            ),
            r matches Err(e) ==> e@ == "Failed to update trace status: Trace not found"@,
            r matches Ok(es) ==> {
                let e = mined_entries(trace_items@, positions@, stack_records@, rewards@, mcp_name@);
                &&& records_of(es@) == e
                &&& final(self).records() == old(self).records() + e
                &&& final(self).user_map() == users_after(old(self).user_map(), e, old(self).records().len())
                &&& final(self).mcp_map() == mcps_after(old(self).mcp_map(), e, old(self).records().len())
                &&& claimed_from(
                    map_of(old(traces)@.traces),
                    map_of(final(traces)@.traces),
                    mined_keys(trace_items@, positions@, stack_records@),
                )
            },
    {
        let ghost items = trace_items@;
        let ghost ps = positions@;
        let ghost recs = stack_records@;
        let ghost rw = rewards@;
        let ghost mcp = mcp_name@;
        let ghost m0 = map_of(traces@.traces);
        let ghost first = self.records().len();
        let mut out: Vec<RewardEntry> = Vec::new();
        let n = stack_records.len();
        let m = positions.len();
        proof {
            assert(recs.take(0) =~= Seq::<McpStackRecord>::empty());
            assert(rw.take(0) =~= Seq::<u64>::empty());
            assert(records_of(out@) =~= Seq::<RewardRecord>::empty());
            assert(self.records() =~= old(self).records() + records_of(out@));
        }
        for i in 0..n
            invariant
                n == recs.len(),
                m == ps.len(),
                rw.len() == n,
                items == trace_items@,
                ps == positions@,
                recs == stack_records@,
                rw == rewards@,
                mcp == mcp_name@,
                m0 == map_of(old(traces)@.traces),
                first == old(self).records().len(),
                forall|j: int| 0 <= j < ps.len() ==> #[trigger] ps[j] < items.len(),
                self.wf(),
                traces.wf(),
                records_of(out@) == mined_entries(items, ps, recs.take(i as int), rw.take(i as int), mcp),
                self.records() == old(self).records() + records_of(out@),
                self.user_map() == users_after(old(self).user_map(), records_of(out@), first),
                self.mcp_map() == mcps_after(old(self).mcp_map(), records_of(out@), first),
                claimed_from(m0, map_of(traces@.traces), mined_keys(items, ps, recs.take(i as int))),
                (exists|q: int| 0 <= q < i && (#[trigger] recs[q]).stack_status == StackStatus::Stacked) ==> forall|j: int|
                    0 <= j < ps.len() && items[ps[j] as int].status@ == "ok"@ ==> m0.contains_key(
                        text_key(#[trigger] items[ps[j] as int].trace_id@),
                    ),
        {
            let ghost e_before = records_of(out@);
            let ghost k_before = mined_keys(items, ps, recs.take(i as int));
            proof {
                assert(recs.take(i + 1).drop_last() =~= recs.take(i as int));
                assert(rw.take(i + 1).drop_last() =~= rw.take(i as int));
                assert(recs.take(i + 1).last() == recs[i as int]);
                assert(rw.take(i + 1).last() == rw[i as int]);
            }
            if stack_records[i].stack_status == StackStatus::Stacked {
                proof {
                    assert(ps.take(0) =~= Seq::<usize>::empty());
                    assert(ok_positions(items, ps.take(0)) =~= Seq::<usize>::empty());
                    assert(records_of(out@) =~= e_before + row_entries(items, ok_positions(items, ps.take(0)), recs[i as int], rw[i as int], mcp));
                    assert(k_before + row_keys(items, ok_positions(items, ps.take(0))) =~= k_before);
                }
                for j in 0..m
                    invariant
                        n == recs.len(),
                        m == ps.len(),
                        rw.len() == n,
                        i < n,
                        items == trace_items@,
                        ps == positions@,
                        recs == stack_records@,
                        rw == rewards@,
                        mcp == mcp_name@,
                        m0 == map_of(old(traces)@.traces),
                        first == old(self).records().len(),
                        recs[i as int].stack_status == StackStatus::Stacked,
                        forall|j: int| 0 <= j < ps.len() ==> #[trigger] ps[j] < items.len(),
                        self.wf(),
                        traces.wf(),
                        records_of(out@) == e_before + row_entries(items, ok_positions(items, ps.take(j as int)), recs[i as int], rw[i as int], mcp),
                        self.records() == old(self).records() + records_of(out@),
                        self.user_map() == users_after(old(self).user_map(), records_of(out@), first),
                        self.mcp_map() == mcps_after(old(self).mcp_map(), records_of(out@), first),
                        claimed_from(m0, map_of(traces@.traces), k_before + row_keys(items, ok_positions(items, ps.take(j as int)))),
                        forall|jj: int| 0 <= jj < j && items[ps[jj] as int].status@ == "ok"@ ==> m0.contains_key(
                            text_key(#[trigger] items[ps[jj] as int].trace_id@),
                        ),
                {
                    let p = positions[j];
                    proof {
                        reveal_with_fuel(Seq::<_>::filter, 1);
                        assert(ps.take(j + 1).drop_last() =~= ps.take(j as int));
                        assert(ps.take(j + 1).last() == ps[j as int]);
                    }
                    if text_equal(trace_items[p].status.as_str(), "ok") {
                        let ghost oks = ok_positions(items, ps.take(j as int));
                        proof {
                            assert(ok_positions(items, ps.take(j + 1)) == oks.push(p));
                        }
                        let entry = RewardEntry {
                            principal_id: stack_records[i].principal_id.clone(),
                            mcp_name: mcp_name.to_string(),
                            reward_amount: rewards[i],
                            block_id: trace_items[p].timestamp,
                            status: "pending".to_string(),
                        };
                        let ghost ev = entry@;
                        let id = self.entries.len() as u64;
                        let ghost e_prev = records_of(out@);
                        self.record_reward(id, entry.clone());
                        let ghost m1 = map_of(traces@.traces);
                        let tid = trace_items[p].trace_id.clone();
                        let claimed = "claimed".to_string();
                        let ghost cl = claimed;
                        let res = traces.update_trace_status(tid, claimed);
                        match res {
                            Ok(()) => {},
                            Err(e) => {
                                proof {
                                    assert(!m1.contains_key(text_key(items[p as int].trace_id@)));
                                    assert(!m0.contains_key(text_key(items[ps[j as int] as int].trace_id@)));
                                    assert(0 <= i < recs.len() && recs[i as int].stack_status == StackStatus::Stacked);
                                    assert(has_stake(recs));
                                    assert(missing_trace(items, ps, m0.dom()));
                                    reveal_strlit("Failed to update trace status: ");
                                    reveal_strlit("Trace not found");
                                    reveal_strlit("Failed to update trace status: Trace not found");
                                    assert("Failed to update trace status: "@ + "Trace not found"@
                                        =~= "Failed to update trace status: Trace not found"@);
                                }
                                return Err(concat_text("Failed to update trace status: ", e.as_str()));
                            },
                        }
                        out.push(entry);
                        proof {
                            let k = text_key(items[p as int].trace_id@);
                            let ks0 = k_before + row_keys(items, oks);
                            let ks1 = k_before + row_keys(items, oks.push(p));
                            assert(row_keys(items, oks.push(p)) =~= row_keys(items, oks).push(k));
                            assert(ks1 =~= ks0.push(k));
                            assert(records_of(out@) =~= e_prev.push(ev));
                            assert(row_entries(items, oks.push(p), recs[i as int], rw[i as int], mcp) =~= row_entries(items, oks, recs[i as int], rw[i as int], mcp).push(ev));
                            assert(records_of(out@) =~= e_before + row_entries(items, oks.push(p), recs[i as int], rw[i as int], mcp));
                            assert(self.records() =~= old(self).records() + records_of(out@));
                            assert(records_of(out@).drop_last() =~= e_prev);
                            assert(id == first + e_prev.len());
                            let m2 = map_of(traces@.traces);
                            let t = m1[k];
                            lemma_restamped(t, cl);
                            assert forall|kk: KeyFields| #[trigger] m0.contains_key(kk) implies if ks1.contains(kk) {
                                trace_restamped(m0[kk], m2[kk], "claimed"@)
                            } else {
                                m2[kk] == m0[kk]
                            } by {
                                if kk == k {
                                    if ks0.contains(kk) {
                                        lemma_restamped_twice(m0[kk], m1[kk], m2[kk], "claimed"@);
                                    }
                                    assert(ks1.contains(kk)) by {
                                        assert(ks1[ks1.len() - 1] == kk);
                                    }
                                } else {
                                    if ks1.contains(kk) {
                                        let q = choose|q: int| 0 <= q < ks1.len() && ks1[q] == kk;
                                        assert(q < ks0.len());
                                        assert(ks0[q] == kk);
                                    }
                                    if ks0.contains(kk) {
                                        let q = choose|q: int| 0 <= q < ks0.len() && ks0[q] == kk;
                                        assert(ks1[q] == kk);
                                    }
                                }
                            }
                            assert(m2.dom() =~= m0.dom());
                        }
                    } else {
                        proof {
                            assert(ok_positions(items, ps.take(j + 1)) == ok_positions(items, ps.take(j as int)));
                        }
                    }
                }
                proof {
                    assert(ps.take(m as int) =~= ps);
                }
            }
        }
        proof {
            assert(recs.take(n as int) =~= recs);
            assert(rw.take(n as int) =~= rw);
            if has_stake(recs) {
                let q = choose|q: int| 0 <= q < recs.len() && (#[trigger] recs[q]).stack_status == StackStatus::Stacked;
                assert(recs[q].stack_status == StackStatus::Stacked);
            }
        }
        Ok(out)
    }
}

/// A call of an MCP, by the block it was made in.
#[derive(Debug)]
pub struct CallRecord {
    pub block_id: u64,
    pub mcp_name: String,
}

/// A stake of a principal on an MCP.
#[derive(Debug)]
pub struct StakeRecord {
    pub principal_id: String,
    pub mcp_name: String,
    pub stack_amount: u64,
}

/// The pending rewards for one call made in block `block`: one per stake of
/// `mcp`, in order, of the amount that `row` gives it.
pub open spec fn call_row(stakes: Seq<StakeRecord>, row: Seq<u64>, mcp: Seq<char>, block: u64) -> Seq<RewardRecord>
    decreases stakes.len(),
{
    if stakes.len() == 0 || row.len() == 0 {
        Seq::empty()
    } else {
        call_row(stakes.drop_last(), row.drop_last(), mcp, block) + if stakes.last().mcp_name@ == mcp {
            seq![RewardRecord {
                principal_id: stakes.last().principal_id@,
                mcp_name: mcp,
                reward_amount: row.last(),
                block_id: block,
                status: "pending"@,
            }]
        } else {
            Seq::empty()
        }
    }
}

/// The rewards for the calls of `mcp`: for each of its calls in order, one per
/// stake of `mcp`, the amounts from `rewards[call][stake]`.
pub open spec fn call_entries(calls: Seq<CallRecord>, stakes: Seq<StakeRecord>, rewards: Seq<Vec<u64>>, mcp: Seq<char>) -> Seq<RewardRecord>
    decreases calls.len(),
{
    if calls.len() == 0 || rewards.len() == 0 {
        Seq::empty()
    } else {
        call_entries(calls.drop_last(), stakes, rewards.drop_last(), mcp) + if calls.last().mcp_name@ == mcp {
            call_row(stakes, rewards.last()@, mcp, calls.last().block_id)
        } else {
            Seq::empty()
        }
    }
}

/// The entries after `es` are stored under ids from 0 on over `old`.
pub open spec fn overlay(old: Seq<RewardRecord>, es: Seq<RewardRecord>) -> Seq<RewardRecord> {
    if es.len() <= old.len() {
        es + old.subrange(es.len() as int, old.len() as int)
    } else {
        es
    }
}

impl RewardLedger {
    /// Files the rewards for the calls of `mcp_name`: for each of its calls in
    /// order, one pending entry per stake of `mcp_name` in order, of the amount
    /// `rewards[call][stake]`, stamped with the call's block; the ids run from 0
    /// on, replacing the entries already under them.
    pub fn record_call_rewards(
        &mut self,
        mcp_name: &str,
        calls: &Vec<CallRecord>,
        stakes: &Vec<StakeRecord>,
        rewards: &Vec<Vec<u64>>,
    ) -> (r: Vec<RewardEntry>)
        requires
            old(self).wf(),
            rewards@.len() == calls@.len(),
            forall|c: int| 0 <= c < rewards@.len() ==> (#[trigger] rewards@[c])@.len() == stakes@.len(),
        ensures
            final(self).wf(),
            records_of(r@) == call_entries(calls@, stakes@, rewards@, mcp_name@),
            final(self).records() == overlay(old(self).records(), records_of(r@)),
            final(self).user_map() == users_after(old(self).user_map(), records_of(r@), 0),
            final(self).mcp_map() == mcps_after(old(self).mcp_map(), records_of(r@), 0),
    {
        let ghost cs = calls@;
        let ghost ss = stakes@;
        let ghost rw = rewards@;
        let ghost mcp = mcp_name@;
        let ghost o = old(self).records();
        let mut out: Vec<RewardEntry> = Vec::new();
        let n = calls.len();
        let m = stakes.len();
        proof {
            assert(records_of(out@) =~= Seq::<RewardRecord>::empty());
            assert(cs.take(0) =~= Seq::<CallRecord>::empty());
            assert(rw.take(0) =~= Seq::<Vec<u64>>::empty());
            assert(overlay(o, Seq::<RewardRecord>::empty()) =~= o);
        }
        for c in 0..n
            invariant
                n == cs.len(),
                m == ss.len(),
                rw.len() == n,
                cs == calls@,
                ss == stakes@,
                rw == rewards@,
                mcp == mcp_name@,
                o == old(self).records(),
                forall|c: int| 0 <= c < rw.len() ==> (#[trigger] rw[c])@.len() == ss.len(),
                self.wf(),
                records_of(out@) == call_entries(cs.take(c as int), ss, rw.take(c as int), mcp),
                self.records() == overlay(o, records_of(out@)),
                self.records().len() >= out@.len(),
                self.user_map() == users_after(old(self).user_map(), records_of(out@), 0),
                self.mcp_map() == mcps_after(old(self).mcp_map(), records_of(out@), 0),
        {
            let ghost e_before = records_of(out@);
            proof {
                assert(cs.take(c + 1).drop_last() =~= cs.take(c as int));
                assert(rw.take(c + 1).drop_last() =~= rw.take(c as int));
                assert(cs.take(c + 1).last() == cs[c as int]);
                assert(rw.take(c + 1).last() == rw[c as int]);
            }
            if text_equal(calls[c].mcp_name.as_str(), mcp_name) {
                let row = &rewards[c];
                let ghost rv = row@;
                proof {
                    assert(ss.take(0) =~= Seq::<StakeRecord>::empty());
                    assert(rv.take(0) =~= Seq::<u64>::empty());
                    assert(records_of(out@) =~= e_before + call_row(ss.take(0), rv.take(0), mcp, cs[c as int].block_id));
                }
                for s in 0..m
                    invariant
                        n == cs.len(),
                        m == ss.len(),
                        rw.len() == n,
                        c < n,
                        cs == calls@,
                        ss == stakes@,
                        rw == rewards@,
                        mcp == mcp_name@,
                        o == old(self).records(),
                        rv == rw[c as int]@,
                        rv.len() == m,
                        row@ == rv,
                        self.wf(),
                        records_of(out@) == e_before + call_row(ss.take(s as int), rv.take(s as int), mcp, cs[c as int].block_id),
                        self.records() == overlay(o, records_of(out@)),
                        self.records().len() >= out@.len(),
                        self.user_map() == users_after(old(self).user_map(), records_of(out@), 0),
                        self.mcp_map() == mcps_after(old(self).mcp_map(), records_of(out@), 0),
                {
                    proof {
                        assert(ss.take(s + 1).drop_last() =~= ss.take(s as int));
                        assert(rv.take(s + 1).drop_last() =~= rv.take(s as int));
                        assert(ss.take(s + 1).last() == ss[s as int]);
                        assert(rv.take(s + 1).last() == rv[s as int]);
                    }
                    if text_equal(stakes[s].mcp_name.as_str(), mcp_name) {
                        let entry = RewardEntry {
                            principal_id: stakes[s].principal_id.clone(),
                            mcp_name: mcp_name.to_string(),
                            reward_amount: row[s],
                            block_id: calls[c].block_id,
                            status: "pending".to_string(),
                        };
                        let ghost ev = entry@;
                        let ghost e_prev = records_of(out@);
                        let ghost before = self.records();
                        let id = out.len() as u64;
                        self.record_reward(id, entry.clone());
                        out.push(entry);
                        proof {
                            assert(records_of(out@) =~= e_prev.push(ev));
                            assert(records_of(out@).drop_last() =~= e_prev);
                            assert(self.records() =~= overlay(o, records_of(out@)));
                        }
                    }
                }
                proof {
                    assert(ss.take(m as int) =~= ss);
                    assert(rv.take(m as int) =~= rv);
                }
            }
        }
        proof {
            assert(cs.take(n as int) =~= cs);
            assert(rw.take(n as int) =~= rw);
        }
        out
    }
}

} // verus!
