use aio_base_backend::mcp_asset_types::{McpStackRecord, StackStatus};
use aio_base_backend::mining_reword::{group_unclaimed_by_agent, stacked_total, CallRecord, RewardEntry, RewardLedger, StakeRecord};
use aio_base_backend::trace_storage::{IOValue, IOValueType, TraceItem, TraceStore};

fn reward(principal: &str, mcp: &str, amount: u64, block: u64) -> RewardEntry {
    RewardEntry {
        principal_id: principal.to_string(),
        mcp_name: mcp.to_string(),
        reward_amount: amount,
        block_id: block,
        status: "pending".to_string(),
    }
}

fn ledger() -> RewardLedger {
    let mut l = RewardLedger::new();
    for r in [reward("alice", "mcp-b", 10, 1), reward("bob", "mcp-a", 20, 2), reward("alice", "mcp-a", 30, 3), reward("alice", "mcp-b", 40, 4)] {
        let id = l.next_reward_id();
        l.record_reward(id, r);
    }
    l
}

#[test]
fn pending_rewards_come_by_mcp_then_by_id() {
    let l = ledger();
    let p = l.get_pending_rewards("alice");
    assert_eq!(p.iter().map(|e| e.block_id).collect::<Vec<_>>(), vec![3, 1, 4]);
    assert_eq!(l.cal_unclaim_rewards("alice"), 80);
    assert_eq!(l.cal_unclaim_rewards("carol"), 0);
    assert_eq!(l.get_total_aiotoken_claimable(), 100);
}

#[test]
fn mcp_rewards_list_every_entry_of_the_mcp() {
    let l = ledger();
    let a = l.get_mcp_rewards("mcp-a");
    assert_eq!(a.iter().map(|e| e.reward_amount).collect::<Vec<_>>(), vec![20, 30]);
    assert!(l.get_mcp_rewards("mcp-z").is_empty());
}

#[test]
fn a_claim_needs_a_pending_reward_and_clears_them() {
    let mut l = ledger();
    assert_eq!(l.pending_claim("carol"), Err("No pending rewards to claim".to_string()));
    assert_eq!(l.pending_claim("alice"), Ok(80));
    l.mark_claimed("alice");
    assert!(l.get_pending_rewards("alice").is_empty());
    assert_eq!(l.pending_claim("alice"), Err("No pending rewards to claim".to_string()));
    assert_eq!(l.cal_unclaim_rewards("bob"), 20);
    let b = l.get_mcp_rewards("mcp-b");
    assert!(b.iter().all(|e| e.status == "claimed"));
    assert_eq!(l.get_total_aiotoken_claimable(), 100);
}

#[test]
fn recording_under_a_used_id_replaces_the_entry() {
    let mut l = ledger();
    assert_eq!(l.next_reward_id(), 4);
    l.record_reward(0, reward("bob", "mcp-b", 5, 9));
    assert_eq!(l.next_reward_id(), 4);
    // The id stays listed under alice as well; the entry is now bob's.
    let alice = l.get_pending_rewards("alice");
    assert_eq!(alice.iter().map(|e| e.block_id).collect::<Vec<_>>(), vec![3, 9, 4]);
    assert_eq!(l.get_total_aiotoken_claimable(), 95);
}

fn trace(agent: &str, status: &str) -> TraceItem {
    let io = IOValue { data_type: "text".to_string(), value: IOValueType::Null };
    TraceItem {
        trace_id: format!("t-{}", agent),
        context_id: "c".to_string(),
        protocol: "mcp".to_string(),
        agent: agent.to_string(),
        call_type: "call".to_string(),
        method: "run".to_string(),
        input: io.clone(),
        output: io,
        status: status.to_string(),
        error_message: None,
        timestamp: 7,
    }
}

#[test]
fn unclaimed_traces_are_grouped_by_agent_in_order_of_first_sight() {
    let items = vec![trace("b", "ok"), trace("a", "ok"), trace("b", "claimed"), trace("b", "error"), trace("c", "claimed")];
    let groups = group_unclaimed_by_agent(&items);
    assert_eq!(groups, vec![("b".to_string(), vec![0, 3]), ("a".to_string(), vec![1])]);
}

#[test]
fn only_staked_records_count_towards_the_total_stake() {
    let rec = |amount: u64, status: StackStatus| McpStackRecord {
        principal_id: "p".to_string(),
        mcp_name: "m".to_string(),
        stack_time: 1,
        stack_amount: amount,
        stack_status: status,
    };
    let records = vec![rec(100, StackStatus::Stacked), rec(50, StackStatus::Unstacked), rec(25, StackStatus::Stacked)];
    assert_eq!(stacked_total(&records), 125);
    assert_eq!(stacked_total(&vec![]), 0);
}

fn stake(principal: &str, mcp: &str, amount: u64, status: StackStatus) -> McpStackRecord {
    McpStackRecord {
        principal_id: principal.to_string(),
        mcp_name: mcp.to_string(),
        stack_time: 0,
        stack_amount: amount,
        stack_status: status,
    }
}

fn io_text(s: &str) -> IOValue {
    IOValue { data_type: "text".to_string(), value: IOValueType::Text(s.to_string()) }
}

#[test]
fn a_mining_round_files_rewards_and_claims_the_traces() {
    let day: u64 = 86_400_000_000_000;
    let mut traces = TraceStore::new();
    for (t, st, ts) in [("t1", "ok", 2 * day), ("t2", "error", 2 * day + 1), ("t3", "ok", 2 * day + 2)] {
        traces
            .record_trace_call(t.to_string(), "c".to_string(), "mcp".to_string(), "mem".to_string(), "call".to_string(),
                "m".to_string(), io_text("i"), io_text("o"), st.to_string(), None, ts)
            .unwrap();
    }
    let items = traces.get_traces_for_mining_days(0, 100, 2 * day + 10);
    assert_eq!(items.len(), 2);
    let groups = group_unclaimed_by_agent(&items);
    assert_eq!(groups.len(), 1);
    let (mcp, positions) = &groups[0];
    let recs = vec![stake("alice", "mem", 300, StackStatus::Stacked), stake("bob", "mem", 100, StackStatus::Unstacked), stake("carol", "mem", 100, StackStatus::Stacked)];
    let mut ledger = ledger();
    let first = ledger.next_reward_id();
    let entries = ledger.mine_mcp_group(&mut traces, mcp, &items, positions, &recs, &vec![7, 8, 9]).unwrap();
    assert_eq!(entries.len(), 4);
    assert_eq!(entries.iter().map(|e| (e.principal_id.as_str(), e.reward_amount, e.block_id)).collect::<Vec<_>>(),
        vec![("alice", 7, 2 * day), ("alice", 7, 2 * day + 2), ("carol", 9, 2 * day), ("carol", 9, 2 * day + 2)]);
    assert!(entries.iter().all(|e| e.status == "pending" && e.mcp_name == "mem"));
    assert_eq!(ledger.next_reward_id(), first + 4);
    assert_eq!(ledger.get_mcp_rewards("mem").len(), 4);
    assert!(traces.get_traces_for_mining_days(0, 100, 2 * day + 10).is_empty());
    assert!(traces.get_trace_by_id("t1".to_string()).unwrap().calls.iter().all(|c| c.status == "claimed"));
    assert_eq!(traces.get_trace_by_id("t2".to_string()).unwrap().calls[0].status, "error");
}

#[test]
fn a_mining_round_without_stakes_or_with_a_lost_trace() {
    let mut traces = TraceStore::new();
    let item = TraceItem {
        trace_id: "gone".to_string(),
        context_id: "c".to_string(),
        protocol: "mcp".to_string(),
        agent: "mem".to_string(),
        call_type: "call".to_string(),
        method: "m".to_string(),
        input: io_text("i"),
        output: io_text("o"),
        status: "ok".to_string(),
        error_message: None,
        timestamp: 5,
    };
    let mut ledger = RewardLedger::new();
    let none = ledger
        .mine_mcp_group(&mut traces, "mem", &vec![item.clone()], &vec![0], &vec![stake("a", "mem", 1, StackStatus::Unstacked)], &vec![3])
        .unwrap();
    assert!(none.is_empty());
    assert_eq!(
        ledger
            .mine_mcp_group(&mut traces, "mem", &vec![item], &vec![0], &vec![stake("a", "mem", 1, StackStatus::Stacked)], &vec![3])
            .unwrap_err(),
        "Failed to update trace status: Trace not found"
    );
}

#[test]
fn call_rewards_take_ids_from_zero() {
    let mut ledger = ledger();
    let calls = vec![
        CallRecord { block_id: 100, mcp_name: "mem".to_string() },
        CallRecord { block_id: 101, mcp_name: "other".to_string() },
        CallRecord { block_id: 102, mcp_name: "mem".to_string() },
    ];
    let stakes = vec![
        StakeRecord { principal_id: "p1".to_string(), mcp_name: "mem".to_string(), stack_amount: 10 },
        StakeRecord { principal_id: "p2".to_string(), mcp_name: "other".to_string(), stack_amount: 10 },
        StakeRecord { principal_id: "p3".to_string(), mcp_name: "mem".to_string(), stack_amount: 30 },
    ];
    let amounts = vec![vec![1, 2, 3], vec![4, 5, 6], vec![7, 8, 9]];
    let out = ledger.record_call_rewards("mem", &calls, &stakes, &amounts);
    assert_eq!(out.iter().map(|e| (e.principal_id.as_str(), e.reward_amount, e.block_id)).collect::<Vec<_>>(),
        vec![("p1", 1, 100), ("p3", 3, 100), ("p1", 7, 102), ("p3", 9, 102)]);
    assert_eq!(ledger.next_reward_id(), 4);
    assert_eq!(ledger.get_mcp_rewards("mem").len(), 4);
}
