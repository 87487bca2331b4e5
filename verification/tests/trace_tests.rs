use aio_base_backend::trace_storage::{IOValue, IOValueType, TraceStore, TRACE_BUFFER_SIZE};

fn io(s: &str) -> IOValue {
    IOValue { data_type: "text".to_string(), value: IOValueType::Text(s.to_string()) }
}

fn record(store: &mut TraceStore, trace: &str, agent: &str, method: &str, status: &str, now: u64) {
    store
        .record_trace_call(
            trace.to_string(),
            format!("ctx-{}", trace),
            "mcp".to_string(),
            agent.to_string(),
            "call".to_string(),
            method.to_string(),
            io("in"),
            io("out"),
            status.to_string(),
            None,
            now,
        )
        .unwrap();
}

#[test]
fn a_trace_keeps_its_last_hundred_calls() {
    let mut store = TraceStore::new();
    for i in 0..(TRACE_BUFFER_SIZE as u64 + 5) {
        record(&mut store, "t1", "agent", "m", "ok", i);
    }
    let t = store.get_trace_by_id("t1".to_string()).unwrap();
    assert_eq!(t.calls.len(), TRACE_BUFFER_SIZE);
    assert_eq!(t.calls[0].timestamp, 5);
    assert_eq!(t.calls[TRACE_BUFFER_SIZE - 1].timestamp, 104);
    assert_eq!(t.calls[TRACE_BUFFER_SIZE - 1].id, 101);
    assert_eq!(t.context_id, "ctx-t1");
}

#[test]
fn queries_filter_and_page_in_id_order() {
    let mut store = TraceStore::new();
    record(&mut store, "b", "alice", "search", "ok", 10);
    record(&mut store, "a", "bob", "store", "error", 11);
    record(&mut store, "c", "alice", "store", "ok", 12);
    let all = store.get_all_trace_logs();
    assert_eq!(all.iter().map(|t| t.trace_id.clone()).collect::<Vec<_>>(), vec!["a", "b", "c"]);
    assert_eq!(store.get_traces_by_method_name("store".to_string()).len(), 2);
    assert_eq!(store.get_traces_by_protocol_name("mcp".to_string()).len(), 3);
    assert_eq!(store.get_traces_by_status("ok".to_string(), 1, 5).len(), 1);
    assert_eq!(store.get_traces_by_agentname_paginated("alice".to_string(), 0, 1).len(), 1);
    assert_eq!(store.get_traces_paginated(2, 10).len(), 1);
    assert_eq!(store.get_trace_by_context_id("ctx-c".to_string()).unwrap().trace_id, "c");
    let stats = store.get_traces_statistics(0, 0, 0);
    assert_eq!(stats.total_count, 3);
    assert_eq!(stats.success_count, 2);
    assert_eq!(stats.error_count, 1);
    let filtered = store.get_traces_with_filters(vec![], vec!["store".to_string()], vec!["ok".to_string()], vec![], vec![], vec![], vec![], 10);
    assert_eq!(filtered.len(), 1);
    assert_eq!(filtered[0].trace_id, "c");
    let items = store.get_traces_by_operation("alice".to_string(), "store".to_string(), 99);
    assert_eq!(items.len(), 1);
    assert_eq!(items[0].timestamp, 99);
}

#[test]
fn time_windows_and_mining_days() {
    let day = 86_400_000_000_000u64;
    let mut store = TraceStore::new();
    record(&mut store, "old", "alice", "m", "ok", 10);
    record(&mut store, "new", "alice", "m", "ok", 3 * day);
    record(&mut store, "bad", "alice", "m", "fail", 3 * day);
    let recent = store.get_traces_by_time_period("alice".to_string(), "day".to_string(), 3 * day + 5);
    assert_eq!(recent.len(), 2);
    assert!(store.get_traces_by_time_period("alice".to_string(), "decade".to_string(), 3 * day).is_empty());
    let mined = store.get_traces_for_mining_days(0, 10, 3 * day + 5);
    assert_eq!(mined.len(), 1);
    assert_eq!(mined[0].trace_id, "new");
}

#[test]
fn sorting_walks_the_calls_named_all_of_an_agent() {
    let mut store = TraceStore::new();
    record(&mut store, "t1", "alice", "all", "ok", 10);
    record(&mut store, "t2", "alice", "all", "error", 11);
    record(&mut store, "t3", "alice", "all", "pending", 12);
    record(&mut store, "t4", "alice", "other", "aaa", 13);
    record(&mut store, "t5", "bob", "all", "zzz", 14);
    let up = store.get_traces_sorted("alice".to_string(), "status".to_string(), true, 50);
    assert_eq!(up.iter().map(|i| i.status.as_str()).collect::<Vec<_>>(), vec!["error", "ok", "pending"]);
    let down = store.get_traces_sorted("alice".to_string(), "status".to_string(), false, 50);
    assert_eq!(down.iter().map(|i| i.status.as_str()).collect::<Vec<_>>(), vec!["pending", "ok", "error"]);
    let by_time = store.get_traces_sorted("alice".to_string(), "timestamp".to_string(), true, 50);
    assert_eq!(by_time.iter().map(|i| i.trace_id.as_str()).collect::<Vec<_>>(), vec!["t1", "t2", "t3"]);
}

#[test]
fn claimed_traces_leave_the_mining_window() {
    let day: u64 = 86_400_000_000_000;
    let mut store = TraceStore::new();
    record(&mut store, "t1", "agent", "m", "ok", 2 * day);
    record(&mut store, "t1", "agent", "m", "ok", 2 * day + 1);
    record(&mut store, "t2", "agent", "m", "ok", 2 * day + 2);
    assert_eq!(store.get_traces_for_mining_days(0, 10, 2 * day + 10).len(), 3);
    assert_eq!(store.update_trace_status("t1".to_string(), "claimed".to_string()), Ok(()));
    let t1 = store.get_trace_by_id("t1".to_string()).unwrap();
    assert_eq!(t1.calls.len(), 2);
    assert!(t1.calls.iter().all(|c| c.status == "claimed"));
    assert_eq!(t1.calls[1].timestamp, 2 * day + 1);
    let mined = store.get_traces_for_mining_days(0, 10, 2 * day + 10);
    assert_eq!(mined.len(), 1);
    assert_eq!(mined[0].trace_id, "t2");
    assert_eq!(store.update_trace_status("nope".to_string(), "claimed".to_string()), Err("Trace not found".to_string()));
}
