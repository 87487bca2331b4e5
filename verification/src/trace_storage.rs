//! Execution traces: each trace keeps the last `TRACE_BUFFER_SIZE` protocol calls
//! made under it, numbered as they come; queries walk the traces in the order of
//! their ids.
use vstd::prelude::*;
use crate::text::{clone_opt_text, text_equal, texts_view, texts_contain, rank_text, bytes_lt, utf8_of, Rank};
use crate::sorted_map::{SortedMap, KeyFields, text_key, keys_of, map_of, strictly_sorted};
use crate::paging::{skip_take, keep_page_u64};

verus! {

/// The most calls a trace keeps.
pub const TRACE_BUFFER_SIZE: usize = 100;

/// The kind and contents of an input or output value. A number is held as the
/// IEEE-754 bits of the `f64` it stands for.
#[derive(Debug)]
pub enum IOValueType {
    Text(String),
    Number(u64),
    Boolean(bool),
    Object(String),
    Array(String),
    Null,
}

impl Clone for IOValueType {
    fn clone(&self) -> (r: Self)
        ensures
            r == *self,
    {
        match self {
            IOValueType::Text(s) => IOValueType::Text(s.clone()),
            IOValueType::Number(n) => IOValueType::Number(*n),
            IOValueType::Boolean(b) => IOValueType::Boolean(*b),
            IOValueType::Object(s) => IOValueType::Object(s.clone()),
            IOValueType::Array(s) => IOValueType::Array(s.clone()),
            IOValueType::Null => IOValueType::Null,
        }
    }
}

#[derive(Debug)]
pub struct IOValue {
    pub data_type: String,
    pub value: IOValueType,
}

impl Clone for IOValue {
    fn clone(&self) -> (r: Self)
        ensures
            r == *self,
    {
        IOValue { data_type: self.data_type.clone(), value: self.value.clone() }
    }
}

/// One call made under a trace.
#[derive(Debug)]
pub struct ProtocolCall {
    pub id: u32,
    pub protocol: String,
    pub agent: String,
    pub call_type: String,
    pub method: String,
    pub input: IOValue,
    pub output: IOValue,
    pub status: String,
    pub error_message: Option<String>,
    pub timestamp: u64,
}

impl Clone for ProtocolCall {
    fn clone(&self) -> (r: Self)
        ensures
            r == *self,
    {
        ProtocolCall {
            id: self.id,
            protocol: self.protocol.clone(),
            agent: self.agent.clone(),
            call_type: self.call_type.clone(),
            method: self.method.clone(),
            input: self.input.clone(),
            output: self.output.clone(),
            status: self.status.clone(),
            error_message: clone_opt_text(&self.error_message),
            timestamp: self.timestamp,
        }
    }
}

/// A trace: its id, its context and its calls, oldest first.
#[derive(Debug)]
pub struct TraceLog {
    pub trace_id: String,
    pub context_id: String,
    pub calls: Vec<ProtocolCall>,
}

/// A trace as a value.
pub struct TraceRecord {
    pub trace_id: String,
    pub context_id: String,
    pub calls: Seq<ProtocolCall>,
}

impl View for TraceLog {
    type V = TraceRecord;

    open spec fn view(&self) -> TraceRecord {
        TraceRecord { trace_id: self.trace_id, context_id: self.context_id, calls: self.calls@ }
    }
}

fn copy_calls(c: &Vec<ProtocolCall>) -> (r: Vec<ProtocolCall>)
    ensures
        r@ == c@,
{
    let mut out: Vec<ProtocolCall> = Vec::new();
    for i in 0..c.len()
        invariant
            out@ == c@.subrange(0, i as int),
    {
        out.push(c[i].clone());
        proof {
            assert(out@ =~= c@.subrange(0, i + 1));
        }
    }
    assert(c@.subrange(0, c@.len() as int) =~= c@);
    out
}

impl Clone for TraceLog {
    fn clone(&self) -> (r: Self)
        ensures
            r@ == self@,
    {
        TraceLog {
            trace_id: self.trace_id.clone(),
            context_id: self.context_id.clone(),
            calls: copy_calls(&self.calls),
        }
    }
}

#[derive(Debug)]
pub struct TraceStatistics {
    pub total_count: u64,
    pub success_count: u64,
    pub error_count: u64,
}

/// The key of a trace.
#[derive(Debug)]
pub struct TraceKey {
    pub trace_id: String,
}

/// One call of a trace, with the ids of its trace.
#[derive(Debug)]
pub struct TraceItem {
    pub trace_id: String,
    pub context_id: String,
    pub protocol: String,
    pub agent: String,
    pub call_type: String,
    pub method: String,
    pub input: IOValue,
    pub output: IOValue,
    pub status: String,
    pub error_message: Option<String>,
    pub timestamp: u64,
}

impl Clone for TraceItem {
    fn clone(&self) -> (r: Self)
        ensures
            r == *self,
    {
        TraceItem {
            trace_id: self.trace_id.clone(),
            context_id: self.context_id.clone(),
            protocol: self.protocol.clone(),
            agent: self.agent.clone(),
            call_type: self.call_type.clone(),
            method: self.method.clone(),
            input: self.input.clone(),
            output: self.output.clone(),
            status: self.status.clone(),
            error_message: clone_opt_text(&self.error_message),
            timestamp: self.timestamp,
        }
    }
}

/// The calls of a trace after `call` was added: the last `TRACE_BUFFER_SIZE` of them.
pub open spec fn buffered(calls: Seq<ProtocolCall>, call: ProtocolCall) -> Seq<ProtocolCall> {
    let all = calls.push(call);
    if all.len() > TRACE_BUFFER_SIZE {
        all.skip(all.len() - TRACE_BUFFER_SIZE)
    } else {
        all
    }
}

/// A call recorded under a trace is its newest call, and the trace never keeps
/// more than `TRACE_BUFFER_SIZE` calls.
pub proof fn lemma_buffered(calls: Seq<ProtocolCall>, call: ProtocolCall)
    requires
        calls.len() <= TRACE_BUFFER_SIZE,
    ensures
        buffered(calls, call).len() <= TRACE_BUFFER_SIZE,
        buffered(calls, call).len() > 0,
        buffered(calls, call).last() == call,
        calls.len() < TRACE_BUFFER_SIZE ==> buffered(calls, call) == calls.push(call),
{
}

/// The traces of a walk, in order.
pub open spec fn trace_values(ts: Seq<(KeyFields, TraceRecord)>) -> Seq<TraceRecord> {
    ts.map_values(|e: (KeyFields, TraceRecord)| e.1)
}

/// What the trace store holds: the traces in the order of their ids.
pub struct TraceView {
    pub traces: Seq<(KeyFields, TraceRecord)>,
}

impl TraceView {
    /// The trace with id `id`.
    pub open spec fn trace(self, id: Seq<char>) -> Option<TraceRecord> {
        if map_of(self.traces).contains_key(text_key(id)) {
            Some(map_of(self.traces)[text_key(id)])
        } else {
            None
        }
    }
}

/// The traces, by id.
pub struct TraceStore {
    traces: SortedMap<String, TraceLog>,
}

impl View for TraceStore {
    type V = TraceView;

    closed spec fn view(&self) -> TraceView {
        TraceView { traces: self.traces.pairs().map_values(|e: (KeyFields, TraceLog)| (e.0, e.1@)) }
    }
}

impl TraceStore {
    /// The store is ordered, and no trace keeps more than `TRACE_BUFFER_SIZE` calls.
    pub closed spec fn wf(&self) -> bool {
        &&& self.traces.wf()
        &&& forall|k: KeyFields| #[trigger] self.traces.as_map().contains_key(k) ==> self.traces.as_map()[k].calls@.len()
            <= TRACE_BUFFER_SIZE
    }

    proof fn lemma_map(&self)
        requires
            self.traces.wf(),
        ensures
            map_of(self@.traces) == self.traces.as_map().map_values(|t: TraceLog| t@),
            strictly_sorted(keys_of(self@.traces)),
    {
        self.traces.lemma_pairs();
        let ps = self.traces.pairs();
        assert(keys_of(self@.traces) =~= keys_of(ps));
        assert forall|k: KeyFields| self.traces.as_map().contains_key(k) implies #[trigger] map_of(self@.traces)[k]
            == self.traces.as_map()[k]@ by {
            assert(keys_of(self@.traces).index_of(k) == keys_of(ps).index_of(k));
        }
        assert(map_of(self@.traces) =~= self.traces.as_map().map_values(|t: TraceLog| t@));
    }

    /// Every trace keeps at most `TRACE_BUFFER_SIZE` calls, and the walk is ordered.
    pub proof fn lemma_bounded(&self)
        requires
            self.wf(),
        ensures
            forall|i: int| 0 <= i < self@.traces.len() ==> (#[trigger] self@.traces[i]).1.calls.len() <= TRACE_BUFFER_SIZE,
            strictly_sorted(keys_of(self@.traces)),
    {
        self.lemma_map();
        assert forall|i: int| 0 <= i < self@.traces.len() implies (#[trigger] self@.traces[i]).1.calls.len()
            <= TRACE_BUFFER_SIZE by {
            self.traces.lemma_at(i);
        }
    }

    pub fn new() -> (s: Self)
        ensures
            s.wf(),
            s@.traces == Seq::<(KeyFields, TraceRecord)>::empty(),
    {
        let s = TraceStore { traces: SortedMap::new() };
        assert(s@.traces =~= Seq::<(KeyFields, TraceRecord)>::empty());
        s
    }

    /// Records a call under trace `trace_id` (opened with `context_id` when there
    /// is none), numbered one past the calls the trace keeps and stamped at `now`;
    /// the trace then keeps its last `TRACE_BUFFER_SIZE` calls.
    pub fn record_trace_call(
        &mut self,
        trace_id: String,
        context_id: String,
        protocol: String,
        agent: String,
        call_type: String,
        method: String,
        input: IOValue,
        output: IOValue,
        status: String,
        error_message: Option<String>,
        now: u64,
    ) -> (r: Result<(), String>)
        requires
            old(self).wf(),
        ensures
            final(self).wf(),
            r is Ok,
            ({
                let prev = old(self)@.trace(trace_id@);
                let calls = match prev {
                    Some(t) => t.calls,
                    None => Seq::<ProtocolCall>::empty(),
                };
                let call = ProtocolCall {
                    id: (calls.len() + 1) as u32,
                    protocol,
                    agent,
                    call_type,
                    method,
                    input,
                    output,
                    status,
                    error_message,
                    timestamp: now,
                };
                let t = match prev {
                    Some(p) => TraceRecord { calls: buffered(p.calls, call), ..p },
                    None => TraceRecord { trace_id, context_id, calls: buffered(Seq::empty(), call) },
                };
                map_of(final(self)@.traces) == map_of(old(self)@.traces).insert(text_key(trace_id@), t)
            }),
    {
        proof {
            self.lemma_map();
        }
        let key = trace_id.clone();
        let found = self.traces.remove(&key);
        let mut log = match found {
            Some(t) => t,
            None => TraceLog { trace_id: trace_id, context_id, calls: Vec::new() },
        };
        let n = log.calls.len();
        assert(n <= TRACE_BUFFER_SIZE);
        let call = ProtocolCall {
            id: n as u32 + 1,
            protocol,
            agent,
            call_type,
            method,
            input,
            output,
            status,
            error_message,
            timestamp: now,
        };
        let ghost before = log@;
        let ghost c = call;
        log.calls.push(call);
        if log.calls.len() > TRACE_BUFFER_SIZE {
            let extra = log.calls.len() - TRACE_BUFFER_SIZE;
            log.calls = log.calls.split_off(extra);
        }
        let ghost after = log@;
        proof {
            assert(after.calls =~= buffered(before.calls, c));
            assert(after == TraceRecord { calls: buffered(before.calls, c), ..before });
        }
        self.traces.insert(key, log);
        proof {
            self.lemma_map();
            assert(map_of(self@.traces) =~= map_of(old(self)@.traces).insert(text_key(trace_id@), after));
        }
        Ok(())
    }

    /// Sets the status of every call of trace `trace_id` to `status`; refused
    /// when there is no such trace.
    pub fn update_trace_status(&mut self, trace_id: String, status: String) -> (r: Result<(), String>)
        requires
            old(self).wf(),
        ensures
            final(self).wf(),
            match old(self)@.trace(trace_id@) {
                None => (r matches Err(e) && e@ == "Trace not found"@) && final(self)@ == old(self)@,
                Some(t) => r is Ok && map_of(final(self)@.traces) == map_of(old(self)@.traces).insert(
                    text_key(trace_id@),
                    TraceRecord { calls: restamped(t.calls, status), ..t },
                ),
            },
    {
        proof {
            self.lemma_map();
        }
        let key = trace_id.clone();
        if !self.traces.contains_key(&key) {
            return Err("Trace not found".to_string());
        }
        let found = self.traces.remove(&key);
        let mut log = match found {
            Some(t) => t,
            None => {
                return Err("Trace not found".to_string());
            },
        };
        let ghost before = log@;
        let mut calls: Vec<ProtocolCall> = Vec::new();
        let n = log.calls.len();
        for i in 0..n
            invariant
                n == log.calls@.len(),
                log@ == before,
                calls@ == restamped(log.calls@.take(i as int), status),
        {
            let mut c = log.calls[i].clone();
            c.status = status.clone();
            calls.push(c);
            proof {
                assert(log.calls@.take(i + 1) =~= log.calls@.take(i as int).push(log.calls@[i as int]));
                assert(calls@ =~= restamped(log.calls@.take(i + 1), status));
            }
        }
        proof {
            assert(log.calls@.take(n as int) =~= log.calls@);
        }
        log.calls = calls;
        let ghost after = log@;
        proof {
            assert(after == TraceRecord { calls: restamped(before.calls, status), ..before });
        }
        self.traces.insert(key, log);
        proof {
            self.lemma_map();
            assert(map_of(self@.traces) =~= map_of(old(self)@.traces).insert(text_key(trace_id@), after));
        }
        Ok(())
    }
}

/// The calls `calls`, each with its status set to `status`.
pub open spec fn restamped(calls: Seq<ProtocolCall>, status: String) -> Seq<ProtocolCall> {
    calls.map_values(|c: ProtocolCall| ProtocolCall { status: status, ..c })
}

/// Whether `b` is `a` with the status of every call set to `status`.
pub open spec fn restamped_as(a: Seq<ProtocolCall>, b: Seq<ProtocolCall>, status: Seq<char>) -> bool {
    &&& a.len() == b.len()
    &&& forall|i: int| 0 <= i < a.len() ==> (#[trigger] b[i]).status@ == status && b[i] == (ProtocolCall {
        status: b[i].status,
        ..a[i]
    })
}

/// Whether `t1` is the trace `t0` with the status of every call set to `status`.
pub open spec fn trace_restamped(t0: TraceRecord, t1: TraceRecord, status: Seq<char>) -> bool {
    &&& t1.trace_id == t0.trace_id
    &&& t1.context_id == t0.context_id
    &&& restamped_as(t0.calls, t1.calls, status)
}

/// What `update_trace_status` stores is the trace restamped with its status.
pub proof fn lemma_restamped(t: TraceRecord, s: String)
    ensures
        trace_restamped(t, TraceRecord { calls: restamped(t.calls, s), ..t }, s@),
{
}

/// Restamping twice with one status is restamping once.
pub proof fn lemma_restamped_twice(t0: TraceRecord, t1: TraceRecord, t2: TraceRecord, status: Seq<char>)
    requires
        trace_restamped(t0, t1, status),
        trace_restamped(t1, t2, status),
    ensures
        trace_restamped(t0, t2, status),
{
    assert forall|i: int| 0 <= i < t0.calls.len() implies (#[trigger] t2.calls[i]).status@ == status && t2.calls[i] == (
    ProtocolCall { status: t2.calls[i].status, ..t0.calls[i] }) by {
        assert(t1.calls[i] == (ProtocolCall { status: t1.calls[i].status, ..t0.calls[i] }));
        assert(t2.calls[i] == (ProtocolCall { status: t2.calls[i].status, ..t1.calls[i] }));
    }
}

/// What a trace query asks of a call.
pub enum TraceQuery {
    Protocol(String),
    Method(String),
    Status(String),
    Agent(String),
    Operation(String, String),
    Since(String, u64),
    Mined(u64),
    Filters(Vec<String>, Vec<String>, Vec<String>),
}

/// Whether `x` is empty or holds `s`.
pub open spec fn admits(x: Seq<String>, s: Seq<char>) -> bool {
    x.len() == 0 || texts_view(x).contains(s)
}

/// Whether the call `c` answers the query `q`.
pub open spec fn call_matches(c: ProtocolCall, q: TraceQuery) -> bool {
    match q {
        TraceQuery::Protocol(p) => c.protocol@ == p@,
        TraceQuery::Method(m) => c.method@ == m@,
        TraceQuery::Status(s) => c.status@ == s@,
        TraceQuery::Agent(a) => c.agent@ == a@,
        TraceQuery::Operation(a, m) => c.agent@ == a@ && c.method@ == m@,
        TraceQuery::Since(a, start) => c.agent@ == a@ && c.timestamp >= start,
        TraceQuery::Mined(start) => c.status@ == "ok"@ && c.timestamp >= start,
        TraceQuery::Filters(ps, ms, ss) => admits(ps@, c.protocol@) && admits(ms@, c.method@) && admits(ss@, c.status@),
    }
}

/// Whether some call of `t` answers the query `q`.
pub open spec fn trace_matches(t: TraceRecord, q: TraceQuery) -> bool {
    exists|i: int| 0 <= i < t.calls.len() && call_matches(#[trigger] t.calls[i], q)
}

/// The traces of `ts` that answer `q`, in order.
pub open spec fn matching(ts: Seq<TraceRecord>, q: TraceQuery) -> Seq<TraceRecord> {
    ts.filter(|t: TraceRecord| trace_matches(t, q))
}

fn holds_text(v: &Vec<String>, s: &String) -> (r: bool)
    ensures
        r == admits(v@, s@),
{
    v.len() == 0 || texts_contain(v, s)
}

fn call_answers(c: &ProtocolCall, q: &TraceQuery) -> (r: bool)
    ensures
        r == call_matches(*c, *q),
{
    match q {
        TraceQuery::Protocol(p) => c.protocol == *p,
        TraceQuery::Method(m) => c.method == *m,
        TraceQuery::Status(s) => c.status == *s,
        TraceQuery::Agent(a) => c.agent == *a,
        TraceQuery::Operation(a, m) => c.agent == *a && c.method == *m,
        TraceQuery::Since(a, start) => c.agent == *a && c.timestamp >= *start,
        TraceQuery::Mined(start) => text_equal(c.status.as_str(), "ok") && c.timestamp >= *start,
        TraceQuery::Filters(ps, ms, ss) => holds_text(ps, &c.protocol) && holds_text(ms, &c.method) && holds_text(
            ss,
            &c.status,
        ),
    }
}

fn trace_answers(t: &TraceLog, q: &TraceQuery) -> (r: bool)
    ensures
        r == trace_matches(t@, *q),
{
    for i in 0..t.calls.len()
        invariant
            forall|j: int| 0 <= j < i ==> !call_matches(#[trigger] t.calls@[j], *q),
    {
        if call_answers(&t.calls[i], q) {
            assert(call_matches(t@.calls[i as int], *q));
            return true;
        }
    }
    false
}

/// A call of trace `t` as an item, with time `stamp`.
pub open spec fn item_of(t: TraceRecord, c: ProtocolCall, stamp: u64) -> TraceItem {
    TraceItem {
        trace_id: t.trace_id,
        context_id: t.context_id,
        protocol: c.protocol,
        agent: c.agent,
        call_type: c.call_type,
        method: c.method,
        input: c.input,
        output: c.output,
        status: c.status,
        error_message: c.error_message,
        timestamp: stamp,
    }
}

/// Whether a call of a trace is listed: every call, or with `only` the calls that
/// answer it.
pub open spec fn listed(c: ProtocolCall, only: Option<TraceQuery>) -> bool {
    match only {
        Some(q) => call_matches(c, q),
        None => true,
    }
}

/// The items of the listed calls of `t`, in order, each with time `stamp` or, when
/// there is none, its own.
pub open spec fn items_for(t: TraceRecord, stamp: Option<u64>, only: Option<TraceQuery>) -> Seq<TraceItem> {
    t.calls.filter(|c: ProtocolCall| listed(c, only)).map_values(|c: ProtocolCall| item_of(t, c, match stamp {
        Some(n) => n,
        None => c.timestamp,
    }))
}

/// The items of the traces `ts`, trace after trace.
pub open spec fn flat_items(ts: Seq<TraceRecord>, stamp: Option<u64>, only: Option<TraceQuery>) -> Seq<TraceItem>
    decreases ts.len(),
{
    if ts.len() == 0 {
        Seq::empty()
    } else {
        flat_items(ts.drop_last(), stamp, only) + items_for(ts.last(), stamp, only)
    }
}

/// Appends the items of the listed calls of `t` to `out`.
fn push_items(out: &mut Vec<TraceItem>, t: &TraceLog, stamp: Option<u64>, only: &Option<TraceQuery>)
    ensures
        final(out)@ == old(out)@ + items_for(t@, stamp, *only),
{
    let ghost start = old(out)@;
    let n = t.calls.len();
    for i in 0..n
        invariant
            n == t.calls@.len(),
            start == old(out)@,
            out@ == start + t.calls@.take(i as int).filter(|c: ProtocolCall| listed(c, *only)).map_values(
                |c: ProtocolCall| item_of(t@, c, match stamp {
                    Some(n) => n,
                    None => c.timestamp,
                }),
            ),
    {
        proof {
            reveal_with_fuel(Seq::<_>::filter, 1);
            assert(t.calls@.take(i + 1).drop_last() =~= t.calls@.take(i as int));
        }
        let c = &t.calls[i];
        let take = match only {
            Some(q) => call_answers(c, q),
            None => true,
        };
        if take {
            let item = TraceItem {
                trace_id: t.trace_id.clone(),
                context_id: t.context_id.clone(),
                protocol: c.protocol.clone(),
                agent: c.agent.clone(),
                call_type: c.call_type.clone(),
                method: c.method.clone(),
                input: c.input.clone(),
                output: c.output.clone(),
                status: c.status.clone(),
                error_message: clone_opt_text(&c.error_message),
                timestamp: match stamp {
                    Some(s) => s,
                    None => c.timestamp,
                },
            };
            let ghost before = out@;
            out.push(item);
            proof {
                let f = t.calls@.take(i as int).filter(|c: ProtocolCall| listed(c, *only));
                assert(t.calls@.take(i + 1).filter(|c: ProtocolCall| listed(c, *only)) == f.push(t.calls@[i as int]));
                assert(f.push(t.calls@[i as int]).map_values(|c: ProtocolCall| item_of(t@, c, match stamp {
                    Some(n) => n,
                    None => c.timestamp,
                })) =~= f.map_values(|c: ProtocolCall| item_of(t@, c, match stamp {
                    Some(n) => n,
                    None => c.timestamp,
                })).push(item));
                assert(out@ =~= before.push(item));
            }
        }
    }
    proof {
        assert(t.calls@.take(n as int) =~= t.calls@);
    }
}

/// The traces of a list, each as a value.
pub open spec fn logs_view(ts: Seq<TraceLog>) -> Seq<TraceRecord> {
    ts.map_values(|t: TraceLog| t@)
}

/// The items of the traces `ts`, trace after trace.
fn flatten(ts: &Vec<TraceLog>, stamp: Option<u64>, only: &Option<TraceQuery>) -> (r: Vec<TraceItem>)
    ensures
        r@ == flat_items(logs_view(ts@), stamp, *only),
{
    let mut out: Vec<TraceItem> = Vec::new();
    let n = ts.len();
    let ghost tv = logs_view(ts@);
    for i in 0..n
        invariant
            n == ts@.len(),
            tv == logs_view(ts@),
            out@ == flat_items(tv.take(i as int), stamp, *only),
    {
        proof {
            assert(tv.take(i + 1).drop_last() =~= tv.take(i as int));
            assert(tv.take(i + 1).last() == ts@[i as int]@);
        }
        push_items(&mut out, &ts[i], stamp, only);
    }
    assert(tv.take(n as int) =~= tv);
    out
}

/// The number of calls that the traces `ts` keep.
pub open spec fn call_total(ts: Seq<TraceRecord>) -> int
    decreases ts.len(),
{
    if ts.len() == 0 {
        0
    } else {
        call_total(ts.drop_last()) + ts.last().calls.len()
    }
}

/// Whether a call succeeded.
pub open spec fn succeeded(c: ProtocolCall) -> bool {
    c.status@ == "ok"@
}

/// The number of calls with status `ok` that the traces `ts` keep.
pub open spec fn ok_total(ts: Seq<TraceRecord>) -> int
    decreases ts.len(),
{
    if ts.len() == 0 {
        0
    } else {
        ok_total(ts.drop_last()) + ts.last().calls.filter(|c: ProtocolCall| succeeded(c)).len()
    }
}

/// The length of a period named `day`, `week`, `month` (thirty days) or `year`
/// (365 days), in nanoseconds.
pub open spec fn period_nanos(name: Seq<char>) -> Option<u64> {
    if name == "day"@ {
        Some(86400000000000)
    } else if name == "week"@ {
        Some(604800000000000)
    } else if name == "month"@ {
        Some(2592000000000000)
    } else if name == "year"@ {
        Some(31536000000000000)
    } else {
        None
    }
}

/// A day, in nanoseconds.
pub const DAY_NANOS: u64 = 86400000000000;

impl TraceStore {
    /// The traces that answer `q`, in the order of their ids.
    fn matching_traces(&self, q: &TraceQuery) -> (r: Vec<TraceLog>)
        requires
            self.wf(),
        ensures
            logs_view(r@) == matching(trace_values(self@.traces), *q),
    {
        let n = self.traces.len();
        let ghost vals = trace_values(self@.traces);
        let mut out: Vec<TraceLog> = Vec::new();
        for i in 0..n
            invariant
                n == self.traces.key_seq().len(),
                vals == trace_values(self@.traces),
                vals.len() == n,
                logs_view(out@) == matching(vals.take(i as int), *q),
        {
            proof {
                reveal_with_fuel(Seq::<_>::filter, 1);
                assert(vals.take(i + 1).drop_last() =~= vals.take(i as int));
            }
            let (_, t) = self.traces.entry_at(i);
            assert(vals[i as int] == t@);
            if trace_answers(t, q) {
                let c = t.clone();
                let ghost before = out@;
                out.push(c);
                proof {
                    assert(logs_view(out@) =~= logs_view(before).push(c@));
                }
            }
        }
        assert(vals.take(n as int) =~= vals);
        out
    }

    /// All traces, in the order of their ids.
    pub fn get_all_trace_logs(&self) -> (r: Vec<TraceLog>)
        requires
            self.wf(),
        ensures
            logs_view(r@) == trace_values(self@.traces),
    {
        let n = self.traces.len();
        let ghost vals = trace_values(self@.traces);
        let mut out: Vec<TraceLog> = Vec::new();
        for i in 0..n
            invariant
                n == self.traces.key_seq().len(),
                vals == trace_values(self@.traces),
                vals.len() == n,
                logs_view(out@) == vals.take(i as int),
        {
            let (_, t) = self.traces.entry_at(i);
            assert(vals[i as int] == t@);
            let c = t.clone();
            let ghost before = out@;
            out.push(c);
            proof {
                assert(logs_view(out@) =~= logs_view(before).push(c@));
                assert(vals.take(i + 1) =~= vals.take(i as int).push(vals[i as int]));
            }
        }
        assert(vals.take(n as int) =~= vals);
        out
    }

    /// The trace with id `trace_id`.
    pub fn get_trace_by_id(&self, trace_id: String) -> (r: Option<TraceLog>)
        requires
            self.wf(),
        ensures
            r is Some == self@.trace(trace_id@) is Some,
            r matches Some(t) ==> Some(t@) == self@.trace(trace_id@),
    {
        proof {
            self.lemma_map();
        }
        match self.traces.get(&trace_id) {
            Some(t) => Some(t.clone()),
            None => None,
        }
    }

    /// The first trace, in the order of their ids, with context `context_id`.
    pub fn get_trace_by_context_id(&self, context_id: String) -> (r: Option<TraceLog>)
        requires
            self.wf(),
        ensures
            r is None <==> forall|j: int| 0 <= j < self@.traces.len() ==> (#[trigger] self@.traces[j]).1.context_id@
                != context_id@,
            r matches Some(t) ==> exists|i: int|
                0 <= i < self@.traces.len() && t@ == self@.traces[i].1 && self@.traces[i].1.context_id@ == context_id@
                    && forall|j: int| 0 <= j < i ==> (#[trigger] self@.traces[j]).1.context_id@ != context_id@,
    {
        let n = self.traces.len();
        for i in 0..n
            invariant
                n == self.traces.key_seq().len(),
                n == self@.traces.len(),
                forall|j: int| 0 <= j < i ==> (#[trigger] self@.traces[j]).1.context_id@ != context_id@,
        {
            let (_, t) = self.traces.entry_at(i);
            assert(self@.traces[i as int].1 == t@);
            if t.context_id == context_id {
                return Some(t.clone());
            }
        }
        None
    }

    /// At most `limit` traces from position `offset` of the walk on.
    pub fn get_traces_paginated(&self, offset: u64, limit: u64) -> (r: Vec<TraceLog>)
        requires
            self.wf(),
        ensures
            logs_view(r@) == skip_take(trace_values(self@.traces), offset as int, limit as int),
    {
        let all = self.get_all_trace_logs();
        let ghost av = all@;
        let out = keep_page_u64(all, offset, limit);
        assert(logs_view(out@) =~= skip_take(logs_view(av), offset as int, limit as int));
        out
    }

    /// The traces with a call of protocol `protocol`, in the order of their ids.
    pub fn get_traces_by_protocol_name(&self, protocol: String) -> (r: Vec<TraceLog>)
        requires
            self.wf(),
        ensures
            logs_view(r@) == matching(trace_values(self@.traces), TraceQuery::Protocol(protocol)),
    {
        self.matching_traces(&TraceQuery::Protocol(protocol))
    }

    /// The traces with a call of method `method`, in the order of their ids.
    pub fn get_traces_by_method_name(&self, method: String) -> (r: Vec<TraceLog>)
        requires
            self.wf(),
        ensures
            logs_view(r@) == matching(trace_values(self@.traces), TraceQuery::Method(method)),
    {
        self.matching_traces(&TraceQuery::Method(method))
    }

    /// At most `limit` of the traces with a call of status `status`, from position
    /// `offset` of that list on.
    pub fn get_traces_by_status(&self, status: String, offset: u64, limit: u64) -> (r: Vec<TraceLog>)
        requires
            self.wf(),
        ensures
            logs_view(r@) == skip_take(
                matching(trace_values(self@.traces), TraceQuery::Status(status)),
                offset as int,
                limit as int,
            ),
    {
        let all = self.matching_traces(&TraceQuery::Status(status));
        let ghost av = all@;
        let out = keep_page_u64(all, offset, limit);
        assert(logs_view(out@) =~= skip_take(logs_view(av), offset as int, limit as int));
        out
    }

    /// At most `limit` of the traces with a call of agent `agent_name`, from
    /// position `offset` of that list on.
    pub fn get_traces_by_agentname_paginated(&self, agent_name: String, offset: u64, limit: u64) -> (r: Vec<TraceLog>)
        requires
            self.wf(),
        ensures
            logs_view(r@) == skip_take(
                matching(trace_values(self@.traces), TraceQuery::Agent(agent_name)),
                offset as int,
                limit as int,
            ),
    {
        let all = self.matching_traces(&TraceQuery::Agent(agent_name));
        let ghost av = all@;
        let out = keep_page_u64(all, offset, limit);
        assert(logs_view(out@) =~= skip_take(logs_view(av), offset as int, limit as int));
        out
    }

    /// The first `limit` traces with a call whose protocol, method and status are
    /// each in the given list, or the list is empty. The owner, time, amount and
    /// status-range lists are not consulted.
    pub fn get_traces_with_filters(
        &self,
        protocols: Vec<String>,
        methods: Vec<String>,
        statuses: Vec<String>,
        owners: Vec<String>,
        time_ranges: Vec<(u64, u64)>,
        amount_ranges: Vec<(u64, u64)>,
        status_ranges: Vec<String>,
        limit: u64,
    ) -> (r: Vec<TraceLog>)
        requires
            self.wf(),
        ensures
            logs_view(r@) == skip_take(
                matching(trace_values(self@.traces), TraceQuery::Filters(protocols, methods, statuses)),
                0,
                limit as int,
            ),
    {
        let all = self.matching_traces(&TraceQuery::Filters(protocols, methods, statuses));
        let ghost av = all@;
        let out = keep_page_u64(all, 0, limit);
        assert(logs_view(out@) =~= skip_take(logs_view(av), 0, limit as int));
        out
    }

    /// The number of calls kept, of those with status `ok`, and of the others; the
    /// time bounds and the limit are not consulted.
    pub fn get_traces_statistics(&self, start_time: u64, end_time: u64, limit: u64) -> (r: TraceStatistics)
        requires
            self.wf(),
            call_total(trace_values(self@.traces)) <= u64::MAX,
        ensures
            r.total_count == call_total(trace_values(self@.traces)),
            r.success_count == ok_total(trace_values(self@.traces)),
            r.error_count == r.total_count - r.success_count,
    {
        let n = self.traces.len();
        let ghost vals = trace_values(self@.traces);
        let mut total: u64 = 0;
        let mut ok: u64 = 0;
        let mut failed: u64 = 0;
        for i in 0..n
            invariant
                n == self.traces.key_seq().len(),
                vals == trace_values(self@.traces),
                vals.len() == n,
                call_total(vals) <= u64::MAX,
                total == call_total(vals.take(i as int)),
                ok == ok_total(vals.take(i as int)),
                failed == total - ok,
        {
            proof {
                assert(vals.take(i + 1).drop_last() =~= vals.take(i as int));
                lemma_totals_prefix(vals, i + 1);
            }
            let (_, t) = self.traces.entry_at(i);
            assert(vals[i as int] == t@);
            let ghost base_total = total;
            let ghost base_ok = ok;
            let m = t.calls.len();
            for j in 0..m
                invariant
                    m == t.calls@.len(),
                    base_total + m <= u64::MAX,
                    total == base_total + j,
                    ok == base_ok + t.calls@.take(j as int).filter(|c: ProtocolCall| succeeded(c)).len(),
                    ok <= total,
                    failed == total - ok,
            {
                proof {
                    reveal_with_fuel(Seq::<_>::filter, 1);
                    assert(t.calls@.take(j + 1).drop_last() =~= t.calls@.take(j as int));
                    lemma_filter_len(t.calls@.take(j as int));
                }
                if text_equal(t.calls[j].status.as_str(), "ok") {
                    ok = ok + 1;
                } else {
                    failed = failed + 1;
                }
                total = total + 1;
            }
            proof {
                assert(t.calls@.take(m as int) =~= t.calls@);
            }
        }
        assert(vals.take(n as int) =~= vals);
        TraceStatistics { total_count: total, success_count: ok, error_count: failed }
    }

    /// The calls of the traces with a call of agent `principal_id` and method
    /// `operation`, trace after trace, each stamped with `now`.
    pub fn get_traces_by_operation(&self, principal_id: String, operation: String, now: u64) -> (r: Vec<TraceItem>)
        requires
            self.wf(),
        ensures
            r@ == flat_items(
                matching(trace_values(self@.traces), TraceQuery::Operation(principal_id, operation)),
                Some(now),
                None,
            ),
    {
        let ts = self.matching_traces(&TraceQuery::Operation(principal_id, operation));
        flatten(&ts, Some(now), &None)
    }

    /// The calls of the traces with a call of agent `principal_id` made within the
    /// last day, week, month or year before `now`, trace after trace; nothing for
    /// another period name.
    pub fn get_traces_by_time_period(&self, principal_id: String, time_period: String, now: u64) -> (r: Vec<TraceItem>)
        requires
            self.wf(),
            period_nanos(time_period@) matches Some(p) ==> now >= p,
        ensures
            match period_nanos(time_period@) {
                None => r@ == Seq::<TraceItem>::empty(),
                Some(p) => r@ == flat_items(
                    matching(trace_values(self@.traces), TraceQuery::Since(principal_id, (now - p) as u64)),
                    None,
                    None,
                ),
            },
    {
        let period: u64 = if text_equal(time_period.as_str(), "day") {
            86400000000000
        } else if text_equal(time_period.as_str(), "week") {
            604800000000000
        } else if text_equal(time_period.as_str(), "month") {
            2592000000000000
        } else if text_equal(time_period.as_str(), "year") {
            31536000000000000
        } else {
            return Vec::new();
        };
        let start = now - period;
        let ts = self.matching_traces(&TraceQuery::Since(principal_id, start));
        flatten(&ts, None, &None)
    }

    /// At most `limit` of the successful calls of the last day before `now`, from
    /// position `offset` of that list on, trace after trace.
    pub fn get_traces_for_mining_days(&self, offset: u64, limit: u64, now: u64) -> (r: Vec<TraceItem>)
        requires
            self.wf(),
            now >= DAY_NANOS,
        ensures
            r@ == skip_take(
                flat_items(
                    matching(trace_values(self@.traces), TraceQuery::Mined((now - DAY_NANOS) as u64)),
                    None,
                    Some(TraceQuery::Mined((now - DAY_NANOS) as u64)),
                ),
                offset as int,
                limit as int,
            ),
    {
        let start = now - DAY_NANOS;
        let ts = self.matching_traces(&TraceQuery::Mined(start));
        let items = flatten(&ts, None, &Some(TraceQuery::Mined(start)));
        keep_page_u64(items, offset, limit)
    }
}

proof fn lemma_filter_len(s: Seq<ProtocolCall>)
    ensures
        s.filter(|c: ProtocolCall| succeeded(c)).len() <= s.len(),
    decreases s.len(),
{
    reveal_with_fuel(Seq::<_>::filter, 1);
    if s.len() > 0 {
        lemma_filter_len(s.drop_last());
    }
}

proof fn lemma_totals_prefix(ts: Seq<TraceRecord>, i: int)
    requires
        0 <= i <= ts.len(),
    ensures
        0 <= ok_total(ts.take(i)) <= call_total(ts.take(i)) <= call_total(ts),
    decreases ts.len(),
{
    if ts.len() > 0 {
        if i == ts.len() {
            assert(ts.take(i) =~= ts);
            lemma_totals_prefix(ts.drop_last(), i - 1);
            assert(ts.drop_last().take(i - 1) =~= ts.take(i - 1));
            lemma_filter_len(ts.last().calls);
            assert(ts.take(i).drop_last() =~= ts.take(i - 1));
        } else {
            lemma_totals_prefix(ts.drop_last(), i);
            assert(ts.drop_last().take(i) =~= ts.take(i));
        }
    } else {
        assert(ts.take(i) =~= ts);
    }
}

/// The field a listing of trace items is sorted by.
pub enum SortField {
    Timestamp,
    Method,
    Status,
}

/// The field named `name`: `method`, `status`, or the time for any other name.
pub open spec fn sort_field(name: Seq<char>) -> SortField {
    if name == "method"@ {
        SortField::Method
    } else if name == "status"@ {
        SortField::Status
    } else {
        SortField::Timestamp
    }
}

/// Whether `a` sorts strictly before `b` by field `f`, ascending.
pub open spec fn key_lt(a: TraceItem, b: TraceItem, f: SortField) -> bool {
    match f {
        SortField::Timestamp => a.timestamp < b.timestamp,
        SortField::Method => bytes_lt(utf8_of(a.method@), utf8_of(b.method@)),
        SortField::Status => bytes_lt(utf8_of(a.status@), utf8_of(b.status@)),
    }
}

/// Whether `a` goes strictly before `b` in the listing.
pub open spec fn goes_before(a: TraceItem, b: TraceItem, f: SortField, ascending: bool) -> bool {
    if ascending {
        key_lt(a, b, f)
    } else {
        key_lt(b, a, f)
    }
}

/// The first position in `t` from `i` on whose item `x` goes before.
pub open spec fn item_slot(x: TraceItem, t: Seq<TraceItem>, f: SortField, ascending: bool, i: int) -> int
    decreases t.len() - i,
{
    if i >= t.len() || i < 0 {
        t.len() as int
    } else if goes_before(x, t[i], f, ascending) {
        i
    } else {
        item_slot(x, t, f, ascending, i + 1)
    }
}

/// The stable sort of `s`: each item in turn goes in front of the first item it
/// goes before, after all it ties with.
pub open spec fn sorted_items(s: Seq<TraceItem>, f: SortField, ascending: bool) -> Seq<TraceItem>
    decreases s.len(),
{
    if s.len() == 0 {
        s
    } else {
        let t = sorted_items(s.drop_last(), f, ascending);
        t.insert(item_slot(s.last(), t, f, ascending, 0), s.last())
    }
}

fn item_goes_before(a: &TraceItem, b: &TraceItem, f: &SortField, ascending: bool) -> (r: bool)
    ensures
        r == goes_before(*a, *b, *f, ascending),
{
    let (x, y) = if ascending { (a, b) } else { (b, a) };
    proof {
        crate::text::lemma_bytes_lt_irreflexive(utf8_of(x.method@));
        crate::text::lemma_bytes_lt_irreflexive(utf8_of(x.status@));
    }
    match f {
        SortField::Timestamp => x.timestamp < y.timestamp,
        SortField::Method => match rank_text(x.method.as_str(), y.method.as_str()) {
            Rank::Below => true,
            _ => false,
        },
        SortField::Status => match rank_text(x.status.as_str(), y.status.as_str()) {
            Rank::Below => true,
            _ => false,
        },
    }
}

fn find_slot(t: &Vec<TraceItem>, x: &TraceItem, f: &SortField, ascending: bool) -> (p: usize)
    ensures
        p == item_slot(*x, t@, *f, ascending, 0),
        p <= t@.len(),
{
    let mut i: usize = 0;
    while i < t.len()
        invariant
            i <= t@.len(),
            item_slot(*x, t@, *f, ascending, 0) == item_slot(*x, t@, *f, ascending, i as int),
        decreases t@.len() - i,
    {
        if item_goes_before(x, &t[i], f, ascending) {
            return i;
        }
        i = i + 1;
    }
    i
}

/// Sorts trace items by field `f`, ascending or descending, keeping items that
/// tie in their order.
fn sort_items(items: Vec<TraceItem>, f: &SortField, ascending: bool) -> (r: Vec<TraceItem>)
    ensures
        r@ == sorted_items(items@, *f, ascending),
{
    let mut out: Vec<TraceItem> = Vec::new();
    let n = items.len();
    for i in 0..n
        invariant
            n == items@.len(),
            out@ == sorted_items(items@.take(i as int), *f, ascending),
    {
        proof {
            assert(items@.take(i + 1).drop_last() =~= items@.take(i as int));
        }
        let p = find_slot(&out, &items[i], f, ascending);
        out.insert(p, items[i].clone());
    }
    assert(items@.take(n as int) =~= items@);
    out
}

impl TraceStore {
    /// The calls of the traces with a call of agent `principal_id` and method `all`
    /// (stamped with `now`), sorted by `sort_by` (`timestamp`, `method` or `status`;
    /// the time for any other name), ascending or descending, ties in their order.
    pub fn get_traces_sorted(&self, principal_id: String, sort_by: String, ascending: bool, now: u64) -> (r: Vec<TraceItem>)
        requires
            self.wf(),
        ensures
            exists|op: String|
                {
                    &&& op@ == "all"@
                    &&& r@ == sorted_items(
                        flat_items(
                            matching(trace_values(self@.traces), TraceQuery::Operation(principal_id, op)),
                            Some(now),
                            None,
                        ),
                        sort_field(sort_by@),
                        ascending,
                    )
                },
    {
        let op = "all".to_string();
        let ghost opv = op;
        let items = self.get_traces_by_operation(principal_id, op, now);
        let field = if text_equal(sort_by.as_str(), "method") {
            SortField::Method
        } else if text_equal(sort_by.as_str(), "status") {
            SortField::Status
        } else {
            SortField::Timestamp
        };
        let r = sort_items(items, &field, ascending);
        proof {
            assert(opv@ == "all"@);
        }
        r
    }
}

/// The named periods are a day, seven days, thirty days and 365 days long, in
/// nanoseconds; no other name is a period.
pub proof fn lemma_period_lengths(name: Seq<char>)
    ensures
        period_nanos(name) == Some(86400000000000u64) <==> name == "day"@,
        period_nanos(name) == Some((7 * 86400000000000) as u64) <==> name == "week"@,
        period_nanos(name) == Some((30 * 86400000000000) as u64) <==> name == "month"@,
        period_nanos(name) == Some((365 * 86400000000000) as u64) <==> name == "year"@,
        period_nanos(name) is None <==> name != "day"@ && name != "week"@ && name != "month"@ && name != "year"@,
{
    reveal_strlit("day");
    reveal_strlit("week");
    reveal_strlit("month");
    reveal_strlit("year");
    assert("day"@.len() == 3 && "week"@.len() == 4 && "month"@.len() == 5 && "year"@.len() == 4);
    assert("week"@[0] != "year"@[0]);
}

/// The items of a trace are among the items of any list of traces that holds it.
proof fn lemma_flat_items_contains(ts: Seq<TraceRecord>, t: TraceRecord, x: TraceItem)
    requires
        ts.contains(t),
        items_for(t, None, None).contains(x),
    ensures
        flat_items(ts, None, None).contains(x),
    decreases ts.len(),
{
    let j = choose|j: int| 0 <= j < ts.len() && ts[j] == t;
    let f = flat_items(ts, None, None);
    if j == ts.len() - 1 {
        let a = flat_items(ts.drop_last(), None, None);
        let b = items_for(ts.last(), None, None);
        let k = choose|k: int| 0 <= k < b.len() && b[k] == x;
        assert(f == a + b);
        assert(f[a.len() + k] == x);
    } else {
        assert(ts.drop_last()[j] == t);
        lemma_flat_items_contains(ts.drop_last(), t, x);
        let a = flat_items(ts.drop_last(), None, None);
        let k = choose|k: int| 0 <= k < a.len() && a[k] == x;
        assert(f == a + items_for(ts.last(), None, None));
        assert(f[k] == x);
    }
}

/// A trace with a call of `agent` made within the window of a named period
/// before `now` (one day, seven days, thirty days or 365 days) is listed by
/// `get_traces_by_time_period`: each of its calls is among the items.
pub proof fn lemma_time_window(ts: Seq<TraceRecord>, agent: String, name: Seq<char>, now: u64, t: TraceRecord, c: ProtocolCall)
    requires
        ts.contains(t),
        t.calls.contains(c),
        c.agent@ == agent@,
        (name == "day"@ && now >= 86400000000000 && c.timestamp + 86400000000000 >= now)
            || (name == "week"@ && now >= 7 * 86400000000000 && c.timestamp + 7 * 86400000000000 >= now)
            || (name == "month"@ && now >= 30 * 86400000000000 && c.timestamp + 30 * 86400000000000 >= now)
            || (name == "year"@ && now >= 365 * 86400000000000 && c.timestamp + 365 * 86400000000000 >= now),
    ensures
        period_nanos(name) matches Some(p) && flat_items(
            matching(ts, TraceQuery::Since(agent, (now - p) as u64)),
            None,
            None,
        ).contains(item_of(t, c, c.timestamp)),
{
    broadcast use vstd::seq_lib::group_filter_ensures;
    lemma_period_lengths(name);
    let p = period_nanos(name)->0;
    let q = TraceQuery::Since(agent, (now - p) as u64);
    assert(call_matches(c, q));
    let i = choose|i: int| 0 <= i < t.calls.len() && t.calls[i] == c;
    assert(call_matches(t.calls[i], q));
    assert(trace_matches(t, q));
    let j = choose|j: int| 0 <= j < ts.len() && ts[j] == t;
    assert(ts.filter(|u: TraceRecord| trace_matches(u, q)).contains(ts[j]));
    let kept = t.calls.filter(|d: ProtocolCall| listed(d, None));
    assert(listed(t.calls[i], None));
    assert(kept.contains(t.calls[i]));
    let k = choose|k: int| 0 <= k < kept.len() && kept[k] == c;
    let its = items_for(t, None, None);
    assert(its[k] == item_of(t, c, c.timestamp));
    assert(its.contains(item_of(t, c, c.timestamp)));
    lemma_flat_items_contains(matching(ts, q), t, item_of(t, c, c.timestamp));
}

/// Every item of a list of traces comes from one of them.
proof fn lemma_flat_items_from(ts: Seq<TraceRecord>, x: TraceItem)
    requires
        flat_items(ts, None, None).contains(x),
    ensures
        exists|j: int| 0 <= j < ts.len() && (#[trigger] ts[j]).trace_id == x.trace_id && items_for(ts[j], None, None).contains(x),
    decreases ts.len(),
{
    let a = flat_items(ts.drop_last(), None, None);
    let b = items_for(ts.last(), None, None);
    let f = flat_items(ts, None, None);
    assert(f == a + b);
    let k = choose|k: int| 0 <= k < f.len() && f[k] == x;
    if k < a.len() {
        assert(a[k] == x);
        lemma_flat_items_from(ts.drop_last(), x);
        let j = choose|j: int| 0 <= j < ts.drop_last().len() && (#[trigger] ts.drop_last()[j]).trace_id == x.trace_id
            && items_for(ts.drop_last()[j], None, None).contains(x);
        assert(ts[j] == ts.drop_last()[j]);
    } else {
        assert(b[k - a.len()] == x);
        let kept = ts.last().calls.filter(|d: ProtocolCall| listed(d, None));
        assert(b[k - a.len()] == item_of(ts.last(), kept[k - a.len()], kept[k - a.len()].timestamp));
        assert(ts[ts.len() - 1] == ts.last());
    }
}

/// Every item that `get_traces_by_time_period` lists belongs to a trace with a
/// call of `agent` made at or after the start of the window.
pub proof fn lemma_time_window_only(ts: Seq<TraceRecord>, agent: String, start: u64, x: TraceItem)
    requires
        flat_items(matching(ts, TraceQuery::Since(agent, start)), None, None).contains(x),
    ensures
        exists|j: int| 0 <= j < ts.len() && (#[trigger] ts[j]).trace_id == x.trace_id && exists|i: int|
            0 <= i < ts[j].calls.len() && (#[trigger] ts[j].calls[i]).agent@ == agent@ && ts[j].calls[i].timestamp >= start,
{
    broadcast use vstd::seq_lib::group_filter_ensures;
    let q = TraceQuery::Since(agent, start);
    let m = matching(ts, q);
    lemma_flat_items_from(m, x);
    let j = choose|j: int| 0 <= j < m.len() && (#[trigger] m[j]).trace_id == x.trace_id && items_for(m[j], None, None).contains(x);
    assert(trace_matches(m[j], q));
    ts.lemma_filter_contains_rev(|u: TraceRecord| trace_matches(u, q), m[j]);
    let jj = choose|jj: int| 0 <= jj < ts.len() && ts[jj] == m[j];
    let i = choose|i: int| 0 <= i < m[j].calls.len() && call_matches(#[trigger] m[j].calls[i], q);
    assert(ts[jj].calls[i] == m[j].calls[i]);
}

} // verus!
