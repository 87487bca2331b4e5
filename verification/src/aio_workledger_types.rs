//! The work ledger: workflow traces appended in order, each with a unique,
//! non-empty trace id, found by position, by trace id, or by owner through an
//! index of (owner, trace id) pairs.
use vstd::prelude::*;
use crate::text::{clone_opt_text, concat3, Rank};
use crate::sorted_map::{SortedMap, KeyFields, MapKey, text_key, pair_key, rank_pair};
use crate::paging::skip_take;

verus! {

/// One input or output of a call.
#[derive(Debug)]
pub struct IOData {
    pub data_type: String,
    pub value: String,
}

impl Clone for IOData {
    fn clone(&self) -> (r: Self)
        ensures
            r == *self,
    {
        IOData { data_type: self.data_type.clone(), value: self.value.clone() }
    }
}

fn copy_io(v: &Vec<IOData>) -> (r: Vec<IOData>)
    ensures
        r@ == v@,
{
    let mut out: Vec<IOData> = Vec::new();
    for i in 0..v.len()
        invariant
            out@ == v@.subrange(0, i as int),
    {
        out.push(v[i].clone());
        proof {
            assert(out@ =~= v@.subrange(0, i + 1));
        }
    }
    assert(v@.subrange(0, v@.len() as int) =~= v@);
    out
}

/// One call of a workflow.
#[derive(Debug)]
pub struct CallItem {
    pub id: u64,
    pub protocol: String,
    pub agent: String,
    pub call_type: String,
    pub method: String,
    pub inputs: Vec<IOData>,
    pub outputs: Vec<IOData>,
    pub status: String,
}

/// A call as a value.
pub struct CallRecord {
    pub id: u64,
    pub protocol: String,
    pub agent: String,
    pub call_type: String,
    pub method: String,
    pub inputs: Seq<IOData>,
    pub outputs: Seq<IOData>,
    pub status: String,
}

impl View for CallItem {
    type V = CallRecord;

    open spec fn view(&self) -> CallRecord {
        CallRecord {
            id: self.id,
            protocol: self.protocol,
            agent: self.agent,
            call_type: self.call_type,
            method: self.method,
            inputs: self.inputs@,
            outputs: self.outputs@,
            status: self.status,
        }
    }
}

impl Clone for CallItem {
    fn clone(&self) -> (r: Self)
        ensures
            r@ == self@,
    {
        CallItem {
            id: self.id,
            protocol: self.protocol.clone(),
            agent: self.agent.clone(),
            call_type: self.call_type.clone(),
            method: self.method.clone(),
            inputs: copy_io(&self.inputs),
            outputs: copy_io(&self.outputs),
            status: self.status.clone(),
        }
    }
}

#[derive(PartialEq, Eq, Structural, Clone, Copy, Debug)]
pub enum TraceStatus {
    Success,
    Recall,
    Fail,
}

/// A workflow trace.
#[derive(Debug)]
pub struct TraceItem {
    pub context_id: String,
    pub trace_id: String,
    pub owner: String,
    pub created_at: u64,
    pub updated_at: u64,
    pub calls: Vec<CallItem>,
    pub metadata: Option<String>,
}

/// A workflow trace as a value.
pub struct WorkTraceRecord {
    pub context_id: String,
    pub trace_id: String,
    pub owner: String,
    pub created_at: u64,
    pub updated_at: u64,
    pub calls: Seq<CallRecord>,
    pub metadata: Option<String>,
}

impl View for TraceItem {
    type V = WorkTraceRecord;

    open spec fn view(&self) -> WorkTraceRecord {
        WorkTraceRecord {
            context_id: self.context_id,
            trace_id: self.trace_id,
            owner: self.owner,
            created_at: self.created_at,
            updated_at: self.updated_at,
            calls: self.calls@.map_values(|c: CallItem| c@),
            metadata: self.metadata,
        }
    }
}

impl Clone for TraceItem {
    fn clone(&self) -> (r: Self)
        ensures
            r@ == self@,
    {
        let mut calls: Vec<CallItem> = Vec::new();
        for i in 0..self.calls.len()
            invariant
                calls@.map_values(|c: CallItem| c@) == self.calls@.subrange(0, i as int).map_values(|c: CallItem| c@),
        {
            let c = self.calls[i].clone();
            let ghost before = calls@;
            calls.push(c);
            proof {
                assert(calls@.map_values(|c: CallItem| c@) =~= before.map_values(|c: CallItem| c@).push(c@));
                assert(self.calls@.subrange(0, i + 1).map_values(|c: CallItem| c@) =~= self.calls@.subrange(0, i as int).map_values(
                    |c: CallItem| c@,
                ).push(self.calls@[i as int]@));
            }
        }
        assert(self.calls@.subrange(0, self.calls@.len() as int) =~= self.calls@);
        TraceItem {
            context_id: self.context_id.clone(),
            trace_id: self.trace_id.clone(),
            owner: self.owner.clone(),
            created_at: self.created_at,
            updated_at: self.updated_at,
            calls,
            metadata: clone_opt_text(&self.metadata),
        }
    }
}

/// The key of the owner index: owner, then trace id.
#[derive(Debug)]
pub struct UserTraceKey {
    pub owner: String,
    pub trace_id: String,
}

impl MapKey for UserTraceKey {
    open spec fn key_fields(&self) -> KeyFields {
        pair_key(self.owner@, self.trace_id@)
    }

    fn rank_key(&self, other: &Self) -> (r: Rank) {
        rank_pair(self.owner.as_str(), self.trace_id.as_str(), other.owner.as_str(), other.trace_id.as_str())
    }
}

/// The traces of a list, each as a value.
pub open spec fn work_view(s: Seq<TraceItem>) -> Seq<WorkTraceRecord> {
    s.map_values(|t: TraceItem| t@)
}

/// What the ledger holds: the traces in the order they were added, the index
/// from (owner, trace id) to positions, and the index from trace id to positions.
pub struct LedgerView {
    pub traces: Seq<WorkTraceRecord>,
    pub by_owner: Map<KeyFields, u64>,
    pub by_id: Map<KeyFields, u64>,
}

/// The work ledger.
pub struct WorkLedger {
    traces: Vec<TraceItem>,
    owner_index: SortedMap<UserTraceKey, u64>,
    id_index: SortedMap<String, u64>,
}

impl View for WorkLedger {
    type V = LedgerView;

    closed spec fn view(&self) -> LedgerView {
        LedgerView {
            traces: work_view(self.traces@),
            by_owner: self.owner_index.as_map(),
            by_id: self.id_index.as_map(),
        }
    }
}

impl WorkLedger {
    /// Both indices point into the list, the id index files each trace under its
    /// own id, and no trace id is empty.
    pub closed spec fn wf(&self) -> bool {
        &&& self.owner_index.wf()
        &&& self.id_index.wf()
        &&& forall|k: KeyFields| #[trigger] self.id_index.as_map().contains_key(k) ==> {
            &&& self.id_index.as_map()[k] < self.traces@.len()
            &&& text_key(self.traces@[self.id_index.as_map()[k] as int].trace_id@) == k
        }
        &&& forall|k: KeyFields| #[trigger] self.owner_index.as_map().contains_key(k) ==> {
            &&& self.owner_index.as_map()[k] < self.traces@.len()
            &&& k[1].len() > 0
        }
    }

    pub fn new() -> (s: Self)
        ensures
            s.wf(),
            s@.traces == Seq::<WorkTraceRecord>::empty(),
            s@.by_owner == Map::<KeyFields, u64>::empty(),
            s@.by_id == Map::<KeyFields, u64>::empty(),
    {
        let s = WorkLedger { traces: Vec::new(), owner_index: SortedMap::new(), id_index: SortedMap::new() };
        assert(s@.traces =~= Seq::<WorkTraceRecord>::empty());
        s
    }

    /// Appends a trace, filed under its (owner, trace id) and its trace id; an
    /// empty or already filed trace id is refused. Returns the trace's position.
    pub fn add_trace(&mut self, trace: TraceItem) -> (r: Result<u64, String>)
        requires
            old(self).wf(),
            old(self)@.traces.len() < u64::MAX,
        ensures
            final(self).wf(),
            trace.trace_id@.len() == 0 ==> (r matches Err(e) && e@ == "Trace ID must be provided"@) && final(self)@
                == old(self)@,
            trace.trace_id@.len() > 0 && old(self)@.by_id.contains_key(text_key(trace.trace_id@)) ==> (r matches Err(
                e,
            ) && e@ == "Trace with ID '"@ + trace.trace_id@ + "' already exists"@) && final(self)@ == old(self)@,
            trace.trace_id@.len() > 0 && !old(self)@.by_id.contains_key(text_key(trace.trace_id@)) ==> {
                let i = old(self)@.traces.len() as u64;
                &&& r == Ok::<u64, String>(i)
                &&& final(self)@.traces == old(self)@.traces.push(trace@)
                &&& final(self)@.by_owner == old(self)@.by_owner.insert(pair_key(trace.owner@, trace.trace_id@), i)
                &&& final(self)@.by_id == old(self)@.by_id.insert(text_key(trace.trace_id@), i)
            },
    {
        let index = self.traces.len() as u64;
        if trace.trace_id.as_str().is_empty() {
            return Err("Trace ID must be provided".to_string());
        }
        if self.id_index.contains_key(&trace.trace_id) {
            return Err(concat3("Trace with ID '", trace.trace_id.as_str(), "' already exists"));
        }
        let owner_key = UserTraceKey { owner: trace.owner.clone(), trace_id: trace.trace_id.clone() };
        let id_key = trace.trace_id.clone();
        let ghost tv = trace@;
        let ghost old_view = self@;
        self.traces.push(trace);
        self.owner_index.insert(owner_key, index);
        self.id_index.insert(id_key, index);
        proof {
            assert(self@.traces =~= old_view.traces.push(tv));
            crate::text::lemma_utf8_injective(tv.trace_id@, Seq::<char>::empty());
            assert(crate::text::utf8_of(Seq::<char>::empty()) =~= Seq::<u8>::empty());
        }
        Ok(index)
    }

    /// The trace at position `index`.
    pub fn get_trace(&self, index: u64) -> (r: Option<TraceItem>)
        requires
            self.wf(),
        ensures
            r is Some == (index < self@.traces.len()),
            r matches Some(t) ==> t@ == self@.traces[index as int],
    {
        if (index as u128) < (self.traces.len() as u128) {
            Some(self.traces[index as usize].clone())
        } else {
            None
        }
    }

    /// The trace filed under `trace_id`.
    pub fn get_trace_by_id(&self, trace_id: String) -> (r: Option<TraceItem>)
        requires
            self.wf(),
        ensures
            !self@.by_id.contains_key(text_key(trace_id@)) ==> r is None,
            self@.by_id.contains_key(text_key(trace_id@)) ==> (r matches Some(t) && t@ == self@.traces[self@.by_id[text_key(
                trace_id@,
            )] as int]),
    {
        match self.id_index.get(&trace_id) {
            Some(i) => self.get_trace(*i),
            None => None,
        }
    }

    /// The traces of `owner` that the owner index finds between the bounds
    /// `(owner, "")` and `(owner, "")`: the upper bound's trace id is meant to be
    /// a run of `0xFF` bytes, which is no UTF-8, so it falls back to the empty
    /// string, and the range holds only the key `(owner, "")`, which no trace has.
    pub fn get_user_traces(&self, owner: String) -> (r: Vec<TraceItem>)
        requires
            self.wf(),
        ensures
            r@.len() == 0,
    {
        let key = UserTraceKey { owner, trace_id: String::new() };
        let mut out: Vec<TraceItem> = Vec::new();
        match self.owner_index.get(&key) {
            Some(i) => {
                assert(key.key_fields()[1].len() == 0);
                match self.get_trace(*i) {
                    Some(t) => out.push(t),
                    None => {},
                }
            },
            None => {},
        }
        out
    }

    /// At most `limit` traces of `owner`, from position `offset` of that list on.
    pub fn get_user_traces_paginated(&self, owner: String, offset: u64, limit: usize) -> (r: Vec<TraceItem>)
        requires
            self.wf(),
        ensures
            r@.len() == 0,
    {
        let all = self.get_user_traces(owner);
        if offset >= all.len() as u64 {
            return Vec::new();
        }
        all
    }

    /// At most `limit` traces from position `offset` on.
    pub fn get_traces_paginated(&self, offset: u64, limit: usize) -> (r: Vec<TraceItem>)
        requires
            self.wf(),
            offset + limit <= u64::MAX,
        ensures
            work_view(r@) == skip_take(self@.traces, offset as int, limit as int),
    {
        let total = self.traces.len() as u64;
        let mut out: Vec<TraceItem> = Vec::new();
        if offset >= total {
            assert(work_view(out@) =~= skip_take(self@.traces, offset as int, limit as int));
            return out;
        }
        let end = if offset + (limit as u64) < total { offset + (limit as u64) } else { total };
        let mut i = offset;
        while i < end
            invariant
                offset <= i <= end <= total,
                total == self.traces@.len(),
                self.traces@.len() == self.traces.len(),
                work_view(out@) == self@.traces.subrange(offset as int, i as int),
            decreases end - i,
        {
            let k = i as usize;
            assert(k == i);
            let t = self.traces[k].clone();
            let ghost before = out@;
            out.push(t);
            proof {
                assert(work_view(out@) =~= work_view(before).push(t@));
                assert(self@.traces.subrange(offset as int, i + 1) =~= self@.traces.subrange(offset as int, i as int).push(
                    self@.traces[i as int],
                ));
            }
            i = i + 1;
        }
        assert(self@.traces.subrange(offset as int, end as int) =~= skip_take(self@.traces, offset as int, limit as int));
        out
    }
}

} // verus!
