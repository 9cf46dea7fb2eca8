//! Whether two values say the same.
use crate::faults::Fault;
use crate::kv::{same_command, KvResult};
use crate::order::ids_in_order;
use crate::trace::{TraceKind, TraceRecord};
use crate::{
    AppendEntriesReq, ClientRequest, ClusterConfig, EntryPayload, Input, InstallSnapshotReq,
    LogEntry, NodeId, Output, PersistOp, RaftMessage, Snapshot,
};
use std::collections::BTreeSet;
use vstd::prelude::*;

verus! {

broadcast use {vstd::laws_cmp::group_laws_cmp, vstd::std_specs::btree::group_btree_axioms};

pub(crate) fn same_ids(a: &[NodeId], b: &[NodeId]) -> (r: bool)
    ensures
        r == (a@ == b@),
{
    if a.len() != b.len() {
        return false;
    }
    let mut i: usize = 0;
    while i < a.len()
        invariant
            i <= a@.len() == b@.len(),
            forall|k: int| 0 <= k < i ==> a@[k] == b@[k],
        decreases a@.len() - i,
    {
        if a[i] != b[i] {
            return false;
        }
        i = i + 1;
    }
    assert(a@ =~= b@);
    true
}

pub(crate) fn same_bytes(a: &Vec<u8>, b: &Vec<u8>) -> (r: bool)
    ensures
        r == (a@ == b@),
{
    if a.len() != b.len() {
        return false;
    }
    let mut i: usize = 0;
    while i < a.len()
        invariant
            i <= a@.len() == b@.len(),
            forall|k: int| 0 <= k < i ==> a@[k] == b@[k],
        decreases a@.len() - i,
    {
        if a[i] != b[i] {
            return false;
        }
        i = i + 1;
    }
    assert(a@ =~= b@);
    true
}

pub(crate) fn same_set(a: &BTreeSet<NodeId>, b: &BTreeSet<NodeId>) -> (r: bool)
    ensures
        r == (a@ == b@),
{
    let x = ids_in_order(a);
    let y = ids_in_order(b);
    proof {
        crate::order::lemma_in_order_exists(a@);
        crate::order::lemma_in_order_exists(b@);
    }
    same_ids(x.as_slice(), y.as_slice())
}

fn same_config(a: &ClusterConfig, b: &ClusterConfig) -> (r: bool)
    ensures
        r == (a@ == b@),
{
    same_set(a.old_voters(), b.old_voters()) && match (a.new_voters(), b.new_voters()) {
        (None, None) => true,
        (Some(x), Some(y)) => same_set(x, y),
        _ => false,
    }
}

fn same_payload(a: &EntryPayload, b: &EntryPayload) -> (r: bool)
    ensures
        r == (a@ == b@),
{
    match (a, b) {
        (EntryPayload::Noop, EntryPayload::Noop) => true,
        (EntryPayload::Command(x), EntryPayload::Command(y)) => same_bytes(&x.0, &y.0),
        (EntryPayload::Config(x), EntryPayload::Config(y)) => same_config(x, y),
        _ => false,
    }
}

fn same_client(a: Option<(u32, u64)>, b: Option<(u32, u64)>) -> (r: bool)
    ensures
        r == (a == b),
{
    match (a, b) {
        (None, None) => true,
        (Some(x), Some(y)) => x.0 == y.0 && x.1 == y.1,
        _ => false,
    }
}

pub(crate) fn same_entry(a: &LogEntry, b: &LogEntry) -> (r: bool)
    ensures
        r == (a@ == b@),
{
    a.term == b.term && a.index == b.index && same_payload(&a.payload, &b.payload) && same_client(
        a.client,
        b.client,
    )
}

pub(crate) fn same_entries(a: &Vec<LogEntry>, b: &Vec<LogEntry>) -> (r: bool)
    ensures
        r == (crate::log::entries_view(a@) == crate::log::entries_view(b@)),
{
    let ghost x = crate::log::entries_view(a@);
    let ghost y = crate::log::entries_view(b@);
    if a.len() != b.len() {
        assert(x.len() != y.len());
        return false;
    }
    let mut i: usize = 0;
    while i < a.len()
        invariant
            i <= a@.len() == b@.len(),
            x == crate::log::entries_view(a@),
            y == crate::log::entries_view(b@),
            forall|k: int| 0 <= k < i ==> x[k] == y[k],
        decreases a@.len() - i,
    {
        if !same_entry(&a[i], &b[i]) {
            assert(x[i as int] != y[i as int]);
            return false;
        }
        i = i + 1;
    }
    assert(x =~= y);
    true
}

fn same_snapshot(a: &Snapshot, b: &Snapshot) -> (r: bool)
    ensures
        r == (a@ == b@),
{
    a.last_included == b.last_included && same_config(&a.config, &b.config) && same_bytes(
        &a.data,
        &b.data,
    )
}

fn same_append(a: &AppendEntriesReq, b: &AppendEntriesReq) -> (r: bool)
    ensures
        r == (a@ == b@),
{
    a.term == b.term && a.leader_id == b.leader_id && a.prev_log_index == b.prev_log_index
        && a.prev_log_term == b.prev_log_term && same_entries(&a.entries, &b.entries)
        && a.leader_commit == b.leader_commit && a.read_round == b.read_round
}

fn same_install(a: &InstallSnapshotReq, b: &InstallSnapshotReq) -> (r: bool)
    ensures
        r == (a@ == b@),
{
    a.term == b.term && a.leader_id == b.leader_id && a.last_included_index
        == b.last_included_index && a.last_included_term == b.last_included_term && same_config(
        &a.config,
        &b.config,
    ) && same_bytes(&a.data, &b.data)
}

fn same_message(a: &RaftMessage, b: &RaftMessage) -> (r: bool)
    ensures
        r == (a@ == b@),
{
    match (a, b) {
        (RaftMessage::RequestVote(x), RaftMessage::RequestVote(y)) => *x == *y,
        (RaftMessage::RequestVoteResp(x), RaftMessage::RequestVoteResp(y)) => *x == *y,
        (RaftMessage::AppendEntries(x), RaftMessage::AppendEntries(y)) => same_append(x, y),
        (RaftMessage::AppendEntriesResp(x), RaftMessage::AppendEntriesResp(y)) => *x == *y,
        (RaftMessage::InstallSnapshot(x), RaftMessage::InstallSnapshot(y)) => same_install(x, y),
        (RaftMessage::InstallSnapshotResp(x), RaftMessage::InstallSnapshotResp(y)) => *x == *y,
        _ => false,
    }
}

fn same_request(a: &ClientRequest, b: &ClientRequest) -> (r: bool)
    ensures
        r == (a@ == b@),
{
    a.client == b.client && a.seq == b.seq && same_bytes(&a.command.0, &b.command.0)
        && a.read_only == b.read_only
}

fn same_input(a: &Input, b: &Input) -> (r: bool)
    ensures
        r == (a@ == b@),
{
    match (a, b) {
        (Input::Message { from: f, msg: x }, Input::Message { from: g, msg: y }) => *f == *g
            && same_message(x, y),
        (Input::Tick, Input::Tick) => true,
        (Input::ClientRequest(x), Input::ClientRequest(y)) => same_request(x, y),
        (Input::ChangeMembership(x), Input::ChangeMembership(y)) => same_set(x, y),
        (Input::Compact(x), Input::Compact(y)) => same_snapshot(x, y),
        _ => false,
    }
}

fn same_persist(a: &PersistOp, b: &PersistOp) -> (r: bool)
    ensures
        r == (a@ == b@),
{
    match (a, b) {
        (
            PersistOp::HardState { current_term: t, voted_for: v },
            PersistOp::HardState { current_term: u, voted_for: w },
        ) => *t == *u && *v == *w,
        (PersistOp::Append(x), PersistOp::Append(y)) => same_entries(x, y),
        (PersistOp::TruncateFrom(x), PersistOp::TruncateFrom(y)) => *x == *y,
        (PersistOp::Snapshot(x), PersistOp::Snapshot(y)) => same_snapshot(x, y),
        (PersistOp::Compact(x), PersistOp::Compact(y)) => *x == *y,
        (PersistOp::ResetLog(x), PersistOp::ResetLog(y)) => *x == *y,
        _ => false,
    }
}

fn same_output(a: &Output, b: &Output) -> (r: bool)
    ensures
        r == (a@ == b@),
{
    match (a, b) {
        (Output::Persist(x), Output::Persist(y)) => same_persist(x, y),
        (Output::Send { to: t, msg: x }, Output::Send { to: u, msg: y }) => *t == *u
            && same_message(x, y),
        (
            Output::Apply { index: i, term: t, payload: p, client: c, respond: r },
            Output::Apply { index: j, term: u, payload: q, client: d, respond: s },
        ) => *i == *j && *t == *u && same_payload(p, q) && same_client(*c, *d) && *r == *s,
        (
            Output::ServeRead { client: c, seq: s, command: x, read_index: i },
            Output::ServeRead { client: d, seq: t, command: y, read_index: j },
        ) => *c == *d && *s == *t && same_bytes(&x.0, &y.0) && *i == *j,
        (
            Output::RestoreSnapshot { snapshot: x },
            Output::RestoreSnapshot { snapshot: y },
        ) => same_snapshot(x, y),
        (
            Output::ClientResponse { client: c, seq: s, result: x },
            Output::ClientResponse { client: d, seq: t, result: y },
        ) => *c == *d && *s == *t && *x == *y,
        _ => false,
    }
}

fn same_fault(a: &Fault, b: &Fault) -> (r: bool)
    ensures
        r == (a@ == b@),
{
    match (a, b) {
        (Fault::Partition { a: p, b: q }, Fault::Partition { a: s, b: t }) => same_ids(
            p.as_slice(),
            s.as_slice(),
        ) && same_ids(q.as_slice(), t.as_slice()),
        (
            Fault::AsymmetricCut { from: f, to: t },
            Fault::AsymmetricCut { from: g, to: u },
        ) => *f == *g && *t == *u,
        (Fault::Isolate { node: x }, Fault::Isolate { node: y }) => *x == *y,
        (Fault::Heal, Fault::Heal) => true,
        (Fault::Crash { node: x }, Fault::Crash { node: y }) => *x == *y,
        (Fault::Restart { node: x }, Fault::Restart { node: y }) => *x == *y,
        (Fault::Pause { node: x, ticks: t }, Fault::Pause { node: y, ticks: u }) => *x == *y
            && *t == *u,
        _ => false,
    }
}

fn same_result(a: &Option<KvResult>, b: &Option<KvResult>) -> (r: bool)
    ensures
        r == (crate::kv::result_view(*a) == crate::kv::result_view(*b)),
{
    match (a, b) {
        (None, None) => true,
        (Some(x), Some(y)) => x.same(y),
        _ => false,
    }
}

fn same_kind(a: &TraceKind, b: &TraceKind) -> (r: bool)
    ensures
        r == (a@ == b@),
{
    match (a, b) {
        (TraceKind::In(x), TraceKind::In(y)) => same_input(x, y),
        (TraceKind::Out(x), TraceKind::Out(y)) => same_output(x, y),
        (TraceKind::Dropped { to: x }, TraceKind::Dropped { to: y }) => *x == *y,
        (TraceKind::Duplicated { to: x }, TraceKind::Duplicated { to: y }) => *x == *y,
        (TraceKind::Partitioned { to: x }, TraceKind::Partitioned { to: y }) => *x == *y,
        (TraceKind::LostToCrash { from: x }, TraceKind::LostToCrash { from: y }) => *x == *y,
        (
            TraceKind::SnapshotInstalled { through: t, bytes: x },
            TraceKind::SnapshotInstalled { through: u, bytes: y },
        ) => *t == *u && *x == *y,
        (TraceKind::Crashed, TraceKind::Crashed) => true,
        (TraceKind::TornStep, TraceKind::TornStep) => true,
        (
            TraceKind::Restarted { current_term: t, voted_for: v, last_index: i },
            TraceKind::Restarted { current_term: u, voted_for: w, last_index: j },
        ) => *t == *u && *v == *w && *i == *j,
        (TraceKind::Fault { fault: x }, TraceKind::Fault { fault: y }) => same_fault(x, y),
        (
            TraceKind::MembershipChange { voters: x },
            TraceKind::MembershipChange { voters: y },
        ) => same_ids(x.as_slice(), y.as_slice()),
        (
            TraceKind::ReadServed { read_index: i, result: x },
            TraceKind::ReadServed { read_index: j, result: y },
        ) => *i == *j && x.same(y),
        (
            TraceKind::Applied { index: i, term: t, command: c, result: x },
            TraceKind::Applied { index: j, term: u, command: d, result: y },
        ) => *i == *j && *t == *u && same_command(c, d) && same_result(x, y),
        _ => false,
    }
}

/// Whether two records say the same.
pub fn same_record(a: &TraceRecord, b: &TraceRecord) -> (r: bool)
    ensures
        r == (a@ == b@),
{
    a.tick == b.tick && a.seq == b.seq && a.node == b.node && same_kind(&a.kind, &b.kind)
}

} // verus!
