//! Traces as JSON.
//!
//! A struct is an object with its fields in order. A variant that carries
//! nothing is a string; one that carries something is an object with one
//! member, named after it. An option is `null` or what it holds, a tuple is an
//! array, and a set is an array in ascending order.
use crate::config::ConfigView;
use crate::faults::{Fault, FaultView};
use crate::json::Json;
use crate::kv::{CommandView, KvCommand, KvResult, ResultView};
use crate::log::{EntryView, PayloadView};
use crate::message::{AppendView, InstallView, MessageView};
use crate::model::{InputView, OutputView, PersistView, RequestView};
use crate::order::ids_in_order;
use crate::snapshot::SnapshotView;
use crate::trace::{KindView, RecordView, TraceKind, TraceRecord};
use crate::tree::Tree;
use crate::{
    AppendEntriesReq, AppendEntriesResp, ClientRequest, ClientResult, ClusterConfig, ConflictHint,
    EntryPayload, Input, InstallSnapshotReq, InstallSnapshotResp, LogEntry, LogId, NodeId, Output,
    PersistOp, RaftMessage, RequestVoteReq, RequestVoteResp, Snapshot,
};
use std::collections::BTreeSet;
use vstd::prelude::*;

verus! {

// ---------------------------------------------------------------------------
// Plain values
// ---------------------------------------------------------------------------

/// The start of an object's members.
pub open spec fn fields() -> Seq<(Seq<char>, Json)> {
    Seq::empty()
}

pub open spec fn number_json(n: u64) -> Json {
    Json::Number(n as nat)
}

pub open spec fn id_json(n: u32) -> Json {
    Json::Number(n as nat)
}

pub open spec fn optional_id_json(n: Option<u32>) -> Json {
    match n {
        None => Json::Null,
        Some(n) => id_json(n),
    }
}

fn optional_id_tree(n: Option<NodeId>) -> (r: Tree)
    ensures
        r.json() == optional_id_json(n),
{
    match n {
        None => Tree::Null,
        Some(n) => Tree::Number(n as u64),
    }
}

pub open spec fn optional_number_json(n: Option<u64>) -> Json {
    match n {
        None => Json::Null,
        Some(n) => number_json(n),
    }
}

fn optional_number_tree(n: Option<u64>) -> (r: Tree)
    ensures
        r.json() == optional_number_json(n),
{
    match n {
        None => Tree::Null,
        Some(n) => Tree::Number(n),
    }
}

/// Who asked, and which of their requests it was.
pub open spec fn client_json(c: Option<(u32, u64)>) -> Json {
    match c {
        None => Json::Null,
        Some(c) => Json::Array(Seq::<Json>::empty().push(id_json(c.0)).push(number_json(c.1))),
    }
}

fn client_tree(c: Option<(u32, u64)>) -> (r: Tree)
    ensures
        r.json() == client_json(c),
{
    match c {
        None => Tree::Null,
        Some(c) => Tree::array().and(Tree::Number(c.0 as u64)).and(Tree::Number(c.1)),
    }
}

pub open spec fn ids_json(ids: Seq<u32>) -> Json {
    Json::Array(Seq::new(ids.len(), |i: int| id_json(ids[i])))
}

fn ids_tree(ids: &[NodeId]) -> (r: Tree)
    ensures
        r.json() == ids_json(ids@),
{
    let mut r = Tree::array();
    let mut i: usize = 0;
    assert(r.json()->Array_0 =~= Seq::new(0, |k: int| id_json(ids@[k])));
    while i < ids.len()
        invariant
            i <= ids@.len(),
            r is Array,
            r.json() == Json::Array(Seq::new(i as nat, |k: int| id_json(ids@[k]))),
        decreases ids@.len() - i,
    {
        r = r.and(Tree::Number(ids[i] as u64));
        i = i + 1;
        assert(r.json()->Array_0 =~= Seq::new(i as nat, |k: int| id_json(ids@[k])));
    }
    r
}

pub open spec fn bytes_json(bytes: Seq<u8>) -> Json {
    Json::Array(Seq::new(bytes.len(), |i: int| Json::Number(bytes[i] as nat)))
}

fn bytes_tree(bytes: &Vec<u8>) -> (r: Tree)
    ensures
        r.json() == bytes_json(bytes@),
{
    let mut r = Tree::array();
    let mut i: usize = 0;
    assert(r.json()->Array_0 =~= Seq::new(0, |k: int| Json::Number(bytes@[k] as nat)));
    while i < bytes.len()
        invariant
            i <= bytes@.len(),
            r is Array,
            r.json() == Json::Array(Seq::new(i as nat, |k: int| Json::Number(bytes@[k] as nat))),
        decreases bytes@.len() - i,
    {
        r = r.and(Tree::Number(bytes[i] as u64));
        i = i + 1;
        assert(r.json()->Array_0 =~= Seq::new(i as nat, |k: int| Json::Number(bytes@[k] as nat)));
    }
    r
}

/// A set, in ascending order.
pub open spec fn set_json(s: Set<u32>) -> Json {
    ids_json(crate::order::in_order(s))
}

fn set_tree(s: &BTreeSet<NodeId>) -> (r: Tree)
    ensures
        r.json() == set_json(s@),
{
    let ids = ids_in_order(s);
    ids_tree(ids.as_slice())
}

// ---------------------------------------------------------------------------
// The log
// ---------------------------------------------------------------------------

pub open spec fn log_id_json(id: LogId) -> Json {
    Json::Object(fields()
        .push(("index"@, number_json(id.index)))
        .push(("term"@, number_json(id.term))))
}

fn log_id_tree(id: &LogId) -> (r: Tree)
    ensures
        r.json() == log_id_json(*id),
{
    Tree::object().with("index", Tree::Number(id.index)).with("term", Tree::Number(id.term))
}

pub open spec fn config_json(c: ConfigView) -> Json {
    Json::Object(
        fields()
            .push(("old"@, set_json(c.old)))
            .push(("new"@, match c.new { None => Json::Null, Some(s) => set_json(s) })),
    )
}

pub open spec fn payload_json(p: PayloadView) -> Json {
    match p {
        PayloadView::Noop => Json::Text("Noop"@),
        PayloadView::Command(c) => Json::tagged("Command"@, bytes_json(c)),
        PayloadView::Config(c) => Json::tagged("Config"@, config_json(c)),
    }
}

fn payload_tree(p: &EntryPayload) -> (r: Tree)
    ensures
        r.json() == payload_json(p@),
{
    match p {
        EntryPayload::Noop => Tree::text("Noop"),
        EntryPayload::Command(c) => Tree::tagged("Command", bytes_tree(&c.0)),
        EntryPayload::Config(c) => Tree::tagged("Config", config_tree(c)),
    }
}

fn config_tree(c: &ClusterConfig) -> (r: Tree)
    ensures
        r.json() == config_json(c@),
{
    let new = match c.new_voters() {
        None => Tree::Null,
        Some(s) => set_tree(s),
    };
    Tree::object().with("old", set_tree(c.old_voters())).with("new", new)
}

pub open spec fn entry_json(e: EntryView) -> Json {
    Json::Object(
        fields()
            .push(("term"@, number_json(e.term)))
            .push(("index"@, number_json(e.index)))
            .push(("payload"@, payload_json(e.payload)))
            .push(("client"@, client_json(e.client))),
    )
}

fn entry_tree(e: &LogEntry) -> (r: Tree)
    ensures
        r.json() == entry_json(e@),
{
    Tree::object().with("term", Tree::Number(e.term)).with("index", Tree::Number(e.index)).with(
        "payload",
        payload_tree(&e.payload),
    ).with("client", client_tree(e.client))
}

pub open spec fn entries_json(entries: Seq<EntryView>) -> Json {
    Json::Array(Seq::new(entries.len(), |i: int| entry_json(entries[i])))
}

fn entries_tree(entries: &Vec<LogEntry>) -> (r: Tree)
    ensures
        r.json() == entries_json(crate::log::entries_view(entries@)),
{
    let ghost all = crate::log::entries_view(entries@);
    let mut r = Tree::array();
    let mut i: usize = 0;
    assert(r.json()->Array_0 =~= Seq::new(0, |k: int| entry_json(all[k])));
    while i < entries.len()
        invariant
            i <= entries@.len(),
            all == crate::log::entries_view(entries@),
            r is Array,
            r.json() == Json::Array(Seq::new(i as nat, |k: int| entry_json(all[k]))),
        decreases entries@.len() - i,
    {
        r = r.and(entry_tree(&entries[i]));
        i = i + 1;
        assert(r.json()->Array_0 =~= Seq::new(i as nat, |k: int| entry_json(all[k])));
    }
    r
}

pub open spec fn snapshot_json(s: SnapshotView) -> Json {
    Json::Object(
        fields()
            .push(("last_included"@, log_id_json(s.last_included)))
            .push(("config"@, config_json(s.config)))
            .push(("data"@, bytes_json(s.data))),
    )
}

fn snapshot_tree(s: &Snapshot) -> (r: Tree)
    ensures
        r.json() == snapshot_json(s@),
{
    Tree::object().with("last_included", log_id_tree(&s.last_included)).with(
        "config",
        config_tree(&s.config),
    ).with("data", bytes_tree(&s.data))
}

// ---------------------------------------------------------------------------
// Messages
// ---------------------------------------------------------------------------

pub open spec fn vote_json(m: RequestVoteReq) -> Json {
    Json::Object(
        fields()
            .push(("term"@, number_json(m.term)))
            .push(("candidate_id"@, id_json(m.candidate_id)))
            .push(("last_log_index"@, number_json(m.last_log_index)))
            .push(("last_log_term"@, number_json(m.last_log_term))),
    )
}

fn vote_tree(m: &RequestVoteReq) -> (r: Tree)
    ensures
        r.json() == vote_json(*m),
{
    Tree::object().with("term", Tree::Number(m.term)).with(
        "candidate_id",
        Tree::Number(m.candidate_id as u64),
    ).with("last_log_index", Tree::Number(m.last_log_index)).with(
        "last_log_term",
        Tree::Number(m.last_log_term),
    )
}

pub open spec fn vote_answer_json(m: RequestVoteResp) -> Json {
    Json::Object(
        fields()
            .push(("term"@, number_json(m.term)))
            .push(("vote_granted"@, Json::Bool(m.vote_granted))),
    )
}

fn vote_answer_tree(m: &RequestVoteResp) -> (r: Tree)
    ensures
        r.json() == vote_answer_json(*m),
{
    Tree::object().with("term", Tree::Number(m.term)).with(
        "vote_granted",
        Tree::Bool(m.vote_granted),
    )
}

pub open spec fn append_json(m: AppendView) -> Json {
    Json::Object(
        fields()
            .push(("term"@, number_json(m.term)))
            .push(("leader_id"@, id_json(m.leader_id)))
            .push(("prev_log_index"@, number_json(m.prev_log_index)))
            .push(("prev_log_term"@, number_json(m.prev_log_term)))
            .push(("entries"@, entries_json(m.entries)))
            .push(("leader_commit"@, number_json(m.leader_commit)))
            .push(("read_round"@, number_json(m.read_round))),
    )
}

fn append_tree(m: &AppendEntriesReq) -> (r: Tree)
    ensures
        r.json() == append_json(m@),
{
    Tree::object().with("term", Tree::Number(m.term)).with(
        "leader_id",
        Tree::Number(m.leader_id as u64),
    ).with("prev_log_index", Tree::Number(m.prev_log_index)).with(
        "prev_log_term",
        Tree::Number(m.prev_log_term),
    ).with("entries", entries_tree(&m.entries)).with(
        "leader_commit",
        Tree::Number(m.leader_commit),
    ).with("read_round", Tree::Number(m.read_round))
}

pub open spec fn hint_json(h: Option<ConflictHint>) -> Json {
    match h {
        None => Json::Null,
        Some(h) => Json::Object(
            fields()
                .push(("term"@, optional_number_json(h.term)))
                .push(("first_index"@, number_json(h.first_index))),
        ),
    }
}

fn hint_tree(h: &Option<ConflictHint>) -> (r: Tree)
    ensures
        r.json() == hint_json(*h),
{
    match h {
        None => Tree::Null,
        Some(h) => Tree::object().with("term", optional_number_tree(h.term)).with(
            "first_index",
            Tree::Number(h.first_index),
        ),
    }
}

pub open spec fn append_answer_json(m: AppendEntriesResp) -> Json {
    Json::Object(
        fields()
            .push(("term"@, number_json(m.term)))
            .push(("success"@, Json::Bool(m.success)))
            .push(("match_index"@, number_json(m.match_index)))
            .push(("conflict"@, hint_json(m.conflict)))
            .push(("read_round"@, number_json(m.read_round)))
            .push(("probed_index"@, number_json(m.probed_index))),
    )
}

fn append_answer_tree(m: &AppendEntriesResp) -> (r: Tree)
    ensures
        r.json() == append_answer_json(*m),
{
    Tree::object().with("term", Tree::Number(m.term)).with("success", Tree::Bool(m.success)).with(
        "match_index",
        Tree::Number(m.match_index),
    ).with("conflict", hint_tree(&m.conflict)).with("read_round", Tree::Number(m.read_round)).with(
        "probed_index",
        Tree::Number(m.probed_index),
    )
}

pub open spec fn install_json(m: InstallView) -> Json {
    Json::Object(
        fields()
            .push(("term"@, number_json(m.term)))
            .push(("leader_id"@, id_json(m.leader_id)))
            .push(("last_included_index"@, number_json(m.last_included_index)))
            .push(("last_included_term"@, number_json(m.last_included_term)))
            .push(("config"@, config_json(m.config)))
            .push(("data"@, bytes_json(m.data))),
    )
}

fn install_tree(m: &InstallSnapshotReq) -> (r: Tree)
    ensures
        r.json() == install_json(m@),
{
    Tree::object().with("term", Tree::Number(m.term)).with(
        "leader_id",
        Tree::Number(m.leader_id as u64),
    ).with("last_included_index", Tree::Number(m.last_included_index)).with(
        "last_included_term",
        Tree::Number(m.last_included_term),
    ).with("config", config_tree(&m.config)).with("data", bytes_tree(&m.data))
}

pub open spec fn install_answer_json(m: InstallSnapshotResp) -> Json {
    Json::Object(
        fields()
            .push(("term"@, number_json(m.term)))
            .push(("last_included_index"@, number_json(m.last_included_index))),
    )
}

fn install_answer_tree(m: &InstallSnapshotResp) -> (r: Tree)
    ensures
        r.json() == install_answer_json(*m),
{
    Tree::object().with("term", Tree::Number(m.term)).with(
        "last_included_index",
        Tree::Number(m.last_included_index),
    )
}

pub open spec fn message_json(m: MessageView) -> Json {
    match m {
        MessageView::RequestVote(m) => Json::tagged("RequestVote"@, vote_json(m)),
        MessageView::RequestVoteResp(m) => Json::tagged("RequestVoteResp"@, vote_answer_json(m)),
        MessageView::AppendEntries(m) => Json::tagged("AppendEntries"@, append_json(m)),
        MessageView::AppendEntriesResp(m) => Json::tagged(
            "AppendEntriesResp"@,
            append_answer_json(m),
        ),
        MessageView::InstallSnapshot(m) => Json::tagged("InstallSnapshot"@, install_json(m)),
        MessageView::InstallSnapshotResp(m) => Json::tagged(
            "InstallSnapshotResp"@,
            install_answer_json(m),
        ),
    }
}

fn message_tree(m: &RaftMessage) -> (r: Tree)
    ensures
        r.json() == message_json(m@),
{
    match m {
        RaftMessage::RequestVote(m) => Tree::tagged("RequestVote", vote_tree(m)),
        RaftMessage::RequestVoteResp(m) => Tree::tagged("RequestVoteResp", vote_answer_tree(m)),
        RaftMessage::AppendEntries(m) => Tree::tagged("AppendEntries", append_tree(m)),
        RaftMessage::AppendEntriesResp(m) => Tree::tagged(
            "AppendEntriesResp",
            append_answer_tree(m),
        ),
        RaftMessage::InstallSnapshot(m) => Tree::tagged("InstallSnapshot", install_tree(m)),
        RaftMessage::InstallSnapshotResp(m) => Tree::tagged(
            "InstallSnapshotResp",
            install_answer_tree(m),
        ),
    }
}

// ---------------------------------------------------------------------------
// Inputs and outputs
// ---------------------------------------------------------------------------

pub open spec fn request_json(r: RequestView) -> Json {
    Json::Object(
        fields()
            .push(("client"@, id_json(r.client)))
            .push(("seq"@, number_json(r.seq)))
            .push(("command"@, bytes_json(r.command)))
            .push(("read_only"@, Json::Bool(r.read_only))),
    )
}

fn request_tree(r: &ClientRequest) -> (t: Tree)
    ensures
        t.json() == request_json(r@),
{
    Tree::object().with("client", Tree::Number(r.client as u64)).with(
        "seq",
        Tree::Number(r.seq),
    ).with("command", bytes_tree(&r.command.0)).with("read_only", Tree::Bool(r.read_only))
}

pub open spec fn input_json(input: InputView) -> Json {
    match input {
        InputView::Message { from, msg } => Json::tagged(
            "Message"@,
            Json::Object(fields()
                .push(("from"@, id_json(from)))
                .push(("msg"@, message_json(msg)))),
        ),
        InputView::Tick => Json::Text("Tick"@),
        InputView::ClientRequest(r) => Json::tagged("ClientRequest"@, request_json(r)),
        InputView::ChangeMembership(s) => Json::tagged("ChangeMembership"@, set_json(s)),
        InputView::Compact(s) => Json::tagged("Compact"@, snapshot_json(s)),
    }
}

fn input_tree(input: &Input) -> (r: Tree)
    ensures
        r.json() == input_json(input@),
{
    match input {
        Input::Message { from, msg } => Tree::tagged(
            "Message",
            Tree::object().with("from", Tree::Number(*from as u64)).with("msg", message_tree(msg)),
        ),
        Input::Tick => Tree::text("Tick"),
        Input::ClientRequest(r) => Tree::tagged("ClientRequest", request_tree(r)),
        Input::ChangeMembership(s) => Tree::tagged("ChangeMembership", set_tree(s)),
        Input::Compact(s) => Tree::tagged("Compact", snapshot_tree(s)),
    }
}

pub open spec fn persist_json(op: PersistView) -> Json {
    match op {
        PersistView::HardState { current_term, voted_for } => Json::tagged(
            "HardState"@,
            Json::Object(
                fields()
                    .push(("current_term"@, number_json(current_term)))
                    .push(("voted_for"@, optional_id_json(voted_for))),
            ),
        ),
        PersistView::Append(entries) => Json::tagged("Append"@, entries_json(entries)),
        PersistView::TruncateFrom(index) => Json::tagged("TruncateFrom"@, number_json(index)),
        PersistView::Snapshot(s) => Json::tagged("Snapshot"@, snapshot_json(s)),
        PersistView::Compact(id) => Json::tagged("Compact"@, log_id_json(id)),
        PersistView::ResetLog(id) => Json::tagged("ResetLog"@, log_id_json(id)),
    }
}

fn persist_tree(op: &PersistOp) -> (r: Tree)
    ensures
        r.json() == persist_json(op@),
{
    match op {
        PersistOp::HardState { current_term, voted_for } => Tree::tagged(
            "HardState",
            Tree::object().with("current_term", Tree::Number(*current_term)).with(
                "voted_for",
                optional_id_tree(*voted_for),
            ),
        ),
        PersistOp::Append(entries) => Tree::tagged("Append", entries_tree(entries)),
        PersistOp::TruncateFrom(index) => Tree::tagged("TruncateFrom", Tree::Number(*index)),
        PersistOp::Snapshot(s) => Tree::tagged("Snapshot", snapshot_tree(s)),
        PersistOp::Compact(id) => Tree::tagged("Compact", log_id_tree(id)),
        PersistOp::ResetLog(id) => Tree::tagged("ResetLog", log_id_tree(id)),
    }
}

pub open spec fn refusal_json(r: ClientResult) -> Json {
    match r {
        ClientResult::NotLeader { leader } => Json::tagged(
            "NotLeader"@,
            Json::Object(fields().push(("leader"@, optional_id_json(leader)))),
        ),
        ClientResult::ChangeInProgress => Json::Text("ChangeInProgress"@),
    }
}

fn refusal_tree(r: &ClientResult) -> (t: Tree)
    ensures
        t.json() == refusal_json(*r),
{
    match r {
        ClientResult::NotLeader { leader } => Tree::tagged(
            "NotLeader",
            Tree::object().with("leader", optional_id_tree(*leader)),
        ),
        ClientResult::ChangeInProgress => Tree::text("ChangeInProgress"),
    }
}

pub open spec fn output_json(output: OutputView) -> Json {
    match output {
        OutputView::Persist(op) => Json::tagged("Persist"@, persist_json(op)),
        OutputView::Send { to, msg } => Json::tagged(
            "Send"@,
            Json::Object(fields().push(("to"@, id_json(to))).push(("msg"@, message_json(msg)))),
        ),
        OutputView::Apply { index, term, payload, client, respond } => Json::tagged(
            "Apply"@,
            Json::Object(
                fields()
                    .push(("index"@, number_json(index)))
                    .push(("term"@, number_json(term)))
                    .push(("payload"@, payload_json(payload)))
                    .push(("client"@, client_json(client)))
                    .push(("respond"@, Json::Bool(respond))),
            ),
        ),
        OutputView::ServeRead { client, seq, command, read_index } => Json::tagged(
            "ServeRead"@,
            Json::Object(
                fields()
                    .push(("client"@, id_json(client)))
                    .push(("seq"@, number_json(seq)))
                    .push(("command"@, bytes_json(command)))
                    .push(("read_index"@, number_json(read_index))),
            ),
        ),
        OutputView::RestoreSnapshot { snapshot } => Json::tagged(
            "RestoreSnapshot"@,
            Json::Object(fields().push(("snapshot"@, snapshot_json(snapshot)))),
        ),
        OutputView::ClientResponse { client, seq, result } => Json::tagged(
            "ClientResponse"@,
            Json::Object(
                fields()
                    .push(("client"@, id_json(client)))
                    .push(("seq"@, number_json(seq)))
                    .push(("result"@, refusal_json(result))),
            ),
        ),
    }
}

fn output_tree(output: &Output) -> (r: Tree)
    ensures
        r.json() == output_json(output@),
{
    match output {
        Output::Persist(op) => Tree::tagged("Persist", persist_tree(op)),
        Output::Send { to, msg } => Tree::tagged(
            "Send",
            Tree::object().with("to", Tree::Number(*to as u64)).with("msg", message_tree(msg)),
        ),
        Output::Apply { index, term, payload, client, respond } => Tree::tagged(
            "Apply",
            Tree::object().with("index", Tree::Number(*index)).with(
                "term",
                Tree::Number(*term),
            ).with("payload", payload_tree(payload)).with("client", client_tree(*client)).with(
                "respond",
                Tree::Bool(*respond),
            ),
        ),
        Output::ServeRead { client, seq, command, read_index } => Tree::tagged(
            "ServeRead",
            Tree::object().with("client", Tree::Number(*client as u64)).with(
                "seq",
                Tree::Number(*seq),
            ).with("command", bytes_tree(&command.0)).with(
                "read_index",
                Tree::Number(*read_index),
            ),
        ),
        Output::RestoreSnapshot { snapshot } => Tree::tagged(
            "RestoreSnapshot",
            Tree::object().with("snapshot", snapshot_tree(snapshot)),
        ),
        Output::ClientResponse { client, seq, result } => Tree::tagged(
            "ClientResponse",
            Tree::object().with("client", Tree::Number(*client as u64)).with(
                "seq",
                Tree::Number(*seq),
            ).with("result", refusal_tree(result)),
        ),
    }
}

// ---------------------------------------------------------------------------
// Records
// ---------------------------------------------------------------------------

pub open spec fn fault_json(f: FaultView) -> Json {
    match f {
        FaultView::Partition { a, b } => Json::tagged(
            "Partition"@,
            Json::Object(fields().push(("a"@, ids_json(a))).push(("b"@, ids_json(b)))),
        ),
        FaultView::AsymmetricCut { from, to } => Json::tagged(
            "AsymmetricCut"@,
            Json::Object(fields().push(("from"@, id_json(from))).push(("to"@, id_json(to)))),
        ),
        FaultView::Isolate { node } => Json::tagged(
            "Isolate"@,
            Json::Object(fields().push(("node"@, id_json(node)))),
        ),
        FaultView::Heal => Json::Text("Heal"@),
        FaultView::Crash { node } => Json::tagged(
            "Crash"@,
            Json::Object(fields().push(("node"@, id_json(node)))),
        ),
        FaultView::Restart { node } => Json::tagged(
            "Restart"@,
            Json::Object(fields().push(("node"@, id_json(node)))),
        ),
        FaultView::Pause { node, ticks } => Json::tagged(
            "Pause"@,
            Json::Object(fields()
                .push(("node"@, id_json(node)))
                .push(("ticks"@, number_json(ticks)))),
        ),
    }
}

fn fault_tree(f: &Fault) -> (r: Tree)
    ensures
        r.json() == fault_json(f@),
{
    match f {
        Fault::Partition { a, b } => Tree::tagged(
            "Partition",
            Tree::object().with("a", ids_tree(a.as_slice())).with("b", ids_tree(b.as_slice())),
        ),
        Fault::AsymmetricCut { from, to } => Tree::tagged(
            "AsymmetricCut",
            Tree::object().with("from", Tree::Number(*from as u64)).with(
                "to",
                Tree::Number(*to as u64),
            ),
        ),
        Fault::Isolate { node } => Tree::tagged(
            "Isolate",
            Tree::object().with("node", Tree::Number(*node as u64)),
        ),
        Fault::Heal => Tree::text("Heal"),
        Fault::Crash { node } => Tree::tagged(
            "Crash",
            Tree::object().with("node", Tree::Number(*node as u64)),
        ),
        Fault::Restart { node } => Tree::tagged(
            "Restart",
            Tree::object().with("node", Tree::Number(*node as u64)),
        ),
        Fault::Pause { node, ticks } => Tree::tagged(
            "Pause",
            Tree::object().with("node", Tree::Number(*node as u64)).with(
                "ticks",
                Tree::Number(*ticks),
            ),
        ),
    }
}

fn command_tree(c: &KvCommand) -> (r: Tree)
    ensures
        r.json() == c@.json(),
{
    match c {
        KvCommand::Get { key } => Tree::tagged(
            "Get",
            Tree::object().with("key", Tree::text(key.as_str())),
        ),
        KvCommand::Put { key, value } => {
            let body = Tree::object().with("key", Tree::text(key.as_str())).with(
                "value",
                Tree::text(value.as_str()),
            );
            assert(body.json()->Object_0 =~= seq![
                ("key"@, Json::Text(key@)),
                ("value"@, Json::Text(value@)),
            ]);
            Tree::tagged("Put", body)
        },
        KvCommand::Delete { key } => Tree::tagged(
            "Delete",
            Tree::object().with("key", Tree::text(key.as_str())),
        ),
        KvCommand::Cas { key, expect, value } => {
            let body = Tree::object().with("key", Tree::text(key.as_str())).with(
                "expect",
                Tree::optional_text(expect),
            ).with("value", Tree::text(value.as_str()));
            assert(body.json()->Object_0 =~= seq![
                ("key"@, Json::Text(key@)),
                ("expect"@, Json::optional_text(crate::json::text_view(*expect))),
                ("value"@, Json::Text(value@)),
            ]);
            Tree::tagged("Cas", body)
        },
    }
}

fn result_tree(r: &KvResult) -> (t: Tree)
    ensures
        t.json() == r@.json(),
{
    match r {
        KvResult::Value(v) => Tree::tagged("Value", Tree::optional_text(v)),
        KvResult::Done => Tree::text("Ok"),
        KvResult::CasFailed { actual } => Tree::tagged(
            "CasFailed",
            Tree::object().with("actual", Tree::optional_text(actual)),
        ),
    }
}

pub open spec fn optional_command_json(c: Option<CommandView>) -> Json {
    match c {
        None => Json::Null,
        Some(c) => c.json(),
    }
}

fn optional_command_tree(c: &Option<KvCommand>) -> (r: Tree)
    ensures
        r.json() == optional_command_json(crate::kv::command_view(*c)),
{
    match c {
        None => Tree::Null,
        Some(c) => command_tree(c),
    }
}

pub open spec fn optional_result_json(r: Option<ResultView>) -> Json {
    match r {
        None => Json::Null,
        Some(r) => r.json(),
    }
}

fn optional_result_tree(r: &Option<KvResult>) -> (t: Tree)
    ensures
        t.json() == optional_result_json(crate::kv::result_view(*r)),
{
    match r {
        None => Tree::Null,
        Some(r) => result_tree(r),
    }
}

pub open spec fn kind_json(k: KindView) -> Json {
    match k {
        KindView::In(input) => Json::tagged("In"@, input_json(input)),
        KindView::Out(output) => Json::tagged("Out"@, output_json(output)),
        KindView::Dropped { to } => Json::tagged(
            "Dropped"@,
            Json::Object(fields().push(("to"@, id_json(to)))),
        ),
        KindView::Duplicated { to } => Json::tagged(
            "Duplicated"@,
            Json::Object(fields().push(("to"@, id_json(to)))),
        ),
        KindView::Partitioned { to } => Json::tagged(
            "Partitioned"@,
            Json::Object(fields().push(("to"@, id_json(to)))),
        ),
        KindView::LostToCrash { from } => Json::tagged(
            "LostToCrash"@,
            Json::Object(fields().push(("from"@, id_json(from)))),
        ),
        KindView::SnapshotInstalled { through, bytes } => Json::tagged(
            "SnapshotInstalled"@,
            Json::Object(
                fields()
                    .push(("through"@, number_json(through)))
                    .push(("bytes"@, Json::Number(bytes as nat))),
            ),
        ),
        KindView::Crashed => Json::Text("Crashed"@),
        KindView::TornStep => Json::Text("TornStep"@),
        KindView::Restarted { current_term, voted_for, last_index } => Json::tagged(
            "Restarted"@,
            Json::Object(
                fields()
                    .push(("current_term"@, number_json(current_term)))
                    .push(("voted_for"@, optional_id_json(voted_for)))
                    .push(("last_index"@, number_json(last_index))),
            ),
        ),
        KindView::Fault { fault } => Json::tagged(
            "Fault"@,
            Json::Object(fields().push(("fault"@, fault_json(fault)))),
        ),
        KindView::MembershipChange { voters } => Json::tagged(
            "MembershipChange"@,
            Json::Object(fields().push(("voters"@, ids_json(voters)))),
        ),
        KindView::ReadServed { read_index, result } => Json::tagged(
            "ReadServed"@,
            Json::Object(
                fields()
                    .push(("read_index"@, number_json(read_index)))
                    .push(("result"@, result.json())),
            ),
        ),
        KindView::Applied { index, term, command, result } => Json::tagged(
            "Applied"@,
            Json::Object(
                fields()
                    .push(("index"@, number_json(index)))
                    .push(("term"@, number_json(term)))
                    .push(("command"@, optional_command_json(command)))
                    .push(("result"@, optional_result_json(result))),
            ),
        ),
    }
}

fn kind_tree(k: &TraceKind) -> (r: Tree)
    ensures
        r.json() == kind_json(k@),
{
    match k {
        TraceKind::In(input) => Tree::tagged("In", input_tree(input)),
        TraceKind::Out(output) => Tree::tagged("Out", output_tree(output)),
        TraceKind::Dropped { to } => Tree::tagged(
            "Dropped",
            Tree::object().with("to", Tree::Number(*to as u64)),
        ),
        TraceKind::Duplicated { to } => Tree::tagged(
            "Duplicated",
            Tree::object().with("to", Tree::Number(*to as u64)),
        ),
        TraceKind::Partitioned { to } => Tree::tagged(
            "Partitioned",
            Tree::object().with("to", Tree::Number(*to as u64)),
        ),
        TraceKind::LostToCrash { from } => Tree::tagged(
            "LostToCrash",
            Tree::object().with("from", Tree::Number(*from as u64)),
        ),
        TraceKind::SnapshotInstalled { through, bytes } => Tree::tagged(
            "SnapshotInstalled",
            Tree::object().with("through", Tree::Number(*through)).with(
                "bytes",
                Tree::Number(*bytes as u64),
            ),
        ),
        TraceKind::Crashed => Tree::text("Crashed"),
        TraceKind::TornStep => Tree::text("TornStep"),
        TraceKind::Restarted { current_term, voted_for, last_index } => Tree::tagged(
            "Restarted",
            Tree::object().with("current_term", Tree::Number(*current_term)).with(
                "voted_for",
                optional_id_tree(*voted_for),
            ).with("last_index", Tree::Number(*last_index)),
        ),
        TraceKind::Fault { fault } => Tree::tagged(
            "Fault",
            Tree::object().with("fault", fault_tree(fault)),
        ),
        TraceKind::MembershipChange { voters } => Tree::tagged(
            "MembershipChange",
            Tree::object().with("voters", ids_tree(voters.as_slice())),
        ),
        TraceKind::ReadServed { read_index, result } => Tree::tagged(
            "ReadServed",
            Tree::object().with("read_index", Tree::Number(*read_index)).with(
                "result",
                result_tree(result),
            ),
        ),
        TraceKind::Applied { index, term, command, result } => Tree::tagged(
            "Applied",
            Tree::object().with("index", Tree::Number(*index)).with(
                "term",
                Tree::Number(*term),
            ).with("command", optional_command_tree(command)).with(
                "result",
                optional_result_tree(result),
            ),
        ),
    }
}

pub open spec fn record_json(r: RecordView) -> Json {
    Json::Object(
        fields()
            .push(("tick"@, number_json(r.tick)))
            .push(("seq"@, number_json(r.seq)))
            .push(("node"@, id_json(r.node)))
            .push(("kind"@, kind_json(r.kind))),
    )
}

fn record_tree(r: &TraceRecord) -> (t: Tree)
    ensures
        t.json() == record_json(r@),
{
    Tree::object().with("tick", Tree::Number(r.tick)).with("seq", Tree::Number(r.seq)).with(
        "node",
        Tree::Number(r.node as u64),
    ).with("kind", kind_tree(&r.kind))
}

/// A run of records, one after the other.
pub open spec fn records_json(records: Seq<RecordView>) -> Json {
    Json::Array(Seq::new(records.len(), |i: int| record_json(records[i])))
}

/// The text of a run of records.
pub(crate) fn records_text(records: &Vec<TraceRecord>) -> (r: String)
    ensures
        r@ == records_json(crate::trace::records_view(records@)).text(),
{
    let ghost items = records_json(crate::trace::records_view(records@))->Array_0;
    let mut out = String::new();
    let ghost start = out@ + "["@;
    out.append("[");
    let mut i: usize = 0;
    while i < records.len()
        invariant
            i <= records@.len(),
            items == records_json(crate::trace::records_view(records@))->Array_0,
            out@ == Json::write_items(items, i as int, start),
        decreases records@.len() - i,
    {
        if i > 0 {
            out.append(",");
        }
        let tree = record_tree(&records[i]);
        assert(items[i as int] == record_json(records@[i as int]@));
        tree.push_to(&mut out);
        i = i + 1;
    }
    out.append("]");
    out
}

} // verus!
