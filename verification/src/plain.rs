//! Traces are plain documents.
//!
//! No object in a trace's JSON has a name twice or one that is reserved, no number
//! needs more than 64 bits, and nothing is nested deeply, so the layout of a trace
//! over several lines is known.
use crate::config::ConfigView;
use crate::faults::FaultView;
use crate::json::Json;
use crate::kv::{CommandView, ResultView};
use crate::log::{EntryView, PayloadView};
use crate::message::{AppendView, InstallView, MessageView};
use crate::model::{InputView, OutputView, PersistView, RequestView};
use crate::snapshot::SnapshotView;
use crate::trace::{KindView, RecordView};
use crate::{
    AppendEntriesResp, ClientResult, ConflictHint, InstallSnapshotResp, LogId, RequestVoteReq,
    RequestVoteResp,
};
use vstd::prelude::*;

verus! {

/// No short name is reserved.
proof fn lemma_reserved()
    ensures
        forall|name: Seq<char>| #[trigger] crate::json::reserved(name) ==> name.len() == 30,
{
    reveal_strlit("$serde_json::private::RawValue");
}

proof fn lemma_ids(ids: Seq<u32>, levels: nat)
    requires
        levels >= 1,
    ensures
        crate::trace_json::ids_json(ids).plain(levels),
{
    let below = (levels - 1) as nat;
    assert forall|i: int| 0 <= i < ids.len() implies crate::trace_json::id_json(
        #[trigger] ids[i],
    ).plain(below) by {}
}

proof fn lemma_bytes(bytes: Seq<u8>, levels: nat)
    requires
        levels >= 1,
    ensures
        crate::trace_json::bytes_json(bytes).plain(levels),
{
    let below = (levels - 1) as nat;
    assert forall|i: int| 0 <= i < bytes.len() implies Json::Number(
        (#[trigger] bytes[i]) as nat,
    ).plain(below) by {}
}

proof fn lemma_client(c: Option<(u32, u64)>, levels: nat)
    requires
        levels >= 1,
    ensures
        crate::trace_json::client_json(c).plain(levels),
{
    let below = (levels - 1) as nat;
    match c {
        Some(c) => {
            assert(crate::trace_json::id_json(c.0).plain(below));
            assert(crate::trace_json::number_json(c.1).plain(below));
        },
        None => {},
    }
}

proof fn lemma_entries(entries: Seq<EntryView>, levels: nat)
    requires
        levels >= 5,
    ensures
        crate::trace_json::entries_json(entries).plain(levels),
{
    let below = (levels - 1) as nat;
    assert forall|i: int| 0 <= i < entries.len() implies crate::trace_json::entry_json(
        #[trigger] entries[i],
    ).plain(below) by {
        lemma_entry(entries[i], below);
    }
}

proof fn lemma_command(c: CommandView, levels: nat)
    requires
        levels >= 2,
    ensures
        c.json().plain(levels),
{
    lemma_reserved();
    let below = (levels - 1) as nat;
    let inner = (levels - 2) as nat;
    reveal_strlit("Get");
    reveal_strlit("Put");
    reveal_strlit("Delete");
    reveal_strlit("Cas");
    assert("Get"@.len() == 3);
    assert("Put"@.len() == 3);
    assert("Delete"@.len() == 6);
    assert("Cas"@.len() == 3);
    reveal_strlit("key");
    reveal_strlit("expect");
    reveal_strlit("value");
    assert("key"@.len() == 3);
    assert("expect"@.len() == 6);
    assert("value"@.len() == 5);
    match c {
        CommandView::Get { key } => {
            assert(Json::Text(key).plain(inner));
            assert(Json::Object(seq![("key"@, Json::Text(key))]).plain(below));
        },
        CommandView::Put { key, value } => {
            assert(Json::Text(key).plain(inner));
            assert(Json::Text(value).plain(inner));
            assert(Json::Object(
                seq![("key"@, Json::Text(key)), ("value"@, Json::Text(value))],
            ).plain(below));
        },
        CommandView::Delete { key } => {
            assert(Json::Text(key).plain(inner));
            assert(Json::Object(seq![("key"@, Json::Text(key))]).plain(below));
        },
        CommandView::Cas { key, expect, value } => {
            assert(Json::Text(key).plain(inner));
            assert(Json::optional_text(expect).plain(inner));
            assert(Json::Text(value).plain(inner));
            assert(Json::Object(
                seq![
                    ("key"@, Json::Text(key)),
                    ("expect"@, Json::optional_text(expect)),
                    ("value"@, Json::Text(value)),
                ],
            ).plain(below));
        },
    }
}

proof fn lemma_result(r: ResultView, levels: nat)
    requires
        levels >= 2,
    ensures
        r.json().plain(levels),
{
    lemma_reserved();
    let below = (levels - 1) as nat;
    reveal_strlit("Value");
    reveal_strlit("CasFailed");
    reveal_strlit("actual");
    assert("Value"@.len() == 5);
    assert("CasFailed"@.len() == 9);
    assert("actual"@.len() == 6);
    match r {
        ResultView::Value(v) => {
            assert(Json::optional_text(v).plain(below));
        },
        ResultView::Done => {},
        ResultView::CasFailed { actual } => {
            assert(Json::optional_text(actual).plain((levels - 2) as nat));
            assert(Json::Object(seq![("actual"@, Json::optional_text(actual))]).plain(below));
        },
    }
}

proof fn lemma_log_id(id: LogId, levels: nat)
    requires
        levels >= 1,
    ensures
        crate::trace_json::log_id_json(id).plain(levels),
{
    lemma_reserved();
    let below = (levels - 1) as nat;
    reveal_strlit("index");
    reveal_strlit("term");
    assert("index"@.len() == 5);
    assert("term"@.len() == 4);
    assert(crate::trace_json::number_json(id.index).plain(below));
    assert(crate::trace_json::number_json(id.term).plain(below));
}

proof fn lemma_config(c: ConfigView, levels: nat)
    requires
        levels >= 2,
    ensures
        crate::trace_json::config_json(c).plain(levels),
{
    lemma_reserved();
    let below = (levels - 1) as nat;
    reveal_strlit("old");
    reveal_strlit("new");
    assert("old"@.len() == 3);
    assert("new"@.len() == 3);
    assert("old"@[0] != "new"@[0]);
    lemma_ids(crate::order::in_order(c.old), below);
    assert(Json::Null.plain(below));
    if c.new is Some {
        lemma_ids(crate::order::in_order(c.new->0), below);
    }
}

proof fn lemma_entry(e: EntryView, levels: nat)
    requires
        levels >= 4,
    ensures
        crate::trace_json::entry_json(e).plain(levels),
{
    lemma_reserved();
    let below = (levels - 1) as nat;
    reveal_strlit("term");
    reveal_strlit("index");
    reveal_strlit("payload");
    reveal_strlit("client");
    assert("term"@.len() == 4);
    assert("index"@.len() == 5);
    assert("payload"@.len() == 7);
    assert("client"@.len() == 6);
    assert(crate::trace_json::number_json(e.term).plain(below));
    assert(crate::trace_json::number_json(e.index).plain(below));
    lemma_payload(e.payload, below);
    lemma_client(e.client, below);
}

proof fn lemma_snapshot(s: SnapshotView, levels: nat)
    requires
        levels >= 3,
    ensures
        crate::trace_json::snapshot_json(s).plain(levels),
{
    lemma_reserved();
    let below = (levels - 1) as nat;
    reveal_strlit("last_included");
    reveal_strlit("config");
    reveal_strlit("data");
    assert("last_included"@.len() == 13);
    assert("config"@.len() == 6);
    assert("data"@.len() == 4);
    lemma_log_id(s.last_included, below);
    lemma_config(s.config, below);
    lemma_bytes(s.data, below);
}

proof fn lemma_vote(m: RequestVoteReq, levels: nat)
    requires
        levels >= 1,
    ensures
        crate::trace_json::vote_json(m).plain(levels),
{
    lemma_reserved();
    let below = (levels - 1) as nat;
    reveal_strlit("term");
    reveal_strlit("candidate_id");
    reveal_strlit("last_log_index");
    reveal_strlit("last_log_term");
    assert("term"@.len() == 4);
    assert("candidate_id"@.len() == 12);
    assert("last_log_index"@.len() == 14);
    assert("last_log_term"@.len() == 13);
    assert(crate::trace_json::number_json(m.term).plain(below));
    assert(crate::trace_json::id_json(m.candidate_id).plain(below));
    assert(crate::trace_json::number_json(m.last_log_index).plain(below));
    assert(crate::trace_json::number_json(m.last_log_term).plain(below));
}

proof fn lemma_vote_answer(m: RequestVoteResp, levels: nat)
    requires
        levels >= 1,
    ensures
        crate::trace_json::vote_answer_json(m).plain(levels),
{
    lemma_reserved();
    let below = (levels - 1) as nat;
    reveal_strlit("term");
    reveal_strlit("vote_granted");
    assert("term"@.len() == 4);
    assert("vote_granted"@.len() == 12);
    assert(crate::trace_json::number_json(m.term).plain(below));
    assert(Json::Bool(m.vote_granted).plain(below));
}

proof fn lemma_append(m: AppendView, levels: nat)
    requires
        levels >= 6,
    ensures
        crate::trace_json::append_json(m).plain(levels),
{
    lemma_reserved();
    let below = (levels - 1) as nat;
    reveal_strlit("term");
    reveal_strlit("leader_id");
    reveal_strlit("prev_log_index");
    reveal_strlit("prev_log_term");
    reveal_strlit("entries");
    reveal_strlit("leader_commit");
    reveal_strlit("read_round");
    assert("term"@.len() == 4);
    assert("leader_id"@.len() == 9);
    assert("prev_log_index"@.len() == 14);
    assert("prev_log_term"@.len() == 13);
    assert("entries"@.len() == 7);
    assert("leader_commit"@.len() == 13);
    assert("read_round"@.len() == 10);
    assert("prev_log_term"@[0] != "leader_commit"@[0]);
    assert(crate::trace_json::number_json(m.term).plain(below));
    assert(crate::trace_json::id_json(m.leader_id).plain(below));
    assert(crate::trace_json::number_json(m.prev_log_index).plain(below));
    assert(crate::trace_json::number_json(m.prev_log_term).plain(below));
    lemma_entries(m.entries, below);
    assert(crate::trace_json::number_json(m.leader_commit).plain(below));
    assert(crate::trace_json::number_json(m.read_round).plain(below));
}

proof fn lemma_hint(h: ConflictHint, levels: nat)
    requires
        levels >= 1,
    ensures
        crate::trace_json::hint_json(Some(h)).plain(levels),
{
    lemma_reserved();
    let below = (levels - 1) as nat;
    reveal_strlit("term");
    reveal_strlit("first_index");
    assert("term"@.len() == 4);
    assert("first_index"@.len() == 11);
    assert(crate::trace_json::optional_number_json(h.term).plain(below));
    assert(crate::trace_json::number_json(h.first_index).plain(below));
}

proof fn lemma_append_answer(m: AppendEntriesResp, levels: nat)
    requires
        levels >= 2,
    ensures
        crate::trace_json::append_answer_json(m).plain(levels),
{
    lemma_reserved();
    let below = (levels - 1) as nat;
    reveal_strlit("term");
    reveal_strlit("success");
    reveal_strlit("match_index");
    reveal_strlit("conflict");
    reveal_strlit("read_round");
    reveal_strlit("probed_index");
    assert("term"@.len() == 4);
    assert("success"@.len() == 7);
    assert("match_index"@.len() == 11);
    assert("conflict"@.len() == 8);
    assert("read_round"@.len() == 10);
    assert("probed_index"@.len() == 12);
    assert(crate::trace_json::number_json(m.term).plain(below));
    assert(Json::Bool(m.success).plain(below));
    assert(crate::trace_json::number_json(m.match_index).plain(below));
    assert(Json::Null.plain(below));
    if m.conflict is Some {
        lemma_hint(m.conflict->0, below);
    }
    assert(crate::trace_json::number_json(m.read_round).plain(below));
    assert(crate::trace_json::number_json(m.probed_index).plain(below));
}

proof fn lemma_install(m: InstallView, levels: nat)
    requires
        levels >= 3,
    ensures
        crate::trace_json::install_json(m).plain(levels),
{
    lemma_reserved();
    let below = (levels - 1) as nat;
    reveal_strlit("term");
    reveal_strlit("leader_id");
    reveal_strlit("last_included_index");
    reveal_strlit("last_included_term");
    reveal_strlit("config");
    reveal_strlit("data");
    assert("term"@.len() == 4);
    assert("leader_id"@.len() == 9);
    assert("last_included_index"@.len() == 19);
    assert("last_included_term"@.len() == 18);
    assert("config"@.len() == 6);
    assert("data"@.len() == 4);
    assert("term"@[0] != "data"@[0]);
    assert(crate::trace_json::number_json(m.term).plain(below));
    assert(crate::trace_json::id_json(m.leader_id).plain(below));
    assert(crate::trace_json::number_json(m.last_included_index).plain(below));
    assert(crate::trace_json::number_json(m.last_included_term).plain(below));
    lemma_config(m.config, below);
    lemma_bytes(m.data, below);
}

proof fn lemma_install_answer(m: InstallSnapshotResp, levels: nat)
    requires
        levels >= 1,
    ensures
        crate::trace_json::install_answer_json(m).plain(levels),
{
    lemma_reserved();
    let below = (levels - 1) as nat;
    reveal_strlit("term");
    reveal_strlit("last_included_index");
    assert("term"@.len() == 4);
    assert("last_included_index"@.len() == 19);
    assert(crate::trace_json::number_json(m.term).plain(below));
    assert(crate::trace_json::number_json(m.last_included_index).plain(below));
}

proof fn lemma_request(r: RequestView, levels: nat)
    requires
        levels >= 2,
    ensures
        crate::trace_json::request_json(r).plain(levels),
{
    lemma_reserved();
    let below = (levels - 1) as nat;
    reveal_strlit("client");
    reveal_strlit("seq");
    reveal_strlit("command");
    reveal_strlit("read_only");
    assert("client"@.len() == 6);
    assert("seq"@.len() == 3);
    assert("command"@.len() == 7);
    assert("read_only"@.len() == 9);
    assert(crate::trace_json::id_json(r.client).plain(below));
    assert(crate::trace_json::number_json(r.seq).plain(below));
    lemma_bytes(r.command, below);
    assert(Json::Bool(r.read_only).plain(below));
}

proof fn lemma_record(r: RecordView, levels: nat)
    requires
        levels >= 11,
    ensures
        crate::trace_json::record_json(r).plain(levels),
{
    lemma_reserved();
    let below = (levels - 1) as nat;
    reveal_strlit("tick");
    reveal_strlit("seq");
    reveal_strlit("node");
    reveal_strlit("kind");
    assert("tick"@.len() == 4);
    assert("seq"@.len() == 3);
    assert("node"@.len() == 4);
    assert("kind"@.len() == 4);
    assert("tick"@[0] != "node"@[0]);
    assert("tick"@[0] != "kind"@[0]);
    assert("node"@[0] != "kind"@[0]);
    assert(crate::trace_json::number_json(r.tick).plain(below));
    assert(crate::trace_json::number_json(r.seq).plain(below));
    assert(crate::trace_json::id_json(r.node).plain(below));
    lemma_kind(r.kind, below);
}

proof fn lemma_payload(p: PayloadView, levels: nat)
    requires
        levels >= 3,
    ensures
        crate::trace_json::payload_json(p).plain(levels),
{
    lemma_reserved();
    let below = (levels - 1) as nat;
    match p {
        PayloadView::Noop => {},
        PayloadView::Command(c) => {
            reveal_strlit("Command");
            assert("Command"@.len() == 7);
            lemma_bytes(c, below);
        },
        PayloadView::Config(c) => {
            reveal_strlit("Config");
            assert("Config"@.len() == 6);
            lemma_config(c, below);
        },
    }
}

proof fn lemma_message(m: MessageView, levels: nat)
    requires
        levels >= 7,
    ensures
        crate::trace_json::message_json(m).plain(levels),
{
    lemma_reserved();
    let below = (levels - 1) as nat;
    match m {
        MessageView::RequestVote(x) => {
            reveal_strlit("RequestVote");
            assert("RequestVote"@.len() == 11);
            lemma_vote(x, below);
        },
        MessageView::RequestVoteResp(x) => {
            reveal_strlit("RequestVoteResp");
            assert("RequestVoteResp"@.len() == 15);
            lemma_vote_answer(x, below);
        },
        MessageView::AppendEntries(x) => {
            reveal_strlit("AppendEntries");
            assert("AppendEntries"@.len() == 13);
            lemma_append(x, below);
        },
        MessageView::AppendEntriesResp(x) => {
            reveal_strlit("AppendEntriesResp");
            assert("AppendEntriesResp"@.len() == 17);
            lemma_append_answer(x, below);
        },
        MessageView::InstallSnapshot(x) => {
            reveal_strlit("InstallSnapshot");
            assert("InstallSnapshot"@.len() == 15);
            lemma_install(x, below);
        },
        MessageView::InstallSnapshotResp(x) => {
            reveal_strlit("InstallSnapshotResp");
            assert("InstallSnapshotResp"@.len() == 19);
            lemma_install_answer(x, below);
        },
    }
}

proof fn lemma_input(input: InputView, levels: nat)
    requires
        levels >= 9,
    ensures
        crate::trace_json::input_json(input).plain(levels),
{
    lemma_reserved();
    let below = (levels - 1) as nat;
    match input {
        InputView::Message { from, msg } => {
            reveal_strlit("Message");
            assert("Message"@.len() == 7);
            let inner = (levels - 2) as nat;
            reveal_strlit("from");
            reveal_strlit("msg");
            assert("from"@.len() == 4);
            assert("msg"@.len() == 3);
            assert(crate::trace_json::id_json(from).plain(inner));
            lemma_message(msg, inner);
            assert(Json::Object(
                crate::trace_json::fields()
                    .push(("from"@, crate::trace_json::id_json(from)))
                    .push(("msg"@, crate::trace_json::message_json(msg))),
            ).plain(below));
        },
        InputView::Tick => {},
        InputView::ClientRequest(r) => {
            reveal_strlit("ClientRequest");
            assert("ClientRequest"@.len() == 13);
            lemma_request(r, below);
        },
        InputView::ChangeMembership(s) => {
            reveal_strlit("ChangeMembership");
            assert("ChangeMembership"@.len() == 16);
            lemma_ids(crate::order::in_order(s), below);
        },
        InputView::Compact(s) => {
            reveal_strlit("Compact");
            assert("Compact"@.len() == 7);
            lemma_snapshot(s, below);
        },
    }
}

proof fn lemma_persist(op: PersistView, levels: nat)
    requires
        levels >= 6,
    ensures
        crate::trace_json::persist_json(op).plain(levels),
{
    lemma_reserved();
    let below = (levels - 1) as nat;
    match op {
        PersistView::HardState { current_term, voted_for } => {
            reveal_strlit("HardState");
            assert("HardState"@.len() == 9);
            let inner = (levels - 2) as nat;
            reveal_strlit("current_term");
            reveal_strlit("voted_for");
            assert("current_term"@.len() == 12);
            assert("voted_for"@.len() == 9);
            assert(crate::trace_json::number_json(current_term).plain(inner));
            assert(crate::trace_json::optional_id_json(voted_for).plain(inner));
            assert(Json::Object(
                crate::trace_json::fields()
                    .push(("current_term"@, crate::trace_json::number_json(current_term)))
                    .push(("voted_for"@, crate::trace_json::optional_id_json(voted_for))),
            ).plain(below));
        },
        PersistView::Append(entries) => {
            reveal_strlit("Append");
            assert("Append"@.len() == 6);
            lemma_entries(entries, below);
        },
        PersistView::TruncateFrom(index) => {
            reveal_strlit("TruncateFrom");
            assert("TruncateFrom"@.len() == 12);
            assert(crate::trace_json::number_json(index).plain(below));
        },
        PersistView::Snapshot(s) => {
            reveal_strlit("Snapshot");
            assert("Snapshot"@.len() == 8);
            lemma_snapshot(s, below);
        },
        PersistView::Compact(id) => {
            reveal_strlit("Compact");
            assert("Compact"@.len() == 7);
            lemma_log_id(id, below);
        },
        PersistView::ResetLog(id) => {
            reveal_strlit("ResetLog");
            assert("ResetLog"@.len() == 8);
            lemma_log_id(id, below);
        },
    }
}

proof fn lemma_refusal(r: ClientResult, levels: nat)
    requires
        levels >= 2,
    ensures
        crate::trace_json::refusal_json(r).plain(levels),
{
    lemma_reserved();
    let below = (levels - 1) as nat;
    match r {
        ClientResult::NotLeader { leader } => {
            reveal_strlit("NotLeader");
            assert("NotLeader"@.len() == 9);
            let inner = (levels - 2) as nat;
            reveal_strlit("leader");
            assert("leader"@.len() == 6);
            assert(crate::trace_json::optional_id_json(leader).plain(inner));
            assert(Json::Object(
                crate::trace_json::fields()
                    .push(("leader"@, crate::trace_json::optional_id_json(leader))),
            ).plain(below));
        },
        ClientResult::ChangeInProgress => {},
    }
}

proof fn lemma_output(output: OutputView, levels: nat)
    requires
        levels >= 9,
    ensures
        crate::trace_json::output_json(output).plain(levels),
{
    lemma_reserved();
    let below = (levels - 1) as nat;
    match output {
        OutputView::Persist(op) => {
            reveal_strlit("Persist");
            assert("Persist"@.len() == 7);
            lemma_persist(op, below);
        },
        OutputView::Send { to, msg } => {
            reveal_strlit("Send");
            assert("Send"@.len() == 4);
            let inner = (levels - 2) as nat;
            reveal_strlit("to");
            reveal_strlit("msg");
            assert("to"@.len() == 2);
            assert("msg"@.len() == 3);
            assert(crate::trace_json::id_json(to).plain(inner));
            lemma_message(msg, inner);
            assert(Json::Object(
                crate::trace_json::fields()
                    .push(("to"@, crate::trace_json::id_json(to)))
                    .push(("msg"@, crate::trace_json::message_json(msg))),
            ).plain(below));
        },
        OutputView::Apply { index, term, payload, client, respond } => {
            reveal_strlit("Apply");
            assert("Apply"@.len() == 5);
            let inner = (levels - 2) as nat;
            reveal_strlit("index");
            reveal_strlit("term");
            reveal_strlit("payload");
            reveal_strlit("client");
            reveal_strlit("respond");
            assert("index"@.len() == 5);
            assert("term"@.len() == 4);
            assert("payload"@.len() == 7);
            assert("client"@.len() == 6);
            assert("respond"@.len() == 7);
            assert("payload"@[0] != "respond"@[0]);
            assert(crate::trace_json::number_json(index).plain(inner));
            assert(crate::trace_json::number_json(term).plain(inner));
            lemma_payload(payload, inner);
            lemma_client(client, inner);
            assert(Json::Bool(respond).plain(inner));
            assert(Json::Object(
                crate::trace_json::fields()
                    .push(("index"@, crate::trace_json::number_json(index)))
                    .push(("term"@, crate::trace_json::number_json(term)))
                    .push(("payload"@, crate::trace_json::payload_json(payload)))
                    .push(("client"@, crate::trace_json::client_json(client)))
                    .push(("respond"@, Json::Bool(respond))),
            ).plain(below));
        },
        OutputView::ServeRead { client, seq, command, read_index } => {
            reveal_strlit("ServeRead");
            assert("ServeRead"@.len() == 9);
            let inner = (levels - 2) as nat;
            reveal_strlit("client");
            reveal_strlit("seq");
            reveal_strlit("command");
            reveal_strlit("read_index");
            assert("client"@.len() == 6);
            assert("seq"@.len() == 3);
            assert("command"@.len() == 7);
            assert("read_index"@.len() == 10);
            assert(crate::trace_json::id_json(client).plain(inner));
            assert(crate::trace_json::number_json(seq).plain(inner));
            lemma_bytes(command, inner);
            assert(crate::trace_json::number_json(read_index).plain(inner));
            assert(Json::Object(
                crate::trace_json::fields()
                    .push(("client"@, crate::trace_json::id_json(client)))
                    .push(("seq"@, crate::trace_json::number_json(seq)))
                    .push(("command"@, crate::trace_json::bytes_json(command)))
                    .push(("read_index"@, crate::trace_json::number_json(read_index))),
            ).plain(below));
        },
        OutputView::RestoreSnapshot { snapshot } => {
            reveal_strlit("RestoreSnapshot");
            assert("RestoreSnapshot"@.len() == 15);
            let inner = (levels - 2) as nat;
            reveal_strlit("snapshot");
            assert("snapshot"@.len() == 8);
            lemma_snapshot(snapshot, inner);
            assert(Json::Object(
                crate::trace_json::fields()
                    .push(("snapshot"@, crate::trace_json::snapshot_json(snapshot))),
            ).plain(below));
        },
        OutputView::ClientResponse { client, seq, result } => {
            reveal_strlit("ClientResponse");
            assert("ClientResponse"@.len() == 14);
            let inner = (levels - 2) as nat;
            reveal_strlit("client");
            reveal_strlit("seq");
            reveal_strlit("result");
            assert("client"@.len() == 6);
            assert("seq"@.len() == 3);
            assert("result"@.len() == 6);
            assert("client"@[0] != "result"@[0]);
            assert(crate::trace_json::id_json(client).plain(inner));
            assert(crate::trace_json::number_json(seq).plain(inner));
            lemma_refusal(result, inner);
            assert(Json::Object(
                crate::trace_json::fields()
                    .push(("client"@, crate::trace_json::id_json(client)))
                    .push(("seq"@, crate::trace_json::number_json(seq)))
                    .push(("result"@, crate::trace_json::refusal_json(result))),
            ).plain(below));
        },
    }
}

proof fn lemma_fault(f: FaultView, levels: nat)
    requires
        levels >= 3,
    ensures
        crate::trace_json::fault_json(f).plain(levels),
{
    lemma_reserved();
    let below = (levels - 1) as nat;
    match f {
        FaultView::Partition { a, b } => {
            reveal_strlit("Partition");
            assert("Partition"@.len() == 9);
            let inner = (levels - 2) as nat;
            reveal_strlit("a");
            reveal_strlit("b");
            assert("a"@.len() == 1);
            assert("b"@.len() == 1);
            assert("a"@[0] != "b"@[0]);
            lemma_ids(a, inner);
            lemma_ids(b, inner);
            assert(Json::Object(
                crate::trace_json::fields()
                    .push(("a"@, crate::trace_json::ids_json(a)))
                    .push(("b"@, crate::trace_json::ids_json(b))),
            ).plain(below));
        },
        FaultView::AsymmetricCut { from, to } => {
            reveal_strlit("AsymmetricCut");
            assert("AsymmetricCut"@.len() == 13);
            let inner = (levels - 2) as nat;
            reveal_strlit("from");
            reveal_strlit("to");
            assert("from"@.len() == 4);
            assert("to"@.len() == 2);
            assert(crate::trace_json::id_json(from).plain(inner));
            assert(crate::trace_json::id_json(to).plain(inner));
            assert(Json::Object(
                crate::trace_json::fields()
                    .push(("from"@, crate::trace_json::id_json(from)))
                    .push(("to"@, crate::trace_json::id_json(to))),
            ).plain(below));
        },
        FaultView::Isolate { node } => {
            reveal_strlit("Isolate");
            assert("Isolate"@.len() == 7);
            let inner = (levels - 2) as nat;
            reveal_strlit("node");
            assert("node"@.len() == 4);
            assert(crate::trace_json::id_json(node).plain(inner));
            assert(Json::Object(
                crate::trace_json::fields()
                    .push(("node"@, crate::trace_json::id_json(node))),
            ).plain(below));
        },
        FaultView::Heal => {},
        FaultView::Crash { node } => {
            reveal_strlit("Crash");
            assert("Crash"@.len() == 5);
            let inner = (levels - 2) as nat;
            reveal_strlit("node");
            assert("node"@.len() == 4);
            assert(crate::trace_json::id_json(node).plain(inner));
            assert(Json::Object(
                crate::trace_json::fields()
                    .push(("node"@, crate::trace_json::id_json(node))),
            ).plain(below));
        },
        FaultView::Restart { node } => {
            reveal_strlit("Restart");
            assert("Restart"@.len() == 7);
            let inner = (levels - 2) as nat;
            reveal_strlit("node");
            assert("node"@.len() == 4);
            assert(crate::trace_json::id_json(node).plain(inner));
            assert(Json::Object(
                crate::trace_json::fields()
                    .push(("node"@, crate::trace_json::id_json(node))),
            ).plain(below));
        },
        FaultView::Pause { node, ticks } => {
            reveal_strlit("Pause");
            assert("Pause"@.len() == 5);
            let inner = (levels - 2) as nat;
            reveal_strlit("node");
            reveal_strlit("ticks");
            assert("node"@.len() == 4);
            assert("ticks"@.len() == 5);
            assert(crate::trace_json::id_json(node).plain(inner));
            assert(crate::trace_json::number_json(ticks).plain(inner));
            assert(Json::Object(
                crate::trace_json::fields()
                    .push(("node"@, crate::trace_json::id_json(node)))
                    .push(("ticks"@, crate::trace_json::number_json(ticks))),
            ).plain(below));
        },
    }
}

proof fn lemma_kind(k: KindView, levels: nat)
    requires
        levels >= 10,
    ensures
        crate::trace_json::kind_json(k).plain(levels),
{
    lemma_reserved();
    let below = (levels - 1) as nat;
    match k {
        KindView::In(input) => {
            reveal_strlit("In");
            assert("In"@.len() == 2);
            lemma_input(input, below);
        },
        KindView::Out(output) => {
            reveal_strlit("Out");
            assert("Out"@.len() == 3);
            lemma_output(output, below);
        },
        KindView::Dropped { to } => {
            reveal_strlit("Dropped");
            assert("Dropped"@.len() == 7);
            let inner = (levels - 2) as nat;
            reveal_strlit("to");
            assert("to"@.len() == 2);
            assert(crate::trace_json::id_json(to).plain(inner));
            assert(Json::Object(
                crate::trace_json::fields()
                    .push(("to"@, crate::trace_json::id_json(to))),
            ).plain(below));
        },
        KindView::Duplicated { to } => {
            reveal_strlit("Duplicated");
            assert("Duplicated"@.len() == 10);
            let inner = (levels - 2) as nat;
            reveal_strlit("to");
            assert("to"@.len() == 2);
            assert(crate::trace_json::id_json(to).plain(inner));
            assert(Json::Object(
                crate::trace_json::fields()
                    .push(("to"@, crate::trace_json::id_json(to))),
            ).plain(below));
        },
        KindView::Partitioned { to } => {
            reveal_strlit("Partitioned");
            assert("Partitioned"@.len() == 11);
            let inner = (levels - 2) as nat;
            reveal_strlit("to");
            assert("to"@.len() == 2);
            assert(crate::trace_json::id_json(to).plain(inner));
            assert(Json::Object(
                crate::trace_json::fields()
                    .push(("to"@, crate::trace_json::id_json(to))),
            ).plain(below));
        },
        KindView::LostToCrash { from } => {
            reveal_strlit("LostToCrash");
            assert("LostToCrash"@.len() == 11);
            let inner = (levels - 2) as nat;
            reveal_strlit("from");
            assert("from"@.len() == 4);
            assert(crate::trace_json::id_json(from).plain(inner));
            assert(Json::Object(
                crate::trace_json::fields()
                    .push(("from"@, crate::trace_json::id_json(from))),
            ).plain(below));
        },
        KindView::SnapshotInstalled { through, bytes } => {
            reveal_strlit("SnapshotInstalled");
            assert("SnapshotInstalled"@.len() == 17);
            let inner = (levels - 2) as nat;
            reveal_strlit("through");
            reveal_strlit("bytes");
            assert("through"@.len() == 7);
            assert("bytes"@.len() == 5);
            assert(crate::trace_json::number_json(through).plain(inner));
            assert(Json::Number(bytes as nat).plain(inner));
            assert(Json::Object(
                crate::trace_json::fields()
                    .push(("through"@, crate::trace_json::number_json(through)))
                    .push(("bytes"@, Json::Number(bytes as nat))),
            ).plain(below));
        },
        KindView::Crashed => {},
        KindView::TornStep => {},
        KindView::Restarted { current_term, voted_for, last_index } => {
            reveal_strlit("Restarted");
            assert("Restarted"@.len() == 9);
            let inner = (levels - 2) as nat;
            reveal_strlit("current_term");
            reveal_strlit("voted_for");
            reveal_strlit("last_index");
            assert("current_term"@.len() == 12);
            assert("voted_for"@.len() == 9);
            assert("last_index"@.len() == 10);
            assert(crate::trace_json::number_json(current_term).plain(inner));
            assert(crate::trace_json::optional_id_json(voted_for).plain(inner));
            assert(crate::trace_json::number_json(last_index).plain(inner));
            assert(Json::Object(
                crate::trace_json::fields()
                    .push(("current_term"@, crate::trace_json::number_json(current_term)))
                    .push(("voted_for"@, crate::trace_json::optional_id_json(voted_for)))
                    .push(("last_index"@, crate::trace_json::number_json(last_index))),
            ).plain(below));
        },
        KindView::Fault { fault } => {
            reveal_strlit("Fault");
            assert("Fault"@.len() == 5);
            let inner = (levels - 2) as nat;
            reveal_strlit("fault");
            assert("fault"@.len() == 5);
            lemma_fault(fault, inner);
            assert(Json::Object(
                crate::trace_json::fields()
                    .push(("fault"@, crate::trace_json::fault_json(fault))),
            ).plain(below));
        },
        KindView::MembershipChange { voters } => {
            reveal_strlit("MembershipChange");
            assert("MembershipChange"@.len() == 16);
            let inner = (levels - 2) as nat;
            reveal_strlit("voters");
            assert("voters"@.len() == 6);
            lemma_ids(voters, inner);
            assert(Json::Object(
                crate::trace_json::fields()
                    .push(("voters"@, crate::trace_json::ids_json(voters))),
            ).plain(below));
        },
        KindView::ReadServed { read_index, result } => {
            reveal_strlit("ReadServed");
            assert("ReadServed"@.len() == 10);
            let inner = (levels - 2) as nat;
            reveal_strlit("read_index");
            reveal_strlit("result");
            assert("read_index"@.len() == 10);
            assert("result"@.len() == 6);
            assert(crate::trace_json::number_json(read_index).plain(inner));
            lemma_result(result, inner);
            assert(Json::Object(
                crate::trace_json::fields()
                    .push(("read_index"@, crate::trace_json::number_json(read_index)))
                    .push(("result"@, result.json())),
            ).plain(below));
        },
        KindView::Applied { index, term, command, result } => {
            reveal_strlit("Applied");
            assert("Applied"@.len() == 7);
            let inner = (levels - 2) as nat;
            reveal_strlit("index");
            reveal_strlit("term");
            reveal_strlit("command");
            reveal_strlit("result");
            assert("index"@.len() == 5);
            assert("term"@.len() == 4);
            assert("command"@.len() == 7);
            assert("result"@.len() == 6);
            assert(crate::trace_json::number_json(index).plain(inner));
            assert(crate::trace_json::number_json(term).plain(inner));
            assert(Json::Null.plain(inner));
            if command is Some {
                lemma_command(command->0, inner);
            }
            if result is Some {
                lemma_result(result->0, inner);
            }
            assert(Json::Object(
                crate::trace_json::fields()
                    .push(("index"@, crate::trace_json::number_json(index)))
                    .push(("term"@, crate::trace_json::number_json(term)))
                    .push(("command"@, crate::trace_json::optional_command_json(command)))
                    .push(("result"@, crate::trace_json::optional_result_json(result))),
            ).plain(below));
        },
    }
}

/// A trace's JSON is a plain document.
pub proof fn law_traces_are_plain(records: Seq<RecordView>, levels: nat)
    requires
        levels >= 12,
    ensures
        crate::trace_json::records_json(records).plain(levels),
{
    let below = (levels - 1) as nat;
    assert forall|i: int| 0 <= i < records.len() implies crate::trace_json::record_json(
        #[trigger] records[i],
    ).plain(below) by {
        lemma_record(records[i], below);
    }
}

} // verus!
