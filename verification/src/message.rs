//! Raft RPCs.
//!
//! Every message carries the sender's term, because the very first thing any
//! receiver does is compare terms. Requests and responses are separate variants
//! of one enum so that the network can treat them uniformly.
use crate::config::ConfigView;
use crate::log::{copy_entries, EntryView};
use crate::{ClusterConfig, Index, LogEntry, NodeId, Term};
use vstd::prelude::*;

verus! {

#[derive(Debug, PartialEq, Eq)]
pub enum RaftMessage {
    RequestVote(RequestVoteReq),
    RequestVoteResp(RequestVoteResp),
    AppendEntries(AppendEntriesReq),
    AppendEntriesResp(AppendEntriesResp),
    InstallSnapshot(InstallSnapshotReq),
    InstallSnapshotResp(InstallSnapshotResp),
}

/// A message as a mathematical value.
pub enum MessageView {
    RequestVote(RequestVoteReq),
    RequestVoteResp(RequestVoteResp),
    AppendEntries(AppendView),
    AppendEntriesResp(AppendEntriesResp),
    InstallSnapshot(InstallView),
    InstallSnapshotResp(InstallSnapshotResp),
}

impl View for RaftMessage {
    type V = MessageView;

    open spec fn view(&self) -> MessageView {
        match *self {
            RaftMessage::RequestVote(m) => MessageView::RequestVote(m),
            RaftMessage::RequestVoteResp(m) => MessageView::RequestVoteResp(m),
            RaftMessage::AppendEntries(m) => MessageView::AppendEntries(m@),
            RaftMessage::AppendEntriesResp(m) => MessageView::AppendEntriesResp(m),
            RaftMessage::InstallSnapshot(m) => MessageView::InstallSnapshot(m@),
            RaftMessage::InstallSnapshotResp(m) => MessageView::InstallSnapshotResp(m),
        }
    }
}

impl MessageView {
    pub open spec fn term(self) -> u64 {
        match self {
            MessageView::RequestVote(m) => m.term,
            MessageView::RequestVoteResp(m) => m.term,
            MessageView::AppendEntries(m) => m.term,
            MessageView::AppendEntriesResp(m) => m.term,
            MessageView::InstallSnapshot(m) => m.term,
            MessageView::InstallSnapshotResp(m) => m.term,
        }
    }

    pub open spec fn kind(self) -> Seq<char> {
        match self {
            MessageView::RequestVote(_) => "RequestVote"@,
            MessageView::RequestVoteResp(_) => "RequestVoteResp"@,
            MessageView::AppendEntries(_) => "AppendEntries"@,
            MessageView::AppendEntriesResp(_) => "AppendEntriesResp"@,
            MessageView::InstallSnapshot(_) => "InstallSnapshot"@,
            MessageView::InstallSnapshotResp(_) => "InstallSnapshotResp"@,
        }
    }

    pub open spec fn is_request(self) -> bool {
        self is RequestVote || self is AppendEntries || self is InstallSnapshot
    }
}

impl Clone for RaftMessage {
    fn clone(&self) -> (r: Self)
        ensures
            r@ == self@,
    {
        match self {
            RaftMessage::RequestVote(m) => RaftMessage::RequestVote(*m),
            RaftMessage::RequestVoteResp(m) => RaftMessage::RequestVoteResp(*m),
            RaftMessage::AppendEntries(m) => RaftMessage::AppendEntries(m.clone()),
            RaftMessage::AppendEntriesResp(m) => RaftMessage::AppendEntriesResp(*m),
            RaftMessage::InstallSnapshot(m) => RaftMessage::InstallSnapshot(m.clone()),
            RaftMessage::InstallSnapshotResp(m) => RaftMessage::InstallSnapshotResp(*m),
        }
    }
}

impl RaftMessage {
    pub fn term(&self) -> (r: Term)
        ensures
            r == self@.term(),
    {
        match self {
            RaftMessage::RequestVote(m) => m.term,
            RaftMessage::RequestVoteResp(m) => m.term,
            RaftMessage::AppendEntries(m) => m.term,
            RaftMessage::AppendEntriesResp(m) => m.term,
            RaftMessage::InstallSnapshot(m) => m.term,
            RaftMessage::InstallSnapshotResp(m) => m.term,
        }
    }

    /// Short label for traces.
    pub fn kind(&self) -> (r: &'static str)
        ensures
            r@ == self@.kind(),
    {
        match self {
            RaftMessage::RequestVote(_) => "RequestVote",
            RaftMessage::RequestVoteResp(_) => "RequestVoteResp",
            RaftMessage::AppendEntries(_) => "AppendEntries",
            RaftMessage::AppendEntriesResp(_) => "AppendEntriesResp",
            RaftMessage::InstallSnapshot(_) => "InstallSnapshot",
            RaftMessage::InstallSnapshotResp(_) => "InstallSnapshotResp",
        }
    }

    /// Whether this is a request (something a peer must answer) as opposed to a
    /// response. Stale requests get a reply carrying our term; stale responses
    /// are simply dropped.
    pub fn is_request(&self) -> (r: bool)
        ensures
            r == self@.is_request(),
    {
        match self {
            RaftMessage::RequestVote(_) => true,
            RaftMessage::AppendEntries(_) => true,
            RaftMessage::InstallSnapshot(_) => true,
            _ => false,
        }
    }
}

#[derive(Clone, Copy, Debug, PartialEq, Eq, Structural)]
pub struct RequestVoteReq {
    pub term: Term,
    pub candidate_id: NodeId,
    /// Last entry in the candidate's log. The voter applies the election
    /// restriction to these two fields.
    pub last_log_index: Index,
    pub last_log_term: Term,
}

#[derive(Clone, Copy, Debug, PartialEq, Eq, Structural)]
pub struct RequestVoteResp {
    pub term: Term,
    pub vote_granted: bool,
}

#[derive(Debug, PartialEq, Eq)]
pub struct AppendEntriesReq {
    pub term: Term,
    pub leader_id: NodeId,
    /// The entry immediately preceding `entries`. The follower accepts only if
    /// it holds an entry at this index with this term.
    pub prev_log_index: Index,
    pub prev_log_term: Term,
    pub entries: Vec<LogEntry>,
    pub leader_commit: Index,
    /// Identifies a read confirmation round, or 0 for an ordinary append.
    /// Echoed back so the leader can tell which round an acknowledgement
    /// belongs to.
    pub read_round: u64,
}

pub struct AppendView {
    pub term: u64,
    pub leader_id: u32,
    pub prev_log_index: u64,
    pub prev_log_term: u64,
    pub entries: Seq<EntryView>,
    pub leader_commit: u64,
    pub read_round: u64,
}

impl View for AppendEntriesReq {
    type V = AppendView;

    open spec fn view(&self) -> AppendView {
        AppendView {
            term: self.term,
            leader_id: self.leader_id,
            prev_log_index: self.prev_log_index,
            prev_log_term: self.prev_log_term,
            entries: crate::log::entries_view(self.entries@),
            leader_commit: self.leader_commit,
            read_round: self.read_round,
        }
    }
}

impl Clone for AppendEntriesReq {
    fn clone(&self) -> (r: Self)
        ensures
            r@ == self@,
    {
        let entries = copy_entries(self.entries.as_slice(), 0, self.entries.len());
        assert(crate::log::entries_view(entries@) =~= crate::log::entries_view(self.entries@));
        AppendEntriesReq {
            term: self.term,
            leader_id: self.leader_id,
            prev_log_index: self.prev_log_index,
            prev_log_term: self.prev_log_term,
            entries,
            leader_commit: self.leader_commit,
            read_round: self.read_round,
        }
    }
}

#[derive(Clone, Copy, Debug, PartialEq, Eq, Structural)]
pub struct AppendEntriesResp {
    pub term: Term,
    pub success: bool,
    /// On success, the highest index the follower now agrees on. Carried in the
    /// response so that a stale duplicate can be applied with a `max` and
    /// becomes a no-op.
    pub match_index: Index,
    /// On failure, where the leader should probe next.
    pub conflict: Option<ConflictHint>,
    /// The `read_round` this is answering.
    pub read_round: u64,
    /// The `prev_log_index` this is a response to. Echoing the probe makes
    /// rejections idempotent: only the one answering the outstanding probe
    /// counts.
    pub probed_index: Index,
}

/// A follower's explanation of *why* the consistency check failed, so the
/// leader can skip an entire conflicting term in one round trip.
#[derive(Clone, Copy, Debug, PartialEq, Eq, Structural)]
pub struct ConflictHint {
    /// The term of the conflicting entry, or `None` if the follower's log is
    /// simply too short to have an entry at `prev_log_index` at all.
    pub term: Option<Term>,
    /// If `term` is set: the first index the follower holds for that term.
    /// If `term` is `None`: one past the end of the follower's log.
    pub first_index: Index,
}

/// Sent when a follower has fallen so far behind that the entries it needs
/// have already been compacted away.
#[derive(Debug, PartialEq, Eq)]
pub struct InstallSnapshotReq {
    pub term: Term,
    pub leader_id: NodeId,
    /// The last entry the snapshot accounts for.
    pub last_included_index: Index,
    pub last_included_term: Term,
    /// The membership in force at the snapshot boundary.
    pub config: ClusterConfig,
    /// Opaque state machine bytes, sent whole.
    pub data: Vec<u8>,
}

pub struct InstallView {
    pub term: u64,
    pub leader_id: u32,
    pub last_included_index: u64,
    pub last_included_term: u64,
    pub config: ConfigView,
    pub data: Seq<u8>,
}

impl View for InstallSnapshotReq {
    type V = InstallView;

    open spec fn view(&self) -> InstallView {
        InstallView {
            term: self.term,
            leader_id: self.leader_id,
            last_included_index: self.last_included_index,
            last_included_term: self.last_included_term,
            config: self.config@,
            data: self.data@,
        }
    }
}

impl Clone for InstallSnapshotReq {
    fn clone(&self) -> (r: Self)
        ensures
            r@ == self@,
    {
        InstallSnapshotReq {
            term: self.term,
            leader_id: self.leader_id,
            last_included_index: self.last_included_index,
            last_included_term: self.last_included_term,
            config: self.config.clone(),
            data: crate::copy_bytes(&self.data),
        }
    }
}

#[derive(Clone, Copy, Debug, PartialEq, Eq, Structural)]
pub struct InstallSnapshotResp {
    pub term: Term,
    /// What the follower now holds through: normally the snapshot's index, but
    /// its own higher watermark if it was already ahead.
    pub last_included_index: Index,
}

} // verus!
