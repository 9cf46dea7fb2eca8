//! The Raft node: a pure state machine.
//!
//! `step(input, now)` is the entire interface. The node holds no sockets, no
//! timers, no clock and no entropy source of its own. It is handed an input and
//! the current virtual time, and it returns a list of things it wants the
//! environment to do. What it computes is [`crate::model`], exactly.
use crate::log::copy_entries;
use crate::model::{
    InputView, NodeView, OutView, OutputView, PersistView, ReadView, RequestView, Turn,
};
use crate::order::ids_in_order;
use crate::{
    AppendEntriesReq, AppendEntriesResp, ClientId, ClusterConfig, Command, ConflictHint,
    EntryPayload, Index, InstallSnapshotReq, InstallSnapshotResp, Log, LogEntry, LogId, NodeId,
    RaftMessage, RequestVoteReq, RequestVoteResp, Rng, Snapshot, Term, Tick,
};
use std::collections::{BTreeMap, BTreeSet};
use vstd::prelude::*;

verus! {

broadcast use {vstd::laws_cmp::group_laws_cmp, vstd::std_specs::btree::group_btree_axioms};

// ---------------------------------------------------------------------------
// Inputs and outputs
// ---------------------------------------------------------------------------

/// Everything that can happen *to* a node.
#[derive(Debug, PartialEq, Eq)]
pub enum Input {
    /// A message arrived from a peer.
    Message { from: NodeId, msg: RaftMessage },
    /// Virtual time has advanced; check timers.
    Tick,
    /// A client submitted a command.
    ClientRequest(ClientRequest),
    /// Change the cluster membership to this voter set. The leader turns it
    /// into a joint configuration first; the transition to the new one happens
    /// on its own once the joint one commits.
    ChangeMembership(BTreeSet<NodeId>),
    /// The application has captured its state machine through
    /// `snapshot.last_included` and the log prefix can be discarded.
    Compact(Snapshot),
}

impl View for Input {
    type V = InputView;

    open spec fn view(&self) -> InputView {
        match *self {
            Input::Message { from, msg } => InputView::Message { from, msg: msg@ },
            Input::Tick => InputView::Tick,
            Input::ClientRequest(req) => InputView::ClientRequest(req@),
            Input::ChangeMembership(voters) => InputView::ChangeMembership(voters@),
            Input::Compact(snapshot) => InputView::Compact(snapshot@),
        }
    }
}

#[derive(Debug, PartialEq, Eq)]
pub struct ClientRequest {
    pub client: ClientId,
    /// Per-client monotonic sequence number.
    pub seq: u64,
    pub command: Command,
    /// Whether this command only reads. Commands are opaque bytes, so the
    /// application says. A read-only request goes through a leadership
    /// confirmation instead of the log.
    pub read_only: bool,
}

impl View for ClientRequest {
    type V = RequestView;

    open spec fn view(&self) -> RequestView {
        RequestView {
            client: self.client,
            seq: self.seq,
            command: self.command@,
            read_only: self.read_only,
        }
    }
}

impl Clone for Input {
    fn clone(&self) -> (r: Self)
        ensures
            r@ == self@,
    {
        match self {
            Input::Message { from, msg } => Input::Message { from: *from, msg: msg.clone() },
            Input::Tick => Input::Tick,
            Input::ClientRequest(req) => Input::ClientRequest(req.clone()),
            Input::ChangeMembership(voters) => Input::ChangeMembership(voters.clone()),
            Input::Compact(snapshot) => Input::Compact(snapshot.clone()),
        }
    }
}

impl Clone for ClientRequest {
    fn clone(&self) -> (r: Self)
        ensures
            r@ == self@,
    {
        ClientRequest {
            client: self.client,
            seq: self.seq,
            command: self.command.clone(),
            read_only: self.read_only,
        }
    }
}

/// Everything a node can ask its environment to do.
///
/// Within one `step`, all `Persist` outputs come first, then `Send`, then the
/// rest. The environment must make every `Persist` durable before it delivers
/// any `Send` from the same step: otherwise a node could grant a vote, crash,
/// forget, and vote again in the same term.
#[allow(inconsistent_fields)]
#[derive(Debug, PartialEq, Eq)]
pub enum Output {
    /// Make this durable before anything else in this step becomes visible.
    Persist(PersistOp),
    /// Deliver this message to `to`. Best effort: the node assumes nothing.
    Send { to: NodeId, msg: RaftMessage },
    /// This committed entry may now be applied to the replicated state machine.
    Apply {
        index: Index,
        term: Term,
        payload: EntryPayload,
        /// The client request that produced this entry, if any.
        client: Option<(ClientId, u64)>,
        /// Whether this node believes it owes the client an answer: true only
        /// on a leader.
        respond: bool,
    },
    /// Serve this read-only command from the state machine, now.
    ServeRead { client: ClientId, seq: u64, command: Command, read_index: Index },
    /// Replace the state machine wholesale with this snapshot.
    RestoreSnapshot { snapshot: Snapshot },
    /// A direct answer to a client that did not require replication.
    ClientResponse { client: ClientId, seq: u64, result: ClientResult },
}

impl View for Output {
    type V = OutputView;

    open spec fn view(&self) -> OutputView {
        match *self {
            Output::Persist(op) => OutputView::Persist(op@),
            Output::Send { to, msg } => OutputView::Send { to, msg: msg@ },
            Output::Apply { index, term, payload, client, respond } => OutputView::Apply {
                index,
                term,
                payload: payload@,
                client,
                respond,
            },
            Output::ServeRead { client, seq, command, read_index } => OutputView::ServeRead {
                client,
                seq,
                command: command@,
                read_index,
            },
            Output::RestoreSnapshot { snapshot } => OutputView::RestoreSnapshot {
                snapshot: snapshot@,
            },
            Output::ClientResponse { client, seq, result } => OutputView::ClientResponse {
                client,
                seq,
                result,
            },
        }
    }
}

impl Clone for Output {
    fn clone(&self) -> (r: Self)
        ensures
            r@ == self@,
    {
        match self {
            Output::Persist(op) => Output::Persist(op.clone()),
            Output::Send { to, msg } => Output::Send { to: *to, msg: msg.clone() },
            Output::Apply { index, term, payload, client, respond } => Output::Apply {
                index: *index,
                term: *term,
                payload: payload.clone(),
                client: *client,
                respond: *respond,
            },
            Output::ServeRead { client, seq, command, read_index } => Output::ServeRead {
                client: *client,
                seq: *seq,
                command: command.clone(),
                read_index: *read_index,
            },
            Output::RestoreSnapshot { snapshot } => Output::RestoreSnapshot {
                snapshot: snapshot.clone(),
            },
            Output::ClientResponse { client, seq, result } => Output::ClientResponse {
                client: *client,
                seq: *seq,
                result: *result,
            },
        }
    }
}

impl Clone for PersistOp {
    fn clone(&self) -> (r: Self)
        ensures
            r@ == self@,
    {
        match self {
            PersistOp::HardState { current_term, voted_for } => PersistOp::HardState {
                current_term: *current_term,
                voted_for: *voted_for,
            },
            PersistOp::Append(entries) => {
                let copy = copy_entries(entries.as_slice(), 0, entries.len());
                assert(crate::log::entries_view(copy@) =~= crate::log::entries_view(entries@));
                PersistOp::Append(copy)
            },
            PersistOp::TruncateFrom(index) => PersistOp::TruncateFrom(*index),
            PersistOp::Snapshot(snapshot) => PersistOp::Snapshot(snapshot.clone()),
            PersistOp::Compact(through) => PersistOp::Compact(*through),
            PersistOp::ResetLog(through) => PersistOp::ResetLog(*through),
        }
    }
}

/// A list of outputs, each by its view.
pub open spec fn outputs_view(s: Seq<Output>) -> Seq<OutputView> {
    Seq::new(s.len(), |i: int| s[i]@)
}

/// An output that may be missing, as a list.
pub open spec fn optional_output(output: Option<Output>) -> Seq<OutputView> {
    match output {
        Some(o) => seq![o@],
        None => Seq::empty(),
    }
}

/// A durable-state mutation, as a delta.
#[derive(Debug, PartialEq, Eq)]
pub enum PersistOp {
    /// The two scalars that must survive a crash. Losing either can elect two
    /// leaders in one term.
    HardState { current_term: Term, voted_for: Option<NodeId> },
    /// Append entries to the durable log.
    Append(Vec<LogEntry>),
    /// Delete the entry at this index and everything after it.
    TruncateFrom(Index),
    /// Save the state machine snapshot. Always emitted before the compaction
    /// that relies on it, so a crash in between leaves the log merely
    /// un-trimmed.
    Snapshot(Snapshot),
    /// Discard the log prefix through this entry, remembering it.
    Compact(LogId),
    /// Discard the log entirely and restart it after this entry.
    ResetLog(LogId),
}

impl View for PersistOp {
    type V = PersistView;

    open spec fn view(&self) -> PersistView {
        match *self {
            PersistOp::HardState { current_term, voted_for } => PersistView::HardState {
                current_term,
                voted_for,
            },
            PersistOp::Append(entries) => PersistView::Append(
                crate::log::entries_view(entries@),
            ),
            PersistOp::TruncateFrom(index) => PersistView::TruncateFrom(index),
            PersistOp::Snapshot(snapshot) => PersistView::Snapshot(snapshot@),
            PersistOp::Compact(through) => PersistView::Compact(through),
            PersistOp::ResetLog(through) => PersistView::ResetLog(through),
        }
    }
}

#[derive(Clone, Copy, Debug, PartialEq, Eq, Structural)]
pub enum ClientResult {
    /// This node is not the leader. `leader` is a hint, possibly stale.
    NotLeader { leader: Option<NodeId> },
    /// A membership change is already in flight; only one is allowed at a time.
    ChangeInProgress,
}

/// Collects outputs and keeps them in the order in which they must take effect.
struct Outputs {
    persists: Vec<Output>,
    sends: Vec<Output>,
    effects: Vec<Output>,
}

impl View for Outputs {
    type V = OutView;

    closed spec fn view(&self) -> OutView {
        OutView {
            persists: outputs_view(self.persists@),
            sends: outputs_view(self.sends@),
            effects: outputs_view(self.effects@),
        }
    }
}

/// Append `more` to `all`.
fn extend_outputs(all: &mut Vec<Output>, more: Vec<Output>)
    ensures
        outputs_view(final(all)@) == outputs_view(old(all)@) + outputs_view(more@),
{
    let mut rest = more;
    all.append(&mut rest);
    assert(outputs_view(all@) =~= outputs_view(old(all)@) + outputs_view(more@));
}

impl Outputs {
    fn new() -> (r: Self)
        ensures
            r@ == Turn::begin(arbitrary()).out,
    {
        let r = Outputs { persists: Vec::new(), sends: Vec::new(), effects: Vec::new() };
        assert(outputs_view(Seq::<Output>::empty()) =~= Seq::<OutputView>::empty());
        r
    }

    fn persist(&mut self, op: PersistOp)
        ensures
            final(self)@ == (OutView {
                persists: old(self)@.persists.push(OutputView::Persist(op@)),
                ..old(self)@
            }),
    {
        self.persists.push(Output::Persist(op));
        assert(self@.persists =~= old(self)@.persists.push(OutputView::Persist(op@)));
    }

    fn send(&mut self, to: NodeId, msg: RaftMessage)
        ensures
            final(self)@ == (OutView {
                sends: old(self)@.sends.push(OutputView::Send { to, msg: msg@ }),
                ..old(self)@
            }),
    {
        self.sends.push(Output::Send { to, msg });
        assert(self@.sends =~= old(self)@.sends.push(OutputView::Send { to, msg: msg@ }));
    }

    fn effect(&mut self, out: Output)
        ensures
            final(self)@ == (OutView {
                effects: old(self)@.effects.push(out@),
                ..old(self)@
            }),
    {
        self.effects.push(out);
        assert(self@.effects =~= old(self)@.effects.push(out@));
    }

    /// Hard state before log writes: after a crash, the recovered term must be
    /// at least the term of every entry on disk.
    fn finish(self, hard_state: Option<Output>) -> (r: Vec<Output>)
        ensures
            outputs_view(r@) == optional_output(hard_state) + self@.persists + self@.sends
                + self@.effects,
    {
        let ghost start = optional_output(hard_state);
        let mut all: Vec<Output> = Vec::new();
        match hard_state {
            Some(h) => {
                all.push(h);
            },
            None => {},
        }
        assert(outputs_view(all@) =~= start);
        extend_outputs(&mut all, self.persists);
        extend_outputs(&mut all, self.sends);
        extend_outputs(&mut all, self.effects);
        all
    }
}

// ---------------------------------------------------------------------------
// The node
// ---------------------------------------------------------------------------

/// A read-only request waiting to be served.
#[derive(Debug)]
struct PendingRead {
    request: ClientRequest,
    /// The commit index when the request arrived. Only used by the
    /// `read_index_at_arrival` regression switch.
    arrival_index: Index,
    /// The commit index this read must see, assigned only once the leader
    /// actually knows what is committed.
    read_index: Option<Index>,
    /// The confirmation round this read is waiting on, started at the same
    /// moment `read_index` is assigned.
    round: Option<u64>,
    /// Who has acknowledged that round.
    acks: BTreeSet<NodeId>,
}

impl View for PendingRead {
    type V = ReadView;

    closed spec fn view(&self) -> ReadView {
        ReadView {
            request: self.request@,
            arrival_index: self.arrival_index,
            read_index: self.read_index,
            round: self.round,
            acks: self.acks@,
        }
    }
}

impl Clone for PendingRead {
    fn clone(&self) -> (r: Self)
        ensures
            r@ == self@,
    {
        PendingRead {
            request: self.request.clone(),
            arrival_index: self.arrival_index,
            read_index: self.read_index,
            round: self.round,
            acks: self.acks.clone(),
        }
    }
}

#[derive(Clone, Copy, Debug, PartialEq, Eq, Structural)]
pub enum Role {
    Follower,
    Candidate,
    Leader,
}

/// Deliberately broken behaviour, for validating the invariant checkers.
///
/// A checker that always says "OK" passes every test until the day it matters.
/// The only way to know the checkers work is to break the algorithm on purpose
/// and watch them fire. All default to `false`.
#[derive(Clone, Copy, Debug, PartialEq, Eq, Structural)]
pub struct BugSwitches {
    /// Commit any entry replicated on a majority, regardless of which term it
    /// came from.
    pub commit_prior_term_entries: bool,
    /// Ignore `voted_for` and grant a vote to every candidate that asks.
    pub vote_twice_per_term: bool,
    /// Take `leader_commit` at face value instead of capping it at the last
    /// entry this node actually holds.
    pub trust_leader_commit_blindly: bool,
    /// Never write the term and the vote to disk. Invisible until the node
    /// crashes.
    pub skip_hard_state_persistence: bool,
    /// Treat index 0 as the "before the log" anchor even after compaction.
    pub compaction_anchor_at_zero: bool,
    /// Skip reconciling the durable log against the durable snapshot on
    /// recovery.
    pub skip_snapshot_reconcile: bool,
    /// Capture a read's index when the request arrives, and resolve reads
    /// before applying entries rather than after.
    pub read_index_at_arrival: bool,
}

impl Default for BugSwitches {
    fn default() -> (r: Self)
        ensures
            r == BugSwitches::none(),
    {
        BugSwitches {
            commit_prior_term_entries: false,
            vote_twice_per_term: false,
            trust_leader_commit_blindly: false,
            skip_hard_state_persistence: false,
            compaction_anchor_at_zero: false,
            skip_snapshot_reconcile: false,
            read_index_at_arrival: false,
        }
    }
}

impl BugSwitches {
    /// Everything off.
    pub open spec fn none() -> BugSwitches {
        BugSwitches {
            commit_prior_term_entries: false,
            vote_twice_per_term: false,
            trust_leader_commit_blindly: false,
            skip_hard_state_persistence: false,
            compaction_anchor_at_zero: false,
            skip_snapshot_reconcile: false,
            read_index_at_arrival: false,
        }
    }
}

/// Timing parameters, in virtual ticks.
#[derive(Clone, Copy, Debug, PartialEq, Eq, Structural)]
pub struct RaftConfig {
    /// Election timeout is drawn uniformly from `[min, max)`. The spread is
    /// what resolves split votes.
    pub election_timeout_min: Tick,
    pub election_timeout_max: Tick,
    /// Must be comfortably shorter than `election_timeout_min`, or followers
    /// time out before the leader's heartbeat arrives.
    pub heartbeat_interval: Tick,
    /// Cap on entries per AppendEntries.
    pub max_entries_per_append: usize,
    /// Deliberate bugs, for checker validation. All off by default.
    pub bugs: BugSwitches,
}

impl RaftConfig {
    pub open spec fn standard() -> RaftConfig {
        RaftConfig {
            election_timeout_min: 150,
            election_timeout_max: 300,
            heartbeat_interval: 50,
            max_entries_per_append: 64,
            bugs: BugSwitches::none(),
        }
    }
}

impl Default for RaftConfig {
    fn default() -> (r: Self)
        ensures
            r == RaftConfig::standard(),
    {
        RaftConfig {
            election_timeout_min: 150,
            election_timeout_max: 300,
            heartbeat_interval: 50,
            max_entries_per_append: 64,
            bugs: BugSwitches::default(),
        }
    }
}

#[derive(Debug)]
pub struct RaftNode {
    id: NodeId,
    cluster: ClusterConfig,
    cfg: RaftConfig,
    // --- persistent state -------------------------------------------------
    current_term: Term,
    voted_for: Option<NodeId>,
    log: Log,
    // --- volatile state ---------------------------------------------------
    /// The most recent snapshot, kept so the leader can ship it to a follower
    /// whose entries have already been compacted away.
    snapshot: Option<Snapshot>,
    /// The membership in force below the log.
    base_config: ClusterConfig,
    /// Index of the log entry that produced the effective configuration, or the
    /// snapshot boundary when it came from `base_config`.
    config_index: Index,
    role: Role,
    commit_index: Index,
    last_applied: Index,
    leader_id: Option<NodeId>,
    // --- volatile state on candidates --------------------------------------
    votes_granted: BTreeSet<NodeId>,
    // --- reads --------------------------------------------------------------
    pending_reads: Vec<PendingRead>,
    /// Monotonic id for heartbeat confirmation rounds.
    read_round: u64,
    // --- volatile state on leaders ------------------------------------------
    next_index: BTreeMap<NodeId, Index>,
    match_index: BTreeMap<NodeId, Index>,
    // --- timers, in virtual ticks -------------------------------------------
    now: Tick,
    /// When this node last had contact with a leader it believes in.
    last_heard_from_leader: Tick,
    election_deadline: Tick,
    heartbeat_deadline: Tick,
    /// Set whenever the term or the vote changes during a step, so that the
    /// step emits exactly one hard-state write at the end.
    hard_state_dirty: bool,
    /// Election-timeout randomness, seeded from the run seed.
    rng: Rng,
}

spec fn reads_view(s: Seq<PendingRead>) -> Seq<ReadView> {
    Seq::new(s.len(), |i: int| s[i]@)
}

impl View for RaftNode {
    type V = NodeView;

    closed spec fn view(&self) -> NodeView {
        NodeView {
            id: self.id,
            cluster: self.cluster@,
            cfg: self.cfg,
            current_term: self.current_term,
            voted_for: self.voted_for,
            log: self.log@,
            snapshot: crate::snapshot::snapshot_view(self.snapshot),
            base_config: self.base_config@,
            config_index: self.config_index,
            role: self.role,
            commit_index: self.commit_index,
            last_applied: self.last_applied,
            leader_id: self.leader_id,
            votes_granted: self.votes_granted@,
            pending_reads: reads_view(self.pending_reads@),
            read_round: self.read_round,
            next_index: self.next_index@,
            match_index: self.match_index@,
            now: self.now,
            last_heard_from_leader: self.last_heard_from_leader,
            election_deadline: self.election_deadline,
            heartbeat_deadline: self.heartbeat_deadline,
            hard_state_dirty: self.hard_state_dirty,
            rng: self.rng@,
        }
    }
}

spec fn turn_of(node: RaftNode, out: Outputs) -> Turn {
    Turn { node: node@, out: out@ }
}

impl RaftNode {
    /// A follower in term 0 with an empty log.
    pub fn new(id: NodeId, cluster: ClusterConfig, cfg: RaftConfig, seed: u64, now: Tick) -> (r:
        Self)
        requires
            cfg.election_timeout_min < cfg.election_timeout_max,
            now + cfg.election_timeout_max <= u64::MAX,
            now + cfg.heartbeat_interval <= u64::MAX,
        ensures
            r@ == NodeView::fresh(id, cluster@, cfg, seed, now),
            r@.wf(),
    {
        let base_config = cluster.clone();
        let mut log = Log::new();
        log.set_zero_anchor_bug(cfg.bugs.compaction_anchor_at_zero);
        let mut node = RaftNode {
            id,
            cluster,
            cfg,
            current_term: 0,
            voted_for: None,
            log,
            snapshot: None,
            base_config,
            config_index: 0,
            role: Role::Follower,
            commit_index: 0,
            last_applied: 0,
            leader_id: None,
            votes_granted: BTreeSet::new(),
            pending_reads: Vec::new(),
            read_round: 0,
            next_index: BTreeMap::new(),
            match_index: BTreeMap::new(),
            now,
            last_heard_from_leader: 0,
            election_deadline: 0,
            heartbeat_deadline: 0,
            hard_state_dirty: false,
            rng: Rng::derive(seed, id as u64),
        };
        assert(reads_view(node.pending_reads@) =~= Seq::empty());
        node.reset_election_deadline();
        node
    }

    /// Rebuild a node from what survived a crash.
    ///
    /// The term, the vote and the log are persistent and come back; everything
    /// else is volatile and starts again from nothing. In particular the commit
    /// index returns to 0 (or to the snapshot boundary) even though entries
    /// genuinely are committed: the node relearns that from the leader.
    pub fn restore(
        id: NodeId,
        cluster: ClusterConfig,
        cfg: RaftConfig,
        seed: u64,
        now: Tick,
        current_term: Term,
        voted_for: Option<NodeId>,
        log: Log,
        snapshot: Option<Snapshot>,
    ) -> (r: Self)
        requires
            cfg.election_timeout_min < cfg.election_timeout_max,
            now + cfg.election_timeout_max <= u64::MAX,
            now + cfg.heartbeat_interval <= u64::MAX,
            log@.wf(),
            snapshot matches Some(s) ==> s@.last_included.index < u64::MAX,
        ensures
            r@ == NodeView::fresh(id, cluster@, cfg, seed, now).restored(
                current_term,
                voted_for,
                log@,
                crate::snapshot::snapshot_view(snapshot),
            ),
            r@.wf(),
    {
        let mut node = RaftNode::new(id, cluster, cfg, seed, now);
        node.current_term = current_term;
        node.voted_for = voted_for;
        node.log = log;
        match &snapshot {
            Some(snap) => {
                if !node.cfg.bugs.skip_snapshot_reconcile {
                    node.log.reconcile_with_snapshot(snap.last_included);
                }
                node.base_config = snap.config.clone();
                node.commit_index = snap.index();
                node.last_applied = snap.index();
            },
            None => {},
        }
        node.snapshot = snapshot;
        node.refresh_config();
        node
    }

    pub fn snapshot(&self) -> (r: Option<&Snapshot>)
        ensures
            r is Some == self@.snapshot is Some,
            r matches Some(s) ==> self@.snapshot == Some(s@),
    {
        self.snapshot.as_ref()
    }

    // --- read-only accessors ------------------------------------------------

    pub fn id(&self) -> (r: NodeId)
        ensures
            r == self@.id,
    {
        self.id
    }

    pub fn role(&self) -> (r: Role)
        ensures
            r == self@.role,
    {
        self.role
    }

    pub fn current_term(&self) -> (r: Term)
        ensures
            r == self@.current_term,
    {
        self.current_term
    }

    pub fn voted_for(&self) -> (r: Option<NodeId>)
        ensures
            r == self@.voted_for,
    {
        self.voted_for
    }

    pub fn commit_index(&self) -> (r: Index)
        ensures
            r == self@.commit_index,
    {
        self.commit_index
    }

    pub fn last_applied(&self) -> (r: Index)
        ensures
            r == self@.last_applied,
    {
        self.last_applied
    }

    pub fn leader_id(&self) -> (r: Option<NodeId>)
        ensures
            r == self@.leader_id,
    {
        self.leader_id
    }

    pub fn log(&self) -> (r: &Log)
        ensures
            r@ == self@.log,
    {
        &self.log
    }

    pub fn cluster(&self) -> (r: &ClusterConfig)
        ensures
            r@ == self@.cluster,
    {
        &self.cluster
    }

    /// Index of the entry that produced the effective configuration.
    pub fn config_index(&self) -> (r: Index)
        ensures
            r == self@.config_index,
    {
        self.config_index
    }

    pub fn is_joint(&self) -> (r: bool)
        ensures
            r == self@.cluster.is_joint(),
    {
        self.cluster.is_joint()
    }

    /// Reads waiting on leadership confirmation.
    pub fn pending_reads(&self) -> (r: usize)
        ensures
            r == self@.pending_reads.len(),
    {
        self.pending_reads.len()
    }

    pub fn match_index(&self) -> (r: &BTreeMap<NodeId, Index>)
        ensures
            r@ == self@.match_index,
    {
        &self.match_index
    }

    pub fn next_index(&self) -> (r: &BTreeMap<NodeId, Index>)
        ensures
            r@ == self@.next_index,
    {
        &self.next_index
    }

    /// The next virtual time at which this node has something to do. A tick
    /// before then is a no-op.
    pub fn next_deadline(&self) -> (r: Tick)
        ensures
            r == self@.next_deadline(),
    {
        match self.role {
            Role::Leader => self.heartbeat_deadline,
            Role::Follower | Role::Candidate => self.election_deadline,
        }
    }

    // --- the one entry point ------------------------------------------------

    /// Can this node take `input` at `now`? It cannot if time would run
    /// backwards, if a counter would leave its range, or if an append would
    /// leave a gap in the log.
    pub fn accepts(&self, input: &Input, now: Tick) -> (r: bool)
        requires
            self@.wf(),
        ensures
            r == self@.accepts(input@, now),
    {
        if now < self.now || now > u64::MAX - self.cfg.election_timeout_max || now > u64::MAX
            - self.cfg.heartbeat_interval || self.current_term == u64::MAX
            || self.log.last_index() > u64::MAX - 3 || self.read_round > u64::MAX - 3 {
            return false;
        }
        match input {
            Input::Message { from: _, msg } => match msg {
                RaftMessage::AppendEntries(req) => {
                    if req.term < self.current_term {
                        return true;
                    }
                    match self.log.term_at(req.prev_log_index) {
                        Some(t) if t == req.prev_log_term => self.log.can_accept(
                            req.entries.as_slice(),
                        ),
                        _ => true,
                    }
                },
                RaftMessage::AppendEntriesResp(resp) => resp.match_index < u64::MAX
                    && resp.probed_index < u64::MAX,
                RaftMessage::InstallSnapshot(req) => req.last_included_index < u64::MAX,
                RaftMessage::InstallSnapshotResp(resp) => resp.last_included_index < u64::MAX,
                RaftMessage::RequestVote(_) => true,
                RaftMessage::RequestVoteResp(_) => true,
            },
            _ => true,
        }
    }

    /// Take one input at virtual time `now`.
    pub fn step(&mut self, input: Input, now: Tick) -> (r: Vec<Output>)
        requires
            old(self)@.wf(),
            old(self)@.accepts(input@, now),
        ensures
            final(self)@ == old(self)@.stepped(input@, now),
            outputs_view(r@) == old(self)@.step_outputs(input@, now),
            final(self)@.wf(),
    {
        self.now = now;
        let mut out = Outputs::new();
        let ghost start = NodeView { now, ..old(self)@ };
        assert(turn_of(*self, out) =~= Turn::begin(start));
        self.on_input(input, &mut out);
        self.settle(&mut out);
        // One durable write per step, covering whatever the handlers changed.
        // Deliberate bug (off by default): it is simply not emitted.
        let hard_state = if self.hard_state_dirty && !self.cfg.bugs.skip_hard_state_persistence {
            Some(
                Output::Persist(
                    PersistOp::HardState {
                        current_term: self.current_term,
                        voted_for: self.voted_for,
                    },
                ),
            )
        } else {
            None
        };
        self.hard_state_dirty = false;
        out.finish(hard_state)
    }

    fn on_input(&mut self, input: Input, out: &mut Outputs)
        requires
            old(self)@.wf(),
            old(self)@.accepts(input@, old(self)@.now),
        ensures
            turn_of(*final(self), *final(out)) == turn_of(*old(self), *old(out)).on_input(input@),
            final(self)@.wf(),
            final(self)@.role == Role::Leader ==> final(self)@.room(1, 1),
            final(self)@.cfg == old(self)@.cfg,
    {
        reveal(Turn::on_input);
        match input {
            Input::Tick => self.on_tick(out),
            Input::Message { from, msg } => self.on_message(from, msg, out),
            Input::ClientRequest(req) => self.on_client_request(req, out),
            Input::Compact(snapshot) => self.on_compact(snapshot, out),
            Input::ChangeMembership(voters) => self.on_change_membership(voters, out),
        }
    }

    /// What follows every input.
    fn settle(&mut self, out: &mut Outputs)
        requires
            old(self)@.wf(),
            old(self)@.role == Role::Leader ==> old(self)@.room(1, 1),
        ensures
            turn_of(*final(self), *final(out)) == turn_of(*old(self), *old(out)).settle(),
            final(self)@.wf(),
            final(self)@.cfg == old(self)@.cfg,
    {
        reveal(Turn::settle);
        // Housekeeping that depends on what just committed: leaving a joint
        // configuration, and a departing leader stepping down.
        self.after_commit(out);
        // Applying is driven by the commit index regardless of which input
        // moved it. Outputs are delivered in order, so a read that becomes ready
        // in this step must be emitted behind the entries it waits for.
        //
        // Deliberate regression (off by default): the other way round.
        if self.cfg.bugs.read_index_at_arrival {
            self.resolve_reads(out);
            self.advance_apply(out);
        } else {
            self.advance_apply(out);
            self.resolve_reads(out);
        }
    }

    // --- timers -------------------------------------------------------------

    fn on_tick(&mut self, out: &mut Outputs)
        requires
            old(self)@.wf(),
            old(self)@.room(2, 3),
            old(self)@.current_term < u64::MAX,
        ensures
            turn_of(*final(self), *final(out)) == turn_of(*old(self), *old(out)).on_tick(),
            final(self)@.wf(),
            final(self)@.room(1, 1),
            final(self)@.cfg == old(self)@.cfg,
    {
        reveal(Turn::on_tick);
        match self.role {
            Role::Leader => {
                if self.now >= self.heartbeat_deadline {
                    self.heartbeat_deadline = self.now + self.cfg.heartbeat_interval;
                    self.last_heard_from_leader = self.now;
                    self.broadcast_for(0, out);
                }
            },
            Role::Follower | Role::Candidate => {
                if self.now >= self.election_deadline {
                    // A follower that hears nothing starts an election; a
                    // candidate that times out starts another one.
                    self.start_election(out);
                }
            },
        }
    }

    fn reset_election_deadline(&mut self)
        requires
            old(self)@.cfg.election_timeout_min < old(self)@.cfg.election_timeout_max,
            old(self)@.now + old(self)@.cfg.election_timeout_max <= u64::MAX,
        ensures
            final(self)@ == old(self)@.reset_election_deadline(),
    {
        let timeout: u64 = self.rng.gen_range(
            self.cfg.election_timeout_min,
            self.cfg.election_timeout_max,
        );
        self.election_deadline = self.now + timeout;
    }

    // --- role transitions ---------------------------------------------------

    fn become_follower(&mut self, term: Term, leader: Option<NodeId>)
        requires
            old(self)@.wf(),
        ensures
            final(self)@ == old(self)@.become_follower(term, leader),
            final(self)@.wf(),
    {
        if term > self.current_term {
            // A new term means our vote for the old term is irrelevant and we
            // have not voted in the new one.
            self.current_term = term;
            self.voted_for = None;
            self.hard_state_dirty = true;
            self.reset_election_deadline();
        }
        if self.role != Role::Follower {
            self.role = Role::Follower;
            self.reset_election_deadline();
        }
        self.leader_id = leader;
        self.votes_granted.clear();
        self.next_index.clear();
        self.match_index.clear();
        // A read confirmed by a leadership we no longer have is worthless. No
        // failure responses for entries appended while leader, either: those
        // may still commit under the next leader.
        self.pending_reads.clear();
        assert(reads_view(self.pending_reads@) =~= Seq::empty());
    }

    fn start_election(&mut self, out: &mut Outputs)
        requires
            old(self)@.wf(),
            old(self)@.room(2, 3),
            old(self)@.current_term < u64::MAX,
        ensures
            turn_of(*final(self), *final(out)) == turn_of(*old(self), *old(out)).start_election(),
            final(self)@.wf(),
            final(self)@.room(1, 1),
            final(self)@.cfg == old(self)@.cfg,
    {
        reveal(Turn::start_election);
        if !self.cluster.contains(self.id) {
            // A node that is not a voter must never campaign.
            self.reset_election_deadline();
            return;
        }
        self.current_term = self.current_term + 1;
        self.role = Role::Candidate;
        self.voted_for = Some(self.id);
        self.leader_id = None;
        self.votes_granted.clear();
        self.votes_granted.insert(self.id);
        self.hard_state_dirty = true;
        self.reset_election_deadline();

        let last = self.log.last_log_id();
        let voters = ids_in_order(&self.cluster.voters());
        let ghost candidate = turn_of(*self, *out);
        let mut i: usize = 0;
        while i < voters.len()
            invariant
                i <= voters.len(),
                last == self@.log.last_log_id(),
                self@ == candidate.node,
                turn_of(*self, *out) == candidate.request_votes(voters@, i as int),
            decreases voters.len() - i,
        {
            let peer: NodeId = voters[i];
            if peer != self.id {
                out.send(
                    peer,
                    RaftMessage::RequestVote(
                        RequestVoteReq {
                            term: self.current_term,
                            candidate_id: self.id,
                            last_log_index: last.index,
                            last_log_term: last.term,
                        },
                    ),
                );
            }
            i = i + 1;
        }
        // A single-node cluster is its own majority and wins immediately.

        if self.cluster.is_quorum(&self.votes_granted) {
            self.become_leader(out);
        }
    }

    fn become_leader(&mut self, out: &mut Outputs)
        requires
            old(self)@.wf(),
            old(self)@.room(2, 1),
        ensures
            turn_of(*final(self), *final(out)) == turn_of(*old(self), *old(out)).become_leader(),
            final(self)@.wf(),
            final(self)@.room(1, 1),
            final(self)@.cfg == old(self)@.cfg,
    {
        reveal(Turn::become_leader);
        let ghost start = turn_of(*self, *out);
        self.role = Role::Leader;
        self.leader_id = Some(self.id);
        self.votes_granted.clear();
        // Optimistically assume every follower matches us, and discover the
        // truth by probing backwards on rejection.
        let next: u64 = self.log.last_index() + 1;
        self.next_index.clear();
        self.match_index.clear();
        let voters = ids_in_order(&self.cluster.voters());
        let ghost elected = self@;
        let mut i: usize = 0;
        while i < voters.len()
            invariant
                i <= voters.len(),
                voters@.to_set() == elected.cluster.voters(),
                self@ == (NodeView {
                    next_index: self@.next_index,
                    match_index: self@.match_index,
                    ..elected
                }),
                forall|id: u32| #[trigger]
                    self@.next_index.contains_key(id) <==> id != elected.id && exists|k: int|
                        0 <= k < i && #[trigger] voters@[k] == id,
                forall|id: u32| #[trigger]
                    self@.match_index.contains_key(id) <==> id != elected.id && exists|k: int|
                        0 <= k < i && #[trigger] voters@[k] == id,
                forall|id: u32| #[trigger]
                    self@.next_index.contains_key(id) ==> self@.next_index[id] == next,
                forall|id: u32| #[trigger]
                    self@.match_index.contains_key(id) ==> self@.match_index[id] == 0,
            decreases voters.len() - i,
        {
            let peer: NodeId = voters[i];
            if peer != self.id {
                self.next_index.insert(peer, next);
                self.match_index.insert(peer, 0);
            }
            i = i + 1;
        }
        proof {
            assert forall|id: u32| (id != elected.id && exists|k: int|
                0 <= k < i && #[trigger] voters@[k] == id) <==> #[trigger] elected.peers().contains(
                id,
            ) by {
                if elected.peers().contains(id) {
                    assert(voters@.to_set().contains(id));
                    assert(voters@.contains(id));
                } else if id != elected.id && exists|k: int|
                    0 <= k < i && #[trigger] voters@[k] == id {
                    assert(voters@.contains(id));
                    assert(voters@.to_set().contains(id));
                }
            }
            assert(self@.next_index =~= Map::new(
                |id: u32| start.node.peers().contains(id),
                |id: u32| next,
            ));
            assert(self@.match_index =~= Map::new(
                |id: u32| start.node.peers().contains(id),
                |id: u32| 0u64,
            ));
        }
        // An entry of our own term, so that the commit rule has one to count.
        self.append_own(EntryPayload::Noop, None, out);
        self.heartbeat_deadline = self.now + self.cfg.heartbeat_interval;
        self.last_heard_from_leader = self.now;
        self.broadcast_for(0, out);
        // Covers the single-node case, where our own append is already a
        // quorum.
        self.maybe_advance_commit();
    }

    /// Append one entry of the current term to our own log, and ask for it to
    /// be made durable.
    fn append_own(
        &mut self,
        payload: EntryPayload,
        client: Option<(ClientId, u64)>,
        out: &mut Outputs,
    )
        requires
            old(self)@.wf(),
            old(self)@.room(1, 0),
        ensures
            turn_of(*final(self), *final(out)) == turn_of(*old(self), *old(out)).append_own(
                payload@,
                client,
            ),
            final(self)@.wf(),
    {
        let entry = LogEntry {
            term: self.current_term,
            index: self.log.last_index() + 1,
            payload,
            client,
        };
        let ghost one = seq![entry@];
        let entries: Vec<LogEntry> = vec![entry];
        assert(crate::log::entries_view(entries@) =~= one);
        self.log.append(entries.as_slice());
        out.persist(PersistOp::Append(entries));
    }

    // --- message dispatch ---------------------------------------------------

    /// Ignore a vote request while a live leader is still being heard from.
    ///
    /// A server removed by a configuration change stops receiving heartbeats
    /// but does not necessarily learn it was removed; it times out forever, and
    /// every vote request it sends carries a higher term. Without this guard a
    /// single stranded server keeps deposing a perfectly healthy leader.
    fn ignores_vote_requests(&self) -> (r: bool)
        requires
            self@.wf(),
        ensures
            r == self@.ignores_vote_requests(),
    {
        self.leader_id.is_some() && self.role != Role::Candidate && self.now
            < self.last_heard_from_leader + self.cfg.election_timeout_min
    }

    fn on_message(&mut self, from: NodeId, msg: RaftMessage, out: &mut Outputs)
        requires
            old(self)@.wf(),
            old(self)@.accepts(InputView::Message { from, msg: msg@ }, old(self)@.now),
        ensures
            turn_of(*final(self), *final(out)) == turn_of(*old(self), *old(out)).on_message(
                from,
                msg@,
            ),
            final(self)@.wf(),
            final(self)@.role == Role::Leader ==> final(self)@.room(1, 1),
            final(self)@.cfg == old(self)@.cfg,
    {
        reveal(Turn::on_message);
        match &msg {
            RaftMessage::RequestVote(_) => {
                if self.ignores_vote_requests() {
                    // Not even a reply: staying silent is what the paper
                    // prescribes.
                    return;
                }
            },
            _ => {},
        }
        let msg_term: u64 = msg.term();
        // A higher term: adopt it and follow.
        if msg_term > self.current_term {
            let leader = match &msg {
                // An AppendEntries from a higher term identifies the leader of
                // that term. A vote request does not.
                RaftMessage::AppendEntries(m) => Some(m.leader_id),
                _ => None,
            };
            self.become_follower(msg_term, leader);
        }
        // Reject requests from stale terms, and drop stale responses.

        if msg_term < self.current_term {
            self.reject_stale(from, &msg, out);
            return;
        }
        self.on_current_message(from, msg, out);
    }

    /// A message of our own term.
    fn on_current_message(&mut self, from: NodeId, msg: RaftMessage, out: &mut Outputs)
        requires
            old(self)@.wf(),
            old(self)@.room(2, 3),
            msg@ matches crate::message::MessageView::AppendEntries(req) ==> (old(
                self,
            )@.log.term_at(req.prev_log_index) == Some(req.prev_log_term) ==> old(
                self,
            )@.log.can_accept(req.entries)),
            msg@ matches crate::message::MessageView::AppendEntriesResp(resp) ==> resp.match_index
                < u64::MAX && resp.probed_index < u64::MAX,
            msg@ matches crate::message::MessageView::InstallSnapshot(req)
                ==> req.last_included_index < u64::MAX,
            msg@ matches crate::message::MessageView::InstallSnapshotResp(resp)
                ==> resp.last_included_index < u64::MAX,
        ensures
            turn_of(*final(self), *final(out)) == turn_of(
                *old(self),
                *old(out),
            ).on_current_message(from, msg@),
            final(self)@.wf(),
            final(self)@.role == Role::Leader ==> final(self)@.room(1, 1),
            final(self)@.cfg == old(self)@.cfg,
    {
        reveal(Turn::on_current_message);
        match msg {
            // Any role can be asked for a vote.
            RaftMessage::RequestVote(req) => self.on_request_vote(from, req, out),
            RaftMessage::AppendEntries(req) => {
                self.concede_to(req.leader_id);
                self.on_append_entries(from, req, out);
            },
            RaftMessage::InstallSnapshot(req) => {
                self.concede_to(req.leader_id);
                self.on_install_snapshot(from, req, out);
            },
            RaftMessage::InstallSnapshotResp(resp) => match self.role {
                Role::Leader => self.on_install_snapshot_resp(from, resp, out),
                // A response to a request a previous incarnation of us sent.
                Role::Follower | Role::Candidate => {},
            },
            RaftMessage::RequestVoteResp(resp) => match self.role {
                Role::Candidate => self.on_request_vote_resp(from, resp, out),
                // That election is already resolved; a late vote changes
                // nothing.
                Role::Follower | Role::Leader => {},
            },
            RaftMessage::AppendEntriesResp(resp) => match self.role {
                Role::Leader => self.on_append_entries_resp(from, resp, out),
                // We are no longer the leader that sent the request.
                Role::Follower | Role::Candidate => {},
            },
        }
    }

    /// Another server leads this term. A candidate has lost; a leader seeing
    /// this means that vote counting or vote persistence is broken, and it
    /// concedes too, so that the run stays observable for the checkers.
    fn concede_to(&mut self, leader: NodeId)
        requires
            old(self)@.wf(),
        ensures
            forall|out: OutView|
                (Turn { node: final(self)@, out }) == #[trigger] (Turn {
                    node: old(self)@,
                    out,
                }).concede_to(leader),
            final(self)@.wf(),
            final(self)@.role == Role::Follower,
            final(self)@.log == old(self)@.log,
            final(self)@.cfg == old(self)@.cfg,
    {
        if self.role != Role::Follower {
            self.become_follower(self.current_term, Some(leader));
        }
    }

    fn reject_stale(&mut self, from: NodeId, msg: &RaftMessage, out: &mut Outputs)
        ensures
            turn_of(*final(self), *final(out)) == turn_of(*old(self), *old(out)).reject_stale(
                from,
                msg@,
            ),
            *final(self) == *old(self),
    {
        reveal(Turn::reject_stale);
        match msg {
            RaftMessage::RequestVote(_) => {
                // Reply so the stale candidate learns the real term and steps
                // down instead of retrying forever.
                out.send(
                    from,
                    RaftMessage::RequestVoteResp(
                        RequestVoteResp { term: self.current_term, vote_granted: false },
                    ),
                );
            },
            RaftMessage::AppendEntries(req) => {
                // Same, for a deposed leader that has not noticed yet.
                out.send(
                    from,
                    RaftMessage::AppendEntriesResp(
                        AppendEntriesResp {
                            term: self.current_term,
                            success: false,
                            match_index: 0,
                            conflict: None,
                            probed_index: req.prev_log_index,
                            read_round: req.read_round,
                        },
                    ),
                );
            },
            RaftMessage::InstallSnapshot(req) => {
                // Same again, for a deposed leader shipping a stale snapshot.
                out.send(
                    from,
                    RaftMessage::InstallSnapshotResp(
                        InstallSnapshotResp {
                            term: self.current_term,
                            last_included_index: req.last_included_index,
                        },
                    ),
                );
            },
            RaftMessage::RequestVoteResp(_)
            | RaftMessage::AppendEntriesResp(_)
            | RaftMessage::InstallSnapshotResp(_) => {
                // A response to a request we sent in an earlier term: acting on
                // it would be acting on stale information.
            },
        }
    }

    // --- votes --------------------------------------------------------------

    fn on_request_vote(&mut self, from: NodeId, req: RequestVoteReq, out: &mut Outputs)
        requires
            old(self)@.wf(),
        ensures
            turn_of(*final(self), *final(out)) == turn_of(*old(self), *old(out)).on_request_vote(
                from,
                req,
            ),
            final(self)@.wf(),
            final(self)@.cfg == old(self)@.cfg,
            final(self)@.log == old(self)@.log,
            final(self)@.read_round == old(self)@.read_round,
    {
        reveal(Turn::on_request_vote);
        let candidate_last = LogId::new(req.last_log_index, req.last_log_term);
        // One vote per term. Re-granting to the *same* candidate makes the
        // request idempotent.
        let can_vote = match self.voted_for {
            None => true,
            // Deliberate bug (off by default): vote for anyone who asks.
            Some(v) => v == req.candidate_id || self.cfg.bugs.vote_twice_per_term,
        };
        // The election restriction.
        let up_to_date = candidate_last.at_least_as_up_to_date_as(&self.log.last_log_id());
        let granted = can_vote && up_to_date && self.cluster.contains(req.candidate_id);
        if granted {
            self.voted_for = Some(req.candidate_id);
            self.hard_state_dirty = true;
            // Only when a vote is actually granted: resetting on every request
            // would let a node with a hopelessly stale log suppress elections.
            self.reset_election_deadline();
        }
        out.send(
            from,
            RaftMessage::RequestVoteResp(
                RequestVoteResp { term: self.current_term, vote_granted: granted },
            ),
        );
    }

    fn on_request_vote_resp(&mut self, from: NodeId, resp: RequestVoteResp, out: &mut Outputs)
        requires
            old(self)@.wf(),
            old(self)@.room(2, 3),
        ensures
            turn_of(*final(self), *final(out)) == turn_of(
                *old(self),
                *old(out),
            ).on_request_vote_resp(from, resp),
            final(self)@.wf(),
            final(self)@.room(1, 1),
            final(self)@.cfg == old(self)@.cfg,
    {
        reveal(Turn::on_request_vote_resp);
        if !resp.vote_granted {
            return;
        }
        // A set, so a duplicated response cannot be counted twice.

        self.votes_granted.insert(from);
        if self.cluster.is_quorum(&self.votes_granted) {
            self.become_leader(out);
        }
    }

    // --- replication --------------------------------------------------------

    fn broadcast_for(&mut self, read_round: u64, out: &mut Outputs)
        requires
            old(self)@.wf(),
        ensures
            turn_of(*final(self), *final(out)) == turn_of(*old(self), *old(out)).broadcast(
                read_round,
            ),
            *final(self) == *old(self),
    {
        reveal(Turn::broadcast);
        let ghost start = turn_of(*self, *out);
        let voters = ids_in_order(&self.cluster.voters());
        let mut i: usize = 0;
        while i < voters.len()
            invariant
                i <= voters.len(),
                self@.wf(),
                *self == *old(self),
                start.node == self@,
                turn_of(*self, *out) == start.broadcast_to(voters@, i as int, read_round),
            decreases voters.len() - i,
        {
            let peer: NodeId = voters[i];
            if peer != self.id {
                self.send_append_entries_for(peer, read_round, out);
            }
            i = i + 1;
        }
    }

    fn send_append_entries_for(&mut self, to: NodeId, read_round: u64, out: &mut Outputs)
        requires
            old(self)@.wf(),
        ensures
            turn_of(*final(self), *final(out)) == turn_of(
                *old(self),
                *old(out),
            ).send_append_entries_for(to, read_round),
            *final(self) == *old(self),
    {
        reveal(Turn::send_append_entries_for);
        let next: u64 = self.next_for(to);
        let prev_log_index: u64 = next.saturating_sub(1);
        match self.log.term_at(prev_log_index) {
            None => {
                // The entry this follower needs has been compacted away. Ship
                // the snapshot instead.
                self.send_snapshot(to, out);
            },
            Some(prev_log_term) => {
                let entries = self.log.entries_from(next, self.cfg.max_entries_per_append);
                out.send(
                    to,
                    RaftMessage::AppendEntries(
                        AppendEntriesReq {
                            term: self.current_term,
                            leader_id: self.id,
                            prev_log_index,
                            prev_log_term,
                            entries,
                            leader_commit: self.commit_index,
                            read_round,
                        },
                    ),
                );
            },
        }
    }

    /// The next index to send to `to`.
    fn next_for(&self, to: NodeId) -> (r: Index)
        requires
            self@.wf(),
        ensures
            forall|out: OutView| r == #[trigger] (Turn { node: self@, out }).next_for(to),
    {
        match self.next_index.get(&to) {
            Some(next) => *next,
            None => self.log.last_index() + 1,
        }
    }

    fn on_append_entries(&mut self, from: NodeId, req: AppendEntriesReq, out: &mut Outputs)
        requires
            old(self)@.wf(),
            old(self)@.role == Role::Follower,
            old(self)@.log.term_at(req@.prev_log_index) == Some(req@.prev_log_term) ==> old(
                self,
            )@.log.can_accept(req@.entries),
        ensures
            turn_of(*final(self), *final(out)) == turn_of(
                *old(self),
                *old(out),
            ).on_append_entries(from, req@),
            final(self)@.wf(),
            final(self)@.role == Role::Follower,
            final(self)@.cfg == old(self)@.cfg,
    {
        reveal(Turn::on_append_entries);
        self.leader_id = Some(req.leader_id);
        self.last_heard_from_leader = self.now;
        self.reset_election_deadline();
        let ghost heard = turn_of(*self, *out);
        assert(heard == turn_of(*old(self), *old(out)).hear_from(req@.leader_id));

        // The consistency check: we must already hold the entry before. This is
        // the induction step of log matching.
        let consistent = match self.log.term_at(req.prev_log_index) {
            Some(t) => t == req.prev_log_term,
            None => false,
        };
        if !consistent {
            let hint = self.log.conflict_hint(req.prev_log_index);
            out.send(
                from,
                RaftMessage::AppendEntriesResp(
                    AppendEntriesResp {
                        term: self.current_term,
                        success: false,
                        match_index: 0,
                        conflict: Some(hint),
                        probed_index: req.prev_log_index,
                        read_round: req.read_round,
                    },
                ),
            );
            return;
        }
        // Only touch the log where it genuinely disagrees. This message may be a
        // delayed duplicate of one we already applied; truncating
        // unconditionally would delete entries that the leader still has.

        let len: usize = req.entries.len();
        let k: usize = self.log.first_difference(req.entries.as_slice());
        let agreed_upto: u64 = if k < len {
            self.take_entries(&req.entries, k, out);
            self.log.last_index()
        } else if len > 0 {
            assert(req@.entries.last() == req.entries@[len - 1]@);
            req.entries[len - 1].index
        } else {
            req.prev_log_index
        };
        // Capping at `agreed_upto` matters: marking an index committed that we
        // do not hold would let us apply the wrong entry there later.
        if req.leader_commit > self.commit_index {
            // Deliberate bug (off by default): drop the cap.
            let capped: u64 = if self.cfg.bugs.trust_leader_commit_blindly || req.leader_commit
                < agreed_upto {
                req.leader_commit
            } else {
                agreed_upto
            };
            if capped > self.commit_index {
                self.commit_index = capped;
            }
        }
        out.send(
            from,
            RaftMessage::AppendEntriesResp(
                AppendEntriesResp {
                    term: self.current_term,
                    success: true,
                    match_index: agreed_upto,
                    conflict: None,
                    probed_index: req.prev_log_index,
                    // Echo the confirmation round: this acknowledgement is what
                    // proves the sender was still leader when it asked.
                    read_round: req.read_round,
                },
            ),
        );
    }

    /// Take `entries[k..]` into the log. A genuine conflict is deleted from
    /// there on; past the end of the log this is a pure append.
    fn take_entries(&mut self, entries: &Vec<LogEntry>, k: usize, out: &mut Outputs)
        requires
            old(self)@.wf(),
            k < entries@.len(),
            old(self)@.log.cleared_for(entries@[k as int]@).appendable(
                crate::log::entries_view(entries@).skip(k as int),
            ),
        ensures
            turn_of(*final(self), *final(out)) == turn_of(*old(self), *old(out)).take_entries(
                crate::log::entries_view(entries@),
                k as int,
            ),
            final(self)@.wf(),
            final(self)@.role == old(self)@.role,
            final(self)@.cfg == old(self)@.cfg,
            final(self)@.commit_index == old(self)@.commit_index,
            final(self)@.current_term == old(self)@.current_term,
    {
        let index: u64 = entries[k].index;
        assert(crate::log::entries_view(entries@)[k as int] == entries@[k as int]@);
        if self.log.term_at(index).is_some() {
            self.log.truncate_from(index);
            out.persist(PersistOp::TruncateFrom(index));
            // The configuration in force may have just been truncated away.
            if self.config_index >= index {
                self.refresh_config();
            }
        }
        let rest = copy_entries(entries.as_slice(), k, entries.len());
        assert(crate::log::entries_view(rest@) =~= crate::log::entries_view(entries@).skip(
            k as int,
        ));
        self.log.append(rest.as_slice());
        self.adopt_configs(rest.as_slice());
        out.persist(PersistOp::Append(rest));
    }

    fn on_append_entries_resp(&mut self, from: NodeId, resp: AppendEntriesResp, out: &mut Outputs)
        requires
            old(self)@.wf(),
            resp.match_index < u64::MAX,
            resp.probed_index < u64::MAX,
        ensures
            turn_of(*final(self), *final(out)) == turn_of(
                *old(self),
                *old(out),
            ).on_append_entries_resp(from, resp),
            final(self)@.wf(),
            final(self)@.cfg == old(self)@.cfg,
            final(self)@.log == old(self)@.log,
            final(self)@.read_round == old(self)@.read_round,
    {
        reveal(Turn::on_append_entries_resp);
        if !self.cluster.contains(from) {
            // Not a voter: nothing it says affects commitment.
            return;
        }
        if resp.success {
            self.note_read_ack(from, resp.read_round);
            self.advance_match(from, resp.match_index, out);
            return;
        }
        // Rejected: our guess was wrong. Back up and retry, but only for the
        // rejection answering the probe that is outstanding.

        let next: u64 = self.next_for(from);
        if resp.probed_index + 1 != next {
            return;
        }
        let new_next: u64 = self.backed_up(next, resp.conflict);
        self.next_index.insert(from, new_next);
        self.send_append_entries_for(from, 0, out);
    }

    /// Where to probe next after a rejection of the probe before `next`.
    fn backed_up(&self, next: Index, conflict: Option<ConflictHint>) -> (r: Index)
        requires
            self@.wf(),
        ensures
            r == self@.backed_up(next, conflict),
    {
        let candidate: u64 = match conflict {
            Some(hint) => match hint.term {
                // Skip a whole conflicting term per round trip instead of one
                // entry.
                Some(t) => match self.log.last_index_of_term(t) {
                    // We have that term too: resume just after our last entry
                    // of it.
                    Some(index) => index + 1,
                    // We never had that term: jump before all of it.
                    None => hint.first_index,
                },
                None => {
                    // A follower whose log *begins* after our probe has
                    // compacted past it: this hint moves forward.
                    if hint.first_index > next {
                        return hint.first_index;
                    }
                    hint.first_index
                },
            },
            None => next.saturating_sub(1),
        };
        // Otherwise a rejection only moves backwards, and never below the first
        // real index.
        let top: u64 = if next > 2 {
            next - 1
        } else {
            1
        };
        if candidate < 1 {
            1
        } else if candidate > top {
            top
        } else {
            candidate
        }
    }

    /// `from` holds everything up to `index`. A maximum, not an assignment:
    /// responses can arrive out of order or duplicated.
    fn advance_match(&mut self, from: NodeId, index: Index, out: &mut Outputs)
        requires
            old(self)@.wf(),
            index < u64::MAX,
        ensures
            turn_of(*final(self), *final(out)) == turn_of(*old(self), *old(out)).advance_match(
                from,
                index,
            ),
            final(self)@.wf(),
            final(self)@.cfg == old(self)@.cfg,
            final(self)@.log == old(self)@.log,
            final(self)@.read_round == old(self)@.read_round,
    {
        let known: u64 = match self.match_index.get(&from) {
            Some(m) => *m,
            None => 0,
        };
        let m: u64 = if known < index {
            index
        } else {
            known
        };
        self.match_index.insert(from, m);
        self.next_index.insert(from, m + 1);
        self.maybe_advance_commit();
        // Keep streaming if the follower is still behind, rather than waiting
        // for the next heartbeat.
        if m < self.log.last_index() {
            self.send_append_entries_for(from, 0, out);
        }
    }

    // --- commitment and application ------------------------------------------

    /// Advance the commit index to the highest index replicated on a majority
    /// *that belongs to the current term*.
    ///
    /// Counting replicas on an entry from a previous term and calling it
    /// committed is unsafe: such an entry can be present on a majority and still
    /// be overwritten by a later leader. Earlier entries become committed
    /// indirectly, when a current-term entry above them commits.
    fn maybe_advance_commit(&mut self)
        requires
            old(self)@.wf(),
        ensures
            final(self)@ == old(self)@.maybe_advance_commit(),
            final(self)@.wf(),
    {
        let mut n: u64 = self.log.last_index();
        while n > self.commit_index
            invariant
                self@.wf(),
                *self == *old(self),
                self@.commit_target(n) == self@.commit_target(self@.log.last_index()),
            decreases n,
        {
            let own_term = match self.log.term_at(n) {
                Some(t) => t == self.current_term,
                None => false,
            };
            // Deliberate bug (off by default): replica count alone commits.
            if !own_term && !self.cfg.bugs.commit_prior_term_entries {
                // Entries are ordered by term, so nothing lower can qualify.
                return;
            }
            if self.reached_quorum(n) {
                self.commit_index = n;
                return;
            }
            n = n - 1;
        }
    }

    /// Do the nodes known to hold everything up to `n` form a quorum?
    fn reached_quorum(&self, n: Index) -> (r: bool)
        requires
            self@.wf(),
        ensures
            r == self@.cluster.is_quorum(self@.holders(n)),
    {
        let me: NodeId = self.id;
        let own_last: u64 = self.log.last_index();
        let match_index = &self.match_index;
        let has = |id: NodeId| -> (b: bool)
            ensures
                b == (if id == me {
                    own_last >= n
                } else {
                    (if match_index@.contains_key(id) {
                        match_index@[id]
                    } else {
                        0
                    }) >= n
                }),
            {
                if id == me {
                    own_last >= n
                } else {
                    match match_index.get(&id) {
                        Some(m) => *m >= n,
                        None => 0 >= n,
                    }
                }
            };
        let r = self.cluster.is_quorum_by(has);
        proof {
            let config = self@.cluster;
            let yes = choose|yes: Set<u32>|
                {
                    &&& r == #[trigger] config.is_quorum(yes)
                    &&& forall|id: u32| config.contains(id) ==> #[trigger] call_ensures(
                        has,
                        (id,),
                        yes.contains(id),
                    )
                };
            assert forall|id: u32| config.contains(id) implies yes.contains(id) == self@.holders(
                n,
            ).contains(id) by {
                assert(call_ensures(has, (id,), yes.contains(id)));
            }
            assert(config.old.intersect(yes) =~= config.old.intersect(self@.holders(n))) by {
                assert forall|id: u32| config.old.contains(id) implies config.contains(id) by {}
            }
            if config.new is Some {
                assert(config.new->0.intersect(yes) =~= config.new->0.intersect(self@.holders(n)))
                    by {
                    assert forall|id: u32| config.new->0.contains(id) implies config.contains(
                        id,
                    ) by {}
                }
            }
        }
        r
    }

    fn advance_apply(&mut self, out: &mut Outputs)
        requires
            old(self)@.wf(),
        ensures
            turn_of(*final(self), *final(out)) == turn_of(*old(self), *old(out)).advance_apply(),
            final(self)@.wf(),
            final(self)@.cfg == old(self)@.cfg,
            final(self)@.log == old(self)@.log,
            final(self)@.read_round == old(self)@.read_round,
            final(self)@.role == old(self)@.role,
    {
        let ghost start = turn_of(*self, *out);
        // A commit index past the end of the log means that the commit rule is
        // broken. Applying stops there, and the checkers report it.
        while self.last_applied < self.commit_index && self.log.get(self.last_applied + 1).is_some()
            invariant
                self@.wf(),
                self@.cfg == start.node.cfg,
                self@.log == start.node.log,
                self@.read_round == start.node.read_round,
                self@.role == start.node.role,
                turn_of(*self, *out).advance_apply() == start.advance_apply(),
            decreases self.commit_index - self.last_applied,
        {
            proof {
                reveal_with_fuel(Turn::advance_apply, 2);
            }
            let index: u64 = self.last_applied + 1;
            let entry = self.log.get(index).unwrap();
            let apply = Output::Apply {
                index,
                term: entry.term,
                payload: entry.payload.clone(),
                client: entry.client,
                // Only a leader answers clients.
                respond: self.role == Role::Leader,
            };
            self.last_applied = index;
            out.effect(apply);
        }
        proof {
            reveal_with_fuel(Turn::advance_apply, 2);
        }
    }

    // --- reads ----------------------------------------------------------------

    /// Begin a linearizable read.
    ///
    /// A leader cannot simply answer from its own state machine: it may have
    /// been deposed behind a partition and not know it. So it records the commit
    /// index, confirms with a fresh heartbeat round that it still leads, waits
    /// for the state machine to reach that index, and only then serves.
    fn begin_read(&mut self, request: ClientRequest, out: &mut Outputs)
        requires
            old(self)@.wf(),
            old(self)@.room(2, 3),
        ensures
            turn_of(*final(self), *final(out)) == turn_of(*old(self), *old(out)).begin_read(
                request@,
            ),
            final(self)@.wf(),
            final(self)@.room(2, 1),
            final(self)@.cfg == old(self)@.cfg,
    {
        reveal(Turn::begin_read);
        // Deliberate regression (off by default): pin the index and start the
        // confirmation round the moment the request arrives.
        let early = self.cfg.bugs.read_index_at_arrival;
        let mut acks: BTreeSet<NodeId> = BTreeSet::new();
        if early {
            acks.insert(self.id);
            self.read_round = self.read_round + 1;
        }
        let round = if early {
            Some(self.read_round)
        } else {
            None
        };
        let read_index = if early {
            Some(self.commit_index)
        } else {
            None
        };
        let read = PendingRead {
            request,
            arrival_index: self.commit_index,
            read_index,
            round,
            acks,
        };
        let ghost before = reads_view(self.pending_reads@);
        self.pending_reads.push(read);
        assert(reads_view(self.pending_reads@) =~= before.push(read@));
        if early {
            self.broadcast_for(self.read_round, out);
        }
        self.resolve_reads(out);
    }

    /// Advance every pending read as far as it can go, and serve the ones that
    /// are ready.
    fn resolve_reads(&mut self, out: &mut Outputs)
        requires
            old(self)@.wf(),
            old(self)@.role == Role::Leader ==> old(self)@.room(0, 1),
        ensures
            turn_of(*final(self), *final(out)) == turn_of(*old(self), *old(out)).resolve_reads(),
            final(self)@.wf(),
            final(self)@.cfg == old(self)@.cfg,
            final(self)@.log == old(self)@.log,
            final(self)@.role == old(self)@.role,
            final(self)@.read_round <= old(self)@.read_round + 1,
    {
        reveal(Turn::resolve_reads);
        if self.pending_reads.len() == 0 {
            return;
        }
        if self.role != Role::Leader {
            // Claiming failure would be a lie and answering would be worse.
            self.pending_reads.clear();
            assert(reads_view(self.pending_reads@) =~= Seq::empty());
            return;
        }
        // Until an entry of our own term has committed, we do not reliably know
        // what is committed, so there is no honest read index to assign yet.

        let own_term = match self.log.term_at(self.commit_index) {
            Some(t) => t == self.current_term,
            None => false,
        };
        if !own_term {
            return;
        }
        if self.has_fresh_read() {
            self.pin_reads();
            self.broadcast_for(self.read_round, out);
        }
        self.serve_ready(out);
    }

    fn has_fresh_read(&self) -> (r: bool)
        ensures
            r == self@.has_fresh_read(),
    {
        let mut i: usize = 0;
        while i < self.pending_reads.len()
            invariant
                i <= self.pending_reads.len(),
                forall|j: int|
                    0 <= j < i ==> (#[trigger] self@.pending_reads[j]).read_index is Some,
            decreases self.pending_reads.len() - i,
        {
            assert(self@.pending_reads[i as int] == self.pending_reads@[i as int]@);
            if self.pending_reads[i].read_index.is_none() {
                return true;
            }
            i = i + 1;
        }
        false
    }

    /// Newly eligible reads all take the current commit index and share one
    /// confirmation round.
    fn pin_reads(&mut self)
        requires
            old(self)@.wf(),
            old(self)@.read_round < u64::MAX,
        ensures
            final(self)@ == old(self)@.pin_reads(),
    {
        let ghost start = self@;
        let round: u64 = self.read_round + 1;
        self.read_round = round;
        let mut i: usize = 0;
        while i < self.pending_reads.len()
            invariant
                i <= self.pending_reads.len(),
                self@.pending_reads.len() == start.pending_reads.len(),
                round == start.read_round + 1,
                self@ == (NodeView {
                    read_round: round,
                    pending_reads: self@.pending_reads,
                    ..start
                }),
                forall|j: int|
                    0 <= j < i ==> #[trigger] self@.pending_reads[j] == start.pinned(
                        start.pending_reads[j],
                        round,
                    ),
                forall|j: int|
                    i <= j < start.pending_reads.len() ==> #[trigger] self@.pending_reads[j]
                        == start.pending_reads[j],
            decreases self.pending_reads.len() - i,
        {
            let ghost before = self@.pending_reads;
            assert(before[i as int] == self.pending_reads@[i as int]@);
            if self.pending_reads[i].read_index.is_none() {
                let mut read = self.pending_reads[i].clone();
                read.read_index = Some(
                    if self.cfg.bugs.read_index_at_arrival {
                        read.arrival_index
                    } else {
                        self.commit_index
                    },
                );
                read.round = Some(round);
                read.acks.insert(self.id);
                self.pending_reads.set(i, read);
                assert(self@.pending_reads =~= before.update(i as int, read@));
            }
            i = i + 1;
        }
        assert(self@ =~= start.pin_reads());
    }

    /// Serve the reads that are ready; keep the others waiting.
    fn serve_ready(&mut self, out: &mut Outputs)
        requires
            old(self)@.wf(),
        ensures
            turn_of(*final(self), *final(out)) == turn_of(*old(self), *old(out)).serve_ready(),
            final(self)@.wf(),
    {
        let ghost start = turn_of(*self, *out);
        let mut reads: Vec<PendingRead> = Vec::new();
        std::mem::swap(&mut reads, &mut self.pending_reads);
        let ghost all = reads_view(reads@);
        let mut waiting: Vec<PendingRead> = Vec::new();
        let mut i: usize = 0;
        assert(reads_view(waiting@) =~= start.node.waiting(0));
        assert(out@.effects =~= start.out.effects + start.node.served(0));
        while i < reads.len()
            invariant
                i <= reads.len(),
                all == start.node.pending_reads,
                all == reads_view(reads@),
                self@ == (NodeView { pending_reads: self@.pending_reads, ..start.node }),
                reads_view(waiting@) == start.node.waiting(i as int),
                out@ == (OutView {
                    effects: start.out.effects + start.node.served(i as int),
                    ..start.out
                }),
            decreases reads.len() - i,
        {
            let read = &reads[i];
            assert(all[i as int] == read@);
            let confirmed = self.cluster.is_quorum(&read.acks);
            let ready = match read.read_index {
                Some(read_index) => confirmed && self.last_applied >= read_index,
                None => false,
            };
            assert(ready == start.node.is_ready(read@));
            let ghost waiting_before = reads_view(waiting@);
            let ghost effects_before = out@.effects;
            if ready {
                let served = Output::ServeRead {
                    client: read.request.client,
                    seq: read.request.seq,
                    command: read.request.command.clone(),
                    read_index: read.read_index.unwrap(),
                };
                out.effect(served);
                assert(out@.effects =~= start.out.effects + start.node.served(i + 1));
            } else {
                waiting.push(read.clone());
                assert(reads_view(waiting@) =~= waiting_before.push(read@));
            }
            i = i + 1;
        }
        self.pending_reads = waiting;
    }

    /// Record that `from` acknowledged a confirmation round, and with it every
    /// earlier one: the leader was evidently still leading when it sent this.
    fn note_read_ack(&mut self, from: NodeId, round: u64)
        requires
            old(self)@.wf(),
        ensures
            final(self)@ == old(self)@.note_read_ack(from, round),
            final(self)@.wf(),
    {
        if round == 0 {
            return;
        }
        let ghost start = self@;
        let mut i: usize = 0;
        while i < self.pending_reads.len()
            invariant
                i <= self.pending_reads.len(),
                round != 0,
                self@.pending_reads.len() == start.pending_reads.len(),
                self@ == (NodeView { pending_reads: self@.pending_reads, ..start }),
                forall|j: int|
                    0 <= j < i ==> #[trigger] self@.pending_reads[j] == start.note_read_ack(
                        from,
                        round,
                    ).pending_reads[j],
                forall|j: int|
                    i <= j < start.pending_reads.len() ==> #[trigger] self@.pending_reads[j]
                        == start.pending_reads[j],
            decreases self.pending_reads.len() - i,
        {
            let ghost before = self@.pending_reads;
            assert(before[i as int] == self.pending_reads@[i as int]@);
            let acked = match self.pending_reads[i].round {
                Some(r) => r <= round,
                None => false,
            };
            if acked {
                let mut read = self.pending_reads[i].clone();
                read.acks.insert(from);
                self.pending_reads.set(i, read);
                assert(self@.pending_reads =~= before.update(i as int, read@));
            }
            i = i + 1;
        }
        assert(self@ =~= start.note_read_ack(from, round));
    }

    // --- membership -----------------------------------------------------------

    /// Adopt any configuration carried by these entries.
    ///
    /// A configuration takes effect the moment its entry is *appended*, not when
    /// it commits: if a node waited for the commit before counting the new
    /// voters, the very quorum needed to commit it could be one it refuses to
    /// count.
    fn adopt_configs(&mut self, entries: &[LogEntry])
        ensures
            final(self)@ == old(self)@.adopt_configs(crate::log::entries_view(entries@)),
            final(self)@ == (NodeView {
                cluster: final(self)@.cluster,
                config_index: final(self)@.config_index,
                ..old(self)@
            }),
    {
        let ghost start = self@;
        let ghost all = crate::log::entries_view(entries@);
        let mut i: usize = 0;
        assert(all.take(0) =~= Seq::empty());
        while i < entries.len()
            invariant
                i <= entries.len(),
                all == crate::log::entries_view(entries@),
                self@ == start.adopt_configs(all.take(i as int)),
            decreases entries.len() - i,
        {
            proof {
                assert(all.take(i + 1).drop_last() =~= all.take(i as int));
                assert(all.take(i + 1).last() == entries@[i as int]@);
                lemma_adopt_twice(start, all.take(i as int));
            }
            match &entries[i].payload {
                EntryPayload::Config(cfg) => {
                    self.cluster = cfg.clone();
                    self.config_index = entries[i].index;
                },
                _ => {},
            }
            i = i + 1;
        }
        proof {
            assert(all.take(i as int) =~= all);
            lemma_adopt_twice(start, all);
        }
    }

    /// Recompute the effective configuration by scanning back for the last
    /// config entry.
    fn refresh_config(&mut self)
        requires
            old(self)@.log.wf(),
        ensures
            final(self)@ == old(self)@.refresh_config(),
    {
        match self.log.latest_config(self.log.last_index()) {
            Some(i) => {
                match self.log.config_in_slot(i) {
                    Some(cfg) => {
                        self.cluster = cfg;
                        self.config_index = i;
                    },
                    None => {},
                }
            },
            None => {
                // Nothing left in the log: fall back to what the snapshot
                // recorded.
                self.cluster = self.base_config.clone();
                self.config_index = self.log.last_included().index;
            },
        }
    }

    /// The configuration in force at `index`, for recording in a snapshot.
    fn config_at(&self, index: Index) -> (r: ClusterConfig)
        requires
            self@.wf(),
        ensures
            r@ == self@.config_at(index),
    {
        let last: u64 = self.log.last_index();
        let upto: u64 = if index < last {
            index
        } else {
            last
        };
        match self.log.latest_config(upto) {
            Some(i) => match self.log.config_in_slot(i) {
                Some(cfg) => cfg,
                None => self.base_config.clone(),
            },
            None => self.base_config.clone(),
        }
    }

    fn on_change_membership(&mut self, voters: BTreeSet<NodeId>, out: &mut Outputs)
        requires
            old(self)@.wf(),
            old(self)@.room(2, 3),
        ensures
            turn_of(*final(self), *final(out)) == turn_of(
                *old(self),
                *old(out),
            ).on_change_membership(voters@),
            final(self)@.wf(),
            final(self)@.room(1, 1),
            final(self)@.cfg == old(self)@.cfg,
    {
        reveal(Turn::on_change_membership);
        if self.role != Role::Leader {
            out.effect(
                Output::ClientResponse {
                    client: 0,
                    seq: 0,
                    result: ClientResult::NotLeader { leader: self.leader_id },
                },
            );
            return;
        }
        // One change at a time: still joint, or not yet committed, means one is
        // in flight.

        if self.cluster.is_joint() || self.config_index > self.commit_index {
            out.effect(
                Output::ClientResponse {
                    client: 0,
                    seq: 0,
                    result: ClientResult::ChangeInProgress,
                },
            );
            return;
        }
        if voters.is_empty() {
            return;
        }
        let joint = self.cluster.joint_to(voters);
        self.append_config(joint, out);
    }

    /// Append a configuration, adopt it, and replicate it to everyone in it:
    /// they are part of every quorum from this moment.
    fn append_config(&mut self, config: ClusterConfig, out: &mut Outputs)
        requires
            old(self)@.wf(),
            old(self)@.room(1, 0),
        ensures
            turn_of(*final(self), *final(out)) == turn_of(*old(self), *old(out)).append_config(
                config@,
            ),
            final(self)@.wf(),
            final(self)@.log.start == old(self)@.log.start,
            final(self)@.log.entries.len() == old(self)@.log.entries.len() + 1,
            final(self)@.read_round == old(self)@.read_round,
            final(self)@.cfg == old(self)@.cfg,
            final(self)@.role == old(self)@.role,
    {
        let index: u64 = self.log.last_index() + 1;
        self.append_own(EntryPayload::Config(config.clone()), None, out);
        self.cluster = config;
        self.config_index = index;
        self.reset_replication_state();
        self.broadcast_for(0, out);
        self.maybe_advance_commit();
    }

    /// Make sure every voter in the current configuration has replication
    /// state, without disturbing what is already known about the others.
    fn reset_replication_state(&mut self)
        requires
            old(self)@.wf(),
        ensures
            final(self)@ == old(self)@.reset_replication_state(),
            final(self)@.wf(),
    {
        let ghost start = self@;
        let next: u64 = self.log.last_index() + 1;
        let voters = ids_in_order(&self.cluster.voters());
        let mut i: usize = 0;
        while i < voters.len()
            invariant
                i <= voters.len(),
                voters@.to_set() == start.cluster.voters(),
                self@ == (NodeView {
                    next_index: self@.next_index,
                    match_index: self@.match_index,
                    ..start
                }),
                forall|id: u32| #[trigger]
                    self@.next_index.contains_key(id) <==> start.next_index.contains_key(id) || (id
                        != start.id && exists|k: int| 0 <= k < i && #[trigger] voters@[k] == id),
                forall|id: u32| #[trigger]
                    self@.match_index.contains_key(id) <==> start.match_index.contains_key(id) || (id
                        != start.id && exists|k: int| 0 <= k < i && #[trigger] voters@[k] == id),
                forall|id: u32| #[trigger]
                    self@.next_index.contains_key(id) ==> self@.next_index[id] == (
                    if start.next_index.contains_key(id) {
                        start.next_index[id]
                    } else {
                        next
                    }),
                forall|id: u32| #[trigger]
                    self@.match_index.contains_key(id) ==> self@.match_index[id] == (
                    if start.match_index.contains_key(id) {
                        start.match_index[id]
                    } else {
                        0
                    }),
            decreases voters.len() - i,
        {
            let peer: NodeId = voters[i];
            if peer != self.id {
                if !self.next_index.contains_key(&peer) {
                    self.next_index.insert(peer, next);
                }
                if !self.match_index.contains_key(&peer) {
                    self.match_index.insert(peer, 0);
                }
            }
            i = i + 1;
        }
        proof {
            assert forall|id: u32| (id != start.id && exists|k: int|
                0 <= k < i && #[trigger] voters@[k] == id) <==> #[trigger] start.peers().contains(
                id,
            ) by {
                if start.peers().contains(id) {
                    assert(voters@.to_set().contains(id));
                    assert(voters@.contains(id));
                } else if id != start.id && exists|k: int|
                    0 <= k < i && #[trigger] voters@[k] == id {
                    assert(voters@.contains(id));
                    assert(voters@.to_set().contains(id));
                }
            }
            let goal = start.reset_replication_state();
            assert(self@.next_index =~= goal.next_index);
            assert(self@.match_index =~= goal.match_index);
        }
    }

    /// Follow-ups that depend on what has just committed.
    fn after_commit(&mut self, out: &mut Outputs)
        requires
            old(self)@.wf(),
            old(self)@.role == Role::Leader ==> old(self)@.room(1, 1),
        ensures
            turn_of(*final(self), *final(out)) == turn_of(*old(self), *old(out)).after_commit(),
            final(self)@.wf(),
            final(self)@.role == Role::Leader ==> final(self)@.room(0, 1),
            final(self)@.cfg == old(self)@.cfg,
    {
        reveal(Turn::after_commit);
        if self.role != Role::Leader {
            return;
        }
        // Once the joint configuration is committed, the leader appends the new
        // one. From here the old configuration alone can no longer decide.

        if self.cluster.is_joint() && self.config_index <= self.commit_index {
            match self.cluster.to_new() {
                Some(new) => self.append_config(new, out),
                None => {},
            }
        }
        // A leader that is not in the new configuration steps down once that is
        // committed: it is the one replicating the entry that removes it.

        if !self.cluster.is_joint() && self.config_index <= self.commit_index
            && !self.cluster.contains(self.id) {
            self.become_follower(self.current_term, None);
        }
    }

    // --- snapshots --------------------------------------------------------------

    fn on_compact(&mut self, snapshot: Snapshot, out: &mut Outputs)
        requires
            old(self)@.wf(),
            old(self)@.room(2, 3),
        ensures
            turn_of(*final(self), *final(out)) == turn_of(*old(self), *old(out)).on_compact(
                snapshot@,
            ),
            final(self)@.wf(),
            final(self)@.room(1, 1),
            final(self)@.cfg == old(self)@.cfg,
    {
        reveal(Turn::on_compact);
        let through = snapshot.last_included;
        // Never discard an entry the state machine has not absorbed; an older
        // snapshot has nothing to add.
        if through.index > self.last_applied || through.index
            <= self.log.last_included().index {
            return;
        }
        let matches_log = match self.log.term_at(through.index) {
            Some(t) => t == through.term,
            None => false,
        };
        if !matches_log {
            return;
        }
        // The caller cannot know the membership, so the node fills it in for
        // the boundary it is compacting through.
        let kept = Snapshot::new(through, self.config_at(through.index), snapshot.data);
        // Snapshot first, then trim.
        out.persist(PersistOp::Snapshot(kept.clone()));
        out.persist(PersistOp::Compact(through));
        self.base_config = kept.config.clone();
        self.snapshot = Some(kept);
        self.log.compact(through);
    }

    fn send_snapshot(&mut self, to: NodeId, out: &mut Outputs)
        ensures
            turn_of(*final(self), *final(out)) == turn_of(*old(self), *old(out)).send_snapshot(to),
            *final(self) == *old(self),
    {
        match &self.snapshot {
            None => {
                // Only taking a snapshot discards entries, so there is one
                // whenever it is needed.
            },
            Some(snapshot) => {
                out.send(
                    to,
                    RaftMessage::InstallSnapshot(
                        InstallSnapshotReq {
                            term: self.current_term,
                            leader_id: self.id,
                            last_included_index: snapshot.index(),
                            last_included_term: snapshot.term(),
                            config: snapshot.config.clone(),
                            data: crate::copy_bytes(&snapshot.data),
                        },
                    ),
                );
            },
        }
    }

    fn on_install_snapshot(&mut self, from: NodeId, req: InstallSnapshotReq, out: &mut Outputs)
        requires
            old(self)@.wf(),
            old(self)@.role == Role::Follower,
            req.last_included_index < u64::MAX,
        ensures
            turn_of(*final(self), *final(out)) == turn_of(
                *old(self),
                *old(out),
            ).on_install_snapshot(from, req@),
            final(self)@.wf(),
            final(self)@.role == Role::Follower,
            final(self)@.cfg == old(self)@.cfg,
    {
        reveal(Turn::on_install_snapshot);
        self.leader_id = Some(req.leader_id);
        self.last_heard_from_leader = self.now;
        self.reset_election_deadline();
        let through = LogId::new(req.last_included_index, req.last_included_term);

        // Already have everything it covers. Answering with our own watermark
        // keeps the leader from walking us backwards.
        if through.index <= self.commit_index {
            out.send(
                from,
                RaftMessage::InstallSnapshotResp(
                    InstallSnapshotResp {
                        term: self.current_term,
                        last_included_index: self.commit_index,
                    },
                ),
            );
            return;
        }
        let snapshot = Snapshot::new(through, req.config, req.data);
        out.persist(PersistOp::Snapshot(snapshot.clone()));
        // If we hold a matching entry at the boundary, everything after it
        // agrees with the leader and is worth keeping.
        let confirmed = match self.log.term_at(through.index) {
            Some(t) => t == through.term,
            None => false,
        };
        if confirmed {
            self.log.compact(through);
            out.persist(PersistOp::Compact(through));
        } else {
            self.log.reset_to(through);
            out.persist(PersistOp::ResetLog(through));
        }
        // Everything below the boundary is gone, so the snapshot's membership
        // becomes the floor the log's config entries build on.
        self.base_config = snapshot.config.clone();
        self.refresh_config();
        self.snapshot = Some(snapshot.clone());
        self.commit_index = through.index;
        // The entries it covers must never be applied again.
        if self.last_applied < through.index {
            self.last_applied = through.index;
        }
        out.effect(Output::RestoreSnapshot { snapshot });
        out.send(
            from,
            RaftMessage::InstallSnapshotResp(
                InstallSnapshotResp {
                    term: self.current_term,
                    last_included_index: through.index,
                },
            ),
        );
    }

    fn on_install_snapshot_resp(
        &mut self,
        from: NodeId,
        resp: InstallSnapshotResp,
        out: &mut Outputs,
    )
        requires
            old(self)@.wf(),
            resp.last_included_index < u64::MAX,
        ensures
            turn_of(*final(self), *final(out)) == turn_of(
                *old(self),
                *old(out),
            ).on_install_snapshot_resp(from, resp),
            final(self)@.wf(),
            final(self)@.cfg == old(self)@.cfg,
            final(self)@.log == old(self)@.log,
            final(self)@.read_round == old(self)@.read_round,
    {
        reveal(Turn::on_install_snapshot_resp);
        if !self.cluster.contains(from) {
            return;
        }
        self.advance_match(from, resp.last_included_index, out);
    }

    // --- clients ------------------------------------------------------------------

    fn on_client_request(&mut self, req: ClientRequest, out: &mut Outputs)
        requires
            old(self)@.wf(),
            old(self)@.room(2, 3),
        ensures
            turn_of(*final(self), *final(out)) == turn_of(
                *old(self),
                *old(out),
            ).on_client_request(req@),
            final(self)@.wf(),
            final(self)@.room(1, 1),
            final(self)@.cfg == old(self)@.cfg,
    {
        reveal(Turn::on_client_request);
        if self.role != Role::Leader {
            // Redirect. The hint may be stale; retrying is the client's
            // problem, and the reason sequence numbers exist.
            out.effect(
                Output::ClientResponse {
                    client: req.client,
                    seq: req.seq,
                    result: ClientResult::NotLeader { leader: self.leader_id },
                },
            );
            return;
        }
        if req.read_only {
            // Reads never enter the log.
            self.begin_read(req, out);
            return;
        }
        self.append_own(EntryPayload::Command(req.command), Some((req.client, req.seq)), out);
        self.broadcast_for(0, out);
        // Single-node clusters commit on their own append.
        self.maybe_advance_commit();
    }

    /// The last log position.
    pub fn last_log_id(&self) -> (r: LogId)
        ensures
            r == self@.log.last_log_id(),
    {
        self.log.last_log_id()
    }

    /// A command made of these bytes.
    pub fn command(bytes: Vec<u8>) -> (r: Command)
        ensures
            r@ == bytes@,
    {
        Command(bytes)
    }
}

/// Adopting a prefix first makes no difference to the entries that follow it.
proof fn lemma_adopt_twice(node: NodeView, prefix: Seq<crate::log::EntryView>)
    ensures
        node.adopt_configs(prefix) == (NodeView {
            cluster: node.adopt_configs(prefix).cluster,
            config_index: node.adopt_configs(prefix).config_index,
            ..node
        }),
    decreases prefix.len(),
{
    if prefix.len() > 0 && !(prefix.last().payload is Config) {
        lemma_adopt_twice(node, prefix.drop_last());
    }
}

} // verus!
