//! The node as a mathematical state machine.
//!
//! A node is a function of its state, an input and the virtual time. This file
//! writes that function down over plain mathematical values; the executable
//! node is proved to compute exactly it, and the safety laws are proved of it.
use crate::config::ConfigView;
use crate::log::{EntryView, LogView, PayloadView};
use crate::message::{
    AppendEntriesResp, AppendView, ConflictHint, InstallSnapshotResp, InstallView, MessageView,
    RequestVoteReq, RequestVoteResp,
};
use crate::node::{ClientResult, RaftConfig, Role};
use crate::snapshot::SnapshotView;
use crate::LogId;
use vstd::prelude::*;

verus! {

/// A client request.
pub struct RequestView {
    pub client: u32,
    pub seq: u64,
    pub command: Seq<u8>,
    pub read_only: bool,
}

/// What can happen to a node.
pub enum InputView {
    Message { from: u32, msg: MessageView },
    Tick,
    ClientRequest(RequestView),
    ChangeMembership(Set<u32>),
    Compact(SnapshotView),
}

/// A durable-state mutation.
pub enum PersistView {
    HardState { current_term: u64, voted_for: Option<u32> },
    Append(Seq<EntryView>),
    TruncateFrom(u64),
    Snapshot(SnapshotView),
    Compact(LogId),
    ResetLog(LogId),
}

/// What a node can ask for.
#[allow(inconsistent_fields)]
pub enum OutputView {
    Persist(PersistView),
    Send { to: u32, msg: MessageView },
    Apply { index: u64, term: u64, payload: PayloadView, client: Option<(u32, u64)>, respond: bool },
    ServeRead { client: u32, seq: u64, command: Seq<u8>, read_index: u64 },
    RestoreSnapshot { snapshot: SnapshotView },
    ClientResponse { client: u32, seq: u64, result: ClientResult },
}

/// A read waiting to be served.
#[verifier::ext_equal]
pub struct ReadView {
    pub request: RequestView,
    pub arrival_index: u64,
    pub read_index: Option<u64>,
    pub round: Option<u64>,
    pub acks: Set<u32>,
}

/// The whole state of a node.
#[verifier::ext_equal]
pub struct NodeView {
    pub id: u32,
    pub cluster: ConfigView,
    pub cfg: RaftConfig,
    pub current_term: u64,
    pub voted_for: Option<u32>,
    pub log: LogView,
    pub snapshot: Option<SnapshotView>,
    pub base_config: ConfigView,
    pub config_index: u64,
    pub role: Role,
    pub commit_index: u64,
    pub last_applied: u64,
    pub leader_id: Option<u32>,
    pub votes_granted: Set<u32>,
    pub pending_reads: Seq<ReadView>,
    pub read_round: u64,
    pub next_index: Map<u32, u64>,
    pub match_index: Map<u32, u64>,
    pub now: u64,
    pub last_heard_from_leader: u64,
    pub election_deadline: u64,
    pub heartbeat_deadline: u64,
    pub hard_state_dirty: bool,
    pub rng: u64,
}

/// What a step has asked for so far, by kind.
#[verifier::ext_equal]
pub struct OutView {
    pub persists: Seq<OutputView>,
    pub sends: Seq<OutputView>,
    pub effects: Seq<OutputView>,
}

/// A node in the middle of a step.
#[verifier::ext_equal]
pub struct Turn {
    pub node: NodeView,
    pub out: OutView,
}

pub open spec fn min_of(a: u64, b: u64) -> u64 {
    if a < b {
        a
    } else {
        b
    }
}

pub open spec fn max_of(a: u64, b: u64) -> u64 {
    if a < b {
        b
    } else {
        a
    }
}

/// `x - 1`, but never below 0.
pub open spec fn one_less(x: u64) -> u64 {
    if x == 0 {
        0
    } else {
        (x - 1) as u64
    }
}

impl NodeView {
    // --- validity ----------------------------------------------------------

    pub open spec fn wf(self) -> bool {
        &&& self.log.wf()
        &&& self.cfg.election_timeout_min < self.cfg.election_timeout_max
        &&& self.last_heard_from_leader <= self.now
        &&& self.now + self.cfg.election_timeout_max <= u64::MAX
        &&& self.now + self.cfg.heartbeat_interval <= u64::MAX
        &&& forall|id: u32| #[trigger]
            self.match_index.contains_key(id) ==> self.match_index[id] < u64::MAX
    }

    /// The counters have room for this many more log entries and confirmation
    /// rounds.
    pub open spec fn room(self, appends: int, rounds: int) -> bool {
        &&& self.log.start + self.log.entries.len() + appends <= u64::MAX
        &&& self.read_round + rounds <= u64::MAX
    }

    /// A step on this input stays within machine limits, does not move time
    /// backwards, and appends nothing that would leave a gap in the log.
    pub open spec fn accepts(self, input: InputView, now: u64) -> bool {
        &&& self.now <= now
        &&& now + self.cfg.election_timeout_max <= u64::MAX
        &&& now + self.cfg.heartbeat_interval <= u64::MAX
        &&& self.current_term < u64::MAX
        &&& self.room(2, 3)
        &&& match input {
            InputView::Message { from, msg } => match msg {
                MessageView::AppendEntries(req) => req.term >= self.current_term
                    && self.log.term_at(req.prev_log_index) == Some(req.prev_log_term)
                    ==> self.log.can_accept(req.entries),
                MessageView::AppendEntriesResp(resp) => resp.match_index < u64::MAX
                    && resp.probed_index < u64::MAX,
                MessageView::InstallSnapshot(req) => req.last_included_index < u64::MAX,
                MessageView::InstallSnapshotResp(resp) => resp.last_included_index < u64::MAX,
                _ => true,
            },
            _ => true,
        }
    }

    // --- construction ------------------------------------------------------

    pub open spec fn fresh(
        id: u32,
        cluster: ConfigView,
        cfg: RaftConfig,
        seed: u64,
        now: u64,
    ) -> NodeView {
        NodeView {
            id,
            cluster,
            cfg,
            current_term: 0,
            voted_for: None,
            log: LogView { zero_anchor: cfg.bugs.compaction_anchor_at_zero, ..LogView::empty() },
            snapshot: None,
            base_config: cluster,
            config_index: 0,
            role: Role::Follower,
            commit_index: 0,
            last_applied: 0,
            leader_id: None,
            votes_granted: Set::empty(),
            pending_reads: Seq::empty(),
            read_round: 0,
            next_index: Map::empty(),
            match_index: Map::empty(),
            now,
            last_heard_from_leader: 0,
            election_deadline: 0,
            heartbeat_deadline: 0,
            hard_state_dirty: false,
            rng: crate::rand::stream_state(seed, id as u64),
        }.reset_election_deadline()
    }

    /// This freshly started node with what survived a crash put back.
    pub open spec fn restored(
        self,
        current_term: u64,
        voted_for: Option<u32>,
        log: LogView,
        snapshot: Option<SnapshotView>,
    ) -> NodeView {
        let recovered = NodeView { current_term, voted_for, log, snapshot, ..self };
        match snapshot {
            None => recovered.refresh_config(),
            Some(snap) => NodeView {
                log: if self.cfg.bugs.skip_snapshot_reconcile {
                    log
                } else {
                    log.reconcile(snap.last_included)
                },
                base_config: snap.config,
                commit_index: snap.last_included.index,
                last_applied: snap.last_included.index,
                ..recovered
            }.refresh_config(),
        }
    }

    // --- timers ------------------------------------------------------------

    pub open spec fn next_deadline(self) -> u64 {
        if self.role == Role::Leader {
            self.heartbeat_deadline
        } else {
            self.election_deadline
        }
    }

    pub open spec fn reset_election_deadline(self) -> NodeView {
        NodeView {
            election_deadline: (self.now + crate::rand::in_range(
                self.rng,
                self.cfg.election_timeout_min,
                self.cfg.election_timeout_max,
            )) as u64,
            rng: crate::rand::advanced(self.rng),
            ..self
        }
    }

    // --- roles -------------------------------------------------------------

    /// Move to `term` if it is newer: no vote has been cast in it.
    pub open spec fn enter_term(self, term: u64) -> NodeView {
        if term > self.current_term {
            NodeView {
                current_term: term,
                voted_for: None,
                hard_state_dirty: true,
                ..self
            }.reset_election_deadline()
        } else {
            self
        }
    }

    pub open spec fn become_follower(self, term: u64, leader: Option<u32>) -> NodeView {
        let a = self.enter_term(term);
        let b = if a.role != Role::Follower {
            NodeView { role: Role::Follower, ..a }.reset_election_deadline()
        } else {
            a
        };
        NodeView {
            leader_id: leader,
            votes_granted: Set::empty(),
            next_index: Map::empty(),
            match_index: Map::empty(),
            pending_reads: Seq::empty(),
            ..b
        }
    }

    /// A live leader was heard from too recently to listen to a candidate.
    pub open spec fn ignores_vote_requests(self) -> bool {
        &&& self.leader_id is Some
        &&& self.role != Role::Candidate
        &&& self.now < self.last_heard_from_leader + self.cfg.election_timeout_min
    }

    // --- membership --------------------------------------------------------

    /// Adopt the last configuration among `entries`, if there is one.
    pub open spec fn adopt_configs(self, entries: Seq<EntryView>) -> NodeView
        decreases entries.len(),
    {
        if entries.len() == 0 {
            self
        } else {
            match entries.last().payload {
                PayloadView::Config(c) => NodeView {
                    cluster: c,
                    config_index: entries.last().index,
                    ..self
                },
                _ => self.adopt_configs(entries.drop_last()),
            }
        }
    }

    /// The effective configuration: the last one in the log, else the one below
    /// it.
    pub open spec fn refresh_config(self) -> NodeView {
        match self.log.latest_config(self.log.last_index()) {
            Some(i) => NodeView {
                cluster: self.log.at(i).payload->Config_0,
                config_index: i,
                ..self
            },
            None => NodeView {
                cluster: self.base_config,
                config_index: self.log.last_included.index,
                ..self
            },
        }
    }

    /// The configuration in force at `index`.
    pub open spec fn config_at(self, index: u64) -> ConfigView {
        match self.log.latest_config(min_of(index, self.log.last_index())) {
            Some(i) => self.log.at(i).payload->Config_0,
            None => self.base_config,
        }
    }

    /// The other voters.
    pub open spec fn peers(self) -> Set<u32> {
        self.cluster.voters().remove(self.id)
    }

    /// Replication state for the voters that have none yet.
    pub open spec fn reset_replication_state(self) -> NodeView {
        NodeView {
            next_index: Map::new(
                |id: u32| self.peers().contains(id) || self.next_index.contains_key(id),
                |id: u32|
                    if self.next_index.contains_key(id) {
                        self.next_index[id]
                    } else {
                        (self.log.last_index() + 1) as u64
                    },
            ),
            match_index: Map::new(
                |id: u32| self.peers().contains(id) || self.match_index.contains_key(id),
                |id: u32|
                    if self.match_index.contains_key(id) {
                        self.match_index[id]
                    } else {
                        0
                    },
            ),
            ..self
        }
    }

    // --- commitment --------------------------------------------------------

    /// The highest index `id` is known to hold.
    pub open spec fn acked(self, id: u32) -> u64 {
        if id == self.id {
            self.log.last_index()
        } else if self.match_index.contains_key(id) {
            self.match_index[id]
        } else {
            0
        }
    }

    /// The nodes known to hold everything up to `n`.
    pub open spec fn holders(self, n: u64) -> Set<u32> {
        Set::new(|id: u32| self.acked(id) >= n)
    }

    /// The highest index at or below `n` that replica counting commits, scanning
    /// down and stopping at the first entry of another term.
    pub open spec fn commit_target(self, n: u64) -> u64
        decreases n,
    {
        if n <= self.commit_index {
            self.commit_index
        } else if self.log.term_at(n) != Some(self.current_term)
            && !self.cfg.bugs.commit_prior_term_entries {
            self.commit_index
        } else if self.cluster.is_quorum(self.holders(n)) {
            n
        } else {
            self.commit_target((n - 1) as u64)
        }
    }

    pub open spec fn maybe_advance_commit(self) -> NodeView {
        NodeView { commit_index: self.commit_target(self.log.last_index()), ..self }
    }

    // --- reads -------------------------------------------------------------

    /// `from` acknowledged confirmation round `round`, and with it every
    /// earlier one.
    pub open spec fn note_read_ack(self, from: u32, round: u64) -> NodeView {
        if round == 0 {
            self
        } else {
            NodeView {
                pending_reads: Seq::new(
                    self.pending_reads.len(),
                    |i: int|
                        {
                            let read = self.pending_reads[i];
                            if read.round is Some && read.round->0 <= round {
                                ReadView { acks: read.acks.insert(from), ..read }
                            } else {
                                read
                            }
                        },
                ),
                ..self
            }
        }
    }

    /// Some pending read has no index to wait for yet.
    pub open spec fn has_fresh_read(self) -> bool {
        exists|i: int|
            0 <= i < self.pending_reads.len() && (#[trigger] self.pending_reads[i]).read_index
                is None
    }

    /// Every read that had no index is pinned, all in one new round.
    pub open spec fn pin_reads(self) -> NodeView {
        let round = (self.read_round + 1) as u64;
        NodeView {
            read_round: round,
            pending_reads: Seq::new(
                self.pending_reads.len(),
                |i: int| self.pinned(self.pending_reads[i], round),
            ),
            ..self
        }
    }

    pub open spec fn pinned(self, read: ReadView, round: u64) -> ReadView {
        if read.read_index is Some {
            read
        } else {
            ReadView {
                read_index: Some(
                    if self.cfg.bugs.read_index_at_arrival {
                        read.arrival_index
                    } else {
                        self.commit_index
                    },
                ),
                round: Some(round),
                acks: read.acks.insert(self.id),
                ..read
            }
        }
    }

    /// Leadership was confirmed by a quorum, and the state machine has caught up.
    pub open spec fn is_ready(self, read: ReadView) -> bool {
        &&& read.read_index is Some
        &&& self.cluster.is_quorum(read.acks)
        &&& self.last_applied >= read.read_index->0
    }

    /// Of the first `n` pending reads, those that still wait.
    pub open spec fn waiting(self, n: int) -> Seq<ReadView>
        decreases n,
    {
        if n <= 0 {
            Seq::empty()
        } else if self.is_ready(self.pending_reads[n - 1]) {
            self.waiting(n - 1)
        } else {
            self.waiting(n - 1).push(self.pending_reads[n - 1])
        }
    }

    /// Of the first `n` pending reads, those that are ready, as served.
    pub open spec fn served(self, n: int) -> Seq<OutputView>
        decreases n,
    {
        if n <= 0 {
            Seq::empty()
        } else if self.is_ready(self.pending_reads[n - 1]) {
            let read = self.pending_reads[n - 1];
            self.served(n - 1).push(
                OutputView::ServeRead {
                    client: read.request.client,
                    seq: read.request.seq,
                    command: read.request.command,
                    read_index: read.read_index->0,
                },
            )
        } else {
            self.served(n - 1)
        }
    }
}

impl Turn {
    pub open spec fn begin(node: NodeView) -> Turn {
        Turn {
            node,
            out: OutView { persists: Seq::empty(), sends: Seq::empty(), effects: Seq::empty() },
        }
    }

    pub open spec fn with_node(self, node: NodeView) -> Turn {
        Turn { node, ..self }
    }

    pub open spec fn persist(self, op: PersistView) -> Turn {
        Turn {
            out: OutView { persists: self.out.persists.push(OutputView::Persist(op)), ..self.out },
            ..self
        }
    }

    pub open spec fn send(self, to: u32, msg: MessageView) -> Turn {
        Turn {
            out: OutView { sends: self.out.sends.push(OutputView::Send { to, msg }), ..self.out },
            ..self
        }
    }

    pub open spec fn effect(self, effect: OutputView) -> Turn {
        Turn { out: OutView { effects: self.out.effects.push(effect), ..self.out }, ..self }
    }

    // --- replication -------------------------------------------------------

    /// Append one entry of the current term to the node's own log.
    pub open spec fn append_own(self, payload: PayloadView, client: Option<(u32, u64)>) -> Turn {
        let entry = EntryView {
            term: self.node.current_term,
            index: (self.node.log.last_index() + 1) as u64,
            payload,
            client,
        };
        self.with_node(NodeView { log: self.node.log.append(seq![entry]), ..self.node }).persist(
            PersistView::Append(seq![entry]),
        )
    }

    /// The next index to send to `to`.
    pub open spec fn next_for(self, to: u32) -> u64 {
        if self.node.next_index.contains_key(to) {
            self.node.next_index[to]
        } else {
            (self.node.log.last_index() + 1) as u64
        }
    }

    #[verifier::opaque]
    pub open spec fn send_append_entries_for(self, to: u32, read_round: u64) -> Turn {
        let next = self.next_for(to);
        let prev = one_less(next);
        match self.node.log.term_at(prev) {
            None => self.send_snapshot(to),
            Some(prev_term) => self.send(
                to,
                MessageView::AppendEntries(
                    AppendView {
                        term: self.node.current_term,
                        leader_id: self.node.id,
                        prev_log_index: prev,
                        prev_log_term: prev_term,
                        entries: self.node.log.entries_from(
                            next,
                            self.node.cfg.max_entries_per_append,
                        ),
                        leader_commit: self.node.commit_index,
                        read_round,
                    },
                ),
            ),
        }
    }

    pub open spec fn send_snapshot(self, to: u32) -> Turn {
        match self.node.snapshot {
            None => self,
            Some(snapshot) => self.send(
                to,
                MessageView::InstallSnapshot(
                    InstallView {
                        term: self.node.current_term,
                        leader_id: self.node.id,
                        last_included_index: snapshot.last_included.index,
                        last_included_term: snapshot.last_included.term,
                        config: snapshot.config,
                        data: snapshot.data,
                    },
                ),
            ),
        }
    }

    /// Replicate to the first `n` of `voters`, the node itself excepted.
    pub open spec fn broadcast_to(self, voters: Seq<u32>, n: int, read_round: u64) -> Turn
        decreases n,
    {
        if n <= 0 {
            self
        } else {
            let before = self.broadcast_to(voters, n - 1, read_round);
            if voters[n - 1] == self.node.id {
                before
            } else {
                before.send_append_entries_for(voters[n - 1], read_round)
            }
        }
    }

    #[verifier::opaque]
    pub open spec fn broadcast(self, read_round: u64) -> Turn {
        let voters = crate::order::in_order(self.node.cluster.voters());
        self.broadcast_to(voters, voters.len() as int, read_round)
    }

    // --- elections ---------------------------------------------------------

    /// Ask the first `n` of `voters` for their vote, the node itself excepted.
    pub open spec fn request_votes(self, voters: Seq<u32>, n: int) -> Turn
        decreases n,
    {
        if n <= 0 {
            self
        } else {
            let before = self.request_votes(voters, n - 1);
            if voters[n - 1] == self.node.id {
                before
            } else {
                before.send(
                    voters[n - 1],
                    MessageView::RequestVote(
                        RequestVoteReq {
                            term: self.node.current_term,
                            candidate_id: self.node.id,
                            last_log_index: self.node.log.last_log_id().index,
                            last_log_term: self.node.log.last_log_id().term,
                        },
                    ),
                )
            }
        }
    }

    #[verifier::opaque]
    pub open spec fn start_election(self) -> Turn {
        if !self.node.cluster.contains(self.node.id) {
            self.with_node(self.node.reset_election_deadline())
        } else {
            let candidate = self.with_node(
                NodeView {
                    current_term: (self.node.current_term + 1) as u64,
                    role: Role::Candidate,
                    voted_for: Some(self.node.id),
                    leader_id: None,
                    votes_granted: Set::empty().insert(self.node.id),
                    hard_state_dirty: true,
                    ..self.node
                }.reset_election_deadline(),
            );
            let voters = crate::order::in_order(self.node.cluster.voters());
            let asked = candidate.request_votes(voters, voters.len() as int);
            if asked.node.cluster.is_quorum(asked.node.votes_granted) {
                asked.become_leader()
            } else {
                asked
            }
        }
    }

    #[verifier::opaque]
    pub open spec fn become_leader(self) -> Turn {
        let next = (self.node.log.last_index() + 1) as u64;
        let elected = NodeView {
            role: Role::Leader,
            leader_id: Some(self.node.id),
            votes_granted: Set::empty(),
            next_index: Map::new(|id: u32| self.node.peers().contains(id), |id: u32| next),
            match_index: Map::new(|id: u32| self.node.peers().contains(id), |id: u32| 0u64),
            ..self.node
        };
        let ready = self.with_node(elected).append_own(PayloadView::Noop, None);
        let announced = ready.with_node(
            NodeView {
                heartbeat_deadline: (self.node.now + self.node.cfg.heartbeat_interval) as u64,
                last_heard_from_leader: self.node.now,
                ..ready.node
            },
        ).broadcast(0);
        announced.with_node(announced.node.maybe_advance_commit())
    }

    #[verifier::opaque]
    pub open spec fn on_tick(self) -> Turn {
        if self.node.role == Role::Leader {
            if self.node.now >= self.node.heartbeat_deadline {
                self.with_node(
                    NodeView {
                        heartbeat_deadline: (self.node.now + self.node.cfg.heartbeat_interval) as u64,
                        last_heard_from_leader: self.node.now,
                        ..self.node
                    },
                ).broadcast(0)
            } else {
                self
            }
        } else if self.node.now >= self.node.election_deadline {
            self.start_election()
        } else {
            self
        }
    }

    // --- messages ----------------------------------------------------------

    #[verifier::opaque]
    pub open spec fn reject_stale(self, from: u32, msg: MessageView) -> Turn {
        match msg {
            MessageView::RequestVote(_) => self.send(
                from,
                MessageView::RequestVoteResp(
                    RequestVoteResp { term: self.node.current_term, vote_granted: false },
                ),
            ),
            MessageView::AppendEntries(req) => self.send(
                from,
                MessageView::AppendEntriesResp(
                    AppendEntriesResp {
                        term: self.node.current_term,
                        success: false,
                        match_index: 0,
                        conflict: None,
                        probed_index: req.prev_log_index,
                        read_round: req.read_round,
                    },
                ),
            ),
            MessageView::InstallSnapshot(req) => self.send(
                from,
                MessageView::InstallSnapshotResp(
                    InstallSnapshotResp {
                        term: self.node.current_term,
                        last_included_index: req.last_included_index,
                    },
                ),
            ),
            _ => self,
        }
    }

    #[verifier::opaque]
    pub open spec fn on_message(self, from: u32, msg: MessageView) -> Turn {
        if msg is RequestVote && self.node.ignores_vote_requests() {
            self
        } else {
            let leader = match msg {
                MessageView::AppendEntries(m) => Some(m.leader_id),
                _ => None,
            };
            let current = if msg.term() > self.node.current_term {
                self.with_node(self.node.become_follower(msg.term(), leader))
            } else {
                self
            };
            if msg.term() < current.node.current_term {
                current.reject_stale(from, msg)
            } else {
                current.on_current_message(from, msg)
            }
        }
    }

    /// A message of the node's own term.
    #[verifier::opaque]
    pub open spec fn on_current_message(self, from: u32, msg: MessageView) -> Turn {
        match msg {
            MessageView::RequestVote(req) => self.on_request_vote(from, req),
            MessageView::AppendEntries(req) => self.concede_to(req.leader_id).on_append_entries(
                from,
                req,
            ),
            MessageView::InstallSnapshot(req) => self.concede_to(
                req.leader_id,
            ).on_install_snapshot(from, req),
            MessageView::InstallSnapshotResp(resp) => if self.node.role == Role::Leader {
                self.on_install_snapshot_resp(from, resp)
            } else {
                self
            },
            MessageView::RequestVoteResp(resp) => if self.node.role == Role::Candidate {
                self.on_request_vote_resp(from, resp)
            } else {
                self
            },
            MessageView::AppendEntriesResp(resp) => if self.node.role == Role::Leader {
                self.on_append_entries_resp(from, resp)
            } else {
                self
            },
        }
    }

    /// Another node leads this term: follow it.
    pub open spec fn concede_to(self, leader: u32) -> Turn {
        if self.node.role == Role::Follower {
            self
        } else {
            self.with_node(self.node.become_follower(self.node.current_term, Some(leader)))
        }
    }

    #[verifier::opaque]
    pub open spec fn on_request_vote(self, from: u32, req: RequestVoteReq) -> Turn {
        let granted = {
            &&& self.node.voted_for is None || self.node.voted_for == Some(req.candidate_id)
                || self.node.cfg.bugs.vote_twice_per_term
            &&& LogId { index: req.last_log_index, term: req.last_log_term }.up_to_date_with(
                self.node.log.last_log_id(),
            )
            &&& self.node.cluster.contains(req.candidate_id)
        };
        let voted = if granted {
            NodeView {
                voted_for: Some(req.candidate_id),
                hard_state_dirty: true,
                ..self.node
            }.reset_election_deadline()
        } else {
            self.node
        };
        self.with_node(voted).send(
            from,
            MessageView::RequestVoteResp(
                RequestVoteResp { term: self.node.current_term, vote_granted: granted },
            ),
        )
    }

    #[verifier::opaque]
    pub open spec fn on_request_vote_resp(self, from: u32, resp: RequestVoteResp) -> Turn {
        if !resp.vote_granted {
            self
        } else {
            let counted = self.with_node(
                NodeView { votes_granted: self.node.votes_granted.insert(from), ..self.node },
            );
            if counted.node.cluster.is_quorum(counted.node.votes_granted) {
                counted.become_leader()
            } else {
                counted
            }
        }
    }

    /// The node hears from `leader`, the leader of its term.
    pub open spec fn hear_from(self, leader: u32) -> Turn {
        self.with_node(
            NodeView {
                leader_id: Some(leader),
                last_heard_from_leader: self.node.now,
                ..self.node
            }.reset_election_deadline(),
        )
    }

    /// Take `entries[k..]` into the log, dropping what conflicts with them.
    pub open spec fn take_entries(self, entries: Seq<EntryView>, k: int) -> Turn {
        let entry = entries[k];
        let rest = entries.skip(k);
        let cleared = if self.node.log.term_at(entry.index) is Some {
            let shorter = NodeView {
                log: self.node.log.truncate_from(entry.index),
                ..self.node
            };
            self.with_node(
                if self.node.config_index >= entry.index {
                    shorter.refresh_config()
                } else {
                    shorter
                },
            ).persist(PersistView::TruncateFrom(entry.index))
        } else {
            self
        };
        cleared.with_node(
            NodeView { log: cleared.node.log.append(rest), ..cleared.node }.adopt_configs(rest),
        ).persist(PersistView::Append(rest))
    }

    #[verifier::opaque]
    pub open spec fn on_append_entries(self, from: u32, req: AppendView) -> Turn {
        let heard = self.hear_from(req.leader_id);
        if heard.node.log.term_at(req.prev_log_index) != Some(req.prev_log_term) {
            heard.send(
                from,
                MessageView::AppendEntriesResp(
                    AppendEntriesResp {
                        term: heard.node.current_term,
                        success: false,
                        match_index: 0,
                        conflict: Some(heard.node.log.conflict_hint(req.prev_log_index)),
                        probed_index: req.prev_log_index,
                        read_round: req.read_round,
                    },
                ),
            )
        } else {
            let k = heard.node.log.first_difference(req.entries, 0);
            let taken = if k < req.entries.len() {
                heard.take_entries(req.entries, k)
            } else {
                heard
            };
            let agreed = if k < req.entries.len() {
                taken.node.log.last_index()
            } else if req.entries.len() > 0 {
                req.entries.last().index
            } else {
                req.prev_log_index
            };
            taken.with_node(
                NodeView { commit_index: taken.node.learned_commit(req.leader_commit, agreed), ..taken.node },
            ).send(
                from,
                MessageView::AppendEntriesResp(
                    AppendEntriesResp {
                        term: taken.node.current_term,
                        success: true,
                        match_index: agreed,
                        conflict: None,
                        probed_index: req.prev_log_index,
                        read_round: req.read_round,
                    },
                ),
            )
        }
    }

    #[verifier::opaque]
    pub open spec fn on_append_entries_resp(self, from: u32, resp: AppendEntriesResp) -> Turn {
        if !self.node.cluster.contains(from) {
            self
        } else if resp.success {
            self.with_node(self.node.note_read_ack(from, resp.read_round)).advance_match(
                from,
                resp.match_index,
            )
        } else {
            let next = self.next_for(from);
            if resp.probed_index + 1 != next {
                self
            } else {
                self.with_node(
                    NodeView {
                        next_index: self.node.next_index.insert(
                            from,
                            self.node.backed_up(next, resp.conflict),
                        ),
                        ..self.node
                    },
                ).send_append_entries_for(from, 0)
            }
        }
    }

    /// `from` is known to hold everything up to `index`; what is known never
    /// goes back. If it is still behind, send it more.
    pub open spec fn advance_match(self, from: u32, index: u64) -> Turn {
        let known = if self.node.match_index.contains_key(from) {
            self.node.match_index[from]
        } else {
            0
        };
        let m = max_of(known, index);
        let advanced = self.with_node(
            NodeView {
                match_index: self.node.match_index.insert(from, m),
                next_index: self.node.next_index.insert(from, (m + 1) as u64),
                ..self.node
            }.maybe_advance_commit(),
        );
        if m < advanced.node.log.last_index() {
            advanced.send_append_entries_for(from, 0)
        } else {
            advanced
        }
    }

    // --- application -------------------------------------------------------

    #[verifier::opaque]
    pub open spec fn advance_apply(self) -> Turn
        decreases self.node.commit_index - self.node.last_applied,
    {
        let index = (self.node.last_applied + 1) as u64;
        if self.node.last_applied >= self.node.commit_index || !self.node.log.holds(index) {
            self
        } else {
            let entry = self.node.log.at(index);
            self.with_node(NodeView { last_applied: index, ..self.node }).effect(
                OutputView::Apply {
                    index,
                    term: entry.term,
                    payload: entry.payload,
                    client: entry.client,
                    respond: self.node.role == Role::Leader,
                },
            ).advance_apply()
        }
    }

    // --- reads -------------------------------------------------------------

    #[verifier::opaque]
    pub open spec fn begin_read(self, request: RequestView) -> Turn {
        let early = self.node.cfg.bugs.read_index_at_arrival;
        let round = (self.node.read_round + 1) as u64;
        let queued = self.with_node(
            NodeView {
                read_round: if early {
                    round
                } else {
                    self.node.read_round
                },
                pending_reads: self.node.pending_reads.push(
                    ReadView {
                        request,
                        arrival_index: self.node.commit_index,
                        read_index: if early {
                            Some(self.node.commit_index)
                        } else {
                            None
                        },
                        round: if early {
                            Some(round)
                        } else {
                            None
                        },
                        acks: if early {
                            Set::empty().insert(self.node.id)
                        } else {
                            Set::empty()
                        },
                    },
                ),
                ..self.node
            },
        );
        let asked = if early {
            queued.broadcast(round)
        } else {
            queued
        };
        asked.resolve_reads()
    }

    #[verifier::opaque]
    pub open spec fn resolve_reads(self) -> Turn {
        if self.node.pending_reads.len() == 0 {
            self
        } else if self.node.role != Role::Leader {
            self.with_node(NodeView { pending_reads: Seq::empty(), ..self.node })
        } else if self.node.log.term_at(self.node.commit_index) != Some(self.node.current_term) {
            self
        } else {
            let pinned = if self.node.has_fresh_read() {
                let p = self.with_node(self.node.pin_reads());
                p.broadcast(p.node.read_round)
            } else {
                self
            };
            pinned.serve_ready()
        }
    }

    pub open spec fn serve_ready(self) -> Turn {
        let n = self.node.pending_reads.len() as int;
        Turn {
            node: NodeView { pending_reads: self.node.waiting(n), ..self.node },
            out: OutView { effects: self.out.effects + self.node.served(n), ..self.out },
        }
    }

    // --- membership --------------------------------------------------------

    /// Append a configuration, adopt it, and replicate it to everyone in it.
    pub open spec fn append_config(self, config: ConfigView) -> Turn {
        let appended = self.append_own(PayloadView::Config(config), None);
        let adopted = appended.with_node(
            NodeView {
                cluster: config,
                config_index: (self.node.log.last_index() + 1) as u64,
                ..appended.node
            }.reset_replication_state(),
        ).broadcast(0);
        adopted.with_node(adopted.node.maybe_advance_commit())
    }

    #[verifier::opaque]
    pub open spec fn on_change_membership(self, voters: Set<u32>) -> Turn {
        if self.node.role != Role::Leader {
            self.effect(
                OutputView::ClientResponse {
                    client: 0,
                    seq: 0,
                    result: ClientResult::NotLeader { leader: self.node.leader_id },
                },
            )
        } else if self.node.cluster.is_joint() || self.node.config_index > self.node.commit_index {
            self.effect(
                OutputView::ClientResponse {
                    client: 0,
                    seq: 0,
                    result: ClientResult::ChangeInProgress,
                },
            )
        } else if voters == Set::<u32>::empty() {
            self
        } else {
            self.append_config(ConfigView { old: self.node.cluster.old, new: Some(voters) })
        }
    }

    #[verifier::opaque]
    pub open spec fn after_commit(self) -> Turn {
        if self.node.role != Role::Leader {
            self
        } else {
            let changed = if self.node.cluster.is_joint() && self.node.config_index
                <= self.node.commit_index {
                self.append_config(self.node.cluster.to_new()->0)
            } else {
                self
            };
            if !changed.node.cluster.is_joint() && changed.node.config_index
                <= changed.node.commit_index && !changed.node.cluster.contains(changed.node.id) {
                changed.with_node(changed.node.become_follower(changed.node.current_term, None))
            } else {
                changed
            }
        }
    }

    // --- snapshots ---------------------------------------------------------

    #[verifier::opaque]
    pub open spec fn on_compact(self, snapshot: SnapshotView) -> Turn {
        let through = snapshot.last_included;
        let kept = SnapshotView { config: self.node.config_at(through.index), ..snapshot };
        if through.index > self.node.last_applied || through.index
            <= self.node.log.last_included.index || self.node.log.term_at(through.index) != Some(
            through.term,
        ) {
            self
        } else {
            self.with_node(
                NodeView {
                    base_config: kept.config,
                    snapshot: Some(kept),
                    log: self.node.log.compact(through),
                    ..self.node
                },
            ).persist(PersistView::Snapshot(kept)).persist(PersistView::Compact(through))
        }
    }

    #[verifier::opaque]
    pub open spec fn on_install_snapshot(self, from: u32, req: InstallView) -> Turn {
        let heard = self.hear_from(req.leader_id);
        let through = LogId { index: req.last_included_index, term: req.last_included_term };
        if through.index <= heard.node.commit_index {
            heard.send(
                from,
                MessageView::InstallSnapshotResp(
                    InstallSnapshotResp {
                        term: heard.node.current_term,
                        last_included_index: heard.node.commit_index,
                    },
                ),
            )
        } else {
            let snapshot = SnapshotView {
                last_included: through,
                config: req.config,
                data: req.data,
            };
            let confirmed = heard.node.log.term_at(through.index) == Some(through.term);
            heard.with_node(
                NodeView {
                    commit_index: through.index,
                    last_applied: max_of(heard.node.last_applied, through.index),
                    snapshot: Some(snapshot),
                    ..NodeView {
                        log: heard.node.log.reconcile(through),
                        base_config: req.config,
                        ..heard.node
                    }.refresh_config()
                },
            ).persist(PersistView::Snapshot(snapshot)).persist(
                if confirmed {
                    PersistView::Compact(through)
                } else {
                    PersistView::ResetLog(through)
                },
            ).effect(OutputView::RestoreSnapshot { snapshot }).send(
                from,
                MessageView::InstallSnapshotResp(
                    InstallSnapshotResp {
                        term: heard.node.current_term,
                        last_included_index: through.index,
                    },
                ),
            )
        }
    }

    #[verifier::opaque]
    pub open spec fn on_install_snapshot_resp(self, from: u32, resp: InstallSnapshotResp) -> Turn {
        if !self.node.cluster.contains(from) {
            self
        } else {
            self.advance_match(from, resp.last_included_index)
        }
    }

    // --- clients -----------------------------------------------------------

    #[verifier::opaque]
    pub open spec fn on_client_request(self, req: RequestView) -> Turn {
        if self.node.role != Role::Leader {
            self.effect(
                OutputView::ClientResponse {
                    client: req.client,
                    seq: req.seq,
                    result: ClientResult::NotLeader { leader: self.node.leader_id },
                },
            )
        } else if req.read_only {
            self.begin_read(req)
        } else {
            let sent = self.append_own(
                PayloadView::Command(req.command),
                Some((req.client, req.seq)),
            ).broadcast(0);
            sent.with_node(sent.node.maybe_advance_commit())
        }
    }

    // --- the step ----------------------------------------------------------

    #[verifier::opaque]
    pub open spec fn on_input(self, input: InputView) -> Turn {
        match input {
            InputView::Tick => self.on_tick(),
            InputView::Message { from, msg } => self.on_message(from, msg),
            InputView::ClientRequest(req) => self.on_client_request(req),
            InputView::Compact(snapshot) => self.on_compact(snapshot),
            InputView::ChangeMembership(voters) => self.on_change_membership(voters),
        }
    }

    /// What follows every input: membership follow-ups, application, reads.
    #[verifier::opaque]
    pub open spec fn settle(self) -> Turn {
        let committed = self.after_commit();
        if self.node.cfg.bugs.read_index_at_arrival {
            committed.resolve_reads().advance_apply()
        } else {
            committed.advance_apply().resolve_reads()
        }
    }

    /// The durable write that covers whatever the step changed of the term and
    /// the vote.
    pub open spec fn hard_state(self) -> Seq<OutputView> {
        if self.node.hard_state_dirty && !self.node.cfg.bugs.skip_hard_state_persistence {
            seq![
                OutputView::Persist(
                    PersistView::HardState {
                        current_term: self.node.current_term,
                        voted_for: self.node.voted_for,
                    },
                ),
            ]
        } else {
            Seq::empty()
        }
    }

    /// Everything the step asks for: durable writes, then messages, then the
    /// rest.
    pub open spec fn outputs(self) -> Seq<OutputView> {
        self.hard_state() + self.out.persists + self.out.sends + self.out.effects
    }
}

impl NodeView {
    /// What the node knows to be committed after hearing `leader_commit` from a
    /// leader with which it agrees up to `agreed`.
    pub open spec fn learned_commit(self, leader_commit: u64, agreed: u64) -> u64 {
        if leader_commit > self.commit_index {
            max_of(
                if self.cfg.bugs.trust_leader_commit_blindly {
                    leader_commit
                } else {
                    min_of(leader_commit, agreed)
                },
                self.commit_index,
            )
        } else {
            self.commit_index
        }
    }

    /// Where to probe next after a rejection of the probe before `next`.
    pub open spec fn backed_up(self, next: u64, conflict: Option<ConflictHint>) -> u64 {
        match conflict {
            Some(hint) if hint.term is None && hint.first_index > next => hint.first_index,
            _ => {
                let candidate = match conflict {
                    Some(hint) => match hint.term {
                        Some(t) => match self.log.last_index_of_term(t) {
                            Some(index) => (index + 1) as u64,
                            None => hint.first_index,
                        },
                        None => hint.first_index,
                    },
                    None => one_less(next),
                };
                let top = max_of(one_less(next), 1);
                min_of(max_of(candidate, 1), top)
            },
        }
    }

    /// The step's turn, before its outputs are put in order.
    pub open spec fn turn(self, input: InputView, now: u64) -> Turn {
        Turn::begin(NodeView { now, ..self }).on_input(input).settle()
    }

    /// The state after a step.
    pub open spec fn stepped(self, input: InputView, now: u64) -> NodeView {
        NodeView { hard_state_dirty: false, ..self.turn(input, now).node }
    }

    /// What a step asks for, in order.
    pub open spec fn step_outputs(self, input: InputView, now: u64) -> Seq<OutputView> {
        self.turn(input, now).outputs()
    }
}

} // verus!
