//! The simulator: owns the clock, the network, the disks and the nodes.
//!
//! The main loop is deliberately dull: pop the earliest event, advance the
//! virtual clock to it, deliver it to its node, do what the node asks for,
//! re-arm that node's timer. There is no concurrency, no clock and no entropy
//! other than the seeded generators, so a run is a pure function of its
//! [`SimConfig`]: [`crate::cluster_model`], exactly.
use crate::cluster_model::{AnswerView, AppliedView, ClusterView, HostView, KindOfOutcome, SimView};
use crate::event::{Event, EventQueue};
use crate::faults::{DiskConfig, Fault, FaultConfig, FaultView, Partitions};
use crate::history::History;
use crate::invariants::{Invariant, Invariants, Violation};
use crate::kv::{KvCommand, KvResult, KvStore};
use crate::linearizability::Verdict;
use crate::network::{Network, NetworkConfig, NetworkStats, Routed};
use crate::storage::Storage;
use crate::timeline::{Moment, Timeline};
use crate::trace::{KindView, Trace, TraceKind};
use crate::{
    ClientId, ClientRequest, ClientResult, ClusterConfig, EntryPayload, Index, Input, LogId, NodeId,
    Output, PersistOp, RaftConfig, RaftMessage, RaftNode, Rng, Role, Snapshot, Term, Tick,
};
use std::collections::BTreeSet;
use vstd::prelude::*;

verus! {

broadcast use {vstd::laws_cmp::group_laws_cmp, vstd::std_specs::btree::group_btree_axioms};

// ---------------------------------------------------------------------------
// Configuration
// ---------------------------------------------------------------------------

/// Everything that defines a run. Same config, same run, always.
#[derive(Debug, PartialEq, Eq)]
pub struct SimConfig {
    pub seed: u64,
    pub nodes: usize,
    pub raft: RaftConfig,
    pub network: NetworkConfig,
    /// Partitions and other disturbances over the course of the run.
    pub faults: FaultConfig,
    /// Disk behaviour.
    pub disk: DiskConfig,
    /// Maximum per-node clock rate deviation, per mille. Nothing in Raft may
    /// depend on two nodes agreeing about how fast time passes.
    pub clock_skew_permille: u32,
    /// Record every input and output.
    pub record_trace: bool,
    /// Replay this exact list of faults instead of generating a schedule.
    pub scripted_faults: Option<Vec<(Tick, Fault)>>,
    /// Which nodes start as voters. `None` means all of them.
    pub initial_voters: Option<Vec<NodeId>>,
    /// Take a snapshot and compact the log every this many applied entries.
    pub snapshot_every: Option<u64>,
    /// Deliberate bug, off by default: let a leader answer reads straight from
    /// its own state machine. No internal invariant can catch it: only the
    /// client-visible history is wrong.
    pub stale_reads: bool,
    /// Run the safety checkers after every event.
    pub check_invariants: bool,
}

/// A list of timed faults, each by its view.
pub open spec fn faults_view(s: Seq<(Tick, Fault)>) -> Seq<(u64, FaultView)> {
    Seq::new(s.len(), |i: int| (s[i].0, s[i].1@))
}

impl View for SimConfig {
    type V = SimView;

    open spec fn view(&self) -> SimView {
        SimView {
            seed: self.seed,
            nodes: self.nodes,
            raft: self.raft,
            network: self.network,
            faults: self.faults,
            disk: self.disk,
            clock_skew_permille: self.clock_skew_permille,
            record_trace: self.record_trace,
            scripted_faults: match self.scripted_faults {
                Some(script) => Some(faults_view(script@)),
                None => None,
            },
            initial_voters: match self.initial_voters {
                Some(voters) => Some(voters@),
                None => None,
            },
            snapshot_every: self.snapshot_every,
            stale_reads: self.stale_reads,
            check_invariants: self.check_invariants,
        }
    }
}

/// A copy of a list of timed faults.
pub fn copy_faults(faults: &Vec<(Tick, Fault)>) -> (r: Vec<(Tick, Fault)>)
    ensures
        faults_view(r@) == faults_view(faults@),
{
    let mut r: Vec<(Tick, Fault)> = Vec::new();
    let mut i: usize = 0;
    while i < faults.len()
        invariant
            i <= faults@.len(),
            r@.len() == i,
            forall|k: int|
                0 <= k < i ==> (#[trigger] r@[k]).0 == faults@[k].0 && r@[k].1@ == faults@[k].1@,
        decreases faults@.len() - i,
    {
        r.push((faults[i].0, faults[i].1.clone()));
        i = i + 1;
    }
    assert(faults_view(r@) =~= faults_view(faults@));
    r
}

impl Clone for SimConfig {
    fn clone(&self) -> (r: Self)
        ensures
            r@ == self@,
    {
        SimConfig {
            seed: self.seed,
            nodes: self.nodes,
            raft: self.raft,
            network: self.network,
            faults: self.faults,
            disk: self.disk,
            clock_skew_permille: self.clock_skew_permille,
            record_trace: self.record_trace,
            scripted_faults: match &self.scripted_faults {
                Some(script) => Some(copy_faults(script)),
                None => None,
            },
            initial_voters: match &self.initial_voters {
                Some(voters) => Some(crate::faults::copy_ids(voters.as_slice())),
                None => None,
            },
            snapshot_every: self.snapshot_every,
            stale_reads: self.stale_reads,
            check_invariants: self.check_invariants,
        }
    }
}

impl SimView {
    /// The plain run of a seed.
    pub open spec fn plain(seed: u64) -> SimView {
        SimView {
            seed,
            nodes: 3,
            raft: RaftConfig::standard(),
            network: NetworkConfig::perfect(),
            faults: FaultConfig::none(),
            disk: DiskConfig::reliable(),
            clock_skew_permille: 0,
            record_trace: true,
            scripted_faults: None,
            initial_voters: None,
            snapshot_every: None,
            stale_reads: false,
            check_invariants: true,
        }
    }
}

impl Default for SimConfig {
    fn default() -> (r: Self)
        ensures
            r@ == SimView::plain(0),
    {
        SimConfig::with_seed(0)
    }
}

impl SimConfig {
    pub fn with_seed(seed: u64) -> (r: Self)
        ensures
            r@ == SimView::plain(seed),
    {
        SimConfig {
            seed,
            nodes: 3,
            raft: RaftConfig::default(),
            network: NetworkConfig::default(),
            faults: FaultConfig::default(),
            disk: DiskConfig::default(),
            clock_skew_permille: 0,
            record_trace: true,
            scripted_faults: None,
            initial_voters: None,
            snapshot_every: None,
            stale_reads: false,
            check_invariants: true,
        }
    }

    /// Can a cluster be built from this?
    pub fn is_valid(&self) -> (r: bool)
        ensures
            r == self@.valid(),
    {
        let voters_ok = match &self.initial_voters {
            Some(v) => v.len() > 0,
            None => true,
        };
        self.nodes > 0 && self.nodes as u64 <= u32::MAX as u64 && self.raft.election_timeout_min
            < self.raft.election_timeout_max && voters_ok
    }

    /// The membership the cluster starts with.
    fn initial_config(&self) -> (r: ClusterConfig)
        requires
            self@.valid(),
        ensures
            r@ == self@.initial_config(),
    {
        match &self.initial_voters {
            Some(voters) => ClusterConfig::new(voters.as_slice()),
            None => {
                let ids = id_list(self.nodes);
                ClusterConfig::new(ids.as_slice())
            },
        }
    }
}

/// The ids of `n` nodes.
fn id_list(n: usize) -> (r: Vec<NodeId>)
    requires
        n <= u32::MAX,
    ensures
        r@ == crate::cluster_model::ids(n as nat),
{
    let mut r: Vec<NodeId> = Vec::new();
    let mut i: usize = 0;
    while i < n
        invariant
            i <= n <= u32::MAX,
            r@ == crate::cluster_model::ids(i as nat),
        decreases n - i,
    {
        r.push(i as u32);
        i = i + 1;
        assert(r@ =~= crate::cluster_model::ids(i as nat));
    }
    assert(r@ =~= crate::cluster_model::ids(n as nat));
    r
}

// ---------------------------------------------------------------------------
// What a run records
// ---------------------------------------------------------------------------

/// What a client learned about one request.
#[derive(Debug, PartialEq, Eq)]
pub struct ClientOutcome {
    pub client: ClientId,
    pub seq: u64,
    pub node: NodeId,
    pub tick: Tick,
    pub result: OutcomeKind,
}

#[derive(Debug, PartialEq, Eq)]
pub enum OutcomeKind {
    /// The command committed and the state machine produced this.
    Applied(KvResult),
    /// The node was not the leader; the request never entered the log.
    NotLeader { leader: Option<NodeId> },
}

impl View for OutcomeKind {
    type V = KindOfOutcome;

    open spec fn view(&self) -> KindOfOutcome {
        match *self {
            OutcomeKind::Applied(r) => KindOfOutcome::Applied(r@),
            OutcomeKind::NotLeader { leader } => KindOfOutcome::NotLeader { leader },
        }
    }
}

impl View for ClientOutcome {
    type V = AnswerView;

    open spec fn view(&self) -> AnswerView {
        AnswerView {
            client: self.client,
            seq: self.seq,
            node: self.node,
            tick: self.tick,
            result: self.result@,
        }
    }
}

pub open spec fn answers_view(s: Seq<ClientOutcome>) -> Seq<AnswerView> {
    Seq::new(s.len(), |i: int| s[i]@)
}

/// Whether a node is currently able to process anything.
#[derive(Clone, Copy, Debug, PartialEq, Eq, Structural)]
pub enum NodeStatus {
    Running,
    /// Dead. Messages addressed to it are discarded, and everything volatile is
    /// gone; only the contents of its disk survive.
    Crashed,
    /// Frozen until this tick. Messages addressed to it are held rather than
    /// lost, the way a kernel socket buffer holds them for a stopped process.
    Paused { until: Tick },
}

/// What actually happened during a run.
///
/// A run reporting no violations is only evidence of anything alongside proof
/// that it reached the interesting states.
#[derive(Clone, Copy, Debug, PartialEq, Eq, Structural)]
pub struct RunStats {
    /// Elections started (a node became a candidate).
    pub elections_started: u64,
    /// Elections won.
    pub leaders_elected: u64,
    /// Highest term any node reached.
    pub max_term: Term,
    /// Log truncations: a follower discarding entries that conflicted with the
    /// leader's.
    pub log_truncations: u64,
    /// Entries discarded by those truncations.
    pub entries_truncated: u64,
    pub entries_applied: u64,
    pub client_responses: u64,
    pub faults_injected: u64,
    pub crashes: u64,
    pub torn_steps: u64,
    pub restarts: u64,
    pub pauses: u64,
    /// Messages held while a node was paused and redelivered on resume.
    pub messages_deferred: u64,
    pub snapshots_taken: u64,
    pub snapshots_installed: u64,
    pub membership_changes: u64,
    /// Reads answered without a log entry.
    pub reads_served: u64,
}

impl RunStats {
    pub open spec fn zero() -> RunStats {
        RunStats {
            elections_started: 0,
            leaders_elected: 0,
            max_term: 0,
            log_truncations: 0,
            entries_truncated: 0,
            entries_applied: 0,
            client_responses: 0,
            faults_injected: 0,
            crashes: 0,
            torn_steps: 0,
            restarts: 0,
            pauses: 0,
            messages_deferred: 0,
            snapshots_taken: 0,
            snapshots_installed: 0,
            membership_changes: 0,
            reads_served: 0,
        }
    }
}

impl Default for RunStats {
    fn default() -> (r: Self)
        ensures
            r == RunStats::zero(),
    {
        RunStats {
            elections_started: 0,
            leaders_elected: 0,
            max_term: 0,
            log_truncations: 0,
            entries_truncated: 0,
            entries_applied: 0,
            client_responses: 0,
            faults_injected: 0,
            crashes: 0,
            torn_steps: 0,
            restarts: 0,
            pauses: 0,
            messages_deferred: 0,
            snapshots_taken: 0,
            snapshots_installed: 0,
            membership_changes: 0,
            reads_served: 0,
        }
    }
}

/// One entry as seen by a node's state machine. Recorded per node so that State
/// Machine Safety is a direct comparison rather than an inference.
#[derive(Debug, PartialEq, Eq)]
pub struct AppliedEntry {
    pub index: Index,
    pub term: Term,
    pub command: Option<KvCommand>,
}

impl View for AppliedEntry {
    type V = AppliedView;

    open spec fn view(&self) -> AppliedView {
        AppliedView {
            index: self.index,
            term: self.term,
            command: crate::kv::command_view(self.command),
        }
    }
}

pub open spec fn applied_view(s: Seq<AppliedEntry>) -> Seq<AppliedView> {
    Seq::new(s.len(), |i: int| s[i]@)
}

// ---------------------------------------------------------------------------
// The cluster
// ---------------------------------------------------------------------------

/// One node, its disk, its state machine and its place in the simulation.
struct Host {
    node: RaftNode,
    disk: Storage,
    machine: KvStore,
    applied: Vec<AppliedEntry>,
    status: NodeStatus,
    clock_rate: u64,
    restarts: u64,
    timer_at: Option<Tick>,
    compacting: bool,
}

impl View for Host {
    type V = HostView;

    closed spec fn view(&self) -> HostView {
        HostView {
            node: self.node@,
            disk: self.disk@,
            machine: self.machine@,
            applied: applied_view(self.applied@),
            status: self.status,
            clock_rate: self.clock_rate,
            restarts: self.restarts,
            timer_at: self.timer_at,
            compacting: self.compacting,
        }
    }
}

spec fn hosts_view(s: Seq<Host>) -> Seq<HostView> {
    Seq::new(s.len(), |i: int| s[i]@)
}

impl Host {
    spec fn wf(&self, anchored: bool) -> bool {
        &&& self.node@.wf()
        &&& self.disk@.wf()
        &&& self.disk@.log.zero_anchor == anchored
        &&& self.machine.wf()
        &&& self.clock_rate > 0
    }
}

pub struct Cluster {
    cfg: SimConfig,
    now: Tick,
    queue: EventQueue,
    hosts: Vec<Host>,
    net: Network,
    net_rng: Rng,
    fault_rng: Rng,
    disk_rng: Rng,
    disturbed: bool,
    faults_injected: Vec<(Tick, Fault)>,
    trace: Trace,
    checker: Invariants,
    history: History,
    timeline: Timeline,
    stats: RunStats,
    outcomes: Vec<ClientOutcome>,
    answered: BTreeSet<(ClientId, u64)>,
    events_processed: u64,
}

impl View for Cluster {
    type V = ClusterView;

    closed spec fn view(&self) -> ClusterView {
        ClusterView {
            cfg: self.cfg@,
            now: self.now,
            queue: self.queue@,
            hosts: hosts_view(self.hosts@),
            net: self.net@,
            net_rng: self.net_rng@,
            fault_rng: self.fault_rng@,
            disk_rng: self.disk_rng@,
            disturbed: self.disturbed,
            faults_injected: faults_view(self.faults_injected@),
            trace: self.trace@,
            checker: self.checker@,
            history: self.history@,
            timeline: self.timeline@,
            stats: self.stats,
            outcomes: answers_view(self.outcomes@),
            answered: self.answered@,
            events_processed: self.events_processed,
        }
    }
}

impl Cluster {
    /// The configuration is one a cluster can be built from, and every node is
    /// in order.
    pub closed spec fn wf(&self) -> bool {
        &&& self.cfg@.valid()
        &&& self.hosts@.len() == self.cfg.nodes
        &&& forall|i: int|
            0 <= i < self.hosts@.len() ==> (#[trigger] self.hosts@[i]).wf(
                self.cfg.raft.bugs.compaction_anchor_at_zero,
            )
    }

    /// A cluster has nodes, and ids enough for them.
    pub proof fn lemma_size(&self)
        requires
            self.wf(),
        ensures
            0 < self@.hosts.len() <= u32::MAX,
            self@.hosts.len() == self@.cfg.nodes,
            self@.cfg.valid(),
    {
    }

    /// What no operation changes.
    pub closed spec fn same_run(&self, other: &Cluster) -> bool {
        &&& self.cfg@ == other.cfg@
        &&& self.hosts@.len() == other.hosts@.len()
        &&& self.now == other.now
        &&& self.events_processed == other.events_processed
    }

    // --- small changes -----------------------------------------------------

    fn mark(&mut self, moment: Moment)
        requires
            old(self).wf(),
        ensures
            final(self).wf(),
            final(self).same_run(old(self)),
            final(self)@ == old(self)@.marked(moment@),
    {
        let tick: u64 = self.now;
        self.timeline.push(tick, moment);
    }

    fn record(&mut self, seq: u64, node: NodeId, kind: TraceKind)
        requires
            old(self).wf(),
        ensures
            final(self).wf(),
            final(self).same_run(old(self)),
            final(self)@ == old(self)@.traced(seq, node, kind@),
    {
        let tick: u64 = self.now;
        self.trace.push(tick, seq, node, kind);
    }

    fn schedule(&mut self, at: Tick, event: Event)
        requires
            old(self).wf(),
        ensures
            final(self).wf(),
            final(self).same_run(old(self)),
            final(self)@ == old(self)@.schedule(at, event@),
    {
        let _ = self.queue.push(at, event);
    }

    fn set_status(&mut self, node: NodeId, status: NodeStatus)
        requires
            old(self).wf(),
            old(self)@.has(node),
        ensures
            final(self).wf(),
            final(self).same_run(old(self)),
            final(self)@ == old(self)@.set_status(node, status),
    {
        self.hosts[node as usize].status = status;
        assert(self@.hosts =~= old(self)@.set_status(node, status).hosts);
    }

    fn set_timer(&mut self, node: NodeId, timer_at: Option<Tick>)
        requires
            old(self).wf(),
            old(self)@.has(node),
        ensures
            final(self).wf(),
            final(self).same_run(old(self)),
            final(self)@ == old(self)@.set_timer(node, timer_at),
    {
        self.hosts[node as usize].timer_at = timer_at;
        assert(self@.hosts =~= old(self)@.set_timer(node, timer_at).hosts);
    }

    fn set_compacting(&mut self, node: NodeId, compacting: bool)
        requires
            old(self).wf(),
            old(self)@.has(node),
        ensures
            final(self).wf(),
            final(self).same_run(old(self)),
            final(self)@ == old(self)@.set_compacting(node, compacting),
    {
        self.hosts[node as usize].compacting = compacting;
        assert(self@.hosts =~= old(self)@.set_compacting(node, compacting).hosts);
    }

    /// Does the cluster have this node?
    fn has(&self, node: NodeId) -> (r: bool)
        requires
            self.wf(),
        ensures
            r == self@.has(node),
    {
        let n: usize = self.hosts.len();
        (node as usize) < n
    }

    fn is_available(&self, node: NodeId) -> (r: bool)
        requires
            self.wf(),
        ensures
            r == self@.is_available(node),
    {
        if !self.has(node) {
            return false;
        }
        match self.hosts[node as usize].status {
            NodeStatus::Running => true,
            _ => false,
        }
    }

    // --- clocks ------------------------------------------------------------

    fn local_time(&self, node: NodeId, global: Tick) -> (r: Tick)
        requires
            self.wf(),
            self@.has(node),
        ensures
            r == self@.local_time(node, global),
    {
        let rate: u64 = self.hosts[node as usize].clock_rate;
        scale(global, rate, 1000)
    }

    /// The simulator tick at which this node's clock will read `local`.
    ///
    /// Rounds up. Rounding down would schedule the timer a hair early, the node
    /// would find its deadline not yet reached, do nothing, and be rescheduled
    /// one tick later.
    fn global_time(&self, node: NodeId, local: Tick) -> (r: Tick)
        requires
            self.wf(),
            self@.has(node),
        ensures
            r == self@.global_time(node, local),
    {
        assert(self.hosts@[node as int].wf(self.cfg.raft.bugs.compaction_anchor_at_zero));
        let rate: u64 = self.hosts[node as usize].clock_rate;
        scale_up(local, 1000, rate)
    }

    fn arm(&mut self, node: NodeId, at: Tick)
        requires
            old(self).wf(),
            old(self)@.has(node),
        ensures
            final(self).wf(),
            final(self).same_run(old(self)),
            final(self)@ == old(self)@.arm(node, at),
    {
        let pending = match self.hosts[node as usize].timer_at {
            Some(t) => t == at,
            None => false,
        };
        if pending {
            return;
        }
        self.schedule(at, Event::Timer { node });
        self.set_timer(node, Some(at));
    }

    fn rearm_timer(&mut self, node: NodeId)
        requires
            old(self).wf(),
            old(self)@.has(node),
        ensures
            final(self).wf(),
            final(self).same_run(old(self)),
            final(self)@ == old(self)@.rearm_timer(node),
    {
        proof {
            reveal(ClusterView::rearm_timer);
        }
        let soonest: u64 = self.now.saturating_add(1);
        match self.hosts[node as usize].status {
            // A dead node has no timers. Restarting re-arms it.
            NodeStatus::Crashed => {},
            // A frozen node wakes at the end of its pause, not before.
            NodeStatus::Paused { until } => {
                self.arm(
                    node,
                    if until < soonest {
                        soonest
                    } else {
                        until
                    },
                );
            },
            NodeStatus::Running => {
                // Never in the past: a deadline already passed fires on the
                // next tick instead.
                let local: u64 = self.hosts[node as usize].node.next_deadline();
                let deadline: u64 = self.global_time(node, local);
                self.arm(
                    node,
                    if deadline < soonest {
                        soonest
                    } else {
                        deadline
                    },
                );
            },
        }
    }
}

/// `a * b / c`, capped.
fn scale(a: u64, b: u64, c: u64) -> (r: u64)
    requires
        c > 0,
    ensures
        r == crate::cluster_model::scaled(a, b, c),
{
    proof {
        assert(a as int * b as int <= u64::MAX * u64::MAX) by (nonlinear_arith)
            requires
                0 <= a <= u64::MAX,
                0 <= b <= u64::MAX,
        ;
        assert(0 <= a as int * b as int) by (nonlinear_arith)
            requires
                0 <= a,
                0 <= b,
        ;
    }
    let x: u128 = (a as u128 * b as u128) / (c as u128);
    if x > u64::MAX as u128 {
        u64::MAX
    } else {
        x as u64
    }
}

/// `a * b / c` rounded up, capped.
fn scale_up(a: u64, b: u64, c: u64) -> (r: u64)
    requires
        c > 0,
    ensures
        r == crate::cluster_model::scaled_up(a, b, c),
{
    proof {
        assert(a as int * b as int <= u64::MAX * u64::MAX) by (nonlinear_arith)
            requires
                0 <= a <= u64::MAX,
                0 <= b <= u64::MAX,
        ;
        assert(0 <= a as int * b as int) by (nonlinear_arith)
            requires
                0 <= a,
                0 <= b,
        ;
    }
    let x: u128 = (a as u128 * b as u128 + (c as u128 - 1)) / (c as u128);
    if x > u64::MAX as u128 {
        u64::MAX
    } else {
        x as u64
    }
}

// --- faults -----------------------------------------------------------------

impl Cluster {
    fn schedule_next_fault(&mut self)
        requires
            old(self).wf(),
        ensures
            final(self).wf(),
            final(self).same_run(old(self)),
            final(self)@ == old(self)@.schedule_next_fault(),
    {
        proof {
            reveal(ClusterView::schedule_next_fault);
        }
        let faults: FaultConfig = self.cfg.faults;
        if self.disturbed {
            let delay: u64 = faults.outage_span(&mut self.fault_rng);
            let at: u64 = self.now.saturating_add(
                if delay < 1 {
                    1
                } else {
                    delay
                },
            );
            self.schedule(at, Event::Fault { fault: Fault::Heal });
        } else {
            let delay: u64 = faults.healthy_span(&mut self.fault_rng);
            let at: u64 = self.now.saturating_add(
                if delay < 1 {
                    1
                } else {
                    delay
                },
            );
            let ids = id_list(self.hosts.len());
            match faults.next_fault(ids.as_slice(), &mut self.fault_rng) {
                Some(fault) => self.schedule(at, Event::Fault { fault }),
                None => {},
            }
        }
    }

    fn crash_node(&mut self, seq: u64, node: NodeId)
        requires
            old(self).wf(),
        ensures
            final(self).wf(),
            final(self).same_run(old(self)),
            final(self)@ == old(self)@.crash_node(seq, node),
    {
        proof {
            reveal(ClusterView::crash_node);
        }
        if !self.is_available(node) {
            return;
        }
        self.set_status(node, NodeStatus::Crashed);
        self.stats.crashes = self.stats.crashes.saturating_add(1);
        self.mark(Moment::Crashed { node });
        self.set_timer(node, None);
        self.record(seq, node, TraceKind::Crashed);
    }

    /// Rebuild a node from its disk and nothing else.
    ///
    /// Everything volatile is rebuilt from scratch: the role, what was
    /// committed and applied, and the state machine, which is emptied so the
    /// log has to replay into it.
    fn rebuild(&mut self, node: NodeId)
        requires
            old(self).wf(),
            old(self)@.has(node),
            old(self)@.can_restart(node),
        ensures
            final(self).wf(),
            final(self).same_run(old(self)),
            final(self)@ == old(self)@.with_host(node, old(self)@.rebuilt(node)),
    {
        let i: usize = node as usize;
        let ghost anchored = self.cfg.raft.bugs.compaction_anchor_at_zero;
        assert(self.hosts@[i as int].wf(anchored));
        let local_now: u64 = self.local_time(node, self.now);
        let raft: RaftConfig = self.cfg.raft;
        // Recovery fixes the durable log up against the durable snapshot before
        // anything reads either of them.
        self.hosts[i].disk.recover(!raft.bugs.skip_snapshot_reconcile);
        let disk = self.hosts[i].disk.clone();
        let restarts: u64 = self.hosts[i].restarts.saturating_add(1);
        // A fresh process draws fresh election timeouts rather than replaying
        // the ones it had before it died.
        let seed: u64 = self.cfg.seed.wrapping_add(
            restarts.wrapping_mul(crate::cluster_model::RESTART_STRIDE),
        );
        let config = match &disk.snapshot {
            Some(s) => s.config.clone(),
            None => self.cfg.initial_config(),
        };
        let machine = match &disk.snapshot {
            Some(s) => match KvStore::from_bytes(s.data.as_slice()) {
                Some(store) => store,
                None => KvStore::new(),
            },
            None => KvStore::new(),
        };
        let restored = RaftNode::restore(
            node,
            config,
            raft,
            seed,
            local_now,
            disk.current_term,
            disk.voted_for,
            disk.log,
            disk.snapshot,
        );
        self.hosts[i].node = restored;
        self.hosts[i].machine = machine;
        self.hosts[i].status = NodeStatus::Running;
        self.hosts[i].restarts = restarts;
        proof {
            lemma_recovery_keeps_anchor(
                old(self)@.host(node).disk,
                !raft.bugs.skip_snapshot_reconcile,
            );
        }
        assert(self@.hosts =~= old(self)@.with_host(node, old(self)@.rebuilt(node)).hosts);
    }

    fn restart_node(&mut self, seq: u64, node: NodeId)
        requires
            old(self).wf(),
        ensures
            final(self).wf(),
            final(self).same_run(old(self)),
            final(self)@ == old(self)@.restart_node(seq, node),
    {
        proof {
            reveal(ClusterView::restart_node);
        }
        if !self.has(node) {
            return;
        }
        let i: usize = node as usize;
        let crashed = match self.hosts[i].status {
            NodeStatus::Crashed => true,
            _ => false,
        };
        if !crashed {
            return;
        }
        let local_now: u64 = self.local_time(node, self.now);
        if self.cfg.raft.election_timeout_max > u64::MAX - local_now
            || self.cfg.raft.heartbeat_interval > u64::MAX - local_now {
            return;
        }
        self.rebuild(node);
        let ghost host = old(self)@.rebuilt(node);
        self.stats.restarts = self.stats.restarts.saturating_add(1);
        self.mark(Moment::Restarted { node });
        assert(self@.host(node) == host);
        assert(self.hosts@[i as int]@ == host);
        // The checker has to know, or it will report the legitimate reset of
        // what is volatile as violations.
        let applied_from: u64 = match &self.hosts[i].disk.snapshot {
            Some(s) => s.index(),
            None => 0,
        };
        self.checker.note_restart(node, applied_from);
        assert(self.hosts@[i as int].wf(self.cfg.raft.bugs.compaction_anchor_at_zero));
        let kind = TraceKind::Restarted {
            current_term: self.hosts[i].disk.current_term,
            voted_for: self.hosts[i].disk.voted_for,
            last_index: self.hosts[i].disk.last_index(),
        };
        self.record(seq, node, kind);
        self.rearm_timer(node);
    }

    fn pause_node(&mut self, node: NodeId, ticks: Tick)
        requires
            old(self).wf(),
        ensures
            final(self).wf(),
            final(self).same_run(old(self)),
            final(self)@ == old(self)@.pause_node(node, ticks),
    {
        proof {
            reveal(ClusterView::pause_node);
        }
        if self.is_available(node) {
            let until: u64 = self.now.saturating_add(
                if ticks < 1 {
                    1
                } else {
                    ticks
                },
            );
            self.set_status(node, NodeStatus::Paused { until });
            self.stats.pauses = self.stats.pauses.saturating_add(1);
            self.rearm_timer(node);
        }
    }

    fn repair(&mut self, seq: u64, node: NodeId)
        requires
            old(self).wf(),
            old(self)@.has(node),
        ensures
            final(self).wf(),
            final(self).same_run(old(self)),
            final(self)@ == old(self)@.repair(seq, node),
    {
        proof {
            reveal(ClusterView::repair);
        }
        match self.hosts[node as usize].status {
            NodeStatus::Crashed => self.restart_node(seq, node),
            NodeStatus::Paused { until: _ } => {
                self.set_status(node, NodeStatus::Running);
                self.rearm_timer(node);
            },
            NodeStatus::Running => {},
        }
    }

    fn repair_all(&mut self, seq: u64)
        requires
            old(self).wf(),
        ensures
            final(self).wf(),
            final(self).same_run(old(self)),
            final(self)@ == old(self)@.repair_all(seq, old(self)@.hosts.len()),
    {
        let n: usize = self.hosts.len();
        let mut i: usize = 0;
        while i < n
            invariant
                i <= n,
                n <= u32::MAX,
                n == old(self)@.hosts.len(),
                self.wf(),
                self.same_run(old(self)),
                self@ == old(self)@.repair_all(seq, i as nat),
            decreases n - i,
        {
            self.repair(seq, i as u32);
            i = i + 1;
        }
    }

    fn apply_node_fault(&mut self, seq: u64, fault: &Fault)
        requires
            old(self).wf(),
        ensures
            final(self).wf(),
            final(self).same_run(old(self)),
            final(self)@ == old(self)@.apply_node_fault(seq, fault@),
    {
        proof {
            reveal(ClusterView::apply_node_fault);
        }
        match fault {
            Fault::Crash { node } => self.crash_node(seq, *node),
            Fault::Restart { node } => self.restart_node(seq, *node),
            Fault::Pause { node, ticks } => self.pause_node(*node, *ticks),
            Fault::Heal => self.repair_all(seq),
            _ => {},
        }
    }

    fn disturb(&mut self, seq: u64, fault: Fault)
        requires
            old(self).wf(),
        ensures
            final(self).wf(),
            final(self).same_run(old(self)),
            final(self)@ == old(self)@.disturb(seq, fault@),
    {
        proof {
            reveal(ClusterView::disturb);
        }
        let ids = id_list(self.hosts.len());
        self.net.partitions_mut().apply(&fault, ids.as_slice());
        self.apply_node_fault(seq, &fault);
        self.stats.faults_injected = self.stats.faults_injected.saturating_add(1);
        let ghost before = self.faults_injected@;
        self.faults_injected.push((self.now, fault.clone()));
        assert(faults_view(self.faults_injected@) =~= faults_view(before).push((self.now, fault@)));
        self.mark(Moment::Fault { description: fault.description() });
        self.record(seq, 0, TraceKind::Fault { fault });
    }

    fn apply_fault(&mut self, seq: u64, fault: Fault)
        requires
            old(self).wf(),
        ensures
            final(self).wf(),
            final(self).same_run(old(self)),
            final(self)@ == old(self)@.apply_fault(seq, fault@),
    {
        proof {
            reveal(ClusterView::apply_fault);
        }
        let heals = match &fault {
            Fault::Heal => true,
            _ => false,
        };
        let goes_on = self.cfg.faults.enabled && self.cfg.scripted_faults.is_none();
        self.disturb(seq, fault);
        self.disturbed = !heals;
        // A scripted run replays its list and generates nothing further.
        if goes_on {
            self.schedule_next_fault();
        }
    }
}

/// Recovery leaves the anchor rule of a log alone.
proof fn lemma_recovery_keeps_anchor(disk: crate::storage::DiskView, reconcile: bool)
    ensures
        disk.recovered(reconcile).log.zero_anchor == disk.log.zero_anchor,
{
}

// --- what a node asks for ----------------------------------------------------

impl Cluster {
    fn record_outcome(&mut self, node: NodeId, client: ClientId, seq: u64, result: OutcomeKind)
        requires
            old(self).wf(),
        ensures
            final(self).wf(),
            final(self).same_run(old(self)),
            final(self)@ == old(self)@.record_outcome(node, client, seq, result@),
    {
        proof {
            reveal(ClusterView::record_outcome);
        }
        let tick: u64 = self.now;
        match &result {
            OutcomeKind::Applied(r) => {
                // A client hears about a request once.
                if !self.answered.insert((client, seq)) {
                    assert(self.answered@ =~= old(self).answered@);
                    return;
                }
                self.history.complete(client, seq, tick, r.clone());
            },
            // A refusal is a failed attempt, not the end of the operation: the
            // client retries elsewhere with the same sequence number.
            OutcomeKind::NotLeader { leader: _ } => self.history.refuse(client, seq),
        }
        self.stats.client_responses = self.stats.client_responses.saturating_add(1);
        let ghost before = self.outcomes@;
        let answer = ClientOutcome { client, seq, node, tick, result };
        let ghost new = answer@;
        self.outcomes.push(answer);
        assert(answers_view(self.outcomes@) =~= answers_view(before).push(new));
    }

    /// The command in an entry, and what the state machine makes of it.
    fn run_command(
        &mut self,
        node: NodeId,
        payload: &EntryPayload,
        client: Option<(ClientId, u64)>,
    ) -> (r: (Option<KvCommand>, Option<KvResult>))
        requires
            old(self).wf(),
            old(self)@.has(node),
        ensures
            final(self).wf(),
            final(self).same_run(old(self)),
            ({
                let machine = old(self)@.host(node).machine;
                let command = match payload@ {
                    crate::log::PayloadView::Command(bytes) => crate::kv::command_of(bytes),
                    _ => None,
                };
                &&& crate::kv::command_view(r.0) == command
                &&& match command {
                    Some(c) => crate::kv::result_view(r.1) == Some(machine.answer_for(client, c))
                        && final(self)@ == old(self)@.set_machine(
                        node,
                        machine.applied_for(client, c),
                    ),
                    None => r.1 is None && final(self)@ == old(self)@,
                }
            }),
    {
        match payload {
            EntryPayload::Command(bytes) => match KvCommand::decode(bytes) {
                Ok(command) => {
                    assert(self.hosts@[node as int].wf(
                        self.cfg.raft.bugs.compaction_anchor_at_zero,
                    ));
                    // Through the session table, so a retry that reached the log
                    // twice is applied once.
                    let result = self.hosts[node as usize].machine.apply_for(client, &command);
                    proof {
                        let machine = old(self)@.host(node).machine;
                        assert(self@.hosts =~= old(self)@.set_machine(
                            node,
                            machine.applied_for(client, command@),
                        ).hosts);
                    }
                    (Some(command), Some(result))
                },
                Err(_) => (None, None),
            },
            _ => (None, None),
        }
    }

    fn apply_entry(
        &mut self,
        seq: u64,
        node: NodeId,
        index: Index,
        term: Term,
        payload: EntryPayload,
        client: Option<(ClientId, u64)>,
        respond: bool,
    )
        requires
            old(self).wf(),
            old(self)@.has(node),
        ensures
            final(self).wf(),
            final(self).same_run(old(self)),
            final(self)@ == old(self)@.apply_entry(
                seq,
                node,
                index,
                term,
                payload@,
                client,
                respond,
            ),
    {
        proof {
            reveal(ClusterView::apply_entry);
        }
        let (command, result) = self.run_command(node, &payload, client);
        self.stats.entries_applied = self.stats.entries_applied.saturating_add(1);
        let ghost applied = AppliedView {
            index,
            term,
            command: crate::kv::command_view(command),
        };
        let ghost before = self.hosts@[node as int].applied@;
        let ghost host = HostView {
            applied: self@.host(node).applied.push(applied),
            ..self@.host(node)
        };
        let ghost wanted = self@.with_host(node, host).hosts;
        self.hosts[node as usize].applied.push(
            AppliedEntry { index, term, command: crate::kv::copy_command(&command) },
        );
        assert(applied_view(self.hosts@[node as int].applied@) =~= applied_view(before).push(
            applied,
        ));
        assert(self@.hosts =~= wanted);
        assert(wanted =~= old(self)@.with_host(node, host).hosts);
        if self.cfg.check_invariants {
            let tick: u64 = self.now;
            self.checker.observe_apply(tick, node, index, term, &command);
        }
        let answer = if respond {
            crate::kv::copy_result(&result)
        } else {
            None
        };
        self.record(seq, node, TraceKind::Applied { index, term, command, result });
        match (client, answer) {
            (Some((c, s)), Some(r)) => self.record_outcome(node, c, s, OutcomeKind::Applied(r)),
            _ => {},
        }
    }

    fn serve_read(
        &mut self,
        seq: u64,
        node: NodeId,
        client: ClientId,
        client_seq: u64,
        command: &crate::Command,
        read_index: Index,
    )
        requires
            old(self).wf(),
            old(self)@.has(node),
        ensures
            final(self).wf(),
            final(self).same_run(old(self)),
            final(self)@ == old(self)@.serve_read(
                seq,
                node,
                client,
                client_seq,
                command@,
                read_index,
            ),
    {
        proof {
            reveal(ClusterView::serve_read);
        }
        let kv = match KvCommand::decode(command) {
            Ok(kv) => kv,
            Err(_) => return,
        };
        let result = self.answer_here(node, &kv);
        self.stats.reads_served = self.stats.reads_served.saturating_add(1);
        self.record(seq, node, TraceKind::ReadServed { read_index, result: result.clone() });
        self.record_outcome(node, client, client_seq, OutcomeKind::Applied(result));
    }

    /// What a node's own state machine answers.
    fn answer_here(&mut self, node: NodeId, command: &KvCommand) -> (r: KvResult)
        requires
            old(self).wf(),
            old(self)@.has(node),
        ensures
            final(self).wf(),
            final(self).same_run(old(self)),
            final(self)@ == old(self)@.set_machine(
                node,
                old(self)@.host(node).machine.applied(command@),
            ),
            r@ == old(self)@.host(node).machine.answer(command@),
    {
        assert(self.hosts@[node as int].wf(self.cfg.raft.bugs.compaction_anchor_at_zero));
        let r = self.hosts[node as usize].machine.apply(command);
        assert(self@.hosts =~= old(self)@.set_machine(
            node,
            old(self)@.host(node).machine.applied(command@),
        ).hosts);
        r
    }

    fn install(&mut self, seq: u64, node: NodeId, snapshot: &Snapshot)
        requires
            old(self).wf(),
            old(self)@.has(node),
        ensures
            final(self).wf(),
            final(self).same_run(old(self)),
            final(self)@ == old(self)@.install(seq, node, snapshot@),
    {
        proof {
            reveal(ClusterView::install);
        }
        let through: u64 = snapshot.index();
        let ghost machine = crate::cluster_model::machine_of(
            snapshot@,
            old(self)@.host(node).machine,
        );
        // The entries that produced this state are gone from the log, so the
        // state machine is replaced outright.
        match KvStore::from_bytes(snapshot.data.as_slice()) {
            Some(store) => {
                self.hosts[node as usize].machine = store;
            },
            None => {},
        }
        assert(self@.hosts =~= old(self)@.set_machine(node, machine).hosts);
        self.stats.snapshots_installed = self.stats.snapshots_installed.saturating_add(1);
        self.mark(Moment::SnapshotInstalled { node, through });
        if self.cfg.check_invariants {
            self.checker.note_snapshot_installed(node, through);
        }
        self.record(seq, node, TraceKind::SnapshotInstalled { through, bytes: snapshot.len() });
    }

    fn send(&mut self, seq: u64, node: NodeId, to: NodeId, msg: RaftMessage)
        requires
            old(self).wf(),
        ensures
            final(self).wf(),
            final(self).same_run(old(self)),
            final(self)@ == old(self)@.send(seq, node, to, msg@),
    {
        proof {
            reveal(ClusterView::send);
        }
        let sent_at: u64 = self.now;
        match self.net.route(sent_at, node, to, &mut self.net_rng) {
            Routed::Once(at) => {
                self.schedule(at, Event::Deliver { from: node, to, msg, sent_at });
            },
            Routed::Twice(first, second) => {
                self.schedule(first, Event::Deliver { from: node, to, msg: msg.clone(), sent_at });
                self.schedule(second, Event::Deliver { from: node, to, msg, sent_at });
                self.record(seq, node, TraceKind::Duplicated { to });
            },
            Routed::Dropped => {
                self.record(seq, node, TraceKind::Dropped { to });
            },
            Routed::Partitioned => {
                self.record(seq, node, TraceKind::Partitioned { to });
            },
        }
    }

    fn note_truncation(&mut self, node: NodeId, index: Index, commit_before: Index)
        requires
            old(self).wf(),
            old(self)@.has(node),
        ensures
            final(self).wf(),
            final(self).same_run(old(self)),
            final(self)@ == old(self)@.note_truncation(node, index, commit_before),
    {
        proof {
            reveal(ClusterView::note_truncation);
        }
        assert(self.hosts@[node as int].wf(self.cfg.raft.bugs.compaction_anchor_at_zero));
        let held: u64 = self.hosts[node as usize].disk.last_index();
        let lost: u64 = held.saturating_sub(index).saturating_add(1);
        self.stats.log_truncations = self.stats.log_truncations.saturating_add(1);
        self.stats.entries_truncated = self.stats.entries_truncated.saturating_add(lost);
        self.mark(Moment::LogTruncated { node, from: index, entries: lost });
        if self.cfg.check_invariants {
            let tick: u64 = self.now;
            self.checker.observe_truncation(tick, node, index, commit_before);
        }
    }

    fn persist(&mut self, node: NodeId, op: &PersistOp, commit_before: Index)
        requires
            old(self).wf(),
            old(self)@.has(node),
        ensures
            final(self).wf(),
            final(self).same_run(old(self)),
            final(self)@ == old(self)@.persist(node, op@, commit_before),
    {
        proof {
            reveal(ClusterView::persist);
            reveal(ClusterView::note_truncation);
        }
        match op {
            PersistOp::TruncateFrom(index) => self.note_truncation(node, *index, commit_before),
            _ => {},
        }
        let ghost noted = self@;
        let i: usize = node as usize;
        assert(self.hosts@[i as int].wf(self.cfg.raft.bugs.compaction_anchor_at_zero));
        assert(self@.host(node).disk == old(self)@.host(node).disk);
        if self.hosts[i].disk.takes(op) {
            self.hosts[i].disk.apply(op);
            assert(self@.hosts =~= noted.set_disk(
                node,
                old(self)@.host(node).disk.written(op@),
            ).hosts);
        }
    }

    fn emit(&mut self, seq: u64, node: NodeId, output: Output, commit_before: Index)
        requires
            old(self).wf(),
            old(self)@.has(node),
        ensures
            final(self).wf(),
            final(self).same_run(old(self)),
            final(self)@ == old(self)@.emit(seq, node, output@, commit_before),
    {
        proof {
            reveal(ClusterView::emit);
        }
        let tick: u64 = self.now;
        self.trace.push_output(tick, seq, node, &output);
        match output {
            // Durable first, and the node's output ordering guarantees that this
            // comes before any message of the same step.
            Output::Persist(op) => self.persist(node, &op, commit_before),
            Output::Send { to, msg } => self.send(seq, node, to, msg),
            Output::Apply { index, term, payload, client, respond } => self.apply_entry(
                seq,
                node,
                index,
                term,
                payload,
                client,
                respond,
            ),
            Output::ServeRead { client, seq: client_seq, command, read_index } => self.serve_read(
                seq,
                node,
                client,
                client_seq,
                &command,
                read_index,
            ),
            Output::RestoreSnapshot { snapshot } => self.install(seq, node, &snapshot),
            Output::ClientResponse { client, seq: client_seq, result } => match result {
                ClientResult::NotLeader { leader } => self.record_outcome(
                    node,
                    client,
                    client_seq,
                    OutcomeKind::NotLeader { leader },
                ),
                ClientResult::ChangeInProgress => {},
            },
        }
    }
}

// --- a step of a node --------------------------------------------------------

impl Cluster {
    /// Hand the input to the node.
    fn step_node(&mut self, node: NodeId, input: Input) -> (r: Vec<Output>)
        requires
            old(self).wf(),
            old(self)@.has(node),
        ensures
            final(self).wf(),
            final(self).same_run(old(self)),
            final(self)@ == old(self)@.stepped(node, input@),
            crate::node::outputs_view(r@) == old(self)@.outputs(node, input@),
    {
        let i: usize = node as usize;
        assert(self.hosts@[i as int].wf(self.cfg.raft.bugs.compaction_anchor_at_zero));
        let local_now: u64 = self.local_time(node, self.now);
        let ghost given = input@;
        if self.hosts[i].node.accepts(&input, local_now) {
            let outputs = self.hosts[i].node.step(input, local_now);
            assert(self@.hosts =~= old(self)@.stepped(node, given).hosts);
            outputs
        } else {
            let none: Vec<Output> = Vec::new();
            assert(crate::node::outputs_view(none@) =~= Seq::empty());
            none
        }
    }

    fn note_step(&mut self, node: NodeId, was: Role)
        requires
            old(self).wf(),
            old(self)@.has(node),
        ensures
            final(self).wf(),
            final(self).same_run(old(self)),
            final(self)@ == old(self)@.note_step(node, was),
    {
        proof {
            reveal(ClusterView::note_step);
        }
        let i: usize = node as usize;
        let tick: u64 = self.now;
        let role: Role = self.hosts[i].node.role();
        let term: u64 = self.hosts[i].node.current_term();
        let commit: u64 = self.hosts[i].node.commit_index();
        if role == Role::Candidate && was != Role::Candidate {
            self.stats.elections_started = self.stats.elections_started.saturating_add(1);
            self.mark(Moment::ElectionStarted { node, term });
        }
        if role == Role::Leader && was != Role::Leader {
            self.stats.leaders_elected = self.stats.leaders_elected.saturating_add(1);
            self.mark(Moment::LeaderElected { node, term });
        }
        if self.stats.max_term < term {
            self.stats.max_term = term;
        }
        self.timeline.note_commit(tick, node, commit);
    }

    /// How many outputs of this step survive before the process dies, or `None`
    /// if it completes normally.
    fn pick_tear_point(&mut self, outputs: &Vec<Output>) -> (r: Option<u64>)
        requires
            old(self).wf(),
        ensures
            final(self).wf(),
            final(self).same_run(old(self)),
            ({
                let (tear, disk_rng) = old(self)@.tear_point(
                    crate::node::outputs_view(outputs@),
                );
                &&& r == tear
                &&& final(self)@ == (ClusterView { disk_rng, ..old(self)@ })
            }),
    {
        proof {
            reveal(ClusterView::tear_point);
        }
        let permille: u32 = self.cfg.disk.torn_step_permille;
        if permille == 0 {
            return None;
        }
        let writes: usize = count_writes(outputs);
        if writes == 0 {
            return None;
        }
        if !self.disk_rng.chance(permille as u64, 1000) {
            return None;
        }
        // 0 means "died before writing anything"; `writes` means "every write
        // landed but nothing was sent". Both are real crash points.
        let points: u64 = (writes as u64).saturating_add(1);
        Some(self.disk_rng.gen_range(0, points))
    }

    fn tear_step(&mut self, seq: u64, node: NodeId)
        requires
            old(self).wf(),
        ensures
            final(self).wf(),
            final(self).same_run(old(self)),
            final(self)@ == old(self)@.tear_step(seq, node),
    {
        proof {
            reveal(ClusterView::tear_step);
        }
        self.stats.torn_steps = self.stats.torn_steps.saturating_add(1);
        self.record(seq, node, TraceKind::TornStep);
        // The in-memory node has already applied the whole step, but that state
        // never became visible to anyone. It is discarded wholesale, so it is
        // deliberately not shown to the checker.
        self.crash_node(seq, node);
        let disk: DiskConfig = self.cfg.disk;
        let delay: u64 = disk.restart_delay(&mut self.disk_rng);
        let at: u64 = self.now.saturating_add(
            if delay < 1 {
                1
            } else {
                delay
            },
        );
        self.schedule(at, Event::Fault { fault: Fault::Restart { node } });
    }

    /// Mirror any violations the checker just found into the timeline.
    fn record_new_violations(&mut self, before: usize)
        requires
            old(self).wf(),
            before <= old(self)@.checker.violations.len(),
        ensures
            final(self).wf(),
            final(self).same_run(old(self)),
            final(self)@ == old(self)@.mirror(
                before as int,
                old(self)@.checker.violations.len() as int,
            ),
    {
        let n: usize = self.checker.violations().len();
        let mut i: usize = before;
        while i < n
            invariant
                before <= i <= n,
                n == old(self)@.checker.violations.len(),
                self.wf(),
                self.same_run(old(self)),
                self.checker@ == old(self).checker@,
                self@ == old(self)@.mirror(before as int, i as int),
            decreases n - i,
        {
            let v: Violation = self.checker.violations()[i].clone();
            assert(v@ == old(self)@.checker.violations[i as int]);
            self.timeline.push(
                v.tick,
                Moment::Violation { property: v.property.name().to_owned(), detail: v.detail },
            );
            i = i + 1;
        }
    }

    fn observe(&mut self, node: NodeId, dirty: Option<Index>)
        requires
            old(self).wf(),
            old(self)@.has(node),
        ensures
            final(self).wf(),
            final(self).same_run(old(self)),
            final(self)@ == old(self)@.observe(node, dirty),
    {
        proof {
            reveal(ClusterView::observe);
        }
        if self.cfg.check_invariants {
            let tick: u64 = self.now;
            let before: usize = self.checker.violations().len();
            assert(self.hosts@[node as int].wf(self.cfg.raft.bugs.compaction_anchor_at_zero));
            self.checker.observe_node(tick, &self.hosts[node as usize].node, dirty);
            proof {
                crate::checker_laws::law_violations_are_never_withdrawn(
                    old(self)@.checker,
                    tick,
                    old(self)@.host(node).node,
                    dirty,
                );
            }
            self.record_new_violations(before);
        }
    }

    /// Schedule a compaction if this node has applied enough since its last
    /// snapshot.
    ///
    /// Queued as an event rather than done inline so that compaction is ordered
    /// with everything else and shows up in the trace.
    fn consider_compaction(&mut self, node: NodeId)
        requires
            old(self).wf(),
            old(self)@.has(node),
        ensures
            final(self).wf(),
            final(self).same_run(old(self)),
            final(self)@ == old(self)@.consider_compaction(node),
    {
        proof {
            reveal(ClusterView::consider_compaction);
        }
        let every: u64 = match self.cfg.snapshot_every {
            Some(e) => e,
            None => return,
        };
        let i: usize = node as usize;
        if self.hosts[i].compacting {
            return;
        }
        let applied: u64 = self.hosts[i].node.last_applied();
        let covered: u64 = self.covered(node);
        if applied == 0 || every > u64::MAX - covered || applied < covered + every {
            return;
        }
        self.set_compacting(node, true);
        let at: u64 = self.now.saturating_add(1);
        self.schedule(at, Event::Compact { node });
    }

    /// The index a node's snapshot covers.
    fn covered(&self, node: NodeId) -> (r: Index)
        requires
            self.wf(),
            self@.has(node),
        ensures
            r == self@.covered(node),
    {
        match self.hosts[node as usize].node.snapshot() {
            Some(s) => s.index(),
            None => 0,
        }
    }

    /// Do the first `upto` things that a node asked for.
    fn emit_all(
        &mut self,
        seq: u64,
        node: NodeId,
        outputs: Vec<Output>,
        upto: usize,
        commit_before: Index,
    )
        requires
            old(self).wf(),
            old(self)@.has(node),
            upto <= outputs@.len(),
        ensures
            final(self).wf(),
            final(self).same_run(old(self)),
            final(self)@ == old(self)@.emit_all(
                seq,
                node,
                crate::node::outputs_view(outputs@),
                upto as int,
                commit_before,
            ),
    {
        let ghost all = crate::node::outputs_view(outputs@);
        let mut done: usize = 0;
        for output in it: outputs
            invariant
                done <= upto <= all.len(),
                done == upto || done == it.index(),
                it.seq().len() == all.len(),
                forall|k: int| 0 <= k < all.len() ==> (#[trigger] it.seq()[k])@ == all[k],
                self.wf(),
                self.same_run(old(self)),
                old(self)@.has(node),
                self@.has(node),
                self@ == old(self)@.emit_all(seq, node, all, done as int, commit_before),
        {
            if done < upto {
                assert(output@ == all[done as int]);
                self.emit(seq, node, output, commit_before);
                done = done + 1;
            }
        }
    }

    fn deliver(&mut self, seq: u64, node: NodeId, input: Input)
        requires
            old(self).wf(),
            old(self)@.has(node),
        ensures
            final(self).wf(),
            final(self).same_run(old(self)),
            final(self)@ == old(self)@.deliver(seq, node, input@),
    {
        proof {
            reveal(ClusterView::deliver);
        }
        let i: usize = node as usize;
        let tick: u64 = self.now;
        let was: Role = self.hosts[i].node.role();
        let commit_before: u64 = self.hosts[i].node.commit_index();
        let ghost given = input@;
        self.trace.push_input(tick, seq, node, &input);
        assert(self@ == old(self)@.traced(seq, node, KindView::In(given)));
        let outputs = self.step_node(node, input);
        let ghost all = crate::node::outputs_view(outputs@);
        assert(all == old(self)@.outputs(node, given));
        self.note_step(node, was);
        // Decide up front whether this step's writes are torn. Outputs are
        // ordered with the writes first, so "stop after so many outputs" is
        // exactly "that many writes landed and nothing was ever sent".
        let count: usize = outputs.len();
        let tear = self.pick_tear_point(&outputs);
        let torn_at: usize = match tear {
            Some(t) => if t < count as u64 {
                t as usize
            } else {
                count
            },
            None => count,
        };
        if torn_at < count {
            self.emit_all(seq, node, outputs, torn_at, commit_before);
            self.tear_step(seq, node);
            return;
        }
        let dirty = lowest_touched(&outputs);
        self.emit_all(seq, node, outputs, count, commit_before);
        self.observe(node, dirty);
        self.consider_compaction(node);
        self.rearm_timer(node);
    }

    /// Build a snapshot of this node's state machine and hand it to the node so
    /// it can drop the log prefix.
    fn compact_node(&mut self, seq: u64, node: NodeId)
        requires
            old(self).wf(),
        ensures
            final(self).wf(),
            final(self).same_run(old(self)),
            final(self)@ == old(self)@.compact_node(seq, node),
    {
        proof {
            reveal(ClusterView::compact_node);
        }
        if !self.has(node) {
            return;
        }
        self.set_compacting(node, false);
        let i: usize = node as usize;
        assert(self.hosts@[i as int].wf(self.cfg.raft.bugs.compaction_anchor_at_zero));
        let applied: u64 = self.hosts[i].node.last_applied();
        let covered: u64 = self.covered(node);
        if !self.is_available(node) || applied == 0 || applied <= covered {
            return;
        }
        // The entry must still be describable, or there is nothing to anchor the
        // snapshot to.
        let term: u64 = match self.hosts[i].node.log().term_at(applied) {
            Some(t) => t,
            None => return,
        };
        let data = self.hosts[i].machine.to_bytes();
        // The membership is overwritten by the node, which is the only thing
        // that knows the configuration in force at that index.
        let snapshot = Snapshot::new(
            LogId { index: applied, term },
            self.hosts[i].node.cluster().clone(),
            data,
        );
        self.stats.snapshots_taken = self.stats.snapshots_taken.saturating_add(1);
        self.mark(Moment::SnapshotTaken { node, through: applied });
        self.deliver(seq, node, Input::Compact(snapshot));
    }

    /// The read that the deliberate stale-read bug would answer.
    fn stale_read(&self, node: NodeId, req: &ClientRequest) -> (r: Option<KvCommand>)
        requires
            self.wf(),
            self@.has(node),
        ensures
            crate::kv::command_view(r) == self@.stale_read(node, req@),
    {
        if !self.cfg.stale_reads || self.hosts[node as usize].node.role() != Role::Leader {
            return None;
        }
        match KvCommand::decode(&req.command) {
            Ok(c) => if c.is_read_only() {
                Some(c)
            } else {
                None
            },
            Err(_) => None,
        }
    }

    fn serve_stale_read(&mut self, seq: u64, node: NodeId, req: &ClientRequest, command: KvCommand)
        requires
            old(self).wf(),
            old(self)@.has(node),
        ensures
            final(self).wf(),
            final(self).same_run(old(self)),
            final(self)@ == old(self)@.serve_stale_read(seq, node, req@, command@),
    {
        proof {
            reveal(ClusterView::serve_stale_read);
        }
        let term: u64 = self.hosts[node as usize].node.current_term();
        let result = self.answer_here(node, &command);
        self.record(
            seq,
            node,
            TraceKind::Applied {
                index: 0,
                term,
                command: Some(command),
                result: Some(result.clone()),
            },
        );
        self.record_outcome(node, req.client, req.seq, OutcomeKind::Applied(result));
    }
}

/// How many outputs at the start are durable writes.
fn count_writes(outputs: &Vec<Output>) -> (r: usize)
    ensures
        r == crate::cluster_model::writes_from(crate::node::outputs_view(outputs@), 0),
        r <= outputs@.len(),
{
    let ghost all = crate::node::outputs_view(outputs@);
    let mut i: usize = 0;
    let mut more = true;
    while i < outputs.len() && more
        invariant
            i <= outputs@.len(),
            all == crate::node::outputs_view(outputs@),
            more ==> crate::cluster_model::writes_from(all, 0) == i
                + crate::cluster_model::writes_from(all, i as int),
            !more ==> crate::cluster_model::writes_from(all, 0) == i,
        decreases outputs@.len() - i, more as int,
    {
        assert(all[i as int] == outputs@[i as int]@);
        match &outputs[i] {
            Output::Persist(_) => {
                i = i + 1;
            },
            _ => {
                more = false;
            },
        }
    }
    i
}

/// The lowest log index that these outputs touch, so that the scan for Log
/// Matching only looks at what actually changed.
fn lowest_touched(outputs: &Vec<Output>) -> (r: Option<Index>)
    ensures
        r == crate::cluster_model::dirty_in(
            crate::node::outputs_view(outputs@),
            outputs@.len() as int,
        ),
{
    let ghost all = crate::node::outputs_view(outputs@);
    let mut r: Option<u64> = None;
    let mut i: usize = 0;
    while i < outputs.len()
        invariant
            i <= outputs@.len(),
            all == crate::node::outputs_view(outputs@),
            r == crate::cluster_model::dirty_in(all, i as int),
        decreases outputs@.len() - i,
    {
        assert(all[i as int] == outputs@[i as int]@);
        let touched: Option<u64> = match &outputs[i] {
            Output::Persist(op) => match op {
                PersistOp::Append(entries) => if entries.len() > 0 {
                    assert(crate::log::entries_view(entries@)[0] == entries@[0]@);
                    Some(entries[0].index)
                } else {
                    None
                },
                PersistOp::TruncateFrom(index) => Some(*index),
                _ => None,
            },
            _ => None,
        };
        r = match (touched, r) {
            (Some(t), Some(d)) => Some(
                if d < t {
                    d
                } else {
                    t
                },
            ),
            (Some(t), None) => Some(t),
            (None, d) => d,
        };
        i = i + 1;
    }
    r
}

// --- events and the main loop -------------------------------------------------

impl Cluster {
    fn on_timer(&mut self, seq: u64, node: NodeId)
        requires
            old(self).wf(),
        ensures
            final(self).wf(),
            final(self).same_run(old(self)),
            final(self)@ == old(self)@.on_timer(seq, node),
    {
        proof {
            reveal(ClusterView::on_timer);
        }
        if !self.has(node) {
            return;
        }
        let i: usize = node as usize;
        // Only clear the pending marker if this is the timer we are tracking. A
        // stale timer from a superseded deadline must not make us schedule an
        // extra one.
        let expected = match self.hosts[i].timer_at {
            Some(t) => t == self.now,
            None => false,
        };
        if expected {
            self.set_timer(node, None);
        }
        let due = match self.hosts[i].status {
            NodeStatus::Paused { until } => self.now >= until,
            _ => false,
        };
        if due {
            self.set_status(node, NodeStatus::Running);
        }
        if self.is_available(node) {
            self.deliver(seq, node, Input::Tick);
        }
    }

    fn on_delivery(
        &mut self,
        seq: u64,
        from: NodeId,
        to: NodeId,
        msg: RaftMessage,
        sent_at: Tick,
    )
        requires
            old(self).wf(),
        ensures
            final(self).wf(),
            final(self).same_run(old(self)),
            final(self)@ == old(self)@.on_delivery(seq, from, to, msg@, sent_at),
    {
        proof {
            reveal(ClusterView::on_delivery);
        }
        if !self.has(to) {
            return;
        }
        match self.hosts[to as usize].status {
            NodeStatus::Running => self.deliver(seq, to, Input::Message { from, msg }),
            // A crashed node is not there to receive anything.
            NodeStatus::Crashed => self.record(seq, to, TraceKind::LostToCrash { from }),
            // A frozen node's messages wait in the buffer rather than vanishing,
            // and hit it all at once when it wakes up.
            NodeStatus::Paused { until } => {
                self.stats.messages_deferred = self.stats.messages_deferred.saturating_add(1);
                let soonest: u64 = self.now.saturating_add(1);
                self.schedule(
                    if until < soonest {
                        soonest
                    } else {
                        until
                    },
                    Event::Deliver { from, to, msg, sent_at },
                );
            },
        }
    }

    fn on_client(&mut self, seq: u64, node: NodeId, req: ClientRequest)
        requires
            old(self).wf(),
        ensures
            final(self).wf(),
            final(self).same_run(old(self)),
            final(self)@ == old(self)@.on_client(seq, node, req@),
    {
        proof {
            reveal(ClusterView::on_client);
        }
        if !self.is_available(node) {
            return;
        }
        match self.stale_read(node, &req) {
            Some(c) => self.serve_stale_read(seq, node, &req, c),
            None => self.deliver(seq, node, Input::ClientRequest(req)),
        }
    }

    fn on_event(&mut self, seq: u64, event: Event)
        requires
            old(self).wf(),
        ensures
            final(self).wf(),
            final(self).same_run(old(self)),
            final(self)@ == old(self)@.on_event(seq, event@),
    {
        proof {
            reveal(ClusterView::on_event);
        }
        match event {
            Event::Timer { node } => self.on_timer(seq, node),
            Event::Deliver { from, to, msg, sent_at } => self.on_delivery(
                seq,
                from,
                to,
                msg,
                sent_at,
            ),
            Event::Client { node, req } => self.on_client(seq, node, req),
            Event::Compact { node } => self.compact_node(seq, node),
            Event::Fault { fault } => self.apply_fault(seq, fault),
        }
    }

    /// Process exactly one event. Returns false only if the queue is empty,
    /// which with timers always re-armed means "never" in practice.
    pub fn step_once(&mut self) -> (r: bool)
        requires
            old(self).wf(),
        ensures
            final(self).wf(),
            final(self)@.cfg == old(self)@.cfg,
            final(self)@.hosts.len() == old(self)@.hosts.len(),
            final(self)@ == old(self)@.step(),
            r == (old(self)@.queue.slots.len() > 0),
            r ==> final(self)@.events_processed == old(self)@.events_processed.saturating_add(1),
    {
        proof {
            reveal(ClusterView::step);
        }
        match self.queue.pop_next() {
            None => false,
            Some(next) => {
                self.now = next.tick;
                self.events_processed = self.events_processed.saturating_add(1);
                self.on_event(next.seq, next.event);
                true
            },
        }
    }

    /// Is there an event to process by `deadline`?
    fn busy_until(&self, deadline: Tick) -> (r: bool)
        requires
            self.wf(),
        ensures
            r == self@.busy_until(deadline),
    {
        match self.queue.next_tick() {
            Some(t) => t <= deadline && self.events_processed < u64::MAX,
            None => false,
        }
    }

    /// Run until the virtual clock reaches `deadline`.
    pub fn run_until(&mut self, deadline: Tick)
        requires
            old(self).wf(),
        ensures
            final(self).wf(),
            final(self)@.cfg == old(self)@.cfg,
            final(self)@.hosts.len() == old(self)@.hosts.len(),
            old(self)@.runs_for(deadline, old(self)@.events_until(deadline)),
            final(self)@ == old(self)@.ran_until(deadline),
            final(self)@.now >= deadline,
    {
        let ghost mut n: nat = 0;
        while self.busy_until(deadline)
            invariant
                self.wf(),
                self@.cfg == old(self)@.cfg,
                self@.hosts.len() == old(self)@.hosts.len(),
                self@ == old(self)@.after(n),
                forall|k: nat| k < n ==> (#[trigger] old(self)@.after(k)).busy_until(deadline),
            decreases u64::MAX - self@.events_processed,
        {
            let _ = self.step_once();
            proof {
                n = n + 1;
            }
        }
        proof {
            assert(old(self)@.runs_for(deadline, n));
            crate::cluster_model::law_runs_are_determined(
                old(self)@,
                deadline,
                n,
                old(self)@.events_until(deadline),
            );
        }
        if self.now < deadline {
            self.now = deadline;
        }
    }

    /// Run `ticks` further ticks of virtual time.
    pub fn run_for(&mut self, ticks: Tick)
        requires
            old(self).wf(),
        ensures
            final(self).wf(),
            final(self)@.cfg == old(self)@.cfg,
            final(self)@.hosts.len() == old(self)@.hosts.len(),
            final(self)@ == old(self)@.ran_until(old(self)@.now.saturating_add(ticks)),
            final(self)@.now >= old(self)@.now.saturating_add(ticks),
    {
        let deadline: u64 = self.now.saturating_add(ticks);
        self.run_until(deadline);
    }

    // --- who leads -----------------------------------------------------------

    /// Does this node lead?
    fn leads(&self, i: usize) -> (r: bool)
        requires
            self.wf(),
            i < self@.hosts.len(),
        ensures
            r == self@.leads(i as int),
    {
        let up = match self.hosts[i].status {
            NodeStatus::Crashed => false,
            _ => true,
        };
        up && self.hosts[i].node.role() == Role::Leader
    }

    /// The current leader: the leader of the highest term seen. During a
    /// transition two nodes can call themselves leader in *different* terms,
    /// which is legal.
    pub fn leader(&self) -> (r: Option<NodeId>)
        requires
            self.wf(),
        ensures
            r == self@.leader(),
            r matches Some(id) ==> self@.has(id),
    {
        let n: usize = self.hosts.len();
        let mut best: Option<NodeId> = None;
        let mut i: usize = 0;
        while i < n
            invariant
                i <= n <= u32::MAX,
                n == self@.hosts.len(),
                self.wf(),
                best == self@.leader_among(i as int),
                best matches Some(id) ==> id < i,
            decreases n - i,
        {
            if self.leads(i) {
                let kept = match best {
                    Some(other) => self.hosts[other as usize].node.current_term()
                        > self.hosts[i].node.current_term(),
                    None => false,
                };
                if !kept {
                    best = Some(i as u32);
                }
            }
            i = i + 1;
        }
        best
    }

    pub fn leaders(&self) -> (r: Vec<NodeId>)
        requires
            self.wf(),
        ensures
            r@ == self@.leaders_among(self@.hosts.len() as int),
    {
        let n: usize = self.hosts.len();
        let mut r: Vec<NodeId> = Vec::new();
        let mut i: usize = 0;
        while i < n
            invariant
                i <= n <= u32::MAX,
                n == self@.hosts.len(),
                self.wf(),
                r@ == self@.leaders_among(i as int),
            decreases n - i,
        {
            if self.leads(i) {
                r.push(i as u32);
            }
            i = i + 1;
        }
        r
    }

    /// Run until a leader exists or `deadline` passes.
    pub fn run_until_leader(&mut self, deadline: Tick) -> (r: Option<NodeId>)
        requires
            old(self).wf(),
        ensures
            final(self).wf(),
            final(self)@.cfg == old(self)@.cfg,
            final(self)@.hosts.len() == old(self)@.hosts.len(),
            r == final(self)@.leader(),
            old(self)@.waits_for_leader(deadline, old(self)@.events_to_leader(deadline)),
            final(self)@ == old(self)@.ran_to_leader(deadline),
    {
        let ghost mut n: nat = 0;
        let mut found: Option<NodeId> = None;
        while found.is_none() && self.now < deadline && self.events_processed < u64::MAX
            && self.queue.len() > 0
            invariant
                self.wf(),
                self@.cfg == old(self)@.cfg,
                self@.hosts.len() == old(self)@.hosts.len(),
                self@ == old(self)@.after(n),
                forall|k: nat| k < n ==> (#[trigger] old(self)@.after(k)).awaits(deadline),
                found is Some ==> n > 0 && found == self@.leader(),
                found is None ==> forall|k: nat|
                    0 < k <= n ==> (#[trigger] old(self)@.after(k)).leader() is None,
                found is Some ==> forall|k: nat|
                    0 < k < n ==> (#[trigger] old(self)@.after(k)).leader() is None,
            decreases u64::MAX - self@.events_processed,
        {
            let _ = self.step_once();
            proof {
                n = n + 1;
            }
            found = self.leader();
        }
        proof {
            assert(old(self)@.waits_for_leader(deadline, n));
            crate::cluster_model::law_runs_are_determined(
                old(self)@,
                deadline,
                n,
                old(self)@.events_to_leader(deadline),
            );
        }
        self.leader()
    }

    // --- driving clients and faults --------------------------------------------

    /// Submit a command to `node`. Takes effect at the current tick, ordered
    /// after everything already scheduled for it.
    ///
    /// The operation is invoked the moment the client sends it. If no response
    /// ever comes back it stays pending.
    pub fn submit(&mut self, node: NodeId, client: ClientId, seq: u64, cmd: KvCommand)
        requires
            old(self).wf(),
            old(self)@.has(node),
        ensures
            final(self).wf(),
            final(self)@.cfg == old(self)@.cfg,
            final(self)@.hosts.len() == old(self)@.hosts.len(),
            final(self)@ == old(self)@.submit(node, client, seq, cmd@),
            final(self)@.hosts == old(self)@.hosts,
    {
        proof {
            reveal(ClusterView::submit);
        }
        let now: u64 = self.now;
        let _ = self.history.invoke(client, seq, cmd.clone(), now);
        self.schedule(
            now,
            Event::Client {
                node,
                req: ClientRequest {
                    client,
                    seq,
                    // Raft cannot inspect an opaque command, so the application
                    // says whether it only reads.
                    read_only: cmd.is_read_only(),
                    command: cmd.encode(),
                },
            },
        );
    }

    /// Apply a fault right now. Messages already in flight are unaffected: they
    /// were handed to the network before the link went down.
    pub fn inject(&mut self, fault: Fault)
        requires
            old(self).wf(),
        ensures
            final(self).wf(),
            final(self)@.cfg == old(self)@.cfg,
            final(self)@.hosts.len() == old(self)@.hosts.len(),
            final(self)@ == old(self)@.inject(fault@),
    {
        let seq: u64 = self.events_processed;
        self.disturb(seq, fault);
    }

    pub fn partition(&mut self, a: &[NodeId], b: &[NodeId])
        requires
            old(self).wf(),
        ensures
            final(self).wf(),
            final(self)@.cfg == old(self)@.cfg,
            final(self)@.hosts.len() == old(self)@.hosts.len(),
            final(self)@ == old(self)@.inject(FaultView::Partition { a: a@, b: b@ }),
    {
        self.inject(
            Fault::Partition { a: crate::faults::copy_ids(a), b: crate::faults::copy_ids(b) },
        );
    }

    /// One-way cut: `from` can no longer reach `to`.
    pub fn cut(&mut self, from: NodeId, to: NodeId)
        requires
            old(self).wf(),
        ensures
            final(self).wf(),
            final(self)@.cfg == old(self)@.cfg,
            final(self)@.hosts.len() == old(self)@.hosts.len(),
            final(self)@ == old(self)@.inject(FaultView::AsymmetricCut { from, to }),
    {
        self.inject(Fault::AsymmetricCut { from, to });
    }

    pub fn isolate(&mut self, node: NodeId)
        requires
            old(self).wf(),
        ensures
            final(self).wf(),
            final(self)@.cfg == old(self)@.cfg,
            final(self)@.hosts.len() == old(self)@.hosts.len(),
            final(self)@ == old(self)@.inject(FaultView::Isolate { node }),
    {
        self.inject(Fault::Isolate { node });
    }

    pub fn heal(&mut self)
        requires
            old(self).wf(),
        ensures
            final(self).wf(),
            final(self)@.cfg == old(self)@.cfg,
            final(self)@.hosts.len() == old(self)@.hosts.len(),
            final(self)@ == old(self)@.inject(FaultView::Heal),
    {
        self.inject(Fault::Heal);
    }

    /// Let the dust settle: stop the fault schedule, drop what it had in store,
    /// repair everything, and run for `ticks`. Healing alone is not enough, for
    /// a schedule that keeps firing can disturb the cluster again a moment
    /// before anyone looks.
    pub fn settle(&mut self, ticks: Tick)
        requires
            old(self).wf(),
        ensures
            final(self).wf(),
            final(self)@.cfg == old(self)@.calmed().cfg,
            final(self)@.hosts.len() == old(self)@.hosts.len(),
            final(self)@ == old(self)@.settled(ticks),
    {
        self.cfg.faults.enabled = false;
        self.queue.drop_faults();
        assert(self@ =~= old(self)@.calmed());
        self.heal();
        self.run_for(ticks);
    }

    pub fn crash(&mut self, node: NodeId)
        requires
            old(self).wf(),
            old(self)@.has(node),
        ensures
            final(self).wf(),
            final(self)@.cfg == old(self)@.cfg,
            final(self)@.hosts.len() == old(self)@.hosts.len(),
            final(self)@ == old(self)@.inject(FaultView::Crash { node }),
    {
        self.inject(Fault::Crash { node });
    }

    pub fn restart(&mut self, node: NodeId)
        requires
            old(self).wf(),
            old(self)@.has(node),
        ensures
            final(self).wf(),
            final(self)@.cfg == old(self)@.cfg,
            final(self)@.hosts.len() == old(self)@.hosts.len(),
            final(self)@ == old(self)@.inject(FaultView::Restart { node }),
    {
        self.inject(Fault::Restart { node });
    }

    pub fn pause(&mut self, node: NodeId, ticks: Tick)
        requires
            old(self).wf(),
            old(self)@.has(node),
        ensures
            final(self).wf(),
            final(self)@.cfg == old(self)@.cfg,
            final(self)@.hosts.len() == old(self)@.hosts.len(),
            final(self)@ == old(self)@.inject(FaultView::Pause { node, ticks }),
    {
        self.inject(Fault::Pause { node, ticks });
    }

    /// Ask the current leader to change the cluster membership.
    ///
    /// Returns false if there is nobody to ask. The change itself is
    /// asynchronous: the leader appends the joint configuration, and moves to
    /// the new one on its own once that commits.
    pub fn change_membership(&mut self, voters: &[NodeId]) -> (r: bool)
        requires
            old(self).wf(),
        ensures
            final(self).wf(),
            final(self)@.cfg == old(self)@.cfg,
            final(self)@.hosts.len() == old(self)@.hosts.len(),
            final(self)@.now == old(self)@.now,
            r == (old(self)@.leader() is Some),
            old(self)@.leader() is None ==> final(self)@ == old(self)@,
            old(self)@.leader() matches Some(leader) ==> {
                final(self)@ == old(self)@.change_membership(leader, voters@.to_set())
            },
    {
        proof {
            reveal(ClusterView::change_membership);
        }
        let leader: u32 = match self.leader() {
            Some(id) => id,
            None => return false,
        };
        let set = crate::config::id_set_of(voters);
        let seq: u64 = self.events_processed;
        let listed = crate::order::ids_in_order(&set);
        self.stats.membership_changes = self.stats.membership_changes.saturating_add(1);
        self.mark(
            Moment::MembershipChanged { voters: crate::faults::copy_ids(listed.as_slice()) },
        );
        self.record(seq, leader, TraceKind::MembershipChange { voters: listed });
        self.deliver(seq, leader, Input::ChangeMembership(set));
        true
    }

    /// The client gave up on this request.
    pub fn abandon_request(&mut self, client: ClientId, seq: u64)
        requires
            old(self).wf(),
        ensures
            final(self).wf(),
            final(self)@.cfg == old(self)@.cfg,
            final(self)@.hosts.len() == old(self)@.hosts.len(),
            final(self)@ == old(self)@.abandon(client, seq),
    {
        let tick: u64 = self.now;
        self.history.abandon(client, seq, tick);
    }
}

// --- the beginning ------------------------------------------------------------

impl Cluster {
    /// The nodes of a cluster that has not started yet.
    fn first_hosts(cfg: &SimConfig) -> (r: Vec<Host>)
        requires
            cfg@.valid(),
        ensures
            hosts_view(r@) == ClusterView::idle(cfg@).hosts,
            forall|i: int|
                0 <= i < r@.len() ==> (#[trigger] r@[i]).wf(
                    cfg.raft.bugs.compaction_anchor_at_zero,
                ),
    {
        let config = cfg.initial_config();
        // Each node gets its own clock rate, fixed for the run.
        let mut clock_rng = Rng::derive(cfg.seed, crate::cluster_model::CLOCKS_STREAM);
        let ghost clocks = clock_rng@;
        let skew: u64 = cfg.clock_skew_permille as u64;
        let slowest: u64 = if skew < 900 {
            1000 - skew
        } else {
            100
        };
        let mut r: Vec<Host> = Vec::new();
        let mut i: usize = 0;
        while i < cfg.nodes
            invariant
                cfg@.valid(),
                i <= cfg.nodes,
                config@ == cfg@.initial_config(),
                skew == cfg.clock_skew_permille,
                slowest == cfg@.slowest(),
                clocks == crate::rand::stream_state(
                    cfg.seed,
                    crate::cluster_model::CLOCKS_STREAM,
                ),
                skew > 0 ==> clock_rng@ == crate::cluster_model::advanced_by(clocks, i as nat),
                r@.len() == i,
                forall|k: int|
                    0 <= k < i ==> (#[trigger] r@[k])@ == crate::cluster_model::first_host(
                        cfg@,
                        k,
                    ) && r@[k].wf(cfg.raft.bugs.compaction_anchor_at_zero),
            decreases cfg.nodes - i,
        {
            let rate: u64 = if skew == 0 {
                1000
            } else {
                clock_rng.gen_range(slowest, 1000 + skew + 1)
            };
            let mut disk = Storage::new();
            // The durable log mirrors the node's, so a regression that corrupts
            // one corrupts the other.
            disk.log.set_zero_anchor_bug(cfg.raft.bugs.compaction_anchor_at_zero);
            let host = Host {
                node: RaftNode::new(i as u32, config.clone(), cfg.raft, cfg.seed, 0),
                disk,
                machine: KvStore::new(),
                applied: Vec::new(),
                status: NodeStatus::Running,
                clock_rate: rate,
                restarts: 0,
                timer_at: None,
                compacting: false,
            };
            proof {
                crate::rand::lemma_range_bounds(
                    crate::cluster_model::advanced_by(clocks, i as nat),
                    slowest,
                    (1000 + skew + 1) as u64,
                );
                assert(applied_view(host.applied@) =~= Seq::empty());
                assert(host@ == crate::cluster_model::first_host(cfg@, i as int));
            }
            r.push(host);
            i = i + 1;
        }
        assert(hosts_view(r@) =~= ClusterView::idle(cfg@).hosts);
        r
    }

    /// Give every node its first timer.
    fn prime(&mut self)
        requires
            old(self).wf(),
        ensures
            final(self).wf(),
            final(self).same_run(old(self)),
            final(self)@ == old(self)@.primed(old(self)@.hosts.len()),
    {
        let n: usize = self.hosts.len();
        let mut i: usize = 0;
        while i < n
            invariant
                i <= n <= u32::MAX,
                n == old(self)@.hosts.len(),
                self.wf(),
                self.same_run(old(self)),
                self@ == old(self)@.primed(i as nat),
            decreases n - i,
        {
            let deadline: u64 = self.hosts[i].node.next_deadline();
            let at: u64 = if deadline < 1 {
                1
            } else {
                deadline
            };
            self.schedule(at, Event::Timer { node: i as u32 });
            self.set_timer(i as u32, Some(at));
            i = i + 1;
        }
    }

    /// Schedule a fixed list of faults.
    fn schedule_script(&mut self, script: &Vec<(Tick, Fault)>)
        requires
            old(self).wf(),
        ensures
            final(self).wf(),
            final(self).same_run(old(self)),
            final(self)@ == old(self)@.scripted(faults_view(script@), script@.len() as int),
    {
        let mut i: usize = 0;
        while i < script.len()
            invariant
                i <= script@.len(),
                self.wf(),
                self.same_run(old(self)),
                self@ == old(self)@.scripted(faults_view(script@), i as int),
            decreases script@.len() - i,
        {
            let at: u64 = script[i].0;
            assert(faults_view(script@)[i as int] == (script@[i as int].0, script@[i as int].1@));
            self.schedule(
                if at < 1 {
                    1
                } else {
                    at
                },
                Event::Fault { fault: script[i].1.clone() },
            );
            i = i + 1;
        }
    }

    /// A cluster at the start of its run.
    ///
    /// The fault schedule is generated lazily: each disturbance schedules its
    /// own repair, and each repair schedules the next disturbance. It needs no
    /// horizon, so a run can be extended without changing what already happened.
    pub fn new(cfg: SimConfig) -> (r: Self)
        requires
            cfg@.valid(),
        ensures
            r.wf(),
            r@ == ClusterView::start(cfg@),
            r@.cfg == cfg@,
            r@.hosts.len() == cfg.nodes,
    {
        let hosts = Cluster::first_hosts(&cfg);
        let seed: u64 = cfg.seed;
        let network: NetworkConfig = cfg.network;
        let trace = if cfg.record_trace {
            Trace::new()
        } else {
            Trace::disabled()
        };
        let script = match &cfg.scripted_faults {
            Some(s) => Some(copy_faults(s)),
            None => None,
        };
        let ghost given = cfg@;
        let mut sim = Cluster {
            cfg,
            now: 0,
            queue: EventQueue::new(),
            hosts,
            net: Network::new(network),
            net_rng: Rng::derive(seed, crate::cluster_model::NETWORK_STREAM),
            fault_rng: Rng::derive(seed, crate::cluster_model::FAULTS_STREAM),
            disk_rng: Rng::derive(seed, crate::cluster_model::DISK_STREAM),
            disturbed: false,
            faults_injected: Vec::new(),
            trace,
            checker: Invariants::new(),
            history: History::new(),
            timeline: Timeline::new(),
            stats: RunStats::default(),
            outcomes: Vec::new(),
            answered: BTreeSet::new(),
            events_processed: 0,
        };
        proof {
            assert(hosts_view(sim.hosts@) == ClusterView::idle(given).hosts);
            assert(faults_view(sim.faults_injected@) =~= Seq::empty());
            assert(answers_view(sim.outcomes@) =~= Seq::empty());
            assert(sim@ =~= ClusterView::idle(given));
        }
        sim.prime();
        match &script {
            // A fixed script: replay exactly these, generate nothing.
            Some(s) => sim.schedule_script(s),
            None => {
                if sim.cfg.faults.enabled {
                    sim.schedule_next_fault();
                }
            },
        }
        sim
    }

    // --- inspection -------------------------------------------------------------

    pub fn now(&self) -> (r: Tick)
        ensures
            r == self@.now,
    {
        self.now
    }

    pub fn config(&self) -> (r: &SimConfig)
        ensures
            r@ == self@.cfg,
    {
        &self.cfg
    }

    pub fn events_processed(&self) -> (r: u64)
        ensures
            r == self@.events_processed,
    {
        self.events_processed
    }

    pub fn node(&self, id: NodeId) -> (r: &RaftNode)
        requires
            self.wf(),
            self@.has(id),
        ensures
            r@ == self@.host(id).node,
    {
        &self.hosts[id as usize].node
    }

    /// Every node with its id, in order.
    pub fn nodes(&self) -> (r: Vec<(NodeId, &RaftNode)>)
        requires
            self.wf(),
        ensures
            r@.len() == self@.hosts.len(),
            forall|i: int|
                0 <= i < r@.len() ==> (#[trigger] r@[i]).0 == i && r@[i].1@ == self@.hosts[i].node,
    {
        let n: usize = self.hosts.len();
        let mut r: Vec<(NodeId, &RaftNode)> = Vec::new();
        let mut i: usize = 0;
        while i < n
            invariant
                i <= n <= u32::MAX,
                n == self.hosts@.len(),
                r@.len() == i,
                forall|k: int|
                    0 <= k < i ==> (#[trigger] r@[k]).0 == k && r@[k].1@ == self@.hosts[k].node,
            decreases n - i,
        {
            r.push((i as u32, &self.hosts[i].node));
            i = i + 1;
        }
        r
    }

    pub fn node_ids(&self) -> (r: Vec<NodeId>)
        requires
            self.wf(),
        ensures
            r@ == crate::cluster_model::ids(self@.hosts.len()),
    {
        id_list(self.hosts.len())
    }

    pub fn storage(&self, id: NodeId) -> (r: &Storage)
        requires
            self.wf(),
            self@.has(id),
        ensures
            r@ == self@.host(id).disk,
    {
        &self.hosts[id as usize].disk
    }

    pub fn machine(&self, id: NodeId) -> (r: &KvStore)
        requires
            self.wf(),
            self@.has(id),
        ensures
            r@ == self@.host(id).machine,
            r.wf(),
    {
        assert(self.hosts@[id as int].wf(self.cfg.raft.bugs.compaction_anchor_at_zero));
        &self.hosts[id as usize].machine
    }

    pub fn applied(&self, id: NodeId) -> (r: &[AppliedEntry])
        requires
            self.wf(),
            self@.has(id),
        ensures
            applied_view(r@) == self@.host(id).applied,
    {
        self.hosts[id as usize].applied.as_slice()
    }

    pub fn trace(&self) -> (r: &Trace)
        ensures
            r@ == self@.trace,
    {
        &self.trace
    }

    /// Every safety violation found so far, in the order they were found.
    pub fn violations(&self) -> (r: &[Violation])
        ensures
            crate::invariants::violations_view(r@) == self@.checker.violations,
    {
        self.checker.violations()
    }

    pub fn checker(&self) -> (r: &Invariants)
        ensures
            r@ == self@.checker,
    {
        &self.checker
    }

    /// Which invariants are currently broken, each once, in their order.
    pub fn broken_invariants(&self) -> (r: Vec<Invariant>)
        ensures
            forall|i: int, j: int|
                0 <= i < j < r@.len() ==> (#[trigger] r@[i]).rank() < (#[trigger] r@[j]).rank(),
            forall|p: Invariant|
                #[trigger] r@.contains(p) <==> exists|i: int|
                    0 <= i < self@.checker.violations.len() && (
                    #[trigger] self@.checker.violations[i]).property == p,
    {
        self.checker.broken()
    }

    /// The full explanation if anything is broken: the properties, the nodes
    /// involved, and the usual causes.
    pub fn violation_report(&self) -> (r: Option<String>)
        ensures
            r is None <==> self@.checker.violations.len() == 0,
            r matches Some(text) ==> text@ == self@.violation_report(),
    {
        if self.checker.is_clean() {
            return None;
        }
        let violations = self.checker.violations();
        let n: usize = violations.len();
        let mut r = String::new();
        crate::text::push_decimal(&mut r, n as u64);
        r.append(" safety violation(s) with seed ");
        crate::text::push_decimal(&mut r, self.cfg.seed);
        r.append(":\n");
        let ghost head = r@;
        let mut i: usize = 0;
        while i < n
            invariant
                i <= n == violations@.len(),
                crate::invariants::violations_view(violations@) == self@.checker.violations,
                r@ == crate::cluster_model::reports(head, self@.checker.violations, i as int),
            decreases n - i,
        {
            assert(self@.checker.violations[i as int] == violations@[i as int]@);
            if i > 0 {
                r.append("\n");
            }
            r.append(violations[i].report().as_str());
            i = i + 1;
        }
        Some(r)
    }

    /// Callable only on a run that broke nothing.
    pub fn assert_no_violations(&self)
        requires
            self@.checker.violations.len() == 0,
    {
    }

    pub fn outcomes(&self) -> (r: &[ClientOutcome])
        ensures
            answers_view(r@) == self@.outcomes,
    {
        self.outcomes.as_slice()
    }

    pub fn queue(&self) -> (r: &EventQueue)
        ensures
            r@ == self@.queue,
    {
        &self.queue
    }

    /// Coverage counters for the network.
    pub fn network_stats(&self) -> (r: &NetworkStats)
        ensures
            *r == self@.net.stats,
    {
        self.net.stats()
    }

    /// What the run actually exercised: elections, truncations, entries applied.
    pub fn stats(&self) -> (r: &RunStats)
        ensures
            *r == self@.stats,
    {
        &self.stats
    }

    /// Every client operation, with the time it was invoked and what, if
    /// anything, came back.
    pub fn history(&self) -> (r: &History)
        ensures
            r@ == self@.history,
    {
        &self.history
    }

    /// Is the recorded history linearizable?
    pub fn check_linearizability(&self) -> (r: Verdict)
        ensures
            r@ == crate::linearizability::verdict_on(
                self@.history,
                crate::linearizability::DEFAULT_BUDGET,
            ),
    {
        crate::linearizability::check(&self.history)
    }

    /// Current link state.
    pub fn partitions(&self) -> (r: &Partitions)
        ensures
            r@ == self@.net.blocked,
    {
        self.net.partitions()
    }

    pub fn is_reachable(&self, from: NodeId, to: NodeId) -> (r: bool)
        ensures
            r == crate::faults::can_reach(self@.net.blocked, from, to),
    {
        self.net.partitions().reachable(from, to)
    }

    /// Notable moments, for the timeline view.
    pub fn timeline(&self) -> (r: &Timeline)
        ensures
            r@ == self@.timeline,
    {
        &self.timeline
    }

    /// Every fault applied so far, with the tick it happened at.
    pub fn faults_injected(&self) -> (r: &Vec<(Tick, Fault)>)
        ensures
            faults_view(r@) == self@.faults_injected,
    {
        &self.faults_injected
    }

    /// The membership a node currently believes it is in.
    pub fn configuration(&self, node: NodeId) -> (r: &ClusterConfig)
        requires
            self.wf(),
            self@.has(node),
        ensures
            r@ == self@.host(node).node.cluster,
    {
        self.hosts[node as usize].node.cluster()
    }

    pub fn status(&self, node: NodeId) -> (r: NodeStatus)
        requires
            self.wf(),
            self@.has(node),
        ensures
            r == self@.host(node).status,
    {
        self.hosts[node as usize].status
    }

    /// This node's clock rate, per mille of the simulator's; exact for a node
    /// that does not exist.
    pub fn clock_rate(&self, node: NodeId) -> (r: u64)
        requires
            self.wf(),
        ensures
            r == (if self@.has(node) {
                self@.host(node).clock_rate
            } else {
                1000
            }),
    {
        if self.has(node) {
            self.hosts[node as usize].clock_rate
        } else {
            1000
        }
    }
}

} // verus!
