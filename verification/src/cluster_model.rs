//! What a simulated cluster is, and what each event does to it.
//!
//! A run is a pure function of its configuration: each operation of the
//! simulator is stated here as a function from the cluster before to the
//! cluster after. Counters stop at the largest value they can hold, and so does
//! time; an event for a node that does not exist does nothing; an input that a
//! node cannot take without leaving machine limits is lost.
use crate::cluster::{NodeStatus, RunStats};
use crate::config::ConfigView;
use crate::event::{EventView, QueueView};
use crate::faults::{DiskConfig, FaultConfig, FaultView};
use crate::history::HistoryView;
use crate::invariants::{CheckerView, ViolationView};
use crate::kv::{CommandView, ResultView, StoreView};
use crate::log::PayloadView;
use crate::message::MessageView;
use crate::model::{InputView, NodeView, OutputView, PersistView, RequestView};
use crate::network::{NetView, NetworkConfig, Routed};
use crate::node::ClientResult;
use crate::snapshot::SnapshotView;
use crate::storage::DiskView;
use crate::timeline::{MomentView, TimelineView};
use crate::trace::{KindView, TraceView};
use crate::{LogId, RaftConfig, Role};
use vstd::prelude::*;

verus! {

/// The configuration of a run as a mathematical value.
pub struct SimView {
    pub seed: u64,
    pub nodes: usize,
    pub raft: RaftConfig,
    pub network: NetworkConfig,
    pub faults: FaultConfig,
    pub disk: DiskConfig,
    pub clock_skew_permille: u32,
    pub record_trace: bool,
    pub scripted_faults: Option<Seq<(u64, FaultView)>>,
    pub initial_voters: Option<Seq<u32>>,
    pub snapshot_every: Option<u64>,
    pub stale_reads: bool,
    pub check_invariants: bool,
}

/// The streams that the generators of a run start from.
pub const NETWORK_STREAM: u64 = 0x4e45_5457_4f52_4b00;

pub const FAULTS_STREAM: u64 = 0x4641_554c_5453_0000;

pub const CLOCKS_STREAM: u64 = 0x434c_4f43_4b53_0000;

pub const DISK_STREAM: u64 = 0x4449_534b_0000_0000;

/// What a restarted process adds to its seed, per restart.
pub const RESTART_STRIDE: u64 = 0x9E37_79B9;

/// The ids of a cluster of `n` nodes.
pub open spec fn ids(n: nat) -> Seq<u32> {
    Seq::new(n, |i: int| i as u32)
}

impl SimView {
    /// The cluster has nodes, voters, and election timeouts to draw from.
    pub open spec fn valid(self) -> bool {
        &&& 0 < self.nodes <= u32::MAX
        &&& self.raft.election_timeout_min < self.raft.election_timeout_max
        &&& self.initial_voters matches Some(v) ==> v.len() > 0
    }

    /// The membership the cluster starts with.
    pub open spec fn initial_config(self) -> ConfigView {
        ConfigView::simple(
            match self.initial_voters {
                Some(voters) => voters.to_set(),
                None => ids(self.nodes as nat).to_set(),
            },
        )
    }

    /// The range that clock rates are drawn from.
    pub open spec fn slowest(self) -> u64 {
        if self.clock_skew_permille < 900 {
            (1000 - self.clock_skew_permille) as u64
        } else {
            100
        }
    }

    /// The clock rate of node `i`, per mille of the simulator's.
    pub open spec fn clock_rate(self, i: nat) -> u64 {
        if self.clock_skew_permille == 0 {
            1000
        } else {
            crate::rand::in_range(
                advanced_by(crate::rand::stream_state(self.seed, CLOCKS_STREAM), i),
                self.slowest(),
                (1000 + self.clock_skew_permille + 1) as u64,
            )
        }
    }
}

/// A generator's state after `n` draws.
pub open spec fn advanced_by(state: u64, n: nat) -> u64
    decreases n,
{
    if n == 0 {
        state
    } else {
        crate::rand::advanced(advanced_by(state, (n - 1) as nat))
    }
}

/// One entry as seen by a node's state machine.
pub struct AppliedView {
    pub index: u64,
    pub term: u64,
    pub command: Option<CommandView>,
}

pub enum KindOfOutcome {
    Applied(ResultView),
    NotLeader { leader: Option<u32> },
}

/// What a client learned about one request.
pub struct AnswerView {
    pub client: u32,
    pub seq: u64,
    pub node: u32,
    pub tick: u64,
    pub result: KindOfOutcome,
}

/// One node, its disk, its state machine and its place in the simulation.
pub struct HostView {
    pub node: NodeView,
    pub disk: DiskView,
    pub machine: StoreView,
    pub applied: Seq<AppliedView>,
    pub status: NodeStatus,
    pub clock_rate: u64,
    pub restarts: u64,
    /// The timer this node currently has pending.
    pub timer_at: Option<u64>,
    /// A compaction is scheduled.
    pub compacting: bool,
}

/// A cluster as a mathematical value.
#[verifier::ext_equal]
pub struct ClusterView {
    pub cfg: SimView,
    pub now: u64,
    pub queue: QueueView,
    pub hosts: Seq<HostView>,
    pub net: NetView,
    pub net_rng: u64,
    pub fault_rng: u64,
    pub disk_rng: u64,
    /// A disturbance is in effect, so the schedule heals next.
    pub disturbed: bool,
    pub faults_injected: Seq<(u64, FaultView)>,
    pub trace: TraceView,
    pub checker: CheckerView,
    pub history: HistoryView,
    pub timeline: TimelineView,
    pub stats: RunStats,
    pub outcomes: Seq<AnswerView>,
    /// A client hears about a request once.
    pub answered: Set<(u32, u64)>,
    pub events_processed: u64,
}

/// `a * b / c`, or the largest `u64` where that is more.
pub open spec fn scaled(a: u64, b: u64, c: u64) -> u64 {
    let x = (a * b) / (c as int);
    if x > u64::MAX {
        u64::MAX
    } else {
        x as u64
    }
}

/// `a * b / c` rounded up, or the largest `u64` where that is more.
pub open spec fn scaled_up(a: u64, b: u64, c: u64) -> u64 {
    let x = (a * b + c - 1) / (c as int);
    if x > u64::MAX {
        u64::MAX
    } else {
        x as u64
    }
}

/// The lower of an index and one that may be there.
pub open spec fn lowest(dirty: Option<u64>, index: u64) -> Option<u64> {
    match dirty {
        Some(d) => Some(crate::model::min_of(d, index)),
        None => Some(index),
    }
}

/// How many outputs at the start are durable writes, from `i` on.
pub open spec fn writes_from(outputs: Seq<OutputView>, i: int) -> nat
    decreases outputs.len() - i,
{
    if 0 <= i < outputs.len() && outputs[i] is Persist {
        1 + writes_from(outputs, i + 1)
    } else {
        0
    }
}

impl ClusterView {
    // --- small changes -----------------------------------------------------

    pub open spec fn has(self, node: u32) -> bool {
        node < self.hosts.len()
    }

    pub open spec fn host(self, node: u32) -> HostView {
        self.hosts[node as int]
    }

    pub open spec fn with_host(self, node: u32, host: HostView) -> ClusterView {
        ClusterView { hosts: self.hosts.update(node as int, host), ..self }
    }

    pub open spec fn traced(self, seq: u64, node: u32, kind: KindView) -> ClusterView {
        ClusterView { trace: self.trace.push(self.now, seq, node, kind), ..self }
    }

    pub open spec fn marked(self, moment: MomentView) -> ClusterView {
        ClusterView { timeline: self.timeline.push(self.now, moment), ..self }
    }

    pub open spec fn schedule(self, at: u64, event: EventView) -> ClusterView {
        ClusterView { queue: self.queue.push(at, event), ..self }
    }

    pub open spec fn set_status(self, node: u32, status: NodeStatus) -> ClusterView {
        self.with_host(node, HostView { status, ..self.host(node) })
    }

    pub open spec fn set_timer(self, node: u32, timer_at: Option<u64>) -> ClusterView {
        self.with_host(node, HostView { timer_at, ..self.host(node) })
    }

    pub open spec fn set_compacting(self, node: u32, compacting: bool) -> ClusterView {
        self.with_host(node, HostView { compacting, ..self.host(node) })
    }

    pub open spec fn set_machine(self, node: u32, machine: StoreView) -> ClusterView {
        self.with_host(node, HostView { machine, ..self.host(node) })
    }

    pub open spec fn set_disk(self, node: u32, disk: DiskView) -> ClusterView {
        self.with_host(node, HostView { disk, ..self.host(node) })
    }

    pub open spec fn with_stats(self, stats: RunStats) -> ClusterView {
        ClusterView { stats, ..self }
    }

    pub open spec fn is_available(self, node: u32) -> bool {
        self.has(node) && self.host(node).status is Running
    }

    // --- clocks ------------------------------------------------------------

    /// The simulator's tick, as this node's own clock sees it.
    pub open spec fn local_time(self, node: u32, global: u64) -> u64 {
        scaled(global, self.host(node).clock_rate, 1000)
    }

    /// The simulator tick at which this node's clock will read `local`.
    pub open spec fn global_time(self, node: u32, local: u64) -> u64 {
        scaled_up(local, 1000, self.host(node).clock_rate)
    }

    pub open spec fn arm(self, node: u32, at: u64) -> ClusterView {
        if self.host(node).timer_at == Some(at) {
            self
        } else {
            self.schedule(at, EventView::Timer { node }).set_timer(node, Some(at))
        }
    }

    /// Every node that is up has a timer pending.
    #[verifier::opaque]
    pub open spec fn rearm_timer(self, node: u32) -> ClusterView {
        let soonest = self.now.saturating_add(1);
        match self.host(node).status {
            NodeStatus::Crashed => self,
            NodeStatus::Paused { until } => self.arm(node, crate::model::max_of(until, soonest)),
            NodeStatus::Running => self.arm(
                node,
                crate::model::max_of(
                    self.global_time(node, self.host(node).node.next_deadline()),
                    soonest,
                ),
            ),
        }
    }

    // --- faults ------------------------------------------------------------

    #[verifier::opaque]
    pub open spec fn schedule_next_fault(self) -> ClusterView {
        let f = self.cfg.faults;
        if self.disturbed {
            let delay = crate::faults::sampled(f.outage_min, f.outage_max, self.fault_rng);
            ClusterView {
                fault_rng: crate::faults::after_sample(f.outage_min, f.outage_max, self.fault_rng),
                ..self
            }.schedule(
                self.now.saturating_add(crate::model::max_of(delay, 1)),
                EventView::Fault { fault: FaultView::Heal },
            )
        } else {
            let delay = crate::faults::sampled(f.healthy_min, f.healthy_max, self.fault_rng);
            let drawn = f.drawn(
                ids(self.hosts.len()),
                crate::faults::after_sample(f.healthy_min, f.healthy_max, self.fault_rng),
            );
            let after = ClusterView { fault_rng: drawn.state, ..self };
            match drawn.fault {
                None => after,
                Some(fault) => after.schedule(
                    self.now.saturating_add(crate::model::max_of(delay, 1)),
                    EventView::Fault { fault },
                ),
            }
        }
    }

    #[verifier::opaque]
    pub open spec fn crash_node(self, seq: u64, node: u32) -> ClusterView {
        if !self.is_available(node) {
            self
        } else {
            self.set_status(node, NodeStatus::Crashed).with_stats(
                RunStats { crashes: self.stats.crashes.saturating_add(1), ..self.stats },
            ).marked(MomentView::Crashed { node }).set_timer(node, None).traced(
                seq,
                node,
                KindView::Crashed,
            )
        }
    }

    /// The membership that a recovering node starts from.
    pub open spec fn recovery_config(self, disk: DiskView) -> ConfigView {
        match disk.snapshot {
            Some(s) => s.config,
            None => self.cfg.initial_config(),
        }
    }

    /// The clock leaves room for another election timeout.
    pub open spec fn can_restart(self, node: u32) -> bool {
        let now = self.local_time(node, self.now);
        &&& now + self.cfg.raft.election_timeout_max <= u64::MAX
        &&& now + self.cfg.raft.heartbeat_interval <= u64::MAX
    }

    /// A node rebuilt from its disk and nothing else.
    pub open spec fn rebuilt(self, node: u32) -> HostView {
        let host = self.host(node);
        let disk = host.disk.recovered(!self.cfg.raft.bugs.skip_snapshot_reconcile);
        let restarts = host.restarts.saturating_add(1);
        HostView {
            node: NodeView::fresh(
                node,
                self.recovery_config(disk),
                self.cfg.raft,
                self.cfg.seed.wrapping_add(restarts.wrapping_mul(RESTART_STRIDE)),
                self.local_time(node, self.now),
            ).restored(disk.current_term, disk.voted_for, disk.log, disk.snapshot),
            disk,
            machine: match disk.snapshot {
                Some(s) => machine_of(s, StoreView::empty()),
                None => StoreView::empty(),
            },
            status: NodeStatus::Running,
            restarts,
            ..host
        }
    }

    #[verifier::opaque]
    pub open spec fn restart_node(self, seq: u64, node: u32) -> ClusterView {
        if !self.has(node) || !(self.host(node).status is Crashed) || !self.can_restart(node) {
            self
        } else {
            let host = self.rebuilt(node);
            let back = self.with_host(node, host).with_stats(
                RunStats { restarts: self.stats.restarts.saturating_add(1), ..self.stats },
            ).marked(MomentView::Restarted { node });
            ClusterView {
                checker: back.checker.note_restart(
                    node,
                    match host.disk.snapshot {
                        Some(s) => s.last_included.index,
                        None => 0,
                    },
                ),
                ..back
            }.traced(
                seq,
                node,
                KindView::Restarted {
                    current_term: host.disk.current_term,
                    voted_for: host.disk.voted_for,
                    last_index: host.disk.log.last_index(),
                },
            ).rearm_timer(node)
        }
    }

    #[verifier::opaque]
    pub open spec fn pause_node(self, node: u32, ticks: u64) -> ClusterView {
        if self.is_available(node) {
            self.set_status(
                node,
                NodeStatus::Paused {
                    until: self.now.saturating_add(crate::model::max_of(ticks, 1)),
                },
            ).with_stats(
                RunStats { pauses: self.stats.pauses.saturating_add(1), ..self.stats },
            ).rearm_timer(node)
        } else {
            self
        }
    }

    /// Repair one node: bring it back, or wake it.
    #[verifier::opaque]
    pub open spec fn repair(self, seq: u64, node: u32) -> ClusterView {
        match self.host(node).status {
            NodeStatus::Crashed => self.restart_node(seq, node),
            NodeStatus::Paused { until } => self.set_status(node, NodeStatus::Running).rearm_timer(
                node,
            ),
            NodeStatus::Running => self,
        }
    }

    /// Repair the first `n` nodes.
    pub open spec fn repair_all(self, seq: u64, n: nat) -> ClusterView
        decreases n,
    {
        if n == 0 {
            self
        } else {
            self.repair_all(seq, (n - 1) as nat).repair(seq, (n - 1) as u32)
        }
    }

    #[verifier::opaque]
    pub open spec fn apply_node_fault(self, seq: u64, fault: FaultView) -> ClusterView {
        match fault {
            FaultView::Crash { node } => self.crash_node(seq, node),
            FaultView::Restart { node } => self.restart_node(seq, node),
            FaultView::Pause { node, ticks } => self.pause_node(node, ticks),
            // Healing repairs everything, including nodes that are down.
            FaultView::Heal => self.repair_all(seq, self.hosts.len()),
            _ => self,
        }
    }

    /// A fault takes effect and goes on record.
    #[verifier::opaque]
    pub open spec fn disturb(self, seq: u64, fault: FaultView) -> ClusterView {
        let struck = ClusterView {
            net: NetView {
                blocked: crate::faults::links_after(
                    self.net.blocked,
                    fault,
                    ids(self.hosts.len()),
                ),
                ..self.net
            },
            ..self
        }.apply_node_fault(seq, fault);
        ClusterView {
            stats: RunStats {
                faults_injected: struck.stats.faults_injected.saturating_add(1),
                ..struck.stats
            },
            faults_injected: struck.faults_injected.push((struck.now, fault)),
            ..struck
        }.marked(MomentView::Fault { description: fault.description() }).traced(
            seq,
            0,
            KindView::Fault { fault },
        )
    }

    /// The schedule strikes, and then schedules what comes next.
    #[verifier::opaque]
    pub open spec fn apply_fault(self, seq: u64, fault: FaultView) -> ClusterView {
        let struck = ClusterView {
            disturbed: !(fault is Heal),
            ..self.disturb(seq, fault)
        };
        if self.cfg.faults.enabled && self.cfg.scripted_faults is None {
            struck.schedule_next_fault()
        } else {
            struck
        }
    }

    /// A fault from outside the schedule.
    pub open spec fn inject(self, fault: FaultView) -> ClusterView {
        self.disturb(self.events_processed, fault)
    }

    // --- answering clients -------------------------------------------------

    #[verifier::opaque]
    pub open spec fn record_outcome(
        self,
        node: u32,
        client: u32,
        seq: u64,
        result: KindOfOutcome,
    ) -> ClusterView {
        if result is Applied && self.answered.contains((client, seq)) {
            self
        } else {
            ClusterView {
                answered: if result is Applied {
                    self.answered.insert((client, seq))
                } else {
                    self.answered
                },
                history: match result {
                    KindOfOutcome::Applied(r) => self.history.complete(client, seq, self.now, r),
                    KindOfOutcome::NotLeader { leader } => self.history.refuse(client, seq),
                },
                stats: RunStats {
                    client_responses: self.stats.client_responses.saturating_add(1),
                    ..self.stats
                },
                outcomes: self.outcomes.push(
                    AnswerView { client, seq, node, tick: self.now, result },
                ),
                ..self
            }
        }
    }

    // --- what a node asks for ----------------------------------------------

    /// A committed entry reaches the state machine.
    #[verifier::opaque]
    pub open spec fn apply_entry(
        self,
        seq: u64,
        node: u32,
        index: u64,
        term: u64,
        payload: PayloadView,
        client: Option<(u32, u64)>,
        respond: bool,
    ) -> ClusterView {
        let machine = self.host(node).machine;
        let command = match payload {
            PayloadView::Command(bytes) => crate::kv::command_of(bytes),
            _ => None,
        };
        let result = match command {
            Some(c) => Some(machine.answer_for(client, c)),
            None => None,
        };
        let host = HostView {
            machine: match command {
                Some(c) => machine.applied_for(client, c),
                None => machine,
            },
            applied: self.host(node).applied.push(AppliedView { index, term, command }),
            ..self.host(node)
        };
        let applied = ClusterView {
            stats: RunStats {
                entries_applied: self.stats.entries_applied.saturating_add(1),
                ..self.stats
            },
            checker: if self.cfg.check_invariants {
                self.checker.observe_apply(self.now, node, index, term, command)
            } else {
                self.checker
            },
            ..self.with_host(node, host)
        }.traced(seq, node, KindView::Applied { index, term, command, result });
        match (client, result) {
            (Some((c, s)), Some(r)) if respond => applied.record_outcome(
                node,
                c,
                s,
                KindOfOutcome::Applied(r),
            ),
            _ => applied,
        }
    }

    /// A read is answered from the state machine.
    #[verifier::opaque]
    pub open spec fn serve_read(
        self,
        seq: u64,
        node: u32,
        client: u32,
        client_seq: u64,
        command: Seq<u8>,
        read_index: u64,
    ) -> ClusterView {
        match crate::kv::command_of(command) {
            None => self,
            Some(c) => {
                let machine = self.host(node).machine;
                let result = machine.answer(c);
                self.set_machine(node, machine.applied(c)).with_stats(
                    RunStats {
                        reads_served: self.stats.reads_served.saturating_add(1),
                        ..self.stats
                    },
                ).traced(seq, node, KindView::ReadServed { read_index, result }).record_outcome(
                    node,
                    client,
                    client_seq,
                    KindOfOutcome::Applied(result),
                )
            },
        }
    }

    /// The state machine is replaced by a leader's snapshot.
    #[verifier::opaque]
    pub open spec fn install(self, seq: u64, node: u32, snapshot: SnapshotView) -> ClusterView {
        let through = snapshot.last_included.index;
        let replaced = self.set_machine(
            node,
            machine_of(snapshot, self.host(node).machine),
        ).with_stats(
            RunStats {
                snapshots_installed: self.stats.snapshots_installed.saturating_add(1),
                ..self.stats
            },
        ).marked(MomentView::SnapshotInstalled { node, through });
        ClusterView {
            checker: if self.cfg.check_invariants {
                replaced.checker.note_snapshot_installed(node, through)
            } else {
                replaced.checker
            },
            ..replaced
        }.traced(
            seq,
            node,
            KindView::SnapshotInstalled { through, bytes: snapshot.data.len() as usize },
        )
    }

    /// A message is handed to the network.
    #[verifier::opaque]
    pub open spec fn send(self, seq: u64, node: u32, to: u32, msg: MessageView) -> ClusterView {
        let (routed, net, net_rng) = self.net.route(self.now, (node, to), self.net_rng);
        let sent = ClusterView { net, net_rng, ..self };
        let event = EventView::Deliver { from: node, to, msg, sent_at: self.now };
        match routed {
            Routed::Once(at) => sent.schedule(at, event),
            Routed::Twice(first, second) => sent.schedule(first, event).schedule(
                second,
                event,
            ).traced(seq, node, KindView::Duplicated { to }),
            Routed::Dropped => sent.traced(seq, node, KindView::Dropped { to }),
            Routed::Partitioned => sent.traced(seq, node, KindView::Partitioned { to }),
        }
    }

    /// Entries are about to be discarded.
    #[verifier::opaque]
    pub open spec fn note_truncation(
        self,
        node: u32,
        index: u64,
        commit_before: u64,
    ) -> ClusterView {
        let held = self.host(node).disk.log.last_index();
        let lost = held.saturating_sub(index).saturating_add(1);
        let noted = self.with_stats(
            RunStats {
                log_truncations: self.stats.log_truncations.saturating_add(1),
                entries_truncated: self.stats.entries_truncated.saturating_add(lost),
                ..self.stats
            },
        ).marked(MomentView::LogTruncated { node, from: index, entries: lost });
        ClusterView {
            checker: if self.cfg.check_invariants {
                noted.checker.observe_truncation(self.now, node, index, commit_before)
            } else {
                noted.checker
            },
            ..noted
        }
    }

    /// A write reaches the disk.
    #[verifier::opaque]
    pub open spec fn persist(self, node: u32, op: PersistView, commit_before: u64) -> ClusterView {
        let noted = match op {
            PersistView::TruncateFrom(index) => self.note_truncation(node, index, commit_before),
            _ => self,
        };
        let disk = self.host(node).disk;
        if disk.takes(op) {
            noted.set_disk(node, disk.written(op))
        } else {
            noted
        }
    }

    /// One output of a node takes effect.
    #[verifier::opaque]
    pub open spec fn emit(
        self,
        seq: u64,
        node: u32,
        output: OutputView,
        commit_before: u64,
    ) -> ClusterView {
        let noted = self.traced(seq, node, KindView::Out(output));
        match output {
            OutputView::Persist(op) => noted.persist(node, op, commit_before),
            OutputView::Send { to, msg } => noted.send(seq, node, to, msg),
            OutputView::Apply { index, term, payload, client, respond } => noted.apply_entry(
                seq,
                node,
                index,
                term,
                payload,
                client,
                respond,
            ),
            OutputView::ServeRead { client, seq: client_seq, command, read_index } => noted.serve_read(
                seq,
                node,
                client,
                client_seq,
                command,
                read_index,
            ),
            OutputView::RestoreSnapshot { snapshot } => noted.install(seq, node, snapshot),
            OutputView::ClientResponse { client, seq: client_seq, result } => match result {
                ClientResult::NotLeader { leader } => noted.record_outcome(
                    node,
                    client,
                    client_seq,
                    KindOfOutcome::NotLeader { leader },
                ),
                // Membership changes are not client operations.
                ClientResult::ChangeInProgress => noted,
            },
        }
    }

    /// The first `n` outputs take effect.
    pub open spec fn emit_all(
        self,
        seq: u64,
        node: u32,
        outputs: Seq<OutputView>,
        n: int,
        commit_before: u64,
    ) -> ClusterView
        decreases n,
    {
        if n <= 0 {
            self
        } else {
            self.emit_all(seq, node, outputs, n - 1, commit_before).emit(
                seq,
                node,
                outputs[n - 1],
                commit_before,
            )
        }
    }

    // --- a step of a node --------------------------------------------------

    /// What a step shows to whoever watches roles, terms and commits.
    #[verifier::opaque]
    pub open spec fn note_step(self, node: u32, was: Role) -> ClusterView {
        let n = self.host(node).node;
        let started = if n.role == Role::Candidate && was != Role::Candidate {
            self.with_stats(
                RunStats {
                    elections_started: self.stats.elections_started.saturating_add(1),
                    ..self.stats
                },
            ).marked(MomentView::ElectionStarted { node, term: n.current_term })
        } else {
            self
        };
        let elected = if n.role == Role::Leader && was != Role::Leader {
            started.with_stats(
                RunStats {
                    leaders_elected: started.stats.leaders_elected.saturating_add(1),
                    ..started.stats
                },
            ).marked(MomentView::LeaderElected { node, term: n.current_term })
        } else {
            started
        };
        ClusterView {
            stats: RunStats {
                max_term: crate::model::max_of(elected.stats.max_term, n.current_term),
                ..elected.stats
            },
            timeline: elected.timeline.note_commit(self.now, node, n.commit_index),
            ..elected
        }
    }

    /// How many outputs of this step survive before the process dies, or `None`
    /// if it completes normally; and the generator's state after the draw.
    #[verifier::opaque]
    pub open spec fn tear_point(self, outputs: Seq<OutputView>) -> (Option<u64>, u64) {
        let permille = self.cfg.disk.torn_step_permille;
        let writes = writes_from(outputs, 0);
        if permille == 0 || writes == 0 {
            (None, self.disk_rng)
        } else if !crate::rand::comes_up(self.disk_rng, permille as u64, 1000) {
            (None, crate::rand::advanced(self.disk_rng))
        } else {
            let next = crate::rand::advanced(self.disk_rng);
            (
                Some(crate::rand::in_range(next, 0, (writes as u64).saturating_add(1))),
                crate::rand::advanced(next),
            )
        }
    }

    /// The process dies in the middle of a step and is restarted later.
    #[verifier::opaque]
    pub open spec fn tear_step(self, seq: u64, node: u32) -> ClusterView {
        let d = self.cfg.disk;
        let torn = self.with_stats(
            RunStats { torn_steps: self.stats.torn_steps.saturating_add(1), ..self.stats },
        ).traced(seq, node, KindView::TornStep).crash_node(seq, node);
        let delay = crate::faults::sampled(d.restart_min, d.restart_max, torn.disk_rng);
        ClusterView {
            disk_rng: crate::faults::after_sample(d.restart_min, d.restart_max, torn.disk_rng),
            ..torn
        }.schedule(
            self.now.saturating_add(crate::model::max_of(delay, 1)),
            EventView::Fault { fault: FaultView::Restart { node } },
        )
    }

    /// The violations from `from` on are mirrored into the timeline.
    pub open spec fn mirror(self, from: int, to: int) -> ClusterView
        decreases to - from,
    {
        if to <= from {
            self
        } else {
            let before = self.mirror(from, to - 1);
            let v = self.checker.violations[to - 1];
            ClusterView {
                timeline: before.timeline.push(
                    v.tick,
                    MomentView::Violation { property: v.property.name_spec(), detail: v.detail },
                ),
                ..before
            }
        }
    }

    /// The checkers look at the node that stepped.
    #[verifier::opaque]
    pub open spec fn observe(self, node: u32, dirty: Option<u64>) -> ClusterView {
        if self.cfg.check_invariants {
            let seen = ClusterView {
                checker: self.checker.observe_node(self.now, self.host(node).node, dirty),
                ..self
            };
            seen.mirror(
                self.checker.violations.len() as int,
                seen.checker.violations.len() as int,
            )
        } else {
            self
        }
    }

    /// The index a node's snapshot covers.
    pub open spec fn covered(self, node: u32) -> u64 {
        match self.host(node).node.snapshot {
            Some(s) => s.last_included.index,
            None => 0,
        }
    }

    /// A compaction is scheduled once enough was applied since the last
    /// snapshot.
    #[verifier::opaque]
    pub open spec fn consider_compaction(self, node: u32) -> ClusterView {
        let applied = self.host(node).node.last_applied;
        match self.cfg.snapshot_every {
            Some(every) if !self.host(node).compacting && applied != 0 && applied >= self.covered(
                node,
            ) + every => self.set_compacting(node, true).schedule(
                self.now.saturating_add(1),
                EventView::Compact { node },
            ),
            _ => self,
        }
    }

    /// The node takes this input now.
    pub open spec fn takes(self, node: u32, input: InputView) -> bool {
        self.host(node).node.accepts(input, self.local_time(node, self.now))
    }

    /// What the node asks for on this input.
    pub open spec fn outputs(self, node: u32, input: InputView) -> Seq<OutputView> {
        if self.takes(node, input) {
            self.host(node).node.step_outputs(input, self.local_time(node, self.now))
        } else {
            Seq::empty()
        }
    }

    pub open spec fn stepped(self, node: u32, input: InputView) -> ClusterView {
        if self.takes(node, input) {
            self.with_host(
                node,
                HostView {
                    node: self.host(node).node.stepped(input, self.local_time(node, self.now)),
                    ..self.host(node)
                },
            )
        } else {
            self
        }
    }

    /// An input reaches a node, and what the node asks for is done: the writes
    /// first, then the messages, then the rest; or, where the step is torn, only
    /// some of the writes.
    #[verifier::opaque]
    pub open spec fn deliver(self, seq: u64, node: u32, input: InputView) -> ClusterView {
        let was = self.host(node).node;
        let outputs = self.outputs(node, input);
        let noted = self.traced(seq, node, KindView::In(input)).stepped(node, input).note_step(
            node,
            was.role,
        );
        let (tear, disk_rng) = noted.tear_point(outputs);
        let drawn = ClusterView { disk_rng, ..noted };
        match tear {
            Some(t) if t < outputs.len() => drawn.emit_all(
                seq,
                node,
                outputs,
                t as int,
                was.commit_index,
            ).tear_step(seq, node),
            _ => drawn.emit_all(
                seq,
                node,
                outputs,
                outputs.len() as int,
                was.commit_index,
            ).observe(node, dirty_in(outputs, outputs.len() as int)).consider_compaction(
                node,
            ).rearm_timer(node),
        }
    }

    /// A node's state machine is captured as of what it applied, and handed to
    /// the node so that it can drop the log prefix.
    #[verifier::opaque]
    pub open spec fn compact_node(self, seq: u64, node: u32) -> ClusterView {
        if !self.has(node) {
            self
        } else {
            let idle = self.set_compacting(node, false);
            let n = idle.host(node).node;
            let applied = n.last_applied;
            if !idle.is_available(node) || applied == 0 || applied <= idle.covered(node) {
                idle
            } else {
                match n.log.term_at(applied) {
                    None => idle,
                    Some(term) => idle.with_stats(
                        RunStats {
                            snapshots_taken: idle.stats.snapshots_taken.saturating_add(1),
                            ..idle.stats
                        },
                    ).marked(MomentView::SnapshotTaken { node, through: applied }).deliver(
                        seq,
                        node,
                        InputView::Compact(
                            SnapshotView {
                                last_included: LogId { index: applied, term },
                                config: n.cluster,
                                data: idle.host(node).machine.json().bytes(),
                            },
                        ),
                    ),
                }
            }
        }
    }

    /// The deliberate stale-read bug: a leader answers a read on its own.
    pub open spec fn stale_read(self, node: u32, req: RequestView) -> Option<CommandView> {
        match crate::kv::command_of(req.command) {
            Some(c) if self.cfg.stale_reads && self.host(node).node.role == Role::Leader
                && c.is_read_only() => Some(c),
            _ => None,
        }
    }

    #[verifier::opaque]
    pub open spec fn serve_stale_read(
        self,
        seq: u64,
        node: u32,
        req: RequestView,
        c: CommandView,
    ) -> ClusterView {
        let machine = self.host(node).machine;
        let result = machine.answer(c);
        self.set_machine(node, machine.applied(c)).traced(
            seq,
            node,
            KindView::Applied {
                index: 0,
                term: self.host(node).node.current_term,
                command: Some(c),
                result: Some(result),
            },
        ).record_outcome(node, req.client, req.seq, KindOfOutcome::Applied(result))
    }

    // --- events ------------------------------------------------------------

    #[verifier::opaque]
    pub open spec fn on_timer(self, seq: u64, node: u32) -> ClusterView {
        if !self.has(node) {
            self
        } else {
            let cleared = if self.host(node).timer_at == Some(self.now) {
                self.set_timer(node, None)
            } else {
                self
            };
            let woken = match cleared.host(node).status {
                NodeStatus::Paused { until } if self.now >= until => cleared.set_status(
                    node,
                    NodeStatus::Running,
                ),
                _ => cleared,
            };
            if woken.is_available(node) {
                woken.deliver(seq, node, InputView::Tick)
            } else {
                woken
            }
        }
    }

    #[verifier::opaque]
    pub open spec fn on_delivery(
        self,
        seq: u64,
        from: u32,
        to: u32,
        msg: MessageView,
        sent_at: u64,
    ) -> ClusterView {
        if !self.has(to) {
            self
        } else {
            match self.host(to).status {
                NodeStatus::Running => self.deliver(seq, to, InputView::Message { from, msg }),
                // A crashed node is not there to receive anything.
                NodeStatus::Crashed => self.traced(seq, to, KindView::LostToCrash { from }),
                // A frozen node's messages wait. They were sent when they were.
                NodeStatus::Paused { until } => self.with_stats(
                    RunStats {
                        messages_deferred: self.stats.messages_deferred.saturating_add(1),
                        ..self.stats
                    },
                ).schedule(
                    crate::model::max_of(until, self.now.saturating_add(1)),
                    EventView::Deliver { from, to, msg, sent_at },
                ),
            }
        }
    }

    #[verifier::opaque]
    pub open spec fn on_client(self, seq: u64, node: u32, req: RequestView) -> ClusterView {
        if !self.is_available(node) {
            self
        } else {
            match self.stale_read(node, req) {
                Some(c) => self.serve_stale_read(seq, node, req, c),
                None => self.deliver(seq, node, InputView::ClientRequest(req)),
            }
        }
    }

    #[verifier::opaque]
    pub open spec fn on_event(self, seq: u64, event: EventView) -> ClusterView {
        match event {
            EventView::Timer { node } => self.on_timer(seq, node),
            EventView::Deliver { from, to, msg, sent_at } => self.on_delivery(
                seq,
                from,
                to,
                msg,
                sent_at,
            ),
            EventView::Client { node, req } => self.on_client(seq, node, req),
            EventView::Compact { node } => self.compact_node(seq, node),
            EventView::Fault { fault } => self.apply_fault(seq, fault),
        }
    }

    /// The cluster after its next event, if there is one.
    #[verifier::opaque]
    pub open spec fn step(self) -> ClusterView {
        if self.queue.slots.len() == 0 {
            self
        } else {
            let next = self.queue.slots[0];
            ClusterView {
                queue: self.queue.rest(),
                now: next.tick,
                events_processed: self.events_processed.saturating_add(1),
                ..self
            }.on_event(next.seq, next.event)
        }
    }

    /// The cluster after `n` events.
    pub open spec fn after(self, n: nat) -> ClusterView
        decreases n,
    {
        if n == 0 {
            self
        } else {
            self.after((n - 1) as nat).step()
        }
    }

    /// There is an event to process by `deadline`, and a number left to give it.
    pub open spec fn busy_until(self, deadline: u64) -> bool {
        &&& self.queue.next_tick() matches Some(t) && t <= deadline
        &&& self.events_processed < u64::MAX
    }

    /// Exactly the next `n` events happen by `deadline`.
    pub open spec fn runs_for(self, deadline: u64, n: nat) -> bool {
        &&& forall|k: nat| k < n ==> (#[trigger] self.after(k)).busy_until(deadline)
        &&& !self.after(n).busy_until(deadline)
    }

    /// How many events happen by `deadline`.
    pub open spec fn events_until(self, deadline: u64) -> nat {
        choose|n: nat| self.runs_for(deadline, n)
    }

    /// The cluster once the clock reaches `deadline`.
    pub open spec fn ran_until(self, deadline: u64) -> ClusterView {
        self.after(self.events_until(deadline)).at_least(deadline)
    }

    /// The clock moved on to `deadline`.
    pub open spec fn at_least(self, deadline: u64) -> ClusterView {
        ClusterView { now: crate::model::max_of(self.now, deadline), ..self }
    }

    // --- who leads ---------------------------------------------------------

    pub open spec fn leads(self, i: int) -> bool {
        self.hosts[i].node.role == Role::Leader && !(self.hosts[i].status is Crashed)
    }

    /// The leader of the highest term among the first `n` nodes.
    pub open spec fn leader_among(self, n: int) -> Option<u32>
        decreases n,
    {
        if n <= 0 {
            None
        } else {
            let before = self.leader_among(n - 1);
            if !self.leads(n - 1) {
                before
            } else {
                match before {
                    Some(other) if self.hosts[other as int].node.current_term
                        > self.hosts[n - 1].node.current_term => before,
                    _ => Some((n - 1) as u32),
                }
            }
        }
    }

    pub open spec fn leader(self) -> Option<u32> {
        self.leader_among(self.hosts.len() as int)
    }

    pub open spec fn leaders_among(self, n: int) -> Seq<u32>
        decreases n,
    {
        if n <= 0 {
            Seq::empty()
        } else if self.leads(n - 1) {
            self.leaders_among(n - 1).push((n - 1) as u32)
        } else {
            self.leaders_among(n - 1)
        }
    }

    /// The wait for a leader goes on.
    pub open spec fn awaits(self, deadline: u64) -> bool {
        self.now < deadline && self.events_processed < u64::MAX && self.queue.slots.len() > 0
    }

    /// Exactly the next `n` events happen while waiting for a leader.
    pub open spec fn waits_for_leader(self, deadline: u64, n: nat) -> bool {
        &&& forall|k: nat| k < n ==> (#[trigger] self.after(k)).awaits(deadline)
        &&& forall|k: nat| 0 < k < n ==> (#[trigger] self.after(k)).leader() is None
        &&& self.after(n).awaits(deadline) ==> n > 0 && self.after(n).leader() is Some
    }

    /// How many events happen while waiting for a leader.
    pub open spec fn events_to_leader(self, deadline: u64) -> nat {
        choose|n: nat| self.waits_for_leader(deadline, n)
    }

    /// The cluster once it has a leader, or has waited long enough.
    pub open spec fn ran_to_leader(self, deadline: u64) -> ClusterView {
        self.after(self.events_to_leader(deadline))
    }

    // --- clients and operators ---------------------------------------------

    #[verifier::opaque]
    pub open spec fn submit(
        self,
        node: u32,
        client: u32,
        seq: u64,
        cmd: CommandView,
    ) -> ClusterView {
        ClusterView {
            history: self.history.invoke(client, seq, cmd, self.now),
            ..self
        }.schedule(
            self.now,
            EventView::Client {
                node,
                req: RequestView {
                    client,
                    seq,
                    command: cmd.json().bytes(),
                    read_only: cmd.is_read_only(),
                },
            },
        )
    }

    /// The leader is asked to change the membership.
    #[verifier::opaque]
    pub open spec fn change_membership(self, leader: u32, voters: Set<u32>) -> ClusterView {
        let seq = self.events_processed;
        let listed = crate::order::in_order(voters);
        self.with_stats(
            RunStats {
                membership_changes: self.stats.membership_changes.saturating_add(1),
                ..self.stats
            },
        ).marked(MomentView::MembershipChanged { voters: listed }).traced(
            seq,
            leader,
            KindView::MembershipChange { voters: listed },
        ).deliver(seq, leader, InputView::ChangeMembership(voters))
    }

    /// With the fault schedule stopped and nothing of it left to come.
    pub open spec fn calmed(self) -> ClusterView {
        ClusterView {
            cfg: SimView {
                faults: FaultConfig { enabled: false, ..self.cfg.faults },
                ..self.cfg
            },
            queue: self.queue.without_faults(),
            ..self
        }
    }

    /// Calmed, repaired, and left to run for `ticks`.
    pub open spec fn settled(self, ticks: u64) -> ClusterView {
        let healed = self.calmed().inject(FaultView::Heal);
        healed.ran_until(healed.now.saturating_add(ticks))
    }

    pub open spec fn abandon(self, client: u32, seq: u64) -> ClusterView {
        ClusterView { history: self.history.abandon(client, seq, self.now), ..self }
    }

    // --- the beginning -----------------------------------------------------

    pub open spec fn idle(cfg: SimView) -> ClusterView {
        ClusterView {
            cfg,
            now: 0,
            queue: QueueView::empty(),
            hosts: Seq::new(cfg.nodes as nat, |i: int| first_host(cfg, i)),
            net: NetView::fresh(cfg.network),
            net_rng: crate::rand::stream_state(cfg.seed, NETWORK_STREAM),
            fault_rng: crate::rand::stream_state(cfg.seed, FAULTS_STREAM),
            disk_rng: crate::rand::stream_state(cfg.seed, DISK_STREAM),
            disturbed: false,
            faults_injected: Seq::empty(),
            trace: TraceView { records: Seq::empty(), enabled: cfg.record_trace },
            checker: CheckerView::empty(),
            history: HistoryView::empty(),
            timeline: TimelineView::empty(),
            stats: RunStats::zero(),
            outcomes: Seq::empty(),
            answered: Set::empty(),
            events_processed: 0,
        }
    }

    /// The first `n` nodes have their first timer.
    pub open spec fn primed(self, n: nat) -> ClusterView
        decreases n,
    {
        if n == 0 {
            self
        } else {
            let before = self.primed((n - 1) as nat);
            let node = (n - 1) as u32;
            let at = crate::model::max_of(before.host(node).node.next_deadline(), 1);
            before.schedule(at, EventView::Timer { node }).set_timer(node, Some(at))
        }
    }

    /// The first `n` faults of a script are scheduled.
    pub open spec fn scripted(self, script: Seq<(u64, FaultView)>, n: int) -> ClusterView
        decreases n,
    {
        if n <= 0 {
            self
        } else {
            self.scripted(script, n - 1).schedule(
                crate::model::max_of(script[n - 1].0, 1),
                EventView::Fault { fault: script[n - 1].1 },
            )
        }
    }

    /// A cluster at the start of its run.
    pub open spec fn start(cfg: SimView) -> ClusterView {
        let up = ClusterView::idle(cfg).primed(cfg.nodes as nat);
        match cfg.scripted_faults {
            Some(script) => up.scripted(script, script.len() as int),
            None => if cfg.faults.enabled {
                up.schedule_next_fault()
            } else {
                up
            },
        }
    }
}

/// These violations, one below the other.
pub open spec fn reports(head: Seq<char>, violations: Seq<ViolationView>, n: int) -> Seq<char>
    decreases n,
{
    if n <= 0 {
        head
    } else if n == 1 {
        head + violations[0].report()
    } else {
        reports(head, violations, n - 1) + "\n"@ + violations[n - 1].report()
    }
}

impl ClusterView {
    /// Everything that is broken, in words.
    pub open spec fn violation_report(self) -> Seq<char> {
        let n = self.checker.violations.len();
        reports(
            Seq::<char>::empty() + crate::text::decimal(n) + " safety violation(s) with seed "@
                + crate::text::decimal(self.cfg.seed as nat) + ":\n"@,
            self.checker.violations,
            n as int,
        )
    }
}

/// The state machine in a snapshot, or another one where the snapshot holds
/// none.
pub open spec fn machine_of(snapshot: SnapshotView, otherwise: StoreView) -> StoreView {
    match crate::kv::store_of(snapshot.data) {
        Some(store) => store,
        None => otherwise,
    }
}

/// The lowest log index that the first `n` of these outputs touch.
pub open spec fn dirty_in(outputs: Seq<OutputView>, n: int) -> Option<u64>
    decreases n,
{
    if n <= 0 {
        None
    } else {
        let before = dirty_in(outputs, n - 1);
        match outputs[n - 1] {
            OutputView::Persist(PersistView::Append(entries)) => if entries.len() > 0 {
                lowest(before, entries[0].index)
            } else {
                before
            },
            OutputView::Persist(PersistView::TruncateFrom(index)) => lowest(before, index),
            _ => before,
        }
    }
}

/// A node as it first starts.
pub open spec fn first_host(cfg: SimView, i: int) -> HostView {
    HostView {
        node: NodeView::fresh(i as u32, cfg.initial_config(), cfg.raft, cfg.seed, 0),
        disk: DiskView {
            log: crate::log::LogView {
                zero_anchor: cfg.raft.bugs.compaction_anchor_at_zero,
                ..crate::log::LogView::empty()
            },
            ..DiskView::empty()
        },
        machine: StoreView::empty(),
        applied: Seq::empty(),
        status: NodeStatus::Running,
        clock_rate: cfg.clock_rate(i as nat),
        restarts: 0,
        timer_at: None,
        compacting: false,
    }
}

/// A run is a function of its configuration: there is only one number of events
/// that happen by a deadline, or until there is a leader.
pub proof fn law_runs_are_determined(c: ClusterView, deadline: u64, n: nat, m: nat)
    ensures
        c.runs_for(deadline, n) && c.runs_for(deadline, m) ==> n == m,
        c.waits_for_leader(deadline, n) && c.waits_for_leader(deadline, m) ==> n == m,
{
    if c.runs_for(deadline, n) && c.runs_for(deadline, m) {
        if n < m {
            assert(c.after(n).busy_until(deadline));
        } else if m < n {
            assert(c.after(m).busy_until(deadline));
        }
    }
    if c.waits_for_leader(deadline, n) && c.waits_for_leader(deadline, m) {
        if n < m {
            assert(c.after(n).awaits(deadline));
            assert(c.after(n).leader() is Some);
        } else if m < n {
            assert(c.after(m).awaits(deadline));
            assert(c.after(m).leader() is Some);
        }
    }
}

} // verus!
