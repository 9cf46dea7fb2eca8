//! What happens to a cluster, one happening at a time: who is struck, what is
//! counted, what is scheduled next, and that nothing else changes.
use crate::cluster::{NodeStatus, RunStats};
use crate::cluster_model::{ClusterView, HostView, KindOfOutcome};
use crate::event::EventView;
use crate::faults::FaultView;
use crate::message::MessageView;
use crate::network::Routed;
use crate::Role;
use vstd::prelude::*;

verus! {

/// Every counter but those that are named stays as it was.
pub open spec fn other_counters(
    a: RunStats,
    b: RunStats,
    crashes: bool,
    restarts: bool,
    pauses: bool,
) -> bool {
    RunStats {
        crashes: if crashes {
            a.crashes
        } else {
            b.crashes
        },
        restarts: if restarts {
            a.restarts
        } else {
            b.restarts
        },
        pauses: if pauses {
            a.pauses
        } else {
            b.pauses
        },
        ..b
    } == a
}

/// All nodes but this one are as they were.
pub open spec fn others_untouched(c: ClusterView, d: ClusterView, node: u32) -> bool {
    &&& d.hosts.len() == c.hosts.len()
    &&& forall|i: int|
        0 <= i < c.hosts.len() && i != node ==> #[trigger] d.hosts[i] == c.hosts[i]
}

/// A crash strikes a node that is running and no other: it is down, without a
/// timer, and its memory is of no use; disk, clock and all the other nodes are as
/// they were, and so are the links. It is counted once.
pub proof fn law_crashes(c: ClusterView, seq: u64, node: u32)
    requires
        c.has(node),
    ensures
        ({
            let d = c.crash_node(seq, node);
            &&& !(c.host(node).status is Running) ==> d == c
            &&& c.host(node).status is Running ==> {
                &&& d.host(node).status is Crashed
                &&& d.host(node).timer_at is None
                &&& d.host(node).disk == c.host(node).disk
                &&& d.host(node).clock_rate == c.host(node).clock_rate
                &&& crate::disturbance::one_more(c.stats.crashes, d.stats.crashes)
                &&& other_counters(c.stats, d.stats, true, false, false)
                &&& others_untouched(c, d, node)
                &&& d.queue == c.queue && d.net == c.net && d.history == c.history && d.checker
                    == c.checker && d.now == c.now
            }
        }),
{
    reveal(ClusterView::crash_node);
}

/// A pause freezes a node that is running, for at least a tick, and nothing else:
/// it keeps what it knows, and it has a timer to wake it up.
pub proof fn law_pauses(c: ClusterView, node: u32, ticks: u64)
    requires
        c.has(node),
        c.now + ticks < u64::MAX,
    ensures
        ({
            let d = c.pause_node(node, ticks);
            &&& !(c.host(node).status is Running) ==> d == c
            &&& c.host(node).status is Running ==> {
                let until = if ticks == 0 {
                    c.now + 1
                } else {
                    c.now + ticks
                };
                &&& d.host(node).status matches NodeStatus::Paused { until: u } && u == until
                &&& d.host(node).timer_at == Some(until as u64)
                &&& d.host(node).node == c.host(node).node && d.host(node).disk == c.host(
                    node,
                ).disk && d.host(node).machine == c.host(node).machine
                &&& crate::disturbance::one_more(c.stats.pauses, d.stats.pauses)
                &&& other_counters(c.stats, d.stats, false, false, true)
                &&& others_untouched(c, d, node)
                &&& d.net == c.net && d.history == c.history && d.checker == c.checker && d.now
                    == c.now
            }
        }),
{
    reveal(ClusterView::pause_node);
    reveal(ClusterView::rearm_timer);
}

/// A restart brings back a node that is down, and only such a one: running, with
/// what its disk kept, a timer, and its restart counted.
pub proof fn law_restarts(c: ClusterView, seq: u64, node: u32)
    requires
        c.has(node),
    ensures
        ({
            let d = c.restart_node(seq, node);
            let comes = c.host(node).status is Crashed && c.can_restart(node);
            &&& !comes ==> d == c
            &&& comes ==> {
                let disk = c.host(node).disk.recovered(
                    !c.cfg.raft.bugs.skip_snapshot_reconcile,
                );
                &&& d.host(node).status is Running
                &&& d.host(node).timer_at is Some
                &&& d.host(node).disk == disk
                &&& d.host(node).node.current_term == disk.current_term
                &&& d.host(node).node.voted_for == disk.voted_for
                &&& disk.snapshot is None ==> d.host(node).node.log == disk.log
                &&& disk.snapshot matches Some(s) ==> !c.cfg.raft.bugs.skip_snapshot_reconcile
                    ==> d.host(node).node.log == disk.log.reconcile(s.last_included)
                &&& d.host(node).node.snapshot == disk.snapshot
                &&& d.host(node).node.role == Role::Follower
                &&& d.host(node).node.id == node
                &&& d.host(node).clock_rate == c.host(node).clock_rate
                &&& crate::disturbance::one_more(c.host(node).restarts, d.host(node).restarts)
                &&& disk.snapshot is None ==> d.host(node).machine.data == Map::<
                    Seq<char>,
                    Seq<char>,
                >::empty()
                &&& crate::disturbance::one_more(c.stats.restarts, d.stats.restarts)
                &&& other_counters(c.stats, d.stats, false, true, false)
                &&& others_untouched(c, d, node)
                &&& crate::disturbance::one_more(c.checker.restarts, d.checker.restarts)
                &&& d.net == c.net && d.history == c.history && d.now == c.now
            }
        }),
{
    let d = c.restart_node(seq, node);
    if c.host(node).status is Crashed && c.can_restart(node) {
        let host = c.rebuilt(node);
        lemma_rebuilt(c, node);
        lemma_restarted(c, seq, node);
        assert(d.host(node) == HostView { timer_at: d.host(node).timer_at, ..host });
    } else {
        reveal(ClusterView::restart_node);
    }
}

proof fn lemma_rebuilt(c: ClusterView, node: u32)
    ensures
        ({
            let host = c.rebuilt(node);
            let disk = c.host(node).disk.recovered(!c.cfg.raft.bugs.skip_snapshot_reconcile);
            &&& host.status is Running
            &&& host.disk == disk
            &&& host.node.current_term == disk.current_term
            &&& host.node.voted_for == disk.voted_for
            &&& disk.snapshot is None ==> host.node.log == disk.log
            &&& disk.snapshot matches Some(s) ==> !c.cfg.raft.bugs.skip_snapshot_reconcile
                ==> host.node.log == disk.log.reconcile(s.last_included)
            &&& host.node.snapshot == disk.snapshot
            &&& host.node.role == Role::Follower
            &&& host.node.id == node
            &&& host.clock_rate == c.host(node).clock_rate
            &&& crate::disturbance::one_more(c.host(node).restarts, host.restarts)
            &&& disk.snapshot is None ==> host.machine.data == Map::<
                Seq<char>,
                Seq<char>,
            >::empty()
        }),
{
}

proof fn lemma_restarted(c: ClusterView, seq: u64, node: u32)
    requires
        c.has(node),
        c.host(node).status is Crashed,
        c.can_restart(node),
        c.rebuilt(node).status is Running,
    ensures
        ({
            let d = c.restart_node(seq, node);
            &&& d.host(node) == HostView { timer_at: d.host(node).timer_at, ..c.rebuilt(node) }
            &&& d.host(node).timer_at is Some
            &&& crate::disturbance::one_more(c.stats.restarts, d.stats.restarts)
            &&& other_counters(c.stats, d.stats, false, true, false)
            &&& others_untouched(c, d, node)
            &&& crate::disturbance::one_more(c.checker.restarts, d.checker.restarts)
            &&& d.net == c.net && d.history == c.history && d.now == c.now && d.cfg == c.cfg
        }),
{
    reveal(ClusterView::restart_node);
    reveal(ClusterView::rearm_timer);
}

/// Every node up to here is up again.
spec fn all_up(c: ClusterView, n: nat) -> bool {
    forall|i: int| 0 <= i < n ==> (#[trigger] c.hosts[i]).status is Running
}

/// Nothing stands in the way of any node's return.
pub open spec fn all_can_return(c: ClusterView) -> bool {
    forall|i: int|
        0 <= i < c.hosts.len() && (#[trigger] c.hosts[i]).status is Crashed ==> c.can_restart(
            i as u32,
        )
}

proof fn lemma_repaired(c: ClusterView, seq: u64, n: nat)
    requires
        n <= c.hosts.len() <= u32::MAX,
        all_can_return(c),
    ensures
        ({
            let d = c.repair_all(seq, n);
            &&& d.hosts.len() == c.hosts.len()
            &&& d.now == c.now && d.cfg == c.cfg && d.net == c.net
            &&& all_up(d, n)
            &&& forall|i: int| n <= i < c.hosts.len() ==> #[trigger] d.hosts[i] == c.hosts[i]
        }),
    decreases n,
{
    if n > 0 {
        lemma_repaired(c, seq, (n - 1) as nat);
        let b = c.repair_all(seq, (n - 1) as nat);
        let node = (n - 1) as u32;
        let d = b.repair(seq, node);
        reveal(ClusterView::repair);
        assert(b.hosts[node as int] == c.hosts[node as int]);
        if b.host(node).status is Crashed {
            assert(c.can_restart(node));
            assert(b.can_restart(node));
            law_restarts(b, seq, node);
            assert(d.cfg == b.cfg) by {
                reveal(ClusterView::restart_node);
                reveal(ClusterView::rearm_timer);
            }
        } else {
            reveal(ClusterView::rearm_timer);
        }
        assert(others_untouched(b, d, node));
        assert forall|i: int| 0 <= i < n implies (#[trigger] d.hosts[i]).status is Running by {
            if i < n - 1 {
                assert(d.hosts[i] == b.hosts[i]);
            }
        }
        assert forall|i: int| n <= i < c.hosts.len() implies #[trigger] d.hosts[i]
            == c.hosts[i] by {
            assert(d.hosts[i] == b.hosts[i]);
        }
    }
}

/// Healing heals everything: every link is up again, and every node runs, whether
/// it was down or asleep.
pub proof fn law_healing_heals_everything(c: ClusterView, seq: u64, x: u32, y: u32)
    requires
        c.hosts.len() <= u32::MAX,
        all_can_return(c),
    ensures
        ({
            let d = c.disturb(seq, FaultView::Heal);
            &&& forall|i: int| 0 <= i < c.hosts.len() ==> (#[trigger] d.hosts[i]).status is Running
            &&& crate::faults::can_reach(d.net.blocked, x, y)
            &&& d.hosts.len() == c.hosts.len()
        }),
{
    reveal(ClusterView::disturb);
    reveal(ClusterView::apply_node_fault);
    let b = ClusterView {
        net: crate::network::NetView {
            blocked: crate::faults::links_after(
                c.net.blocked,
                FaultView::Heal,
                crate::cluster_model::ids(c.hosts.len()),
            ),
            ..c.net
        },
        ..c
    };
    assert forall|i: int|
        0 <= i < b.hosts.len() && (#[trigger] b.hosts[i]).status is Crashed implies b.can_restart(
        i as u32,
    ) by {
        assert(c.can_restart(i as u32));
    }
    lemma_repaired(b, seq, b.hosts.len());
    let d = c.disturb(seq, FaultView::Heal);
    assert forall|i: int| 0 <= i < c.hosts.len() implies (#[trigger] d.hosts[i]).status
        is Running by {
        assert(d.hosts[i] == b.repair_all(seq, b.hosts.len()).hosts[i]);
    }
}

/// Every fault goes on record, as it is and when it was, and is counted; faults
/// of the network change the links and no node, and the others no link.
pub proof fn law_faults_go_on_record(c: ClusterView, seq: u64, fault: FaultView)
    ensures
        ({
            let d = c.disturb(seq, fault);
            &&& d.faults_injected.len() == c.faults_injected.len() + 1
            &&& d.faults_injected.last() == (d.now, fault)
            &&& !(fault is Heal) ==> d.faults_injected.drop_last() == c.faults_injected && d.now
                == c.now && crate::disturbance::one_more(
                c.stats.faults_injected,
                d.stats.faults_injected,
            )
            &&& !(fault is Heal) && fault.is_network_fault() ==> d.hosts == c.hosts
            &&& !fault.is_network_fault() ==> d.net.blocked == c.net.blocked
            &&& d.net.blocked == crate::faults::links_after(
                c.net.blocked,
                fault,
                Seq::new(c.hosts.len(), |i: int| i as u32),
            )
            &&& d.net.stats == c.net.stats && d.history == c.history
        }),
{
    reveal(ClusterView::disturb);
    lemma_node_fault_frame(
        ClusterView {
            net: crate::network::NetView {
                blocked: crate::faults::links_after(
                    c.net.blocked,
                    fault,
                    crate::cluster_model::ids(c.hosts.len()),
                ),
                ..c.net
            },
            ..c
        },
        seq,
        fault,
    );
    let d = c.disturb(seq, fault);
    assert(d.faults_injected.drop_last() =~= c.faults_injected);
    assert(crate::cluster_model::ids(c.hosts.len()) =~= Seq::new(
        c.hosts.len(),
        |i: int| i as u32,
    ));
}

proof fn lemma_node_fault_frame(c: ClusterView, seq: u64, fault: FaultView)
    ensures
        ({
            let d = c.apply_node_fault(seq, fault);
            &&& d.net == c.net && d.history == c.history && d.faults_injected == c.faults_injected
            &&& d.now == c.now
            &&& !(fault is Heal) ==> d.stats.faults_injected == c.stats.faults_injected
            &&& !(fault is Heal) && fault.is_network_fault() ==> d == c
        }),
{
    reveal(ClusterView::apply_node_fault);
    match fault {
        FaultView::Crash { node } => {
            reveal(ClusterView::crash_node);
        },
        FaultView::Restart { node } => {
            reveal(ClusterView::restart_node);
            reveal(ClusterView::rearm_timer);
        },
        FaultView::Pause { node, ticks } => {
            reveal(ClusterView::pause_node);
            reveal(ClusterView::rearm_timer);
        },
        FaultView::Heal => lemma_repair_frame(c, seq, c.hosts.len()),
        _ => {},
    }
}

proof fn lemma_repair_frame(c: ClusterView, seq: u64, n: nat)
    ensures
        ({
            let d = c.repair_all(seq, n);
            &&& d.net == c.net && d.history == c.history && d.faults_injected == c.faults_injected
            &&& d.now == c.now
        }),
    decreases n,
{
    if n > 0 {
        lemma_repair_frame(c, seq, (n - 1) as nat);
        reveal(ClusterView::repair);
        reveal(ClusterView::restart_node);
        reveal(ClusterView::rearm_timer);
    }
}

/// Once a fault of the schedule has struck, what comes next is scheduled: after a
/// disturbance its end, after an outage's length; after a repair another
/// disturbance, after a healthy stretch. A script is left to itself.
pub proof fn law_schedules_go_on(c: ClusterView, seq: u64, fault: FaultView)
    ensures
        ({
            let struck = c.disturb(seq, fault);
            let d = c.apply_fault(seq, fault);
            let goes_on = c.cfg.faults.enabled && c.cfg.scripted_faults is None;
            &&& d.disturbed <==> !(fault is Heal)
            &&& !goes_on ==> d.queue == struck.queue && d.fault_rng == struck.fault_rng
            &&& goes_on && !(fault is Heal) ==> {
                let f = struck.cfg.faults;
                let span = crate::faults::sampled(f.outage_min, f.outage_max, struck.fault_rng);
                d.queue == struck.queue.push(
                    struck.now.saturating_add(
                        if span >= 1 {
                            span
                        } else {
                            1
                        },
                    ),
                    EventView::Fault { fault: FaultView::Heal },
                )
            }
            &&& goes_on && fault is Heal ==> {
                let f = struck.cfg.faults;
                let span = crate::faults::sampled(f.healthy_min, f.healthy_max, struck.fault_rng);
                let drawn = f.drawn(
                    crate::cluster_model::ids(struck.hosts.len()),
                    crate::faults::after_sample(f.healthy_min, f.healthy_max, struck.fault_rng),
                );
                match drawn.fault {
                    None => d.queue == struck.queue,
                    Some(next) => d.queue == struck.queue.push(
                        struck.now.saturating_add(
                            if span >= 1 {
                                span
                            } else {
                                1
                            },
                        ),
                        EventView::Fault { fault: next },
                    ),
                }
            }
            &&& d.hosts == struck.hosts && d.net == struck.net && d.stats == struck.stats
        }),
{
    reveal(ClusterView::apply_fault);
    reveal(ClusterView::schedule_next_fault);
}

/// A client hears about a request once. What it hears goes on record with the
/// node, the tick and the answer, and into the history.
pub proof fn law_answers_go_on_record(
    c: ClusterView,
    node: u32,
    client: u32,
    seq: u64,
    result: KindOfOutcome,
)
    ensures
        ({
            let d = c.record_outcome(node, client, seq, result);
            let old_news = result is Applied && c.answered.contains((client, seq));
            &&& old_news ==> d == c
            &&& !old_news ==> {
                let a = d.outcomes.last();
                &&& d.outcomes.len() == c.outcomes.len() + 1
                &&& d.outcomes.drop_last() == c.outcomes
                &&& a.client == client && a.seq == seq && a.node == node && a.tick == c.now
                    && a.result == result
                &&& crate::disturbance::one_more(c.stats.client_responses, d.stats.client_responses)
                &&& RunStats { client_responses: c.stats.client_responses, ..d.stats } == c.stats
                &&& result matches KindOfOutcome::Applied(r) ==> d.history == c.history.complete(
                    client,
                    seq,
                    c.now,
                    r,
                )
                &&& result is NotLeader ==> d.history == c.history.refuse(client, seq)
            }
            &&& forall|k: (u32, u64)| #[trigger]
                d.answered.contains(k) <==> c.answered.contains(k) || (result is Applied && k == (
                client, seq))
            &&& d.hosts == c.hosts && d.queue == c.queue && d.net == c.net && d.checker
                == c.checker
        }),
{
    reveal(ClusterView::record_outcome);
    let d = c.record_outcome(node, client, seq, result);
    assert(d.outcomes.len() > c.outcomes.len() ==> d.outcomes.drop_last() =~= c.outcomes);
}

/// A message goes into the network as it is. Each copy that the network lets
/// through is scheduled to arrive when the network says, from whom and when it
/// was sent; what it does not let through is scheduled never.
pub proof fn law_messages_are_passed_on(
    c: ClusterView,
    seq: u64,
    node: u32,
    to: u32,
    msg: MessageView,
)
    ensures
        ({
            let d = c.send(seq, node, to, msg);
            let (fate, net, rng) = c.net.route(c.now, (node, to), c.net_rng);
            let mail = EventView::Deliver { from: node, to, msg, sent_at: c.now };
            &&& d.net == net && d.net_rng == rng
            &&& match fate {
                Routed::Once(at) => d.queue == c.queue.push(at, mail),
                Routed::Twice(a, b) => d.queue == c.queue.push(a, mail).push(b, mail),
                _ => d.queue == c.queue,
            }
            &&& d.hosts == c.hosts && d.stats == c.stats && d.history == c.history && d.outcomes
                == c.outcomes
        }),
{
    reveal(ClusterView::send);
}

/// A step of a node is counted for what it is: an election exactly where the node
/// has become a candidate, a leader exactly where it has become one. The highest
/// term is the highest of any step.
pub proof fn law_steps_are_counted(c: ClusterView, node: u32, was: Role)
    ensures
        ({
            let d = c.note_step(node, was);
            let n = c.host(node).node;
            let runs = n.role == Role::Candidate && was != Role::Candidate;
            let leads = n.role == Role::Leader && was != Role::Leader;
            &&& runs ==> crate::disturbance::one_more(
                c.stats.elections_started,
                d.stats.elections_started,
            )
            &&& !runs ==> d.stats.elections_started == c.stats.elections_started
            &&& leads ==> crate::disturbance::one_more(
                c.stats.leaders_elected,
                d.stats.leaders_elected,
            )
            &&& !leads ==> d.stats.leaders_elected == c.stats.leaders_elected
            &&& d.stats.max_term >= c.stats.max_term && d.stats.max_term >= n.current_term
            &&& d.stats.max_term == c.stats.max_term || d.stats.max_term == n.current_term
            &&& RunStats {
                elections_started: c.stats.elections_started,
                leaders_elected: c.stats.leaders_elected,
                max_term: c.stats.max_term,
                ..d.stats
            } == c.stats
            &&& d.hosts == c.hosts && d.queue == c.queue && d.net == c.net && d.history
                == c.history && d.checker == c.checker
        }),
{
    reveal(ClusterView::note_step);
}

/// A step is torn only where it writes and the chance of that comes up, and then
/// after any number of its writes, from none to all of them.
pub proof fn law_torn_steps_keep_some_writes(
    c: ClusterView,
    outputs: Seq<crate::model::OutputView>,
)
    requires
        outputs.len() < u64::MAX,
    ensures
        ({
            let (tear, rng) = c.tear_point(outputs);
            let writes = crate::cluster_model::writes_from(outputs, 0);
            &&& tear is Some <==> c.cfg.disk.torn_step_permille > 0 && writes > 0
                && crate::rand::comes_up(
                c.disk_rng,
                c.cfg.disk.torn_step_permille as u64,
                1000,
            )
            &&& tear matches Some(t) ==> t <= writes && t == crate::disturbance::share(
                crate::rand::advanced(c.disk_rng),
                (writes + 1) as int,
            )
            &&& writes <= outputs.len()
            &&& forall|i: int| 0 <= i < writes ==> (#[trigger] outputs[i]) is Persist
            &&& writes < outputs.len() ==> !(outputs[writes as int] is Persist)
        }),
{
    reveal(ClusterView::tear_point);
    lemma_writes(outputs, 0);
    let writes = crate::cluster_model::writes_from(outputs, 0);
    crate::rand::lemma_range_bounds(
        crate::rand::advanced(c.disk_rng),
        0,
        (writes as u64).saturating_add(1),
    );
}

proof fn lemma_writes(outputs: Seq<crate::model::OutputView>, i: int)
    requires
        0 <= i <= outputs.len(),
    ensures
        ({
            let n = crate::cluster_model::writes_from(outputs, i);
            &&& i + n <= outputs.len()
            &&& forall|k: int| i <= k < i + n ==> (#[trigger] outputs[k]) is Persist
            &&& i + n < outputs.len() ==> !(outputs[i + n] is Persist)
        }),
    decreases outputs.len() - i,
{
    if i < outputs.len() && outputs[i] is Persist {
        lemma_writes(outputs, i + 1);
    }
}

/// A torn step takes its node down for a while: it is counted, and a restart is
/// scheduled.
pub proof fn law_torn_steps_end_in_a_restart(c: ClusterView, seq: u64, node: u32)
    requires
        c.is_available(node),
    ensures
        ({
            let d = c.tear_step(seq, node);
            let span = crate::faults::sampled(
                c.cfg.disk.restart_min,
                c.cfg.disk.restart_max,
                c.disk_rng,
            );
            &&& d.host(node).status is Crashed
            &&& crate::disturbance::one_more(c.stats.torn_steps, d.stats.torn_steps)
            &&& crate::disturbance::one_more(c.stats.crashes, d.stats.crashes)
            &&& d.queue == c.queue.push(
                c.now.saturating_add(
                    if span >= 1 {
                        span
                    } else {
                        1
                    },
                ),
                EventView::Fault { fault: FaultView::Restart { node } },
            )
            &&& d.host(node).disk == c.host(node).disk
            &&& others_untouched(c, d, node)
        }),
{
    reveal(ClusterView::tear_step);
    reveal(ClusterView::crash_node);
}

/// A compaction is scheduled exactly where enough was applied since the last
/// snapshot and none is on its way.
pub proof fn law_compactions_come_in_time(c: ClusterView, node: u32)
    requires
        c.has(node),
    ensures
        ({
            let d = c.consider_compaction(node);
            let applied = c.host(node).node.last_applied;
            let since = match c.host(node).node.snapshot {
                Some(s) => s.last_included.index,
                None => 0,
            };
            let due = c.cfg.snapshot_every matches Some(every) && !c.host(node).compacting
                && applied > 0 && applied >= since + every;
            &&& !due ==> d == c
            &&& due ==> d.queue == c.queue.push(
                c.now.saturating_add(1),
                EventView::Compact { node },
            ) && d.host(node).compacting && d.host(node).node == c.host(node).node
            &&& others_untouched(c, d, node)
        }),
{
    reveal(ClusterView::consider_compaction);
}

/// The leader is one of the leaders that are not down, and none of them has a
/// higher term. There is none exactly where no such node leads.
pub proof fn law_the_leader_leads(c: ClusterView, i: int)
    requires
        c.hosts.len() <= u32::MAX,
    ensures
        c.leader() matches Some(id) ==> id < c.hosts.len() && c.hosts[id as int].node.role
            == Role::Leader && !(c.hosts[id as int].status is Crashed),
        0 <= i < c.hosts.len() && c.hosts[i].node.role == Role::Leader && !(c.hosts[i].status
            is Crashed) ==> (c.leader() matches Some(id) && c.hosts[id as int].node.current_term
            >= c.hosts[i].node.current_term && (i > id ==> c.hosts[id as int].node.current_term
            > c.hosts[i].node.current_term)),
{
    lemma_leader_among(c, c.hosts.len() as int);
    if 0 <= i < c.hosts.len() && c.hosts[i].node.role == Role::Leader && !(c.hosts[i].status
        is Crashed) {
        assert(c.leads(i));
    }
}

proof fn lemma_leader_among(c: ClusterView, n: int)
    requires
        0 <= n <= c.hosts.len() <= u32::MAX,
    ensures
        c.leader_among(n) matches Some(id) ==> id < n && c.leads(id as int),
        forall|i: int|
            0 <= i < n && #[trigger] c.leads(i) ==> (c.leader_among(n) matches Some(id)
                && c.hosts[id as int].node.current_term >= c.hosts[i].node.current_term && (i > id
                ==> c.hosts[id as int].node.current_term > c.hosts[i].node.current_term)),
    decreases n,
{
    if n > 0 {
        lemma_leader_among(c, n - 1);
    }
}

/// The leaders are all the nodes that lead and are not down, in order.
pub proof fn law_all_leaders_are_listed(c: ClusterView, n: int, x: u32)
    requires
        0 <= n <= c.hosts.len() <= u32::MAX,
    ensures
        c.leaders_among(n).contains(x) <==> x < n && c.hosts[x as int].node.role == Role::Leader
            && !(c.hosts[x as int].status is Crashed),
        forall|i: int, j: int|
            0 <= i < j < c.leaders_among(n).len() ==> (#[trigger] c.leaders_among(n)[i]) < (
            #[trigger] c.leaders_among(n)[j]),
        forall|i: int| 0 <= i < c.leaders_among(n).len() ==> (#[trigger] c.leaders_among(n)[i]) < n,
    decreases n,
{
    if n > 0 {
        law_all_leaders_are_listed(c, n - 1, x);
        let before = c.leaders_among(n - 1);
        let after = c.leaders_among(n);
        if c.leads(n - 1) {
            assert(after[before.len() as int] == n - 1);
            if before.contains(x) {
                let i = choose|i: int| 0 <= i < before.len() && before[i] == x;
                assert(after[i] == x);
            }
            if after.contains(x) && x != n - 1 {
                let i = choose|i: int| 0 <= i < after.len() && after[i] == x;
                assert(before[i] == x);
            }
        }
    }
}

/// A clock that is not off keeps the simulator's time. Any other runs at one rate
/// of its own, and never at less than a tenth of it.
pub proof fn law_clocks_run_at_their_rate(cfg: crate::cluster_model::SimView, i: nat)
    ensures
        cfg.clock_skew_permille == 0 ==> cfg.clock_rate(i) == 1000,
        cfg.clock_skew_permille > 0 ==> 100 <= cfg.clock_rate(i) <= 1000
            + cfg.clock_skew_permille && (cfg.clock_skew_permille < 900 ==> cfg.clock_rate(i)
            >= 1000 - cfg.clock_skew_permille),
{
    if cfg.clock_skew_permille > 0 {
        crate::rand::lemma_range_bounds(
            crate::cluster_model::advanced_by(
                crate::rand::stream_state(cfg.seed, crate::cluster_model::CLOCKS_STREAM),
                i,
            ),
            cfg.slowest(),
            (1000 + cfg.clock_skew_permille + 1) as u64,
        );
    }
}

/// A node's clock reads a time by the tick that the simulator has for it, and not
/// a tick before.
pub proof fn law_clocks_agree(c: ClusterView, node: u32, local: u64)
    requires
        c.host(node).clock_rate > 0,
        c.global_time(node, local) < u64::MAX,
    ensures
        ({
            let at = c.global_time(node, local);
            let rate = c.host(node).clock_rate as int;
            &&& (at * rate) / 1000 >= local
            &&& at > 0 ==> (((at - 1) * rate) / 1000) < local
        }),
{
    let rate = c.host(node).clock_rate as int;
    let at = c.global_time(node, local) as int;
    let x = local * 1000 + rate - 1;
    vstd::arithmetic::div_mod::lemma_fundamental_div_mod(x, rate);
    vstd::arithmetic::div_mod::lemma_mod_bound(x, rate);
    vstd::arithmetic::div_mod::lemma_div_pos_is_pos(x, rate);
    let q = x / rate;
    assert(at == q);
    let r = x % rate;
    assert(q * rate == x - r) by (nonlinear_arith)
        requires
            x == rate * q + r,
    ;
    assert(at * rate >= local * 1000);
    if at > 0 {
        assert((at - 1) * rate == at * rate - rate) by (nonlinear_arith);
        assert((at - 1) * rate < local * 1000);
    }
}

/// A request is on record from the moment it is made, and reaches the node it was
/// sent to as it is: a read as a read.
pub proof fn law_requests_are_sent_as_made(
    c: ClusterView,
    node: u32,
    client: u32,
    seq: u64,
    cmd: crate::kv::CommandView,
)
    ensures
        ({
            let d = c.submit(node, client, seq, cmd);
            &&& d.history == c.history.invoke(client, seq, cmd, c.now)
            &&& d.hosts == c.hosts && d.net == c.net && d.stats == c.stats && d.now == c.now
            &&& exists|e: EventView| #[trigger]
                c.queue.push(c.now, e) == d.queue && (e matches EventView::Client {
                    node: n,
                    req,
                } && n == node && req.client == client && req.seq == seq && req.command
                    == cmd.json().bytes() && (req.read_only <==> cmd is Get))
        }),
{
    reveal(ClusterView::submit);
    let e = EventView::Client {
        node,
        req: crate::model::RequestView {
            client,
            seq,
            command: cmd.json().bytes(),
            read_only: cmd.is_read_only(),
        },
    };
    assert(c.queue.push(c.now, e) == c.submit(node, client, seq, cmd).queue);
}

} // verus!
