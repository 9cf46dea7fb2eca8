//! What every event keeps.
//!
//! A cluster that started well stays [`coherent`] whatever happens to it: every
//! disk is in step with its node, every node that is up has a timer pending, no
//! event is scheduled for the past, and no client hears about a request twice.
use crate::cluster::NodeStatus;
use crate::cluster_model::{AnswerView, ClusterView, HostView, KindOfOutcome, SimView};
use crate::event::{EventView, QueueView, SlotView};
use crate::faults::FaultView;
use crate::kv::CommandView;
use crate::log::PayloadView;
use crate::message::MessageView;
use crate::model::{InputView, OutputView, RequestView};
use crate::network::Routed;
use crate::snapshot::SnapshotView;
use crate::storage::DiskView;
use vstd::prelude::*;

verus! {

// ---------------------------------------------------------------------------
// Coherence
// ---------------------------------------------------------------------------

/// A node that is up and its disk hold the same; so do they of the term and the
/// vote, unless nodes are told to forget them. A node that is down has a disk
/// that it can be rebuilt from.
pub open spec fn durable(c: ClusterView, host: HostView) -> bool {
    &&& host.disk.wf()
    &&& !(host.status is Crashed) ==> {
        &&& crate::disk_laws::in_step(host.node, host.disk)
        &&& host.node.cfg == c.cfg.raft
        &&& !host.node.hard_state_dirty
        &&& !c.cfg.raft.bugs.skip_hard_state_persistence ==> crate::disk_laws::vote_in_step(
            host.node,
            host.disk,
        )
    }
}

/// A timer for this node is pending at `at`.
pub open spec fn timer_pending(q: QueueView, node: u32, at: u64) -> bool {
    exists|k: int|
        0 <= k < q.slots.len() && (#[trigger] q.slots[k]).tick == at && q.slots[k].event
            == (EventView::Timer { node })
}

/// The timer that the node believes in is pending.
pub open spec fn timed(c: ClusterView, i: int) -> bool {
    c.hosts[i].timer_at matches Some(at) ==> timer_pending(c.queue, i as u32, at)
}

/// A node that is up has a timer to wake it, and one that is frozen has it no
/// sooner than it thaws.
pub open spec fn awake(host: HostView) -> bool {
    match host.status {
        NodeStatus::Crashed => true,
        NodeStatus::Running => host.timer_at is Some,
        NodeStatus::Paused { until } => host.timer_at matches Some(at) && at >= until,
    }
}

/// Events are in the order of their ticks, and none is in the past.
pub open spec fn ahead(q: QueueView, now: u64) -> bool {
    &&& forall|i: int, j: int|
        0 <= i <= j < q.slots.len() ==> (#[trigger] q.slots[i]).tick <= (
        #[trigger] q.slots[j]).tick
    &&& forall|i: int| 0 <= i < q.slots.len() ==> now <= (#[trigger] q.slots[i]).tick
}

/// No two answers are to the same request, and every answer is on record.
pub open spec fn answers_once(outcomes: Seq<AnswerView>, answered: Set<(u32, u64)>) -> bool {
    &&& forall|i: int|
        0 <= i < outcomes.len() && (#[trigger] outcomes[i]).result is Applied
            ==> answered.contains((outcomes[i].client, outcomes[i].seq))
    &&& forall|i: int, j: int|
        0 <= i < j < outcomes.len() && (#[trigger] outcomes[i]).result is Applied && (
        #[trigger] outcomes[j]).result is Applied ==> outcomes[i].client != outcomes[j].client
            || outcomes[i].seq != outcomes[j].seq
}

/// What holds of a cluster between events.
pub open spec fn coherent(c: ClusterView) -> bool {
    &&& c.hosts.len() <= u32::MAX
    &&& forall|i: int| 0 <= i < c.hosts.len() ==> durable(c, #[trigger] c.hosts[i])
    &&& forall|i: int| 0 <= i < c.hosts.len() ==> awake(#[trigger] c.hosts[i])
    &&& forall|i: int| 0 <= i < c.hosts.len() ==> #[trigger] timed(c, i)
    &&& ahead(c.queue, c.now)
    &&& answers_once(c.outcomes, c.answered)
}

// ---------------------------------------------------------------------------
// What happens at one node
// ---------------------------------------------------------------------------

/// Everything in `a`'s queue is in `b`'s, and what is new there is not in the
/// past.
pub open spec fn grown(a: QueueView, b: QueueView, now: u64) -> bool {
    &&& forall|s: SlotView| #[trigger] a.slots.contains(s) ==> b.slots.contains(s)
    &&& ahead(a, now) ==> ahead(b, now)
}

/// From `a` to `b`, only `node` itself may have changed, and things were
/// scheduled, recorded or answered.
pub open spec fn beside(a: ClusterView, b: ClusterView, node: u32) -> bool {
    &&& b.cfg == a.cfg
    &&& b.now == a.now
    &&& b.fault_rng == a.fault_rng
    &&& b.hosts.len() == a.hosts.len()
    &&& forall|i: int| 0 <= i < a.hosts.len() && i != node ==> #[trigger] b.hosts[i] == a.hosts[i]
    &&& grown(a.queue, b.queue, a.now)
    &&& answers_once(a.outcomes, a.answered) ==> answers_once(b.outcomes, b.answered)
}

/// And of `node` only what it applied, its disk, or whether it compacts.
pub open spec fn keeps(a: ClusterView, b: ClusterView, node: u32) -> bool {
    &&& beside(a, b, node)
    &&& b.host(node).node == a.host(node).node
    &&& b.host(node).status == a.host(node).status
    &&& b.host(node).timer_at == a.host(node).timer_at
}

pub(crate) proof fn lemma_trans(a: ClusterView, b: ClusterView, c: ClusterView, node: u32)
    requires
        beside(a, b, node),
        beside(b, c, node),
    ensures
        beside(a, c, node),
        keeps(a, b, node) && keeps(b, c, node) ==> keeps(a, c, node),
{
    assert forall|i: int| 0 <= i < a.hosts.len() && i != node implies #[trigger] c.hosts[i]
        == a.hosts[i] by {
        assert(b.hosts[i] == a.hosts[i]);
    }
    assert forall|s: SlotView| #[trigger] a.queue.slots.contains(s) implies c.queue.slots.contains(
        s,
    ) by {
        assert(b.queue.slots.contains(s));
    }
}

pub(crate) proof fn lemma_push(q: QueueView, now: u64, at: u64, event: EventView)
    requires
        now <= at,
    ensures
        grown(q, q.push(at, event), now),
        exists|k: int|
            0 <= k < q.push(at, event).slots.len() && (#[trigger] q.push(at, event).slots[k]).tick
                == at && q.push(at, event).slots[k].event == event,
{
    let p = q.push(at, event);
    let k = crate::event::due(q.slots, at) as int;
    crate::event::lemma_due(q.slots, at);
    let new = SlotView { tick: at, seq: q.next_seq, event };
    assert(p.slots[k] == new);
    assert forall|s: SlotView| #[trigger] q.slots.contains(s) implies p.slots.contains(s) by {
        let i = choose|i: int| 0 <= i < q.slots.len() && q.slots[i] == s;
        if i < k {
            assert(p.slots[i] == s);
        } else {
            assert(p.slots[i + 1] == s);
        }
    }
    if ahead(q, now) {
        assert forall|i: int, j: int| 0 <= i <= j < p.slots.len() implies (
        #[trigger] p.slots[i]).tick <= (#[trigger] p.slots[j]).tick by {
            let x = if i > k {
                i - 1
            } else {
                i
            };
            let y = if j > k {
                j - 1
            } else {
                j
            };
            if i != k {
                assert(p.slots[i] == q.slots[x]);
            }
            if j != k {
                assert(p.slots[j] == q.slots[y]);
            }
            if i == k && j > k {
                assert(q.slots[k].tick <= q.slots[y].tick);
            } else if j == k && i < k {
                assert(q.slots[i].tick <= at);
            } else if i != k && j != k {
                assert(q.slots[x].tick <= q.slots[y].tick);
            }
        }
        assert forall|i: int| 0 <= i < p.slots.len() implies now <= (
        #[trigger] p.slots[i]).tick by {
            if i < k {
                assert(p.slots[i] == q.slots[i]);
            } else if i > k {
                assert(p.slots[i] == q.slots[i - 1]);
            }
        }
    }
}

proof fn lemma_schedule(a: ClusterView, at: u64, event: EventView, node: u32)
    requires
        a.now <= at,
    ensures
        keeps(a, a.schedule(at, event), node),
        a.schedule(at, event).hosts == a.hosts,
{
    lemma_push(a.queue, a.now, at, event);
}

proof fn lemma_record_outcome(
    a: ClusterView,
    node: u32,
    client: u32,
    seq: u64,
    result: KindOfOutcome,
)
    ensures
        keeps(a, a.record_outcome(node, client, seq, result), node),
        a.record_outcome(node, client, seq, result).hosts == a.hosts,
{
    reveal(ClusterView::record_outcome);
    let b = a.record_outcome(node, client, seq, result);
    if answers_once(a.outcomes, a.answered) && b.outcomes.len() > a.outcomes.len() {
        let n = a.outcomes.len() as int;
        assert forall|i: int|
            0 <= i < b.outcomes.len() && (
            #[trigger] b.outcomes[i]).result is Applied implies b.answered.contains(
            (b.outcomes[i].client, b.outcomes[i].seq),
        ) by {
            if i < n {
                assert(b.outcomes[i] == a.outcomes[i]);
            }
        }
        assert forall|i: int, j: int|
            0 <= i < j < b.outcomes.len() && (#[trigger] b.outcomes[i]).result is Applied && (
            #[trigger] b.outcomes[j]).result is Applied implies b.outcomes[i].client
            != b.outcomes[j].client || b.outcomes[i].seq != b.outcomes[j].seq by {
            assert(b.outcomes[i] == a.outcomes[i]);
            if j < n {
                assert(b.outcomes[j] == a.outcomes[j]);
            } else {
                assert(a.answered.contains((a.outcomes[i].client, a.outcomes[i].seq)));
            }
        }
    }
}

proof fn lemma_apply_entry(
    a: ClusterView,
    seq: u64,
    node: u32,
    index: u64,
    term: u64,
    payload: PayloadView,
    client: Option<(u32, u64)>,
    respond: bool,
)
    requires
        a.has(node),
    ensures
        ({
            let b = a.apply_entry(seq, node, index, term, payload, client, respond);
            keeps(a, b, node) && b.host(node).disk == a.host(node).disk
        }),
{
    reveal(ClusterView::apply_entry);
    let b = a.apply_entry(seq, node, index, term, payload, client, respond);
    let command = match payload {
        PayloadView::Command(bytes) => crate::kv::command_of(bytes),
        _ => None,
    };
    let machine = a.host(node).machine;
    let result = match command {
        Some(c) => Some(machine.answer_for(client, c)),
        None => None,
    };
    let host = HostView {
        machine: match command {
            Some(c) => machine.applied_for(client, c),
            None => machine,
        },
        applied: a.host(node).applied.push(
            crate::cluster_model::AppliedView { index, term, command },
        ),
        ..a.host(node)
    };
    let applied = ClusterView {
        stats: crate::cluster::RunStats {
            entries_applied: a.stats.entries_applied.saturating_add(1),
            ..a.stats
        },
        checker: if a.cfg.check_invariants {
            a.checker.observe_apply(a.now, node, index, term, command)
        } else {
            a.checker
        },
        ..a.with_host(node, host)
    }.traced(seq, node, crate::trace::KindView::Applied { index, term, command, result });
    assert(keeps(a, applied, node));
    match (client, result) {
        (Some((c, s)), Some(r)) if respond => {
            lemma_record_outcome(applied, node, c, s, KindOfOutcome::Applied(r));
            lemma_trans(a, applied, b, node);
        },
        _ => {},
    }
}

proof fn lemma_serve_read(
    a: ClusterView,
    seq: u64,
    node: u32,
    client: u32,
    client_seq: u64,
    command: Seq<u8>,
    read_index: u64,
)
    requires
        a.has(node),
    ensures
        ({
            let b = a.serve_read(seq, node, client, client_seq, command, read_index);
            keeps(a, b, node) && b.host(node).disk == a.host(node).disk
        }),
{
    reveal(ClusterView::serve_read);
    match crate::kv::command_of(command) {
        None => {},
        Some(c) => {
            let machine = a.host(node).machine;
            let result = machine.answer(c);
            let served = a.set_machine(node, machine.applied(c)).with_stats(
                crate::cluster::RunStats {
                    reads_served: a.stats.reads_served.saturating_add(1),
                    ..a.stats
                },
            ).traced(seq, node, crate::trace::KindView::ReadServed { read_index, result });
            assert(keeps(a, served, node));
            lemma_record_outcome(
                served,
                node,
                client,
                client_seq,
                KindOfOutcome::Applied(result),
            );
            lemma_trans(
                a,
                served,
                a.serve_read(seq, node, client, client_seq, command, read_index),
                node,
            );
        },
    }
}

/// What the network decided is scheduled.
proof fn lemma_sent(
    a: ClusterView,
    seq: u64,
    node: u32,
    to: u32,
    event: EventView,
    routed: Routed,
    b: ClusterView,
)
    requires
        match routed {
            Routed::Once(at) => a.now <= at,
            Routed::Twice(first, second) => a.now <= first && a.now <= second,
            _ => true,
        },
        b == (match routed {
            Routed::Once(at) => a.schedule(at, event),
            Routed::Twice(first, second) => a.schedule(first, event).schedule(
                second,
                event,
            ).traced(seq, node, crate::trace::KindView::Duplicated { to }),
            Routed::Dropped => a.traced(seq, node, crate::trace::KindView::Dropped { to }),
            Routed::Partitioned => a.traced(seq, node, crate::trace::KindView::Partitioned { to }),
        }),
    ensures
        keeps(a, b, node),
        b.hosts == a.hosts,
{
    match routed {
        Routed::Once(at) => lemma_schedule(a, at, event, node),
        Routed::Twice(first, second) => {
            let once = a.schedule(first, event);
            let twice = once.schedule(second, event);
            lemma_schedule(a, first, event, node);
            lemma_schedule(once, second, event, node);
            lemma_trans(a, once, twice, node);
            assert(keeps(twice, b, node));
            lemma_trans(a, twice, b, node);
        },
        _ => {},
    }
}

proof fn lemma_send(a: ClusterView, seq: u64, node: u32, to: u32, msg: MessageView)
    ensures
        keeps(a, a.send(seq, node, to, msg), node),
        a.send(seq, node, to, msg).hosts == a.hosts,
{
    reveal(ClusterView::send);
    crate::network::law_messages_take_time(a.net, a.now, (node, to), a.net_rng);
    let (routed, net, net_rng) = a.net.route(a.now, (node, to), a.net_rng);
    let sent = ClusterView { net, net_rng, ..a };
    let event = EventView::Deliver { from: node, to, msg, sent_at: a.now };
    assert(keeps(a, sent, node));
    lemma_sent(sent, seq, node, to, event, routed, a.send(seq, node, to, msg));
    lemma_trans(a, sent, a.send(seq, node, to, msg), node);
}

/// One output takes effect: it changes the disk where it is a write that fits,
/// and nothing else that matters here.
pub(crate) proof fn lemma_emit(a: ClusterView, seq: u64, node: u32, output: OutputView, commit: u64)
    requires
        a.has(node),
    ensures
        keeps(a, a.emit(seq, node, output, commit), node),
        a.emit(seq, node, output, commit).host(node).disk == (match output {
            OutputView::Persist(op) if a.host(node).disk.takes(op) => a.host(node).disk.written(op),
            _ => a.host(node).disk,
        }),
{
    reveal(ClusterView::emit);
    let x = a.traced(seq, node, crate::trace::KindView::Out(output));
    let b = a.emit(seq, node, output, commit);
    assert(keeps(a, x, node));
    match output {
        OutputView::Persist(op) => {
            reveal(ClusterView::persist);
            reveal(ClusterView::note_truncation);
        },
        OutputView::Send { to, msg } => lemma_send(x, seq, node, to, msg),
        OutputView::Apply { index, term, payload, client, respond } => lemma_apply_entry(
            x,
            seq,
            node,
            index,
            term,
            payload,
            client,
            respond,
        ),
        OutputView::ServeRead { client, seq: client_seq, command, read_index } => lemma_serve_read(
            x,
            seq,
            node,
            client,
            client_seq,
            command,
            read_index,
        ),
        OutputView::RestoreSnapshot { snapshot } => {
            reveal(ClusterView::install);
        },
        OutputView::ClientResponse { client, seq: client_seq, result } => match result {
            crate::node::ClientResult::NotLeader { leader } => lemma_record_outcome(
                x,
                node,
                client,
                client_seq,
                KindOfOutcome::NotLeader { leader },
            ),
            crate::node::ClientResult::ChangeInProgress => {},
        },
    }
    assert(keeps(x, b, node));
    lemma_trans(a, x, b, node);
}

pub(crate) proof fn lemma_emit_all(
    a: ClusterView,
    seq: u64,
    node: u32,
    outputs: Seq<OutputView>,
    n: int,
    commit: u64,
)
    requires
        a.has(node),
        n <= outputs.len(),
    ensures
        keeps(a, a.emit_all(seq, node, outputs, n, commit), node),
        a.emit_all(seq, node, outputs, n, commit).host(node).disk == crate::disk_laws::kept(
            a.host(node).disk,
            outputs,
            n,
        ),
    decreases n,
{
    if n > 0 {
        lemma_emit_all(a, seq, node, outputs, n - 1, commit);
        let b = a.emit_all(seq, node, outputs, n - 1, commit);
        lemma_emit(b, seq, node, outputs[n - 1], commit);
        lemma_trans(a, b, b.emit(seq, node, outputs[n - 1], commit), node);
    }
}

proof fn lemma_mirror(c: ClusterView, from: int, to: int, node: u32)
    ensures
        keeps(c, c.mirror(from, to), node),
        c.mirror(from, to).hosts == c.hosts,
    decreases to - from,
{
    if to > from {
        lemma_mirror(c, from, to - 1, node);
    }
}

pub(crate) proof fn lemma_observe(c: ClusterView, node: u32, dirty: Option<u64>)
    ensures
        keeps(c, c.observe(node, dirty), node),
        c.observe(node, dirty).hosts == c.hosts,
{
    reveal(ClusterView::observe);
    if c.cfg.check_invariants {
        let seen = ClusterView {
            checker: c.checker.observe_node(c.now, c.host(node).node, dirty),
            ..c
        };
        lemma_mirror(
            seen,
            c.checker.violations.len() as int,
            seen.checker.violations.len() as int,
            node,
        );
    }
}

// ---------------------------------------------------------------------------
// Timers
// ---------------------------------------------------------------------------

proof fn lemma_pending_stays(a: QueueView, b: QueueView, node: u32, at: u64)
    requires
        timer_pending(a, node, at),
        forall|s: SlotView| #[trigger] a.slots.contains(s) ==> b.slots.contains(s),
    ensures
        timer_pending(b, node, at),
{
    let k = choose|k: int|
        0 <= k < a.slots.len() && (#[trigger] a.slots[k]).tick == at && a.slots[k].event
            == (EventView::Timer { node });
    assert(a.slots.contains(a.slots[k]));
    let j = choose|j: int| 0 <= j < b.slots.len() && b.slots[j] == a.slots[k];
    assert(b.slots[j].tick == at);
}

/// Everyone else's timers are untouched.
proof fn lemma_others_timed(a: ClusterView, b: ClusterView, node: u32, i: int)
    requires
        beside(a, b, node),
        0 <= i < a.hosts.len(),
        i != node,
        timed(a, i),
    ensures
        timed(b, i),
{
    assert(b.hosts[i] == a.hosts[i]);
    match a.hosts[i].timer_at {
        Some(at) => lemma_pending_stays(a.queue, b.queue, i as u32, at),
        None => {},
    }
}

proof fn lemma_own_timed(a: ClusterView, b: ClusterView, node: u32)
    requires
        keeps(a, b, node),
        a.has(node),
        timed(a, node as int),
    ensures
        timed(b, node as int),
{
    match a.host(node).timer_at {
        Some(at) => lemma_pending_stays(a.queue, b.queue, node, at),
        None => {},
    }
}

proof fn lemma_arm(a: ClusterView, node: u32, at: u64)
    requires
        a.has(node),
        a.now <= at,
        timed(a, node as int),
    ensures
        ({
            let b = a.arm(node, at);
            &&& beside(a, b, node)
            &&& b.host(node) == (HostView { timer_at: Some(at), ..a.host(node) })
            &&& timed(b, node as int)
        }),
{
    if a.host(node).timer_at != Some(at) {
        lemma_push(a.queue, a.now, at, EventView::Timer { node });
        lemma_schedule(a, at, EventView::Timer { node }, node);
        let b = a.arm(node, at);
        assert(timer_pending(b.queue, node, at));
    }
}

/// A node that is up is woken.
proof fn lemma_rearm_timer(a: ClusterView, node: u32)
    requires
        a.has(node),
        timed(a, node as int),
    ensures
        ({
            let b = a.rearm_timer(node);
            &&& beside(a, b, node)
            &&& b.host(node) == (HostView { timer_at: b.host(node).timer_at, ..a.host(node) })
            &&& timed(b, node as int)
            &&& awake(b.host(node))
        }),
{
    reveal(ClusterView::rearm_timer);
    let soonest = a.now.saturating_add(1);
    match a.host(node).status {
        NodeStatus::Crashed => {},
        NodeStatus::Paused { until } => lemma_arm(a, node, crate::model::max_of(until, soonest)),
        NodeStatus::Running => lemma_arm(
            a,
            node,
            crate::model::max_of(
                a.global_time(node, a.host(node).node.next_deadline()),
                soonest,
            ),
        ),
    }
}

// ---------------------------------------------------------------------------
// Faults
// ---------------------------------------------------------------------------

/// The cluster but for what happens to `node` meanwhile: coherent, with the
/// node's own timer, if it believes in one, pending.
pub open spec fn coherent_beside(c: ClusterView, node: u32) -> bool {
    &&& c.hosts.len() <= u32::MAX
    &&& forall|i: int| 0 <= i < c.hosts.len() && i != node ==> durable(c, #[trigger] c.hosts[i])
    &&& forall|i: int| 0 <= i < c.hosts.len() && i != node ==> awake(#[trigger] c.hosts[i])
    &&& forall|i: int| 0 <= i < c.hosts.len() ==> #[trigger] timed(c, i)
    &&& ahead(c.queue, c.now)
    &&& answers_once(c.outcomes, c.answered)
}

proof fn lemma_beside(a: ClusterView, b: ClusterView, node: u32)
    requires
        coherent_beside(a, node),
        beside(a, b, node),
        a.has(node) ==> timed(b, node as int),
    ensures
        coherent_beside(b, node),
        a.has(node) && durable(b, b.host(node)) && awake(b.host(node)) ==> coherent(b),
        !a.has(node) ==> coherent(b),
{
    assert forall|i: int| 0 <= i < b.hosts.len() && i != node implies durable(
        b,
        #[trigger] b.hosts[i],
    ) && awake(b.hosts[i]) by {
        assert(b.hosts[i] == a.hosts[i]);
        assert(durable(a, a.hosts[i]));
    }
    assert forall|i: int| 0 <= i < b.hosts.len() implies #[trigger] timed(b, i) by {
        if i != node {
            assert(timed(a, i));
            lemma_others_timed(a, b, node, i);
        }
    }
    if a.has(node) && durable(b, b.host(node)) && awake(b.host(node)) {
        assert forall|i: int| 0 <= i < b.hosts.len() implies durable(b, #[trigger] b.hosts[i])
            && awake(b.hosts[i]) by {
            if i == node {
                assert(b.hosts[i] == b.host(node));
            }
        }
    }
}

proof fn lemma_crash_node(a: ClusterView, seq: u64, node: u32)
    requires
        a.has(node),
    ensures
        ({
            let b = a.crash_node(seq, node);
            &&& beside(a, b, node)
            &&& timed(a, node as int) ==> timed(b, node as int)
            &&& a.host(node).status is Running ==> b.host(node) == (HostView {
                status: NodeStatus::Crashed,
                timer_at: None,
                ..a.host(node)
            })
            &&& !(a.host(node).status is Running) ==> b == a
        }),
{
    reveal(ClusterView::crash_node);
}

proof fn lemma_restart_node(a: ClusterView, seq: u64, node: u32)
    requires
        a.has(node),
        timed(a, node as int),
        durable(a, a.host(node)),
        awake(a.host(node)),
    ensures
        ({
            let b = a.restart_node(seq, node);
            &&& beside(a, b, node)
            &&& timed(b, node as int)
            &&& durable(b, b.host(node))
            &&& awake(b.host(node))
        }),
{
    reveal(ClusterView::restart_node);
    if a.host(node).status is Crashed && a.can_restart(node) {
        let host = a.rebuilt(node);
        let back = a.with_host(node, host);
        let disk = a.host(node).disk.recovered(!a.cfg.raft.bugs.skip_snapshot_reconcile);
        crate::storage::law_recovery_is_idempotent(
            a.host(node).disk,
            !a.cfg.raft.bugs.skip_snapshot_reconcile,
        );
        assert(host.node.log == disk.log);
        assert(durable(back, host));
        let known = ClusterView {
            stats: crate::cluster::RunStats {
                restarts: a.stats.restarts.saturating_add(1),
                ..a.stats
            },
            ..back
        }.marked(crate::timeline::MomentView::Restarted { node });
        let noted = ClusterView {
            checker: known.checker.note_restart(
                node,
                match host.disk.snapshot {
                    Some(s) => s.last_included.index,
                    None => 0,
                },
            ),
            ..known
        }.traced(
            seq,
            node,
            crate::trace::KindView::Restarted {
                current_term: host.disk.current_term,
                voted_for: host.disk.voted_for,
                last_index: host.disk.log.last_index(),
            },
        );
        assert(beside(a, noted, node));
        assert(timed(noted, node as int)) by {
            match a.host(node).timer_at {
                Some(at) => lemma_pending_stays(a.queue, noted.queue, node, at),
                None => {},
            }
        }
        lemma_rearm_timer(noted, node);
        lemma_trans(a, noted, noted.rearm_timer(node), node);
    }
}

proof fn lemma_pause_node(a: ClusterView, node: u32, ticks: u64)
    requires
        a.has(node),
        timed(a, node as int),
        durable(a, a.host(node)),
        awake(a.host(node)),
    ensures
        ({
            let b = a.pause_node(node, ticks);
            &&& beside(a, b, node)
            &&& timed(b, node as int)
            &&& durable(b, b.host(node))
            &&& awake(b.host(node))
        }),
{
    reveal(ClusterView::pause_node);
    if a.is_available(node) {
        let frozen = a.set_status(
            node,
            NodeStatus::Paused { until: a.now.saturating_add(crate::model::max_of(ticks, 1)) },
        ).with_stats(
            crate::cluster::RunStats { pauses: a.stats.pauses.saturating_add(1), ..a.stats },
        );
        assert(beside(a, frozen, node));
        assert(timed(frozen, node as int)) by {
            match a.host(node).timer_at {
                Some(at) => lemma_pending_stays(a.queue, frozen.queue, node, at),
                None => {},
            }
        }
        lemma_rearm_timer(frozen, node);
        lemma_trans(a, frozen, frozen.rearm_timer(node), node);
    }
}

proof fn lemma_repair(a: ClusterView, seq: u64, node: u32)
    requires
        a.has(node),
        timed(a, node as int),
        durable(a, a.host(node)),
        awake(a.host(node)),
    ensures
        ({
            let b = a.repair(seq, node);
            &&& beside(a, b, node)
            &&& timed(b, node as int)
            &&& durable(b, b.host(node))
            &&& awake(b.host(node))
        }),
{
    reveal(ClusterView::repair);
    match a.host(node).status {
        NodeStatus::Crashed => lemma_restart_node(a, seq, node),
        NodeStatus::Paused { until } => {
            let woken = a.set_status(node, NodeStatus::Running);
            assert(beside(a, woken, node));
            assert(timed(woken, node as int)) by {
                match a.host(node).timer_at {
                    Some(at) => lemma_pending_stays(a.queue, woken.queue, node, at),
                    None => {},
                }
            }
            lemma_rearm_timer(woken, node);
            lemma_trans(a, woken, woken.rearm_timer(node), node);
        },
        NodeStatus::Running => {},
    }
}

pub(crate) proof fn lemma_coherent_beside(c: ClusterView, node: u32)
    requires
        coherent(c),
    ensures
        coherent_beside(c, node),
        c.has(node) ==> durable(c, c.host(node)) && awake(c.host(node)) && timed(c, node as int),
{
    if c.has(node) {
        assert(durable(c, c.hosts[node as int]));
        assert(timed(c, node as int));
    }
}

proof fn lemma_repair_all(a: ClusterView, seq: u64, n: nat)
    requires
        coherent(a),
        n <= a.hosts.len(),
    ensures
        coherent(a.repair_all(seq, n)),
        a.repair_all(seq, n).cfg == a.cfg,
        a.repair_all(seq, n).now == a.now,
        a.repair_all(seq, n).fault_rng == a.fault_rng,
        a.repair_all(seq, n).hosts.len() == a.hosts.len(),
    decreases n,
{
    if n > 0 {
        lemma_repair_all(a, seq, (n - 1) as nat);
        let b = a.repair_all(seq, (n - 1) as nat);
        let node = (n - 1) as u32;
        lemma_coherent_beside(b, node);
        lemma_repair(b, seq, node);
        lemma_beside(b, b.repair(seq, node), node);
    }
}

proof fn lemma_disturb(a: ClusterView, seq: u64, fault: FaultView)
    requires
        coherent(a),
    ensures
        coherent(a.disturb(seq, fault)),
        a.disturb(seq, fault).cfg == a.cfg,
        a.disturb(seq, fault).now == a.now,
        a.disturb(seq, fault).fault_rng == a.fault_rng,
        a.disturb(seq, fault).hosts.len() == a.hosts.len(),
{
    reveal(ClusterView::disturb);
    reveal(ClusterView::apply_node_fault);
    let ids = crate::cluster_model::ids(a.hosts.len());
    let blocked = crate::faults::links_after(a.net.blocked, fault, ids);
    let x = ClusterView { net: crate::network::NetView { blocked, ..a.net }, ..a };
    lemma_same_coherence(a, x);
    let y = x.apply_node_fault(seq, fault);
    match fault {
        FaultView::Crash { node } => {
            lemma_coherent_beside(x, node);
            if x.has(node) {
                lemma_crash_node(x, seq, node);
                lemma_beside(x, y, node);
            } else {
                reveal(ClusterView::crash_node);
            }
        },
        FaultView::Restart { node } => {
            lemma_coherent_beside(x, node);
            if x.has(node) {
                lemma_restart_node(x, seq, node);
                lemma_beside(x, y, node);
            } else {
                reveal(ClusterView::restart_node);
            }
        },
        FaultView::Pause { node, ticks } => {
            lemma_coherent_beside(x, node);
            if x.has(node) {
                lemma_pause_node(x, node, ticks);
                lemma_beside(x, y, node);
            } else {
                reveal(ClusterView::pause_node);
            }
        },
        FaultView::Heal => lemma_repair_all(x, seq, x.hosts.len()),
        _ => {},
    }
    assert(coherent(y));
    lemma_same_coherence(y, a.disturb(seq, fault));
}

/// Coherence speaks of the hosts, the queue, the clock and the answers alone.
proof fn lemma_same_coherence(a: ClusterView, b: ClusterView)
    requires
        coherent(a),
        b.cfg.raft == a.cfg.raft,
        b.now == a.now,
        b.hosts == a.hosts,
        b.queue == a.queue,
        b.outcomes == a.outcomes,
        b.answered == a.answered,
    ensures
        coherent(b),
{
    assert forall|i: int| 0 <= i < b.hosts.len() implies durable(b, #[trigger] b.hosts[i]) by {
        assert(durable(a, a.hosts[i]));
    }
    assert forall|i: int| 0 <= i < b.hosts.len() implies #[trigger] timed(b, i) by {
        assert(timed(a, i));
    }
}

/// Scheduling something, for no earlier than now, keeps coherence.
proof fn lemma_schedule_coherent(a: ClusterView, at: u64, event: EventView)
    requires
        coherent(a),
        a.now <= at,
    ensures
        coherent(a.schedule(at, event)),
{
    let b = a.schedule(at, event);
    lemma_push(a.queue, a.now, at, event);
    assert forall|i: int| 0 <= i < b.hosts.len() implies durable(b, #[trigger] b.hosts[i]) by {
        assert(durable(a, a.hosts[i]));
    }
    assert forall|i: int| 0 <= i < b.hosts.len() implies #[trigger] timed(b, i) by {
        assert(timed(a, i));
        match a.hosts[i].timer_at {
            Some(t) => lemma_pending_stays(a.queue, b.queue, i as u32, t),
            None => {},
        }
    }
}

proof fn lemma_schedule_next_fault(a: ClusterView)
    requires
        coherent(a),
    ensures
        coherent(a.schedule_next_fault()),
{
    reveal(ClusterView::schedule_next_fault);
    let f = a.cfg.faults;
    if a.disturbed {
        let delay = crate::faults::sampled(f.outage_min, f.outage_max, a.fault_rng);
        let x = ClusterView {
            fault_rng: crate::faults::after_sample(f.outage_min, f.outage_max, a.fault_rng),
            ..a
        };
        lemma_same_coherence(a, x);
        lemma_schedule_coherent(
            x,
            a.now.saturating_add(crate::model::max_of(delay, 1)),
            EventView::Fault { fault: FaultView::Heal },
        );
    } else {
        let delay = crate::faults::sampled(f.healthy_min, f.healthy_max, a.fault_rng);
        let drawn = f.drawn(
            crate::cluster_model::ids(a.hosts.len()),
            crate::faults::after_sample(f.healthy_min, f.healthy_max, a.fault_rng),
        );
        let x = ClusterView { fault_rng: drawn.state, ..a };
        lemma_same_coherence(a, x);
        match drawn.fault {
            None => {},
            Some(fault) => lemma_schedule_coherent(
                x,
                a.now.saturating_add(crate::model::max_of(delay, 1)),
                EventView::Fault { fault },
            ),
        }
    }
}

proof fn lemma_apply_fault(a: ClusterView, seq: u64, fault: FaultView)
    requires
        coherent(a),
    ensures
        coherent(a.apply_fault(seq, fault)),
        a.apply_fault(seq, fault).now == a.now,
        !(a.cfg.faults.enabled && a.cfg.scripted_faults is None) ==> a.apply_fault(
            seq,
            fault,
        ).fault_rng == a.fault_rng,
{
    reveal(ClusterView::apply_fault);
    lemma_disturb(a, seq, fault);
    let y = a.disturb(seq, fault);
    let x = ClusterView { disturbed: !(fault is Heal), ..y };
    lemma_same_coherence(y, x);
    lemma_schedule_next_fault(x);
    reveal(ClusterView::schedule_next_fault);
}

// ---------------------------------------------------------------------------
// A step
// ---------------------------------------------------------------------------

/// An input reaches a node that is up.
pub(crate) proof fn lemma_deliver(a: ClusterView, seq: u64, node: u32, input: InputView)
    requires
        a.has(node),
        coherent_beside(a, node),
        durable(a, a.host(node)),
        !(a.host(node).status is Crashed),
        a.host(node).status is Running || a.cfg.disk.torn_step_permille == 0,
    ensures
        coherent(a.deliver(seq, node, input)),
        beside(a, a.deliver(seq, node, input), node),
{
    reveal(ClusterView::deliver);
    assert(timed(a, node as int));
    let was = a.host(node).node;
    let outputs = a.outputs(node, input);
    let all = outputs.len() as int;
    let x1 = a.traced(seq, node, crate::trace::KindView::In(input)).stepped(node, input);
    let x2 = x1.note_step(node, was.role);
    assert(beside(a, x2, node) && x2.host(node) == x1.host(node)) by {
        reveal(ClusterView::note_step);
    }
    let (tear, disk_rng) = x2.tear_point(outputs);
    let x3 = ClusterView { disk_rng, ..x2 };
    assert(beside(a, x3, node));
    assert(x3.host(node).timer_at == a.host(node).timer_at);
    assert(x3.host(node).disk == a.host(node).disk);
    assert(timed(x3, node as int)) by {
        match a.host(node).timer_at {
            Some(at) => lemma_pending_stays(a.queue, x3.queue, node, at),
            None => {},
        }
    }
    let disk = a.host(node).disk;
    match tear {
        Some(t) if t < outputs.len() => {
            assert(a.cfg.disk.torn_step_permille != 0) by {
                reveal(ClusterView::tear_point);
            }
            lemma_emit_all(x3, seq, node, outputs, t as int, was.commit_index);
            let x4 = x3.emit_all(seq, node, outputs, t as int, was.commit_index);
            lemma_trans(a, x3, x4, node);
            lemma_own_timed(x3, x4, node);
            lemma_kept_wf(disk, outputs, t as int);
            lemma_tear_step(x4, seq, node);
            let b = x4.tear_step(seq, node);
            lemma_trans(a, x4, b, node);
            lemma_beside(a, b, node);
        },
        _ => {
            lemma_emit_all(x3, seq, node, outputs, all, was.commit_index);
            let x4 = x3.emit_all(seq, node, outputs, all, was.commit_index);
            lemma_trans(a, x3, x4, node);
            lemma_own_timed(x3, x4, node);
            let dirty = crate::cluster_model::dirty_in(outputs, all);
            lemma_observe(x4, node, dirty);
            let x5 = x4.observe(node, dirty);
            lemma_trans(a, x4, x5, node);
            lemma_own_timed(x4, x5, node);
            let x6 = x5.consider_compaction(node);
            lemma_consider_compaction(x5, node);
            lemma_trans(a, x5, x6, node);
            lemma_own_timed(x5, x6, node);
            lemma_rearm_timer(x6, node);
            let b = x6.rearm_timer(node);
            lemma_trans(a, x6, b, node);
            assert(durable(b, b.host(node))) by {
                if a.takes(node, input) {
                    let now = a.local_time(node, a.now);
                    crate::disk_laws::law_disks_stay_in_step(was, disk, input, now);
                    crate::node_laws::lemma_turn(was, input, now);
                }
            }
            lemma_beside(a, b, node);
        },
    }
}

proof fn lemma_consider_compaction(a: ClusterView, node: u32)
    requires
        a.has(node),
    ensures
        keeps(a, a.consider_compaction(node), node),
        a.consider_compaction(node).host(node).disk == a.host(node).disk,
{
    reveal(ClusterView::consider_compaction);
    let x = a.set_compacting(node, true);
    assert(keeps(a, x, node));
    let at = a.now.saturating_add(1);
    lemma_schedule(x, at, EventView::Compact { node }, node);
    lemma_trans(a, x, x.schedule(at, EventView::Compact { node }), node);
}

/// A disk stays well formed whatever is written to it.
proof fn lemma_kept_wf(disk: DiskView, outputs: Seq<OutputView>, n: int)
    requires
        disk.wf(),
    ensures
        crate::disk_laws::kept(disk, outputs, n).wf(),
    decreases n,
{
    if n > 0 {
        lemma_kept_wf(disk, outputs, n - 1);
        let before = crate::disk_laws::kept(disk, outputs, n - 1);
        match outputs[n - 1] {
            OutputView::Persist(op) => {
                if before.takes(op) {
                    crate::disk_laws::lemma_written_wf(before, op);
                }
            },
            _ => {},
        }
    }
}

/// The process dies in the middle of a step.
pub(crate) proof fn lemma_tear_step(a: ClusterView, seq: u64, node: u32)
    requires
        a.has(node),
        a.host(node).status is Running,
    ensures
        ({
            let b = a.tear_step(seq, node);
            &&& beside(a, b, node)
            &&& b.host(node) == (HostView {
                status: NodeStatus::Crashed,
                timer_at: None,
                ..a.host(node)
            })
            &&& timed(b, node as int)
        }),
{
    reveal(ClusterView::tear_step);
    let d = a.cfg.disk;
    let x1 = a.with_stats(
        crate::cluster::RunStats {
            torn_steps: a.stats.torn_steps.saturating_add(1),
            ..a.stats
        },
    ).traced(seq, node, crate::trace::KindView::TornStep);
    assert(beside(a, x1, node));
    lemma_crash_node(x1, seq, node);
    let x2 = x1.crash_node(seq, node);
    lemma_trans(a, x1, x2, node);
    let delay = crate::faults::sampled(d.restart_min, d.restart_max, x2.disk_rng);
    let x3 = ClusterView {
        disk_rng: crate::faults::after_sample(d.restart_min, d.restart_max, x2.disk_rng),
        ..x2
    };
    assert(beside(x2, x3, node));
    lemma_trans(a, x2, x3, node);
    let at = a.now.saturating_add(crate::model::max_of(delay, 1));
    let event = EventView::Fault { fault: FaultView::Restart { node } };
    lemma_schedule(x3, at, event, node);
    lemma_trans(a, x3, x3.schedule(at, event), node);
}

// ---------------------------------------------------------------------------
// Events
// ---------------------------------------------------------------------------

proof fn lemma_compact_node(a: ClusterView, seq: u64, node: u32)
    requires
        coherent(a),
    ensures
        coherent(a.compact_node(seq, node)),
        a.has(node) ==> beside(a, a.compact_node(seq, node), node),
        !a.has(node) ==> a.compact_node(seq, node) == a,
{
    reveal(ClusterView::compact_node);
    if a.has(node) {
        lemma_coherent_beside(a, node);
        let idle = a.set_compacting(node, false);
        assert(keeps(a, idle, node));
        lemma_own_timed(a, idle, node);
        lemma_beside(a, idle, node);
        let n = idle.host(node).node;
        let applied = n.last_applied;
        if !(!idle.is_available(node) || applied == 0 || applied <= idle.covered(node)) {
            match n.log.term_at(applied) {
                None => {},
                Some(term) => {
                    let x = idle.with_stats(
                        crate::cluster::RunStats {
                            snapshots_taken: idle.stats.snapshots_taken.saturating_add(1),
                            ..idle.stats
                        },
                    ).marked(
                        crate::timeline::MomentView::SnapshotTaken { node, through: applied },
                    );
                    assert(keeps(a, x, node));
                    lemma_own_timed(a, x, node);
                    lemma_beside(a, x, node);
                    let input = InputView::Compact(
                        SnapshotView {
                            last_included: crate::LogId { index: applied, term },
                            config: n.cluster,
                            data: idle.host(node).machine.json().bytes(),
                        },
                    );
                    lemma_deliver(x, seq, node, input);
                    lemma_trans(a, x, x.deliver(seq, node, input), node);
                },
            }
        }
    }
}

/// The node's timer fires. It may be the one that the node believes in, which
/// is then no longer pending.
proof fn lemma_on_timer(a: ClusterView, seq: u64, node: u32)
    requires
        a.has(node),
        coherent_beside(a, node) || (a.host(node).timer_at == Some(a.now) && coherent_beside(
            a.set_timer(node, None),
            node,
        )),
        durable(a, a.host(node)),
        awake(a.host(node)),
    ensures
        coherent(a.on_timer(seq, node)),
        beside(a, a.on_timer(seq, node), node),
{
    reveal(ClusterView::on_timer);
    let x = if a.host(node).timer_at == Some(a.now) {
        a.set_timer(node, None)
    } else {
        a
    };
    assert(beside(a, x, node));
    assert(coherent_beside(x, node)) by {
        if coherent_beside(a, node) {
            if a.host(node).timer_at == Some(a.now) {
                assert(timed(x, node as int));
            } else {
                assert(timed(a, node as int));
            }
            lemma_beside(a, x, node);
        }
    }
    let y = match x.host(node).status {
        NodeStatus::Paused { until } if a.now >= until => x.set_status(node, NodeStatus::Running),
        _ => x,
    };
    assert(beside(x, y, node));
    assert(timed(x, node as int));
    assert(timed(y, node as int)) by {
        match x.host(node).timer_at {
            Some(at) => lemma_pending_stays(x.queue, y.queue, node, at),
            None => {},
        }
    }
    lemma_beside(x, y, node);
    lemma_trans(a, x, y, node);
    if y.is_available(node) {
        assert(durable(y, y.host(node)));
        lemma_deliver(y, seq, node, InputView::Tick);
        lemma_trans(a, y, y.deliver(seq, node, InputView::Tick), node);
    } else {
        assert(durable(y, y.host(node)));
        assert(awake(y.host(node)));
    }
}

/// Once the timer that fired is taken note of, the node can take a tick.
pub(crate) proof fn lemma_timer_fires(a: ClusterView, node: u32)
    requires
        a.has(node),
        coherent_beside(a, node) || (a.host(node).timer_at == Some(a.now) && coherent_beside(
            a.set_timer(node, None),
            node,
        )),
        durable(a, a.host(node)),
    ensures
        ({
            let x = if a.host(node).timer_at == Some(a.now) {
                a.set_timer(node, None)
            } else {
                a
            };
            let y = match x.host(node).status {
                NodeStatus::Paused { until } if a.now >= until => x.set_status(
                    node,
                    NodeStatus::Running,
                ),
                _ => x,
            };
            coherent_beside(y, node) && durable(y, y.host(node))
        }),
{
    let x = if a.host(node).timer_at == Some(a.now) {
        a.set_timer(node, None)
    } else {
        a
    };
    assert(beside(a, x, node));
    assert(coherent_beside(x, node)) by {
        if coherent_beside(a, node) {
            if a.host(node).timer_at == Some(a.now) {
                assert(timed(x, node as int));
            } else {
                assert(timed(a, node as int));
            }
            lemma_beside(a, x, node);
        }
    }
    let y = match x.host(node).status {
        NodeStatus::Paused { until } if a.now >= until => x.set_status(node, NodeStatus::Running),
        _ => x,
    };
    assert(beside(x, y, node));
    assert(timed(x, node as int));
    assert(timed(y, node as int)) by {
        match x.host(node).timer_at {
            Some(at) => lemma_pending_stays(x.queue, y.queue, node, at),
            None => {},
        }
    }
    lemma_beside(x, y, node);
}

/// Nothing that coherence speaks of changed at this node.
pub(crate) proof fn lemma_idle(a: ClusterView, b: ClusterView, node: u32)
    requires
        coherent(a),
        a.has(node),
        keeps(a, b, node),
        b.host(node).disk == a.host(node).disk,
    ensures
        coherent_beside(b, node),
        durable(b, b.host(node)),
{
    lemma_coherent_beside(a, node);
    lemma_own_timed(a, b, node);
    lemma_beside(a, b, node);
}

proof fn lemma_on_delivery(
    a: ClusterView,
    seq: u64,
    from: u32,
    to: u32,
    msg: MessageView,
    sent_at: u64,
)
    requires
        coherent(a),
    ensures
        coherent(a.on_delivery(seq, from, to, msg, sent_at)),
        a.has(to) ==> beside(a, a.on_delivery(seq, from, to, msg, sent_at), to),
        !a.has(to) ==> a.on_delivery(seq, from, to, msg, sent_at) == a,
{
    reveal(ClusterView::on_delivery);
    if a.has(to) {
        lemma_coherent_beside(a, to);
        match a.host(to).status {
            NodeStatus::Running => lemma_deliver(a, seq, to, InputView::Message { from, msg }),
            NodeStatus::Crashed => {
                let b = a.traced(seq, to, crate::trace::KindView::LostToCrash { from });
                lemma_same_coherence(a, b);
            },
            NodeStatus::Paused { until } => {
                let x = a.with_stats(
                    crate::cluster::RunStats {
                        messages_deferred: a.stats.messages_deferred.saturating_add(1),
                        ..a.stats
                    },
                );
                let at = crate::model::max_of(until, a.now.saturating_add(1));
                let event = EventView::Deliver { from, to, msg, sent_at };
                lemma_same_coherence(a, x);
                lemma_schedule_coherent(x, at, event);
                lemma_schedule(x, at, event, to);
                lemma_trans(a, x, x.schedule(at, event), to);
            },
        }
    }
}

proof fn lemma_on_client(a: ClusterView, seq: u64, node: u32, req: RequestView)
    requires
        coherent(a),
    ensures
        coherent(a.on_client(seq, node, req)),
        a.has(node) ==> beside(a, a.on_client(seq, node, req), node),
        !a.has(node) ==> a.on_client(seq, node, req) == a,
{
    reveal(ClusterView::on_client);
    if a.is_available(node) {
        lemma_coherent_beside(a, node);
        match a.stale_read(node, req) {
            Some(c) => {
                reveal(ClusterView::serve_stale_read);
                let machine = a.host(node).machine;
                let result = machine.answer(c);
                let x = a.set_machine(node, machine.applied(c)).traced(
                    seq,
                    node,
                    crate::trace::KindView::Applied {
                        index: 0,
                        term: a.host(node).node.current_term,
                        command: Some(c),
                        result: Some(result),
                    },
                );
                assert(keeps(a, x, node));
                lemma_record_outcome(
                    x,
                    node,
                    req.client,
                    req.seq,
                    KindOfOutcome::Applied(result),
                );
                let b = a.serve_stale_read(seq, node, req, c);
                lemma_trans(a, x, b, node);
                lemma_own_timed(a, b, node);
                lemma_beside(a, b, node);
            },
            None => lemma_deliver(a, seq, node, InputView::ClientRequest(req)),
        }
    }
}

/// What is left to come once the next event is taken.
pub(crate) proof fn lemma_pop(a: ClusterView)
    requires
        coherent(a),
        a.queue.slots.len() > 0,
    ensures
        ({
            let next = a.queue.slots[0];
            let b = ClusterView {
                queue: a.queue.rest(),
                now: next.tick,
                events_processed: a.events_processed.saturating_add(1),
                ..a
            };
            &&& next.tick >= a.now
            &&& match next.event {
                EventView::Timer { node } if b.has(node) => {
                    &&& coherent_beside(b, node) || (b.host(node).timer_at == Some(b.now)
                        && coherent_beside(b.set_timer(node, None), node))
                    &&& durable(b, b.host(node))
                    &&& awake(b.host(node))
                },
                _ => coherent(b),
            }
        }),
{
    let next = a.queue.slots[0];
    let b = ClusterView {
        queue: a.queue.rest(),
        now: next.tick,
        events_processed: a.events_processed.saturating_add(1),
        ..a
    };
    let rest = b.queue.slots;
    assert forall|i: int, j: int| 0 <= i <= j < rest.len() implies (#[trigger] rest[i]).tick <= (
    #[trigger] rest[j]).tick by {
        assert(a.queue.slots[i + 1].tick <= a.queue.slots[j + 1].tick);
    }
    assert forall|i: int| 0 <= i < rest.len() implies b.now <= (#[trigger] rest[i]).tick by {
        assert(a.queue.slots[0].tick <= a.queue.slots[i + 1].tick);
    }
    assert forall|i: int| 0 <= i < b.hosts.len() implies durable(b, #[trigger] b.hosts[i])
        && awake(b.hosts[i]) by {
        assert(durable(a, a.hosts[i]));
    }
    assert forall|i: int|
        0 <= i < b.hosts.len() && !(next.event == (EventView::Timer { node: i as u32 })
            && b.hosts[i].timer_at == Some(next.tick)) implies #[trigger] timed(b, i) by {
        assert(timed(a, i));
        match a.hosts[i].timer_at {
            Some(at) => {
                let k = choose|k: int|
                    0 <= k < a.queue.slots.len() && (#[trigger] a.queue.slots[k]).tick == at
                        && a.queue.slots[k].event == (EventView::Timer { node: i as u32 });
                assert(k > 0);
                assert(rest[k - 1] == a.queue.slots[k]);
            },
            None => {},
        }
    }
    match next.event {
        EventView::Timer { node } if b.has(node) => {
            let c = b.set_timer(node, None);
            assert(durable(b, b.hosts[node as int]));
            assert forall|i: int| 0 <= i < c.hosts.len() && i != node implies durable(
                c,
                #[trigger] c.hosts[i],
            ) && awake(c.hosts[i]) by {
                assert(c.hosts[i] == b.hosts[i]);
                assert(durable(b, b.hosts[i]));
            }
            assert forall|i: int| 0 <= i < c.hosts.len() implies #[trigger] timed(c, i) by {
                if i != node {
                    assert(i as u32 != node);
                    assert(timed(b, i));
                    assert(c.hosts[i] == b.hosts[i]);
                }
            }
            if b.host(node).timer_at != Some(next.tick) {
                assert forall|i: int| 0 <= i < b.hosts.len() implies #[trigger] timed(b, i) by {}
            }
        },
        _ => {
            assert forall|i: int| 0 <= i < b.hosts.len() implies #[trigger] timed(b, i) by {}
        },
    }
}

// ---------------------------------------------------------------------------
// The laws
// ---------------------------------------------------------------------------

/// Every event keeps a cluster coherent, and time never goes back. A run that
/// follows a script, or has no schedule of faults, draws none.
pub proof fn law_every_event_keeps_coherence(c: ClusterView)
    requires
        coherent(c),
    ensures
        coherent(c.step()),
        c.step().now >= c.now,
        !(c.cfg.faults.enabled && c.cfg.scripted_faults is None) ==> c.step().fault_rng
            == c.fault_rng,
{
    reveal(ClusterView::step);
    reveal(ClusterView::on_event);
    if c.queue.slots.len() > 0 {
        let next = c.queue.slots[0];
        let b = ClusterView {
            queue: c.queue.rest(),
            now: next.tick,
            events_processed: c.events_processed.saturating_add(1),
            ..c
        };
        lemma_pop(c);
        match next.event {
            EventView::Timer { node } => {
                if b.has(node) {
                    lemma_on_timer(b, next.seq, node);
                } else {
                    reveal(ClusterView::on_timer);
                }
            },
            EventView::Deliver { from, to, msg, sent_at } => lemma_on_delivery(
                b,
                next.seq,
                from,
                to,
                msg,
                sent_at,
            ),
            EventView::Client { node, req } => lemma_on_client(b, next.seq, node, req),
            EventView::Compact { node } => lemma_compact_node(b, next.seq, node),
            EventView::Fault { fault } => lemma_apply_fault(b, next.seq, fault),
        }
    }
}

/// So does any number of events.
pub proof fn law_runs_stay_coherent(c: ClusterView, n: nat)
    requires
        coherent(c),
    ensures
        coherent(c.after(n)),
        c.after(n).now >= c.now,
    decreases n,
{
    if n > 0 {
        law_runs_stay_coherent(c, (n - 1) as nat);
        law_every_event_keeps_coherence(c.after((n - 1) as nat));
    }
}

/// A cluster starts out coherent.
pub proof fn law_runs_start_coherent(cfg: SimView)
    requires
        cfg.valid(),
    ensures
        coherent(ClusterView::start(cfg)),
{
    let idle = ClusterView::idle(cfg);
    lemma_primed(cfg, cfg.nodes as nat);
    let up = idle.primed(cfg.nodes as nat);
    assert(coherent(up)) by {
        assert forall|i: int| 0 <= i < up.hosts.len() implies durable(up, #[trigger] up.hosts[i])
            && awake(up.hosts[i]) by {
            assert(primed_host(cfg, up, i));
        }
    }
    match cfg.scripted_faults {
        Some(script) => lemma_scripted(up, script, script.len() as int),
        None => lemma_schedule_next_fault(up),
    }
}

/// The node is as it first starts, but for its timer.
pub open spec fn primed_host(cfg: SimView, c: ClusterView, i: int) -> bool {
    c.hosts[i] == (HostView {
        timer_at: c.hosts[i].timer_at,
        ..crate::cluster_model::first_host(cfg, i)
    })
}

pub(crate) proof fn lemma_primed(cfg: SimView, n: nat)
    requires
        cfg.valid(),
        n <= cfg.nodes,
    ensures
        ({
            let c = ClusterView::idle(cfg).primed(n);
            &&& c.cfg == cfg
            &&& c.now == 0
            &&& c.hosts.len() == cfg.nodes
            &&& forall|i: int| 0 <= i < cfg.nodes ==> #[trigger] primed_host(cfg, c, i)
            &&& forall|i: int| 0 <= i < n ==> (#[trigger] c.hosts[i]).timer_at is Some
            &&& forall|i: int| n <= i < cfg.nodes ==> (#[trigger] c.hosts[i]).timer_at is None
            &&& forall|i: int| 0 <= i < cfg.nodes ==> #[trigger] timed(c, i)
            &&& ahead(c.queue, 0)
            &&& c.outcomes == Seq::<AnswerView>::empty()
            &&& c.answered == Set::<(u32, u64)>::empty()
        }),
    decreases n,
{
    let c = ClusterView::idle(cfg).primed(n);
    if n > 0 {
        lemma_primed(cfg, (n - 1) as nat);
        let before = ClusterView::idle(cfg).primed((n - 1) as nat);
        let node = (n - 1) as u32;
        let at = crate::model::max_of(before.host(node).node.next_deadline(), 1);
        lemma_push(before.queue, 0, at, EventView::Timer { node });
        assert forall|i: int| 0 <= i < cfg.nodes implies #[trigger] primed_host(cfg, c, i) by {
            assert(primed_host(cfg, before, i));
        }
        assert forall|i: int| 0 <= i < cfg.nodes implies #[trigger] timed(c, i) by {
            assert(timed(before, i));
            if i == node {
                assert(timer_pending(c.queue, node, at));
            } else {
                match before.hosts[i].timer_at {
                    Some(t) => lemma_pending_stays(before.queue, c.queue, i as u32, t),
                    None => {},
                }
            }
        }
    }
}

proof fn lemma_scripted(a: ClusterView, script: Seq<(u64, FaultView)>, n: int)
    requires
        coherent(a),
        a.now == 0,
    ensures
        coherent(a.scripted(script, n)),
        a.scripted(script, n).now == 0,
    decreases n,
{
    if n > 0 {
        lemma_scripted(a, script, n - 1);
        lemma_schedule_coherent(
            a.scripted(script, n - 1),
            crate::model::max_of(script[n - 1].0, 1),
            EventView::Fault { fault: script[n - 1].1 },
        );
    }
}

/// Requests from outside keep a cluster coherent: a client's, a fault, the
/// calming of a schedule. So does a membership change asked of a leader that is
/// running, or of any leader where no step is ever torn.
pub proof fn law_requests_keep_coherence(
    c: ClusterView,
    node: u32,
    client: u32,
    seq: u64,
    cmd: CommandView,
    voters: Set<u32>,
    fault: FaultView,
)
    requires
        coherent(c),
    ensures
        coherent(c.submit(node, client, seq, cmd)),
        coherent(c.abandon(client, seq)),
        coherent(c.inject(fault)),
        coherent(c.calmed()),
        c.has(node) && !(c.host(node).status is Crashed) && (c.is_available(node)
            || c.cfg.disk.torn_step_permille == 0) ==> coherent(c.change_membership(node, voters)),
{
    reveal(ClusterView::submit);
    let invoked = ClusterView { history: c.history.invoke(client, seq, cmd, c.now), ..c };
    lemma_same_coherence(c, invoked);
    lemma_schedule_coherent(
        invoked,
        c.now,
        EventView::Client {
            node,
            req: RequestView {
                client,
                seq,
                command: cmd.json().bytes(),
                read_only: cmd.is_read_only(),
            },
        },
    );
    lemma_same_coherence(c, c.abandon(client, seq));
    lemma_disturb(c, c.events_processed, fault);
    lemma_calmed(c);
    if c.has(node) && !(c.host(node).status is Crashed) && (c.is_available(node)
        || c.cfg.disk.torn_step_permille == 0) {
        reveal(ClusterView::change_membership);
        let listed = crate::order::in_order(voters);
        let asked = c.with_stats(
            crate::cluster::RunStats {
                membership_changes: c.stats.membership_changes.saturating_add(1),
                ..c.stats
            },
        ).marked(crate::timeline::MomentView::MembershipChanged { voters: listed }).traced(
            c.events_processed,
            node,
            crate::trace::KindView::MembershipChange { voters: listed },
        );
        lemma_same_coherence(c, asked);
        lemma_coherent_beside(asked, node);
        lemma_deliver(asked, c.events_processed, node, InputView::ChangeMembership(voters));
    }
}

proof fn lemma_calmed(c: ClusterView)
    requires
        coherent(c),
    ensures
        coherent(c.calmed()),
{
    let q = c.queue.without_faults();
    let b = c.calmed();
    crate::event::law_dropping_faults_keeps_the_rest(c.queue);
    lemma_without_faults_ahead(c.queue, c.queue.slots.len() as int, c.now);
    assert forall|i: int| 0 <= i < b.hosts.len() implies durable(b, #[trigger] b.hosts[i]) by {
        assert(durable(c, c.hosts[i]));
    }
    assert forall|i: int| 0 <= i < b.hosts.len() implies #[trigger] timed(b, i) by {
        assert(timed(c, i));
        match c.hosts[i].timer_at {
            Some(at) => {
                let k = choose|k: int|
                    0 <= k < c.queue.slots.len() && (#[trigger] c.queue.slots[k]).tick == at
                        && c.queue.slots[k].event == (EventView::Timer { node: i as u32 });
                let s = c.queue.slots[k];
                assert(c.queue.slots.contains(s));
                assert(q.slots.contains(s));
                let j = choose|j: int| 0 <= j < q.slots.len() && q.slots[j] == s;
                assert(q.slots[j].tick == at);
            },
            None => {},
        }
    }
}

proof fn lemma_without_faults_ahead(q: QueueView, n: int, now: u64)
    requires
        ahead(q, now),
        0 <= n <= q.slots.len(),
    ensures
        ({
            let kept = crate::event::without_faults(q.slots, n);
            &&& ahead(QueueView { slots: kept, ..q }, now)
            &&& forall|i: int|
                0 <= i < kept.len() ==> n > 0 && (#[trigger] kept[i]).tick <= q.slots[n - 1].tick
        }),
    decreases n,
{
    if n > 0 {
        lemma_without_faults_ahead(q, n - 1, now);
        let before = crate::event::without_faults(q.slots, n - 1);
        let kept = crate::event::without_faults(q.slots, n);
        let b = QueueView { slots: before, ..q };
        assert(ahead(b, now));
        assert forall|i: int| 0 <= i < kept.len() implies (#[trigger] kept[i]).tick
            <= q.slots[n - 1].tick && now <= kept[i].tick by {
            if i < before.len() {
                assert(before[i].tick <= q.slots[n - 2].tick);
                assert(b.slots[i].tick >= now);
                assert(q.slots[n - 2].tick <= q.slots[n - 1].tick);
            }
        }
        assert forall|i: int, j: int| 0 <= i <= j < kept.len() implies (#[trigger] kept[i]).tick
            <= (#[trigger] kept[j]).tick by {
            if j < before.len() {
                assert(b.slots[i].tick <= b.slots[j].tick);
            }
        }
    }
}

/// A run never stalls: while any node is up there is an event to come.
pub proof fn law_runs_never_stall(c: ClusterView, i: int)
    requires
        coherent(c),
        0 <= i < c.hosts.len(),
        !(c.hosts[i].status is Crashed),
    ensures
        c.queue.slots.len() > 0,
{
    assert(awake(c.hosts[i]));
    assert(timed(c, i));
}

/// A client never hears twice about the same request.
pub proof fn law_requests_are_answered_once(c: ClusterView, i: int, j: int)
    requires
        coherent(c),
        0 <= i < j < c.outcomes.len(),
        c.outcomes[i].result is Applied,
        c.outcomes[j].result is Applied,
    ensures
        (c.outcomes[i].client, c.outcomes[i].seq) != (c.outcomes[j].client, c.outcomes[j].seq),
{
}

/// What reaches one node leaves all the others alone.
pub proof fn law_events_touch_one_node(c: ClusterView, node: u32, i: int)
    requires
        coherent(c),
        c.queue.slots.len() > 0,
        match c.queue.slots[0].event {
            EventView::Timer { node: n } => n == node,
            EventView::Deliver { from, to, msg, sent_at } => to == node,
            EventView::Client { node: n, req } => n == node,
            EventView::Compact { node: n } => n == node,
            EventView::Fault { fault } => false,
        },
        0 <= i < c.hosts.len(),
        i != node,
    ensures
        c.step().hosts[i] == c.hosts[i],
{
    reveal(ClusterView::step);
    reveal(ClusterView::on_event);
    let next = c.queue.slots[0];
    let b = ClusterView {
        queue: c.queue.rest(),
        now: next.tick,
        events_processed: c.events_processed.saturating_add(1),
        ..c
    };
    lemma_pop(c);
    match next.event {
        EventView::Timer { node } => {
            if b.has(node) {
                lemma_on_timer(b, next.seq, node);
            } else {
                reveal(ClusterView::on_timer);
            }
        },
        EventView::Deliver { from, to, msg, sent_at } => lemma_on_delivery(
            b,
            next.seq,
            from,
            to,
            msg,
            sent_at,
        ),
        EventView::Client { node, req } => lemma_on_client(b, next.seq, node, req),
        EventView::Compact { node } => lemma_compact_node(b, next.seq, node),
        EventView::Fault { fault } => {},
    }
    assert(b.hosts[i] == c.hosts[i]);
}

/// A crashed node does nothing: until something restarts it, no timer, message,
/// request or compaction changes what it held, what is on its disk, or what its
/// state machine had applied.
pub proof fn law_crashed_nodes_do_nothing(c: ClusterView, i: int)
    requires
        coherent(c),
        c.queue.slots.len() > 0,
        !(c.queue.slots[0].event is Fault),
        0 <= i < c.hosts.len(),
        c.hosts[i].status is Crashed,
    ensures
        c.step().hosts[i] == (HostView {
            timer_at: c.step().hosts[i].timer_at,
            compacting: c.step().hosts[i].compacting,
            ..c.hosts[i]
        }),
{
    reveal(ClusterView::step);
    reveal(ClusterView::on_event);
    let node = match c.queue.slots[0].event {
        EventView::Timer { node } => node,
        EventView::Deliver { from, to, msg, sent_at } => to,
        EventView::Client { node, req } => node,
        EventView::Compact { node } => node,
        EventView::Fault { fault } => 0,
    };
    if i != node {
        law_events_touch_one_node(c, node, i);
    } else {
        reveal(ClusterView::on_timer);
        reveal(ClusterView::on_delivery);
        reveal(ClusterView::on_client);
        reveal(ClusterView::compact_node);
    }
}

/// A message to a node that is paused waits until that wakes up, and is still
/// the message that was handed to the network when it was.
pub proof fn law_messages_wait_for_paused_nodes(c: ClusterView)
    requires
        c.queue.slots.len() > 0,
        c.queue.slots[0].event matches EventView::Deliver { from, to, msg, sent_at } && c.has(to)
            && c.host(to).status is Paused,
    ensures
        ({
            let next = c.queue.slots[0];
            let to = next.event->to;
            let until = c.host(to).status->until;
            let d = c.step();
            &&& d.now == next.tick
            &&& d.hosts == c.hosts
            &&& d.queue == c.queue.rest().push(
                crate::model::max_of(until, next.tick.saturating_add(1)),
                next.event,
            )
            &&& d.stats.messages_deferred == c.stats.messages_deferred.saturating_add(1)
        }),
{
    reveal(ClusterView::step);
    reveal(ClusterView::on_event);
    reveal(ClusterView::on_delivery);
}

/// A crash loses what is in memory and nothing else: the disk is as it was, and
/// so is every other node. A restart rebuilds the node from that disk.
pub proof fn law_crashes_keep_the_disk(c: ClusterView, node: u32, seq: u64)
    requires
        coherent(c),
        c.is_available(node),
    ensures
        ({
            let down = c.crash_node(seq, node);
            let back = down.restart_node(seq, node);
            &&& down.host(node).status is Crashed
            &&& down.host(node).disk == c.host(node).disk
            &&& forall|i: int|
                0 <= i < c.hosts.len() && i != node ==> #[trigger] down.hosts[i] == c.hosts[i]
            &&& down.can_restart(node) && !c.cfg.raft.bugs.skip_hard_state_persistence ==> {
                &&& back.host(node).status is Running
                &&& back.host(node).node.current_term == c.host(node).node.current_term
                &&& back.host(node).node.voted_for == c.host(node).node.voted_for
                &&& back.host(node).node.snapshot == c.host(node).node.snapshot
                &&& back.host(node).disk == c.host(node).disk.recovered(
                    !c.cfg.raft.bugs.skip_snapshot_reconcile,
                )
                &&& back.host(node).node.log == back.host(node).disk.log
            }
        }),
{
    lemma_coherent_beside(c, node);
    lemma_crash_node(c, seq, node);
    let down = c.crash_node(seq, node);
    assert(timed(down, node as int));
    lemma_restart_node(down, seq, node);
    reveal(ClusterView::restart_node);
    reveal(ClusterView::rearm_timer);
    crate::storage::law_recovery_is_idempotent(
        c.host(node).disk,
        !c.cfg.raft.bugs.skip_snapshot_reconcile,
    );
}

pub(crate) proof fn lemma_after_after(c: ClusterView, n: nat, k: nat)
    ensures
        c.after(n).after(k) == c.after(n + k),
    decreases k,
{
    if k > 0 {
        lemma_after_after(c, n, (k - 1) as nat);
    }
}

/// Letting time pass does not change what happens next.
proof fn lemma_later(c: ClusterView, d: u64, k: nat)
    requires
        k > 0,
        c.queue.slots.len() > 0,
    ensures
        c.at_least(d).after(k) == c.after(k),
    decreases k,
{
    if k == 1 {
        reveal(ClusterView::step);
        reveal_with_fuel(ClusterView::after, 2);
        let next = c.queue.slots[0];
        assert(ClusterView {
            queue: c.at_least(d).queue.rest(),
            now: next.tick,
            events_processed: c.events_processed.saturating_add(1),
            ..c.at_least(d)
        } == ClusterView {
            queue: c.queue.rest(),
            now: next.tick,
            events_processed: c.events_processed.saturating_add(1),
            ..c
        });
    } else {
        lemma_later(c, d, (k - 1) as nat);
    }
}

/// A run to a deadline can stop on the way: it gets to the same place.
pub proof fn law_runs_can_be_split(c: ClusterView, first: u64, last: u64, n: nat, m: nat)
    requires
        first <= last,
        c.runs_for(first, n),
        c.runs_for(last, m),
    ensures
        c.ran_until(first).ran_until(last) == c.ran_until(last),
{
    crate::cluster_model::law_runs_are_determined(c, first, n, c.events_until(first));
    crate::cluster_model::law_runs_are_determined(c, last, m, c.events_until(last));
    assert(n <= m) by {
        if m < n {
            assert(c.after(m).busy_until(first));
            assert(c.after(m).busy_until(last));
        }
    }
    let mid = c.after(n);
    let x = mid.at_least(first);
    let k = (m - n) as nat;
    assert forall|j: nat| j < k implies (#[trigger] x.after(j)).busy_until(last) by {
        assert(c.after(n + j).busy_until(last));
        lemma_after_after(c, n, j);
        if j > 0 {
            assert(c.after(n).busy_until(last));
            lemma_later(mid, first, j);
        }
    }
    lemma_after_after(c, n, k);
    if k > 0 {
        assert(c.after(n).busy_until(last));
        lemma_later(mid, first, k);
    }
    assert(x.runs_for(last, k));
    crate::cluster_model::law_runs_are_determined(x, last, k, x.events_until(last));
}

} // verus!
