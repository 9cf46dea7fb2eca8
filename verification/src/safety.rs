//! Whatever happens, a cluster stays safe.
//!
//! Crashes, torn writes, partitions, lost, late and repeated messages, changes
//! of the membership: through all of them there is a
//! [`Chronicle`](crate::chronicle::Chronicle) to which every node, every disk
//! and every message in flight is true. It follows that a term has one leader,
//! that logs match, that no two nodes ever apply different commands at the same
//! index, and that the safety checker never has anything to report.
use crate::chronicle::{holds, Chronicle, Past};
use crate::cluster::NodeStatus;
use crate::cluster_laws::{beside, coherent, coherent_beside, durable};
use crate::cluster_model::{AppliedView, ClusterView, HostView, SimView};
use crate::event::{EventView, QueueView};
use crate::faults::FaultView;
use crate::invariants::{or_zero, CheckerView};
use crate::kv::CommandView;
use crate::log::{EntryView, PayloadView};
use crate::member::{final_at, honest, informed, recorded, Ending};
use crate::message::MessageView;
use crate::model::{InputView, NodeView, OutputView, PersistView, ReadView, RequestView};
use crate::network::Routed;
use crate::node::BugSwitches;
use crate::snapshot::SnapshotView;
use crate::storage::DiskView;
use crate::watch::{asked, known_true};
use vstd::prelude::*;

verus! {

// ---------------------------------------------------------------------------
// What is true of a cluster
// ---------------------------------------------------------------------------

/// The message in this event, if there is one, says what is true.
pub open spec fn event_true(h: Chronicle, event: EventView) -> bool {
    event matches EventView::Deliver { from, to, msg, sent_at } ==> honest(h, from, to, msg)
}

pub open spec fn mail_true(h: Chronicle, q: QueueView) -> bool {
    forall|k: int| 0 <= k < q.slots.len() ==> event_true(h, (#[trigger] q.slots[k]).event)
}

/// What was applied is committed at its index.
pub open spec fn applied_true(h: Chronicle, a: AppliedView) -> bool {
    exists|payload: PayloadView| #[trigger]
        final_at(h, a.index, a.term, payload) && a.command == asked(payload)
}

pub open spec fn all_applied_true(h: Chronicle, applied: Seq<AppliedView>) -> bool {
    forall|j: int| 0 <= j < applied.len() ==> applied_true(h, #[trigger] applied[j])
}

/// One node's part: its disk, what it applied and, while it is up, what it
/// knows.
pub open spec fn host_true(h: Chronicle, i: int, host: HostView, x: Seq<EntryView>) -> bool {
    &&& recorded(h, i as u32, host.disk, x)
    &&& all_applied_true(h, host.applied)
    &&& !(host.status is Crashed) ==> host.node.id == i && informed(h, host.node, x)
}

/// What the safety checker has noted of a node is behind where the node is. What
/// it has noted as applied there, if it is told, is right.
pub open spec fn host_watched(c: ClusterView, i: int) -> bool {
    let host = c.hosts[i];
    let v = i as u32;
    &&& or_zero(c.checker.max_term, v) <= host.disk.current_term
    &&& !(host.status is Crashed) ==> {
        &&& or_zero(c.checker.commit_watermark, v) <= host.node.commit_index
        &&& c.cfg.check_invariants ==> or_zero(c.checker.applied_watermark, v)
            == host.node.last_applied
    }
}

/// All of it is true to this chronicle.
pub open spec fn told_by(c: ClusterView, h: Chronicle, logs: Seq<Seq<EntryView>>) -> bool {
    &&& h.true_to_raft()
    &&& h.first == c.cfg.initial_config()
    &&& c.cfg.raft.bugs == BugSwitches::none()
    &&& c.hosts.len() <= u32::MAX
    &&& logs.len() == c.hosts.len()
    &&& forall|i: int| 0 <= i < c.hosts.len() ==> host_true(h, i, #[trigger] c.hosts[i], logs[i])
    &&& mail_true(h, c.queue)
    &&& known_true(h, c.checker)
    &&& forall|i: int| 0 <= i < c.hosts.len() ==> #[trigger] host_watched(c, i)
}

/// The cluster is coherent, and there is a chronicle of its run.
pub open spec fn safe(c: ClusterView) -> bool {
    coherent(c) && exists|h: Chronicle, logs: Seq<Seq<EntryView>>| #[trigger] told_by(c, h, logs)
}

// ---------------------------------------------------------------------------
// What stays true
// ---------------------------------------------------------------------------

proof fn lemma_mail_stays(h: Chronicle, later: Chronicle, q: QueueView)
    requires
        h.true_to_raft(),
        h.extends(later),
        mail_true(h, q),
    ensures
        mail_true(later, q),
{
    assert forall|k: int| 0 <= k < q.slots.len() implies event_true(
        later,
        (#[trigger] q.slots[k]).event,
    ) by {
        match q.slots[k].event {
            EventView::Deliver { from, to, msg, sent_at } => crate::member::lemma_honest_stays(
                h,
                later,
                from,
                to,
                msg,
            ),
            _ => {},
        }
    }
}

proof fn lemma_applied_stays(h: Chronicle, later: Chronicle, applied: Seq<AppliedView>)
    requires
        h.true_to_raft(),
        h.extends(later),
        all_applied_true(h, applied),
    ensures
        all_applied_true(later, applied),
{
    assert forall|j: int| 0 <= j < applied.len() implies applied_true(
        later,
        #[trigger] applied[j],
    ) by {
        let a = applied[j];
        assert(applied_true(h, a));
        let payload = choose|payload: PayloadView| #[trigger]
            final_at(h, a.index, a.term, payload) && a.command == asked(payload);
        crate::member::lemma_final_stays(h, later, a.index, a.term, payload);
    }
}

proof fn lemma_host_stays(
    h: Chronicle,
    later: Chronicle,
    node: u32,
    i: int,
    host: HostView,
    x: Seq<EntryView>,
)
    requires
        h.true_to_raft(),
        h.extends(later),
        h.made_by(later, node),
        0 <= i <= u32::MAX,
        i != node,
        host_true(h, i, host, x),
    ensures
        host_true(later, i, host, x),
{
    crate::member::lemma_others_silent(h, later, node, i as u32);
    crate::member::lemma_recorded_stays(h, later, i as u32, host.disk, x);
    lemma_applied_stays(h, later, host.applied);
    if !(host.status is Crashed) {
        crate::member::lemma_informed_stays(h, later, node, host.node, x);
    }
}

/// The checker has noted nothing new of other nodes.
pub open spec fn others_kept(a: CheckerView, b: CheckerView, node: u32) -> bool {
    forall|v: u32|
        #![trigger or_zero(b.max_term, v)]
        #![trigger or_zero(b.commit_watermark, v)]
        #![trigger or_zero(b.applied_watermark, v)]
        v != node ==> {
            &&& or_zero(b.max_term, v) == or_zero(a.max_term, v)
            &&& or_zero(b.commit_watermark, v) == or_zero(a.commit_watermark, v)
            &&& or_zero(b.applied_watermark, v) == or_zero(a.applied_watermark, v)
        }
}

/// One node's doing, told by a longer chronicle.
proof fn lemma_told_on(
    a: ClusterView,
    b: ClusterView,
    h: Chronicle,
    later: Chronicle,
    logs: Seq<Seq<EntryView>>,
    node: u32,
    y: Seq<EntryView>,
)
    requires
        told_by(a, h, logs),
        later.true_to_raft(),
        h.extends(later),
        h.made_by(later, node),
        a.has(node),
        b.cfg == a.cfg,
        b.hosts.len() == a.hosts.len(),
        forall|i: int|
            0 <= i < a.hosts.len() && i != node ==> #[trigger] b.hosts[i] == a.hosts[i],
        host_true(later, node as int, b.host(node), y),
        mail_true(later, b.queue),
        known_true(later, b.checker),
        others_kept(a.checker, b.checker, node),
        host_watched(b, node as int),
    ensures
        told_by(b, later, logs.update(node as int, y)),
{
    let after = logs.update(node as int, y);
    assert forall|i: int| 0 <= i < b.hosts.len() implies host_true(
        later,
        i,
        #[trigger] b.hosts[i],
        after[i],
    ) by {
        if i != node {
            assert(host_true(h, i, a.hosts[i], logs[i]));
            lemma_host_stays(h, later, node, i, a.hosts[i], logs[i]);
        }
    }
    assert forall|i: int| 0 <= i < b.hosts.len() implies #[trigger] host_watched(b, i) by {
        if i != node {
            assert(host_watched(a, i));
            assert(b.hosts[i] == a.hosts[i]);
            let v = i as u32;
            assert(v != node);
            assert(or_zero(b.checker.max_term, v) == or_zero(a.checker.max_term, v));
        }
    }
}

/// Nothing that is said to be true here changed but the mail.
proof fn lemma_told_same(a: ClusterView, b: ClusterView, h: Chronicle, logs: Seq<Seq<EntryView>>)
    requires
        told_by(a, h, logs),
        b.cfg.raft == a.cfg.raft,
        b.cfg.initial_config() == a.cfg.initial_config(),
        b.cfg.check_invariants == a.cfg.check_invariants,
        b.hosts == a.hosts,
        b.checker == a.checker,
        mail_true(h, b.queue),
    ensures
        told_by(b, h, logs),
{
    assert forall|i: int| 0 <= i < b.hosts.len() implies host_true(
        h,
        i,
        #[trigger] b.hosts[i],
        logs[i],
    ) by {
        assert(host_true(h, i, a.hosts[i], logs[i]));
    }
    assert forall|i: int| 0 <= i < b.hosts.len() implies #[trigger] host_watched(b, i) by {
        assert(host_watched(a, i));
    }
}

// ---------------------------------------------------------------------------
// The mail
// ---------------------------------------------------------------------------

proof fn lemma_push_true(h: Chronicle, q: QueueView, at: u64, event: EventView)
    requires
        mail_true(h, q),
        event_true(h, event),
    ensures
        mail_true(h, q.push(at, event)),
{
    let p = q.push(at, event);
    let k = crate::event::due(q.slots, at) as int;
    crate::event::lemma_due(q.slots, at);
    assert forall|i: int| 0 <= i < p.slots.len() implies event_true(
        h,
        (#[trigger] p.slots[i]).event,
    ) by {
        if i < k {
            assert(p.slots[i] == q.slots[i]);
        } else if i > k {
            assert(p.slots[i] == q.slots[i - 1]);
        }
    }
}

/// From `a` to `b`, the mail stays true, and of the node's host nothing changed
/// that is said to be true here.
spec fn passes(h: Chronicle, a: ClusterView, b: ClusterView, node: u32) -> bool {
    &&& mail_true(h, a.queue) ==> mail_true(h, b.queue)
    &&& b.host(node).node == a.host(node).node
    &&& b.host(node).disk == a.host(node).disk
    &&& b.host(node).applied == a.host(node).applied
    &&& b.host(node).status == a.host(node).status
    &&& b.cfg == a.cfg
}

proof fn lemma_rearm_passes(h: Chronicle, a: ClusterView, node: u32)
    requires
        a.has(node),
    ensures
        passes(h, a, a.rearm_timer(node), node),
        a.rearm_timer(node).checker == a.checker,
{
    reveal(ClusterView::rearm_timer);
    if mail_true(h, a.queue) {
        let soonest = a.now.saturating_add(1);
        match a.host(node).status {
            NodeStatus::Crashed => {},
            NodeStatus::Paused { until } => lemma_push_true(
                h,
                a.queue,
                crate::model::max_of(until, soonest),
                EventView::Timer { node },
            ),
            NodeStatus::Running => lemma_push_true(
                h,
                a.queue,
                crate::model::max_of(
                    a.global_time(node, a.host(node).node.next_deadline()),
                    soonest,
                ),
                EventView::Timer { node },
            ),
        }
    }
}

proof fn lemma_mirror_passes(h: Chronicle, c: ClusterView, from: int, to: int)
    ensures
        c.mirror(from, to).queue == c.queue,
        c.mirror(from, to).hosts == c.hosts,
        c.mirror(from, to).cfg == c.cfg,
        c.mirror(from, to).checker == c.checker,
    decreases to - from,
{
    if to > from {
        lemma_mirror_passes(h, c, from, to - 1);
    }
}

proof fn lemma_observe_passes(h: Chronicle, c: ClusterView, node: u32, dirty: Option<u64>)
    ensures
        passes(h, c, c.observe(node, dirty), node),
        c.observe(node, dirty).checker == (if c.cfg.check_invariants {
            c.checker.observe_node(c.now, c.host(node).node, dirty)
        } else {
            c.checker
        }),
{
    reveal(ClusterView::observe);
    if c.cfg.check_invariants {
        let seen = ClusterView {
            checker: c.checker.observe_node(c.now, c.host(node).node, dirty),
            ..c
        };
        lemma_mirror_passes(
            h,
            seen,
            c.checker.violations.len() as int,
            seen.checker.violations.len() as int,
        );
    }
}

proof fn lemma_compaction_passes(h: Chronicle, a: ClusterView, node: u32)
    requires
        a.has(node),
    ensures
        passes(h, a, a.consider_compaction(node), node),
        a.consider_compaction(node).checker == a.checker,
{
    reveal(ClusterView::consider_compaction);
    if mail_true(h, a.queue) {
        lemma_push_true(h, a.queue, a.now.saturating_add(1), EventView::Compact { node });
    }
}

/// What the checker makes of an output of a node that is in order.
proof fn lemma_emit_watched(
    h: Chronicle,
    a: ClusterView,
    seq: u64,
    node: u32,
    output: OutputView,
    commit: u64,
    top: u64,
)
    requires
        h.true_to_raft(),
        a.has(node),
        known_true(h, a.checker),
        or_zero(a.checker.commit_watermark, node) <= top,
        match output {
            OutputView::Apply { index, term, payload, client, respond } => final_at(
                h,
                index,
                term,
                payload,
            ) && (a.cfg.check_invariants ==> index == or_zero(a.checker.applied_watermark, node)
                + 1),
            OutputView::Persist(PersistView::TruncateFrom(i)) => i > commit,
            OutputView::RestoreSnapshot { snapshot } => snapshot.last_included.index <= top,
            _ => true,
        },
    ensures
        ({
            let b = a.emit(seq, node, output, commit);
            let was = or_zero(a.checker.applied_watermark, node);
            let is = or_zero(b.checker.applied_watermark, node);
            &&& known_true(h, b.checker)
            &&& others_kept(a.checker, b.checker, node)
            &&& b.checker.max_term == a.checker.max_term
            &&& or_zero(b.checker.commit_watermark, node) <= top
            &&& a.cfg.check_invariants ==> is == (match output {
                OutputView::Apply { index, term, payload, client, respond } => index,
                OutputView::RestoreSnapshot { snapshot } => crate::model::max_of(
                    was,
                    snapshot.last_included.index,
                ),
                _ => was,
            })
        }),
{
    reveal(ClusterView::emit);
    match output {
        OutputView::Persist(op) => {
            reveal(ClusterView::persist);
            reveal(ClusterView::note_truncation);
        },
        OutputView::Send { to, msg } => {
            reveal(ClusterView::send);
        },
        OutputView::Apply { index, term, payload, client, respond } => {
            reveal(ClusterView::apply_entry);
            reveal(ClusterView::record_outcome);
            if a.cfg.check_invariants {
                crate::watch::lemma_watch_apply(
                    h,
                    a.checker,
                    a.now,
                    node,
                    index,
                    term,
                    payload,
                );
            }
        },
        OutputView::ServeRead { client, seq: client_seq, command, read_index } => {
            reveal(ClusterView::serve_read);
            reveal(ClusterView::record_outcome);
        },
        OutputView::RestoreSnapshot { snapshot } => {
            reveal(ClusterView::install);
        },
        OutputView::ClientResponse { client, seq: client_seq, result } => {
            reveal(ClusterView::record_outcome);
        },
    }
}

/// Entries are discarded only behind what is committed.
spec fn cuts_behind(outputs: Seq<OutputView>, n: int, commit: u64) -> bool {
    forall|k: int|
        0 <= k < n ==> (#[trigger] outputs[k] matches OutputView::Persist(
            PersistView::TruncateFrom(i),
        ) ==> i > commit)
}

proof fn lemma_emit_all_watched(
    h: Chronicle,
    a: ClusterView,
    seq: u64,
    node: u32,
    outputs: Seq<OutputView>,
    n: int,
    commit: u64,
    from: u64,
    top: u64,
)
    requires
        h.true_to_raft(),
        a.has(node),
        0 <= n <= outputs.len(),
        known_true(h, a.checker),
        outputs_true(h, node, outputs, n),
        cuts_behind(outputs, n, commit),
        crate::pace::in_turn(outputs, n, from, top),
        or_zero(a.checker.commit_watermark, node) <= top,
        a.cfg.check_invariants ==> or_zero(a.checker.applied_watermark, node) == from,
    ensures
        ({
            let b = a.emit_all(seq, node, outputs, n, commit);
            &&& known_true(h, b.checker)
            &&& others_kept(a.checker, b.checker, node)
            &&& b.checker.max_term == a.checker.max_term
            &&& or_zero(b.checker.commit_watermark, node) <= top
            &&& a.cfg.check_invariants ==> or_zero(b.checker.applied_watermark, node)
                == crate::pace::reached_by(outputs, n, from)
        }),
    decreases n,
{
    if n > 0 {
        lemma_emit_all_watched(h, a, seq, node, outputs, n - 1, commit, from, top);
        crate::cluster_laws::lemma_emit_all(a, seq, node, outputs, n - 1, commit);
        let before = a.emit_all(seq, node, outputs, n - 1, commit);
        assert(crate::pace::next_in_turn(outputs, n - 1, from, top));
        assert(outputs[n - 1] matches OutputView::Persist(PersistView::TruncateFrom(i)) ==> i
            > commit);
        lemma_emit_watched(h, before, seq, node, outputs[n - 1], commit, top);
        let b = before.emit(seq, node, outputs[n - 1], commit);
        assert forall|v: u32|
            #![trigger or_zero(b.checker.max_term, v)]
            #![trigger or_zero(b.checker.commit_watermark, v)]
            #![trigger or_zero(b.checker.applied_watermark, v)]
            v != node implies {
            &&& or_zero(b.checker.max_term, v) == or_zero(a.checker.max_term, v)
            &&& or_zero(b.checker.commit_watermark, v) == or_zero(a.checker.commit_watermark, v)
            &&& or_zero(b.checker.applied_watermark, v) == or_zero(a.checker.applied_watermark, v)
        } by {
            assert(or_zero(before.checker.max_term, v) == or_zero(a.checker.max_term, v));
        }
    }
}

/// A step discards nothing that is committed.
proof fn lemma_cuts_behind(
    h: Chronicle,
    node: NodeView,
    disk: DiskView,
    x: Seq<EntryView>,
    input: InputView,
    now: u64,
    o: Ending,
)
    requires
        h.true_to_raft(),
        h.settled(node.current_term, x, node.commit_index as int),
        node.accepts(input, now),
        crate::member::ended(h, disk, x, node.turn(input, now), o),
    ensures
        cuts_behind(
            node.step_outputs(input, now),
            node.step_outputs(input, now).len() as int,
            node.commit_index,
        ),
{
    crate::node_laws::lemma_turn(node, input, now);
    let t = node.turn(input, now);
    let outputs = node.step_outputs(input, now);
    let a = t.hard_state().len() as int;
    let n = a + t.out.persists.len();
    let m = n + t.out.sends.len();
    let old = node.commit_index as int;
    let new = t.node.commit_index as int;
    crate::chronicle::lemma_settled_stays(
        h,
        o.end,
        node.current_term,
        node.current_term,
        x,
        old,
    );
    assert forall|k: int| 0 <= k < outputs.len() implies (
    #[trigger] outputs[k] matches OutputView::Persist(PersistView::TruncateFrom(i)) ==> i
        > node.commit_index) by {
        if k < a {
            assert(outputs[k] == t.hard_state()[k]);
        } else if k < n {
            assert(outputs[k] == t.out.persists[k - a]);
            match outputs[k] {
                OutputView::Persist(PersistView::TruncateFrom(i)) => {
                    if i <= node.commit_index {
                        let (u, j) = choose|u: u64, j: int| #[trigger]
                            o.end.committed(u, j) && u <= node.current_term && old <= j && holds(
                                x,
                                o.end.led(u),
                                old,
                            );
                        let (w, l) = choose|w: u64, l: int| #[trigger]
                            o.end.committed(w, l) && w <= t.node.current_term && new <= l && holds(
                                o.x,
                                o.end.led(w),
                                new,
                            );
                        crate::chronicle::lemma_committed_agree(o.end, u, j, w, l);
                        crate::chronicle::lemma_holds_less(x, o.end.led(u), old, old);
                        crate::chronicle::lemma_holds_less(o.x, o.end.led(w), new, new);
                        assert(x[i - 1] == o.end.led(u)[i - 1]);
                        assert(o.x[i - 1] == o.end.led(w)[i - 1]);
                        assert(o.end.led(u)[i - 1] == o.end.led(w)[i - 1]);
                    }
                },
                _ => {},
            }
        } else if k < m {
            assert(outputs[k] == t.out.sends[k - n]);
            assert(t.out.sends[k - n] is Send);
        } else {
            assert(outputs[k] == t.out.effects[k - m]);
            assert(crate::node_laws::is_effect(t.out.effects[k - m]));
        }
    }
}

/// One output takes effect.
proof fn lemma_emit_true(
    h: Chronicle,
    a: ClusterView,
    seq: u64,
    node: u32,
    output: OutputView,
    commit: u64,
)
    requires
        a.has(node),
        mail_true(h, a.queue),
        all_applied_true(h, a.host(node).applied),
        output matches OutputView::Send { to, msg } ==> honest(h, node, to, msg),
        output matches OutputView::Apply { index, term, payload, client, respond } ==> final_at(
            h,
            index,
            term,
            payload,
        ),
    ensures
        ({
            let b = a.emit(seq, node, output, commit);
            &&& mail_true(h, b.queue)
            &&& all_applied_true(h, b.host(node).applied)
        }),
{
    reveal(ClusterView::emit);
    let b = a.emit(seq, node, output, commit);
    match output {
        OutputView::Persist(op) => {
            reveal(ClusterView::persist);
            reveal(ClusterView::note_truncation);
        },
        OutputView::Send { to, msg } => {
            reveal(ClusterView::send);
            let (routed, net, net_rng) = a.net.route(a.now, (node, to), a.net_rng);
            let event = EventView::Deliver { from: node, to, msg, sent_at: a.now };
            match routed {
                Routed::Once(at) => lemma_push_true(h, a.queue, at, event),
                Routed::Twice(first, second) => {
                    lemma_push_true(h, a.queue, first, event);
                    lemma_push_true(h, a.queue.push(first, event), second, event);
                },
                _ => {},
            }
        },
        OutputView::Apply { index, term, payload, client, respond } => {
            reveal(ClusterView::apply_entry);
            reveal(ClusterView::record_outcome);
            let new = AppliedView { index, term, command: asked(payload) };
            assert(b.host(node).applied == a.host(node).applied.push(new));
            assert(final_at(h, new.index, new.term, payload));
            assert(applied_true(h, new));
            assert forall|j: int|
                0 <= j < b.host(node).applied.len() implies applied_true(
                h,
                #[trigger] b.host(node).applied[j],
            ) by {
                if j < a.host(node).applied.len() {
                    assert(b.host(node).applied[j] == a.host(node).applied[j]);
                }
            }
        },
        OutputView::ServeRead { client, seq: client_seq, command, read_index } => {
            reveal(ClusterView::serve_read);
            reveal(ClusterView::record_outcome);
        },
        OutputView::RestoreSnapshot { snapshot } => {
            reveal(ClusterView::install);
        },
        OutputView::ClientResponse { client, seq: client_seq, result } => {
            reveal(ClusterView::record_outcome);
        },
    }
}

/// These outputs say and do only what is true.
spec fn outputs_true(h: Chronicle, node: u32, outputs: Seq<OutputView>, n: int) -> bool {
    forall|k: int|
        0 <= k < n ==> {
            &&& #[trigger] outputs[k] matches OutputView::Send { to, msg } ==> honest(
                h,
                node,
                to,
                msg,
            )
            &&& crate::member::effect_true(h, node, outputs[k])
        }
}

proof fn lemma_emit_all_true(
    h: Chronicle,
    a: ClusterView,
    seq: u64,
    node: u32,
    outputs: Seq<OutputView>,
    n: int,
    commit: u64,
)
    requires
        a.has(node),
        n <= outputs.len(),
        mail_true(h, a.queue),
        all_applied_true(h, a.host(node).applied),
        outputs_true(h, node, outputs, n),
    ensures
        ({
            let b = a.emit_all(seq, node, outputs, n, commit);
            &&& mail_true(h, b.queue)
            &&& all_applied_true(h, b.host(node).applied)
        }),
    decreases n,
{
    if n > 0 {
        lemma_emit_all_true(h, a, seq, node, outputs, n - 1, commit);
        crate::cluster_laws::lemma_emit_all(a, seq, node, outputs, n - 1, commit);
        assert(outputs[n - 1] matches OutputView::Send { to, msg } ==> honest(h, node, to, msg));
        lemma_emit_true(
            h,
            a.emit_all(seq, node, outputs, n - 1, commit),
            seq,
            node,
            outputs[n - 1],
            commit,
        );
    }
}

// ---------------------------------------------------------------------------
// A step
// ---------------------------------------------------------------------------

proof fn lemma_writes_first(outputs: Seq<OutputView>, i: int, n: int)
    requires
        0 <= i <= n <= outputs.len(),
        forall|k: int| n <= k < outputs.len() ==> !(#[trigger] outputs[k] is Persist),
    ensures
        i + crate::cluster_model::writes_from(outputs, i) <= n,
        forall|k: int|
            i <= k < i + crate::cluster_model::writes_from(outputs, i)
                ==> #[trigger] outputs[k] is Persist,
    decreases n - i,
{
    if i < outputs.len() && outputs[i] is Persist {
        if i == n {
            assert(!(outputs[n] is Persist));
        }
        lemma_writes_first(outputs, i + 1, n);
    }
}

/// Of a step's outputs the writes come first.
proof fn lemma_outputs_shape(node: NodeView, input: InputView, now: u64)
    requires
        node.accepts(input, now),
    ensures
        ({
            let t = node.turn(input, now);
            let outputs = node.step_outputs(input, now);
            let n = (t.hard_state().len() + t.out.persists.len()) as int;
            &&& n <= outputs.len()
            &&& forall|k: int| n <= k < outputs.len() ==> !(#[trigger] outputs[k] is Persist)
            &&& forall|k: int| 0 <= k < n ==> #[trigger] outputs[k] is Persist
        }),
{
    crate::node_laws::lemma_turn(node, input, now);
    let t = node.turn(input, now);
    let outputs = node.step_outputs(input, now);
    let h = t.hard_state().len() as int;
    let n = h + t.out.persists.len();
    let m = n + t.out.sends.len();
    assert forall|k: int| 0 <= k < outputs.len() implies (k < n) == (#[trigger] outputs[k]
        is Persist) by {
        if k < h {
            assert(outputs[k] == t.hard_state()[k]);
        } else if k < n {
            assert(outputs[k] == t.out.persists[k - h]);
            assert(crate::node_laws::is_log_write(t.out.persists[k - h]));
        } else if k < m {
            assert(outputs[k] == t.out.sends[k - n]);
            assert(t.out.sends[k - n] is Send);
        } else {
            assert(outputs[k] == t.out.effects[k - m]);
            assert(crate::node_laws::is_effect(t.out.effects[k - m]));
        }
    }
}

/// What a turn says and does, its outputs do.
proof fn lemma_outputs_true(
    h: Chronicle,
    node: NodeView,
    input: InputView,
    now: u64,
    x: Seq<EntryView>,
)
    requires
        node.accepts(input, now),
        crate::member::fine(h, node.turn(input, now), x),
        node.turn(input, now).node.id == node.id,
    ensures
        outputs_true(
            h,
            node.id,
            node.step_outputs(input, now),
            node.step_outputs(input, now).len() as int,
        ),
{
    crate::node_laws::lemma_turn(node, input, now);
    let t = node.turn(input, now);
    let outputs = node.step_outputs(input, now);
    let a = t.hard_state().len() as int;
    let n = a + t.out.persists.len();
    let m = n + t.out.sends.len();
    assert forall|k: int| 0 <= k < outputs.len() implies {
        &&& #[trigger] outputs[k] matches OutputView::Send { to, msg } ==> honest(
            h,
            node.id,
            to,
            msg,
        )
        &&& crate::member::effect_true(h, node.id, outputs[k])
    } by {
        if k < a {
            assert(outputs[k] == t.hard_state()[k]);
        } else if k < n {
            assert(outputs[k] == t.out.persists[k - a]);
            assert(crate::node_laws::is_log_write(t.out.persists[k - a]));
        } else if k < m {
            assert(outputs[k] == t.out.sends[k - n]);
            assert(t.out.sends[k - n] is Send);
        } else {
            assert(outputs[k] == t.out.effects[k - m]);
            assert(crate::node_laws::is_effect(t.out.effects[k - m]));
        }
    }
}

/// The chronicle and the logs after something happened.
pub struct Told {
    pub h: Chronicle,
    pub logs: Seq<Seq<EntryView>>,
}

/// The end of a step that completes.
proof fn lemma_completed(
    a: ClusterView,
    x3: ClusterView,
    b: ClusterView,
    h: Chronicle,
    logs: Seq<Seq<EntryView>>,
    seq: u64,
    node: u32,
    input: InputView,
    o: Ending,
)
    requires
        told_by(a, h, logs),
        a.has(node),
        durable(a, a.host(node)),
        !(a.host(node).status is Crashed),
        a.takes(node, input),
        crate::member::ended(
            h,
            a.host(node).disk,
            logs[node as int],
            a.host(node).node.turn(input, a.local_time(node, a.now)),
            o,
        ),
        a.host(node).node.turn(input, a.local_time(node, a.now)).node.id == node,
        x3.has(node),
        x3.queue == a.queue,
        x3.checker == a.checker,
        x3.cfg == a.cfg,
        x3.host(node) == (HostView {
            node: a.host(node).node.stepped(input, a.local_time(node, a.now)),
            ..a.host(node)
        }),
        beside(a, b, node),
        b == ({
            let outputs = a.outputs(node, input);
            let all = outputs.len() as int;
            let commit = a.host(node).node.commit_index;
            x3.emit_all(seq, node, outputs, all, commit).observe(
                node,
                crate::cluster_model::dirty_in(outputs, all),
            ).consider_compaction(node).rearm_timer(node)
        }),
    ensures
        told_by(b, o.end, logs.update(node as int, o.x)),
{
    let was = a.host(node).node;
    let now = a.local_time(node, a.now);
    let outputs = a.outputs(node, input);
    let all = outputs.len() as int;
    let commit = was.commit_index;
    assert(host_true(h, node as int, a.hosts[node as int], logs[node as int]));
    lemma_mail_stays(h, o.end, a.queue);
    lemma_applied_stays(h, o.end, a.host(node).applied);
    lemma_outputs_true(o.end, was, input, now, o.x);
    lemma_emit_all_true(o.end, x3, seq, node, outputs, all, commit);
    crate::cluster_laws::lemma_emit_all(x3, seq, node, outputs, all, commit);
    let top = was.stepped(input, now).commit_index;
    assert(host_watched(a, node as int));
    crate::node_laws::lemma_turn(was, input, now);
    crate::pace::law_entries_are_applied_in_turn(was, input, now);
    lemma_cuts_behind(h, was, a.host(node).disk, logs[node as int], input, now, o);
    crate::watch::lemma_known_stays(h, o.end, a.checker);
    lemma_emit_all_watched(
        o.end,
        x3,
        seq,
        node,
        outputs,
        all,
        commit,
        was.last_applied,
        top,
    );
    let x4 = x3.emit_all(seq, node, outputs, all, commit);
    let dirty = crate::cluster_model::dirty_in(outputs, all);
    crate::cluster_laws::lemma_observe(x4, node, dirty);
    lemma_observe_passes(o.end, x4, node, dirty);
    let x5 = x4.observe(node, dirty);
    lemma_compaction_passes(o.end, x5, node);
    let x6 = x5.consider_compaction(node);
    assert(x6.has(node)) by {
        reveal(ClusterView::consider_compaction);
    }
    lemma_rearm_passes(o.end, x6, node);
    crate::disk_laws::law_disks_stay_in_step(was, a.host(node).disk, input, now);
    assert(was.cfg == a.cfg.raft);
    let t = was.turn(input, now);
    assert(crate::member::same_core(t.node, was.stepped(input, now)));
    assert(recorded(o.end, node, b.host(node).disk, o.x));
    assert(informed(o.end, b.host(node).node, o.x));
    assert(host_true(o.end, node as int, b.host(node), o.x));
    if a.cfg.check_invariants {
        assert(crate::member::sane(o.end, was.stepped(input, now), o.x));
        crate::watch::lemma_watch_node(
            o.end,
            x4.checker,
            x4.now,
            was.stepped(input, now),
            o.x,
            dirty,
        );
    }
    assert(host_watched(b, node as int));
    assert(others_kept(a.checker, b.checker, node));
    lemma_told_on(a, b, h, o.end, logs, node, o.x);
}

/// The end of a step that is torn.
proof fn lemma_torn(
    a: ClusterView,
    x3: ClusterView,
    b: ClusterView,
    h: Chronicle,
    logs: Seq<Seq<EntryView>>,
    seq: u64,
    node: u32,
    input: InputView,
    o: Ending,
    p: int,
) -> (r: Told)
    requires
        told_by(a, h, logs),
        a.has(node),
        durable(a, a.host(node)),
        a.host(node).status is Running,
        a.takes(node, input),
        crate::member::ended(
            h,
            a.host(node).disk,
            logs[node as int],
            a.host(node).node.turn(input, a.local_time(node, a.now)),
            o,
        ),
        x3.has(node),
        x3.queue == a.queue,
        x3.checker == a.checker,
        x3.cfg == a.cfg,
        x3.host(node) == (HostView {
            node: a.host(node).node.stepped(input, a.local_time(node, a.now)),
            ..a.host(node)
        }),
        beside(a, b, node),
        0 <= p <= crate::cluster_model::writes_from(a.outputs(node, input), 0),
        b == x3.emit_all(
            seq,
            node,
            a.outputs(node, input),
            p,
            a.host(node).node.commit_index,
        ).tear_step(seq, node),
    ensures
        told_by(b, r.h, r.logs),
        r.h.past == h.past,
{
    let was = a.host(node).node;
    let now = a.local_time(node, a.now);
    let outputs = a.outputs(node, input);
    let commit = was.commit_index;
    assert(host_true(h, node as int, a.hosts[node as int], logs[node as int]));
    lemma_outputs_shape(was, input, now);
    let t = was.turn(input, now);
    let n = (t.hard_state().len() + t.out.persists.len()) as int;
    lemma_writes_first(outputs, 0, n);
    let mark = crate::member::lemma_torn(
        h,
        was,
        a.host(node).disk,
        logs[node as int],
        input,
        now,
        o,
        p,
    );
    let later = mark.h;
    let y = mark.x;
    lemma_mail_stays(h, later, a.queue);
    lemma_applied_stays(h, later, a.host(node).applied);
    assert(outputs_true(later, node, outputs, p)) by {
        assert forall|k: int| 0 <= k < p implies {
            &&& #[trigger] outputs[k] matches OutputView::Send { to, msg } ==> honest(
                later,
                node,
                to,
                msg,
            )
            &&& crate::member::effect_true(later, node, outputs[k])
        } by {
            assert(outputs[k] is Persist);
        }
    }
    lemma_emit_all_true(later, x3, seq, node, outputs, p, commit);
    crate::cluster_laws::lemma_emit_all(x3, seq, node, outputs, p, commit);
    let x4 = x3.emit_all(seq, node, outputs, p, commit);
    crate::cluster_laws::lemma_tear_step(x4, seq, node);
    assert(mail_true(later, b.queue)) by {
        reveal(ClusterView::tear_step);
        reveal(ClusterView::crash_node);
        let d = x4.cfg.disk;
        let delay = crate::faults::sampled(d.restart_min, d.restart_max, x4.disk_rng);
        lemma_push_true(
            later,
            x4.queue,
            x4.now.saturating_add(crate::model::max_of(delay, 1)),
            EventView::Fault { fault: FaultView::Restart { node } },
        );
    }
    assert(host_true(later, node as int, b.host(node), y));
    let top = was.stepped(input, now).commit_index;
    assert(host_watched(a, node as int));
    crate::node_laws::lemma_turn(was, input, now);
    crate::pace::law_entries_are_applied_in_turn(was, input, now);
    lemma_cuts_behind(h, was, a.host(node).disk, logs[node as int], input, now, o);
    crate::watch::lemma_known_stays(h, later, a.checker);
    lemma_emit_all_watched(
        later,
        x3,
        seq,
        node,
        outputs,
        p,
        commit,
        was.last_applied,
        top,
    );
    assert(b.checker == x4.checker) by {
        reveal(ClusterView::tear_step);
        reveal(ClusterView::crash_node);
    }
    assert(host_watched(b, node as int));
    lemma_told_on(a, b, h, later, logs, node, y);
    Told { h: later, logs: logs.update(node as int, y) }
}

/// The end of a step on an input that the node cannot take.
proof fn lemma_untaken(
    a: ClusterView,
    x3: ClusterView,
    b: ClusterView,
    h: Chronicle,
    logs: Seq<Seq<EntryView>>,
    seq: u64,
    node: u32,
)
    requires
        told_by(a, h, logs),
        a.has(node),
        x3.has(node),
        x3.queue == a.queue,
        x3.checker == a.checker,
        x3.cfg == a.cfg,
        x3.host(node) == a.host(node),
        durable(a, a.host(node)),
        !(a.host(node).status is Crashed),
        beside(a, b, node),
        b == ({
            let none = Seq::<OutputView>::empty();
            x3.emit_all(seq, node, none, 0, a.host(node).node.commit_index).observe(
                node,
                crate::cluster_model::dirty_in(none, 0),
            ).consider_compaction(node).rearm_timer(node)
        }),
    ensures
        told_by(b, h, logs.update(node as int, logs[node as int])),
{
    let none = Seq::<OutputView>::empty();
    let dirty = crate::cluster_model::dirty_in(none, 0);
    assert(host_true(h, node as int, a.hosts[node as int], logs[node as int]));
    crate::chronicle::lemma_extends_refl(h, node);
    lemma_observe_passes(h, x3, node, dirty);
    crate::cluster_laws::lemma_observe(x3, node, dirty);
    let x5 = x3.observe(node, dirty);
    lemma_compaction_passes(h, x5, node);
    let x6 = x5.consider_compaction(node);
    assert(x6.has(node)) by {
        reveal(ClusterView::consider_compaction);
    }
    lemma_rearm_passes(h, x6, node);
    assert(host_true(h, node as int, b.host(node), logs[node as int]));
    assert(host_watched(a, node as int));
    if a.cfg.check_invariants {
        assert(crate::member::sane(h, a.host(node).node, logs[node as int]));
        crate::watch::lemma_watch_node(
            h,
            x3.checker,
            x3.now,
            a.host(node).node,
            logs[node as int],
            dirty,
        );
    }
    assert(host_watched(b, node as int));
    assert(others_kept(a.checker, b.checker, node));
    lemma_told_on(a, b, h, h, logs, node, logs[node as int]);
}

/// An input that says what is true reaches a node that is up.
proof fn lemma_deliver_true(
    a: ClusterView,
    h: Chronicle,
    logs: Seq<Seq<EntryView>>,
    seq: u64,
    node: u32,
    input: InputView,
) -> (r: Told)
    requires
        told_by(a, h, logs),
        a.has(node),
        coherent_beside(a, node),
        durable(a, a.host(node)),
        !(a.host(node).status is Crashed),
        a.host(node).status is Running || a.cfg.disk.torn_step_permille == 0,
        input matches InputView::ChangeMembership(voters) ==> voters.finite(),
        input matches InputView::Message { from, msg } ==> honest(h, from, node, msg),
    ensures
        told_by(a.deliver(seq, node, input), r.h, r.logs),
        r.h.past == h.past,
{
    crate::cluster_laws::lemma_deliver(a, seq, node, input);
    reveal(ClusterView::deliver);
    let b = a.deliver(seq, node, input);
    let was = a.host(node).node;
    let x = logs[node as int];
    let now = a.local_time(node, a.now);
    let outputs = a.outputs(node, input);
    let x1 = a.traced(seq, node, crate::trace::KindView::In(input)).stepped(node, input);
    let x2 = x1.note_step(node, was.role);
    assert(x2.hosts == x1.hosts && x2.queue == x1.queue && x2.cfg == x1.cfg && x2.checker
        == x1.checker) by {
        reveal(ClusterView::note_step);
    }
    let (tear, disk_rng) = x2.tear_point(outputs);
    let x3 = ClusterView { disk_rng, ..x2 };
    assert(host_true(h, node as int, a.hosts[node as int], x));
    if a.takes(node, input) {
        assert(crate::member::sane(h, was, x));
        let o = crate::member::lemma_turn(h, was, a.host(node).disk, x, input, now);
        match tear {
            Some(p) if p < outputs.len() => {
                assert(a.cfg.disk.torn_step_permille != 0 && p
                    <= crate::cluster_model::writes_from(outputs, 0)) by {
                    reveal(ClusterView::tear_point);
                    let writes = crate::cluster_model::writes_from(outputs, 0);
                    let next = crate::rand::advanced(x2.disk_rng);
                    lemma_few_writes(h, was, a.host(node).disk, x, input, now, o);
                    crate::rand::lemma_range_bounds(next, 0, (writes as u64).saturating_add(1));
                }
                lemma_torn(a, x3, b, h, logs, seq, node, input, o, p as int)
            },
            _ => {
                lemma_completed(a, x3, b, h, logs, seq, node, input, o);
                Told { h: o.end, logs: logs.update(node as int, o.x) }
            },
        }
    } else {
        assert(tear is None) by {
            reveal(ClusterView::tear_point);
        }
        lemma_untaken(a, x3, b, h, logs, seq, node);
        Told { h, logs: logs.update(node as int, x) }
    }
}

/// A step makes few writes.
proof fn lemma_few_writes(
    h: Chronicle,
    node: NodeView,
    disk: DiskView,
    x: Seq<EntryView>,
    input: InputView,
    now: u64,
    o: Ending,
)
    requires
        node.accepts(input, now),
        crate::member::ended(h, disk, x, node.turn(input, now), o),
    ensures
        crate::cluster_model::writes_from(node.step_outputs(input, now), 0) <= 4,
{
    lemma_outputs_shape(node, input, now);
    let t = node.turn(input, now);
    lemma_writes_first(
        node.step_outputs(input, now),
        0,
        (t.hard_state().len() + t.out.persists.len()) as int,
    );
}

// ---------------------------------------------------------------------------
// Faults
// ---------------------------------------------------------------------------

/// A node rebuilt from its disk has its part again.
proof fn lemma_restart_true(
    a: ClusterView,
    h: Chronicle,
    logs: Seq<Seq<EntryView>>,
    seq: u64,
    node: u32,
) -> (r: Told)
    requires
        told_by(a, h, logs),
    ensures
        told_by(a.restart_node(seq, node), r.h, r.logs),
        r.h.past == h.past,
{
    reveal(ClusterView::restart_node);
    if !a.has(node) || !(a.host(node).status is Crashed) || !a.can_restart(node) {
        Told { h, logs }
    } else {
        let was = a.host(node);
        let x = logs[node as int];
        assert(host_true(h, node as int, a.hosts[node as int], x));
        let host = a.rebuilt(node);
        let b = a.restart_node(seq, node);
        let y = match was.disk.snapshot {
            Some(s) => crate::member::lemma_fixed_up(h, node, was.disk, x, s.last_included),
            None => x,
        };
        let later = match was.disk.snapshot {
            Some(s) => {
                crate::member::lemma_noted(h, node, host.disk, y, s);
                h.with_snap(node, s.last_included.index)
            },
            None => {
                crate::chronicle::lemma_extends_refl(h, node);
                h
            },
        };
        assert(recorded(later, node, host.disk, y));
        crate::member::lemma_whole(host.disk.log, y);
        crate::member::lemma_refreshed(
            h,
            NodeView {
                log: host.disk.log,
                base_config: match was.disk.snapshot {
                    Some(s) => s.config,
                    None => h.first,
                },
                ..host.node
            },
            y,
        );
        match was.disk.snapshot {
            Some(s) => {
                crate::log::lemma_reconcile_idempotent(was.disk.log, s.last_included);
                crate::chronicle::lemma_settled_stays(
                    h,
                    later,
                    host.disk.current_term,
                    host.disk.current_term,
                    y,
                    s.last_included.index as int,
                );
            },
            None => {},
        }
        assert(informed(later, host.node, y));
        lemma_applied_stays(h, later, was.applied);
        lemma_mail_stays(h, later, a.queue);
        let back = ClusterView {
            stats: crate::cluster::RunStats {
                restarts: a.stats.restarts.saturating_add(1),
                ..a.stats
            },
            ..a.with_host(node, host)
        }.marked(crate::timeline::MomentView::Restarted { node });
        let noted = ClusterView {
            checker: back.checker.note_restart(
                node,
                match host.disk.snapshot {
                    Some(s) => s.last_included.index,
                    None => 0,
                },
            ),
            ..back
        }.traced(
            seq,
            node,
            crate::trace::KindView::Restarted {
                current_term: host.disk.current_term,
                voted_for: host.disk.voted_for,
                last_index: host.disk.log.last_index(),
            },
        );
        assert(b == noted.rearm_timer(node));
        lemma_rearm_passes(later, noted, node);
        lemma_rearm_others(noted, node);
        assert(host_true(later, node as int, b.host(node), y));
        assert(host_watched(a, node as int));
        crate::watch::lemma_known_stays(h, later, a.checker);
        assert(known_true(later, b.checker));
        assert(host_watched(b, node as int));
        lemma_told_on(a, b, h, later, logs, node, y);
        Told { h: later, logs: logs.update(node as int, y) }
    }
}

/// A timer concerns one node.
proof fn lemma_rearm_others(a: ClusterView, node: u32)
    requires
        a.has(node),
    ensures
        ({
            let b = a.rearm_timer(node);
            &&& b.cfg == a.cfg
            &&& b.hosts.len() == a.hosts.len()
            &&& forall|i: int|
                0 <= i < a.hosts.len() && i != node ==> #[trigger] b.hosts[i] == a.hosts[i]
        }),
{
    reveal(ClusterView::rearm_timer);
}

/// A node changes its status, and its timer is set.
proof fn lemma_status_true(
    a: ClusterView,
    h: Chronicle,
    logs: Seq<Seq<EntryView>>,
    node: u32,
    status: NodeStatus,
    stats: crate::cluster::RunStats,
)
    requires
        told_by(a, h, logs),
        a.has(node),
        !(a.host(node).status is Crashed),
    ensures
        told_by(
            a.set_status(node, status).with_stats(stats).rearm_timer(node),
            h,
            logs.update(node as int, logs[node as int]),
        ),
{
    let x = a.set_status(node, status).with_stats(stats);
    let b = x.rearm_timer(node);
    assert(host_true(h, node as int, a.hosts[node as int], logs[node as int]));
    crate::chronicle::lemma_extends_refl(h, node);
    lemma_rearm_passes(h, x, node);
    lemma_rearm_others(x, node);
    assert(host_true(h, node as int, b.host(node), logs[node as int]));
    assert(host_watched(a, node as int));
    assert(host_watched(b, node as int));
    lemma_told_on(a, b, h, h, logs, node, logs[node as int]);
}

proof fn lemma_repair_true(
    a: ClusterView,
    h: Chronicle,
    logs: Seq<Seq<EntryView>>,
    seq: u64,
    node: u32,
) -> (r: Told)
    requires
        told_by(a, h, logs),
        a.has(node),
    ensures
        told_by(a.repair(seq, node), r.h, r.logs),
        r.h.past == h.past,
{
    reveal(ClusterView::repair);
    match a.host(node).status {
        NodeStatus::Crashed => lemma_restart_true(a, h, logs, seq, node),
        NodeStatus::Paused { until } => {
            lemma_status_true(a, h, logs, node, NodeStatus::Running, a.stats);
            assert(a.set_status(node, NodeStatus::Running).with_stats(a.stats) == a.set_status(
                node,
                NodeStatus::Running,
            ));
            Told { h, logs: logs.update(node as int, logs[node as int]) }
        },
        NodeStatus::Running => Told { h, logs },
    }
}

proof fn lemma_repair_all_true(
    a: ClusterView,
    h: Chronicle,
    logs: Seq<Seq<EntryView>>,
    seq: u64,
    n: nat,
) -> (r: Told)
    requires
        told_by(a, h, logs),
        n <= a.hosts.len(),
    ensures
        told_by(a.repair_all(seq, n), r.h, r.logs),
        r.h.past == h.past,
        a.repair_all(seq, n).hosts.len() == a.hosts.len(),
    decreases n,
{
    if n == 0 {
        Told { h, logs }
    } else {
        let before = lemma_repair_all_true(a, h, logs, seq, (n - 1) as nat);
        let b = a.repair_all(seq, (n - 1) as nat);
        let node = (n - 1) as u32;
        assert(b.repair(seq, node).hosts.len() == b.hosts.len()) by {
            reveal(ClusterView::repair);
            reveal(ClusterView::restart_node);
            reveal(ClusterView::rearm_timer);
        }
        lemma_repair_true(b, before.h, before.logs, seq, node)
    }
}

proof fn lemma_crash_true(
    a: ClusterView,
    h: Chronicle,
    logs: Seq<Seq<EntryView>>,
    seq: u64,
    node: u32,
) -> (r: Told)
    requires
        told_by(a, h, logs),
    ensures
        told_by(a.crash_node(seq, node), r.h, r.logs),
        r.h.past == h.past,
{
    reveal(ClusterView::crash_node);
    if a.is_available(node) {
        let b = a.crash_node(seq, node);
        assert(host_true(h, node as int, a.hosts[node as int], logs[node as int]));
        crate::chronicle::lemma_extends_refl(h, node);
        assert(host_true(h, node as int, b.host(node), logs[node as int]));
        assert(host_watched(a, node as int));
        assert(host_watched(b, node as int));
        lemma_told_on(a, b, h, h, logs, node, logs[node as int]);
        Told { h, logs: logs.update(node as int, logs[node as int]) }
    } else {
        Told { h, logs }
    }
}

proof fn lemma_disturb_true(
    a: ClusterView,
    h: Chronicle,
    logs: Seq<Seq<EntryView>>,
    seq: u64,
    fault: FaultView,
) -> (r: Told)
    requires
        told_by(a, h, logs),
    ensures
        told_by(a.disturb(seq, fault), r.h, r.logs),
        r.h.past == h.past,
{
    reveal(ClusterView::disturb);
    reveal(ClusterView::apply_node_fault);
    let ids = crate::cluster_model::ids(a.hosts.len());
    let blocked = crate::faults::links_after(a.net.blocked, fault, ids);
    let x = ClusterView { net: crate::network::NetView { blocked, ..a.net }, ..a };
    lemma_told_same(a, x, h, logs);
    let r = match fault {
        FaultView::Crash { node } => lemma_crash_true(x, h, logs, seq, node),
        FaultView::Restart { node } => lemma_restart_true(x, h, logs, seq, node),
        FaultView::Pause { node, ticks } => {
            reveal(ClusterView::pause_node);
            if x.is_available(node) {
                lemma_status_true(
                    x,
                    h,
                    logs,
                    node,
                    NodeStatus::Paused {
                        until: x.now.saturating_add(crate::model::max_of(ticks, 1)),
                    },
                    crate::cluster::RunStats {
                        pauses: x.stats.pauses.saturating_add(1),
                        ..x.stats
                    },
                );
                Told { h, logs: logs.update(node as int, logs[node as int]) }
            } else {
                Told { h, logs }
            }
        },
        FaultView::Heal => lemma_repair_all_true(x, h, logs, seq, x.hosts.len()),
        _ => Told { h, logs },
    };
    let y = x.apply_node_fault(seq, fault);
    lemma_told_same(y, a.disturb(seq, fault), r.h, r.logs);
    r
}

proof fn lemma_schedule_next_fault_true(
    a: ClusterView,
    h: Chronicle,
    logs: Seq<Seq<EntryView>>,
)
    requires
        told_by(a, h, logs),
    ensures
        told_by(a.schedule_next_fault(), h, logs),
{
    reveal(ClusterView::schedule_next_fault);
    let b = a.schedule_next_fault();
    let f = a.cfg.faults;
    if a.disturbed {
        let delay = crate::faults::sampled(f.outage_min, f.outage_max, a.fault_rng);
        lemma_push_true(
            h,
            a.queue,
            a.now.saturating_add(crate::model::max_of(delay, 1)),
            EventView::Fault { fault: FaultView::Heal },
        );
    } else {
        let delay = crate::faults::sampled(f.healthy_min, f.healthy_max, a.fault_rng);
        let drawn = f.drawn(
            crate::cluster_model::ids(a.hosts.len()),
            crate::faults::after_sample(f.healthy_min, f.healthy_max, a.fault_rng),
        );
        match drawn.fault {
            None => {},
            Some(fault) => lemma_push_true(
                h,
                a.queue,
                a.now.saturating_add(crate::model::max_of(delay, 1)),
                EventView::Fault { fault },
            ),
        }
    }
    lemma_told_same(a, b, h, logs);
}

proof fn lemma_apply_fault_true(
    a: ClusterView,
    h: Chronicle,
    logs: Seq<Seq<EntryView>>,
    seq: u64,
    fault: FaultView,
) -> (r: Told)
    requires
        told_by(a, h, logs),
    ensures
        told_by(a.apply_fault(seq, fault), r.h, r.logs),
        r.h.past == h.past,
{
    reveal(ClusterView::apply_fault);
    let r = lemma_disturb_true(a, h, logs, seq, fault);
    let y = a.disturb(seq, fault);
    let x = ClusterView { disturbed: !(fault is Heal), ..y };
    lemma_told_same(y, x, r.h, r.logs);
    lemma_schedule_next_fault_true(x, r.h, r.logs);
    r
}

// ---------------------------------------------------------------------------
// Events
// ---------------------------------------------------------------------------

/// Only what is not said to be true of a host changed.
proof fn lemma_host_touched(
    a: ClusterView,
    b: ClusterView,
    h: Chronicle,
    logs: Seq<Seq<EntryView>>,
    node: u32,
)
    requires
        told_by(a, h, logs),
        a.has(node),
        b.cfg == a.cfg,
        b.hosts.len() == a.hosts.len(),
        forall|i: int|
            0 <= i < a.hosts.len() && i != node ==> #[trigger] b.hosts[i] == a.hosts[i],
        b.host(node).node == a.host(node).node,
        b.host(node).disk == a.host(node).disk,
        b.host(node).applied == a.host(node).applied,
        b.checker == a.checker,
        !(b.host(node).status is Crashed) ==> !(a.host(node).status is Crashed),
        mail_true(h, b.queue),
    ensures
        told_by(b, h, logs.update(node as int, logs[node as int])),
{
    assert(host_true(h, node as int, a.hosts[node as int], logs[node as int]));
    crate::chronicle::lemma_extends_refl(h, node);
    assert(host_true(h, node as int, b.host(node), logs[node as int]));
    assert(host_watched(a, node as int));
    assert(host_watched(b, node as int));
    lemma_told_on(a, b, h, h, logs, node, logs[node as int]);
}

proof fn lemma_on_timer_true(
    a: ClusterView,
    h: Chronicle,
    logs: Seq<Seq<EntryView>>,
    seq: u64,
    node: u32,
) -> (r: Told)
    requires
        told_by(a, h, logs),
        a.has(node),
        coherent_beside(a, node) || (a.host(node).timer_at == Some(a.now) && coherent_beside(
            a.set_timer(node, None),
            node,
        )),
        durable(a, a.host(node)),
        crate::cluster_laws::awake(a.host(node)),
    ensures
        told_by(a.on_timer(seq, node), r.h, r.logs),
        r.h.past == h.past,
{
    reveal(ClusterView::on_timer);
    let x = if a.host(node).timer_at == Some(a.now) {
        a.set_timer(node, None)
    } else {
        a
    };
    let y = match x.host(node).status {
        NodeStatus::Paused { until } if a.now >= until => x.set_status(node, NodeStatus::Running),
        _ => x,
    };
    let same = logs.update(node as int, logs[node as int]);
    lemma_host_touched(a, y, h, logs, node);
    if y.is_available(node) {
        crate::cluster_laws::lemma_timer_fires(a, node);
        lemma_deliver_true(y, h, same, seq, node, InputView::Tick)
    } else {
        Told { h, logs: same }
    }
}

proof fn lemma_on_delivery_true(
    a: ClusterView,
    h: Chronicle,
    logs: Seq<Seq<EntryView>>,
    seq: u64,
    from: u32,
    to: u32,
    msg: MessageView,
    sent_at: u64,
) -> (r: Told)
    requires
        told_by(a, h, logs),
        coherent(a),
        honest(h, from, to, msg),
    ensures
        told_by(a.on_delivery(seq, from, to, msg, sent_at), r.h, r.logs),
        r.h.past == h.past,
{
    reveal(ClusterView::on_delivery);
    let b = a.on_delivery(seq, from, to, msg, sent_at);
    if a.has(to) {
        crate::cluster_laws::lemma_coherent_beside(a, to);
        match a.host(to).status {
            NodeStatus::Running => lemma_deliver_true(
                a,
                h,
                logs,
                seq,
                to,
                InputView::Message { from, msg },
            ),
            NodeStatus::Crashed => {
                lemma_told_same(a, b, h, logs);
                Told { h, logs }
            },
            NodeStatus::Paused { until } => {
                lemma_push_true(
                    h,
                    a.queue,
                    crate::model::max_of(until, a.now.saturating_add(1)),
                    EventView::Deliver { from, to, msg, sent_at },
                );
                lemma_told_same(a, b, h, logs);
                Told { h, logs }
            },
        }
    } else {
        Told { h, logs }
    }
}

proof fn lemma_on_client_true(
    a: ClusterView,
    h: Chronicle,
    logs: Seq<Seq<EntryView>>,
    seq: u64,
    node: u32,
    req: RequestView,
) -> (r: Told)
    requires
        told_by(a, h, logs),
        coherent(a),
    ensures
        told_by(a.on_client(seq, node, req), r.h, r.logs),
        r.h.past == h.past,
{
    reveal(ClusterView::on_client);
    if a.is_available(node) {
        crate::cluster_laws::lemma_coherent_beside(a, node);
        match a.stale_read(node, req) {
            Some(c) => {
                reveal(ClusterView::serve_stale_read);
                reveal(ClusterView::record_outcome);
                let b = a.on_client(seq, node, req);
                lemma_host_touched(a, b, h, logs, node);
                Told { h, logs: logs.update(node as int, logs[node as int]) }
            },
            None => lemma_deliver_true(a, h, logs, seq, node, InputView::ClientRequest(req)),
        }
    } else {
        Told { h, logs }
    }
}

proof fn lemma_compact_node_true(
    a: ClusterView,
    h: Chronicle,
    logs: Seq<Seq<EntryView>>,
    seq: u64,
    node: u32,
) -> (r: Told)
    requires
        told_by(a, h, logs),
        coherent(a),
    ensures
        told_by(a.compact_node(seq, node), r.h, r.logs),
        r.h.past == h.past,
{
    reveal(ClusterView::compact_node);
    if !a.has(node) {
        Told { h, logs }
    } else {
        let idle = a.set_compacting(node, false);
        let same = logs.update(node as int, logs[node as int]);
        lemma_host_touched(a, idle, h, logs, node);
        let n = idle.host(node).node;
        let applied = n.last_applied;
        if !idle.is_available(node) || applied == 0 || applied <= idle.covered(node) {
            Told { h, logs: same }
        } else {
            match n.log.term_at(applied) {
                None => Told { h, logs: same },
                Some(term) => {
                    let x = idle.with_stats(
                        crate::cluster::RunStats {
                            snapshots_taken: idle.stats.snapshots_taken.saturating_add(1),
                            ..idle.stats
                        },
                    ).marked(
                        crate::timeline::MomentView::SnapshotTaken { node, through: applied },
                    );
                    lemma_host_touched(a, x, h, logs, node);
                    crate::cluster_laws::lemma_idle(a, x, node);
                    lemma_deliver_true(
                        x,
                        h,
                        same,
                        seq,
                        node,
                        InputView::Compact(
                            SnapshotView {
                                last_included: crate::LogId { index: applied, term },
                                config: n.cluster,
                                data: idle.host(node).machine.json().bytes(),
                            },
                        ),
                    )
                },
            }
        }
    }
}

// ---------------------------------------------------------------------------
// The laws
// ---------------------------------------------------------------------------

/// One event more.
proof fn lemma_step_true(c: ClusterView, h: Chronicle, logs: Seq<Seq<EntryView>>) -> (r: Told)
    requires
        coherent(c),
        told_by(c, h, logs),
    ensures
        told_by(c.step(), r.h, r.logs),
        r.h.past == h.past,
{
    reveal(ClusterView::step);
    reveal(ClusterView::on_event);
    if c.queue.slots.len() == 0 {
        Told { h, logs }
    } else {
        let next = c.queue.slots[0];
        let b = ClusterView {
            queue: c.queue.rest(),
            now: next.tick,
            events_processed: c.events_processed.saturating_add(1),
            ..c
        };
        crate::cluster_laws::lemma_pop(c);
        assert(event_true(h, next.event));
        assert(mail_true(h, b.queue)) by {
            assert forall|k: int| 0 <= k < b.queue.slots.len() implies event_true(
                h,
                (#[trigger] b.queue.slots[k]).event,
            ) by {
                assert(b.queue.slots[k] == c.queue.slots[k + 1]);
            }
        }
        lemma_told_same(c, b, h, logs);
        match next.event {
            EventView::Timer { node } => if b.has(node) {
                lemma_on_timer_true(b, h, logs, next.seq, node)
            } else {
                reveal(ClusterView::on_timer);
                Told { h, logs }
            },
            EventView::Deliver { from, to, msg, sent_at } => lemma_on_delivery_true(
                b,
                h,
                logs,
                next.seq,
                from,
                to,
                msg,
                sent_at,
            ),
            EventView::Client { node, req } => lemma_on_client_true(
                b,
                h,
                logs,
                next.seq,
                node,
                req,
            ),
            EventView::Compact { node } => lemma_compact_node_true(b, h, logs, next.seq, node),
            EventView::Fault { fault } => lemma_apply_fault_true(b, h, logs, next.seq, fault),
        }
    }
}

/// Any number of events more.
proof fn lemma_after_true(
    c: ClusterView,
    n: nat,
    h: Chronicle,
    logs: Seq<Seq<EntryView>>,
) -> (r: Told)
    requires
        coherent(c),
        told_by(c, h, logs),
    ensures
        coherent(c.after(n)),
        told_by(c.after(n), r.h, r.logs),
        r.h.past == h.past,
    decreases n,
{
    if n == 0 {
        Told { h, logs }
    } else {
        let before = lemma_after_true(c, (n - 1) as nat, h, logs);
        let d = c.after((n - 1) as nat);
        crate::cluster_laws::law_every_event_keeps_coherence(d);
        lemma_step_true(d, before.h, before.logs)
    }
}

/// Every event keeps a cluster safe.
pub proof fn law_every_event_keeps_safety(c: ClusterView)
    requires
        safe(c),
    ensures
        safe(c.step()),
{
    crate::cluster_laws::law_every_event_keeps_coherence(c);
    let (h, logs) = choose|h: Chronicle, logs: Seq<Seq<EntryView>>| #[trigger]
        told_by(c, h, logs);
    let r = lemma_step_true(c, h, logs);
    assert(told_by(c.step(), r.h, r.logs));
}

/// So do requests from outside. A change of the membership is asked of a node
/// that is up; of one that is paused only if no step is ever torn.
pub proof fn law_requests_keep_safety(
    c: ClusterView,
    node: u32,
    client: u32,
    seq: u64,
    cmd: CommandView,
    voters: Set<u32>,
    fault: FaultView,
)
    requires
        safe(c),
        voters.finite(),
    ensures
        safe(c.submit(node, client, seq, cmd)),
        safe(c.abandon(client, seq)),
        safe(c.inject(fault)),
        safe(c.calmed()),
        c.has(node) && !(c.host(node).status is Crashed) && (c.is_available(node)
            || c.cfg.disk.torn_step_permille == 0) ==> safe(c.change_membership(node, voters)),
{
    crate::cluster_laws::law_requests_keep_coherence(
        c,
        node,
        client,
        seq,
        cmd,
        voters,
        fault,
    );
    let (h, logs) = choose|h: Chronicle, logs: Seq<Seq<EntryView>>| #[trigger]
        told_by(c, h, logs);
    assert(told_by(c.submit(node, client, seq, cmd), h, logs)) by {
        reveal(ClusterView::submit);
        lemma_push_true(
            h,
            c.queue,
            c.now,
            EventView::Client {
                node,
                req: RequestView {
                    client,
                    seq,
                    command: cmd.json().bytes(),
                    read_only: cmd.is_read_only(),
                },
            },
        );
        lemma_told_same(c, c.submit(node, client, seq, cmd), h, logs);
    }
    lemma_told_same(c, c.abandon(client, seq), h, logs);
    let r = lemma_disturb_true(c, h, logs, c.events_processed, fault);
    assert(told_by(c.inject(fault), r.h, r.logs));
    assert(told_by(c.calmed(), h, logs)) by {
        crate::event::law_dropping_faults_keeps_the_rest(c.queue);
        let q = c.calmed().queue;
        assert forall|k: int| 0 <= k < q.slots.len() implies event_true(
            h,
            (#[trigger] q.slots[k]).event,
        ) by {
            assert(q.slots.contains(q.slots[k]));
            assert(c.queue.slots.contains(q.slots[k]));
            let j = choose|j: int| 0 <= j < c.queue.slots.len() && c.queue.slots[j] == q.slots[k];
            assert(event_true(h, c.queue.slots[j].event));
        }
        lemma_told_same(c, c.calmed(), h, logs);
    }
    if c.has(node) && !(c.host(node).status is Crashed) && (c.is_available(node)
        || c.cfg.disk.torn_step_permille == 0) {
        reveal(ClusterView::change_membership);
        let listed = crate::order::in_order(voters);
        let asked = c.with_stats(
            crate::cluster::RunStats {
                membership_changes: c.stats.membership_changes.saturating_add(1),
                ..c.stats
            },
        ).marked(crate::timeline::MomentView::MembershipChanged { voters: listed }).traced(
            c.events_processed,
            node,
            crate::trace::KindView::MembershipChange { voters: listed },
        );
        crate::cluster_laws::lemma_coherent_beside(c, node);
        crate::cluster_laws::lemma_idle(c, asked, node);
        lemma_told_same(c, asked, h, logs);
        let m = lemma_deliver_true(
            asked,
            h,
            logs,
            c.events_processed,
            node,
            InputView::ChangeMembership(voters),
        );
        assert(told_by(c.change_membership(node, voters), m.h, m.logs));
    }
}

/// The chronicle of a run that has not begun.
spec fn blank(cfg: SimView) -> Chronicle {
    Chronicle {
        first: cfg.initial_config(),
        votes: Map::empty(),
        ballots: Map::empty(),
        runs: Map::empty(),
        reigns: Map::empty(),
        acks: Map::empty(),
        snaps: Map::empty(),
        told: Map::empty(),
        rounds: Map::empty(),
        confirms: Set::empty(),
        past: Past {
            rounds: Set::empty(),
            terms: Set::empty(),
            told: Map::empty(),
            reads: Map::empty(),
        },
    }
}

proof fn lemma_blank(cfg: SimView)
    requires
        cfg.valid(),
    ensures
        blank(cfg).true_to_raft(),
{
    reveal(Chronicle::true_to_raft);
    let voters = cfg.initial_config().old;
    match cfg.initial_voters {
        Some(v) => {
            vstd::seq_lib::seq_to_set_is_finite(v);
            assert(v.to_set().contains(v[0]));
            if voters.len() == 0 {
                assert(voters =~= Set::empty());
            }
        },
        None => {
            let ids = crate::cluster_model::ids(cfg.nodes as nat);
            vstd::seq_lib::seq_to_set_is_finite(ids);
            assert(ids.to_set().contains(ids[0]));
            if voters.len() == 0 {
                assert(voters =~= Set::empty());
            }
        },
    }
}

proof fn lemma_first_host(cfg: SimView, i: int, host: HostView)
    requires
        cfg.valid(),
        cfg.raft.bugs == BugSwitches::none(),
        0 <= i < cfg.nodes,
        host == (HostView {
            timer_at: host.timer_at,
            ..crate::cluster_model::first_host(cfg, i)
        }),
    ensures
        host_true(blank(cfg), i, host, Seq::empty()),
{
    let h = blank(cfg);
    let x = Seq::<EntryView>::empty();
    assert(crate::member::whole(host.disk.log, x)) by {
        assert(host.disk.log.entries =~= x.skip(0));
    }
    assert(h.carries(i as u32, x, 0));
}

proof fn lemma_primed_true(cfg: SimView, n: nat)
    ensures
        mail_true(blank(cfg), ClusterView::idle(cfg).primed(n).queue),
    decreases n,
{
    if n > 0 {
        lemma_primed_true(cfg, (n - 1) as nat);
        let before = ClusterView::idle(cfg).primed((n - 1) as nat);
        let node = (n - 1) as u32;
        let at = crate::model::max_of(before.host(node).node.next_deadline(), 1);
        lemma_push_true(blank(cfg), before.queue, at, EventView::Timer { node });
    }
}

proof fn lemma_primed_unwatched(cfg: SimView, n: nat)
    ensures
        ClusterView::idle(cfg).primed(n).checker == CheckerView::empty(),
    decreases n,
{
    if n > 0 {
        lemma_primed_unwatched(cfg, (n - 1) as nat);
    }
}

proof fn lemma_scripted_true(
    a: ClusterView,
    h: Chronicle,
    logs: Seq<Seq<EntryView>>,
    script: Seq<(u64, FaultView)>,
    n: int,
)
    requires
        told_by(a, h, logs),
    ensures
        told_by(a.scripted(script, n), h, logs),
    decreases n,
{
    if n > 0 {
        lemma_scripted_true(a, h, logs, script, n - 1);
        let before = a.scripted(script, n - 1);
        lemma_push_true(
            h,
            before.queue,
            crate::model::max_of(script[n - 1].0, 1),
            EventView::Fault { fault: script[n - 1].1 },
        );
        lemma_told_same(before, a.scripted(script, n), h, logs);
    }
}

/// A cluster without deliberate bugs starts out safe.
pub proof fn law_runs_start_safe(cfg: SimView)
    requires
        cfg.valid(),
        cfg.raft.bugs == BugSwitches::none(),
    ensures
        safe(ClusterView::start(cfg)),
{
    crate::cluster_laws::law_runs_start_coherent(cfg);
    let h = blank(cfg);
    let up = ClusterView::idle(cfg).primed(cfg.nodes as nat);
    let logs = Seq::new(cfg.nodes as nat, |i: int| Seq::<EntryView>::empty());
    lemma_blank(cfg);
    crate::cluster_laws::lemma_primed(cfg, cfg.nodes as nat);
    lemma_primed_true(cfg, cfg.nodes as nat);
    assert(told_by(up, h, logs)) by {
        assert forall|i: int| 0 <= i < up.hosts.len() implies host_true(
            h,
            i,
            #[trigger] up.hosts[i],
            logs[i],
        ) by {
            assert(crate::cluster_laws::primed_host(cfg, up, i));
            lemma_first_host(cfg, i, up.hosts[i]);
        }
        assert(up.checker == CheckerView::empty()) by {
            lemma_primed_unwatched(cfg, cfg.nodes as nat);
        }
        assert forall|i: int| 0 <= i < up.hosts.len() implies #[trigger] host_watched(up, i) by {
            assert(crate::cluster_laws::primed_host(cfg, up, i));
        }
    }
    match cfg.scripted_faults {
        Some(script) => lemma_scripted_true(up, h, logs, script, script.len() as int),
        None => lemma_schedule_next_fault_true(up, h, logs),
    }
    assert(told_by(ClusterView::start(cfg), h, logs));
}

/// A run stays safe however long it goes on.
pub proof fn law_runs_stay_safe(c: ClusterView, n: nat)
    requires
        safe(c),
    ensures
        safe(c.after(n)),
    decreases n,
{
    if n > 0 {
        law_runs_stay_safe(c, (n - 1) as nat);
        law_every_event_keeps_safety(c.after((n - 1) as nat));
    }
}

/// No false alarms: whatever happens to a cluster without deliberate bugs, the
/// safety checker has nothing to report.
pub proof fn law_nothing_is_reported(c: ClusterView)
    requires
        safe(c),
    ensures
        c.checker.violations.len() == 0,
{
    let (h, logs) = choose|h: Chronicle, logs: Seq<Seq<EntryView>>| #[trigger]
        told_by(c, h, logs);
    assert(known_true(h, c.checker));
}

/// Election Safety: a term has one leader.
pub proof fn law_one_leader_per_term(c: ClusterView, i: int, j: int)
    requires
        safe(c),
        0 <= i < c.hosts.len(),
        0 <= j < c.hosts.len(),
        c.leads(i),
        c.leads(j),
        c.hosts[i].node.current_term == c.hosts[j].node.current_term,
    ensures
        i == j,
{
    let (h, logs) = choose|h: Chronicle, logs: Seq<Seq<EntryView>>| #[trigger]
        told_by(c, h, logs);
    assert(host_true(h, i, c.hosts[i], logs[i]));
    assert(host_true(h, j, c.hosts[j], logs[j]));
}

/// Log Matching: two disks that hold an entry of the same term at the same index
/// hold the same entry there, and the same entries before it.
pub proof fn law_logs_match(c: ClusterView, i: int, j: int, index: u64, earlier: u64)
    requires
        safe(c),
        0 <= i < c.hosts.len(),
        0 <= j < c.hosts.len(),
        c.hosts[i].disk.log.holds(index),
        c.hosts[j].disk.log.holds(index),
        c.hosts[i].disk.log.at(index).term == c.hosts[j].disk.log.at(index).term,
        c.hosts[i].disk.log.holds(earlier),
        c.hosts[j].disk.log.holds(earlier),
        earlier <= index,
    ensures
        c.hosts[i].disk.log.at(earlier) == c.hosts[j].disk.log.at(earlier),
{
    let (h, logs) = choose|h: Chronicle, logs: Seq<Seq<EntryView>>| #[trigger]
        told_by(c, h, logs);
    assert(host_true(h, i, c.hosts[i], logs[i]));
    assert(host_true(h, j, c.hosts[j], logs[j]));
    let a = c.hosts[i].disk.log;
    let b = c.hosts[j].disk.log;
    crate::member::lemma_whole(a, logs[i]);
    crate::member::lemma_whole(b, logs[j]);
    assert(a.at(index) == logs[i][index - 1]);
    assert(b.at(index) == logs[j][index - 1]);
    assert(a.at(earlier) == logs[i][earlier - 1]);
    assert(b.at(earlier) == logs[j][earlier - 1]);
    crate::chronicle::lemma_same_up_to(h, logs[i], logs[j], index - 1);
    crate::chronicle::lemma_holds_less(logs[i], logs[j], index as int, index as int);
}

/// State Machine Safety: whatever two nodes ever applied at the same index, be
/// it before or after a crash, was of the same term and the same command.
pub proof fn law_applied_entries_agree(c: ClusterView, i: int, a: int, j: int, b: int)
    requires
        safe(c),
        0 <= i < c.hosts.len(),
        0 <= j < c.hosts.len(),
        0 <= a < c.hosts[i].applied.len(),
        0 <= b < c.hosts[j].applied.len(),
        c.hosts[i].applied[a].index == c.hosts[j].applied[b].index,
    ensures
        c.hosts[i].applied[a] == c.hosts[j].applied[b],
{
    let (h, logs) = choose|h: Chronicle, logs: Seq<Seq<EntryView>>| #[trigger]
        told_by(c, h, logs);
    assert(host_true(h, i, c.hosts[i], logs[i]));
    assert(host_true(h, j, c.hosts[j], logs[j]));
    let x = c.hosts[i].applied[a];
    let y = c.hosts[j].applied[b];
    assert(applied_true(h, x));
    assert(applied_true(h, y));
    let p = choose|p: PayloadView| #[trigger]
        final_at(h, x.index, x.term, p) && x.command == asked(p);
    let q = choose|q: PayloadView| #[trigger]
        final_at(h, y.index, y.term, q) && y.command == asked(q);
    let (t, k) = choose|t: u64, k: int| #[trigger]
        h.committed(t, k) && x.index <= k && h.led(t)[x.index - 1].term == x.term && h.led(
            t,
        )[x.index - 1].payload == p;
    let (u, m) = choose|u: u64, m: int| #[trigger]
        h.committed(u, m) && y.index <= m && h.led(u)[y.index - 1].term == y.term && h.led(
            u,
        )[y.index - 1].payload == q;
    crate::chronicle::lemma_committed_agree(h, t, k, u, m);
    assert(h.led(t)[x.index - 1] == h.led(u)[x.index - 1]);
}

/// What two nodes know to be committed at an index is the same entry.
pub proof fn law_committed_entries_agree(c: ClusterView, i: int, j: int, index: u64)
    requires
        safe(c),
        0 <= i < c.hosts.len(),
        0 <= j < c.hosts.len(),
        !(c.hosts[i].status is Crashed),
        !(c.hosts[j].status is Crashed),
        index <= c.hosts[i].node.commit_index,
        index <= c.hosts[j].node.commit_index,
        c.hosts[i].node.log.holds(index),
        c.hosts[j].node.log.holds(index),
    ensures
        c.hosts[i].node.log.at(index) == c.hosts[j].node.log.at(index),
{
    let (h, logs) = choose|h: Chronicle, logs: Seq<Seq<EntryView>>| #[trigger]
        told_by(c, h, logs);
    let a = c.hosts[i].node;
    let b = c.hosts[j].node;
    assert(host_true(h, i, c.hosts[i], logs[i]));
    assert(host_true(h, j, c.hosts[j], logs[j]));
    assert(durable(c, c.hosts[i]));
    assert(durable(c, c.hosts[j]));
    crate::member::lemma_whole(a.log, logs[i]);
    crate::member::lemma_whole(b.log, logs[j]);
    assert(a.log.at(index) == logs[i][index - 1]);
    assert(b.log.at(index) == logs[j][index - 1]);
    let n = a.commit_index as int;
    let m = b.commit_index as int;
    let (t, k) = choose|t: u64, k: int| #[trigger]
        h.committed(t, k) && t <= a.current_term && n <= k && holds(logs[i], h.led(t), n);
    let (u, l) = choose|u: u64, l: int| #[trigger]
        h.committed(u, l) && u <= b.current_term && m <= l && holds(logs[j], h.led(u), m);
    crate::chronicle::lemma_holds_less(logs[i], h.led(t), n, n);
    crate::chronicle::lemma_holds_less(logs[j], h.led(u), m, m);
    crate::chronicle::lemma_committed_agree(h, t, k, u, l);
    assert(h.led(t)[index - 1] == h.led(u)[index - 1]);
}

/// Leader Completeness: what any node knows to be committed is in the log of
/// every leader of its term or a later one, or was compacted away there.
pub proof fn law_leaders_are_complete(c: ClusterView, leader: int, j: int, index: u64)
    requires
        safe(c),
        0 <= leader < c.hosts.len(),
        0 <= j < c.hosts.len(),
        c.leads(leader),
        !(c.hosts[j].status is Crashed),
        c.hosts[j].node.current_term <= c.hosts[leader].node.current_term,
        0 < index <= c.hosts[j].node.commit_index,
    ensures
        index <= c.hosts[leader].node.log.last_index(),
        c.hosts[leader].node.log.holds(index) && c.hosts[j].node.log.holds(index)
            ==> c.hosts[leader].node.log.at(index) == c.hosts[j].node.log.at(index),
{
    let (h, logs) = choose|h: Chronicle, logs: Seq<Seq<EntryView>>| #[trigger]
        told_by(c, h, logs);
    let a = c.hosts[leader].node;
    let b = c.hosts[j].node;
    assert(host_true(h, leader, c.hosts[leader], logs[leader]));
    assert(host_true(h, j, c.hosts[j], logs[j]));
    assert(durable(c, c.hosts[leader]));
    assert(durable(c, c.hosts[j]));
    crate::member::lemma_whole(a.log, logs[leader]);
    crate::member::lemma_whole(b.log, logs[j]);
    let n = b.commit_index as int;
    crate::chronicle::lemma_settled_in(h, b.current_term, logs[j], n, a.current_term);
    crate::chronicle::lemma_holds_less(logs[j], logs[leader], n, n);
    if a.log.holds(index) && b.log.holds(index) {
        assert(a.log.at(index) == logs[leader][index - 1]);
        assert(b.log.at(index) == logs[j][index - 1]);
    }
}

// ---------------------------------------------------------------------------
// Reads
// ---------------------------------------------------------------------------

/// The next event brings this input to this node.
pub open spec fn brings(c: ClusterView, node: u32, input: InputView) -> bool {
    c.queue.slots.len() > 0 && match c.queue.slots[0].event {
        EventView::Timer { node: v } => v == node && input is Tick,
        EventView::Deliver { from, to, msg, sent_at } => to == node && input == (
        InputView::Message { from, msg }),
        EventView::Client { node: v, req } => v == node && input == InputView::ClientRequest(req),
        EventView::Compact { node: v } => v == node && input is Compact,
        EventView::Fault { fault } => false,
    }
}

/// What the node asks for then.
pub open spec fn brought(c: ClusterView, node: u32, input: InputView) -> Seq<OutputView> {
    c.host(node).node.step_outputs(input, c.local_time(node, c.queue.slots[0].tick))
}

/// What waits at each node.
spec fn waiting_at(c: ClusterView) -> Map<u32, Seq<ReadView>> {
    Map::new(|v: u32| c.has(v), |v: u32| c.host(v).node.pending_reads)
}

/// The same chronicle, with this moment remembered.
proof fn lemma_marked_told(c: ClusterView, h: Chronicle, logs: Seq<Seq<EntryView>>)
    requires
        told_by(c, h, logs),
    ensures
        told_by(c, h.marked(waiting_at(c)), logs),
{
    let later = h.marked(waiting_at(c));
    crate::chronicle::lemma_marked(h, waiting_at(c));
    lemma_mail_stays(h, later, c.queue);
    crate::watch::lemma_known_stays(h, later, c.checker);
    assert forall|i: int| 0 <= i < c.hosts.len() implies host_true(
        later,
        i,
        #[trigger] c.hosts[i],
        logs[i],
    ) by {
        let host = c.hosts[i];
        assert(host_true(h, i, host, logs[i]));
        assert(forall|u: u32, w: u64| #[trigger] later.acked(u, w) == h.acked(u, w));
        crate::member::lemma_recorded_stays(h, later, i as u32, host.disk, logs[i]);
        lemma_applied_stays(h, later, host.applied);
        if !(host.status is Crashed) {
            let n = host.node;
            let t = n.current_term;
            crate::chronicle::lemma_settled_stays(
                h,
                later,
                t,
                t,
                logs[i],
                n.commit_index as int,
            );
            crate::member::lemma_known_stays(h, later, t, t, n.commit_index, n.commit_index);
            assert forall|k: int| 0 <= k < n.pending_reads.len() implies crate::member::waits(
                later,
                n.id,
                t,
                #[trigger] n.pending_reads[k],
            ) by {
                let read = n.pending_reads[k];
                assert(crate::member::waits(h, n.id, t, read));
                assert(c.has(n.id));
                assert(later.past.reads[n.id][k].request == read.request);
                assert(crate::member::asked_before(later, n.id, read.request));
            }
        }
    }
}

/// A read that a leader serves sees everything that any node knew to be
/// committed when the leader had not yet been asked for it: the index that it is
/// served at is no lower. So it cannot be stale, whatever happened in between
/// and whoever thinks to lead.
pub proof fn law_reads_are_never_stale(
    c: ClusterView,
    n: nat,
    node: u32,
    input: InputView,
    k: int,
    j: int,
)
    requires
        safe(c),
        brings(c.after(n), node, input),
        c.after(n).has(node),
        !(c.after(n).host(node).status is Crashed),
        c.after(n).host(node).node.accepts(
            input,
            c.after(n).local_time(node, c.after(n).queue.slots[0].tick),
        ),
        0 <= k < brought(c.after(n), node, input).len(),
        brought(c.after(n), node, input)[k] is ServeRead,
        c.has(node),
        forall|i: int|
            0 <= i < c.host(node).node.pending_reads.len() ==> (
            #[trigger] c.host(node).node.pending_reads[i]).request.client != brought(
                c.after(n),
                node,
                input,
            )[k]->ServeRead_client || c.host(node).node.pending_reads[i].request.seq != brought(
                c.after(n),
                node,
                input,
            )[k]->ServeRead_seq,
        0 <= j < c.hosts.len(),
        !(c.hosts[j].status is Crashed),
    ensures
        c.hosts[j].node.commit_index <= brought(c.after(n), node, input)[k]->read_index,
{
    let (h, logs) = choose|h: Chronicle, logs: Seq<Seq<EntryView>>| #[trigger]
        told_by(c, h, logs);
    lemma_marked_told(c, h, logs);
    let g = h.marked(waiting_at(c));
    let r = lemma_after_true(c, n, g, logs);
    let d = c.after(n);
    let now = d.local_time(node, d.queue.slots[0].tick);
    let was = d.host(node).node;
    let x = r.logs[node as int];
    assert(host_true(r.h, node as int, d.hosts[node as int], x));
    assert(durable(d, d.hosts[node as int]));
    assert(event_true(r.h, d.queue.slots[0].event));
    let o = crate::member::lemma_turn(r.h, was, d.host(node).disk, x, input, now);
    lemma_outputs_true(o.end, was, input, now, o.x);
    let outputs = brought(d, node, input);
    assert(crate::member::effect_true(o.end, node, outputs[k]));
    let client = outputs[k]->ServeRead_client;
    let seq = outputs[k]->ServeRead_seq;
    let index = outputs[k]->read_index;
    let (term, q, request) = choose|term: u64, q: u64, request: RequestView| #[trigger]
        crate::member::read_by(o.end, node, term, q, request) && request.client == client
            && request.seq == seq && o.end.rounds[(term, q)].index == index;
    assert(o.end.past == g.past);
    assert(!crate::member::asked_before(o.end, node, request)) by {
        if crate::member::asked_before(o.end, node, request) {
            let i = choose|i: int|
                0 <= i < o.end.past.reads[node].len() && (
                #[trigger] o.end.past.reads[node][i]).request == request;
            assert(c.host(node).node.pending_reads[i].request == request);
        }
    }
    assert(host_true(h, j, c.hosts[j], logs[j]));
    let m = c.hosts[j].node;
    if m.commit_index > 0 {
        let u = choose|u: u64| #[trigger]
            h.told.contains_key(u) && u <= m.current_term && m.commit_index <= h.told[u];
        assert(o.end.past.told.contains_key(u));
    }
    crate::chronicle::lemma_round_covers(o.end, term, q, m.current_term, m.commit_index);
}

} // verus!
