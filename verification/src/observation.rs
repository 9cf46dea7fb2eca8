//! Watching a run does not change it.
//!
//! The trace, the safety checkers and the timeline only look. Two clusters that
//! differ in nothing else take the same steps, which is what makes it sound to
//! fuzz with the trace off and to replay a failing seed with it on.
use crate::cluster_model::{ClusterView, SimView};
use crate::event::EventView;
use crate::faults::FaultView;
use crate::invariants::CheckerView;
use crate::kv::CommandView;
use crate::message::MessageView;
use crate::model::{InputView, RequestView};
use crate::node::Role;
use crate::snapshot::SnapshotView;
use crate::timeline::TimelineView;
use crate::trace::TraceView;
use vstd::prelude::*;

verus! {

/// The cluster less everything that only looks.
pub open spec fn unwatched(c: ClusterView) -> ClusterView {
    ClusterView {
        cfg: SimView { record_trace: false, check_invariants: false, ..c.cfg },
        trace: TraceView { records: Seq::empty(), enabled: false },
        checker: CheckerView::empty(),
        timeline: TimelineView::empty(),
        ..c
    }
}

/// The two differ at most in what watches them.
pub open spec fn same_run(a: ClusterView, b: ClusterView) -> bool {
    unwatched(a) == unwatched(b)
}

/// They have the same checkers, which have seen the same.
pub open spec fn same_checks(a: ClusterView, b: ClusterView) -> bool {
    a.cfg.check_invariants == b.cfg.check_invariants && a.checker == b.checker
}

/// The two differ at most in what watches them; where it is `strict`, not in the
/// checkers either.
pub open spec fn kin(strict: bool, a: ClusterView, b: ClusterView) -> bool {
    same_run(a, b) && (strict ==> same_checks(a, b))
}

proof fn lemma_note_step(strict: bool, a: ClusterView, b: ClusterView, node: u32, was: Role)
    requires
        kin(strict, a, b),
    ensures
        kin(strict, a.note_step(node, was), b.note_step(node, was)),
{
    reveal(ClusterView::note_step);
}

proof fn lemma_tear_step(strict: bool, a: ClusterView, b: ClusterView, seq: u64, node: u32)
    requires
        kin(strict, a, b),
    ensures
        kin(strict, a.tear_step(seq, node), b.tear_step(seq, node)),
{
    reveal(ClusterView::tear_step);
    reveal(ClusterView::crash_node);
}

proof fn lemma_mirror(c: ClusterView, from: int, to: int)
    ensures
        same_run(c, c.mirror(from, to)),
        c.mirror(from, to).checker == c.checker,
        c.mirror(from, to).cfg == c.cfg,
    decreases to - from,
{
    if to > from {
        lemma_mirror(c, from, to - 1);
    }
}

/// The checkers only look.
proof fn lemma_observe(
    strict: bool,
    a: ClusterView,
    b: ClusterView,
    node: u32,
    dirty: Option<u64>,
)
    requires
        kin(strict, a, b),
    ensures
        kin(strict, a.observe(node, dirty), b.observe(node, dirty)),
{
    reveal(ClusterView::observe);
    let x = ClusterView {
        checker: a.checker.observe_node(a.now, a.host(node).node, dirty),
        ..a
    };
    let y = ClusterView {
        checker: b.checker.observe_node(b.now, b.host(node).node, dirty),
        ..b
    };
    lemma_mirror(x, a.checker.violations.len() as int, x.checker.violations.len() as int);
    lemma_mirror(y, b.checker.violations.len() as int, y.checker.violations.len() as int);
}

proof fn lemma_deliver(strict: bool, a: ClusterView, b: ClusterView, seq: u64, node: u32, input: InputView)
    requires
        kin(strict, a, b),
    ensures
        kin(strict, a.deliver(seq, node, input), b.deliver(seq, node, input)),
{
    reveal(ClusterView::deliver);
    reveal(ClusterView::tear_point);
    let was = a.host(node).node;
    let outputs = a.outputs(node, input);
    assert(outputs == b.outputs(node, input));
    let x1 = a.traced(seq, node, crate::trace::KindView::In(input)).stepped(node, input);
    let y1 = b.traced(seq, node, crate::trace::KindView::In(input)).stepped(node, input);
    assert(kin(strict, x1, y1));
    lemma_note_step(strict, x1, y1, node, was.role);
    let x2 = x1.note_step(node, was.role);
    let y2 = y1.note_step(node, was.role);
    let (tear, disk_rng) = x2.tear_point(outputs);
    assert(y2.tear_point(outputs) == (tear, disk_rng));
    let x3 = ClusterView { disk_rng, ..x2 };
    let y3 = ClusterView { disk_rng, ..y2 };
    assert(kin(strict, x3, y3));
    match tear {
        Some(t) if t < outputs.len() => {
            crate::watching::lemma_emit_all(strict, x3, y3, seq, node, outputs, t as int, was.commit_index);
            lemma_tear_step(
            strict,
                x3.emit_all(seq, node, outputs, t as int, was.commit_index),
                y3.emit_all(seq, node, outputs, t as int, was.commit_index),
                seq,
                node,
            );
        },
        _ => {
            let all = outputs.len() as int;
            crate::watching::lemma_emit_all(strict, x3, y3, seq, node, outputs, all, was.commit_index);
            let x4 = x3.emit_all(seq, node, outputs, all, was.commit_index);
            let y4 = y3.emit_all(seq, node, outputs, all, was.commit_index);
            let dirty = crate::cluster_model::dirty_in(outputs, all);
            lemma_observe(strict, x4, y4, node, dirty);
            let x5 = x4.observe(node, dirty);
            let y5 = y4.observe(node, dirty);
            reveal(ClusterView::consider_compaction);
            assert(kin(strict, x5.consider_compaction(node), y5.consider_compaction(node)));
            crate::watching::lemma_rearm_timer(strict, x5.consider_compaction(node), y5.consider_compaction(node), node);
        },
    }
}

proof fn lemma_compact_node(strict: bool, a: ClusterView, b: ClusterView, seq: u64, node: u32)
    requires
        kin(strict, a, b),
    ensures
        kin(strict, a.compact_node(seq, node), b.compact_node(seq, node)),
{
    reveal(ClusterView::compact_node);
    if a.has(node) {
        let x = a.set_compacting(node, false);
        let y = b.set_compacting(node, false);
        assert(kin(strict, x, y));
        let n = x.host(node).node;
        let applied = n.last_applied;
        if !(!x.is_available(node) || applied == 0 || applied <= x.covered(node)) {
            match n.log.term_at(applied) {
                None => {},
                Some(term) => {
                    let stats = crate::cluster::RunStats {
                        snapshots_taken: x.stats.snapshots_taken.saturating_add(1),
                        ..x.stats
                    };
                    let moment = crate::timeline::MomentView::SnapshotTaken {
                        node,
                        through: applied,
                    };
                    lemma_deliver(
            strict,
                        x.with_stats(stats).marked(moment),
                        y.with_stats(stats).marked(moment),
                        seq,
                        node,
                        InputView::Compact(
                            SnapshotView {
                                last_included: crate::LogId { index: applied, term },
                                config: n.cluster,
                                data: x.host(node).machine.json().bytes(),
                            },
                        ),
                    );
                },
            }
        }
    }
}

proof fn lemma_on_timer(strict: bool, a: ClusterView, b: ClusterView, seq: u64, node: u32)
    requires
        kin(strict, a, b),
    ensures
        kin(strict, a.on_timer(seq, node), b.on_timer(seq, node)),
{
    reveal(ClusterView::on_timer);
    if a.has(node) {
        let x = if a.host(node).timer_at == Some(a.now) {
            a.set_timer(node, None)
        } else {
            a
        };
        let y = if b.host(node).timer_at == Some(b.now) {
            b.set_timer(node, None)
        } else {
            b
        };
        assert(kin(strict, x, y));
        let running = crate::cluster::NodeStatus::Running;
        assert(kin(strict, x.set_status(node, running), y.set_status(node, running)));
        lemma_deliver(strict, x, y, seq, node, InputView::Tick);
        lemma_deliver(
            strict,
            x.set_status(node, running),
            y.set_status(node, running),
            seq,
            node,
            InputView::Tick,
        );
    }
}

proof fn lemma_on_delivery(
    strict: bool,
    a: ClusterView,
    b: ClusterView,
    seq: u64,
    from: u32,
    to: u32,
    msg: MessageView,
    sent_at: u64,
)
    requires
        kin(strict, a, b),
    ensures
        kin(
            strict,
            a.on_delivery(seq, from, to, msg, sent_at),
            b.on_delivery(seq, from, to, msg, sent_at),
        ),
{
    reveal(ClusterView::on_delivery);
    lemma_deliver(strict, a, b, seq, to, InputView::Message { from, msg });
}

proof fn lemma_on_client(strict: bool, a: ClusterView, b: ClusterView, seq: u64, node: u32, req: RequestView)
    requires
        kin(strict, a, b),
    ensures
        kin(strict, a.on_client(seq, node, req), b.on_client(seq, node, req)),
{
    reveal(ClusterView::on_client);
    reveal(ClusterView::serve_stale_read);
    reveal(ClusterView::record_outcome);
    lemma_deliver(strict, a, b, seq, node, InputView::ClientRequest(req));
}

proof fn lemma_on_event(strict: bool, a: ClusterView, b: ClusterView, seq: u64, event: EventView)
    requires
        kin(strict, a, b),
    ensures
        kin(strict, a.on_event(seq, event), b.on_event(seq, event)),
{
    reveal(ClusterView::on_event);
    match event {
        EventView::Timer { node } => lemma_on_timer(strict, a, b, seq, node),
        EventView::Deliver { from, to, msg, sent_at } => lemma_on_delivery(
            strict,
            a,
            b,
            seq,
            from,
            to,
            msg,
            sent_at,
        ),
        EventView::Client { node, req } => lemma_on_client(strict, a, b, seq, node, req),
        EventView::Compact { node } => lemma_compact_node(strict, a, b, seq, node),
        EventView::Fault { fault } => crate::watching::lemma_apply_fault(strict, a, b, seq, fault),
    }
}

// ---------------------------------------------------------------------------
// The laws
// ---------------------------------------------------------------------------

proof fn lemma_step(strict: bool, a: ClusterView, b: ClusterView)
    requires
        kin(strict, a, b),
    ensures
        kin(strict, a.step(), b.step()),
{
    reveal(ClusterView::step);
    if a.queue.slots.len() > 0 {
        let next = a.queue.slots[0];
        let x = ClusterView {
            queue: a.queue.rest(),
            now: next.tick,
            events_processed: a.events_processed.saturating_add(1),
            ..a
        };
        let y = ClusterView {
            queue: b.queue.rest(),
            now: next.tick,
            events_processed: b.events_processed.saturating_add(1),
            ..b
        };
        assert(kin(strict, x, y));
        lemma_on_event(strict, x, y, next.seq, next.event);
    }
}

/// Two clusters that differ only in what watches them still differ only in that
/// after their next event; and if they have the same checkers, those find the
/// same.
pub proof fn law_watching_changes_no_step(a: ClusterView, b: ClusterView)
    requires
        same_run(a, b),
    ensures
        same_run(a.step(), b.step()),
        same_checks(a, b) ==> same_checks(a.step(), b.step()),
{
    lemma_step(false, a, b);
    if same_checks(a, b) {
        lemma_step(true, a, b);
    }
}

/// Neither does any number of events, nor a run to a deadline: the same number
/// of them happens, and to the same effect.
pub proof fn law_watching_changes_no_run(a: ClusterView, b: ClusterView, n: nat, deadline: u64)
    requires
        same_run(a, b),
    ensures
        same_run(a.after(n), b.after(n)),
        same_checks(a, b) ==> same_checks(a.after(n), b.after(n)),
        a.runs_for(deadline, n) == b.runs_for(deadline, n),
        a.runs_for(deadline, n) ==> same_run(a.ran_until(deadline), b.ran_until(deadline)),
        a.runs_for(deadline, n) && same_checks(a, b) ==> same_checks(
            a.ran_until(deadline),
            b.ran_until(deadline),
        ),
{
    lemma_after(same_checks(a, b), a, b, n);
    if a.runs_for(deadline, n) {
        lemma_runs_for(a, b, n, deadline);
    }
    if b.runs_for(deadline, n) {
        lemma_runs_for(b, a, n, deadline);
    }
    if a.runs_for(deadline, n) {
        let m = a.events_until(deadline);
        let k = b.events_until(deadline);
        crate::cluster_model::law_runs_are_determined(a, deadline, n, m);
        crate::cluster_model::law_runs_are_determined(b, deadline, n, k);
    }
}

/// Nor does it change how long a wait for a leader takes, and what comes of it.
pub proof fn law_watching_changes_no_wait(a: ClusterView, b: ClusterView, n: nat, deadline: u64)
    requires
        same_run(a, b),
    ensures
        a.leader() == b.leader(),
        a.waits_for_leader(deadline, n) == b.waits_for_leader(deadline, n),
        a.waits_for_leader(deadline, n) ==> same_run(
            a.ran_to_leader(deadline),
            b.ran_to_leader(deadline),
        ),
        a.waits_for_leader(deadline, n) && same_checks(a, b) ==> same_checks(
            a.ran_to_leader(deadline),
            b.ran_to_leader(deadline),
        ),
{
    lemma_leader(a, b, a.hosts.len() as int);
    lemma_after(same_checks(a, b), a, b, n);
    if a.waits_for_leader(deadline, n) {
        lemma_waits(a, b, n, deadline);
    }
    if b.waits_for_leader(deadline, n) {
        lemma_waits(b, a, n, deadline);
    }
    if a.waits_for_leader(deadline, n) {
        let m = a.events_to_leader(deadline);
        let k = b.events_to_leader(deadline);
        crate::cluster_model::law_runs_are_determined(a, deadline, n, m);
        crate::cluster_model::law_runs_are_determined(b, deadline, n, k);
    }
}

proof fn lemma_leader(a: ClusterView, b: ClusterView, n: int)
    requires
        same_run(a, b),
    ensures
        a.leader_among(n) == b.leader_among(n),
    decreases n,
{
    if n > 0 {
        lemma_leader(a, b, n - 1);
    }
}

proof fn lemma_waits(a: ClusterView, b: ClusterView, n: nat, deadline: u64)
    requires
        same_run(a, b),
        a.waits_for_leader(deadline, n),
    ensures
        b.waits_for_leader(deadline, n),
{
    assert forall|k: nat| k < n implies (#[trigger] b.after(k)).awaits(deadline) by {
        lemma_after(false, a, b, k);
        assert(a.after(k).awaits(deadline));
    }
    assert forall|k: nat| 0 < k < n implies (#[trigger] b.after(k)).leader() is None by {
        lemma_after(false, a, b, k);
        lemma_leader(a.after(k), b.after(k), a.after(k).hosts.len() as int);
        assert(a.after(k).leader() is None);
    }
    lemma_after(false, a, b, n);
    lemma_leader(a.after(n), b.after(n), a.after(n).hosts.len() as int);
}

/// Nor does it change what a client's or an operator's request does.
pub proof fn law_watching_changes_no_request(
    a: ClusterView,
    b: ClusterView,
    node: u32,
    client: u32,
    seq: u64,
    cmd: CommandView,
    voters: Set<u32>,
    fault: FaultView,
)
    requires
        same_run(a, b),
    ensures
        same_run(a.submit(node, client, seq, cmd), b.submit(node, client, seq, cmd)),
        same_run(a.abandon(client, seq), b.abandon(client, seq)),
        same_run(a.change_membership(node, voters), b.change_membership(node, voters)),
        same_run(a.inject(fault), b.inject(fault)),
        same_checks(a, b) ==> same_checks(
            a.submit(node, client, seq, cmd),
            b.submit(node, client, seq, cmd),
        ) && same_checks(a.abandon(client, seq), b.abandon(client, seq)) && same_checks(
            a.change_membership(node, voters),
            b.change_membership(node, voters),
        ) && same_checks(a.inject(fault), b.inject(fault)),
{
    reveal(ClusterView::submit);
    reveal(ClusterView::change_membership);
    let strict = same_checks(a, b);
    crate::watching::lemma_disturb(strict, a, b, a.events_processed, fault);
    let stats = crate::cluster::RunStats {
        membership_changes: a.stats.membership_changes.saturating_add(1),
        ..a.stats
    };
    let listed = crate::order::in_order(voters);
    let moment = crate::timeline::MomentView::MembershipChanged { voters: listed };
    let kind = crate::trace::KindView::MembershipChange { voters: listed };
    let seq = a.events_processed;
    lemma_deliver(
        strict,
        a.with_stats(stats).marked(moment).traced(seq, node, kind),
        b.with_stats(stats).marked(moment).traced(seq, node, kind),
        seq,
        node,
        InputView::ChangeMembership(voters),
    );
}

proof fn lemma_after(strict: bool, a: ClusterView, b: ClusterView, n: nat)
    requires
        kin(strict, a, b),
    ensures
        kin(strict, a.after(n), b.after(n)),
    decreases n,
{
    if n > 0 {
        lemma_after(strict, a, b, (n - 1) as nat);
        lemma_step(strict, a.after((n - 1) as nat), b.after((n - 1) as nat));
    }
}

proof fn lemma_runs_for(a: ClusterView, b: ClusterView, n: nat, deadline: u64)
    requires
        same_run(a, b),
        a.runs_for(deadline, n),
    ensures
        b.runs_for(deadline, n),
{
    assert forall|k: nat| k < n implies (#[trigger] b.after(k)).busy_until(deadline) by {
        lemma_after(false, a, b, k);
        assert(a.after(k).busy_until(deadline));
    }
    lemma_after(false, a, b, n);
}

/// A run with the trace or the checkers off starts as the same run with them
/// on.
pub proof fn law_watching_changes_no_start(a: SimView, b: SimView)
    requires
        b == (SimView {
            record_trace: b.record_trace,
            check_invariants: b.check_invariants,
            ..a
        }),
    ensures
        same_run(ClusterView::start(a), ClusterView::start(b)),
        a.check_invariants == b.check_invariants ==> same_checks(
            ClusterView::start(a),
            ClusterView::start(b),
        ),
{
    let strict = a.check_invariants == b.check_invariants;
    let x = ClusterView::idle(a);
    let y = ClusterView::idle(b);
    assert(a.initial_config() == b.initial_config());
    assert(x.hosts =~= y.hosts) by {
        assert forall|i: int| 0 <= i < x.hosts.len() implies x.hosts[i] == y.hosts[i] by {
            assert(crate::cluster_model::first_host(a, i) == crate::cluster_model::first_host(
                b,
                i,
            ));
        }
    }
    assert(kin(strict, x, y));
    lemma_primed(strict, x, y, a.nodes as nat);
    let p = x.primed(a.nodes as nat);
    let q = y.primed(a.nodes as nat);
    match a.scripted_faults {
        Some(script) => lemma_scripted(strict, p, q, script, script.len() as int),
        None => crate::watching::lemma_schedule_next_fault(strict, p, q),
    }
}

proof fn lemma_primed(strict: bool, a: ClusterView, b: ClusterView, n: nat)
    requires
        kin(strict, a, b),
    ensures
        kin(strict, a.primed(n), b.primed(n)),
    decreases n,
{
    if n > 0 {
        lemma_primed(strict, a, b, (n - 1) as nat);
    }
}

proof fn lemma_scripted(strict: bool, a: ClusterView, b: ClusterView, script: Seq<(u64, FaultView)>, n: int)
    requires
        kin(strict, a, b),
    ensures
        kin(strict, a.scripted(script, n), b.scripted(script, n)),
    decreases n,
{
    if n > 0 {
        lemma_scripted(strict, a, b, script, n - 1);
    }
}

} // verus!
