//! What watches a run, operation by operation.
//!
//! Each thing that a cluster does keeps two clusters alike that differ only in
//! what watches them.
use crate::cluster_model::{ClusterView, KindOfOutcome};
use crate::faults::FaultView;
use crate::log::PayloadView;
use crate::message::MessageView;
use crate::model::{OutputView, PersistView};
use crate::snapshot::SnapshotView;
use vstd::prelude::*;

verus! {

pub(crate) proof fn lemma_rearm_timer(strict: bool, a: ClusterView, b: ClusterView, node: u32)
    requires
        crate::observation::kin(strict, a, b),
    ensures
        crate::observation::kin(strict, a.rearm_timer(node), b.rearm_timer(node)),
{
    reveal(ClusterView::rearm_timer);
}

pub(crate) proof fn lemma_schedule_next_fault(strict: bool, a: ClusterView, b: ClusterView)
    requires
        crate::observation::kin(strict, a, b),
    ensures
        crate::observation::kin(strict, a.schedule_next_fault(), b.schedule_next_fault()),
{
    reveal(ClusterView::schedule_next_fault);
}

pub(crate) proof fn lemma_crash_node(strict: bool, a: ClusterView, b: ClusterView, seq: u64, node: u32)
    requires
        crate::observation::kin(strict, a, b),
    ensures
        crate::observation::kin(strict, a.crash_node(seq, node), b.crash_node(seq, node)),
{
    reveal(ClusterView::crash_node);
}

pub(crate) proof fn lemma_rebuilt(a: ClusterView, b: ClusterView, node: u32)
    requires
        crate::observation::same_run(a, b),
    ensures
        a.rebuilt(node) == b.rebuilt(node),
        a.can_restart(node) == b.can_restart(node),
{
    assert(a.cfg.initial_config() == b.cfg.initial_config());
}

pub(crate) proof fn lemma_restart_node(strict: bool, a: ClusterView, b: ClusterView, seq: u64, node: u32)
    requires
        crate::observation::kin(strict, a, b),
    ensures
        crate::observation::kin(strict, a.restart_node(seq, node), b.restart_node(seq, node)),
{
    reveal(ClusterView::restart_node);
    lemma_rebuilt(a, b, node);
    if a.has(node) && a.host(node).status is Crashed && a.can_restart(node) {
        let host = a.rebuilt(node);
        let stats = crate::cluster::RunStats {
            restarts: a.stats.restarts.saturating_add(1),
            ..a.stats
        };
        let moment = crate::timeline::MomentView::Restarted { node };
        let covered = match host.disk.snapshot {
            Some(s) => s.last_included.index,
            None => 0,
        };
        let kind = crate::trace::KindView::Restarted {
            current_term: host.disk.current_term,
            voted_for: host.disk.voted_for,
            last_index: host.disk.log.last_index(),
        };
        let x = a.with_host(node, host).with_stats(stats).marked(moment);
        let y = b.with_host(node, host).with_stats(stats).marked(moment);
        let p = ClusterView { checker: x.checker.note_restart(node, covered), ..x }.traced(
            seq,
            node,
            kind,
        );
        let q = ClusterView { checker: y.checker.note_restart(node, covered), ..y }.traced(
            seq,
            node,
            kind,
        );
        assert(crate::observation::kin(strict, p, q));
        lemma_rearm_timer(strict, p, q, node);
    }
}

pub(crate) proof fn lemma_pause_node(strict: bool, a: ClusterView, b: ClusterView, node: u32, ticks: u64)
    requires
        crate::observation::kin(strict, a, b),
    ensures
        crate::observation::kin(strict, a.pause_node(node, ticks), b.pause_node(node, ticks)),
{
    reveal(ClusterView::pause_node);
    if a.is_available(node) {
        let status = crate::cluster::NodeStatus::Paused {
            until: a.now.saturating_add(crate::model::max_of(ticks, 1)),
        };
        let stats = crate::cluster::RunStats {
            pauses: a.stats.pauses.saturating_add(1),
            ..a.stats
        };
        lemma_rearm_timer(
            strict,
            a.set_status(node, status).with_stats(stats),
            b.set_status(node, status).with_stats(stats),
            node,
        );
    }
}

pub(crate) proof fn lemma_repair_all(strict: bool, a: ClusterView, b: ClusterView, seq: u64, n: nat)
    requires
        crate::observation::kin(strict, a, b),
    ensures
        crate::observation::kin(strict, a.repair_all(seq, n), b.repair_all(seq, n)),
    decreases n,
{
    if n > 0 {
        lemma_repair_all(strict, a, b, seq, (n - 1) as nat);
        let x = a.repair_all(seq, (n - 1) as nat);
        let y = b.repair_all(seq, (n - 1) as nat);
        let node = (n - 1) as u32;
        reveal(ClusterView::repair);
        lemma_restart_node(strict, x, y, seq, node);
        lemma_rearm_timer(
            strict,
            x.set_status(node, crate::cluster::NodeStatus::Running),
            y.set_status(node, crate::cluster::NodeStatus::Running),
            node,
        );
    }
}

pub(crate) proof fn lemma_disturb(strict: bool, a: ClusterView, b: ClusterView, seq: u64, fault: FaultView)
    requires
        crate::observation::kin(strict, a, b),
    ensures
        crate::observation::kin(strict, a.disturb(seq, fault), b.disturb(seq, fault)),
{
    reveal(ClusterView::disturb);
    reveal(ClusterView::apply_node_fault);
    let ids = crate::cluster_model::ids(a.hosts.len());
    let blocked = crate::faults::links_after(a.net.blocked, fault, ids);
    let x = ClusterView { net: crate::network::NetView { blocked, ..a.net }, ..a };
    let y = ClusterView { net: crate::network::NetView { blocked, ..b.net }, ..b };
    assert(crate::observation::kin(strict, x, y));
    match fault {
        FaultView::Crash { node } => lemma_crash_node(strict, x, y, seq, node),
        FaultView::Restart { node } => lemma_restart_node(strict, x, y, seq, node),
        FaultView::Pause { node, ticks } => lemma_pause_node(strict, x, y, node, ticks),
        FaultView::Heal => lemma_repair_all(strict, x, y, seq, x.hosts.len()),
        _ => {},
    }
    assert(crate::observation::kin(strict, x.apply_node_fault(seq, fault), y.apply_node_fault(seq, fault)));
}

pub(crate) proof fn lemma_apply_fault(strict: bool, a: ClusterView, b: ClusterView, seq: u64, fault: FaultView)
    requires
        crate::observation::kin(strict, a, b),
    ensures
        crate::observation::kin(strict, a.apply_fault(seq, fault), b.apply_fault(seq, fault)),
{
    reveal(ClusterView::apply_fault);
    lemma_disturb(strict, a, b, seq, fault);
    let x = ClusterView { disturbed: !(fault is Heal), ..a.disturb(seq, fault) };
    let y = ClusterView { disturbed: !(fault is Heal), ..b.disturb(seq, fault) };
    lemma_schedule_next_fault(strict, x, y);
}

pub(crate) proof fn lemma_record_outcome(
    strict: bool,
    a: ClusterView,
    b: ClusterView,
    node: u32,
    client: u32,
    seq: u64,
    result: KindOfOutcome,
)
    requires
        crate::observation::kin(strict, a, b),
    ensures
        crate::observation::kin(
            strict,
            a.record_outcome(node, client, seq, result),
            b.record_outcome(node, client, seq, result),
        ),
{
    reveal(ClusterView::record_outcome);
}

pub(crate) proof fn lemma_apply_entry(
    strict: bool,
    a: ClusterView,
    b: ClusterView,
    seq: u64,
    node: u32,
    index: u64,
    term: u64,
    payload: PayloadView,
    client: Option<(u32, u64)>,
    respond: bool,
)
    requires
        crate::observation::kin(strict, a, b),
    ensures
        crate::observation::kin(
            strict,
            a.apply_entry(seq, node, index, term, payload, client, respond),
            b.apply_entry(seq, node, index, term, payload, client, respond),
        ),
{
    reveal(ClusterView::apply_entry);
    reveal(ClusterView::record_outcome);
}

pub(crate) proof fn lemma_serve_read(
    strict: bool,
    a: ClusterView,
    b: ClusterView,
    seq: u64,
    node: u32,
    client: u32,
    client_seq: u64,
    command: Seq<u8>,
    read_index: u64,
)
    requires
        crate::observation::kin(strict, a, b),
    ensures
        crate::observation::kin(
            strict,
            a.serve_read(seq, node, client, client_seq, command, read_index),
            b.serve_read(seq, node, client, client_seq, command, read_index),
        ),
{
    reveal(ClusterView::serve_read);
    reveal(ClusterView::record_outcome);
}

pub(crate) proof fn lemma_install(strict: bool, a: ClusterView, b: ClusterView, seq: u64, node: u32, snapshot: SnapshotView)
    requires
        crate::observation::kin(strict, a, b),
    ensures
        crate::observation::kin(strict, a.install(seq, node, snapshot), b.install(seq, node, snapshot)),
{
    reveal(ClusterView::install);
}

pub(crate) proof fn lemma_send(strict: bool, a: ClusterView, b: ClusterView, seq: u64, node: u32, to: u32, msg: MessageView)
    requires
        crate::observation::kin(strict, a, b),
    ensures
        crate::observation::kin(strict, a.send(seq, node, to, msg), b.send(seq, node, to, msg)),
{
    reveal(ClusterView::send);
}

pub(crate) proof fn lemma_persist(strict: bool, a: ClusterView, b: ClusterView, node: u32, op: PersistView, commit: u64)
    requires
        crate::observation::kin(strict, a, b),
    ensures
        crate::observation::kin(strict, a.persist(node, op, commit), b.persist(node, op, commit)),
{
    reveal(ClusterView::persist);
    reveal(ClusterView::note_truncation);
}

pub(crate) proof fn lemma_emit(
    strict: bool,
    a: ClusterView,
    b: ClusterView,
    seq: u64,
    node: u32,
    output: OutputView,
    commit: u64,
)
    requires
        crate::observation::kin(strict, a, b),
    ensures
        crate::observation::kin(strict, a.emit(seq, node, output, commit), b.emit(seq, node, output, commit)),
{
    reveal(ClusterView::emit);
    let x = a.traced(seq, node, crate::trace::KindView::Out(output));
    let y = b.traced(seq, node, crate::trace::KindView::Out(output));
    assert(crate::observation::kin(strict, x, y));
    match output {
        OutputView::Persist(op) => lemma_persist(strict, x, y, node, op, commit),
        OutputView::Send { to, msg } => lemma_send(strict, x, y, seq, node, to, msg),
        OutputView::Apply { index, term, payload, client, respond } => lemma_apply_entry(
            strict,
            x,
            y,
            seq,
            node,
            index,
            term,
            payload,
            client,
            respond,
        ),
        OutputView::ServeRead { client, seq: client_seq, command, read_index } => lemma_serve_read(
            strict,
            x,
            y,
            seq,
            node,
            client,
            client_seq,
            command,
            read_index,
        ),
        OutputView::RestoreSnapshot { snapshot } => lemma_install(strict, x, y, seq, node, snapshot),
        OutputView::ClientResponse { client, seq: client_seq, result } => match result {
            crate::node::ClientResult::NotLeader { leader } => lemma_record_outcome(
            strict,
                x,
                y,
                node,
                client,
                client_seq,
                KindOfOutcome::NotLeader { leader },
            ),
            crate::node::ClientResult::ChangeInProgress => {},
        },
    }
}

pub(crate) proof fn lemma_emit_all(
    strict: bool,
    a: ClusterView,
    b: ClusterView,
    seq: u64,
    node: u32,
    outputs: Seq<OutputView>,
    n: int,
    commit: u64,
)
    requires
        crate::observation::kin(strict, a, b),
    ensures
        crate::observation::kin(
            strict,
            a.emit_all(seq, node, outputs, n, commit),
            b.emit_all(seq, node, outputs, n, commit),
        ),
    decreases n,
{
    if n > 0 {
        lemma_emit_all(strict, a, b, seq, node, outputs, n - 1, commit);
        lemma_emit(
            strict,
            a.emit_all(seq, node, outputs, n - 1, commit),
            b.emit_all(seq, node, outputs, n - 1, commit),
            seq,
            node,
            outputs[n - 1],
            commit,
        );
    }
}

} // verus!
