//! What the clients asked for, as the history has it.
//!
//! Whatever the network, the disks and the nodes do to a request, the history
//! keeps who asked for what, under which number and how often; and that is what
//! the clients did.
use crate::cluster_model::ClusterView;
use crate::event::EventView;
use crate::faults::FaultView;
use crate::fuzz::Campaign;
use crate::history::{HistoryView, OpView};
use crate::model::{InputView, OutputView, RequestView};
use crate::workload::{AskView, DriverView, FlightView, WorkloadConfig, WorkloadView};
use vstd::prelude::*;

verus! {

/// The same request, sent as often, whatever became of it.
pub open spec fn same_ask(a: OpView, b: OpView) -> bool {
    &&& a.id == b.id
    &&& a.process == b.process
    &&& a.seq == b.seq
    &&& a.command == b.command
    &&& a.invoked == b.invoked
    &&& a.attempts == b.attempts
}

/// The same requests, sent as often, whatever became of them.
pub open spec fn same_asks(a: HistoryView, b: HistoryView) -> bool {
    &&& a.index == b.index
    &&& a.ops.len() == b.ops.len()
    &&& forall|i: int| 0 <= i < a.ops.len() ==> same_ask(#[trigger] a.ops[i], b.ops[i])
}

// ---------------------------------------------------------------------------
// The cluster asks for nothing
// ---------------------------------------------------------------------------

proof fn lemma_rearm_timer(c: ClusterView, node: u32)
    ensures
        c.rearm_timer(node).history == c.history,
        c.rearm_timer(node).now == c.now,
        c.rearm_timer(node).events_processed == c.events_processed,
{
    reveal(ClusterView::rearm_timer);
}

proof fn lemma_crash_node(c: ClusterView, seq: u64, node: u32)
    ensures
        c.crash_node(seq, node).history == c.history,
        c.crash_node(seq, node).now == c.now,
        c.crash_node(seq, node).events_processed == c.events_processed,
{
    reveal(ClusterView::crash_node);
}

proof fn lemma_restart_node(c: ClusterView, seq: u64, node: u32)
    ensures
        c.restart_node(seq, node).history == c.history,
        c.restart_node(seq, node).now == c.now,
        c.restart_node(seq, node).events_processed == c.events_processed,
{
    reveal(ClusterView::restart_node);
    reveal(ClusterView::rearm_timer);
}

proof fn lemma_repair_all(c: ClusterView, seq: u64, n: nat)
    ensures
        c.repair_all(seq, n).history == c.history,
        c.repair_all(seq, n).now == c.now,
        c.repair_all(seq, n).events_processed == c.events_processed,
    decreases n,
{
    if n > 0 {
        let before = c.repair_all(seq, (n - 1) as nat);
        let node = (n - 1) as u32;
        lemma_repair_all(c, seq, (n - 1) as nat);
        reveal(ClusterView::repair);
        lemma_restart_node(before, seq, node);
        lemma_rearm_timer(before.set_status(node, crate::NodeStatus::Running), node);
    }
}

proof fn lemma_disturb(c: ClusterView, seq: u64, fault: FaultView)
    ensures
        c.disturb(seq, fault).history == c.history,
        c.disturb(seq, fault).now == c.now,
        c.disturb(seq, fault).events_processed == c.events_processed,
{
    reveal(ClusterView::disturb);
    reveal(ClusterView::apply_node_fault);
    let cut = ClusterView {
        net: crate::network::NetView {
            blocked: crate::faults::links_after(
                c.net.blocked,
                fault,
                crate::cluster_model::ids(c.hosts.len()),
            ),
            ..c.net
        },
        ..c
    };
    match fault {
        FaultView::Crash { node } => {
            lemma_crash_node(cut, seq, node);
        },
        FaultView::Restart { node } => {
            lemma_restart_node(cut, seq, node);
        },
        FaultView::Pause { node, ticks } => {
            reveal(ClusterView::pause_node);
            reveal(ClusterView::rearm_timer);
        },
        FaultView::Heal => {
            lemma_repair_all(cut, seq, cut.hosts.len());
        },
        _ => {},
    }
}

proof fn lemma_apply_fault(c: ClusterView, seq: u64, fault: FaultView)
    ensures
        c.apply_fault(seq, fault).history == c.history,
        c.apply_fault(seq, fault).now == c.now,
        c.apply_fault(seq, fault).events_processed == c.events_processed,
{
    reveal(ClusterView::apply_fault);
    reveal(ClusterView::schedule_next_fault);
    lemma_disturb(c, seq, fault);
}

proof fn lemma_emit(c: ClusterView, seq: u64, node: u32, output: OutputView, commit: u64)
    ensures
        same_asks(c.history, c.emit(seq, node, output, commit).history),
        c.emit(seq, node, output, commit).now == c.now,
        c.emit(seq, node, output, commit).events_processed == c.events_processed,
{
    reveal(ClusterView::emit);
    reveal(ClusterView::record_outcome);
    match output {
        OutputView::Persist(op) => {
            reveal(ClusterView::persist);
            reveal(ClusterView::note_truncation);
        },
        OutputView::Send { to, msg } => {
            reveal(ClusterView::send);
        },
        OutputView::Apply { index, term, payload, client, respond } => {
            reveal(ClusterView::apply_entry);
        },
        OutputView::ServeRead { client, seq: client_seq, command, read_index } => {
            reveal(ClusterView::serve_read);
        },
        OutputView::RestoreSnapshot { snapshot } => {
            reveal(ClusterView::install);
        },
        OutputView::ClientResponse { client, seq: client_seq, result } => {},
    }
}

proof fn lemma_emit_all(
    c: ClusterView,
    seq: u64,
    node: u32,
    outputs: Seq<OutputView>,
    n: int,
    commit: u64,
)
    ensures
        same_asks(c.history, c.emit_all(seq, node, outputs, n, commit).history),
        c.emit_all(seq, node, outputs, n, commit).now == c.now,
        c.emit_all(seq, node, outputs, n, commit).events_processed == c.events_processed,
    decreases n,
{
    if n > 0 {
        lemma_emit_all(c, seq, node, outputs, n - 1, commit);
        lemma_emit(
            c.emit_all(seq, node, outputs, n - 1, commit),
            seq,
            node,
            outputs[n - 1],
            commit,
        );
    }
}

proof fn lemma_mirror(c: ClusterView, from: int, to: int)
    ensures
        c.mirror(from, to).history == c.history,
        c.mirror(from, to).now == c.now,
        c.mirror(from, to).events_processed == c.events_processed,
    decreases to - from,
{
    if from < to {
        lemma_mirror(c, from, to - 1);
    }
}

proof fn lemma_observe(c: ClusterView, node: u32, dirty: Option<u64>)
    ensures
        c.observe(node, dirty).history == c.history,
        c.observe(node, dirty).now == c.now,
        c.observe(node, dirty).events_processed == c.events_processed,
{
    reveal(ClusterView::observe);
    let seen = ClusterView {
        checker: c.checker.observe_node(c.now, c.host(node).node, dirty),
        ..c
    };
    lemma_mirror(seen, c.checker.violations.len() as int, seen.checker.violations.len() as int);
}

proof fn lemma_tear_step(c: ClusterView, seq: u64, node: u32)
    ensures
        c.tear_step(seq, node).history == c.history,
        c.tear_step(seq, node).now == c.now,
        c.tear_step(seq, node).events_processed == c.events_processed,
{
    reveal(ClusterView::tear_step);
    reveal(ClusterView::crash_node);
}

proof fn lemma_consider_compaction(c: ClusterView, node: u32)
    ensures
        c.consider_compaction(node).history == c.history,
        c.consider_compaction(node).now == c.now,
        c.consider_compaction(node).events_processed == c.events_processed,
{
    reveal(ClusterView::consider_compaction);
}

proof fn lemma_note_step(c: ClusterView, node: u32, was: crate::node::Role)
    ensures
        c.note_step(node, was).history == c.history,
        c.note_step(node, was).now == c.now,
        c.note_step(node, was).events_processed == c.events_processed,
{
    reveal(ClusterView::note_step);
}

proof fn lemma_deliver(c: ClusterView, seq: u64, node: u32, input: InputView)
    ensures
        same_asks(c.history, c.deliver(seq, node, input).history),
        c.deliver(seq, node, input).now == c.now,
        c.deliver(seq, node, input).events_processed == c.events_processed,
{
    reveal(ClusterView::deliver);
    let was = c.host(node).node;
    let outputs = c.outputs(node, input);
    let came = c.traced(seq, node, crate::trace::KindView::In(input)).stepped(node, input);
    let noted = came.note_step(node, was.role);
    lemma_note_step(came, node, was.role);
    let (tear, disk_rng) = noted.tear_point(outputs);
    let drawn = ClusterView { disk_rng, ..noted };
    match tear {
        Some(t) if t < outputs.len() => {
            lemma_emit_all(drawn, seq, node, outputs, t as int, was.commit_index);
            lemma_tear_step(
                drawn.emit_all(seq, node, outputs, t as int, was.commit_index),
                seq,
                node,
            );
        },
        _ => {
            let n = outputs.len() as int;
            let done = drawn.emit_all(seq, node, outputs, n, was.commit_index);
            let dirty = crate::cluster_model::dirty_in(outputs, n);
            lemma_emit_all(drawn, seq, node, outputs, n, was.commit_index);
            lemma_observe(done, node, dirty);
            lemma_consider_compaction(done.observe(node, dirty), node);
            lemma_rearm_timer(done.observe(node, dirty).consider_compaction(node), node);
        },
    }
}

proof fn lemma_compact_node(c: ClusterView, seq: u64, node: u32)
    ensures
        same_asks(c.history, c.compact_node(seq, node).history),
        c.compact_node(seq, node).now == c.now,
        c.compact_node(seq, node).events_processed == c.events_processed,
{
    reveal(ClusterView::compact_node);
    let idle = c.set_compacting(node, false);
    let n = idle.host(node).node;
    let applied = n.last_applied;
    match n.log.term_at(applied) {
        Some(term) => {
            let started = idle.with_stats(
                crate::cluster::RunStats {
                    snapshots_taken: idle.stats.snapshots_taken.saturating_add(1),
                    ..idle.stats
                },
            ).marked(crate::timeline::MomentView::SnapshotTaken { node, through: applied });
            lemma_deliver(
                started,
                seq,
                node,
                InputView::Compact(
                    crate::snapshot::SnapshotView {
                        last_included: crate::LogId { index: applied, term },
                        config: n.cluster,
                        data: idle.host(node).machine.json().bytes(),
                    },
                ),
            );
        },
        None => {},
    }
}

proof fn lemma_on_timer(c: ClusterView, seq: u64, node: u32)
    ensures
        same_asks(c.history, c.on_timer(seq, node).history),
        c.on_timer(seq, node).now == c.now,
        c.on_timer(seq, node).events_processed == c.events_processed,
{
    reveal(ClusterView::on_timer);
    let cleared = if c.host(node).timer_at == Some(c.now) {
        c.set_timer(node, None)
    } else {
        c
    };
    let woken = match cleared.host(node).status {
        crate::NodeStatus::Paused { until } if c.now >= until => cleared.set_status(
            node,
            crate::NodeStatus::Running,
        ),
        _ => cleared,
    };
    lemma_deliver(woken, seq, node, InputView::Tick);
}

proof fn lemma_on_client(c: ClusterView, seq: u64, node: u32, req: RequestView)
    ensures
        same_asks(c.history, c.on_client(seq, node, req).history),
        c.on_client(seq, node, req).now == c.now,
        c.on_client(seq, node, req).events_processed == c.events_processed,
{
    reveal(ClusterView::on_client);
    match c.stale_read(node, req) {
        Some(x) => {
            reveal(ClusterView::serve_stale_read);
            reveal(ClusterView::record_outcome);
        },
        None => {
            lemma_deliver(c, seq, node, InputView::ClientRequest(req));
        },
    }
}

pub(crate) proof fn lemma_on_event(c: ClusterView, seq: u64, event: EventView)
    ensures
        same_asks(c.history, c.on_event(seq, event).history),
        c.on_event(seq, event).now == c.now,
        c.on_event(seq, event).events_processed == c.events_processed,
{
    reveal(ClusterView::on_event);
    match event {
        EventView::Timer { node } => {
            lemma_on_timer(c, seq, node);
        },
        EventView::Deliver { from, to, msg, sent_at } => {
            reveal(ClusterView::on_delivery);
            lemma_deliver(c, seq, to, InputView::Message { from, msg });
        },
        EventView::Client { node, req } => {
            lemma_on_client(c, seq, node, req);
        },
        EventView::Compact { node } => {
            lemma_compact_node(c, seq, node);
        },
        EventView::Fault { fault } => {
            lemma_apply_fault(c, seq, fault);
        },
    }
}

/// Whatever happens in a cluster, nobody asks for anything but the clients: the
/// same requests are on record, under the same numbers and sent as often.
pub proof fn law_events_ask_for_nothing(c: ClusterView, n: nat)
    ensures
        same_asks(c.history, c.after(n).history),
    decreases n,
{
    if n > 0 {
        let before = c.after((n - 1) as nat);
        law_events_ask_for_nothing(c, (n - 1) as nat);
        reveal(ClusterView::step);
        if before.queue.slots.len() > 0 {
            let next = before.queue.slots[0];
            lemma_on_event(
                ClusterView {
                    queue: before.queue.rest(),
                    now: next.tick,
                    events_processed: before.events_processed.saturating_add(1),
                    ..before
                },
                next.seq,
                next.event,
            );
        }
    }
}

pub(crate) proof fn lemma_change_membership(c: ClusterView, leader: u32, voters: Set<u32>)
    ensures
        same_asks(c.history, c.change_membership(leader, voters).history),
        c.change_membership(leader, voters).now == c.now,
        c.change_membership(leader, voters).events_processed == c.events_processed,
{
    reveal(ClusterView::change_membership);
    let listed = crate::order::in_order(voters);
    let noted = c.with_stats(
        crate::cluster::RunStats {
            membership_changes: c.stats.membership_changes.saturating_add(1),
            ..c.stats
        },
    ).marked(crate::timeline::MomentView::MembershipChanged { voters: listed }).traced(
        c.events_processed,
        leader,
        crate::trace::KindView::MembershipChange { voters: listed },
    );
    lemma_deliver(noted, c.events_processed, leader, InputView::ChangeMembership(voters));
}

proof fn lemma_primed(c: ClusterView, n: nat)
    ensures
        c.primed(n).history == c.history,
    decreases n,
{
    if n > 0 {
        lemma_primed(c, (n - 1) as nat);
    }
}

proof fn lemma_scripted(c: ClusterView, script: Seq<(u64, FaultView)>, n: int)
    ensures
        c.scripted(script, n).history == c.history,
    decreases n,
{
    if n > 0 {
        lemma_scripted(c, script, n - 1);
    }
}

proof fn lemma_start(cfg: crate::cluster_model::SimView)
    ensures
        ClusterView::start(cfg).history == HistoryView::empty(),
{
    let up = ClusterView::idle(cfg).primed(cfg.nodes as nat);
    lemma_primed(ClusterView::idle(cfg), cfg.nodes as nat);
    match cfg.scripted_faults {
        Some(script) => {
            lemma_scripted(up, script, script.len() as int);
        },
        None => {
            reveal(ClusterView::schedule_next_fault);
        },
    }
}

// ---------------------------------------------------------------------------
// The clients' books
// ---------------------------------------------------------------------------

/// Request `seq` of `client` is on record, as operation `i`.
pub open spec fn on_record(h: HistoryView, client: u32, seq: u64) -> bool {
    &&& h.index.contains_key((client, seq))
    &&& h.index[(client, seq)] < h.ops.len()
    &&& h.ops[h.index[(client, seq)] as int].process == client
    &&& h.ops[h.index[(client, seq)] as int].seq == seq
}

/// Each client's requests are numbered from nought, without a gap and without a
/// repeat, and were made in that order.
pub open spec fn numbered(work: WorkloadView, h: HistoryView) -> bool {
    &&& forall|client: u32, seq: u64|
        client < work.cfg.clients && seq < work.next_seq[client as int] ==> #[trigger] on_record(
            h,
            client,
            seq,
        )
    &&& forall|client: u32, seq: u64| #[trigger]
        h.index.contains_key((client, seq)) ==> client < work.cfg.clients && seq
            < work.next_seq[client as int]
    &&& forall|i: int|
        0 <= i < h.ops.len() ==> {
            let o = #[trigger] h.ops[i];
            &&& h.index.contains_key((o.process, o.seq))
            &&& h.index[(o.process, o.seq)] == i
        }
    &&& forall|i: int, j: int|
        0 <= i < j < h.ops.len() && (#[trigger] h.ops[i]).process == (
        #[trigger] h.ops[j]).process ==> h.ops[i].seq < h.ops[j].seq
}

/// How often a request is sent at most: once, or as often as the clients are
/// told to try.
pub open spec fn most_attempts(d: DriverView) -> u32 {
    if d.max_attempts > 1 {
        d.max_attempts
    } else {
        1
    }
}

/// No request was sent too often.
pub open spec fn patient(d: DriverView, h: HistoryView) -> bool {
    forall|i: int|
        0 <= i < h.ops.len() ==> 1 <= (#[trigger] h.ops[i]).attempts <= most_attempts(d)
}

/// What is in flight is its client's latest request, and the history has the
/// same command for it and, but for what is still to be sent, as many attempts.
pub open spec fn flies(d: DriverView, h: HistoryView, f: FlightView, unsent: int) -> bool {
    let i = h.index[(f.client, f.seq)] as int;
    &&& f.client < d.work.cfg.clients
    &&& d.work.next_seq[f.client as int] == f.seq + 1
    &&& h.ops[i].command == f.command
    &&& h.ops[i].attempts == f.attempts - unsent
    &&& 1 <= f.attempts <= most_attempts(d)
}

/// The history has exactly what the clients did.
pub open spec fn books_agree(d: DriverView, h: HistoryView) -> bool {
    &&& d.work.wf()
    &&& crate::workload::one_each(d.in_flight)
    &&& numbered(d.work, h)
    &&& patient(d, h)
    &&& forall|k: int| 0 <= k < d.in_flight.len() ==> flies(d, h, #[trigger] d.in_flight[k], 0)
}

/// No more than `n` requests were made.
pub open spec fn few(d: DriverView, h: HistoryView, n: nat) -> bool {
    &&& h.ops.len() <= n
    &&& forall|c: int| 0 <= c < d.work.next_seq.len() ==> (#[trigger] d.work.next_seq[c]) <= n
}

proof fn lemma_books_keep(d: DriverView, a: HistoryView, b: HistoryView)
    requires
        same_asks(a, b),
        books_agree(d, a),
    ensures
        books_agree(d, b),
{
    lemma_numbered_keep(d.work, a, b);
    assert forall|i: int| 0 <= i < b.ops.len() implies 1 <= (#[trigger] b.ops[i]).attempts
        <= most_attempts(d) by {
        assert(same_ask(a.ops[i], b.ops[i]));
    }
    assert forall|k: int| 0 <= k < d.in_flight.len() implies flies(
        d,
        b,
        #[trigger] d.in_flight[k],
        0,
    ) by {
        let f = d.in_flight[k];
        assert(flies(d, a, f, 0));
        assert(on_record(a, f.client, f.seq));
        let i = a.index[(f.client, f.seq)] as int;
        assert(same_ask(a.ops[i], b.ops[i]));
    }
}

proof fn lemma_numbered_keep(work: WorkloadView, a: HistoryView, b: HistoryView)
    requires
        same_asks(a, b),
        numbered(work, a),
    ensures
        numbered(work, b),
{
    assert forall|client: u32, seq: u64|
        client < work.cfg.clients && seq < work.next_seq[client as int] implies #[trigger] on_record(
        b,
        client,
        seq,
    ) by {
        assert(on_record(a, client, seq));
        let i = a.index[(client, seq)] as int;
        assert(same_ask(a.ops[i], b.ops[i]));
    }
    assert forall|i: int| 0 <= i < b.ops.len() implies {
        let o = #[trigger] b.ops[i];
        &&& b.index.contains_key((o.process, o.seq))
        &&& b.index[(o.process, o.seq)] == i
    } by {
        assert(same_ask(a.ops[i], b.ops[i]));
    }
    assert forall|i: int, j: int|
        0 <= i < j < b.ops.len() && (#[trigger] b.ops[i]).process == (
        #[trigger] b.ops[j]).process implies b.ops[i].seq < b.ops[j].seq by {
        assert(same_ask(a.ops[i], b.ops[i]));
        assert(same_ask(a.ops[j], b.ops[j]));
    }
}

// ---------------------------------------------------------------------------
// A round of the clients
// ---------------------------------------------------------------------------

/// Where an overdue request came from.
proof fn lemma_overdue(d: DriverView, sim: ClusterView, n: int)
    requires
        0 <= n <= d.in_flight.len(),
        crate::workload::one_each(d.in_flight),
    ensures
        ({
            let due = d.overdue(sim, n);
            &&& forall|i: int|
                0 <= i < due.len() ==> exists|k: int|
                    0 <= k < n && due_for(d, sim, #[trigger] due[i], #[trigger] d.in_flight[k])
            &&& forall|i: int, j: int|
                0 <= i < j < due.len() ==> (#[trigger] due[i]).client != (
                #[trigger] due[j]).client
        }),
    decreases n,
{
    if n > 0 {
        lemma_overdue(d, sim, n - 1);
        let before = d.overdue(sim, n - 1);
        let due = d.overdue(sim, n);
        let f = d.in_flight[n - 1];
        assert forall|i: int| 0 <= i < due.len() implies exists|k: int|
            0 <= k < n && due_for(d, sim, #[trigger] due[i], #[trigger] d.in_flight[k]) by {
            if i < before.len() {
                assert(due[i] == before[i]);
                let k = choose|k: int|
                    0 <= k < n - 1 && due_for(d, sim, before[i], #[trigger] d.in_flight[k]);
                assert(due_for(d, sim, due[i], d.in_flight[k]));
            } else {
                assert(due_for(d, sim, due[i], f));
            }
        }
        assert forall|i: int, j: int| 0 <= i < j < due.len() implies (#[trigger] due[i]).client != (
        #[trigger] due[j]).client by {
            assert(due[i] == before[i]);
            if j == before.len() {
                let k = choose|k: int|
                    0 <= k < n - 1 && due_for(d, sim, before[i], #[trigger] d.in_flight[k]);
                assert(d.in_flight[k].client != d.in_flight[n - 1].client);
            } else {
                assert(due[j] == before[j]);
            }
        }
    }
}

/// This request in flight is to be sent again, as `ask`.
spec fn due_for(d: DriverView, sim: ClusterView, ask: AskView, f: FlightView) -> bool {
    &&& d.fate(f, sim) is Resend
    &&& ask == (AskView { client: f.client, seq: f.seq, command: f.command })
}

proof fn lemma_hopeless(d: DriverView, sim: ClusterView, n: int)
    requires
        0 <= n <= d.in_flight.len(),
    ensures
        forall|i: int|
            0 <= i < d.hopeless(sim, n).len() ==> exists|k: int|
                0 <= k < n && hopeless_for(
                    d,
                    sim,
                    #[trigger] d.hopeless(sim, n)[i],
                    #[trigger] d.in_flight[k],
                ),
    decreases n,
{
    if n > 0 {
        lemma_hopeless(d, sim, n - 1);
        let before = d.hopeless(sim, n - 1);
        let list = d.hopeless(sim, n);
        assert forall|i: int| 0 <= i < list.len() implies exists|k: int|
            0 <= k < n && hopeless_for(d, sim, #[trigger] list[i], #[trigger] d.in_flight[k]) by {
            if i < before.len() {
                assert(list[i] == before[i]);
                let k = choose|k: int|
                    0 <= k < n - 1 && hopeless_for(d, sim, before[i], #[trigger] d.in_flight[k]);
                assert(hopeless_for(d, sim, list[i], d.in_flight[k]));
            } else {
                assert(hopeless_for(d, sim, list[i], d.in_flight[n - 1]));
            }
        }
    }
}

spec fn hopeless_for(d: DriverView, sim: ClusterView, r: (u32, u64), f: FlightView) -> bool {
    d.fate(f, sim) is GiveUp && r == (f.client, f.seq)
}

/// Where what is kept came from.
proof fn lemma_kept(d: DriverView, sim: ClusterView, n: int)
    requires
        0 <= n <= d.in_flight.len(),
    ensures
        forall|i: int|
            0 <= i < d.kept(sim, n).len() ==> exists|k: int|
                0 <= k < n && kept_for(
                    d,
                    sim,
                    #[trigger] d.kept(sim, n)[i],
                    #[trigger] d.in_flight[k],
                ),
        forall|k: int|
            0 <= k < n && d.fate(#[trigger] d.in_flight[k], sim) is Resend ==> exists|i: int|
                0 <= i < d.kept(sim, n).len() && (#[trigger] d.kept(sim, n)[i]).client
                    == d.in_flight[k].client,
    decreases n,
{
    if n > 0 {
        lemma_kept(d, sim, n - 1);
        let before = d.kept(sim, n - 1);
        let kept = d.kept(sim, n);
        assert forall|i: int| 0 <= i < kept.len() implies exists|k: int|
            0 <= k < n && kept_for(d, sim, #[trigger] kept[i], #[trigger] d.in_flight[k]) by {
            if i < before.len() {
                assert(kept[i] == before[i]);
                let k = choose|k: int|
                    0 <= k < n - 1 && kept_for(d, sim, before[i], #[trigger] d.in_flight[k]);
                assert(kept_for(d, sim, kept[i], d.in_flight[k]));
            } else {
                assert(kept_for(d, sim, kept[i], d.in_flight[n - 1]));
            }
        }
        assert forall|k: int|
            0 <= k < n && d.fate(#[trigger] d.in_flight[k], sim) is Resend implies exists|i: int|
            0 <= i < kept.len() && (#[trigger] kept[i]).client == d.in_flight[k].client by {
            if k < n - 1 {
                let i = choose|i: int|
                    0 <= i < before.len() && (#[trigger] before[i]).client
                        == d.in_flight[k].client;
                assert(kept[i] == before[i]);
            } else {
                assert(kept[before.len() as int].client == d.in_flight[k].client);
            }
        }
    }
}

/// This is what became of a request in flight that is kept.
spec fn kept_for(d: DriverView, sim: ClusterView, g: FlightView, f: FlightView) -> bool {
    &&& d.fate(f, sim) is Wait || d.fate(f, sim) is Resend
    &&& g.client == f.client
    &&& g.seq == f.seq
    &&& g.command == f.command
    &&& g.attempts == f.attempts + if d.fate(f, sim) is Resend {
        1int
    } else {
        0int
    }
    &&& d.fate(f, sim) is Resend ==> f.attempts < d.max_attempts
}

/// The requests that are not given up keep their outcome.
proof fn lemma_give_up(d: DriverView, sim: ClusterView, list: Seq<(u32, u64)>, n: int)
    requires
        0 <= n <= list.len(),
        numbered(d.work, sim.history),
    ensures
        ({
            let (e, s) = d.give_up(sim, list, n);
            &&& same_asks(sim.history, s.history)
            &&& e.work == d.work
            &&& e.in_flight == d.in_flight
            &&& e.max_attempts == d.max_attempts
            &&& forall|client: u32, seq: u64|
                on_record(sim.history, client, seq) && (forall|k: int|
                    0 <= k < n ==> #[trigger] list[k] != (client, seq)) ==> (
                #[trigger] s.history.in_flight(client, seq)) == sim.history.in_flight(client, seq)
        }),
    decreases n,
{
    if n > 0 {
        lemma_give_up(d, sim, list, n - 1);
        let (e, s) = d.give_up(sim, list, n - 1);
        let r = list[n - 1];
        let t = s.abandon(r.0, r.1);
        lemma_numbered_keep(d.work, sim.history, s.history);
        assert forall|client: u32, seq: u64|
            on_record(sim.history, client, seq) && (forall|k: int|
                0 <= k < n ==> #[trigger] list[k] != (client, seq)) implies (
        #[trigger] t.history.in_flight(client, seq)) == sim.history.in_flight(client, seq) by {
            assert(list[n - 1] != (client, seq));
            assert(s.history.in_flight(client, seq) == sim.history.in_flight(client, seq));
            let i = s.history.index[(client, seq)] as int;
            match s.history.in_flight(r.0, r.1) {
                Some(j) => {
                    if i == j {
                        assert(on_record(s.history, client, seq));
                        assert(s.history.index[(s.history.ops[j].process, s.history.ops[j].seq)]
                            == j);
                        assert(on_record(s.history, r.0, r.1));
                    }
                },
                None => {},
            }
        }
    }
}

/// Some of what is still to be sent is this client's.
spec fn owes(due: Seq<AskView>, n: int, client: u32) -> int {
    if exists|k: int| n <= k < due.len() && (#[trigger] due[k]).client == client {
        1
    } else {
        0
    }
}

/// The books, when all of `due` but the first `n` are still to be sent.
spec fn books_but(d: DriverView, h: HistoryView, due: Seq<AskView>, n: int) -> bool {
    &&& d.work.wf()
    &&& crate::workload::one_each(d.in_flight)
    &&& numbered(d.work, h)
    &&& patient(d, h)
    &&& forall|k: int|
        0 <= k < d.in_flight.len() ==> flies(
            d,
            h,
            #[trigger] d.in_flight[k],
            owes(due, n, d.in_flight[k].client),
        )
    &&& forall|k: int|
        n <= k < due.len() ==> h.in_flight((#[trigger] due[k]).client, due[k].seq) is Some
            && exists|g: int|
            0 <= g < d.in_flight.len() && (#[trigger] d.in_flight[g]).client == due[k].client
                && d.in_flight[g].seq == due[k].seq
    &&& forall|i: int, j: int|
        0 <= i < j < due.len() ==> (#[trigger] due[i]).client != (#[trigger] due[j]).client
}

/// One request is sent again.
proof fn lemma_fire_again(d: DriverView, sim: ClusterView, due: Seq<AskView>, n: int)
    requires
        0 < n <= due.len(),
        books_but(d, sim.history, due, n - 1),
    ensures
        ({
            let (e, s) = d.fire(sim, due[n - 1]);
            &&& books_but(e, s.history, due, n)
            &&& s.history.ops.len() == sim.history.ops.len()
            &&& e.work.next_seq == d.work.next_seq
        }),
{
    reveal(ClusterView::submit);
    let ask = due[n - 1];
    let (e, s) = d.fire(sim, ask);
    let h = sim.history;
    let h2 = s.history;
    assert(h.in_flight(due[n - 1].client, due[n - 1].seq) is Some);
    let at = h.index[(ask.client, ask.seq)] as int;
    assert(h2.ops == h.ops.update(
        at,
        OpView { attempts: h.ops[at].attempts.saturating_add(1), ..h.ops[at] },
    ));
    assert(h2.index == h.index);
    let g = choose|g: int|
        0 <= g < d.in_flight.len() && (#[trigger] d.in_flight[g]).client == ask.client
            && d.in_flight[g].seq == ask.seq;
    assert(due[n - 1].client == ask.client);
    assert(owes(due, n - 1, d.in_flight[g].client) == 1);
    assert(flies(d, h, d.in_flight[g], 1));
    assert(numbered(e.work, h2)) by {
        assert forall|client: u32, seq: u64|
            client < e.work.cfg.clients && seq
                < e.work.next_seq[client as int] implies #[trigger] on_record(
            h2,
            client,
            seq,
        ) by {
            assert(on_record(h, client, seq));
        }
        assert forall|i: int| 0 <= i < h2.ops.len() implies {
            let o = #[trigger] h2.ops[i];
            &&& h2.index.contains_key((o.process, o.seq))
            &&& h2.index[(o.process, o.seq)] == i
        } by {
            assert(h.index[(h.ops[i].process, h.ops[i].seq)] == i);
        }
        assert forall|i: int, j: int|
            0 <= i < j < h2.ops.len() && (#[trigger] h2.ops[i]).process == (
            #[trigger] h2.ops[j]).process implies h2.ops[i].seq < h2.ops[j].seq by {
            assert(h.ops[i].process == h.ops[j].process);
        }
    }
    assert forall|i: int| 0 <= i < h2.ops.len() implies 1 <= (#[trigger] h2.ops[i]).attempts
        <= most_attempts(e) by {
        assert(1 <= h.ops[i].attempts <= most_attempts(d));
    }
    assert forall|k: int| 0 <= k < e.in_flight.len() implies flies(
        e,
        h2,
        #[trigger] e.in_flight[k],
        owes(due, n, e.in_flight[k].client),
    ) by {
        let f = d.in_flight[k];
        assert(e.in_flight[k] == f);
        assert(flies(d, h, f, owes(due, n - 1, f.client)));
        assert(on_record(h, f.client, f.seq));
        let i = h.index[(f.client, f.seq)] as int;
        if f.client == ask.client {
            assert(k == g);
            assert(owes(due, n, f.client) == 0) by {
                if exists|q: int| n <= q < due.len() && (#[trigger] due[q]).client == f.client {
                    let q = choose|q: int|
                        n <= q < due.len() && (#[trigger] due[q]).client == f.client;
                    assert(due[n - 1].client != due[q].client);
                }
            }
        } else {
            assert(i != at) by {
                assert(on_record(h, ask.client, ask.seq));
            }
            assert(owes(due, n, f.client) == owes(due, n - 1, f.client)) by {
                if exists|q: int| n - 1 <= q < due.len() && (#[trigger] due[q]).client
                    == f.client {
                    let q = choose|q: int|
                        n - 1 <= q < due.len() && (#[trigger] due[q]).client == f.client;
                    assert(q != n - 1);
                    assert(due[q].client == f.client);
                }
            }
        }
    }
    assert forall|k: int| n <= k < due.len() implies h2.in_flight(
        (#[trigger] due[k]).client,
        due[k].seq,
    ) is Some && exists|q: int|
        0 <= q < e.in_flight.len() && (#[trigger] e.in_flight[q]).client == due[k].client
            && e.in_flight[q].seq == due[k].seq by {
        assert(h.in_flight(due[k].client, due[k].seq) is Some);
        let q = choose|q: int|
            0 <= q < d.in_flight.len() && (#[trigger] d.in_flight[q]).client == due[k].client
                && d.in_flight[q].seq == due[k].seq;
        assert(e.in_flight[q].client == due[k].client);
    }
}

proof fn lemma_resend(d: DriverView, sim: ClusterView, due: Seq<AskView>, n: int)
    requires
        0 <= n <= due.len(),
        books_but(d, sim.history, due, 0),
    ensures
        ({
            let (e, s) = d.resend(sim, due, n);
            &&& books_but(e, s.history, due, n)
            &&& s.history.ops.len() == sim.history.ops.len()
            &&& e.work.next_seq == d.work.next_seq
        }),
    decreases n,
{
    if n > 0 {
        lemma_resend(d, sim, due, n - 1);
        let (e, s) = d.resend(sim, due, n - 1);
        let counted = DriverView { retries: e.retries.saturating_add(1), ..e };
        assert(books_but(counted, s.history, due, n - 1)) by {
            assert forall|k: int| 0 <= k < counted.in_flight.len() implies flies(
                counted,
                s.history,
                #[trigger] counted.in_flight[k],
                owes(due, n - 1, counted.in_flight[k].client),
            ) by {
                assert(flies(
                    e,
                    s.history,
                    e.in_flight[k],
                    owes(due, n - 1, e.in_flight[k].client),
                ));
            }
        }
        lemma_fire_again(counted, s, due, n);
    }
}

/// Before the overdue are sent again.
proof fn lemma_sorted_out(d: DriverView, sim: ClusterView)
    requires
        books_agree(d, sim.history),
    ensures
        ({
            let n = d.in_flight.len() as int;
            let due = d.overdue(sim, n);
            let list = d.hopeless(sim, n);
            let kept = DriverView { in_flight: d.kept(sim, n), ..d };
            let (e, s) = kept.give_up(sim, list, list.len() as int);
            &&& books_but(e, s.history, due, 0)
            &&& s.history.ops.len() == sim.history.ops.len()
            &&& e.work.next_seq == d.work.next_seq
        }),
{
    let n = d.in_flight.len() as int;
    let due = d.overdue(sim, n);
    let list = d.hopeless(sim, n);
    let kept = DriverView { in_flight: d.kept(sim, n), ..d };
    let (e, s) = kept.give_up(sim, list, list.len() as int);
    let h = sim.history;
    let h2 = s.history;
    lemma_overdue(d, sim, n);
    lemma_hopeless(d, sim, n);
    lemma_kept(d, sim, n);
    crate::workload::lemma_kept_clients(d, sim, n);
    lemma_give_up(kept, sim, list, list.len() as int);
    lemma_numbered_keep(d.work, h, h2);
    assert forall|i: int| 0 <= i < h2.ops.len() implies 1 <= (#[trigger] h2.ops[i]).attempts
        <= most_attempts(e) by {
        assert(same_ask(h.ops[i], h2.ops[i]));
    }
    assert forall|k: int| 0 <= k < e.in_flight.len() implies flies(
        e,
        h2,
        #[trigger] e.in_flight[k],
        owes(due, 0, e.in_flight[k].client),
    ) by {
        let g = e.in_flight[k];
        assert(g == d.kept(sim, n)[k]);
        let j = choose|j: int| 0 <= j < n && kept_for(d, sim, g, #[trigger] d.in_flight[j]);
        let f = d.in_flight[j];
        assert(flies(d, h, f, 0));
        assert(on_record(h, f.client, f.seq));
        let i = h.index[(f.client, f.seq)] as int;
        assert(same_ask(h.ops[i], h2.ops[i]));
        lemma_owed(d, sim, f, j);
    }
    assert forall|k: int| 0 <= k < due.len() implies h2.in_flight(
        (#[trigger] due[k]).client,
        due[k].seq,
    ) is Some && exists|q: int|
        0 <= q < e.in_flight.len() && (#[trigger] e.in_flight[q]).client == due[k].client
            && e.in_flight[q].seq == due[k].seq by {
        let j = choose|j: int|
            0 <= j < n && due_for(d, sim, due[k], #[trigger] d.in_flight[j]);
        let f = d.in_flight[j];
        assert(flies(d, h, f, 0));
        assert(on_record(h, f.client, f.seq));
        assert(h.in_flight(f.client, f.seq) is Some);
        assert forall|q: int| 0 <= q < list.len() implies #[trigger] list[q] != (
            f.client,
            f.seq,
        ) by {
            let m = choose|m: int|
                0 <= m < n && hopeless_for(d, sim, list[q], #[trigger] d.in_flight[m]);
            assert(m != j);
            if m < j {
                assert(d.in_flight[m].client != d.in_flight[j].client);
            } else {
                assert(d.in_flight[j].client != d.in_flight[m].client);
            }
        }
        assert(h2.in_flight(f.client, f.seq) == h.in_flight(f.client, f.seq));
        let q = choose|q: int|
            0 <= q < d.kept(sim, n).len() && (#[trigger] d.kept(sim, n)[q]).client == f.client;
        assert(e.in_flight[q].client == due[k].client);
        let m = choose|m: int|
            0 <= m < n && kept_for(d, sim, d.kept(sim, n)[q], #[trigger] d.in_flight[m]);
        if m < j {
            assert(d.in_flight[m].client != d.in_flight[j].client);
        } else if j < m {
            assert(d.in_flight[j].client != d.in_flight[m].client);
        }
    }
}

/// What is still to be sent is exactly what is overdue.
proof fn lemma_owed(d: DriverView, sim: ClusterView, f: FlightView, j: int)
    requires
        0 <= j < d.in_flight.len(),
        f == d.in_flight[j],
        crate::workload::one_each(d.in_flight),
    ensures
        owes(d.overdue(sim, d.in_flight.len() as int), 0, f.client) == if d.fate(f, sim) is Resend {
            1int
        } else {
            0int
        },
{
    let n = d.in_flight.len() as int;
    let due = d.overdue(sim, n);
    lemma_overdue(d, sim, n);
    if d.fate(f, sim) is Resend {
        lemma_overdue_lists(d, sim, n, j);
    } else if exists|k: int| 0 <= k < due.len() && (#[trigger] due[k]).client == f.client {
        let k = choose|k: int| 0 <= k < due.len() && (#[trigger] due[k]).client == f.client;
        let m = choose|m: int|
            0 <= m < n && due_for(d, sim, due[k], #[trigger] d.in_flight[m]);
        if m < j {
            assert(d.in_flight[m].client != d.in_flight[j].client);
        } else if j < m {
            assert(d.in_flight[j].client != d.in_flight[m].client);
        }
    }
}

proof fn lemma_overdue_lists(d: DriverView, sim: ClusterView, n: int, j: int)
    requires
        0 <= j < n <= d.in_flight.len(),
        d.fate(d.in_flight[j], sim) is Resend,
    ensures
        exists|k: int|
            0 <= k < d.overdue(sim, n).len() && (#[trigger] d.overdue(sim, n)[k]).client
                == d.in_flight[j].client,
    decreases n,
{
    let due = d.overdue(sim, n);
    if j == n - 1 {
        assert(due[due.len() - 1].client == d.in_flight[j].client);
    } else {
        lemma_overdue_lists(d, sim, n - 1, j);
        let before = d.overdue(sim, n - 1);
        let k = choose|k: int|
            0 <= k < before.len() && (#[trigger] before[k]).client == d.in_flight[j].client;
        assert(due[k] == before[k]);
    }
}

/// A new request keeps the books.
proof fn lemma_issue(d: DriverView, sim: ClusterView, n: nat)
    requires
        books_agree(d, sim.history),
        few(d, sim.history, n),
        n < usize::MAX,
    ensures
        ({
            let (e, s) = d.issue(sim);
            books_agree(e, s.history) && few(e, s.history, n + 1)
        }),
{
    reveal(ClusterView::submit);
    let h = sim.history;
    let w = d.work;
    crate::rand::lemma_range_bounds(w.rng, 0, w.cfg.clients as u64);
    let (ask, work) = w.ask();
    let (e, s) = d.issue(sim);
    let h2 = s.history;
    let asked = DriverView { work, ..d };
    assert(w.next_seq[ask.client as int] <= n);
    if asked.is_waiting(ask.client) {
        assert(e.work.next_seq =~= w.next_seq);
        assert forall|k: int| 0 <= k < e.in_flight.len() implies flies(
            e,
            h2,
            #[trigger] e.in_flight[k],
            0,
        ) by {
            assert(flies(d, h, d.in_flight[k], 0));
        }
        assert(books_agree(e, h2));
    } else {
        assert(!h.index.contains_key((ask.client, ask.seq)));
        assert(h2.index == h.index.insert((ask.client, ask.seq), h.ops.len() as usize));
        assert(h2.ops.len() == h.ops.len() + 1);
        let x = h2.ops[h.ops.len() as int];
        assert(x.process == ask.client && x.seq == ask.seq && x.command == ask.command
            && x.attempts == 1);
        assert forall|i: int| 0 <= i < h.ops.len() implies h2.ops[i] == #[trigger] h.ops[i] by {}
        assert(numbered(e.work, h2)) by {
            assert forall|client: u32, seq: u64|
                client < e.work.cfg.clients && seq
                    < e.work.next_seq[client as int] implies #[trigger] on_record(
                h2,
                client,
                seq,
            ) by {
                if (client, seq) != (ask.client, ask.seq) {
                    assert(on_record(h, client, seq));
                }
            }
            assert forall|client: u32, seq: u64| #[trigger]
                h2.index.contains_key((client, seq)) implies client < e.work.cfg.clients && seq
                < e.work.next_seq[client as int] by {
                if (client, seq) != (ask.client, ask.seq) {
                    assert(h.index.contains_key((client, seq)));
                }
            }
            assert forall|i: int| 0 <= i < h2.ops.len() implies {
                let o = #[trigger] h2.ops[i];
                &&& h2.index.contains_key((o.process, o.seq))
                &&& h2.index[(o.process, o.seq)] == i
            } by {
                if i < h.ops.len() {
                    assert(h2.ops[i] == h.ops[i]);
                    assert(h.index[(h.ops[i].process, h.ops[i].seq)] == i);
                }
            }
            assert forall|i: int, j: int|
                0 <= i < j < h2.ops.len() && (#[trigger] h2.ops[i]).process == (
                #[trigger] h2.ops[j]).process implies h2.ops[i].seq < h2.ops[j].seq by {
                assert(h2.ops[i] == h.ops[i]);
                assert(h.index.contains_key((h.ops[i].process, h.ops[i].seq)));
                if j < h.ops.len() {
                    assert(h2.ops[j] == h.ops[j]);
                }
            }
        }
        assert forall|i: int| 0 <= i < h2.ops.len() implies 1 <= (#[trigger] h2.ops[i]).attempts
            <= most_attempts(e) by {
            if i < h.ops.len() {
                assert(h2.ops[i] == h.ops[i]);
            }
        }
        assert forall|k: int| 0 <= k < e.in_flight.len() implies flies(
            e,
            h2,
            #[trigger] e.in_flight[k],
            0,
        ) by {
            if k < d.in_flight.len() {
                let f = d.in_flight[k];
                assert(e.in_flight[k] == f);
                assert(asked.in_flight[k] == f);
                assert(f.client != ask.client);
                assert(flies(d, h, f, 0));
                assert(on_record(h, f.client, f.seq));
            }
        }
        assert forall|i: int, j: int| 0 <= i < j < e.in_flight.len() implies (
        #[trigger] e.in_flight[i]).client != (#[trigger] e.in_flight[j]).client by {
            assert(e.in_flight[i] == d.in_flight[i]);
            assert(asked.in_flight[i] == d.in_flight[i]);
            if j < d.in_flight.len() {
                assert(e.in_flight[j] == d.in_flight[j]);
            }
        }
        assert(few(e, h2, n + 1));
    }
}

/// A round of the clients keeps the books, if nobody else asks for anything.
pub proof fn law_a_round_keeps_the_books(d: DriverView, sim: ClusterView, n: nat)
    requires
        books_agree(d, sim.history),
        few(d, sim.history, n),
        n < usize::MAX,
    ensures
        books_agree(d.step(sim).0, d.step(sim).1.history),
        few(d.step(sim).0, d.step(sim).1.history, n + 1),
{
    let m = d.in_flight.len() as int;
    let due = d.overdue(sim, m);
    let list = d.hopeless(sim, m);
    let kept = DriverView { in_flight: d.kept(sim, m), ..d };
    let (d0, s0) = kept.give_up(sim, list, list.len() as int);
    lemma_sorted_out(d, sim);
    lemma_resend(d0, s0, due, due.len() as int);
    let (d1, s1) = d.tidied(sim);
    assert(books_agree(d1, s1.history)) by {
        assert forall|k: int| 0 <= k < d1.in_flight.len() implies flies(
            d1,
            s1.history,
            #[trigger] d1.in_flight[k],
            0,
        ) by {
            let owed = owes(due, due.len() as int, d1.in_flight[k].client);
            assert(flies(d1, s1.history, d1.in_flight[k], owed));
            assert(owed == 0);
        }
    }
    lemma_issue(d1, s1, n);
    let (d2, s2) = d1.issue(s1);
    let e = d.step(sim).0;
    assert forall|k: int| 0 <= k < e.in_flight.len() implies flies(
        e,
        s2.history,
        #[trigger] e.in_flight[k],
        0,
    ) by {
        assert(flies(d2, s2.history, d2.in_flight[k], 0));
    }
}

/// With the books in order, no more requests are in flight than there are
/// clients.
pub proof fn law_no_more_in_flight_than_clients(d: DriverView, h: HistoryView)
    requires
        books_agree(d, h),
    ensures
        d.in_flight.len() <= d.work.cfg.clients,
{
    let clients = d.work.cfg.clients as int;
    let asking = Seq::new(d.in_flight.len(), |k: int| d.in_flight[k].client as int);
    assert forall|i: int, j: int|
        0 <= i < asking.len() && 0 <= j < asking.len() && i != j implies asking[i]
        != asking[j] by {
        if i < j {
            assert(d.in_flight[i].client != d.in_flight[j].client);
        } else {
            assert(d.in_flight[j].client != d.in_flight[i].client);
        }
    }
    asking.unique_seq_to_set();
    vstd::set_lib::lemma_int_range(0, clients);
    assert(asking.to_set().subset_of(vstd::set_lib::set_int_range(0, clients))) by {
        assert forall|x: int| asking.to_set().contains(x) implies vstd::set_lib::set_int_range(
            0,
            clients,
        ).contains(x) by {
            let k = choose|k: int| 0 <= k < asking.len() && asking[k] == x;
            assert(flies(d, h, d.in_flight[k], 0));
        }
    }
    vstd::set_lib::lemma_len_subset(
        asking.to_set(),
        vstd::set_lib::set_int_range(0, clients),
    );
}

/// Over a whole run, each client has one request in flight at most, numbers its
/// requests from nought without a gap or a repeat, sends none more often than
/// it may, and sends the same command under the same number again; and the
/// history has exactly that, after every round and however long the cluster runs
/// on.
pub proof fn law_histories_have_what_the_clients_did(
    cfg: crate::cluster_model::SimView,
    workload: WorkloadConfig,
    plan: Seq<(u64, Seq<u32>)>,
    n: nat,
    deadline: u64,
)
    requires
        workload.valid(),
        n <= usize::MAX,
    ensures
        ({
            let c = Campaign::start(cfg, workload).after(plan, n);
            &&& books_agree(c.driver, c.sim.history)
            &&& books_agree(c.driver, c.sim.ran_until(deadline).history)
            &&& few(c.driver, c.sim.history, n)
        }),
    decreases n,
{
    let start = Campaign::start(cfg, workload);
    let c = start.after(plan, n);
    if n == 0 {
        let first = ClusterView::start(cfg);
        lemma_start(cfg);
        law_events_ask_for_nothing(first, first.events_to_leader(5_000));
        assert(start.sim.history.ops.len() == 0);
        assert(start.driver.work.wf());
    } else {
        let before = start.after(plan, (n - 1) as nat);
        law_histories_have_what_the_clients_did(cfg, workload, plan, (n - 1) as nat, deadline);
        reveal(Campaign::round);
        let changed = before.with_change(plan);
        match before.sim.leader() {
            Some(leader) => {
                if before.done < plan.len() {
                    lemma_change_membership(
                        before.sim,
                        leader,
                        plan[before.done as int].1.to_set(),
                    );
                }
            },
            None => {},
        }
        assert(same_asks(before.sim.history, changed.sim.history));
        lemma_books_keep(before.driver, before.sim.history, changed.sim.history);
        law_a_round_keeps_the_books(changed.driver, changed.sim, (n - 1) as nat);
        let (driver, sim, gap) = changed.driver.step(changed.sim);
        let until = sim.now.saturating_add(gap);
        law_events_ask_for_nothing(sim, sim.events_until(until));
        lemma_books_keep(driver, sim.history, sim.ran_until(until).history);
    }
    law_events_ask_for_nothing(c.sim, c.sim.events_until(deadline));
    lemma_books_keep(c.driver, c.sim.history, c.sim.ran_until(deadline).history);
}

} // verus!
