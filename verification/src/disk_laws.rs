//! A node's disk stays in step with its memory.
//!
//! A node asks for durable writes one by one, and each of them fits the disk as
//! it is by then. Once all of a step's writes are made, the disk holds exactly
//! what the node holds: the log, the snapshot, the term and the vote.
use crate::log::{EntryView, LogView, PayloadView};
use crate::message::{AppendView, InstallView, MessageView};
use crate::model::{InputView, NodeView, OutputView, PersistView, RequestView, Turn};
use crate::node::Role;
use crate::snapshot::SnapshotView;
use crate::storage::DiskView;
use crate::LogId;
use vstd::prelude::*;

verus! {

/// The disk after the durable writes among the first `n` outputs. A write that
/// does not fit is lost.
pub open spec fn kept(disk: DiskView, outputs: Seq<OutputView>, n: int) -> DiskView
    decreases n,
{
    if n <= 0 {
        disk
    } else {
        let before = kept(disk, outputs, n - 1);
        match outputs[n - 1] {
            OutputView::Persist(op) => if before.takes(op) {
                before.written(op)
            } else {
                before
            },
            _ => before,
        }
    }
}

/// Each durable write among the first `n` outputs fits the disk as it is by
/// then.
pub open spec fn all_fit(disk: DiskView, outputs: Seq<OutputView>, n: int) -> bool {
    forall|i: int|
        0 <= i < n ==> (#[trigger] outputs[i] matches OutputView::Persist(op) ==> kept(
            disk,
            outputs,
            i,
        ).takes(op))
}

/// The disk holds the node's log and its snapshot.
pub open spec fn in_step(node: NodeView, disk: DiskView) -> bool {
    disk.log == node.log && disk.snapshot == node.snapshot
}

/// The disk holds the node's term and its vote.
pub open spec fn vote_in_step(node: NodeView, disk: DiskView) -> bool {
    disk.current_term == node.current_term && disk.voted_for == node.voted_for
}

// ---------------------------------------------------------------------------
// Writes in a row
// ---------------------------------------------------------------------------

pub(crate) proof fn lemma_kept_prefix(
    disk: DiskView,
    a: Seq<OutputView>,
    b: Seq<OutputView>,
    n: int,
)
    requires
        n <= a.len(),
        n <= b.len(),
        forall|i: int| 0 <= i < n ==> a[i] == b[i],
    ensures
        kept(disk, a, n) == kept(disk, b, n),
    decreases n,
{
    if n > 0 {
        lemma_kept_prefix(disk, a, b, n - 1);
    }
}

/// One run of outputs, and then another.
pub(crate) proof fn lemma_kept_then(disk: DiskView, a: Seq<OutputView>, b: Seq<OutputView>, n: int)
    requires
        0 <= n <= b.len(),
    ensures
        kept(disk, a + b, a.len() + n) == kept(kept(disk, a, a.len() as int), b, n),
    decreases n,
{
    if n == 0 {
        lemma_kept_prefix(disk, a + b, a, a.len() as int);
    } else {
        lemma_kept_then(disk, a, b, n - 1);
        assert((a + b)[a.len() + n - 1] == b[n - 1]);
    }
}

proof fn lemma_fit_then(disk: DiskView, a: Seq<OutputView>, b: Seq<OutputView>)
    requires
        all_fit(disk, a, a.len() as int),
        all_fit(kept(disk, a, a.len() as int), b, b.len() as int),
    ensures
        all_fit(disk, a + b, (a + b).len() as int),
{
    let all = a + b;
    assert forall|i: int| 0 <= i < all.len() implies (#[trigger] all[i] matches OutputView::Persist(
        op,
    ) ==> kept(disk, all, i).takes(op)) by {
        if i < a.len() {
            assert(all[i] == a[i]);
            lemma_kept_prefix(disk, all, a, i);
        } else {
            assert(all[i] == b[i - a.len()]);
            lemma_kept_then(disk, a, b, i - a.len());
        }
    }
}

/// Messages and effects write nothing.
proof fn lemma_nothing_written(disk: DiskView, b: Seq<OutputView>, n: int)
    requires
        0 <= n <= b.len(),
        forall|i: int| 0 <= i < b.len() ==> !(#[trigger] b[i] is Persist),
    ensures
        kept(disk, b, n) == disk,
        all_fit(disk, b, b.len() as int),
    decreases n,
{
    if n > 0 {
        lemma_nothing_written(disk, b, n - 1);
        assert(!(b[n - 1] is Persist));
    }
}

/// Log writes leave the term and the vote alone.
pub(crate) proof fn lemma_log_writes(disk: DiskView, b: Seq<OutputView>, n: int)
    requires
        0 <= n <= b.len(),
        forall|i: int| 0 <= i < b.len() ==> crate::node_laws::is_log_write(#[trigger] b[i]),
    ensures
        kept(disk, b, n).current_term == disk.current_term,
        kept(disk, b, n).voted_for == disk.voted_for,
    decreases n,
{
    if n > 0 {
        lemma_log_writes(disk, b, n - 1);
        assert(crate::node_laws::is_log_write(b[n - 1]));
    }
}

// ---------------------------------------------------------------------------
// A turn
// ---------------------------------------------------------------------------

/// What the turn has asked to be written so far brings the disk to where the
/// node is.
spec fn backed(disk: DiskView, t: Turn) -> bool {
    let n = t.out.persists.len() as int;
    &&& all_fit(disk, t.out.persists, n)
    &&& in_step(t.node, kept(disk, t.out.persists, n))
    &&& t.node.log.wf()
    &&& t.node.snapshot matches Some(s) ==> s.last_included.index < u64::MAX
}

/// The log has room for this many more entries.
spec fn roomy(t: Turn, n: int) -> bool {
    t.node.log.start + t.node.log.entries.len() + n <= u64::MAX
}

/// Nothing durable happens.
spec fn quiet(a: Turn, b: Turn) -> bool {
    &&& b.node.log == a.node.log
    &&& b.node.snapshot == a.node.snapshot
    &&& b.out.persists == a.out.persists
}

proof fn lemma_write(disk: DiskView, t: Turn, node: NodeView, op: PersistView)
    requires
        backed(disk, t),
        !(op is HardState),
        (DiskView { log: t.node.log, ..disk }).takes(op),
        node.log == crate::node_laws::replay_one(t.node.log, OutputView::Persist(op)),
        node.log.wf(),
        node.snapshot == (match op {
            PersistView::Snapshot(s) => Some(s),
            _ => t.node.snapshot,
        }),
    ensures
        backed(disk, t.with_node(node).persist(op)),
{
    let before = t.out.persists;
    let after = before.push(OutputView::Persist(op));
    let n = before.len() as int;
    lemma_kept_prefix(disk, after, before, n);
    assert forall|i: int| 0 <= i < after.len() implies (#[trigger] after[i] matches OutputView::Persist(
        o,
    ) ==> kept(disk, after, i).takes(o)) by {
        if i < n {
            assert(after[i] == before[i]);
            lemma_kept_prefix(disk, after, before, i);
        }
    }
    assert(after[n] == OutputView::Persist(op));
    assert(kept(disk, after, n + 1) == kept(disk, before, n).written(op));
}

proof fn lemma_send_append(t: Turn, to: u32, round: u64)
    ensures
        quiet(t, t.send_append_entries_for(to, round)),
        t.send_append_entries_for(to, round).node == t.node,
{
    reveal(Turn::send_append_entries_for);
}

proof fn lemma_request_votes(t: Turn, voters: Seq<u32>, n: int)
    ensures
        quiet(t, t.request_votes(voters, n)),
        t.request_votes(voters, n).node == t.node,
    decreases n,
{
    if n > 0 {
        lemma_request_votes(t, voters, n - 1);
    }
}

proof fn lemma_append_own(
    disk: DiskView,
    t: Turn,
    payload: PayloadView,
    client: Option<(u32, u64)>,
    more: int,
)
    requires
        backed(disk, t),
        roomy(t, 1 + more),
        0 <= more,
    ensures
        backed(disk, t.append_own(payload, client)),
        roomy(t.append_own(payload, client), more),
{
    let entry = EntryView {
        term: t.node.current_term,
        index: (t.node.log.last_index() + 1) as u64,
        payload,
        client,
    };
    let node = NodeView { log: t.node.log.append(seq![entry]), ..t.node };
    lemma_appended(t.node.log, seq![entry]);
    lemma_write(disk, t, node, PersistView::Append(seq![entry]));
}

pub(crate) proof fn lemma_appended(log: LogView, more: Seq<EntryView>)
    requires
        log.wf(),
        log.appendable(more),
    ensures
        log.append(more).wf(),
{
    let all = log.entries + more;
    assert forall|i: int| 0 <= i < all.len() implies (#[trigger] all[i]).index < u64::MAX by {
        if i < log.entries.len() {
            assert(all[i] == log.entries[i]);
        } else {
            assert(all[i] == more[i - log.entries.len()]);
        }
    }
    if !log.zero_anchor {
        assert forall|i: int| 0 <= i < all.len() implies (#[trigger] all[i]).index == log.start
            + i by {
            if i < log.entries.len() {
                assert(all[i] == log.entries[i]);
            } else {
                assert(all[i] == more[i - log.entries.len()]);
            }
        }
    }
}

pub(crate) proof fn lemma_truncated(log: LogView, index: u64)
    requires
        log.wf(),
    ensures
        log.truncate_from(index).wf(),
{
    let fewer = log.truncate_from(index).entries;
    assert forall|i: int| 0 <= i < fewer.len() implies #[trigger] fewer[i] == log.entries[i] by {}
}

pub(crate) proof fn lemma_compacted(log: LogView, through: LogId)
    requires
        log.wf(),
        through.index < u64::MAX,
    ensures
        log.compact(through).wf(),
        log.reset_to(through).wf(),
        log.holds(through.index) ==> log.compact(through).start + log.compact(through).entries.len()
            == log.start + log.entries.len(),
{
    let fewer = log.compact(through).entries;
    let k = through.index + 1 - log.start;
    if log.start <= through.index <= log.last_index() {
        assert forall|i: int| 0 <= i < fewer.len() implies #[trigger] fewer[i] == log.entries[i
            + k] by {}
    }
}

/// What fits a disk leaves it well formed.
pub(crate) proof fn lemma_written_wf(disk: DiskView, op: PersistView)
    requires
        disk.wf(),
        disk.takes(op),
    ensures
        disk.written(op).wf(),
{
    match op {
        PersistView::Append(entries) => lemma_appended(disk.log, entries),
        PersistView::TruncateFrom(index) => lemma_truncated(disk.log, index),
        PersistView::Compact(through) => lemma_compacted(disk.log, through),
        PersistView::ResetLog(through) => lemma_compacted(disk.log, through),
        _ => {},
    }
}

proof fn lemma_become_leader(disk: DiskView, t: Turn, more: int)
    requires
        backed(disk, t),
        roomy(t, 1 + more),
        0 <= more,
    ensures
        backed(disk, t.become_leader()),
        roomy(t.become_leader(), more),
{
    reveal(Turn::become_leader);
    let next = (t.node.log.last_index() + 1) as u64;
    let elected = NodeView {
        role: Role::Leader,
        leader_id: Some(t.node.id),
        votes_granted: Set::empty(),
        next_index: Map::new(|id: u32| t.node.peers().contains(id), |id: u32| next),
        match_index: Map::new(|id: u32| t.node.peers().contains(id), |id: u32| 0u64),
        ..t.node
    };
    let t1 = t.with_node(elected);
    lemma_append_own(disk, t1, PayloadView::Noop, None, more);
    let t2 = t1.append_own(PayloadView::Noop, None);
    let t3 = t2.with_node(
        NodeView {
            heartbeat_deadline: (t.node.now + t.node.cfg.heartbeat_interval) as u64,
            last_heard_from_leader: t.node.now,
            ..t2.node
        },
    );
    crate::node_laws::lemma_broadcast(t3, 0);
}

proof fn lemma_on_tick(disk: DiskView, t: Turn)
    requires
        backed(disk, t),
        roomy(t, 2),
    ensures
        backed(disk, t.on_tick()),
        roomy(t.on_tick(), 1),
{
    reveal(Turn::on_tick);
    reveal(Turn::start_election);
    if t.node.role == Role::Leader {
        let t1 = t.with_node(
            NodeView {
                heartbeat_deadline: (t.node.now + t.node.cfg.heartbeat_interval) as u64,
                last_heard_from_leader: t.node.now,
                ..t.node
            },
        );
        crate::node_laws::lemma_broadcast(t1, 0);
    } else if t.node.now >= t.node.election_deadline && t.node.cluster.contains(t.node.id) {
        let t1 = t.with_node(
            NodeView {
                current_term: (t.node.current_term + 1) as u64,
                role: Role::Candidate,
                voted_for: Some(t.node.id),
                leader_id: None,
                votes_granted: Set::empty().insert(t.node.id),
                hard_state_dirty: true,
                ..t.node
            }.reset_election_deadline(),
        );
        let voters = crate::order::in_order(t.node.cluster.voters());
        lemma_request_votes(t1, voters, voters.len() as int);
        let t2 = t1.request_votes(voters, voters.len() as int);
        lemma_become_leader(disk, t2, 1);
    }
}

proof fn lemma_take_entries(disk: DiskView, t: Turn, entries: Seq<EntryView>, k: int)
    requires
        backed(disk, t),
        0 <= k < entries.len(),
        t.node.log.cleared_for(entries[k]).appendable(entries.skip(k)),
    ensures
        backed(disk, t.take_entries(entries, k)),
        t.take_entries(entries, k).node.role == t.node.role,
{
    let entry = entries[k];
    let rest = entries.skip(k);
    let t1 = if t.node.log.term_at(entry.index) is Some {
        let shorter = NodeView { log: t.node.log.truncate_from(entry.index), ..t.node };
        let n1 = if t.node.config_index >= entry.index {
            shorter.refresh_config()
        } else {
            shorter
        };
        lemma_truncated(t.node.log, entry.index);
        lemma_write(disk, t, n1, PersistView::TruncateFrom(entry.index));
        t.with_node(n1).persist(PersistView::TruncateFrom(entry.index))
    } else {
        t
    };
    let longer = NodeView { log: t1.node.log.append(rest), ..t1.node };
    let n2 = longer.adopt_configs(rest);
    crate::node_laws::lemma_adopt_configs(longer, rest);
    lemma_appended(t1.node.log, rest);
    lemma_write(disk, t1, n2, PersistView::Append(rest));
}

proof fn lemma_on_append_entries(disk: DiskView, t: Turn, from: u32, req: AppendView)
    requires
        backed(disk, t),
        t.node.log.term_at(req.prev_log_index) == Some(req.prev_log_term)
            ==> t.node.log.can_accept(req.entries),
    ensures
        backed(disk, t.on_append_entries(from, req)),
        t.on_append_entries(from, req).node.role == t.node.role,
{
    reveal(Turn::on_append_entries);
    let heard = t.hear_from(req.leader_id);
    assert(quiet(t, heard));
    if heard.node.log.term_at(req.prev_log_index) == Some(req.prev_log_term) {
        let k = heard.node.log.first_difference(req.entries, 0);
        lemma_difference(heard.node.log, req.entries, 0);
        if k < req.entries.len() {
            lemma_take_entries(disk, heard, req.entries, k);
        }
    }
}

proof fn lemma_difference(log: LogView, entries: Seq<EntryView>, i: int)
    requires
        0 <= i,
    ensures
        log.first_difference(entries, i) >= 0,
    decreases entries.len() - i,
{
    if i < entries.len() {
        lemma_difference(log, entries, i + 1);
    }
}

proof fn lemma_on_install_snapshot(disk: DiskView, t: Turn, from: u32, req: InstallView)
    requires
        backed(disk, t),
        req.last_included_index < u64::MAX,
    ensures
        backed(disk, t.on_install_snapshot(from, req)),
        t.on_install_snapshot(from, req).node.role == t.node.role,
{
    reveal(Turn::on_install_snapshot);
    let heard = t.hear_from(req.leader_id);
    let through = LogId { index: req.last_included_index, term: req.last_included_term };
    let after = t.on_install_snapshot(from, req);
    assert(quiet(t, heard));
    if through.index > heard.node.commit_index {
        let snapshot = SnapshotView { last_included: through, config: req.config, data: req.data };
        let op = if heard.node.log.term_at(through.index) == Some(through.term) {
            PersistView::Compact(through)
        } else {
            PersistView::ResetLog(through)
        };
        let n1 = NodeView { snapshot: Some(snapshot), ..heard.node };
        lemma_write(disk, heard, n1, PersistView::Snapshot(snapshot));
        let saved = heard.with_node(n1).persist(PersistView::Snapshot(snapshot));
        lemma_compacted(heard.node.log, through);
        lemma_write(disk, saved, after.node, op);
    }
}

proof fn lemma_advance_match(t: Turn, from: u32, index: u64)
    ensures
        quiet(t, t.advance_match(from, index)),
{
    let known = if t.node.match_index.contains_key(from) {
        t.node.match_index[from]
    } else {
        0
    };
    let m = crate::model::max_of(known, index);
    let t1 = t.with_node(
        NodeView {
            match_index: t.node.match_index.insert(from, m),
            next_index: t.node.next_index.insert(from, (m + 1) as u64),
            ..t.node
        }.maybe_advance_commit(),
    );
    lemma_send_append(t1, from, 0);
}

proof fn lemma_on_append_entries_resp(t: Turn, from: u32, resp: crate::AppendEntriesResp)
    ensures
        quiet(t, t.on_append_entries_resp(from, resp)),
{
    reveal(Turn::on_append_entries_resp);
    lemma_advance_match(
        t.with_node(t.node.note_read_ack(from, resp.read_round)),
        from,
        resp.match_index,
    );
    let next = t.next_for(from);
    lemma_send_append(
        t.with_node(
            NodeView {
                next_index: t.node.next_index.insert(from, t.node.backed_up(next, resp.conflict)),
                ..t.node
            },
        ),
        from,
        0,
    );
}

proof fn lemma_on_message(disk: DiskView, t: Turn, from: u32, msg: MessageView)
    requires
        backed(disk, t),
        roomy(t, 2),
        match msg {
            MessageView::AppendEntries(req) => req.term >= t.node.current_term
                && t.node.log.term_at(req.prev_log_index) == Some(req.prev_log_term)
                ==> t.node.log.can_accept(req.entries),
            MessageView::InstallSnapshot(req) => req.last_included_index < u64::MAX,
            _ => true,
        },
    ensures
        backed(disk, t.on_message(from, msg)),
        t.on_message(from, msg).node.role == Role::Leader ==> roomy(t.on_message(from, msg), 1),
{
    reveal(Turn::on_message);
    reveal(Turn::on_current_message);
    reveal(Turn::on_install_snapshot_resp);
    if !(msg is RequestVote && t.node.ignores_vote_requests()) {
        let leader = match msg {
            MessageView::AppendEntries(m) => Some(m.leader_id),
            _ => None,
        };
        let t1 = if msg.term() > t.node.current_term {
            t.with_node(t.node.become_follower(msg.term(), leader))
        } else {
            t
        };
        assert(quiet(t, t1));
        if msg.term() < t1.node.current_term {
            reveal(Turn::reject_stale);
        } else {
            match msg {
                MessageView::RequestVote(req) => {
                    reveal(Turn::on_request_vote);
                },
                MessageView::AppendEntries(req) => {
                    lemma_on_append_entries(disk, t1.concede_to(req.leader_id), from, req);
                },
                MessageView::InstallSnapshot(req) => {
                    lemma_on_install_snapshot(disk, t1.concede_to(req.leader_id), from, req);
                },
                MessageView::InstallSnapshotResp(resp) => {
                    lemma_advance_match(t1, from, resp.last_included_index);
                },
                MessageView::RequestVoteResp(resp) => {
                    reveal(Turn::on_request_vote_resp);
                    lemma_become_leader(
                        disk,
                        t1.with_node(
                            NodeView {
                                votes_granted: t1.node.votes_granted.insert(from),
                                ..t1.node
                            },
                        ),
                        1,
                    );
                },
                MessageView::AppendEntriesResp(resp) => {
                    lemma_on_append_entries_resp(t1, from, resp);
                },
            }
        }
    }
}

proof fn lemma_resolve_reads(t: Turn)
    ensures
        quiet(t, t.resolve_reads()),
        t.resolve_reads().node.role == t.node.role,
{
    reveal(Turn::resolve_reads);
    let p = t.with_node(t.node.pin_reads());
    crate::node_laws::lemma_broadcast(p, p.node.read_round);
}

proof fn lemma_advance_apply(t: Turn)
    ensures
        quiet(t, t.advance_apply()),
    decreases t.node.commit_index - t.node.last_applied,
{
    reveal_with_fuel(Turn::advance_apply, 2);
    let index = (t.node.last_applied + 1) as u64;
    if !(t.node.last_applied >= t.node.commit_index || !t.node.log.holds(index)) {
        let entry = t.node.log.at(index);
        lemma_advance_apply(
            t.with_node(NodeView { last_applied: index, ..t.node }).effect(
                OutputView::Apply {
                    index,
                    term: entry.term,
                    payload: entry.payload,
                    client: entry.client,
                    respond: t.node.role == Role::Leader,
                },
            ),
        );
    }
}

proof fn lemma_begin_read(t: Turn, request: RequestView)
    ensures
        quiet(t, t.begin_read(request)),
{
    reveal(Turn::begin_read);
    let early = t.node.cfg.bugs.read_index_at_arrival;
    let round = (t.node.read_round + 1) as u64;
    let queued = t.with_node(
        NodeView {
            read_round: if early {
                round
            } else {
                t.node.read_round
            },
            pending_reads: t.node.pending_reads.push(
                crate::model::ReadView {
                    request,
                    arrival_index: t.node.commit_index,
                    read_index: if early {
                        Some(t.node.commit_index)
                    } else {
                        None
                    },
                    round: if early {
                        Some(round)
                    } else {
                        None
                    },
                    acks: if early {
                        Set::empty().insert(t.node.id)
                    } else {
                        Set::empty()
                    },
                },
            ),
            ..t.node
        },
    );
    crate::node_laws::lemma_broadcast(queued, round);
    lemma_resolve_reads(queued);
    lemma_resolve_reads(queued.broadcast(round));
}

proof fn lemma_append_config(
    disk: DiskView,
    t: Turn,
    config: crate::config::ConfigView,
    more: int,
)
    requires
        backed(disk, t),
        roomy(t, 1 + more),
        0 <= more,
    ensures
        backed(disk, t.append_config(config)),
        roomy(t.append_config(config), more),
{
    lemma_append_own(disk, t, PayloadView::Config(config), None, more);
    let t1 = t.append_own(PayloadView::Config(config), None);
    let t2 = t1.with_node(
        NodeView {
            cluster: config,
            config_index: (t.node.log.last_index() + 1) as u64,
            ..t1.node
        }.reset_replication_state(),
    );
    crate::node_laws::lemma_broadcast(t2, 0);
}

proof fn lemma_on_compact(disk: DiskView, t: Turn, snapshot: SnapshotView)
    requires
        backed(disk, t),
        roomy(t, 2),
    ensures
        backed(disk, t.on_compact(snapshot)),
        roomy(t.on_compact(snapshot), 1),
{
    reveal(Turn::on_compact);
    let through = snapshot.last_included;
    let kept_one = SnapshotView { config: t.node.config_at(through.index), ..snapshot };
    if !(through.index > t.node.last_applied || through.index <= t.node.log.last_included.index
        || t.node.log.term_at(through.index) != Some(through.term)) {
        let after = t.on_compact(snapshot);
        assert(t.node.log.holds(through.index));
        let n1 = NodeView { snapshot: Some(kept_one), ..t.node };
        lemma_write(disk, t, n1, PersistView::Snapshot(kept_one));
        lemma_compacted(t.node.log, through);
        lemma_write(
            disk,
            t.with_node(n1).persist(PersistView::Snapshot(kept_one)),
            after.node,
            PersistView::Compact(through),
        );
    }
}

proof fn lemma_on_input(disk: DiskView, t: Turn, input: InputView)
    requires
        backed(disk, t),
        roomy(t, 2),
        t.node.accepts(input, t.node.now),
    ensures
        backed(disk, t.on_input(input)),
        t.on_input(input).node.role == Role::Leader ==> roomy(t.on_input(input), 1),
{
    reveal(Turn::on_input);
    match input {
        InputView::Tick => lemma_on_tick(disk, t),
        InputView::Message { from, msg } => lemma_on_message(disk, t, from, msg),
        InputView::ClientRequest(req) => {
            reveal(Turn::on_client_request);
            let payload = PayloadView::Command(req.command);
            let client = Some((req.client, req.seq));
            lemma_begin_read(t, req);
            lemma_append_own(disk, t, payload, client, 1);
            crate::node_laws::lemma_broadcast(t.append_own(payload, client), 0);
        },
        InputView::Compact(snapshot) => lemma_on_compact(disk, t, snapshot),
        InputView::ChangeMembership(voters) => {
            reveal(Turn::on_change_membership);
            lemma_append_config(
                disk,
                t,
                crate::config::ConfigView { old: t.node.cluster.old, new: Some(voters) },
                1,
            );
        },
    }
}

proof fn lemma_settle(disk: DiskView, t: Turn)
    requires
        backed(disk, t),
        t.node.role == Role::Leader ==> roomy(t, 1),
    ensures
        backed(disk, t.settle()),
{
    reveal(Turn::settle);
    reveal(Turn::after_commit);
    if t.node.role == Role::Leader {
        lemma_append_config(disk, t, t.node.cluster.to_new()->0, 0);
    }
    let t1 = t.after_commit();
    assert(backed(disk, t1));
    lemma_resolve_reads(t1);
    lemma_advance_apply(t1.resolve_reads());
    lemma_advance_apply(t1);
    lemma_resolve_reads(t1.advance_apply());
}

/// The write of the term and the vote comes first, and touches nothing else.
proof fn lemma_hard_state(disk: DiskView, t: Turn)
    requires
        disk.wf(),
    ensures
        ({
            let h = t.hard_state();
            let base = kept(disk, h, h.len() as int);
            &&& all_fit(disk, h, h.len() as int)
            &&& base.wf()
            &&& base.log == disk.log
            &&& base.snapshot == disk.snapshot
            &&& h.len() > 0 ==> vote_in_step(t.node, base)
            &&& h.len() == 0 ==> base == disk
        }),
{
    let h = t.hard_state();
    reveal_with_fuel(kept, 2);
    assert forall|i: int| 0 <= i < h.len() implies (#[trigger] h[i] matches OutputView::Persist(op)
        ==> kept(disk, h, i).takes(op)) by {}
}

/// The writes of a whole step, followed by its messages and effects.
proof fn lemma_all_outputs(disk: DiskView, t: Turn)
    requires
        ({
            let h = t.hard_state();
            let base = kept(disk, h, h.len() as int);
            &&& all_fit(disk, h, h.len() as int)
            &&& all_fit(base, t.out.persists, t.out.persists.len() as int)
        }),
        forall|i: int| 0 <= i < t.out.sends.len() ==> #[trigger] t.out.sends[i] is Send,
        forall|i: int|
            0 <= i < t.out.effects.len() ==> crate::node_laws::is_effect(
                #[trigger] t.out.effects[i],
            ),
    ensures
        ({
            let h = t.hard_state();
            let base = kept(disk, h, h.len() as int);
            let all = t.outputs();
            &&& all_fit(disk, all, all.len() as int)
            &&& kept(disk, all, all.len() as int) == kept(
                base,
                t.out.persists,
                t.out.persists.len() as int,
            )
        }),
{
    let h = t.hard_state();
    let p = t.out.persists;
    let rest = t.out.sends + t.out.effects;
    assert forall|i: int| 0 <= i < rest.len() implies !(#[trigger] rest[i] is Persist) by {
        if i < t.out.sends.len() {
            assert(rest[i] == t.out.sends[i]);
        } else {
            assert(rest[i] == t.out.effects[i - t.out.sends.len()]);
        }
    }
    assert(t.outputs() =~= (h + p) + rest);
    lemma_kept_then(disk, h, p, p.len() as int);
    lemma_fit_then(disk, h, p);
    let written = kept(disk, h + p, (h + p).len() as int);
    lemma_kept_then(disk, h + p, rest, rest.len() as int);
    lemma_nothing_written(written, rest, rest.len() as int);
    lemma_fit_then(disk, h + p, rest);
}

// ---------------------------------------------------------------------------
// The law
// ---------------------------------------------------------------------------

/// Those of what an input brings about directly bring the disk's log and
/// snapshot to the node's, and leave a leader room for an entry.
pub(crate) proof fn lemma_input_in_step(node: NodeView, disk: DiskView, input: InputView, now: u64)
    requires
        disk.wf(),
        in_step(node, disk),
        node.accepts(input, now),
    ensures
        ({
            let t = Turn::begin(NodeView { now, ..node }).on_input(input);
            &&& in_step(t.node, kept(disk, t.out.persists, t.out.persists.len() as int))
            &&& t.node.role == Role::Leader ==> t.node.log.start + t.node.log.entries.len() + 1
                <= u64::MAX
        }),
{
    let begun = Turn::begin(NodeView { now, ..node });
    assert(backed(disk, begun));
    lemma_on_input(disk, begun, input);
}

/// The log writes of a step bring the disk's log and snapshot to the node's.
pub(crate) proof fn lemma_writes_in_step(
    node: NodeView,
    disk: DiskView,
    input: InputView,
    now: u64,
)
    requires
        disk.wf(),
        in_step(node, disk),
        node.accepts(input, now),
    ensures
        ({
            let t = node.turn(input, now);
            in_step(t.node, kept(disk, t.out.persists, t.out.persists.len() as int))
        }),
{
    let begun = Turn::begin(NodeView { now, ..node });
    assert(backed(disk, begun));
    lemma_on_input(disk, begun, input);
    lemma_settle(disk, begun.on_input(input));
}

/// Whatever the input, every durable write that a step asks for fits the disk
/// as it is by then, and with all of them made the disk is in step with the
/// node again. The term and the vote are, too, unless the node is told to
/// forget them.
pub proof fn law_disks_stay_in_step(node: NodeView, disk: DiskView, input: InputView, now: u64)
    requires
        disk.wf(),
        in_step(node, disk),
        node.accepts(input, now),
    ensures
        ({
            let outputs = node.step_outputs(input, now);
            let after = kept(disk, outputs, outputs.len() as int);
            &&& all_fit(disk, outputs, outputs.len() as int)
            &&& after.wf()
            &&& in_step(node.stepped(input, now), after)
            &&& vote_in_step(node, disk) && !node.hard_state_dirty
                && !node.cfg.bugs.skip_hard_state_persistence ==> vote_in_step(
                node.stepped(input, now),
                after,
            )
        }),
{
    let begun = Turn::begin(NodeView { now, ..node });
    let t = node.turn(input, now);
    let h = t.hard_state();
    let base = kept(disk, h, h.len() as int);
    lemma_hard_state(disk, t);
    assert(backed(base, begun));
    lemma_on_input(base, begun, input);
    lemma_settle(base, begun.on_input(input));
    crate::node_laws::lemma_turn(node, input, now);
    lemma_all_outputs(disk, t);
    lemma_log_writes(base, t.out.persists, t.out.persists.len() as int);
}

} // verus!
