//! What every step of a node keeps.
//!
//! Each handler is shown to relate the turn it is given to the turn it leaves
//! by [`follows`]; since that relation composes, so does every step. The laws
//! at the end are what follows for a whole step, whatever the input.
use crate::log::{EntryView, LogView, PayloadView};
use crate::message::{AppendView, InstallView, MessageView};
use crate::model::{InputView, NodeView, OutputView, PersistView, RequestView, Turn};
use crate::node::Role;
use crate::snapshot::SnapshotView;
use crate::{AppendEntriesResp, InstallSnapshotResp, RequestVoteReq, RequestVoteResp};
use vstd::prelude::*;

verus! {

/// The log after one durable write.
pub open spec fn replay_one(log: LogView, write: OutputView) -> LogView {
    match write {
        OutputView::Persist(op) => match op {
            PersistView::Append(entries) => log.append(entries),
            PersistView::TruncateFrom(index) => log.truncate_from(index),
            PersistView::Compact(through) => log.compact(through),
            PersistView::ResetLog(through) => log.reset_to(through),
            _ => log,
        },
        _ => log,
    }
}

/// The log after the first `n` of these durable writes.
pub open spec fn replay(log: LogView, writes: Seq<OutputView>, n: int) -> LogView
    decreases n,
{
    if n <= 0 {
        log
    } else {
        replay_one(replay(log, writes, n - 1), writes[n - 1])
    }
}

/// The log after all of these outputs' durable writes.
pub open spec fn replayed(log: LogView, outputs: Seq<OutputView>) -> LogView {
    replay(log, outputs, outputs.len() as int)
}

/// A durable write other than that of the term and the vote.
pub open spec fn is_log_write(o: OutputView) -> bool {
    o is Persist && !(o->Persist_0 is HardState)
}

/// Neither a durable write nor a message.
pub open spec fn is_effect(o: OutputView) -> bool {
    !(o is Persist) && !(o is Send)
}

/// `a` followed by elements of kind `kind`.
pub open spec fn grows_by(
    a: Seq<OutputView>,
    b: Seq<OutputView>,
    kind: spec_fn(OutputView) -> bool,
) -> bool {
    &&& a.len() <= b.len()
    &&& b.take(a.len() as int) == a
    &&& forall|i: int| a.len() <= i < b.len() ==> kind(#[trigger] b[i])
}

pub open spec fn state_follows(a: NodeView, b: NodeView) -> bool {
    &&& b.id == a.id
    &&& b.cfg == a.cfg
    &&& b.now == a.now
    &&& b.current_term >= a.current_term
    &&& a.current_term == b.current_term && a.voted_for is Some
        && !a.cfg.bugs.vote_twice_per_term ==> b.voted_for == a.voted_for
    &&& (b.current_term != a.current_term || b.voted_for != a.voted_for) ==> b.hard_state_dirty
    &&& a.hard_state_dirty ==> b.hard_state_dirty
    &&& b.commit_index >= a.commit_index
    &&& b.last_applied >= a.last_applied
    &&& b.log.zero_anchor == a.log.zero_anchor
}

/// `b` is where a turn may have got to from `a`.
pub open spec fn follows(a: Turn, b: Turn) -> bool {
    &&& state_follows(a.node, b.node)
    &&& grows_by(a.out.persists, b.out.persists, |o: OutputView| is_log_write(o))
    &&& grows_by(a.out.sends, b.out.sends, |o: OutputView| o is Send)
    &&& grows_by(a.out.effects, b.out.effects, |o: OutputView| is_effect(o))
    &&& forall|log: LogView|
        replayed(log, a.out.persists) == a.node.log ==> #[trigger] replayed(log, b.out.persists)
            == b.node.log
}

proof fn lemma_grows_trans(
    a: Seq<OutputView>,
    b: Seq<OutputView>,
    c: Seq<OutputView>,
    kind: spec_fn(OutputView) -> bool,
)
    requires
        grows_by(a, b, kind),
        grows_by(b, c, kind),
    ensures
        grows_by(a, c, kind),
{
    assert forall|i: int| a.len() <= i < c.len() implies kind(#[trigger] c[i]) by {
        if i < b.len() {
            assert(c.take(b.len() as int)[i] == c[i]);
            assert(kind(b[i]));
        }
    }
    assert(c.take(a.len() as int) =~= b.take(a.len() as int)) by {
        assert forall|i: int| 0 <= i < a.len() implies c[i] == b[i] by {
            assert(c.take(b.len() as int)[i] == c[i]);
        }
    }
}

proof fn lemma_follows_trans(a: Turn, b: Turn, c: Turn)
    requires
        follows(a, b),
        follows(b, c),
    ensures
        follows(a, c),
{
    lemma_grows_trans(
        a.out.persists,
        b.out.persists,
        c.out.persists,
        |o: OutputView| is_log_write(o),
    );
    lemma_grows_trans(a.out.sends, b.out.sends, c.out.sends, |o: OutputView| o is Send);
    lemma_grows_trans(a.out.effects, b.out.effects, c.out.effects, |o: OutputView| is_effect(o));
    assert forall|log: LogView| replayed(log, a.out.persists) == a.node.log implies #[trigger]
        replayed(log, c.out.persists) == c.node.log by {
        assert(replayed(log, b.out.persists) == b.node.log);
    }
}

proof fn lemma_grows_refl(a: Seq<OutputView>, kind: spec_fn(OutputView) -> bool)
    ensures
        grows_by(a, a, kind),
{
    assert(a.take(a.len() as int) =~= a);
}

/// Only the node changes, and its log does not.
proof fn lemma_follows_state(t: Turn, node: NodeView)
    requires
        state_follows(t.node, node),
        node.log == t.node.log,
    ensures
        follows(t, t.with_node(node)),
{
    lemma_grows_refl(t.out.persists, |o: OutputView| is_log_write(o));
    lemma_grows_refl(t.out.sends, |o: OutputView| o is Send);
    lemma_grows_refl(t.out.effects, |o: OutputView| is_effect(o));
}

proof fn lemma_grows_push(a: Seq<OutputView>, o: OutputView, kind: spec_fn(OutputView) -> bool)
    requires
        kind(o),
    ensures
        grows_by(a, a.push(o), kind),
{
    assert(a.push(o).take(a.len() as int) =~= a);
}

proof fn lemma_follows_send(t: Turn, to: u32, msg: MessageView)
    ensures
        follows(t, t.send(to, msg)),
{
    lemma_grows_refl(t.out.persists, |o: OutputView| is_log_write(o));
    lemma_grows_push(t.out.sends, OutputView::Send { to, msg }, |o: OutputView| o is Send);
    lemma_grows_refl(t.out.effects, |o: OutputView| is_effect(o));
}

proof fn lemma_follows_effect(t: Turn, o: OutputView)
    requires
        is_effect(o),
    ensures
        follows(t, t.effect(o)),
{
    lemma_grows_refl(t.out.persists, |o: OutputView| is_log_write(o));
    lemma_grows_refl(t.out.sends, |o: OutputView| o is Send);
    lemma_grows_push(t.out.effects, o, |o: OutputView| is_effect(o));
}

proof fn lemma_replay_ignores_rest(log: LogView, a: Seq<OutputView>, b: Seq<OutputView>, n: int)
    requires
        n <= a.len(),
        n <= b.len(),
        forall|i: int| 0 <= i < n ==> a[i] == b[i],
    ensures
        replay(log, a, n) == replay(log, b, n),
    decreases n,
{
    if n > 0 {
        lemma_replay_ignores_rest(log, a, b, n - 1);
    }
}

/// A durable write of the log, made together with the change it stands for.
proof fn lemma_follows_write(t: Turn, node: NodeView, op: PersistView)
    requires
        state_follows(t.node, node),
        !(op is HardState),
        node.log == replay_one(t.node.log, OutputView::Persist(op)),
    ensures
        follows(t, t.with_node(node).persist(op)),
{
    let o = OutputView::Persist(op);
    lemma_grows_push(t.out.persists, o, |o: OutputView| is_log_write(o));
    lemma_grows_refl(t.out.sends, |o: OutputView| o is Send);
    lemma_grows_refl(t.out.effects, |o: OutputView| is_effect(o));
    let before = t.out.persists;
    let after = before.push(o);
    assert forall|log: LogView| replayed(log, before) == t.node.log implies #[trigger] replayed(
        log,
        after,
    ) == node.log by {
        lemma_replay_ignores_rest(log, before, after, before.len() as int);
    }
}

// ---------------------------------------------------------------------------
// Handlers
// ---------------------------------------------------------------------------

pub(crate) proof fn lemma_commit_target(node: NodeView, n: u64)
    ensures
        node.commit_target(n) >= node.commit_index,
        node.commit_target(n) > node.commit_index ==> {
            &&& node.commit_target(n) <= n
            &&& node.cluster.is_quorum(node.holders(node.commit_target(n)))
            &&& !node.cfg.bugs.commit_prior_term_entries ==> node.log.term_at(
                node.commit_target(n),
            ) == Some(node.current_term)
        },
    decreases n,
{
    if n > node.commit_index && !node.cluster.is_quorum(node.holders(n)) && (node.log.term_at(n)
        == Some(node.current_term) || node.cfg.bugs.commit_prior_term_entries) {
        lemma_commit_target(node, (n - 1) as u64);
    }
}

proof fn lemma_maybe_advance_commit(t: Turn)
    ensures
        follows(t, t.with_node(t.node.maybe_advance_commit())),
{
    lemma_commit_target(t.node, t.node.log.last_index());
    lemma_follows_state(t, t.node.maybe_advance_commit());
}

proof fn lemma_become_follower(t: Turn, term: u64, leader: Option<u32>)
    ensures
        follows(t, t.with_node(t.node.become_follower(term, leader))),
{
    lemma_follows_state(t, t.node.become_follower(term, leader));
}

proof fn lemma_send_append(t: Turn, to: u32, round: u64)
    ensures
        follows(t, t.send_append_entries_for(to, round)),
        t.send_append_entries_for(to, round).node == t.node,
{
    reveal(Turn::send_append_entries_for);
    let next = t.next_for(to);
    let prev = crate::model::one_less(next);
    match t.node.log.term_at(prev) {
        None => {
            match t.node.snapshot {
                None => lemma_follows_state(t, t.node),
                Some(s) => lemma_follows_send(
                    t,
                    to,
                    MessageView::InstallSnapshot(
                        InstallView {
                            term: t.node.current_term,
                            leader_id: t.node.id,
                            last_included_index: s.last_included.index,
                            last_included_term: s.last_included.term,
                            config: s.config,
                            data: s.data,
                        },
                    ),
                ),
            }
        },
        Some(prev_term) => lemma_follows_send(
            t,
            to,
            MessageView::AppendEntries(
                AppendView {
                    term: t.node.current_term,
                    leader_id: t.node.id,
                    prev_log_index: prev,
                    prev_log_term: prev_term,
                    entries: t.node.log.entries_from(next, t.node.cfg.max_entries_per_append),
                    leader_commit: t.node.commit_index,
                    read_round: round,
                },
            ),
        ),
    }
}

proof fn lemma_broadcast_to(t: Turn, voters: Seq<u32>, n: int, round: u64)
    ensures
        follows(t, t.broadcast_to(voters, n, round)),
        t.broadcast_to(voters, n, round).node == t.node,
    decreases n,
{
    if n <= 0 {
        lemma_follows_state(t, t.node);
    } else {
        lemma_broadcast_to(t, voters, n - 1, round);
        let before = t.broadcast_to(voters, n - 1, round);
        if voters[n - 1] != t.node.id {
            lemma_send_append(before, voters[n - 1], round);
            lemma_follows_trans(t, before, before.send_append_entries_for(voters[n - 1], round));
        }
    }
}

pub(crate) proof fn lemma_broadcast(t: Turn, round: u64)
    ensures
        follows(t, t.broadcast(round)),
        t.broadcast(round).node == t.node,
        t.broadcast(round).out.persists == t.out.persists,
{
    reveal(Turn::broadcast);
    let voters = crate::order::in_order(t.node.cluster.voters());
    lemma_broadcast_to(t, voters, voters.len() as int, round);
    lemma_broadcast_only_sends(t, voters, voters.len() as int, round);
}

proof fn lemma_broadcast_only_sends(t: Turn, voters: Seq<u32>, n: int, round: u64)
    ensures
        t.broadcast_to(voters, n, round).out.persists == t.out.persists,
        t.broadcast_to(voters, n, round).out.effects == t.out.effects,
    decreases n,
{
    reveal(Turn::send_append_entries_for);
    if n > 0 {
        lemma_broadcast_only_sends(t, voters, n - 1, round);
    }
}

proof fn lemma_append_own(t: Turn, payload: PayloadView, client: Option<(u32, u64)>)
    ensures
        follows(t, t.append_own(payload, client)),
{
    let entry = EntryView {
        term: t.node.current_term,
        index: (t.node.log.last_index() + 1) as u64,
        payload,
        client,
    };
    let node = NodeView { log: t.node.log.append(seq![entry]), ..t.node };
    lemma_follows_write(t, node, PersistView::Append(seq![entry]));
}

proof fn lemma_request_votes(t: Turn, voters: Seq<u32>, n: int)
    ensures
        follows(t, t.request_votes(voters, n)),
        t.request_votes(voters, n).node == t.node,
    decreases n,
{
    if n <= 0 {
        lemma_follows_state(t, t.node);
    } else {
        lemma_request_votes(t, voters, n - 1);
        let before = t.request_votes(voters, n - 1);
        if voters[n - 1] != t.node.id {
            let msg = MessageView::RequestVote(
                RequestVoteReq {
                    term: t.node.current_term,
                    candidate_id: t.node.id,
                    last_log_index: t.node.log.last_log_id().index,
                    last_log_term: t.node.log.last_log_id().term,
                },
            );
            lemma_follows_send(before, voters[n - 1], msg);
            lemma_follows_trans(t, before, before.send(voters[n - 1], msg));
        }
    }
}

proof fn lemma_become_leader(t: Turn)
    ensures
        follows(t, t.become_leader()),
{
    reveal(Turn::become_leader);
    let next = (t.node.log.last_index() + 1) as u64;
    let elected = NodeView {
        role: Role::Leader,
        leader_id: Some(t.node.id),
        votes_granted: Set::empty(),
        next_index: Map::new(|id: u32| t.node.peers().contains(id), |id: u32| next),
        match_index: Map::new(|id: u32| t.node.peers().contains(id), |id: u32| 0u64),
        ..t.node
    };
    let t1 = t.with_node(elected);
    lemma_follows_state(t, elected);
    let t2 = t1.append_own(PayloadView::Noop, None);
    lemma_append_own(t1, PayloadView::Noop, None);
    let n3 = NodeView {
        heartbeat_deadline: (t.node.now + t.node.cfg.heartbeat_interval) as u64,
        last_heard_from_leader: t.node.now,
        ..t2.node
    };
    let t3 = t2.with_node(n3);
    lemma_follows_state(t2, n3);
    let t4 = t3.broadcast(0);
    lemma_broadcast(t3, 0);
    let t5 = t4.with_node(t4.node.maybe_advance_commit());
    lemma_maybe_advance_commit(t4);
    lemma_follows_trans(t, t1, t2);
    lemma_follows_trans(t, t2, t3);
    lemma_follows_trans(t, t3, t4);
    lemma_follows_trans(t, t4, t5);
}

proof fn lemma_start_election(t: Turn)
    requires
        t.node.current_term < u64::MAX,
    ensures
        follows(t, t.start_election()),
{
    reveal(Turn::start_election);
    if !t.node.cluster.contains(t.node.id) {
        lemma_follows_state(t, t.node.reset_election_deadline());
    } else {
        let candidate = NodeView {
            current_term: (t.node.current_term + 1) as u64,
            role: Role::Candidate,
            voted_for: Some(t.node.id),
            leader_id: None,
            votes_granted: Set::empty().insert(t.node.id),
            hard_state_dirty: true,
            ..t.node
        }.reset_election_deadline();
        let t1 = t.with_node(candidate);
        lemma_follows_state(t, candidate);
        let voters = crate::order::in_order(t.node.cluster.voters());
        let t2 = t1.request_votes(voters, voters.len() as int);
        lemma_request_votes(t1, voters, voters.len() as int);
        lemma_follows_trans(t, t1, t2);
        if t2.node.cluster.is_quorum(t2.node.votes_granted) {
            lemma_become_leader(t2);
            lemma_follows_trans(t, t2, t2.become_leader());
        }
    }
}

proof fn lemma_on_tick(t: Turn)
    requires
        t.node.current_term < u64::MAX,
    ensures
        follows(t, t.on_tick()),
{
    reveal(Turn::on_tick);
    lemma_follows_state(t, t.node);
    if t.node.role == Role::Leader {
        if t.node.now >= t.node.heartbeat_deadline {
            let n1 = NodeView {
                heartbeat_deadline: (t.node.now + t.node.cfg.heartbeat_interval) as u64,
                last_heard_from_leader: t.node.now,
                ..t.node
            };
            lemma_follows_state(t, n1);
            lemma_broadcast(t.with_node(n1), 0);
            lemma_follows_trans(t, t.with_node(n1), t.with_node(n1).broadcast(0));
        }
    } else if t.node.now >= t.node.election_deadline {
        lemma_start_election(t);
    }
}

proof fn lemma_reject_stale(t: Turn, from: u32, msg: MessageView)
    ensures
        follows(t, t.reject_stale(from, msg)),
{
    reveal(Turn::reject_stale);
    lemma_follows_state(t, t.node);
    match msg {
        MessageView::RequestVote(_) => lemma_follows_send(
            t,
            from,
            MessageView::RequestVoteResp(
                RequestVoteResp { term: t.node.current_term, vote_granted: false },
            ),
        ),
        MessageView::AppendEntries(req) => lemma_follows_send(
            t,
            from,
            MessageView::AppendEntriesResp(
                AppendEntriesResp {
                    term: t.node.current_term,
                    success: false,
                    match_index: 0,
                    conflict: None,
                    probed_index: req.prev_log_index,
                    read_round: req.read_round,
                },
            ),
        ),
        MessageView::InstallSnapshot(req) => lemma_follows_send(
            t,
            from,
            MessageView::InstallSnapshotResp(
                InstallSnapshotResp {
                    term: t.node.current_term,
                    last_included_index: req.last_included_index,
                },
            ),
        ),
        _ => {},
    }
}

proof fn lemma_on_request_vote(t: Turn, from: u32, req: RequestVoteReq)
    ensures
        follows(t, t.on_request_vote(from, req)),
{
    reveal(Turn::on_request_vote);
    let after = t.on_request_vote(from, req);
    let voted = t.with_node(after.node);
    lemma_follows_state(t, after.node);
    let msg = after.out.sends.last()->msg;
    lemma_follows_send(voted, from, msg);
    lemma_follows_trans(t, voted, voted.send(from, msg));
}

proof fn lemma_on_request_vote_resp(t: Turn, from: u32, resp: RequestVoteResp)
    ensures
        follows(t, t.on_request_vote_resp(from, resp)),
{
    reveal(Turn::on_request_vote_resp);
    lemma_follows_state(t, t.node);
    if resp.vote_granted {
        let n1 = NodeView { votes_granted: t.node.votes_granted.insert(from), ..t.node };
        let t1 = t.with_node(n1);
        lemma_follows_state(t, n1);
        if n1.cluster.is_quorum(n1.votes_granted) {
            lemma_become_leader(t1);
            lemma_follows_trans(t, t1, t1.become_leader());
        }
    }
}

pub(crate) proof fn lemma_adopt_configs(node: NodeView, entries: Seq<EntryView>)
    ensures
        node.adopt_configs(entries) == (NodeView {
            cluster: node.adopt_configs(entries).cluster,
            config_index: node.adopt_configs(entries).config_index,
            ..node
        }),
    decreases entries.len(),
{
    if entries.len() > 0 && !(entries.last().payload is Config) {
        lemma_adopt_configs(node, entries.drop_last());
    }
}

proof fn lemma_take_entries(t: Turn, entries: Seq<EntryView>, k: int)
    ensures
        follows(t, t.take_entries(entries, k)),
{
    let entry = entries[k];
    let rest = entries.skip(k);
    lemma_follows_state(t, t.node);
    let t1 = if t.node.log.term_at(entry.index) is Some {
        let shorter = NodeView { log: t.node.log.truncate_from(entry.index), ..t.node };
        let n1 = if t.node.config_index >= entry.index {
            shorter.refresh_config()
        } else {
            shorter
        };
        lemma_follows_write(t, n1, PersistView::TruncateFrom(entry.index));
        t.with_node(n1).persist(PersistView::TruncateFrom(entry.index))
    } else {
        t
    };
    let longer = NodeView { log: t1.node.log.append(rest), ..t1.node };
    let n2 = longer.adopt_configs(rest);
    lemma_adopt_configs(longer, rest);
    lemma_follows_write(t1, n2, PersistView::Append(rest));
    lemma_follows_trans(t, t1, t1.with_node(n2).persist(PersistView::Append(rest)));
}

proof fn lemma_hear_from(t: Turn, leader: u32)
    ensures
        follows(t, t.hear_from(leader)),
{
    lemma_follows_state(t, t.hear_from(leader).node);
}

proof fn lemma_concede_to(t: Turn, leader: u32)
    ensures
        follows(t, t.concede_to(leader)),
{
    lemma_follows_state(t, t.concede_to(leader).node);
}

proof fn lemma_on_append_entries(t: Turn, from: u32, req: AppendView)
    ensures
        follows(t, t.on_append_entries(from, req)),
{
    reveal(Turn::on_append_entries);
    let heard = t.hear_from(req.leader_id);
    lemma_hear_from(t, req.leader_id);
    let after = t.on_append_entries(from, req);
    let msg = after.out.sends.last()->msg;
    if heard.node.log.term_at(req.prev_log_index) != Some(req.prev_log_term) {
        lemma_follows_send(heard, from, msg);
        lemma_follows_trans(t, heard, heard.send(from, msg));
    } else {
        let k = heard.node.log.first_difference(req.entries, 0);
        lemma_follows_state(heard, heard.node);
        let taken = if k < req.entries.len() {
            lemma_take_entries(heard, req.entries, k);
            heard.take_entries(req.entries, k)
        } else {
            heard
        };
        lemma_follows_trans(t, heard, taken);
        lemma_follows_state(taken, after.node);
        let learned = taken.with_node(after.node);
        lemma_follows_send(learned, from, msg);
        lemma_follows_trans(t, taken, learned);
        lemma_follows_trans(t, learned, learned.send(from, msg));
    }
}

proof fn lemma_advance_match(t: Turn, from: u32, index: u64)
    ensures
        follows(t, t.advance_match(from, index)),
{
    let known = if t.node.match_index.contains_key(from) {
        t.node.match_index[from]
    } else {
        0
    };
    let m = crate::model::max_of(known, index);
    let n1 = NodeView {
        match_index: t.node.match_index.insert(from, m),
        next_index: t.node.next_index.insert(from, (m + 1) as u64),
        ..t.node
    };
    lemma_follows_state(t, n1);
    let t1 = t.with_node(n1);
    lemma_maybe_advance_commit(t1);
    let t2 = t.with_node(n1.maybe_advance_commit());
    lemma_follows_trans(t, t1, t2);
    if m < t2.node.log.last_index() {
        lemma_send_append(t2, from, 0);
        lemma_follows_trans(t, t2, t2.send_append_entries_for(from, 0));
    }
}

proof fn lemma_on_append_entries_resp(t: Turn, from: u32, resp: AppendEntriesResp)
    ensures
        follows(t, t.on_append_entries_resp(from, resp)),
{
    reveal(Turn::on_append_entries_resp);
    lemma_follows_state(t, t.node);
    if t.node.cluster.contains(from) {
        if resp.success {
            let n1 = t.node.note_read_ack(from, resp.read_round);
            let t1 = t.with_node(n1);
            lemma_follows_state(t, n1);
            lemma_advance_match(t1, from, resp.match_index);
            lemma_follows_trans(t, t1, t1.advance_match(from, resp.match_index));
        } else {
            let next = t.next_for(from);
            if resp.probed_index + 1 == next {
                let n1 = NodeView {
                    next_index: t.node.next_index.insert(
                        from,
                        t.node.backed_up(next, resp.conflict),
                    ),
                    ..t.node
                };
                let t1 = t.with_node(n1);
                lemma_follows_state(t, n1);
                lemma_send_append(t1, from, 0);
                lemma_follows_trans(t, t1, t1.send_append_entries_for(from, 0));
            }
        }
    }
}

proof fn lemma_on_install_snapshot(t: Turn, from: u32, req: InstallView)
    ensures
        follows(t, t.on_install_snapshot(from, req)),
{
    reveal(Turn::on_install_snapshot);
    let heard = t.hear_from(req.leader_id);
    lemma_hear_from(t, req.leader_id);
    let through = crate::LogId { index: req.last_included_index, term: req.last_included_term };
    let after = t.on_install_snapshot(from, req);
    let msg = after.out.sends.last()->msg;
    if through.index <= heard.node.commit_index {
        lemma_follows_send(heard, from, msg);
        lemma_follows_trans(t, heard, heard.send(from, msg));
    } else {
        let snapshot = SnapshotView { last_included: through, config: req.config, data: req.data };
        let confirmed = heard.node.log.term_at(through.index) == Some(through.term);
        let op = if confirmed {
            PersistView::Compact(through)
        } else {
            PersistView::ResetLog(through)
        };
        let saved = heard.with_node(heard.node).persist(PersistView::Snapshot(snapshot));
        lemma_follows_write(heard, heard.node, PersistView::Snapshot(snapshot));
        lemma_follows_trans(t, heard, saved);
        let trimmed = saved.with_node(after.node).persist(op);
        lemma_follows_write(saved, after.node, op);
        lemma_follows_trans(t, saved, trimmed);
        let restored = trimmed.effect(OutputView::RestoreSnapshot { snapshot });
        lemma_follows_effect(trimmed, OutputView::RestoreSnapshot { snapshot });
        lemma_follows_trans(t, trimmed, restored);
        lemma_follows_send(restored, from, msg);
        lemma_follows_trans(t, restored, restored.send(from, msg));
        assert(restored.send(from, msg) == after);
    }
}

proof fn lemma_on_message(t: Turn, from: u32, msg: MessageView)
    ensures
        follows(t, t.on_message(from, msg)),
{
    reveal(Turn::on_message);
    reveal(Turn::on_current_message);
    reveal(Turn::on_install_snapshot_resp);
    lemma_follows_state(t, t.node);
    if !(msg is RequestVote && t.node.ignores_vote_requests()) {
        let leader = match msg {
            MessageView::AppendEntries(m) => Some(m.leader_id),
            _ => None,
        };
        let t1 = if msg.term() > t.node.current_term {
            lemma_become_follower(t, msg.term(), leader);
            t.with_node(t.node.become_follower(msg.term(), leader))
        } else {
            t
        };
        let t2 = t.on_message(from, msg);
        if msg.term() < t1.node.current_term {
            lemma_reject_stale(t1, from, msg);
        } else {
            lemma_follows_state(t1, t1.node);
            match msg {
                MessageView::RequestVote(req) => lemma_on_request_vote(t1, from, req),
                MessageView::AppendEntries(req) => {
                    let c = t1.concede_to(req.leader_id);
                    lemma_concede_to(t1, req.leader_id);
                    lemma_on_append_entries(c, from, req);
                    lemma_follows_trans(t1, c, c.on_append_entries(from, req));
                },
                MessageView::InstallSnapshot(req) => {
                    let c = t1.concede_to(req.leader_id);
                    lemma_concede_to(t1, req.leader_id);
                    lemma_on_install_snapshot(c, from, req);
                    lemma_follows_trans(t1, c, c.on_install_snapshot(from, req));
                },
                MessageView::InstallSnapshotResp(resp) => {
                    lemma_advance_match(t1, from, resp.last_included_index);
                },
                MessageView::RequestVoteResp(resp) => lemma_on_request_vote_resp(t1, from, resp),
                MessageView::AppendEntriesResp(resp) => lemma_on_append_entries_resp(
                    t1,
                    from,
                    resp,
                ),
            }
        }
        lemma_follows_trans(t, t1, t2);
    }
}

pub(crate) proof fn lemma_advance_apply(t: Turn)
    ensures
        follows(t, t.advance_apply()),
        t.advance_apply().node == (NodeView {
            last_applied: t.advance_apply().node.last_applied,
            ..t.node
        }),
    decreases t.node.commit_index - t.node.last_applied,
{
    reveal_with_fuel(Turn::advance_apply, 2);
    lemma_follows_state(t, t.node);
    let index = (t.node.last_applied + 1) as u64;
    if !(t.node.last_applied >= t.node.commit_index || !t.node.log.holds(index)) {
        let entry = t.node.log.at(index);
        let o = OutputView::Apply {
            index,
            term: entry.term,
            payload: entry.payload,
            client: entry.client,
            respond: t.node.role == Role::Leader,
        };
        let n1 = NodeView { last_applied: index, ..t.node };
        let t1 = t.with_node(n1);
        lemma_follows_state(t, n1);
        let t2 = t1.effect(o);
        lemma_follows_effect(t1, o);
        lemma_follows_trans(t, t1, t2);
        lemma_advance_apply(t2);
        lemma_follows_trans(t, t2, t2.advance_apply());
    }
}

proof fn lemma_served_are_effects(node: NodeView, n: int)
    ensures
        forall|i: int|
            0 <= i < node.served(n).len() ==> is_effect(#[trigger] node.served(n)[i]),
        forall|i: int|
            0 <= i < node.served(n).len() ==> (#[trigger] node.served(n)[i] matches OutputView::ServeRead {
                client,
                seq,
                command,
                read_index,
            } && node.last_applied >= read_index),
    decreases n,
{
    if n > 0 {
        lemma_served_are_effects(node, n - 1);
    }
}

proof fn lemma_serve_ready(t: Turn)
    ensures
        follows(t, t.serve_ready()),
{
    let n = t.node.pending_reads.len() as int;
    let after = t.serve_ready();
    lemma_served_are_effects(t.node, n);
    lemma_grows_refl(t.out.persists, |o: OutputView| is_log_write(o));
    lemma_grows_refl(t.out.sends, |o: OutputView| o is Send);
    assert(after.out.effects.take(t.out.effects.len() as int) =~= t.out.effects);
    assert forall|i: int| t.out.effects.len() <= i < after.out.effects.len() implies is_effect(
        #[trigger] after.out.effects[i],
    ) by {
        assert(after.out.effects[i] == t.node.served(n)[i - t.out.effects.len()]);
    }
}

proof fn lemma_resolve_reads(t: Turn)
    ensures
        follows(t, t.resolve_reads()),
{
    reveal(Turn::resolve_reads);
    lemma_follows_state(t, t.node);
    if t.node.pending_reads.len() > 0 {
        if t.node.role != Role::Leader {
            lemma_follows_state(t, NodeView { pending_reads: Seq::empty(), ..t.node });
        } else if t.node.log.term_at(t.node.commit_index) == Some(t.node.current_term) {
            let pinned = if t.node.has_fresh_read() {
                let p = t.with_node(t.node.pin_reads());
                lemma_follows_state(t, t.node.pin_reads());
                lemma_broadcast(p, p.node.read_round);
                lemma_follows_trans(t, p, p.broadcast(p.node.read_round));
                p.broadcast(p.node.read_round)
            } else {
                t
            };
            lemma_serve_ready(pinned);
            lemma_follows_trans(t, pinned, pinned.serve_ready());
        }
    }
}

proof fn lemma_begin_read(t: Turn, request: RequestView)
    ensures
        follows(t, t.begin_read(request)),
{
    reveal(Turn::begin_read);
    let early = t.node.cfg.bugs.read_index_at_arrival;
    let round = (t.node.read_round + 1) as u64;
    let n1 = NodeView {
        read_round: if early {
            round
        } else {
            t.node.read_round
        },
        pending_reads: t.node.pending_reads.push(
            crate::model::ReadView {
                request,
                arrival_index: t.node.commit_index,
                read_index: if early {
                    Some(t.node.commit_index)
                } else {
                    None
                },
                round: if early {
                    Some(round)
                } else {
                    None
                },
                acks: if early {
                    Set::empty().insert(t.node.id)
                } else {
                    Set::empty()
                },
            },
        ),
        ..t.node
    };
    let t1 = t.with_node(n1);
    lemma_follows_state(t, n1);
    lemma_broadcast(t1, round);
    let t2 = if early {
        t1.broadcast(round)
    } else {
        t1
    };
    lemma_follows_state(t1, t1.node);
    lemma_follows_trans(t, t1, t2);
    lemma_resolve_reads(t2);
    lemma_follows_trans(t, t2, t2.resolve_reads());
}

proof fn lemma_append_config(t: Turn, config: crate::config::ConfigView)
    ensures
        follows(t, t.append_config(config)),
{
    let t1 = t.append_own(PayloadView::Config(config), None);
    lemma_append_own(t, PayloadView::Config(config), None);
    let n2 = NodeView {
        cluster: config,
        config_index: (t.node.log.last_index() + 1) as u64,
        ..t1.node
    }.reset_replication_state();
    let t2 = t1.with_node(n2);
    lemma_follows_state(t1, n2);
    let t3 = t2.broadcast(0);
    lemma_broadcast(t2, 0);
    lemma_maybe_advance_commit(t3);
    lemma_follows_trans(t, t1, t2);
    lemma_follows_trans(t, t2, t3);
    lemma_follows_trans(t, t3, t3.with_node(t3.node.maybe_advance_commit()));
}

proof fn lemma_on_change_membership(t: Turn, voters: Set<u32>)
    ensures
        follows(t, t.on_change_membership(voters)),
{
    reveal(Turn::on_change_membership);
    lemma_follows_state(t, t.node);
    let after = t.on_change_membership(voters);
    if t.node.role != Role::Leader || t.node.cluster.is_joint() || t.node.config_index
        > t.node.commit_index {
        lemma_follows_effect(t, after.out.effects.last());
    } else if voters != Set::<u32>::empty() {
        lemma_append_config(
            t,
            crate::config::ConfigView { old: t.node.cluster.old, new: Some(voters) },
        );
    }
}

proof fn lemma_after_commit(t: Turn)
    ensures
        follows(t, t.after_commit()),
{
    reveal(Turn::after_commit);
    lemma_follows_state(t, t.node);
    if t.node.role == Role::Leader {
        let t1 = if t.node.cluster.is_joint() && t.node.config_index <= t.node.commit_index {
            lemma_append_config(t, t.node.cluster.to_new()->0);
            t.append_config(t.node.cluster.to_new()->0)
        } else {
            t
        };
        lemma_become_follower(t1, t1.node.current_term, None);
        lemma_follows_state(t1, t1.node);
        lemma_follows_trans(t, t1, t.after_commit());
    }
}

proof fn lemma_on_compact(t: Turn, snapshot: SnapshotView)
    ensures
        follows(t, t.on_compact(snapshot)),
{
    reveal(Turn::on_compact);
    lemma_follows_state(t, t.node);
    let through = snapshot.last_included;
    let kept = SnapshotView { config: t.node.config_at(through.index), ..snapshot };
    if !(through.index > t.node.last_applied || through.index <= t.node.log.last_included.index
        || t.node.log.term_at(through.index) != Some(through.term)) {
        let after = t.on_compact(snapshot);
        let saved = t.with_node(t.node).persist(PersistView::Snapshot(kept));
        lemma_follows_write(t, t.node, PersistView::Snapshot(kept));
        lemma_follows_write(saved, after.node, PersistView::Compact(through));
        lemma_follows_trans(
            t,
            saved,
            saved.with_node(after.node).persist(PersistView::Compact(through)),
        );
    }
}

proof fn lemma_on_client_request(t: Turn, req: RequestView)
    ensures
        follows(t, t.on_client_request(req)),
{
    reveal(Turn::on_client_request);
    let after = t.on_client_request(req);
    if t.node.role != Role::Leader {
        lemma_follows_effect(t, after.out.effects.last());
    } else if req.read_only {
        lemma_begin_read(t, req);
    } else {
        let payload = PayloadView::Command(req.command);
        let t1 = t.append_own(payload, Some((req.client, req.seq)));
        lemma_append_own(t, payload, Some((req.client, req.seq)));
        let t2 = t1.broadcast(0);
        lemma_broadcast(t1, 0);
        lemma_maybe_advance_commit(t2);
        lemma_follows_trans(t, t1, t2);
        lemma_follows_trans(t, t2, t2.with_node(t2.node.maybe_advance_commit()));
    }
}

proof fn lemma_on_input(t: Turn, input: InputView)
    requires
        t.node.current_term < u64::MAX,
    ensures
        follows(t, t.on_input(input)),
{
    reveal(Turn::on_input);
    match input {
        InputView::Tick => lemma_on_tick(t),
        InputView::Message { from, msg } => lemma_on_message(t, from, msg),
        InputView::ClientRequest(req) => lemma_on_client_request(t, req),
        InputView::Compact(snapshot) => lemma_on_compact(t, snapshot),
        InputView::ChangeMembership(voters) => lemma_on_change_membership(t, voters),
    }
}

proof fn lemma_settle(t: Turn)
    ensures
        follows(t, t.settle()),
{
    reveal(Turn::settle);
    let t1 = t.after_commit();
    lemma_after_commit(t);
    lemma_resolve_reads(t1);
    lemma_advance_apply(t1.resolve_reads());
    lemma_advance_apply(t1);
    lemma_resolve_reads(t1.advance_apply());
    if t.node.cfg.bugs.read_index_at_arrival {
        lemma_follows_trans(t, t1, t1.resolve_reads());
        lemma_follows_trans(t, t1.resolve_reads(), t.settle());
    } else {
        lemma_follows_trans(t, t1, t1.advance_apply());
        lemma_follows_trans(t, t1.advance_apply(), t.settle());
    }
}

pub(crate) proof fn lemma_turn(node: NodeView, input: InputView, now: u64)
    requires
        node.accepts(input, now),
    ensures
        follows(Turn::begin(NodeView { now, ..node }), node.turn(input, now)),
{
    let t = Turn::begin(NodeView { now, ..node });
    lemma_on_input(t, input);
    lemma_settle(t.on_input(input));
    lemma_follows_trans(t, t.on_input(input), node.turn(input, now));
}

// ---------------------------------------------------------------------------
// Laws
// ---------------------------------------------------------------------------

/// A node's term never goes back, and within one term a vote, once cast, is
/// never changed: one vote per term.
pub proof fn law_one_vote_per_term(node: NodeView, input: InputView, now: u64)
    requires
        node.wf(),
        node.accepts(input, now),
        !node.cfg.bugs.vote_twice_per_term,
    ensures
        node.stepped(input, now).current_term >= node.current_term,
        node.stepped(input, now).current_term == node.current_term && node.voted_for is Some
            ==> node.stepped(input, now).voted_for == node.voted_for,
{
    lemma_turn(node, input, now);
}

/// What a node knows to be committed, and what it has applied, never goes back.
pub proof fn law_commit_and_apply_never_go_back(node: NodeView, input: InputView, now: u64)
    requires
        node.wf(),
        node.accepts(input, now),
    ensures
        node.stepped(input, now).commit_index >= node.commit_index,
        node.stepped(input, now).last_applied >= node.last_applied,
{
    lemma_turn(node, input, now);
}

/// The outputs of a step come in order: every durable write, then every
/// message, then everything else.
pub proof fn law_persist_before_send_before_effects(node: NodeView, input: InputView, now: u64)
    requires
        node.wf(),
        node.accepts(input, now),
    ensures
        forall|i: int, j: int|
            #![trigger node.step_outputs(input, now)[i], node.step_outputs(input, now)[j]]
            0 <= i < j < node.step_outputs(input, now).len() ==> {
                &&& node.step_outputs(input, now)[j] is Persist ==> node.step_outputs(
                    input,
                    now,
                )[i] is Persist
                &&& node.step_outputs(input, now)[j] is Send ==> !is_effect(
                    node.step_outputs(input, now)[i],
                )
            },
{
    lemma_turn(node, input, now);
    let t = node.turn(input, now);
    let all = node.step_outputs(input, now);
    let h = t.hard_state().len();
    let p = h + t.out.persists.len();
    let s = p + t.out.sends.len();
    assert forall|i: int| 0 <= i < all.len() implies {
        &&& i < p ==> all[i] is Persist
        &&& p <= i < s ==> all[i] is Send
        &&& s <= i ==> is_effect(#[trigger] all[i])
    } by {
        if i < h {
            assert(all[i] == t.hard_state()[i]);
        } else if i < p {
            assert(all[i] == t.out.persists[i - h]);
        } else if i < s {
            assert(all[i] == t.out.sends[i - p]);
        } else {
            assert(all[i] == t.out.effects[i - s]);
        }
    }
}

/// A step that changes the term or the vote writes both to disk, exactly once
/// and before anything else; a step that writes them writes the state it leaves.
pub proof fn law_one_hard_state_write(node: NodeView, input: InputView, now: u64)
    requires
        node.wf(),
        node.accepts(input, now),
        !node.hard_state_dirty,
        !node.cfg.bugs.skip_hard_state_persistence,
    ensures
        node.stepped(input, now).current_term != node.current_term || node.stepped(
            input,
            now,
        ).voted_for != node.voted_for ==> node.step_outputs(input, now).len() > 0
            && node.step_outputs(input, now)[0] == OutputView::Persist(
            PersistView::HardState {
                current_term: node.stepped(input, now).current_term,
                voted_for: node.stepped(input, now).voted_for,
            },
        ),
        forall|i: int|
            0 < i < node.step_outputs(input, now).len() ==> !(#[trigger] node.step_outputs(
                input,
                now,
            )[i] matches OutputView::Persist(PersistView::HardState { current_term, voted_for })),
        !node.stepped(input, now).hard_state_dirty,
{
    lemma_turn(node, input, now);
    let t = node.turn(input, now);
    let all = node.step_outputs(input, now);
    let h = t.hard_state().len();
    let p = h + t.out.persists.len();
    let s = p + t.out.sends.len();
    assert forall|i: int| 0 < i < all.len() implies !(#[trigger] all[i] matches OutputView::Persist(
        PersistView::HardState { current_term, voted_for },
    )) by {
        if i < h {
        } else if i < p {
            assert(all[i] == t.out.persists[i - h]);
            assert(is_log_write(t.out.persists[i - h]));
        } else if i < s {
            assert(all[i] == t.out.sends[i - p]);
            assert(t.out.sends[i - p] is Send);
        } else {
            assert(all[i] == t.out.effects[i - s]);
            assert(is_effect(t.out.effects[i - s]));
        }
    }
}

proof fn lemma_replay_prefix(log: LogView, a: Seq<OutputView>, b: Seq<OutputView>, n: int)
    requires
        0 <= n <= b.len(),
        forall|i: int| 0 <= i < n ==> !is_log_write(#[trigger] b[i]),
    ensures
        replay(log, a + b, a.len() + n) == replayed(log, a),
    decreases n,
{
    if n == 0 {
        lemma_replay_ignores_rest(log, a + b, a, a.len() as int);
    } else {
        lemma_replay_prefix(log, a, b, n - 1);
        assert((a + b)[a.len() + n - 1] == b[n - 1]);
    }
}

proof fn lemma_replay_head(log: LogView, h: Seq<OutputView>, a: Seq<OutputView>, n: int)
    requires
        0 <= n <= a.len(),
        forall|i: int| 0 <= i < h.len() ==> !is_log_write(#[trigger] h[i]),
    ensures
        replay(log, h + a, h.len() + n) == replay(log, a, n),
    decreases n,
{
    if n == 0 {
        lemma_replay_prefix(log, Seq::empty(), h, h.len() as int);
        assert(Seq::<OutputView>::empty() + h =~= h);
        lemma_replay_ignores_rest(log, h + a, h, h.len() as int);
    } else {
        lemma_replay_head(log, h, a, n - 1);
        assert((h + a)[h.len() + n - 1] == a[n - 1]);
    }
}

/// The durable writes of a step, replayed on the log the node had before, give
/// exactly the log it has after. A disk that was in step with the node stays in
/// step with it.
pub proof fn law_durable_log_follows(node: NodeView, input: InputView, now: u64)
    requires
        node.wf(),
        node.accepts(input, now),
    ensures
        replayed(node.log, node.step_outputs(input, now)) == node.stepped(input, now).log,
{
    lemma_turn(node, input, now);
    let t = node.turn(input, now);
    let start = Turn::begin(NodeView { now, ..node });
    assert(replayed(node.log, start.out.persists) == start.node.log);
    assert(replayed(node.log, t.out.persists) == t.node.log);
    let h = t.hard_state();
    let a = t.out.persists;
    let b = t.out.sends + t.out.effects;
    assert(node.step_outputs(input, now) =~= (h + a) + b);
    assert forall|i: int| 0 <= i < b.len() implies !is_log_write(#[trigger] b[i]) by {
        if i < t.out.sends.len() {
            assert(b[i] == t.out.sends[i]);
            assert(t.out.sends[i] is Send);
        } else {
            assert(b[i] == t.out.effects[i - t.out.sends.len()]);
            assert(is_effect(t.out.effects[i - t.out.sends.len()]));
        }
    }
    lemma_replay_prefix(node.log, h + a, b, b.len() as int);
    lemma_replay_head(node.log, h, a, a.len() as int);
}

/// The commit rule. Replica counting commits the highest index that a quorum
/// holds, and only one that carries an entry of the leader's own term.
pub proof fn law_commits_only_own_term_on_a_quorum(node: NodeView)
    requires
        node.wf(),
        !node.cfg.bugs.commit_prior_term_entries,
        node.maybe_advance_commit().commit_index > node.commit_index,
    ensures
        node.cluster.is_quorum(node.holders(node.maybe_advance_commit().commit_index)),
        node.log.term_at(node.maybe_advance_commit().commit_index) == Some(node.current_term),
        node.maybe_advance_commit().commit_index <= node.log.last_index(),
        forall|n: u64|
            node.maybe_advance_commit().commit_index < n <= node.log.last_index()
                ==> !node.cluster.is_quorum(#[trigger] node.holders(n)),
{
    lemma_commit_target(node, node.log.last_index());
    assert forall|n: u64|
        node.maybe_advance_commit().commit_index < n <= node.log.last_index() implies !node.cluster.is_quorum(
        #[trigger] node.holders(n),
    ) by {
        lemma_nothing_above_target(node, node.log.last_index(), n);
    }
}

proof fn lemma_nothing_above_target(node: NodeView, top: u64, n: u64)
    requires
        node.commit_target(top) > node.commit_index,
        node.commit_target(top) < n <= top,
    ensures
        !node.cluster.is_quorum(node.holders(n)),
    decreases top,
{
    if n < top {
        lemma_nothing_above_target(node, (top - 1) as u64, n);
    }
}

/// A vote is only ever granted to a voter of this configuration whose log is at
/// least as up-to-date as the voter's own: a winner's log holds everything any
/// of its voters held.
pub proof fn law_votes_respect_the_election_restriction(t: Turn, from: u32, req: RequestVoteReq)
    requires
        t.on_request_vote(from, req).out.sends.last() == (OutputView::Send {
            to: from,
            msg: MessageView::RequestVoteResp(
                RequestVoteResp { term: t.node.current_term, vote_granted: true },
            ),
        }),
    ensures
        (crate::LogId { index: req.last_log_index, term: req.last_log_term }).up_to_date_with(
            t.node.log.last_log_id(),
        ),
        t.node.cluster.contains(req.candidate_id),
        t.on_request_vote(from, req).node.voted_for == Some(req.candidate_id),
{
    reveal(Turn::on_request_vote);
}

/// A duplicated vote request costs nothing: asked again by the candidate it
/// voted for, a node grants again.
pub proof fn law_vote_requests_are_idempotent(t: Turn, from: u32, req: RequestVoteReq)
    requires
        t.on_request_vote(from, req).node.voted_for == Some(req.candidate_id),
        t.node.voted_for != Some(req.candidate_id),
    ensures
        t.on_request_vote(from, req).on_request_vote(from, req).out.sends.last() == t.on_request_vote(
            from,
            req,
        ).out.sends.last(),
        t.on_request_vote(from, req).on_request_vote(from, req).node.voted_for
            == t.on_request_vote(from, req).node.voted_for,
{
    reveal(Turn::on_request_vote);
}

proof fn lemma_no_difference(log: LogView, entries: Seq<EntryView>, i: int)
    requires
        0 <= i,
        forall|j: int|
            i <= j < entries.len() ==> log.term_at((#[trigger] entries[j]).index) == Some(
                entries[j].term,
            ),
    ensures
        log.first_difference(entries, i) == entries.len() || i > entries.len(),
    decreases entries.len() - i,
{
    if i < entries.len() {
        assert(log.term_at(entries[i].index) == Some(entries[i].term));
        lemma_no_difference(log, entries, i + 1);
    }
}

/// A delayed or duplicated append whose entries the follower already holds
/// never touches its log: nothing is truncated, nothing is appended, nothing is
/// written to disk.
pub proof fn law_duplicate_append_leaves_the_log_alone(t: Turn, from: u32, req: AppendView)
    requires
        forall|j: int|
            0 <= j < req.entries.len() ==> t.node.log.term_at((#[trigger] req.entries[j]).index)
                == Some(req.entries[j].term),
    ensures
        t.on_append_entries(from, req).node.log == t.node.log,
        t.on_append_entries(from, req).out.persists == t.out.persists,
{
    reveal(Turn::on_append_entries);
    lemma_no_difference(t.node.log, req.entries, 0);
}

/// Acknowledgements never move the known match index of any follower back,
/// however late or duplicated they are.
pub proof fn law_match_index_never_regresses(
    t: Turn,
    from: u32,
    resp: AppendEntriesResp,
    id: u32,
)
    requires
        t.node.match_index.contains_key(id),
    ensures
        t.on_append_entries_resp(from, resp).node.match_index.contains_key(id),
        t.on_append_entries_resp(from, resp).node.match_index[id] >= t.node.match_index[id],
{
    reveal(Turn::on_append_entries_resp);
    let next = t.next_for(from);
    let n1 = NodeView {
        next_index: t.node.next_index.insert(from, t.node.backed_up(next, resp.conflict)),
        ..t.node
    };
    lemma_send_append(t.with_node(n1), from, 0);
    let acked = t.with_node(t.node.note_read_ack(from, resp.read_round));
    lemma_advance_match_keeps(acked, from, resp.match_index, id);
}

proof fn lemma_advance_match_keeps(t: Turn, from: u32, index: u64, id: u32)
    requires
        t.node.match_index.contains_key(id),
    ensures
        t.advance_match(from, index).node.match_index.contains_key(id),
        t.advance_match(from, index).node.match_index[id] >= t.node.match_index[id],
{
    let known = if t.node.match_index.contains_key(from) {
        t.node.match_index[from]
    } else {
        0
    };
    let m = crate::model::max_of(known, index);
    let advanced = t.with_node(
        NodeView {
            match_index: t.node.match_index.insert(from, m),
            next_index: t.node.next_index.insert(from, (m + 1) as u64),
            ..t.node
        }.maybe_advance_commit(),
    );
    lemma_send_append(advanced, from, 0);
}

/// Only the rejection that answers the outstanding probe moves the next index;
/// a duplicated or overtaken one changes nothing at all.
pub proof fn law_stale_rejections_are_ignored(t: Turn, from: u32, resp: AppendEntriesResp)
    requires
        !resp.success,
        resp.probed_index + 1 != t.next_for(from),
    ensures
        t.on_append_entries_resp(from, resp) == t,
{
    reveal(Turn::on_append_entries_resp);
}

/// A tick before the node's next deadline is a no-op.
pub proof fn law_early_ticks_do_nothing(t: Turn)
    requires
        t.node.now < t.node.next_deadline(),
    ensures
        t.on_tick() == t,
{
    reveal(Turn::on_tick);
}

/// A node outside the configuration never campaigns: it sends nothing and stays
/// in its term.
pub proof fn law_outsiders_never_campaign(t: Turn)
    requires
        !t.node.cluster.contains(t.node.id),
    ensures
        t.start_election().out == t.out,
        t.start_election().node.current_term == t.node.current_term,
        t.start_election().node.role == t.node.role,
{
    reveal(Turn::start_election);
}

/// A read is served only by a leader that an entry of its own term has told
/// what is committed, after a quorum confirmed its leadership, and from a state
/// machine that has reached the index the read waits for.
pub proof fn law_reads_are_confirmed_before_they_are_served(t: Turn, i: int)
    requires
        t.out.effects.len() <= i < t.resolve_reads().out.effects.len(),
    ensures
        t.node.role == Role::Leader,
        t.node.log.term_at(t.node.commit_index) == Some(t.node.current_term),
        t.resolve_reads().out.effects[i] matches OutputView::ServeRead {
            client,
            seq,
            command,
            read_index,
        } && t.node.last_applied >= read_index,
        exists|read: crate::model::ReadView| #[trigger]
            t.node.is_ready(read) && t.resolve_reads().out.effects[i] == (OutputView::ServeRead {
                client: read.request.client,
                seq: read.request.seq,
                command: read.request.command,
                read_index: read.read_index->0,
            }),
{
    reveal(Turn::resolve_reads);
    let pinned = if t.node.has_fresh_read() {
        let p = t.with_node(t.node.pin_reads());
        lemma_broadcast(p, p.node.read_round);
        reveal(Turn::broadcast);
        let voters = crate::order::in_order(p.node.cluster.voters());
        lemma_broadcast_only_sends(p, voters, voters.len() as int, p.node.read_round);
        p.broadcast(p.node.read_round)
    } else {
        t
    };
    let n = pinned.node.pending_reads.len() as int;
    assert(t.resolve_reads().out.effects[i] == pinned.node.served(n)[i - t.out.effects.len()]);
    lemma_served_are_ready(pinned.node, n, i - t.out.effects.len());
    let read = choose|read: crate::model::ReadView| #[trigger]
        pinned.node.is_ready(read) && pinned.node.served(n)[i - t.out.effects.len()] == (
        OutputView::ServeRead {
            client: read.request.client,
            seq: read.request.seq,
            command: read.request.command,
            read_index: read.read_index->0,
        });
    assert(t.node.is_ready(read));
}

proof fn lemma_served_are_ready(node: NodeView, n: int, i: int)
    requires
        0 <= i < node.served(n).len(),
    ensures
        exists|read: crate::model::ReadView| #[trigger]
            node.is_ready(read) && node.served(n)[i] == (OutputView::ServeRead {
                client: read.request.client,
                seq: read.request.seq,
                command: read.request.command,
                read_index: read.read_index->0,
            }),
    decreases n,
{
    let read = node.pending_reads[n - 1];
    if node.is_ready(read) && i == node.served(n).len() - 1 {
    } else {
        lemma_served_are_ready(node, n - 1, i);
    }
}

/// Recovery puts back exactly what was durable: the term and the vote; the log,
/// reconciled with the snapshot; and, as committed and applied, no more than
/// the snapshot covers.
pub proof fn law_recovery_keeps_what_was_durable(
    fresh: NodeView,
    current_term: u64,
    voted_for: Option<u32>,
    log: LogView,
    snapshot: Option<SnapshotView>,
)
    requires
        !fresh.cfg.bugs.skip_snapshot_reconcile,
        log.wf(),
        snapshot matches Some(s) ==> s.last_included.index < u64::MAX,
        fresh.commit_index == 0,
        fresh.last_applied == 0,
    ensures
        ({
            let node = fresh.restored(current_term, voted_for, log, snapshot);
            &&& node.current_term == current_term
            &&& node.voted_for == voted_for
            &&& snapshot is None ==> node.log == log && node.commit_index == 0
                && node.last_applied == 0
            &&& snapshot matches Some(s) ==> {
                &&& node.log == log.reconcile(s.last_included)
                &&& node.log.last_included.index >= s.last_included.index
                &&& node.commit_index == s.last_included.index
                &&& node.last_applied == s.last_included.index
                &&& node.commit_index <= node.log.last_index()
            }
        }),
{
}

/// Reads never enter the log: a read-only request leaves the log as it was and
/// asks for no durable write.
pub proof fn law_reads_never_enter_the_log(t: Turn, req: RequestView)
    requires
        req.read_only,
    ensures
        t.on_client_request(req).node.log == t.node.log,
        t.on_client_request(req).out.persists == t.out.persists,
{
    reveal(Turn::on_client_request);
    reveal(Turn::begin_read);
    reveal(Turn::resolve_reads);
    if t.node.role == Role::Leader {
        let early = t.node.cfg.bugs.read_index_at_arrival;
        let round = (t.node.read_round + 1) as u64;
        let queued = t.with_node(
            NodeView {
                read_round: if early {
                    round
                } else {
                    t.node.read_round
                },
                pending_reads: t.node.pending_reads.push(
                    crate::model::ReadView {
                        request: req,
                        arrival_index: t.node.commit_index,
                        read_index: if early {
                            Some(t.node.commit_index)
                        } else {
                            None
                        },
                        round: if early {
                            Some(round)
                        } else {
                            None
                        },
                        acks: if early {
                            Set::empty().insert(t.node.id)
                        } else {
                            Set::empty()
                        },
                    },
                ),
                ..t.node
            },
        );
        lemma_broadcast(queued, round);
        let asked = if early {
            queued.broadcast(round)
        } else {
            queued
        };
        let p = asked.with_node(asked.node.pin_reads());
        lemma_broadcast(p, p.node.read_round);
    }
}

} // verus!
