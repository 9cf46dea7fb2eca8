//! A node applies what is committed in turn.
//!
//! Step after step, what reaches the state machine is the entry right behind
//! the last one; only a leader's snapshot moves it on by more.
use crate::log::PayloadView;
use crate::message::{AppendView, InstallView, MessageView};
use crate::model::{InputView, NodeView, OutputView, RequestView, Turn};
use crate::node::Role;
use vstd::prelude::*;

verus! {

/// How far the state machine is after the first `n` of these outputs.
pub open spec fn reached_by(outputs: Seq<OutputView>, n: int, from: u64) -> u64
    decreases n,
{
    if n <= 0 {
        from
    } else {
        let before = reached_by(outputs, n - 1, from);
        match outputs[n - 1] {
            OutputView::Apply { index, term, payload, client, respond } => index,
            OutputView::RestoreSnapshot { snapshot } => crate::model::max_of(
                before,
                snapshot.last_included.index,
            ),
            _ => before,
        }
    }
}

/// The output at `k` is the next one to apply, a snapshot of what is committed,
/// or neither.
pub open spec fn next_in_turn(outputs: Seq<OutputView>, k: int, from: u64, commit: u64) -> bool {
    match outputs[k] {
        OutputView::Apply { index, term, payload, client, respond } => index == reached_by(
            outputs,
            k,
            from,
        ) + 1,
        OutputView::RestoreSnapshot { snapshot } => snapshot.last_included.index <= commit,
        _ => true,
    }
}

/// So are the first `n`.
pub open spec fn in_turn(outputs: Seq<OutputView>, n: int, from: u64, commit: u64) -> bool {
    forall|k: int| 0 <= k < n ==> #[trigger] next_in_turn(outputs, k, from, commit)
}

/// The effects of a turn so far bring the state machine to where the node says
/// it is.
spec fn paced(from: u64, t: Turn) -> bool {
    let n = t.out.effects.len() as int;
    &&& in_turn(t.out.effects, n, from, t.node.commit_index)
    &&& reached_by(t.out.effects, n, from) == t.node.last_applied
    &&& t.node.last_applied <= t.node.commit_index || t.node.last_applied == from
}

/// Nothing was applied.
spec fn calm(a: Turn, b: Turn) -> bool {
    &&& b.out.effects == a.out.effects
    &&& b.node.last_applied == a.node.last_applied
    &&& b.node.commit_index >= a.node.commit_index
}

/// Nor was a round of confirmations begun.
spec fn still(a: Turn, b: Turn) -> bool {
    calm(a, b) && b.node.read_round == a.node.read_round
}

proof fn lemma_still(from: u64, a: Turn, b: Turn)
    requires
        paced(from, a),
        calm(a, b),
    ensures
        paced(from, b),
{
    let n = a.out.effects.len() as int;
    assert forall|k: int| 0 <= k < n implies #[trigger] next_in_turn(
        b.out.effects,
        k,
        from,
        b.node.commit_index,
    ) by {
        assert(next_in_turn(a.out.effects, k, from, a.node.commit_index));
    }
}

proof fn lemma_reached_prefix(a: Seq<OutputView>, b: Seq<OutputView>, n: int, from: u64)
    requires
        n <= a.len(),
        n <= b.len(),
        forall|k: int| 0 <= k < n ==> a[k] == b[k],
    ensures
        reached_by(a, n, from) == reached_by(b, n, from),
    decreases n,
{
    if n > 0 {
        lemma_reached_prefix(a, b, n - 1, from);
    }
}

/// One effect more.
proof fn lemma_one_more(from: u64, t: Turn, node: NodeView, o: OutputView)
    requires
        paced(from, t),
        node.commit_index >= t.node.commit_index,
        match o {
            OutputView::Apply { index, term, payload, client, respond } => index
                == t.node.last_applied + 1 && node.last_applied == index && index
                <= node.commit_index,
            OutputView::RestoreSnapshot { snapshot } => snapshot.last_included.index
                <= node.commit_index && node.last_applied == crate::model::max_of(
                t.node.last_applied,
                snapshot.last_included.index,
            ),
            _ => node.last_applied == t.node.last_applied,
        },
    ensures
        paced(from, t.with_node(node).effect(o)),
{
    let before = t.out.effects;
    let after = before.push(o);
    let n = before.len() as int;
    lemma_reached_prefix(after, before, n, from);
    assert forall|k: int| 0 <= k < n + 1 implies #[trigger] next_in_turn(
        after,
        k,
        from,
        node.commit_index,
    ) by {
        if k < n {
            assert(next_in_turn(before, k, from, t.node.commit_index));
            assert(after[k] == before[k]);
            lemma_reached_prefix(after, before, k, from);
        }
    }
    assert(after[n] == o);
}

// ---------------------------------------------------------------------------
// A turn
// ---------------------------------------------------------------------------

proof fn lemma_send_append(t: Turn, to: u32, round: u64)
    ensures
        still(t, t.send_append_entries_for(to, round)),
        t.send_append_entries_for(to, round).node == t.node,
{
    reveal(Turn::send_append_entries_for);
}

proof fn lemma_broadcast_to(t: Turn, voters: Seq<u32>, n: int, round: u64)
    ensures
        still(t, t.broadcast_to(voters, n, round)),
        t.broadcast_to(voters, n, round).node == t.node,
    decreases n,
{
    if n > 0 {
        lemma_broadcast_to(t, voters, n - 1, round);
        lemma_send_append(t.broadcast_to(voters, n - 1, round), voters[n - 1], round);
    }
}

proof fn lemma_broadcast(t: Turn, round: u64)
    ensures
        still(t, t.broadcast(round)),
        t.broadcast(round).node == t.node,
{
    reveal(Turn::broadcast);
    let voters = crate::order::in_order(t.node.cluster.voters());
    lemma_broadcast_to(t, voters, voters.len() as int, round);
}

proof fn lemma_advance_commit(n: NodeView)
    ensures
        n.maybe_advance_commit().commit_index >= n.commit_index,
        n.maybe_advance_commit().last_applied == n.last_applied,
        n.maybe_advance_commit().read_round == n.read_round,
{
    crate::node_laws::lemma_commit_target(n, n.log.last_index());
}

proof fn lemma_request_votes(t: Turn, voters: Seq<u32>, n: int)
    ensures
        still(t, t.request_votes(voters, n)),
    decreases n,
{
    if n > 0 {
        lemma_request_votes(t, voters, n - 1);
    }
}

proof fn lemma_become_leader(t: Turn)
    ensures
        still(t, t.become_leader()),
{
    reveal(Turn::become_leader);
    let next = (t.node.log.last_index() + 1) as u64;
    let elected = NodeView {
        role: Role::Leader,
        leader_id: Some(t.node.id),
        votes_granted: Set::empty(),
        next_index: Map::new(|id: u32| t.node.peers().contains(id), |id: u32| next),
        match_index: Map::new(|id: u32| t.node.peers().contains(id), |id: u32| 0u64),
        ..t.node
    };
    let t2 = t.with_node(elected).append_own(PayloadView::Noop, None);
    let t3 = t2.with_node(
        NodeView {
            heartbeat_deadline: (t.node.now + t.node.cfg.heartbeat_interval) as u64,
            last_heard_from_leader: t.node.now,
            ..t2.node
        },
    );
    lemma_broadcast(t3, 0);
    lemma_advance_commit(t3.broadcast(0).node);
}

proof fn lemma_on_tick(t: Turn)
    ensures
        still(t, t.on_tick()),
{
    reveal(Turn::on_tick);
    reveal(Turn::start_election);
    if t.node.role == Role::Leader {
        let t1 = t.with_node(
            NodeView {
                heartbeat_deadline: (t.node.now + t.node.cfg.heartbeat_interval) as u64,
                last_heard_from_leader: t.node.now,
                ..t.node
            },
        );
        lemma_broadcast(t1, 0);
    } else if t.node.now >= t.node.election_deadline && t.node.cluster.contains(t.node.id) {
        let t1 = t.with_node(
            NodeView {
                current_term: (t.node.current_term + 1) as u64,
                role: Role::Candidate,
                voted_for: Some(t.node.id),
                leader_id: None,
                votes_granted: Set::empty().insert(t.node.id),
                hard_state_dirty: true,
                ..t.node
            }.reset_election_deadline(),
        );
        let voters = crate::order::in_order(t.node.cluster.voters());
        lemma_request_votes(t1, voters, voters.len() as int);
        lemma_become_leader(t1.request_votes(voters, voters.len() as int));
    }
}

proof fn lemma_adopt(n: NodeView, entries: Seq<crate::log::EntryView>)
    ensures
        n.adopt_configs(entries).commit_index == n.commit_index,
        n.adopt_configs(entries).last_applied == n.last_applied,
        n.adopt_configs(entries).read_round == n.read_round,
    decreases entries.len(),
{
    if entries.len() > 0 {
        lemma_adopt(n, entries.drop_last());
    }
}

proof fn lemma_on_append_entries(t: Turn, from: u32, req: AppendView)
    ensures
        still(t, t.on_append_entries(from, req)),
{
    reveal(Turn::on_append_entries);
    let heard = t.hear_from(req.leader_id);
    let k = heard.node.log.first_difference(req.entries, 0);
    let entry = req.entries[k];
    let rest = req.entries.skip(k);
    let shorter = NodeView { log: heard.node.log.truncate_from(entry.index), ..heard.node };
    lemma_adopt(NodeView { log: heard.node.log.append(rest), ..heard.node }, rest);
    lemma_adopt(NodeView { log: shorter.log.append(rest), ..shorter }, rest);
    let fresh = shorter.refresh_config();
    lemma_adopt(NodeView { log: fresh.log.append(rest), ..fresh }, rest);
}

proof fn lemma_on_install_snapshot(start: u64, t: Turn, from: u32, req: InstallView)
    requires
        paced(start, t),
    ensures
        paced(start, t.on_install_snapshot(from, req)),
        t.on_install_snapshot(from, req).node.read_round == t.node.read_round,
{
    reveal(Turn::on_install_snapshot);
    let heard = t.hear_from(req.leader_id);
    lemma_still(start, t, heard);
    let after = t.on_install_snapshot(from, req);
    if req.last_included_index <= heard.node.commit_index {
        lemma_still(start, heard, after);
    } else {
        let o = after.out.effects.last();
        lemma_one_more(start, heard, after.node, o);
        lemma_still(start, heard.with_node(after.node).effect(o), after);
    }
}

proof fn lemma_advance_match(t: Turn, from: u32, index: u64)
    ensures
        still(t, t.advance_match(from, index)),
{
    let known = if t.node.match_index.contains_key(from) {
        t.node.match_index[from]
    } else {
        0
    };
    let m = crate::model::max_of(known, index);
    let n1 = NodeView {
        match_index: t.node.match_index.insert(from, m),
        next_index: t.node.next_index.insert(from, (m + 1) as u64),
        ..t.node
    };
    lemma_advance_commit(n1);
    lemma_send_append(t.with_node(n1.maybe_advance_commit()), from, 0);
}

proof fn lemma_on_append_entries_resp(t: Turn, from: u32, resp: crate::AppendEntriesResp)
    ensures
        still(t, t.on_append_entries_resp(from, resp)),
{
    reveal(Turn::on_append_entries_resp);
    lemma_advance_match(
        t.with_node(t.node.note_read_ack(from, resp.read_round)),
        from,
        resp.match_index,
    );
    let next = t.next_for(from);
    lemma_send_append(
        t.with_node(
            NodeView {
                next_index: t.node.next_index.insert(from, t.node.backed_up(next, resp.conflict)),
                ..t.node
            },
        ),
        from,
        0,
    );
}

proof fn lemma_on_message(start: u64, t: Turn, from: u32, msg: MessageView)
    requires
        paced(start, t),
    ensures
        paced(start, t.on_message(from, msg)),
        t.on_message(from, msg).node.read_round == t.node.read_round,
{
    reveal(Turn::on_message);
    reveal(Turn::on_current_message);
    reveal(Turn::on_install_snapshot_resp);
    let after = t.on_message(from, msg);
    if !(msg is RequestVote && t.node.ignores_vote_requests()) {
        let leader = match msg {
            MessageView::AppendEntries(m) => Some(m.leader_id),
            _ => None,
        };
        let t1 = if msg.term() > t.node.current_term {
            t.with_node(t.node.become_follower(msg.term(), leader))
        } else {
            t
        };
        lemma_still(start, t, t1);
        if msg.term() < t1.node.current_term {
            reveal(Turn::reject_stale);
            lemma_still(start, t1, after);
        } else {
            match msg {
                MessageView::RequestVote(req) => {
                    reveal(Turn::on_request_vote);
                    lemma_still(start, t1, after);
                },
                MessageView::AppendEntries(req) => {
                    lemma_on_append_entries(t1.concede_to(req.leader_id), from, req);
                    lemma_still(start, t1, after);
                },
                MessageView::InstallSnapshot(req) => {
                    let c = t1.concede_to(req.leader_id);
                    lemma_still(start, t1, c);
                    lemma_on_install_snapshot(start, c, from, req);
                },
                MessageView::InstallSnapshotResp(resp) => {
                    lemma_advance_match(t1, from, resp.last_included_index);
                    lemma_still(start, t1, after);
                },
                MessageView::RequestVoteResp(resp) => {
                    reveal(Turn::on_request_vote_resp);
                    lemma_become_leader(
                        t1.with_node(
                            NodeView {
                                votes_granted: t1.node.votes_granted.insert(from),
                                ..t1.node
                            },
                        ),
                    );
                    lemma_still(start, t1, after);
                },
                MessageView::AppendEntriesResp(resp) => {
                    lemma_on_append_entries_resp(t1, from, resp);
                    lemma_still(start, t1, after);
                },
            }
        }
    }
}

/// Effects that do not touch the state machine's position.
proof fn lemma_aside(
    from: u64,
    effects: Seq<OutputView>,
    more: Seq<OutputView>,
    n: int,
    commit: u64,
)
    requires
        0 <= n <= more.len(),
        in_turn(effects, effects.len() as int, from, commit),
        forall|k: int| 0 <= k < more.len() ==> #[trigger] more[k] is ServeRead,
    ensures
        in_turn(effects + more, effects.len() + n, from, commit),
        reached_by(effects + more, effects.len() + n, from) == reached_by(
            effects,
            effects.len() as int,
            from,
        ),
    decreases n,
{
    let all = effects + more;
    if n == 0 {
        lemma_reached_prefix(all, effects, effects.len() as int, from);
        assert forall|k: int| 0 <= k < effects.len() implies #[trigger] next_in_turn(
            all,
            k,
            from,
            commit,
        ) by {
            assert(next_in_turn(effects, k, from, commit));
            lemma_reached_prefix(all, effects, k, from);
        }
    } else {
        lemma_aside(from, effects, more, n - 1, commit);
        assert(all[effects.len() + n - 1] == more[n - 1]);
        assert forall|k: int| 0 <= k < effects.len() + n implies #[trigger] next_in_turn(
            all,
            k,
            from,
            commit,
        ) by {
            if k < effects.len() + n - 1 {
            } else {
                assert(all[k] == more[n - 1]);
            }
        }
    }
}

proof fn lemma_served(n: NodeView, k: int)
    ensures
        forall|i: int| 0 <= i < n.served(k).len() ==> #[trigger] n.served(k)[i] is ServeRead,
    decreases k,
{
    if k > 0 {
        lemma_served(n, k - 1);
    }
}

proof fn lemma_resolve_reads(start: u64, t: Turn)
    requires
        paced(start, t),
    ensures
        paced(start, t.resolve_reads()),
        t.node.read_round < u64::MAX ==> t.resolve_reads().node.read_round <= t.node.read_round
            + 1,
{
    reveal(Turn::resolve_reads);
    let after = t.resolve_reads();
    if t.node.pending_reads.len() > 0 && t.node.role == Role::Leader && t.node.log.term_at(
        t.node.commit_index,
    ) == Some(t.node.current_term) {
        let pinned = if t.node.has_fresh_read() {
            let p = t.with_node(t.node.pin_reads());
            lemma_broadcast(p, p.node.read_round);
            p.broadcast(p.node.read_round)
        } else {
            t
        };
        lemma_still(start, t, pinned);
        let k = pinned.node.pending_reads.len() as int;
        let more = pinned.node.served(k);
        lemma_served(pinned.node, k);
        lemma_aside(
            start,
            pinned.out.effects,
            more,
            more.len() as int,
            pinned.node.commit_index,
        );
    } else {
        lemma_still(start, t, after);
    }
}

proof fn lemma_advance_apply(start: u64, t: Turn)
    requires
        paced(start, t),
    ensures
        paced(start, t.advance_apply()),
    decreases t.node.commit_index - t.node.last_applied,
{
    reveal_with_fuel(Turn::advance_apply, 2);
    let index = (t.node.last_applied + 1) as u64;
    if !(t.node.last_applied >= t.node.commit_index || !t.node.log.holds(index)) {
        let entry = t.node.log.at(index);
        let n1 = NodeView { last_applied: index, ..t.node };
        let o = OutputView::Apply {
            index,
            term: entry.term,
            payload: entry.payload,
            client: entry.client,
            respond: t.node.role == Role::Leader,
        };
        lemma_one_more(start, t, n1, o);
        lemma_advance_apply(start, t.with_node(n1).effect(o));
    }
}

proof fn lemma_begin_read(start: u64, t: Turn, request: RequestView)
    requires
        paced(start, t),
    ensures
        paced(start, t.begin_read(request)),
        t.node.read_round + 1 < u64::MAX ==> t.begin_read(request).node.read_round
            <= t.node.read_round + 2,
{
    reveal(Turn::begin_read);
    let early = t.node.cfg.bugs.read_index_at_arrival;
    let round = (t.node.read_round + 1) as u64;
    let queued = t.with_node(
        NodeView {
            read_round: if early {
                round
            } else {
                t.node.read_round
            },
            pending_reads: t.node.pending_reads.push(
                crate::model::ReadView {
                    request,
                    arrival_index: t.node.commit_index,
                    read_index: if early {
                        Some(t.node.commit_index)
                    } else {
                        None
                    },
                    round: if early {
                        Some(round)
                    } else {
                        None
                    },
                    acks: if early {
                        Set::empty().insert(t.node.id)
                    } else {
                        Set::empty()
                    },
                },
            ),
            ..t.node
        },
    );
    lemma_still(start, t, queued);
    lemma_broadcast(queued, round);
    lemma_still(start, queued, queued.broadcast(round));
    lemma_resolve_reads(start, queued);
    lemma_resolve_reads(start, queued.broadcast(round));
}

proof fn lemma_append_config(t: Turn, config: crate::config::ConfigView)
    ensures
        still(t, t.append_config(config)),
{
    let t1 = t.append_own(PayloadView::Config(config), None);
    let t2 = t1.with_node(
        NodeView {
            cluster: config,
            config_index: (t.node.log.last_index() + 1) as u64,
            ..t1.node
        }.reset_replication_state(),
    );
    lemma_broadcast(t2, 0);
    lemma_advance_commit(t2.broadcast(0).node);
}

proof fn lemma_on_input(start: u64, t: Turn, input: InputView)
    requires
        paced(start, t),
    ensures
        paced(start, t.on_input(input)),
        t.node.read_round + 1 < u64::MAX ==> t.on_input(input).node.read_round
            <= t.node.read_round + 2,
{
    reveal(Turn::on_input);
    let after = t.on_input(input);
    match input {
        InputView::Tick => {
            lemma_on_tick(t);
            lemma_still(start, t, after);
        },
        InputView::Message { from, msg } => lemma_on_message(start, t, from, msg),
        InputView::ClientRequest(req) => {
            reveal(Turn::on_client_request);
            if t.node.role != Role::Leader {
                lemma_one_more(start, t, t.node, after.out.effects.last());
            } else if req.read_only {
                lemma_begin_read(start, t, req);
            } else {
                let t1 = t.append_own(
                    PayloadView::Command(req.command),
                    Some((req.client, req.seq)),
                );
                lemma_broadcast(t1, 0);
                lemma_advance_commit(t1.broadcast(0).node);
                lemma_still(start, t, after);
            }
        },
        InputView::Compact(snapshot) => {
            reveal(Turn::on_compact);
            lemma_still(start, t, after);
        },
        InputView::ChangeMembership(voters) => {
            reveal(Turn::on_change_membership);
            let joint = crate::config::ConfigView { old: t.node.cluster.old, new: Some(voters) };
            lemma_append_config(t, joint);
            if t.node.role != Role::Leader || t.node.cluster.is_joint() || t.node.config_index
                > t.node.commit_index {
                lemma_one_more(start, t, t.node, after.out.effects.last());
            } else {
                lemma_still(start, t, after);
            }
        },
    }
}

proof fn lemma_settle(start: u64, t: Turn)
    requires
        paced(start, t),
    ensures
        paced(start, t.settle()),
{
    reveal(Turn::settle);
    reveal(Turn::after_commit);
    let t1 = t.after_commit();
    lemma_append_config(t, t.node.cluster.to_new()->0);
    lemma_still(start, t, t1);
    lemma_resolve_reads(start, t1);
    lemma_advance_apply(start, t1.resolve_reads());
    lemma_advance_apply(start, t1);
    lemma_resolve_reads(start, t1.advance_apply());
}

/// An input begins two rounds at most.
pub(crate) proof fn lemma_few_rounds(node: NodeView, input: InputView, now: u64)
    requires
        node.accepts(input, now),
    ensures
        Turn::begin(NodeView { now, ..node }).on_input(input).node.read_round <= node.read_round
            + 2,
{
    lemma_on_input(node.last_applied, Turn::begin(NodeView { now, ..node }), input);
}

/// Outputs before them that are no effects make no difference.
proof fn lemma_behind(
    a: Seq<OutputView>,
    b: Seq<OutputView>,
    n: int,
    from: u64,
    commit: u64,
)
    requires
        0 <= n <= b.len(),
        forall|k: int| 0 <= k < a.len() ==> !crate::node_laws::is_effect(#[trigger] a[k]),
        in_turn(b, b.len() as int, from, commit),
    ensures
        in_turn(a + b, a.len() + n, from, commit),
        reached_by(a + b, a.len() + n, from) == reached_by(b, n, from),
    decreases n,
{
    let all = a + b;
    if n == 0 {
        lemma_nothing_reached(all, a.len() as int, from, commit);
    } else {
        lemma_behind(a, b, n - 1, from, commit);
        assert(all[a.len() + n - 1] == b[n - 1]);
        assert(next_in_turn(b, n - 1, from, commit));
        assert forall|k: int| 0 <= k < a.len() + n implies #[trigger] next_in_turn(
            all,
            k,
            from,
            commit,
        ) by {
            if k == a.len() + n - 1 {
                assert(all[k] == b[n - 1]);
            }
        }
    }
}

proof fn lemma_nothing_reached(s: Seq<OutputView>, n: int, from: u64, commit: u64)
    requires
        0 <= n <= s.len(),
        forall|k: int| 0 <= k < n ==> !crate::node_laws::is_effect(#[trigger] s[k]),
    ensures
        reached_by(s, n, from) == from,
        in_turn(s, n, from, commit),
    decreases n,
{
    if n > 0 {
        lemma_nothing_reached(s, n - 1, from, commit);
        assert(!crate::node_laws::is_effect(s[n - 1]));
    }
    assert forall|k: int| 0 <= k < n implies #[trigger] next_in_turn(s, k, from, commit) by {
        assert(!crate::node_laws::is_effect(s[k]));
    }
}

/// Whatever the input, the entries that a step applies are those right behind
/// the last one that was applied, one after the other; a snapshot that it
/// installs is of what is committed; and in the end the node has applied exactly
/// as far as that goes.
pub proof fn law_entries_are_applied_in_turn(node: NodeView, input: InputView, now: u64)
    requires
        node.accepts(input, now),
    ensures
        ({
            let outputs = node.step_outputs(input, now);
            let n = outputs.len() as int;
            let after = node.stepped(input, now);
            &&& in_turn(outputs, n, node.last_applied, after.commit_index)
            &&& reached_by(outputs, n, node.last_applied) == after.last_applied
            &&& node.last_applied <= node.commit_index ==> after.last_applied
                <= after.commit_index
        }),
{
    let start = node.last_applied;
    let begun = Turn::begin(NodeView { now, ..node });
    let t = node.turn(input, now);
    lemma_on_input(start, begun, input);
    lemma_settle(start, begun.on_input(input));
    crate::node_laws::lemma_turn(node, input, now);
    let before = t.hard_state() + t.out.persists + t.out.sends;
    let h = t.hard_state().len() as int;
    let p = h + t.out.persists.len();
    assert forall|k: int| 0 <= k < before.len() implies !crate::node_laws::is_effect(
        #[trigger] before[k],
    ) by {
        if k < h {
            assert(before[k] == t.hard_state()[k]);
        } else if k < p {
            assert(before[k] == t.out.persists[k - h]);
            assert(crate::node_laws::is_log_write(t.out.persists[k - h]));
        } else {
            assert(before[k] == t.out.sends[k - p]);
            assert(t.out.sends[k - p] is Send);
        }
    }
    lemma_behind(
        before,
        t.out.effects,
        t.out.effects.len() as int,
        start,
        t.node.commit_index,
    );
    assert(node.step_outputs(input, now) =~= before + t.out.effects);
}

/// The node after the first `n` of these inputs, each at its time.
pub open spec fn node_after(node: NodeView, inputs: Seq<(InputView, u64)>, n: int) -> NodeView
    decreases n,
{
    if n <= 0 {
        node
    } else {
        node_after(node, inputs, n - 1).stepped(inputs[n - 1].0, inputs[n - 1].1)
    }
}

/// Each of the first `n` is one that the node can take by then.
pub open spec fn all_accepted(node: NodeView, inputs: Seq<(InputView, u64)>, n: int) -> bool {
    forall|k: int|
        0 <= k < n ==> node_after(node, inputs, k).accepts((#[trigger] inputs[k]).0, inputs[k].1)
}

/// A node never applies what it does not know to be committed: not when it is
/// started, not when it is brought back from its disk, and not after any number
/// of inputs.
pub proof fn law_only_the_committed_is_applied(
    fresh: NodeView,
    current_term: u64,
    voted_for: Option<u32>,
    log: crate::log::LogView,
    snapshot: Option<crate::snapshot::SnapshotView>,
    node: NodeView,
    inputs: Seq<(InputView, u64)>,
    n: int,
)
    requires
        fresh.commit_index == 0,
        fresh.last_applied == 0,
        node == fresh || node == fresh.restored(current_term, voted_for, log, snapshot),
        0 <= n <= inputs.len(),
        all_accepted(node, inputs, n),
    ensures
        node_after(node, inputs, n).last_applied <= node_after(node, inputs, n).commit_index,
    decreases n,
{
    if n > 0 {
        law_only_the_committed_is_applied(
            fresh,
            current_term,
            voted_for,
            log,
            snapshot,
            node,
            inputs,
            n - 1,
        );
        let before = node_after(node, inputs, n - 1);
        assert(before.accepts(inputs[n - 1].0, inputs[n - 1].1));
        law_entries_are_applied_in_turn(before, inputs[n - 1].0, inputs[n - 1].1);
        crate::node_laws::lemma_turn(before, inputs[n - 1].0, inputs[n - 1].1);
    }
}

} // verus!
