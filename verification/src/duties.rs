//! What a node owes the others: whom it asks, whom it tells, and what it answers.
use crate::message::{AppendView, MessageView, RequestVoteReq};
use crate::model::{NodeView, OutputView, ReadView, RequestView, Turn};
use crate::Role;
use vstd::prelude::*;

verus! {

/// A vote is given exactly to a candidate that is a voter, whose log is at least
/// as good as the node's own, in a term in which the node has given its vote to
/// nobody else. It is answered either way, once, to whoever asked.
pub proof fn law_votes_are_given_to_who_deserves_them(t: Turn, from: u32, req: RequestVoteReq)
    requires
        !t.node.cfg.bugs.vote_twice_per_term,
    ensures
        ({
            let after = t.on_request_vote(from, req);
            let last = t.node.log.last_log_id();
            let good = req.last_log_term > last.term || (req.last_log_term == last.term
                && req.last_log_index >= last.index);
            let free = t.node.voted_for is None || t.node.voted_for == Some(req.candidate_id);
            let voter = t.node.cluster.contains(req.candidate_id);
            let given = good && free && voter;
            &&& after.out.sends.len() == t.out.sends.len() + 1
            &&& after.out.sends.drop_last() == t.out.sends
            &&& after.out.sends.last() matches OutputView::Send { to, msg } && to == from && (
            msg matches MessageView::RequestVoteResp(r) && r.term == t.node.current_term
                && r.vote_granted == given)
            &&& given ==> after.node.voted_for == Some(req.candidate_id)
                && after.node.hard_state_dirty
            &&& !given ==> after.node == t.node
            &&& after.node.role == t.node.role && after.node.log == t.node.log
                && after.node.current_term == t.node.current_term
        }),
{
    reveal(Turn::on_request_vote);
    let after = t.on_request_vote(from, req);
    assert(after.out.sends.drop_last() =~= t.out.sends);
}

proof fn lemma_votes_requested(t: Turn, voters: Seq<u32>, n: int)
    requires
        0 <= n <= voters.len(),
    ensures
        ({
            let after = t.request_votes(voters, n);
            let last = t.node.log.last_log_id();
            &&& after.node == t.node
            &&& after.out.persists == t.out.persists && after.out.effects == t.out.effects
            &&& after.out.sends.len() >= t.out.sends.len()
            &&& forall|i: int|
                0 <= i < t.out.sends.len() ==> #[trigger] after.out.sends[i] == t.out.sends[i]
            &&& forall|i: int|
                t.out.sends.len() <= i < after.out.sends.len() ==> asks_for_vote(
                    t.node,
                    voters,
                    #[trigger] after.out.sends[i],
                )
            &&& forall|k: int|
                0 <= k < n && voters[k] != t.node.id ==> asked(
                    after.out.sends,
                    t.out.sends.len() as int,
                    #[trigger] voters[k],
                )
        }),
    decreases n,
{
    if n > 0 {
        lemma_votes_requested(t, voters, n - 1);
        let b = t.request_votes(voters, n - 1);
        let a = t.request_votes(voters, n);
        let from = t.out.sends.len() as int;
        assert forall|k: int| 0 <= k < n && voters[k] != t.node.id implies asked(
            a.out.sends,
            from,
            #[trigger] voters[k],
        ) by {
            if k < n - 1 {
                assert(asked(b.out.sends, from, voters[k]));
                let i = choose|i: int|
                    from <= i < b.out.sends.len() && (#[trigger] b.out.sends[i] matches
                        OutputView::Send { to, msg } && to == voters[k]);
                assert(a.out.sends[i] == b.out.sends[i]);
            } else {
                let i = b.out.sends.len() as int;
                assert(a.out.sends[i] matches OutputView::Send { to, msg } && to == voters[k]);
            }
        }
        assert forall|i: int| from <= i < a.out.sends.len() implies asks_for_vote(
            t.node,
            voters,
            #[trigger] a.out.sends[i],
        ) by {
            if i < b.out.sends.len() {
                assert(a.out.sends[i] == b.out.sends[i]);
            } else {
                assert(voters.contains(voters[n - 1]));
            }
        }
        assert forall|i: int| 0 <= i < from implies #[trigger] a.out.sends[i]
            == t.out.sends[i] by {
            assert(b.out.sends[i] == t.out.sends[i]);
        }
    }
}

/// Something was sent to this node, from this place on.
pub open spec fn asked(sends: Seq<OutputView>, from: int, who: u32) -> bool {
    exists|i: int|
        from <= i < sends.len() && (#[trigger] sends[i] matches OutputView::Send { to, msg } && to
            == who)
}

/// A request for a vote in the node's term, with where its log ends, to another
/// voter.
pub open spec fn asks_for_vote(node: NodeView, voters: Seq<u32>, out: OutputView) -> bool {
    out matches OutputView::Send { to, msg } && to != node.id && voters.contains(to) && (
    msg matches MessageView::RequestVote(r) && r.term == node.current_term && r.candidate_id
        == node.id && r.last_log_index == node.log.last_log_id().index && r.last_log_term
        == node.log.last_log_id().term)
}

/// A node whose time is up runs for the next term: it votes for itself and asks
/// every other voter for theirs. One that is no voter only waits again.
pub proof fn law_candidates_ask_every_voter(t: Turn)
    requires
        t.node.cluster.voters().finite(),
        t.node.current_term < u64::MAX,
    ensures
        ({
            let after = t.start_election();
            let voters = crate::order::in_order(t.node.cluster.voters());
            let old = t.out.sends.len() as int;
            &&& !t.node.cluster.contains(t.node.id) ==> after.out == t.out && after.node.role
                == t.node.role && after.node.current_term == t.node.current_term
                && after.node.voted_for == t.node.voted_for
            &&& t.node.cluster.contains(t.node.id) && !t.node.cluster.is_quorum(
                set![t.node.id],
            ) ==> {
                &&& after.node.role == Role::Candidate
                &&& after.node.current_term == t.node.current_term + 1
                &&& after.node.voted_for == Some(t.node.id)
                &&& after.node.votes_granted == set![t.node.id]
                &&& after.node.hard_state_dirty && after.node.leader_id is None
                &&& forall|k: int|
                    0 <= k < voters.len() && voters[k] != t.node.id ==> asked(
                        after.out.sends,
                        old,
                        #[trigger] voters[k],
                    )
                &&& forall|i: int|
                    old <= i < after.out.sends.len() ==> asks_for_vote(
                        after.node,
                        voters,
                        #[trigger] after.out.sends[i],
                    )
            }
        }),
{
    reveal(Turn::start_election);
    let candidate = t.with_node(
        NodeView {
            current_term: (t.node.current_term + 1) as u64,
            role: Role::Candidate,
            voted_for: Some(t.node.id),
            leader_id: None,
            votes_granted: Set::empty().insert(t.node.id),
            hard_state_dirty: true,
            ..t.node
        }.reset_election_deadline(),
    );
    let voters = crate::order::in_order(t.node.cluster.voters());
    lemma_votes_requested(candidate, voters, voters.len() as int);
    assert(set![t.node.id] =~= Set::<u32>::empty().insert(t.node.id));
}

/// When its time is up, a node that does not lead runs, and a leader makes itself
/// heard. Before that, neither does anything.
pub proof fn law_nodes_act_when_due(t: Turn)
    ensures
        t.node.role == Role::Leader && t.node.now < t.node.heartbeat_deadline ==> t.on_tick() == t,
        t.node.role == Role::Leader && t.node.now >= t.node.heartbeat_deadline ==> t.on_tick()
            == t.with_node(
            NodeView {
                heartbeat_deadline: (t.node.now + t.node.cfg.heartbeat_interval) as u64,
                last_heard_from_leader: t.node.now,
                ..t.node
            },
        ).broadcast(0),
        t.node.role != Role::Leader && t.node.now < t.node.election_deadline ==> t.on_tick() == t,
        t.node.role != Role::Leader && t.node.now >= t.node.election_deadline ==> t.on_tick()
            == t.start_election(),
{
    reveal(Turn::on_tick);
}

/// An election is due no sooner than the shortest timeout, and sooner than the
/// longest.
pub proof fn law_deadlines_are_spread(node: NodeView)
    requires
        node.cfg.election_timeout_min < node.cfg.election_timeout_max,
        node.now + node.cfg.election_timeout_max <= u64::MAX,
    ensures
        ({
            let d = node.reset_election_deadline();
            &&& node.now + node.cfg.election_timeout_min <= d.election_deadline < node.now
                + node.cfg.election_timeout_max
            &&& d.current_term == node.current_term && d.voted_for == node.voted_for && d.role
                == node.role && d.log == node.log && d.commit_index == node.commit_index
        }),
{
    crate::rand::lemma_range_bounds(
        node.rng,
        node.cfg.election_timeout_min,
        node.cfg.election_timeout_max,
    );
}

/// What a leader sends to a follower: what comes after what the follower has, with
/// what stands just before it; or, where that is compacted away, its snapshot.
pub proof fn law_followers_get_what_they_lack(t: Turn, to: u32, round: u64)
    ensures
        ({
            let after = t.send_append_entries_for(to, round);
            let next = if t.node.next_index.contains_key(to) {
                t.node.next_index[to]
            } else {
                (t.node.log.last_index() + 1) as u64
            };
            let prev: u64 = if next == 0 {
                0
            } else {
                (next - 1) as u64
            };
            &&& after.node == t.node
            &&& t.node.log.term_at(prev) matches Some(term) ==> {
                &&& after.out.sends.drop_last() == t.out.sends
                &&& after.out.sends.last() matches OutputView::Send { to: x, msg } && x == to && (
                msg matches MessageView::AppendEntries(m) && m.term == t.node.current_term
                    && m.leader_id == t.node.id && m.prev_log_index == prev && m.prev_log_term
                    == term && m.entries == t.node.log.entries_from(
                    next,
                    t.node.cfg.max_entries_per_append,
                ) && m.leader_commit == t.node.commit_index && m.read_round == round)
            }
            &&& t.node.log.term_at(prev) is None ==> match t.node.snapshot {
                None => after == t,
                Some(s) => after.out.sends.drop_last() == t.out.sends && (
                after.out.sends.last() matches OutputView::Send { to: x, msg } && x == to && (
                msg matches MessageView::InstallSnapshot(m) && m.term == t.node.current_term
                    && m.leader_id == t.node.id && m.last_included_index == s.last_included.index
                    && m.last_included_term == s.last_included.term && m.config == s.config
                    && m.data == s.data)),
            }
        }),
{
    reveal(Turn::send_append_entries_for);
    let after = t.send_append_entries_for(to, round);
    assert(after.out.sends.len() > t.out.sends.len() ==> after.out.sends.drop_last()
        =~= t.out.sends);
}

proof fn lemma_told(t: Turn, voters: Seq<u32>, n: int, round: u64)
    requires
        0 <= n <= voters.len(),
        t.node.snapshot is Some || forall|x: u32| #[trigger]
            t.node.log.term_at(crate::model::one_less(t.next_for(x))) is Some,
    ensures
        ({
            let after = t.broadcast_to(voters, n, round);
            &&& after.node == t.node
            &&& after.out.sends.len() >= t.out.sends.len()
            &&& forall|k: int|
                0 <= k < n && voters[k] != t.node.id ==> asked(
                    after.out.sends,
                    t.out.sends.len() as int,
                    #[trigger] voters[k],
                )
        }),
    decreases n,
{
    if n > 0 {
        lemma_told(t, voters, n - 1, round);
        let b = t.broadcast_to(voters, n - 1, round);
        let a = t.broadcast_to(voters, n, round);
        let from = t.out.sends.len() as int;
        let who = voters[n - 1];
        if who != t.node.id {
            law_followers_get_what_they_lack(b, who, round);
            assert(b.next_for(who) == t.next_for(who));
            assert(t.node.snapshot is Some || t.node.log.term_at(
                crate::model::one_less(t.next_for(who)),
            ) is Some);
            assert(a.out.sends.len() == b.out.sends.len() + 1) by {
                reveal(Turn::send_append_entries_for);
            }
            let last = a.out.sends.len() - 1;
            assert(a.out.sends[last] matches OutputView::Send { to, msg } && to == who);
            assert(asked(a.out.sends, from, who));
        }
        assert forall|k: int| 0 <= k < n && voters[k] != t.node.id implies asked(
            a.out.sends,
            from,
            #[trigger] voters[k],
        ) by {
            if k < n - 1 {
                assert(asked(b.out.sends, from, voters[k]));
                let i = choose|i: int|
                    from <= i < b.out.sends.len() && (#[trigger] b.out.sends[i] matches
                        OutputView::Send { to, msg } && to == voters[k]);
                if who != t.node.id {
                    assert(a.out.sends.drop_last()[i] == b.out.sends[i]);
                }
                assert(a.out.sends[i] == b.out.sends[i]);
            }
        }
    }
}

/// A leader that makes itself heard is heard by every other voter: nobody is left
/// out.
pub proof fn law_leaders_tell_every_voter(t: Turn, round: u64)
    requires
        t.node.snapshot is Some || forall|x: u32| #[trigger]
            t.node.log.term_at(crate::model::one_less(t.next_for(x))) is Some,
    ensures
        ({
            let after = t.broadcast(round);
            let voters = crate::order::in_order(t.node.cluster.voters());
            &&& after.node == t.node
            &&& forall|k: int|
                0 <= k < voters.len() && voters[k] != t.node.id ==> asked(
                    after.out.sends,
                    t.out.sends.len() as int,
                    #[trigger] voters[k],
                )
        }),
{
    reveal(Turn::broadcast);
    let voters = crate::order::in_order(t.node.cluster.voters());
    lemma_told(t, voters, voters.len() as int, round);
}

/// A follower accepts what continues its log: it says up to where it agrees now,
/// and else what it has instead. Its answer goes to whoever asked, and names what
/// was asked.
pub proof fn law_followers_say_how_far_they_agree(t: Turn, from: u32, req: AppendView)
    ensures
        ({
            let after = t.on_append_entries(from, req);
            let fits = t.node.log.term_at(req.prev_log_index) == Some(req.prev_log_term);
            &&& after.node.leader_id == Some(req.leader_id)
            &&& after.node.last_heard_from_leader == t.node.now
            &&& after.out.sends.last() matches OutputView::Send { to, msg } && to == from && (
            msg matches MessageView::AppendEntriesResp(r) && r.success == fits && r.term
                == t.node.current_term && r.probed_index == req.prev_log_index && r.read_round
                == req.read_round && (!fits ==> r.match_index == 0 && r.conflict == Some(
                t.node.log.conflict_hint(req.prev_log_index),
            )) && (fits ==> r.conflict is None) && (fits && req.entries.len() == 0 ==> r.match_index
                == req.prev_log_index) && (fits && req.entries.len() > 0
                && t.node.log.first_difference(req.entries, 0) >= req.entries.len()
                ==> r.match_index == req.entries.last().index))
            &&& !fits ==> after.node.log == t.node.log && after.node.commit_index
                == t.node.commit_index && after.out.persists == t.out.persists
        }),
{
    reveal(Turn::on_append_entries);
    crate::pages::law_differences_are_found(t.node.log, req.entries, 0);
    let heard = t.hear_from(req.leader_id);
    let k = heard.node.log.first_difference(req.entries, 0);
    if k < req.entries.len() {
        lemma_taken(heard, req.entries, k);
    }
}

proof fn lemma_adopted(node: NodeView, entries: Seq<crate::log::EntryView>)
    ensures
        ({
            let after = node.adopt_configs(entries);
            NodeView { cluster: node.cluster, config_index: node.config_index, ..after } == node
        }),
    decreases entries.len(),
{
    if entries.len() > 0 {
        lemma_adopted(node, entries.drop_last());
    }
}

proof fn lemma_taken(t: Turn, entries: Seq<crate::log::EntryView>, k: int)
    ensures
        ({
            let after = t.take_entries(entries, k);
            &&& after.node.leader_id == t.node.leader_id
            &&& after.node.last_heard_from_leader == t.node.last_heard_from_leader
            &&& after.node.current_term == t.node.current_term
            &&& after.out.sends == t.out.sends
        }),
{
    let entry = entries[k];
    let rest = entries.skip(k);
    let cleared = if t.node.log.term_at(entry.index) is Some {
        let shorter = NodeView { log: t.node.log.truncate_from(entry.index), ..t.node };
        t.with_node(
            if t.node.config_index >= entry.index {
                shorter.refresh_config()
            } else {
                shorter
            },
        )
    } else {
        t
    };
    lemma_adopted(
        NodeView { log: cleared.node.log.append(rest), ..cleared.node },
        rest,
    );
}

/// A leader commits as far as a quorum has got with entries of its own term, and
/// no less.
pub proof fn law_leaders_commit_all_they_can(node: NodeView, n: u64, m: u64)
    requires
        !node.cfg.bugs.commit_prior_term_entries,
        node.commit_index < m <= n,
        node.cluster.is_quorum(node.holders(m)),
        forall|i: u64| m <= i <= n ==> #[trigger] node.log.term_at(i) == Some(node.current_term),
    ensures
        node.commit_target(n) >= m,
    decreases n,
{
    if n > m && !node.cluster.is_quorum(node.holders(n)) {
        law_leaders_commit_all_they_can(node, (n - 1) as u64, m);
    }
}

/// Whatever a node knows to be committed it applies at once, as far as its log
/// goes.
pub proof fn law_what_is_committed_is_applied(t: Turn)
    requires
        t.node.last_applied < u64::MAX,
    ensures
        ({
            let after = t.advance_apply();
            &&& after.node.last_applied >= after.node.commit_index || !after.node.log.holds(
                (after.node.last_applied + 1) as u64,
            )
            &&& after.node.commit_index == t.node.commit_index && after.node.log == t.node.log
        }),
    decreases t.node.commit_index - t.node.last_applied,
{
    reveal_with_fuel(Turn::advance_apply, 2);
    let index = (t.node.last_applied + 1) as u64;
    if t.node.last_applied < t.node.commit_index && t.node.log.holds(index) {
        let entry = t.node.log.at(index);
        let next = t.with_node(NodeView { last_applied: index, ..t.node }).effect(
            OutputView::Apply {
                index,
                term: entry.term,
                payload: entry.payload,
                client: entry.client,
                respond: t.node.role == Role::Leader,
            },
        );
        if index < u64::MAX {
            law_what_is_committed_is_applied(next);
        }
    }
}

/// A leader takes a write into its log at once, as its own client's; anybody else
/// says who leads.
pub proof fn law_writes_are_taken_or_refused(t: Turn, req: RequestView)
    requires
        !req.read_only,
    ensures
        ({
            let after = t.on_client_request(req);
            &&& t.node.role != Role::Leader ==> after.node == t.node && after.out.sends
                == t.out.sends && after.out.effects.drop_last() == t.out.effects && (
            after.out.effects.last() matches OutputView::ClientResponse { client, seq, result }
                && client == req.client && seq == req.seq && (result matches
                crate::node::ClientResult::NotLeader { leader } && leader == t.node.leader_id))
            &&& t.node.role == Role::Leader ==> {
                let entry = after.node.log.entries.last();
                &&& after.node.log.entries.drop_last() == t.node.log.entries
                &&& entry.term == t.node.current_term
                &&& entry.index == t.node.log.last_index() + 1 || t.node.log.last_index()
                    == u64::MAX
                &&& entry.payload matches crate::log::PayloadView::Command(bytes) && bytes
                    == req.command
                &&& entry.client == Some((req.client, req.seq))
                &&& after.out.persists.drop_last() == t.out.persists
                &&& after.out.persists.last() matches OutputView::Persist(op) && (op matches
                    crate::model::PersistView::Append(e) && e == seq![entry])
            }
        }),
{
    reveal(Turn::on_client_request);
    let after = t.on_client_request(req);
    if t.node.role != Role::Leader {
        assert(after.out.effects.drop_last() =~= t.out.effects);
    } else {
        let taken = t.append_own(
            crate::log::PayloadView::Command(req.command),
            Some((req.client, req.seq)),
        );
        lemma_broadcast_frame(taken, 0);
        assert(after.node.log == taken.node.log);
        assert(after.node.log.entries.drop_last() =~= t.node.log.entries);
        assert(after.out.persists.drop_last() =~= t.out.persists);
    }
}

proof fn lemma_broadcast_frame(t: Turn, round: u64)
    ensures
        t.broadcast(round).node == t.node,
        t.broadcast(round).out.persists == t.out.persists,
        t.broadcast(round).out.effects == t.out.effects,
{
    reveal(Turn::broadcast);
    let voters = crate::order::in_order(t.node.cluster.voters());
    lemma_broadcast_to_frame(t, voters, voters.len() as int, round);
}

proof fn lemma_broadcast_to_frame(t: Turn, voters: Seq<u32>, n: int, round: u64)
    ensures
        t.broadcast_to(voters, n, round).node == t.node,
        t.broadcast_to(voters, n, round).out.persists == t.out.persists,
        t.broadcast_to(voters, n, round).out.effects == t.out.effects,
    decreases n,
{
    if n > 0 {
        lemma_broadcast_to_frame(t, voters, n - 1, round);
        reveal(Turn::send_append_entries_for);
    }
}

/// A change of membership is begun only by a leader that has none going on, and
/// then with the old and the new voters together; else it is turned down, and why
/// is said.
pub proof fn law_changes_are_begun_one_at_a_time(t: Turn, voters: Set<u32>)
    ensures
        ({
            let after = t.on_change_membership(voters);
            let busy = t.node.cluster.new is Some || t.node.config_index > t.node.commit_index;
            &&& t.node.role != Role::Leader ==> after.node == t.node && (
            after.out.effects.last() matches OutputView::ClientResponse { client, seq, result } && (
            result matches crate::node::ClientResult::NotLeader { leader } && leader
                == t.node.leader_id))
            &&& t.node.role == Role::Leader && busy ==> after.node == t.node && (
            after.out.effects.last() matches OutputView::ClientResponse { client, seq, result }
                && result == crate::node::ClientResult::ChangeInProgress)
            &&& t.node.role == Role::Leader && !busy && voters == Set::<u32>::empty() ==> after == t
            &&& t.node.role == Role::Leader && !busy && voters != Set::<u32>::empty() ==> {
                let entry = after.node.log.entries.last();
                &&& after.node.cluster.old == t.node.cluster.old
                &&& after.node.cluster.new == Some(voters)
                &&& after.node.log.entries.drop_last() == t.node.log.entries
                &&& entry.payload matches crate::log::PayloadView::Config(c) && c
                    == after.node.cluster
                &&& after.out.effects == t.out.effects
            }
        }),
{
    reveal(Turn::on_change_membership);
    let after = t.on_change_membership(voters);
    let busy = t.node.cluster.new is Some || t.node.config_index > t.node.commit_index;
    if t.node.role == Role::Leader && !busy && voters != Set::<u32>::empty() {
        let config = crate::config::ConfigView { old: t.node.cluster.old, new: Some(voters) };
        let appended = t.append_own(crate::log::PayloadView::Config(config), None);
        let adopted = appended.with_node(
            NodeView {
                cluster: config,
                config_index: (t.node.log.last_index() + 1) as u64,
                ..appended.node
            }.reset_replication_state(),
        );
        lemma_broadcast_frame(adopted, 0);
        assert(after.node.log == appended.node.log);
        assert(after.node.log.entries.drop_last() =~= t.node.log.entries);
    }
}

/// A candidate counts each vote it is given, and leads as soon as a quorum has
/// given theirs: not before, and no later.
pub proof fn law_a_quorum_of_votes_makes_a_leader(
    t: Turn,
    from: u32,
    resp: crate::message::RequestVoteResp,
)
    requires
        t.node.role == Role::Candidate,
    ensures
        ({
            let after = t.on_request_vote_resp(from, resp);
            let votes = t.node.votes_granted.insert(from);
            let wins = resp.vote_granted && t.node.cluster.is_quorum(votes);
            &&& !resp.vote_granted ==> after == t
            &&& resp.vote_granted && !wins ==> after.node.votes_granted == votes && after.out
                == t.out && after.node.role == Role::Candidate
            &&& wins ==> after.node.role == Role::Leader && after.node.leader_id == Some(t.node.id)
                && after.node.current_term == t.node.current_term
                && after.node.log.entries.drop_last() == t.node.log.entries && (
            after.node.log.entries.last().payload is Noop) && after.node.log.entries.last().term
                == t.node.current_term
        }),
{
    reveal(Turn::on_request_vote_resp);
    reveal(Turn::become_leader);
    let counted = t.with_node(
        NodeView { votes_granted: t.node.votes_granted.insert(from), ..t.node },
    );
    if resp.vote_granted && counted.node.cluster.is_quorum(counted.node.votes_granted) {
        let after = t.on_request_vote_resp(from, resp);
        let next = (counted.node.log.last_index() + 1) as u64;
        let elected = NodeView {
            role: Role::Leader,
            leader_id: Some(counted.node.id),
            votes_granted: Set::empty(),
            next_index: Map::new(|id: u32| counted.node.peers().contains(id), |id: u32| next),
            match_index: Map::new(|id: u32| counted.node.peers().contains(id), |id: u32| 0u64),
            ..counted.node
        };
        let ready = counted.with_node(elected).append_own(crate::log::PayloadView::Noop, None);
        let announced = ready.with_node(
            NodeView {
                heartbeat_deadline: (counted.node.now + counted.node.cfg.heartbeat_interval) as u64,
                last_heard_from_leader: counted.node.now,
                ..ready.node
            },
        );
        lemma_broadcast_frame(announced, 0);
        assert(after.node.log == ready.node.log);
        assert(after.node.log.entries.drop_last() =~= t.node.log.entries);
    }
}

/// An acknowledgement of a round counts for every read of that round or an
/// earlier one, and for no other; no read is lost, and none changes otherwise.
pub proof fn law_acknowledgements_count_for_reads(node: NodeView, from: u32, round: u64, i: int)
    requires
        0 <= i < node.pending_reads.len(),
    ensures
        ({
            let after = node.note_read_ack(from, round);
            let r = node.pending_reads[i];
            let s = after.pending_reads[i];
            let counts = round > 0 && (r.round matches Some(x) && x <= round);
            &&& after.pending_reads.len() == node.pending_reads.len()
            &&& counts ==> s.acks == r.acks.insert(from)
            &&& !counts ==> s.acks == r.acks
            &&& s.request == r.request && s.read_index == r.read_index && s.round == r.round
                && s.arrival_index == r.arrival_index
        }),
{
}

/// Reads that have nothing to wait for yet are made to wait for what is committed
/// now, in a new round that the leader itself has acknowledged; the others stay
/// as they are.
pub proof fn law_reads_wait_for_what_is_committed(node: NodeView, i: int)
    requires
        0 <= i < node.pending_reads.len(),
        node.read_round < u64::MAX,
        !node.cfg.bugs.read_index_at_arrival,
    ensures
        ({
            let after = node.pin_reads();
            let r = node.pending_reads[i];
            let s = after.pending_reads[i];
            &&& after.read_round == node.read_round + 1
            &&& after.pending_reads.len() == node.pending_reads.len()
            &&& r.read_index is Some ==> s == r
            &&& r.read_index is None ==> s.read_index == Some(node.commit_index) && s.round == Some(
                after.read_round,
            ) && s.acks == r.acks.insert(node.id) && s.request == r.request
        }),
{
}

/// A follower that answers moves forward and never back: what it is known to have
/// is the most that it ever said, and what it is sent next comes right behind.
pub proof fn law_followers_move_forward(t: Turn, from: u32, index: u64)
    requires
        index < u64::MAX,
        t.node.match_index.contains_key(from) ==> t.node.match_index[from] < u64::MAX,
    ensures
        ({
            let after = t.advance_match(from, index);
            let was = if t.node.match_index.contains_key(from) {
                t.node.match_index[from]
            } else {
                0
            };
            &&& after.node.match_index.contains_key(from)
            &&& after.node.match_index[from] >= was && after.node.match_index[from] >= index
            &&& after.node.match_index[from] == was || after.node.match_index[from] == index
            &&& after.node.next_index.contains_key(from) && after.node.next_index[from]
                == after.node.match_index[from] + 1
            &&& after.node.match_index.remove(from) == t.node.match_index.remove(from)
            &&& after.node.log == t.node.log
        }),
{
    reveal(Turn::send_append_entries_for);
    let after = t.advance_match(from, index);
    assert(after.node.match_index.remove(from) =~= t.node.match_index.remove(from));
}

/// A change of membership that has been committed with both halves goes on to the
/// new voters alone; a leader that is not among them steps down once they have
/// taken over.
pub proof fn law_changes_are_carried_through(t: Turn)
    requires
        t.node.role == Role::Leader,
    ensures
        ({
            let after = t.after_commit();
            let halfway = t.node.cluster.new is Some && t.node.config_index <= t.node.commit_index;
            let done = t.node.cluster.new is None && t.node.config_index <= t.node.commit_index;
            &&& done && !t.node.cluster.old.contains(t.node.id) ==> after.node.role
                == Role::Follower
            &&& done && t.node.cluster.old.contains(t.node.id) ==> after == t
            &&& !halfway && !done ==> after == t
            &&& halfway ==> after.node.log.entries.drop_last() == t.node.log.entries && (
            after.node.log.entries.last().payload matches crate::log::PayloadView::Config(c)
                && c.old == t.node.cluster.new->0 && c.new is None && after.node.cluster == c)
        }),
{
    reveal(Turn::after_commit);
    let after = t.after_commit();
    if t.node.cluster.new is Some && t.node.config_index <= t.node.commit_index {
        let config = t.node.cluster.to_new()->0;
        let appended = t.append_own(crate::log::PayloadView::Config(config), None);
        let adopted = appended.with_node(
            NodeView {
                cluster: config,
                config_index: (t.node.log.last_index() + 1) as u64,
                ..appended.node
            }.reset_replication_state(),
        );
        lemma_broadcast_frame(adopted, 0);
        assert(after.node.log == appended.node.log);
        assert(after.node.log.entries.drop_last() =~= t.node.log.entries);
    }
}

/// A snapshot of the node's own is taken up exactly where it ends at something
/// that was applied, is still in the log, and has the right term; the log then
/// begins behind it.
pub proof fn law_compaction_needs_what_was_applied(
    t: Turn,
    snapshot: crate::snapshot::SnapshotView,
)
    ensures
        ({
            let after = t.on_compact(snapshot);
            let end = snapshot.last_included;
            let fine = t.node.log.last_included.index < end.index && end.index
                <= t.node.last_applied && t.node.log.term_at(end.index) == Some(end.term);
            &&& !fine ==> after == t
            &&& fine ==> {
                &&& after.node.snapshot matches Some(s) && s.last_included == end && s.data
                    == snapshot.data
                &&& after.node.log == t.node.log.compact(end)
                &&& after.out.persists.len() == t.out.persists.len() + 2
                &&& after.node.commit_index == t.node.commit_index && after.node.last_applied
                    == t.node.last_applied && after.node.current_term == t.node.current_term
            }
            &&& after.out.sends == t.out.sends && after.out.effects == t.out.effects
        }),
{
    reveal(Turn::on_compact);
}

/// A snapshot that a leader sends is installed exactly where it goes beyond what
/// the node knows to be committed, and the sender learns how far that is now.
pub proof fn law_snapshots_are_installed_where_they_help(
    t: Turn,
    from: u32,
    req: crate::message::InstallView,
)
    ensures
        ({
            let after = t.on_install_snapshot(from, req);
            let helps = req.last_included_index > t.node.commit_index;
            &&& after.out.sends.last() matches OutputView::Send { to, msg } && to == from && (
            msg matches MessageView::InstallSnapshotResp(r) && r.term == t.node.current_term
                && r.last_included_index == if helps {
                req.last_included_index
            } else {
                t.node.commit_index
            })
            &&& !helps ==> after.node.log == t.node.log && after.node.snapshot == t.node.snapshot
                && after.out.effects == t.out.effects && after.out.persists == t.out.persists
            &&& helps ==> {
                &&& after.node.commit_index == req.last_included_index
                &&& after.node.last_applied >= req.last_included_index
                &&& after.node.snapshot matches Some(s) && s.last_included.index
                    == req.last_included_index && s.last_included.term == req.last_included_term
                    && s.data == req.data && s.config == req.config
                &&& after.out.effects.last() matches OutputView::RestoreSnapshot { snapshot }
                    && Some(snapshot) == after.node.snapshot
                &&& after.node.log.start == req.last_included_index + 1 || req.last_included_index
                    < t.node.log.start || req.last_included_index == u64::MAX
            }
        }),
{
    reveal(Turn::on_install_snapshot);
}

/// A read is served exactly when it is pinned, its quorum has answered and what it
/// waits for is applied; every other one goes on waiting. None is lost.
pub proof fn law_reads_are_served_or_wait(node: NodeView, n: int, r: ReadView)
    requires
        0 <= n <= node.pending_reads.len(),
    ensures
        ({
            let ready = r.read_index is Some && node.cluster.is_quorum(r.acks) && node.last_applied
                >= r.read_index->0;
            &&& node.waiting(n).contains(r) <==> !ready && node.pending_reads.take(n).contains(r)
            &&& node.waiting(n).len() + node.served(n).len() == n
            &&& ready && node.pending_reads.take(n).contains(r) ==> exists|i: int|
                0 <= i < node.served(n).len() && (#[trigger] node.served(n)[i] matches
                    OutputView::ServeRead { client, seq, command, read_index } && client
                    == r.request.client && seq == r.request.seq && command == r.request.command
                    && read_index == r.read_index->0)
        }),
    decreases n,
{
    let all = node.pending_reads.take(n);
    if n > 0 {
        law_reads_are_served_or_wait(node, n - 1, r);
        let before = node.pending_reads.take(n - 1);
        let last = node.pending_reads[n - 1];
        assert(all =~= before.push(last));
        lemma_push(before, last, r);
        lemma_push(node.waiting(n - 1), last, r);
        let s = node.served(n - 1);
        let u = node.served(n);
        if before.contains(r) && node.is_ready(r) {
            let i = choose|i: int|
                0 <= i < s.len() && (#[trigger] s[i] matches OutputView::ServeRead {
                    client,
                    seq,
                    command,
                    read_index,
                } && client == r.request.client && seq == r.request.seq && command
                    == r.request.command && read_index == r.read_index->0);
            assert(u[i] == s[i]);
        } else if r == last && node.is_ready(r) {
            assert(u[s.len() as int] is ServeRead);
        }
    } else {
        assert(all =~= Seq::empty());
    }
}

proof fn lemma_push(s: Seq<ReadView>, last: ReadView, r: ReadView)
    ensures
        s.push(last).contains(r) <==> s.contains(r) || r == last,
{
    let t = s.push(last);
    if s.contains(r) {
        let i = choose|i: int| 0 <= i < s.len() && s[i] == r;
        assert(t[i] == r);
    }
    assert(t[s.len() as int] == last);
    if t.contains(r) && r != last {
        let i = choose|i: int| 0 <= i < t.len() && t[i] == r;
        assert(s[i] == r);
    }
}

/// A leader that is told off goes back: further than it was, but never below the
/// start; where the follower's log is longer than it thought, to where that ends.
pub proof fn law_leaders_back_off(
    node: NodeView,
    next: u64,
    conflict: Option<crate::message::ConflictHint>,
)
    ensures
        ({
            let back = node.backed_up(next, conflict);
            let longer = conflict matches Some(h) && h.term is None && h.first_index > next;
            &&& longer ==> back == (conflict->0).first_index
            &&& !longer ==> back >= 1 && (next > 1 ==> back < next) && (next <= 1 ==> back == 1)
            &&& !longer && conflict is None && next > 1 ==> back == next - 1
            &&& conflict matches Some(h) ==> h.term is None && 1 <= h.first_index < next ==> back
                == h.first_index
        }),
{
}

} // verus!
