//! What the safety checker knows of a run is true.
//!
//! Everything a [`CheckerView`](crate::invariants::CheckerView) has gathered
//! agrees with the [`Chronicle`](crate::chronicle::Chronicle) of the run, so it
//! finds nothing to report in a node whose part is true.
use crate::chronicle::{holds, Chronicle};
use crate::invariants::{AppliedFactView, CheckerView, CommittedFact, LogFact};
use crate::kv::CommandView;
use crate::log::{EntryView, PayloadView};
use crate::member::{final_at, sane};
use crate::model::NodeView;
use crate::node::Role;
use vstd::prelude::*;

verus! {

/// What a committed entry asks of the state machine.
pub open spec fn asked(payload: PayloadView) -> Option<CommandView> {
    match payload {
        PayloadView::Command(bytes) => crate::kv::command_of(bytes),
        _ => None,
    }
}

/// This is the entry of this term at this index, and the term before it.
pub open spec fn slot_true(h: Chronicle, index: u64, term: u64, fact: LogFact) -> bool {
    let led = h.led(term);
    &&& h.reigns.contains_key(term)
    &&& 0 < index <= led.len()
    &&& led[index - 1].term == term
    &&& fact.digest == crate::invariants::digest_of(led[index - 1])
    &&& fact.prev_term == (if index == 1 {
        0
    } else {
        led[index - 2].term
    })
}

/// An entry like this was committed at this index by the term that is noted.
pub open spec fn commit_true(h: Chronicle, index: u64, fact: CommittedFact) -> bool {
    index > 0 && exists|t: u64, k: int| #[trigger]
        h.committed(t, k) && t <= fact.commit_term && index <= k && h.led(t)[index - 1].term
            == fact.term && crate::invariants::digest_of(h.led(t)[index - 1]) == fact.digest
}

/// This is what the committed entry at this index asks for.
pub open spec fn applied_fact_true(h: Chronicle, index: u64, fact: AppliedFactView) -> bool {
    exists|payload: PayloadView| #[trigger]
        final_at(h, index, fact.term, payload) && fact.command == asked(payload)
}

/// Nothing was reported, and everything that was gathered is true.
pub open spec fn known_true(h: Chronicle, c: CheckerView) -> bool {
    &&& c.violations.len() == 0
    &&& forall|t: u64| #[trigger]
        c.leader_of_term.contains_key(t) ==> h.reigns.contains_key(t) && h.reigns[t].owner
            == c.leader_of_term[t]
    &&& forall|v: u32, t: u64| #[trigger]
        c.vote_of_term.contains_key((v, t)) ==> h.votes.contains_key((v, t)) && h.votes[(v, t)]
            == c.vote_of_term[(v, t)]
    &&& forall|i: u64, t: u64| #[trigger]
        c.log_facts.contains_key((i, t)) ==> slot_true(h, i, t, c.log_facts[(i, t)])
    &&& forall|i: u64| #[trigger]
        c.committed.contains_key(i) ==> commit_true(h, i, c.committed[i])
    &&& forall|i: u64| #[trigger]
        c.applied.contains_key(i) ==> applied_fact_true(h, i, c.applied[i])
}

pub proof fn lemma_known_stays(h: Chronicle, later: Chronicle, c: CheckerView)
    requires
        h.true_to_raft(),
        h.extends(later),
        known_true(h, c),
    ensures
        known_true(later, c),
{
    assert forall|i: u64, t: u64| #[trigger] c.log_facts.contains_key((i, t)) implies slot_true(
        later,
        i,
        t,
        c.log_facts[(i, t)],
    ) by {
        assert(slot_true(h, i, t, c.log_facts[(i, t)]));
        let n = h.led(t).len() as int;
        crate::chronicle::lemma_holds_less(later.led(t), h.led(t), n, n);
        assert(later.led(t)[i - 1] == h.led(t)[i - 1]);
        if i > 1 {
            assert(later.led(t)[i - 2] == h.led(t)[i - 2]);
        }
    }
    assert forall|i: u64| #[trigger] c.committed.contains_key(i) implies commit_true(
        later,
        i,
        c.committed[i],
    ) by {
        let fact = c.committed[i];
        assert(commit_true(h, i, fact));
        let (t, k) = choose|t: u64, k: int| #[trigger]
            h.committed(t, k) && t <= fact.commit_term && i <= k && h.led(t)[i - 1].term
                == fact.term && crate::invariants::digest_of(h.led(t)[i - 1]) == fact.digest;
        crate::chronicle::lemma_committed_stays(h, later, t, k);
        let n = h.led(t).len() as int;
        crate::chronicle::lemma_holds_less(later.led(t), h.led(t), n, n);
        assert(later.led(t)[i - 1] == h.led(t)[i - 1]);
    }
    assert forall|i: u64| #[trigger] c.applied.contains_key(i) implies applied_fact_true(
        later,
        i,
        c.applied[i],
    ) by {
        let fact = c.applied[i];
        assert(applied_fact_true(h, i, fact));
        let payload = choose|payload: PayloadView| #[trigger]
            final_at(h, i, fact.term, payload) && fact.command == asked(payload);
        crate::member::lemma_final_stays(h, later, i, fact.term, payload);
    }
}

/// A committed entry is the same wherever it is found.
proof fn lemma_final_agree(
    h: Chronicle,
    index: u64,
    a: u64,
    p: PayloadView,
    b: u64,
    q: PayloadView,
)
    requires
        h.true_to_raft(),
        final_at(h, index, a, p),
        final_at(h, index, b, q),
    ensures
        a == b,
        p == q,
{
    let (t, k) = choose|t: u64, k: int| #[trigger]
        h.committed(t, k) && index <= k && h.led(t)[index - 1].term == a && h.led(t)[index
            - 1].payload == p;
    let (u, m) = choose|u: u64, m: int| #[trigger]
        h.committed(u, m) && index <= m && h.led(u)[index - 1].term == b && h.led(u)[index
            - 1].payload == q;
    crate::chronicle::lemma_committed_agree(h, t, k, u, m);
    assert(h.led(t)[index - 1] == h.led(u)[index - 1]);
}

/// An entry that is applied in its turn, and committed, is nothing to report.
pub proof fn lemma_watch_apply(
    h: Chronicle,
    c: CheckerView,
    tick: u64,
    node: u32,
    index: u64,
    term: u64,
    payload: PayloadView,
)
    requires
        h.true_to_raft(),
        known_true(h, c),
        final_at(h, index, term, payload),
        index == crate::invariants::or_zero(c.applied_watermark, node) + 1,
    ensures
        ({
            let r = c.observe_apply(tick, node, index, term, asked(payload));
            &&& known_true(h, r)
            &&& r.applied_watermark == c.applied_watermark.insert(node, index)
            &&& r.max_term == c.max_term
            &&& r.commit_watermark == c.commit_watermark
        }),
{
    reveal(CheckerView::observe_apply);
    let r = c.observe_apply(tick, node, index, term, asked(payload));
    if c.applied.contains_key(index) {
        let fact = c.applied[index];
        assert(applied_fact_true(h, index, fact));
        let p = choose|p: PayloadView| #[trigger]
            final_at(h, index, fact.term, p) && fact.command == asked(p);
        lemma_final_agree(h, index, fact.term, p, term, payload);
    } else {
        assert forall|i: u64| #[trigger] r.applied.contains_key(i) implies applied_fact_true(
            h,
            i,
            r.applied[i],
        ) by {
            let fact = AppliedFactView { term, command: asked(payload), node };
            assert(r.applied == c.applied.insert(index, fact));
            if i == index {
                assert(final_at(h, i, fact.term, payload));
            } else {
                assert(c.applied.contains_key(i));
            }
        }
    }
}

// ---------------------------------------------------------------------------
// Looking at a node
// ---------------------------------------------------------------------------

/// A new leader has every committed entry.
proof fn lemma_watch_leader(h: Chronicle, c: CheckerView, node: NodeView, x: Seq<EntryView>, n: nat)
    requires
        h.true_to_raft(),
        known_true(h, c),
        sane(h, node, x),
        node.role == Role::Leader,
        n <= u64::MAX + 1,
    ensures
        c.complaints(node, n).len() == 0,
    decreases n,
{
    if n > 0 {
        lemma_watch_leader(h, c, node, x, (n - 1) as nat);
        let index = (n - 1) as u64;
        if c.committed.contains_key(index) {
            let fact = c.committed[index];
            assert(commit_true(h, index, fact));
            if fact.commit_term < node.current_term && index >= node.log.start {
                let (t, k) = choose|t: u64, k: int| #[trigger]
                    h.committed(t, k) && t <= fact.commit_term && index <= k && h.led(t)[index
                        - 1].term == fact.term && crate::invariants::digest_of(
                        h.led(t)[index - 1],
                    ) == fact.digest;
                crate::chronicle::lemma_committed_in(h, t, k, node.current_term);
                crate::chronicle::lemma_holds_less(x, h.led(t), k, k);
                crate::member::lemma_whole(node.log, x);
                assert(node.log.at(index) == x[index - 1]);
                assert(x[index - 1] == h.led(t)[index - 1]);
            }
        }
    }
}

/// Every entry of a log is the one that is known.
proof fn lemma_watch_slots(
    h: Chronicle,
    c: CheckerView,
    tick: u64,
    node: NodeView,
    x: Seq<EntryView>,
    from: int,
    to: int,
)
    requires
        h.true_to_raft(),
        known_true(h, c),
        sane(h, node, x),
        node.log.start <= from,
        to <= x.len() + 1,
    ensures
        ({
            let r = c.check_slots(tick, node, from, to);
            &&& known_true(h, r)
            &&& r == (CheckerView { log_facts: r.log_facts, ..c })
        }),
    decreases to - from,
{
    if to > from {
        lemma_watch_slots(h, c, tick, node, x, from, to - 1);
        let b = c.check_slots(tick, node, from, to - 1);
        let index = (to - 1) as u64;
        let r = b.check_slot(tick, node, index);
        crate::member::lemma_whole(node.log, x);
        assert(node.log.at(index) == x[index - 1]);
        let entry = x[index - 1];
        let prev = crate::model::one_less(index);
        assert(h.from_leader(x, index - 1));
        let led = h.led(entry.term);
        crate::chronicle::lemma_holds_less(x, led, index as int, index as int);
        assert(x[index - 1] == led[index - 1]);
        let prev_term = match node.log.term_at(prev) {
            Some(t) => t,
            None => 0,
        };
        assert(node.log.term_at(prev) is Some) by {
            if prev >= node.log.start {
                assert(node.log.at(prev) == x[prev - 1]);
            }
        }
        if index > 1 {
            assert(x[index - 2] == led[index - 2]);
            assert(prev_term == led[index - 2].term);
        }
        if !b.log_facts.contains_key((index, entry.term)) {
            assert forall|i: u64, t: u64| #[trigger]
                r.log_facts.contains_key((i, t)) implies slot_true(h, i, t, r.log_facts[(i, t)]) by {
                if (i, t) != (index, entry.term) {
                    assert(b.log_facts.contains_key((i, t)));
                }
            }
        } else {
            assert(slot_true(h, index, entry.term, b.log_facts[(index, entry.term)]));
        }
    }
}

/// What a node knows to be committed is what is known.
proof fn lemma_watch_commits(
    h: Chronicle,
    c: CheckerView,
    tick: u64,
    node: NodeView,
    x: Seq<EntryView>,
    from: int,
    to: int,
)
    requires
        h.true_to_raft(),
        known_true(h, c),
        sane(h, node, x),
        0 < from,
        to <= node.commit_index + 1,
    ensures
        ({
            let r = c.record_range(tick, node, from, to);
            &&& known_true(h, r)
            &&& r == (CheckerView { committed: r.committed, ..c })
        }),
    decreases to - from,
{
    if to > from {
        lemma_watch_commits(h, c, tick, node, x, from, to - 1);
        let b = c.record_range(tick, node, from, to - 1);
        let index = (to - 1) as u64;
        let r = b.record_commit(tick, node, index);
        if node.log.holds(index) {
            crate::member::lemma_whole(node.log, x);
            assert(node.log.at(index) == x[index - 1]);
            let n = node.commit_index as int;
            let (t, k) = choose|t: u64, k: int| #[trigger]
                h.committed(t, k) && t <= node.current_term && n <= k && holds(x, h.led(t), n);
            crate::chronicle::lemma_holds_less(x, h.led(t), n, n);
            assert(x[index - 1] == h.led(t)[index - 1]);
            if b.committed.contains_key(index) {
                let fact = b.committed[index];
                assert(commit_true(h, index, fact));
                let (u, l) = choose|u: u64, l: int| #[trigger]
                    h.committed(u, l) && u <= fact.commit_term && index <= l && h.led(u)[index
                        - 1].term == fact.term && crate::invariants::digest_of(
                        h.led(u)[index - 1],
                    ) == fact.digest;
                crate::chronicle::lemma_committed_agree(h, t, k, u, l);
                assert(h.led(t)[index - 1] == h.led(u)[index - 1]);
            }
            assert forall|i: u64| #[trigger] r.committed.contains_key(i) implies commit_true(
                h,
                i,
                r.committed[i],
            ) by {
                if i == index {
                    assert(h.committed(t, k));
                    if b.committed.contains_key(index) {
                        assert(commit_true(h, index, b.committed[index]));
                    }
                } else {
                    assert(b.committed.contains_key(i));
                }
            }
        }
    }
}

/// A node whose part is true gives nothing to report.
pub proof fn lemma_watch_node(
    h: Chronicle,
    c: CheckerView,
    tick: u64,
    node: NodeView,
    x: Seq<EntryView>,
    dirty: Option<u64>,
)
    requires
        h.true_to_raft(),
        known_true(h, c),
        sane(h, node, x),
        crate::invariants::or_zero(c.max_term, node.id) <= node.current_term,
        crate::invariants::or_zero(c.commit_watermark, node.id) <= node.commit_index,
    ensures
        ({
            let r = c.observe_node(tick, node, dirty);
            &&& known_true(h, r)
            &&& r.max_term == c.max_term.insert(node.id, node.current_term)
            &&& r.commit_watermark == c.commit_watermark.insert(node.id, node.commit_index)
            &&& r.applied_watermark == c.applied_watermark
        }),
{
    reveal(CheckerView::observe_node);
    let term = node.current_term;
    let s0 = CheckerView { checks: c.checks.saturating_add(1), ..c };
    let s1 = s0.check_term(tick, node.id, term);
    assert(known_true(h, s1));
    let s2 = if node.role == Role::Leader {
        s1.check_leader(tick, node.id, term)
    } else {
        s1
    };
    assert(known_true(h, s2)) by {
        if node.role == Role::Leader {
            assert(h.reigns[term].owner == node.id);
            assert forall|t: u64| #[trigger] s2.leader_of_term.contains_key(t) implies
                h.reigns.contains_key(t) && h.reigns[t].owner == s2.leader_of_term[t] by {
                if t != term {
                    assert(s1.leader_of_term.contains_key(t));
                }
            }
        }
    }
    let s3 = s2.check_vote(tick, node.id, term, node.voted_for);
    assert(known_true(h, s3)) by {
        match node.voted_for {
            Some(candidate) => {
                assert(h.votes.contains_key((node.id, term)));
                assert forall|v: u32, t: u64| #[trigger]
                    s3.vote_of_term.contains_key((v, t)) implies h.votes.contains_key((v, t))
                    && h.votes[(v, t)] == s3.vote_of_term[(v, t)] by {
                    if (v, t) != (node.id, term) {
                        assert(s2.vote_of_term.contains_key((v, t)));
                    }
                }
            },
            None => {},
        }
    }
    crate::member::lemma_whole(node.log, x);
    let s4 = s3.check_commit(tick, node.id, node.commit_index, node.log.last_index());
    assert(node.commit_index <= node.log.last_index()) by {
        if node.commit_index > 0 {
            let n = node.commit_index as int;
            let (t, k) = choose|t: u64, k: int| #[trigger]
                h.committed(t, k) && t <= term && n <= k && holds(x, h.led(t), n);
            assert(x.len() >= n);
        }
    }
    assert(s4 == s3);
    let s5 = s4.check_new_leader(tick, node);
    assert(known_true(h, s5)) by {
        if node.role == Role::Leader && !s4.completeness_checked.contains_key(term) {
            let noted = CheckerView {
                completeness_checked: s4.completeness_checked.insert(term, node.id),
                ..s4
            };
            assert(known_true(h, noted));
            lemma_watch_leader(h, noted, node, x, (u64::MAX + 1) as nat);
        }
    }
    let s6 = s5.check_log(tick, node, dirty);
    match dirty {
        Some(from) => lemma_watch_slots(
            h,
            s5,
            tick,
            node,
            x,
            crate::model::max_of(from, node.log.start) as int,
            node.log.last_index() + 1,
        ),
        None => {},
    }
    assert(known_true(h, s6));
    let watermark = crate::invariants::or_zero(s6.commit_watermark, node.id);
    lemma_watch_commits(h, s6, tick, node, x, watermark + 1, node.commit_index + 1);
}

} // verus!
