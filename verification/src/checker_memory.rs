//! What the safety checker remembers of what it has seen.
//!
//! A breach is only noticed against something that was seen before, so what is
//! remembered matters as much as what is compared.
use crate::invariants::{CheckerView, LogFact};
use crate::kv::CommandView;
use crate::model::NodeView;
use crate::Role;
use vstd::prelude::*;

verus! {

/// The log has an entry of this term at this index, and the slot was looked at.
spec fn seen_at(node: NodeView, from: int, to: int, key: (u64, u64)) -> bool {
    from <= key.0 < to && node.log.holds(key.0) && node.log.at(key.0).term == key.1
}

/// Nothing that was known of a slot changes, and each slot that was looked at is
/// known now: its contents, and the term of the entry before it.
spec fn slots_noted(
    a: CheckerView,
    b: CheckerView,
    node: NodeView,
    tick: u64,
    from: int,
    to: int,
) -> bool {
    &&& forall|key: (u64, u64)| #[trigger]
        b.log_facts.contains_key(key) <==> a.log_facts.contains_key(key) || seen_at(
            node,
            from,
            to,
            key,
        )
    &&& forall|key: (u64, u64)|
        a.log_facts.contains_key(key) ==> #[trigger] b.log_facts[key] == a.log_facts[key]
    &&& forall|key: (u64, u64)|
        !a.log_facts.contains_key(key) && seen_at(node, from, to, key) ==> slot_fact(
            #[trigger] b.log_facts[key],
            node,
            key.0,
        )
}

pub open spec fn slot_fact(fact: LogFact, node: NodeView, index: u64) -> bool {
    &&& fact.digest == crate::invariants::digest_of(node.log.at(index))
    &&& fact.node == node.id
    &&& fact.prev_term == match node.log.term_at(
        if index == 0 {
            0
        } else {
            (index - 1) as u64
        },
    ) {
        Some(t) => t,
        None => 0,
    }
}

/// All but what is known of the slots, and the reports.
spec fn same_but_slots(a: CheckerView, b: CheckerView) -> bool {
    CheckerView { log_facts: a.log_facts, violations: a.violations, ..b } == a
}

/// All but what is known to be committed, and the reports.
spec fn same_but_commits(a: CheckerView, b: CheckerView) -> bool {
    CheckerView { committed: a.committed, violations: a.violations, ..b } == a
}

/// The reports of `b` that are not in `a` are of this tick.
pub open spec fn dated(a: CheckerView, b: CheckerView, tick: u64) -> bool {
    &&& a.violations.len() <= b.violations.len()
    &&& forall|i: int|
        0 <= i < a.violations.len() ==> (#[trigger] b.violations[i]) == a.violations[i]
    &&& forall|i: int|
        a.violations.len() <= i < b.violations.len() ==> (#[trigger] b.violations[i]).tick == tick
}

proof fn lemma_slots_noted(c: CheckerView, tick: u64, node: NodeView, from: int, to: int)
    requires
        0 <= from,
        to <= u64::MAX + 1,
    ensures
        slots_noted(c, c.check_slots(tick, node, from, to), node, tick, from, to),
        same_but_slots(c, c.check_slots(tick, node, from, to)),
        dated(c, c.check_slots(tick, node, from, to), tick),
    decreases to - from,
{
    if to > from {
        lemma_slots_noted(c, tick, node, from, to - 1);
        let b = c.check_slots(tick, node, from, to - 1);
        let i = (to - 1) as u64;
        let r = b.check_slot(tick, node, i);
        let new = (i, node.log.at(i).term);
        assert(r == c.check_slots(tick, node, from, to));
        assert forall|key: (u64, u64)| #[trigger]
            r.log_facts.contains_key(key) <==> c.log_facts.contains_key(key) || seen_at(
                node,
                from,
                to,
                key,
            ) by {
            assert(b.log_facts.contains_key(key) <==> c.log_facts.contains_key(key) || seen_at(
                node,
                from,
                to - 1,
                key,
            ));
            if key.0 == i {
                assert(seen_at(node, from, to, key) <==> node.log.holds(i) && key == new);
            }
        }
        assert forall|key: (u64, u64)|
            c.log_facts.contains_key(key) implies #[trigger] r.log_facts[key]
            == c.log_facts[key] by {
            assert(b.log_facts.contains_key(key));
            assert(b.log_facts[key] == c.log_facts[key]);
        }
        assert forall|key: (u64, u64)|
            !c.log_facts.contains_key(key) && seen_at(node, from, to, key) implies slot_fact(
            #[trigger] r.log_facts[key],
            node,
            key.0,
        ) by {
            if key.0 == i {
                assert(key == new);
                assert(!b.log_facts.contains_key(key));
            } else {
                assert(seen_at(node, from, to - 1, key));
                assert(slot_fact(b.log_facts[key], node, key.0));
            }
        }
    }
}

/// What is known of an index once a node that holds an entry there has committed
/// it: the entry that was first committed, and the earliest term that any node
/// with that same entry committed it in.
pub open spec fn commit_noted(
    a: CheckerView,
    b: CheckerView,
    tick: u64,
    node: NodeView,
    index: u64,
) -> bool {
    let entry = node.log.at(index);
    let digest = crate::invariants::digest_of(entry);
    let was = a.committed[index];
    let now = b.committed[index];
    &&& b.committed.contains_key(index)
    &&& !a.committed.contains_key(index) ==> now.term == entry.term && now.digest == digest
        && now.commit_term == node.current_term && now.node == node.id && now.tick == tick
    &&& a.committed.contains_key(index) ==> {
        &&& now.term == was.term && now.digest == was.digest && now.node == was.node && now.tick
            == was.tick
        &&& was.term == entry.term && was.digest == digest ==> now.commit_term
            <= node.current_term && now.commit_term <= was.commit_term && (now.commit_term
            == node.current_term || now.commit_term == was.commit_term)
        &&& was.term != entry.term || was.digest != digest ==> now.commit_term == was.commit_term
    }
}

proof fn lemma_range_noted(c: CheckerView, tick: u64, node: NodeView, from: int, to: int)
    requires
        0 <= from,
        to <= u64::MAX + 1,
    ensures
        ({
            let r = c.record_range(tick, node, from, to);
            &&& same_but_commits(c, r)
            &&& dated(c, r, tick)
            &&& forall|index: u64|
                from <= index < to && #[trigger] node.log.holds(index) ==> commit_noted(
                    c,
                    r,
                    tick,
                    node,
                    index,
                )
            &&& forall|index: u64|
                !(from <= index < to && node.log.holds(index)) ==> (
                #[trigger] r.committed.contains_key(index) <==> c.committed.contains_key(index))
                    && r.committed[index] == c.committed[index]
        }),
    decreases to - from,
{
    if to > from {
        lemma_range_noted(c, tick, node, from, to - 1);
        let b = c.record_range(tick, node, from, to - 1);
        let i = (to - 1) as u64;
        let r = b.record_commit(tick, node, i);
        assert(r == c.record_range(tick, node, from, to));
        assert(b.committed.contains_key(i) <==> c.committed.contains_key(i));
        assert(b.committed[i] == c.committed[i]);
        assert forall|index: u64|
            from <= index < to && #[trigger] node.log.holds(index) implies commit_noted(
            c,
            r,
            tick,
            node,
            index,
        ) by {
            if index < i {
                assert(commit_noted(c, b, tick, node, index));
            }
        }
        assert forall|index: u64| !(from <= index < to && node.log.holds(index)) implies (
        #[trigger] r.committed.contains_key(index) <==> c.committed.contains_key(index))
            && r.committed[index] == c.committed[index] by {
            assert(b.committed.contains_key(index) <==> c.committed.contains_key(index));
        }
    }
}

/// What a look at a node leaves behind.
pub open spec fn remembered(
    c: CheckerView,
    r: CheckerView,
    tick: u64,
    node: NodeView,
    dirty: Option<u64>,
) -> bool {
    let id = node.id;
    let term = node.current_term;
    let before = crate::invariants::or_zero(c.commit_watermark, id);
    // Its term, and that of no other node.
    &&& r.max_term.contains_key(id) && r.max_term[id] >= term
    &&& c.max_term.contains_key(id) ==> r.max_term[id] >= c.max_term[id]
    &&& r.max_term[id] == term || (c.max_term.contains_key(id) && r.max_term[id] == c.max_term[id])
    &&& r.max_term.remove(id) == c.max_term.remove(id)
    // Who leads, and who was voted for.
    &&& node.role == Role::Leader ==> r.leader_of_term.contains_key(term) && r.leader_of_term[term]
        == id && r.leader_of_term.remove(term) == c.leader_of_term.remove(term)
    &&& node.role != Role::Leader ==> r.leader_of_term == c.leader_of_term
    &&& node.voted_for matches Some(x) ==> r.vote_of_term.contains_key((id, term))
        && r.vote_of_term[(id, term)] == x && r.vote_of_term.remove((id, term))
        == c.vote_of_term.remove((id, term))
    &&& node.voted_for is None ==> r.vote_of_term == c.vote_of_term
    // How far it has committed, and what.
    &&& r.commit_watermark.contains_key(id) && r.commit_watermark[id] >= node.commit_index
        && r.commit_watermark[id] >= before && (r.commit_watermark[id] == node.commit_index
        || r.commit_watermark[id] == before)
    &&& r.commit_watermark.remove(id) == c.commit_watermark.remove(id)
    &&& forall|index: u64|
        before < index <= node.commit_index && #[trigger] node.log.holds(index) ==> commit_noted(
            c,
            r,
            tick,
            node,
            index,
        )
    &&& forall|index: u64|
        !(before < index <= node.commit_index && node.log.holds(index)) ==> (
        #[trigger] r.committed.contains_key(index) <==> c.committed.contains_key(index))
            && r.committed[index] == c.committed[index]
    // What is in the slots that changed.
    &&& forall|key: (u64, u64)|
        c.log_facts.contains_key(key) ==> #[trigger] r.log_facts.contains_key(key)
            && r.log_facts[key] == c.log_facts[key]
    &&& dirty matches Some(from) ==> forall|index: u64|
        from <= index && #[trigger] node.log.holds(index) ==> r.log_facts.contains_key(
            (index, node.log.at(index).term),
        ) && (!c.log_facts.contains_key((index, node.log.at(index).term)) ==> slot_fact(
            r.log_facts[(index, node.log.at(index).term)],
            node,
            index,
        ))
    &&& dirty is None ==> r.log_facts == c.log_facts
    // And which leaders were held to what was committed before them.
    &&& r.completeness_checked.contains_key(term) <==> node.role == Role::Leader
        || c.completeness_checked.contains_key(term)
    &&& r.completeness_checked.remove(term) == c.completeness_checked.remove(term)
    &&& r.applied == c.applied && r.applied_watermark == c.applied_watermark
    &&& r.restarts == c.restarts && r.snapshots_installed == c.snapshots_installed
    &&& r.checks == c.checks + 1 || (r.checks == c.checks && c.checks == u64::MAX)
    &&& dated(c, r, tick)
}

/// A node's own figures, before its log is looked at.
spec fn figures(c: CheckerView, tick: u64, node: NodeView) -> CheckerView {
    let id = node.id;
    let term = node.current_term;
    let s1 = CheckerView { checks: c.checks.saturating_add(1), ..c }.check_term(tick, id, term);
    let s2 = if node.role == Role::Leader {
        s1.check_leader(tick, id, term)
    } else {
        s1
    };
    s2.check_vote(tick, id, term, node.voted_for).check_commit(
        tick,
        id,
        node.commit_index,
        node.log.last_index(),
    ).check_new_leader(tick, node)
}

spec fn figures_noted(c: CheckerView, r: CheckerView, tick: u64, node: NodeView) -> bool {
    let id = node.id;
    let term = node.current_term;
    &&& r.max_term.contains_key(id) && r.max_term[id] >= term
    &&& c.max_term.contains_key(id) ==> r.max_term[id] >= c.max_term[id]
    &&& r.max_term[id] == term || (c.max_term.contains_key(id) && r.max_term[id] == c.max_term[id])
    &&& r.max_term.remove(id) == c.max_term.remove(id)
    &&& node.role == Role::Leader ==> r.leader_of_term.contains_key(term) && r.leader_of_term[term]
        == id && r.leader_of_term.remove(term) == c.leader_of_term.remove(term)
    &&& node.role != Role::Leader ==> r.leader_of_term == c.leader_of_term
    &&& node.voted_for matches Some(x) ==> r.vote_of_term.contains_key((id, term))
        && r.vote_of_term[(id, term)] == x && r.vote_of_term.remove((id, term))
        == c.vote_of_term.remove((id, term))
    &&& node.voted_for is None ==> r.vote_of_term == c.vote_of_term
    &&& r.completeness_checked.contains_key(term) <==> node.role == Role::Leader
        || c.completeness_checked.contains_key(term)
    &&& r.completeness_checked.remove(term) == c.completeness_checked.remove(term)
    &&& r.applied == c.applied && r.applied_watermark == c.applied_watermark
    &&& r.restarts == c.restarts && r.snapshots_installed == c.snapshots_installed
    &&& r.checks == c.checks + 1 || (r.checks == c.checks && c.checks == u64::MAX)
    &&& r.committed == c.committed && r.log_facts == c.log_facts && r.commit_watermark
        == c.commit_watermark
    &&& dated(c, r, tick)
}

proof fn lemma_figures(c: CheckerView, tick: u64, node: NodeView)
    ensures
        figures_noted(c, figures(c, tick, node), tick, node),
{
    let id = node.id;
    let term = node.current_term;
    let r = figures(c, tick, node);
    assert(r.max_term.remove(id) =~= c.max_term.remove(id));
    assert(r.leader_of_term.remove(term) =~= c.leader_of_term.remove(term));
    assert(r.vote_of_term.remove((id, term)) =~= c.vote_of_term.remove((id, term)));
    assert(r.completeness_checked.remove(term) =~= c.completeness_checked.remove(term));
}

/// A look at a node is remembered: all that the next looks will be held against,
/// and nothing that was known before is forgotten.
pub proof fn law_looking_is_remembered(
    c: CheckerView,
    tick: u64,
    node: NodeView,
    dirty: Option<u64>,
)
    requires
        node.wf(),
    ensures
        remembered(c, c.observe_node(tick, node, dirty), tick, node, dirty),
{
    let id = node.id;
    let before = crate::invariants::or_zero(c.commit_watermark, id);
    let s5 = figures(c, tick, node);
    let s6 = s5.check_log(tick, node, dirty);
    let s7 = s6.record_range(tick, node, before + 1, node.commit_index + 1);
    let r = c.observe_node(tick, node, dirty);
    lemma_figures(c, tick, node);
    lemma_logs_noted(s5, tick, node, dirty);
    lemma_range_noted(s6, tick, node, before + 1, node.commit_index + 1);
    assert(r == CheckerView {
        commit_watermark: s7.commit_watermark.insert(
            id,
            crate::model::max_of(node.commit_index, before),
        ),
        ..s7
    }) by {
        reveal(CheckerView::observe_node);
    }
    lemma_dated(c, s5, s6, tick);
    lemma_dated(c, s6, s7, tick);
    assert forall|index: u64|
        before < index <= node.commit_index && #[trigger] node.log.holds(index) implies commit_noted(
        c,
        r,
        tick,
        node,
        index,
    ) by {
        assert(commit_noted(s6, s7, tick, node, index));
    }
    assert(r.commit_watermark.remove(id) =~= c.commit_watermark.remove(id));
}

proof fn lemma_dated(a: CheckerView, b: CheckerView, c: CheckerView, tick: u64)
    requires
        dated(a, b, tick),
        dated(b, c, tick),
    ensures
        dated(a, c, tick),
{
    assert forall|i: int| 0 <= i < a.violations.len() implies (#[trigger] c.violations[i])
        == a.violations[i] by {
        assert(b.violations[i] == a.violations[i]);
    }
    assert forall|i: int| a.violations.len() <= i < c.violations.len() implies (
    #[trigger] c.violations[i]).tick == tick by {
        if i < b.violations.len() {
            assert(b.violations[i] == c.violations[i]);
        }
    }
}

proof fn lemma_logs_noted(c: CheckerView, tick: u64, node: NodeView, dirty: Option<u64>)
    requires
        node.wf(),
    ensures
        ({
            let r = c.check_log(tick, node, dirty);
            &&& same_but_slots(c, r)
            &&& dated(c, r, tick)
            &&& forall|key: (u64, u64)|
                c.log_facts.contains_key(key) ==> #[trigger] r.log_facts.contains_key(key)
                    && r.log_facts[key] == c.log_facts[key]
            &&& dirty matches Some(from) ==> forall|index: u64|
                from <= index && #[trigger] node.log.holds(index) ==> r.log_facts.contains_key(
                    (index, node.log.at(index).term),
                ) && (!c.log_facts.contains_key((index, node.log.at(index).term)) ==> slot_fact(
                    r.log_facts[(index, node.log.at(index).term)],
                    node,
                    index,
                ))
            &&& dirty is None ==> r.log_facts == c.log_facts
        }),
{
    if let Some(from) = dirty {
        let lo = crate::model::max_of(from, node.log.start) as int;
        let hi = node.log.last_index() + 1;
        lemma_slots_noted(c, tick, node, lo, hi);
        assert forall|index: u64| from <= index && #[trigger] node.log.holds(index) implies seen_at(
            node,
            lo,
            hi,
            (index, node.log.at(index).term),
        ) by {}
    }
}

/// What reaches a state machine is remembered by its index, as it was when it
/// first did, and so is how far that machine has got.
pub proof fn law_applying_is_remembered(
    c: CheckerView,
    tick: u64,
    node: u32,
    index: u64,
    term: u64,
    command: Option<CommandView>,
)
    ensures
        ({
            let r = c.observe_apply(tick, node, index, term, command);
            &&& r.applied_watermark.contains_key(node) && r.applied_watermark[node] == index
            &&& r.applied_watermark.remove(node) == c.applied_watermark.remove(node)
            &&& r.applied.contains_key(index)
            &&& c.applied.contains_key(index) ==> r.applied == c.applied
            &&& !c.applied.contains_key(index) ==> r.applied[index].term == term
                && r.applied[index].command == command && r.applied[index].node == node
                && r.applied.remove(index) == c.applied.remove(index)
            &&& dated(c, r, tick)
            &&& r.committed == c.committed && r.log_facts == c.log_facts && r.leader_of_term
                == c.leader_of_term && r.vote_of_term == c.vote_of_term && r.max_term == c.max_term
            &&& r.commit_watermark == c.commit_watermark && r.completeness_checked
                == c.completeness_checked
            &&& r.checks == c.checks + 1 || (r.checks == c.checks && c.checks == u64::MAX)
        }),
{
    reveal(CheckerView::observe_apply);
    let r = c.observe_apply(tick, node, index, term, command);
    assert(r.applied_watermark.remove(node) =~= c.applied_watermark.remove(node));
    assert(r.applied.remove(index) =~= c.applied.remove(index));
}

/// A node that comes back has to go on from where its snapshot ends, or from the
/// start; one that was sent a snapshot goes on from there, but never further back
/// than it was. All else stays known.
pub proof fn law_coming_back_is_remembered(c: CheckerView, node: u32, other: u32, through: u64)
    ensures
        ({
            let r = c.note_restart(node, through);
            &&& crate::invariants::or_zero(r.applied_watermark, node) == through
            &&& crate::invariants::or_zero(r.commit_watermark, node) == through
            &&& other != node ==> crate::invariants::or_zero(r.applied_watermark, other)
                == crate::invariants::or_zero(c.applied_watermark, other)
                && crate::invariants::or_zero(r.commit_watermark, other)
                == crate::invariants::or_zero(c.commit_watermark, other)
            &&& r.restarts == c.restarts + 1 || (r.restarts == c.restarts && c.restarts
                == u64::MAX)
            &&& same_but_progress(c, r)
            &&& r.snapshots_installed == c.snapshots_installed
        }),
        ({
            let r = c.note_snapshot_installed(node, through);
            let applied = crate::invariants::or_zero(c.applied_watermark, node);
            let committed = crate::invariants::or_zero(c.commit_watermark, node);
            &&& crate::invariants::or_zero(r.applied_watermark, node) == if through >= applied {
                through
            } else {
                applied
            }
            &&& crate::invariants::or_zero(r.commit_watermark, node) == if through >= committed {
                through
            } else {
                committed
            }
            &&& other != node ==> crate::invariants::or_zero(r.applied_watermark, other)
                == crate::invariants::or_zero(c.applied_watermark, other)
                && crate::invariants::or_zero(r.commit_watermark, other)
                == crate::invariants::or_zero(c.commit_watermark, other)
            &&& r.snapshots_installed == c.snapshots_installed + 1 || (r.snapshots_installed
                == c.snapshots_installed && c.snapshots_installed == u64::MAX)
            &&& same_but_progress(c, r)
            &&& r.restarts == c.restarts
        }),
{
}

/// Everything but how far each node has got.
pub open spec fn same_but_progress(c: CheckerView, r: CheckerView) -> bool {
    &&& r.violations == c.violations
    &&& r.committed == c.committed && r.log_facts == c.log_facts && r.applied == c.applied
    &&& r.leader_of_term == c.leader_of_term && r.vote_of_term == c.vote_of_term
    &&& r.max_term == c.max_term && r.completeness_checked == c.completeness_checked
    &&& r.checks == c.checks
}

} // verus!
