//! What the safety checker guarantees: a broken property is always reported,
//! and a report is never withdrawn.
use crate::invariants::{CheckerView, Invariant};
use crate::kv::CommandView;
use crate::model::NodeView;
use crate::Role;
use vstd::prelude::*;

verus! {

/// Everything reported in `a` is still there in `b`.
pub open spec fn keeps(a: CheckerView, b: CheckerView) -> bool {
    &&& a.violations.len() <= b.violations.len()
    &&& forall|i: int|
        0 <= i < a.violations.len() ==> (#[trigger] b.violations[i]) == a.violations[i]
}

/// `b` reports a breach of this property that `a` did not.
pub open spec fn reports(a: CheckerView, b: CheckerView, property: Invariant) -> bool {
    exists|i: int|
        a.violations.len() <= i < b.violations.len() && (#[trigger] b.violations[i]).property
            == property
}

proof fn lemma_keeps_trans(a: CheckerView, b: CheckerView, c: CheckerView)
    requires
        keeps(a, b),
        keeps(b, c),
    ensures
        keeps(a, c),
{
    assert forall|i: int| 0 <= i < a.violations.len() implies (#[trigger] c.violations[i])
        == a.violations[i] by {
        assert(b.violations[i] == a.violations[i]);
    }
}

/// What is reported over two steps is what either reports.
proof fn lemma_reports_split(a: CheckerView, b: CheckerView, c: CheckerView, p: Invariant)
    requires
        keeps(a, b),
        keeps(b, c),
    ensures
        reports(a, c, p) <==> reports(a, b, p) || reports(b, c, p),
{
    if reports(a, b, p) {
        let i = choose|i: int|
            a.violations.len() <= i < b.violations.len() && (#[trigger] b.violations[i]).property
                == p;
        assert(c.violations[i] == b.violations[i]);
    }
    if reports(b, c, p) {
        let i = choose|i: int|
            b.violations.len() <= i < c.violations.len() && (#[trigger] c.violations[i]).property
                == p;
        assert(c.violations[i].property == p);
    }
    if reports(a, c, p) {
        let i = choose|i: int|
            a.violations.len() <= i < c.violations.len() && (#[trigger] c.violations[i]).property
                == p;
        if i < b.violations.len() {
            assert(c.violations[i] == b.violations[i]);
        } else {
            assert(c.violations[i].property == p);
        }
    }
}

/// One report is added, and it is of this property alone.
proof fn lemma_fail(c: CheckerView, tick: u64, property: Invariant, detail: Seq<char>, p: Invariant)
    ensures
        keeps(c, c.fail(tick, property, detail)),
        reports(c, c.fail(tick, property, detail), p) <==> p == property,
        !reports(c, c, p),
{
    let after = c.fail(tick, property, detail);
    assert(after.violations[c.violations.len() as int].property == property);
}

proof fn lemma_slots(c: CheckerView, tick: u64, node: NodeView, from: int, to: int)
    ensures
        keeps(c, c.check_slots(tick, node, from, to)),
    decreases to - from,
{
    if to > from {
        lemma_slots(c, tick, node, from, to - 1);
        let before = c.check_slots(tick, node, from, to - 1);
        lemma_keeps_trans(c, before, before.check_slot(tick, node, (to - 1) as u64));
    }
}

proof fn lemma_range(c: CheckerView, tick: u64, node: NodeView, from: int, to: int)
    ensures
        keeps(c, c.record_range(tick, node, from, to)),
    decreases to - from,
{
    if to > from {
        lemma_range(c, tick, node, from, to - 1);
        let before = c.record_range(tick, node, from, to - 1);
        lemma_keeps_trans(c, before, before.record_commit(tick, node, (to - 1) as u64));
    }
}

/// The stages of looking at a node.
spec fn stages(c: CheckerView, tick: u64, node: NodeView, dirty: Option<u64>) -> Seq<CheckerView> {
    let s0 = CheckerView { checks: c.checks.saturating_add(1), ..c };
    let s1 = s0.check_term(tick, node.id, node.current_term);
    let s2 = if node.role == Role::Leader {
        s1.check_leader(tick, node.id, node.current_term)
    } else {
        s1
    };
    let s3 = s2.check_vote(tick, node.id, node.current_term, node.voted_for);
    let s4 = s3.check_commit(tick, node.id, node.commit_index, node.log.last_index());
    let s5 = s4.check_new_leader(tick, node);
    let s6 = s5.check_log(tick, node, dirty);
    let s7 = s6.record_commits(tick, node);
    seq![s0, s1, s2, s3, s4, s5, s6, s7]
}

proof fn lemma_stages(c: CheckerView, tick: u64, node: NodeView, dirty: Option<u64>)
    ensures
        ({
            let s = stages(c, tick, node, dirty);
            &&& s[7] == c.observe_node(tick, node, dirty)
            &&& keeps(c, s[0])
            &&& s[0].violations == c.violations
            &&& keeps(s[0], s[1])
            &&& keeps(s[1], s[2])
            &&& keeps(s[2], s[3])
            &&& keeps(s[3], s[4])
            &&& keeps(s[4], s[5])
            &&& keeps(s[5], s[6])
            &&& keeps(s[6], s[7])
        }),
{
    reveal(CheckerView::observe_node);
    let s = stages(c, tick, node, dirty);
    match dirty {
        Some(from) => {
            lemma_slots(
                s[5],
                tick,
                node,
                crate::model::max_of(from, node.log.start) as int,
                node.log.last_index() + 1,
            );
        },
        None => {},
    }
    lemma_range(
        s[6],
        tick,
        node,
        crate::invariants::or_zero(s[6].commit_watermark, node.id) + 1,
        node.commit_index + 1,
    );
}

/// From any stage on nothing is withdrawn.
proof fn lemma_from_stage(c: CheckerView, tick: u64, node: NodeView, dirty: Option<u64>, k: int)
    requires
        0 <= k <= 7,
    ensures
        keeps(c, stages(c, tick, node, dirty)[k]),
        keeps(stages(c, tick, node, dirty)[k], c.observe_node(tick, node, dirty)),
{
    lemma_stages(c, tick, node, dirty);
    let s = stages(c, tick, node, dirty);
    lemma_keeps_trans(c, s[0], s[1]);
    lemma_keeps_trans(c, s[1], s[2]);
    lemma_keeps_trans(c, s[2], s[3]);
    lemma_keeps_trans(c, s[3], s[4]);
    lemma_keeps_trans(c, s[4], s[5]);
    lemma_keeps_trans(c, s[5], s[6]);
    lemma_keeps_trans(c, s[6], s[7]);
    lemma_keeps_trans(s[5], s[6], s[7]);
    lemma_keeps_trans(s[4], s[5], s[7]);
    lemma_keeps_trans(s[3], s[4], s[7]);
    lemma_keeps_trans(s[2], s[3], s[7]);
    lemma_keeps_trans(s[1], s[2], s[7]);
    lemma_keeps_trans(s[0], s[1], s[7]);
}

/// What was reported stays reported.
pub proof fn law_violations_are_never_withdrawn(
    c: CheckerView,
    tick: u64,
    node: NodeView,
    dirty: Option<u64>,
)
    ensures
        keeps(c, c.observe_node(tick, node, dirty)),
{
    lemma_from_stage(c, tick, node, dirty, 7);
}

// ---------------------------------------------------------------------------
// Exactly what is broken is reported
// ---------------------------------------------------------------------------

/// The slot at `index` contradicts what is known of its `(index, term)`.
pub open spec fn slot_broken(c: CheckerView, node: NodeView, index: int) -> bool {
    let i = index as u64;
    let entry = node.log.at(i);
    let key = (i, entry.term);
    let prev_term = match node.log.term_at(crate::model::one_less(i)) {
        Some(t) => t,
        None => 0,
    };
    &&& node.log.holds(i)
    &&& c.log_facts.contains_key(key)
    &&& c.log_facts[key].digest != crate::invariants::digest_of(entry) || c.log_facts[key].prev_term
        != prev_term
}

/// The entry at `index` contradicts what is known to be committed there.
pub open spec fn commit_broken(c: CheckerView, node: NodeView, index: int) -> bool {
    let i = index as u64;
    let entry = node.log.at(i);
    &&& node.log.holds(i)
    &&& c.committed.contains_key(i)
    &&& c.committed[i].term != entry.term || c.committed[i].digest
        != crate::invariants::digest_of(entry)
}

/// A leader's log does not have what was committed at `index` in an earlier term:
/// it ends before that, or has an entry of another term there, or one with other
/// contents.
pub open spec fn lacks(c: CheckerView, node: NodeView, index: u64) -> bool {
    let fact = c.committed[index];
    &&& c.committed.contains_key(index)
    &&& fact.commit_term < node.current_term
    &&& index >= node.log.start
    &&& !node.log.holds(index) || node.log.at(index).term != fact.term
        || crate::invariants::digest_of(node.log.at(index)) != fact.digest
}

/// A property is broken by the state a node is in, given what is known of the
/// run.
pub open spec fn broken_by(
    c: CheckerView,
    node: NodeView,
    dirty: Option<u64>,
    p: Invariant,
) -> bool {
    let term = node.current_term;
    let watermark = crate::invariants::or_zero(c.commit_watermark, node.id);
    match p {
        Invariant::TermMonotonic => term < crate::invariants::or_zero(c.max_term, node.id),
        Invariant::ElectionSafety => node.role == Role::Leader && c.leader_of_term.contains_key(
            term,
        ) && c.leader_of_term[term] != node.id,
        Invariant::SingleVotePerTerm => node.voted_for is Some && c.vote_of_term.contains_key(
            (node.id, term),
        ) && c.vote_of_term[(node.id, term)] != node.voted_for->0,
        Invariant::CommitIndexMonotonic => node.commit_index < watermark,
        Invariant::CommitIndexWithinLog => node.commit_index > node.log.last_index(),
        Invariant::LeaderCompleteness => node.role == Role::Leader
            && !c.completeness_checked.contains_key(term) && exists|index: u64| #[trigger]
            lacks(c, node, index),
        Invariant::LogMatching => dirty is Some && exists|index: int|
            crate::model::max_of(dirty->0, node.log.start) <= index <= node.log.last_index()
                && #[trigger] slot_broken(c, node, index),
        Invariant::CommittedEntriesStable => exists|index: int|
            watermark < index <= node.commit_index && #[trigger] commit_broken(c, node, index),
        _ => false,
    }
}

/// Two checkers know the same, whatever they have reported.
spec fn same_knowledge(a: CheckerView, b: CheckerView) -> bool {
    &&& a.committed == b.committed
    &&& a.commit_watermark == b.commit_watermark
    &&& a.completeness_checked == b.completeness_checked
    &&& a.log_facts == b.log_facts
}

proof fn lemma_complaints(c: CheckerView, node: NodeView, n: nat)
    requires
        n <= u64::MAX + 1,
    ensures
        (c.complaints(node, n).len() > 0) <==> exists|index: u64|
            index < n && (#[trigger] c.complaint(node, index)) is Some,
    decreases n,
{
    if n > 0 {
        lemma_complaints(c, node, (n - 1) as nat);
        let last = (n - 1) as u64;
        if c.complaint(node, last) is Some {
            assert(last < n);
        } else if exists|index: u64| index < n && (#[trigger] c.complaint(node, index)) is Some {
            let index = choose|index: u64|
                index < n && (#[trigger] c.complaint(node, index)) is Some;
            assert(index < n - 1);
        }
    }
}

/// A complaint depends on nothing but what is committed.
proof fn lemma_same_complaints(a: CheckerView, b: CheckerView, node: NodeView, n: nat)
    requires
        a.committed == b.committed,
    ensures
        a.complaints(node, n) == b.complaints(node, n),
    decreases n,
{
    if n > 0 {
        lemma_same_complaints(a, b, node, (n - 1) as nat);
    }
}

proof fn lemma_slots_exact(
    c: CheckerView,
    tick: u64,
    node: NodeView,
    from: int,
    to: int,
    p: Invariant,
)
    requires
        0 <= from,
        to <= u64::MAX + 1,
    ensures
        ({
            let r = c.check_slots(tick, node, from, to);
            &&& reports(c, r, p) <==> p == Invariant::LogMatching && exists|index: int|
                from <= index < to && #[trigger] slot_broken(c, node, index)
            &&& r.committed == c.committed
            &&& r.commit_watermark == c.commit_watermark
            &&& forall|key: (u64, u64)|
                key.0 >= to ==> (#[trigger] r.log_facts.contains_key(key)
                    <==> c.log_facts.contains_key(key)) && (c.log_facts.contains_key(key)
                    ==> r.log_facts[key] == c.log_facts[key])
        }),
    decreases to - from,
{
    lemma_fail(c, tick, p, Seq::empty(), p);
    if to > from {
        lemma_slots_exact(c, tick, node, from, to - 1, p);
        lemma_slots(c, tick, node, from, to - 1);
        let before = c.check_slots(tick, node, from, to - 1);
        let i = (to - 1) as u64;
        let after = before.check_slot(tick, node, i);
        let entry = node.log.at(i);
        let key = (i, entry.term);
        assert(before.log_facts.contains_key(key) <==> c.log_facts.contains_key(key));
        assert(slot_broken(before, node, to - 1) == slot_broken(c, node, to - 1));
        let fact = before.log_facts[key];
        let prev_term = match node.log.term_at(crate::model::one_less(i)) {
            Some(t) => t,
            None => 0,
        };
        lemma_fail(
            before,
            tick,
            Invariant::LogMatching,
            crate::invariants::contents_differ(fact.node, node.id, i, entry.term),
            p,
        );
        lemma_fail(
            before,
            tick,
            Invariant::LogMatching,
            crate::invariants::histories_differ(
                fact.node,
                node.id,
                i,
                entry.term,
                fact.prev_term,
                prev_term,
            ),
            p,
        );
        assert(keeps(before, after));
        assert(reports(before, after, p) <==> p == Invariant::LogMatching && slot_broken(
            c,
            node,
            to - 1,
        ));
        lemma_reports_split(c, before, after, p);
        if exists|index: int| from <= index < to && #[trigger] slot_broken(c, node, index) {
            let index = choose|index: int|
                from <= index < to && #[trigger] slot_broken(c, node, index);
            assert(index == to - 1 || index < to - 1);
        }
        assert forall|k: (u64, u64)| k.0 >= to implies (#[trigger] after.log_facts.contains_key(k)
            <==> c.log_facts.contains_key(k)) && (c.log_facts.contains_key(k)
            ==> after.log_facts[k] == c.log_facts[k]) by {
            assert(before.log_facts.contains_key(k) <==> c.log_facts.contains_key(k));
        }
        assert(after == c.check_slots(tick, node, from, to));
        if p == Invariant::LogMatching {
            if slot_broken(c, node, to - 1) {
                assert(exists|index: int|
                    from <= index < to && #[trigger] slot_broken(c, node, index));
            }
            if exists|index: int| from <= index < to - 1 && #[trigger] slot_broken(c, node, index) {
                let index = choose|index: int|
                    from <= index < to - 1 && #[trigger] slot_broken(c, node, index);
                assert(from <= index < to && slot_broken(c, node, index));
            }
        }
    }
}

proof fn lemma_range_exact(
    c: CheckerView,
    tick: u64,
    node: NodeView,
    from: int,
    to: int,
    p: Invariant,
)
    requires
        0 <= from,
        to <= u64::MAX + 1,
    ensures
        ({
            let r = c.record_range(tick, node, from, to);
            &&& reports(c, r, p) <==> p == Invariant::CommittedEntriesStable && exists|index: int|
                from <= index < to && #[trigger] commit_broken(c, node, index)
            &&& forall|key: u64|
                key >= to ==> (#[trigger] r.committed.contains_key(key)
                    <==> c.committed.contains_key(key)) && (c.committed.contains_key(key)
                    ==> r.committed[key] == c.committed[key])
        }),
    decreases to - from,
{
    lemma_fail(c, tick, p, Seq::empty(), p);
    if to > from {
        lemma_range_exact(c, tick, node, from, to - 1, p);
        lemma_range(c, tick, node, from, to - 1);
        let before = c.record_range(tick, node, from, to - 1);
        let i = (to - 1) as u64;
        let after = before.record_commit(tick, node, i);
        let entry = node.log.at(i);
        let fact = before.committed[i];
        assert(before.committed.contains_key(i) <==> c.committed.contains_key(i));
        assert(commit_broken(before, node, to - 1) == commit_broken(c, node, to - 1));
        lemma_fail(
            before,
            tick,
            Invariant::CommittedEntriesStable,
            crate::invariants::committed_differently(
                node.id,
                entry.term,
                i,
                fact.node,
                fact.term,
            ),
            p,
        );
        assert(keeps(before, after));
        assert(reports(before, after, p) <==> p == Invariant::CommittedEntriesStable
            && commit_broken(c, node, to - 1));
        lemma_reports_split(c, before, after, p);
        if exists|index: int| from <= index < to && #[trigger] commit_broken(c, node, index) {
            let index = choose|index: int|
                from <= index < to && #[trigger] commit_broken(c, node, index);
            assert(index == to - 1 || index < to - 1);
        }
        assert forall|k: u64| k >= to implies (#[trigger] after.committed.contains_key(k)
            <==> c.committed.contains_key(k)) && (c.committed.contains_key(k)
            ==> after.committed[k] == c.committed[k]) by {
            assert(before.committed.contains_key(k) <==> c.committed.contains_key(k));
        }
    }
}

/// The first stages report exactly what they look for, and change nothing that
/// the later ones look at.
proof fn lemma_early_stages(
    c: CheckerView,
    tick: u64,
    node: NodeView,
    dirty: Option<u64>,
    p: Invariant,
)
    ensures
        ({
            let s = stages(c, tick, node, dirty);
            &&& !reports(c, s[0], p)
            &&& reports(s[0], s[1], p) <==> p == Invariant::TermMonotonic && broken_by(
                c,
                node,
                dirty,
                p,
            )
            &&& reports(s[1], s[2], p) <==> p == Invariant::ElectionSafety && broken_by(
                c,
                node,
                dirty,
                p,
            )
            &&& reports(s[2], s[3], p) <==> p == Invariant::SingleVotePerTerm && broken_by(
                c,
                node,
                dirty,
                p,
            )
            &&& reports(s[3], s[4], p) <==> (p == Invariant::CommitIndexMonotonic || p
                == Invariant::CommitIndexWithinLog) && broken_by(c, node, dirty, p)
            &&& same_knowledge(c, s[4])
        }),
{
    let s = stages(c, tick, node, dirty);
    let term = node.current_term;
    let id = node.id;
    let before = crate::invariants::or_zero(s[0].max_term, id);
    lemma_fail(
        s[0],
        tick,
        Invariant::TermMonotonic,
        crate::invariants::term_fell(id, before, term),
        p,
    );
    let noted = CheckerView { leader_of_term: s[1].leader_of_term.insert(term, id), ..s[1] };
    let other = s[1].leader_of_term[term];
    lemma_fail(
        noted,
        tick,
        Invariant::ElectionSafety,
        crate::invariants::two_leaders(other, id, term),
        p,
    );
    match node.voted_for {
        None => {},
        Some(candidate) => {
            let voted = CheckerView {
                vote_of_term: s[2].vote_of_term.insert((id, term), candidate),
                ..s[2]
            };
            lemma_fail(
                voted,
                tick,
                Invariant::SingleVotePerTerm,
                crate::invariants::voted_twice(
                    id,
                    s[2].vote_of_term[(id, term)],
                    candidate,
                    term,
                ),
                p,
            );
        },
    }
    lemma_fail(s[2], tick, p, Seq::empty(), p);
    lemma_fail(s[1], tick, p, Seq::empty(), p);
    let watermark = crate::invariants::or_zero(s[3].commit_watermark, id);
    let fell = Invariant::CommitIndexMonotonic;
    let beyond = Invariant::CommitIndexWithinLog;
    let middle = s[3].fail_if(
        node.commit_index < watermark,
        tick,
        fell,
        crate::invariants::commit_fell(id, watermark, node.commit_index),
    );
    lemma_fail(
        s[3],
        tick,
        fell,
        crate::invariants::commit_fell(id, watermark, node.commit_index),
        p,
    );
    lemma_fail(
        middle,
        tick,
        beyond,
        crate::invariants::commit_beyond(id, node.commit_index, node.log.last_index()),
        p,
    );
    lemma_reports_split(s[3], middle, s[4], p);
}

/// The later stages report exactly what they look for.
proof fn lemma_late_stages(
    c: CheckerView,
    tick: u64,
    node: NodeView,
    dirty: Option<u64>,
    p: Invariant,
)
    requires
        node.log.last_index() < u64::MAX,
    ensures
        ({
            let s = stages(c, tick, node, dirty);
            &&& reports(s[4], s[5], p) <==> p == Invariant::LeaderCompleteness && broken_by(
                c,
                node,
                dirty,
                p,
            )
            &&& reports(s[5], s[6], p) <==> p == Invariant::LogMatching && broken_by(
                c,
                node,
                dirty,
                p,
            )
            &&& reports(s[6], s[7], p) <==> p == Invariant::CommittedEntriesStable && broken_by(
                c,
                node,
                dirty,
                p,
            )
        }),
{
    let s = stages(c, tick, node, dirty);
    lemma_early_stages(c, tick, node, dirty, p);
    // Completeness.
    let noted = CheckerView {
        completeness_checked: s[4].completeness_checked.insert(node.current_term, node.id),
        ..s[4]
    };
    let all = (u64::MAX + 1) as nat;
    lemma_same_complaints(c, noted, node, all);
    lemma_complaints(c, node, all);
    assert forall|index: u64|
        (#[trigger] c.complaint(node, index)) is Some <==> lacks(c, node, index) by {}
    if exists|index: u64| #[trigger] lacks(c, node, index) {
        let index = choose|index: u64| #[trigger] lacks(c, node, index);
        assert(c.complaint(node, index) is Some);
    }
    if exists|index: u64| index < all && (#[trigger] c.complaint(node, index)) is Some {
        let index = choose|index: u64|
            index < all && (#[trigger] c.complaint(node, index)) is Some;
        assert(lacks(c, node, index));
    }
    lemma_fail(
        noted,
        tick,
        Invariant::LeaderCompleteness,
        crate::invariants::incomplete(node.id, node.current_term, noted.complaints(node, all)),
        p,
    );
    lemma_fail(s[4], tick, p, Seq::empty(), p);
    assert(s[5].committed == c.committed);
    assert(s[5].log_facts == c.log_facts);
    assert(s[5].commit_watermark == c.commit_watermark);
    // Log matching.
    lemma_fail(s[5], tick, p, Seq::empty(), p);
    match dirty {
        None => {},
        Some(from) => {
            let lo = crate::model::max_of(from, node.log.start) as int;
            let hi = node.log.last_index() + 1;
            lemma_slots_exact(s[5], tick, node, lo, hi, p);
            assert forall|index: int| #[trigger] slot_broken(s[5], node, index) == slot_broken(
                c,
                node,
                index,
            ) by {}
            if exists|index: int| lo <= index < hi && #[trigger] slot_broken(s[5], node, index) {
                let index = choose|index: int|
                    lo <= index < hi && #[trigger] slot_broken(s[5], node, index);
                assert(slot_broken(c, node, index));
            }
            if exists|index: int|
                lo <= index <= node.log.last_index() && #[trigger] slot_broken(c, node, index) {
                let index = choose|index: int|
                    lo <= index <= node.log.last_index() && #[trigger] slot_broken(c, node, index);
                assert(slot_broken(s[5], node, index));
            }
        },
    }
    // Commitments.
    assert(s[6].committed == c.committed);
    assert(s[6].commit_watermark == c.commit_watermark);
    let watermark = crate::invariants::or_zero(c.commit_watermark, node.id);
    lemma_range_exact(s[6], tick, node, watermark + 1, node.commit_index + 1, p);
    let recorded = s[6].record_range(tick, node, watermark + 1, node.commit_index + 1);
    assert(s[7].violations == recorded.violations);
    assert(reports(s[6], s[7], p) == reports(s[6], recorded, p));
    if exists|index: int|
        watermark + 1 <= index < node.commit_index + 1 && #[trigger] commit_broken(
            s[6],
            node,
            index,
        ) {
        let index = choose|index: int|
            watermark + 1 <= index < node.commit_index + 1 && #[trigger] commit_broken(
                s[6],
                node,
                index,
            );
        assert(commit_broken(c, node, index));
    }
    if exists|index: int|
        watermark < index <= node.commit_index && #[trigger] commit_broken(c, node, index) {
        let index = choose|index: int|
            watermark < index <= node.commit_index && #[trigger] commit_broken(c, node, index);
        assert(commit_broken(s[6], node, index));
    }
}

/// Looking at a node reports exactly the properties that its state breaks: a
/// broken one is never passed over, and a sound one never reported.
pub proof fn law_exactly_the_broken_is_reported(
    c: CheckerView,
    tick: u64,
    node: NodeView,
    dirty: Option<u64>,
    p: Invariant,
)
    requires
        node.wf(),
    ensures
        reports(c, c.observe_node(tick, node, dirty), p) <==> broken_by(c, node, dirty, p),
{
    lemma_early_stages(c, tick, node, dirty, p);
    lemma_late_stages(c, tick, node, dirty, p);
    lemma_stages(c, tick, node, dirty);
    let s = stages(c, tick, node, dirty);
    lemma_from_stage(c, tick, node, dirty, 0);
    lemma_from_stage(c, tick, node, dirty, 1);
    lemma_from_stage(c, tick, node, dirty, 2);
    lemma_from_stage(c, tick, node, dirty, 3);
    lemma_from_stage(c, tick, node, dirty, 4);
    lemma_from_stage(c, tick, node, dirty, 5);
    lemma_from_stage(c, tick, node, dirty, 6);
    lemma_reports_split(c, s[0], s[1], p);
    lemma_reports_split(c, s[1], s[2], p);
    lemma_reports_split(c, s[2], s[3], p);
    lemma_reports_split(c, s[3], s[4], p);
    lemma_reports_split(c, s[4], s[5], p);
    lemma_reports_split(c, s[5], s[6], p);
    lemma_reports_split(c, s[6], s[7], p);
}

/// A truncation is reported exactly when it discards something that the node
/// itself had committed.
pub proof fn law_truncating_the_committed_is_reported(
    c: CheckerView,
    tick: u64,
    node: u32,
    from: u64,
    commit_index: u64,
    p: Invariant,
)
    ensures
        reports(c, c.observe_truncation(tick, node, from, commit_index), p) <==> p
            == Invariant::CommittedPrefixNeverTruncated && from <= commit_index,
        keeps(c, c.observe_truncation(tick, node, from, commit_index)),
{
    let counted = CheckerView { checks: c.checks.saturating_add(1), ..c };
    lemma_fail(
        counted,
        tick,
        Invariant::CommittedPrefixNeverTruncated,
        crate::invariants::truncated_committed(node, from, commit_index),
        p,
    );
}

/// An application is reported exactly when it skips or repeats an index of the
/// node's own, or differs from what was applied at that index before.
pub proof fn law_applying_out_of_turn_is_reported(
    c: CheckerView,
    tick: u64,
    node: u32,
    index: u64,
    term: u64,
    command: Option<CommandView>,
    p: Invariant,
)
    ensures
        reports(c, c.observe_apply(tick, node, index, term, command), p) <==> {
            ||| p == Invariant::AppliedInOrder && index != crate::invariants::or_zero(
                c.applied_watermark,
                node,
            ).saturating_add(1)
            ||| p == Invariant::StateMachineSafety && c.applied.contains_key(index) && (
            c.applied[index].command != command || c.applied[index].term != term)
        },
        keeps(c, c.observe_apply(tick, node, index, term, command)),
{
    reveal(CheckerView::observe_apply);
    let expected = crate::invariants::or_zero(c.applied_watermark, node).saturating_add(1);
    let counted = CheckerView {
        checks: c.checks.saturating_add(1),
        applied_watermark: c.applied_watermark.insert(node, index),
        ..c
    };
    let detail = crate::invariants::out_of_order(node, index, expected);
    let ordered = counted.fail_if(index != expected, tick, Invariant::AppliedInOrder, detail);
    lemma_fail(counted, tick, Invariant::AppliedInOrder, detail, p);
    let differs = crate::invariants::applied_differently(
        index,
        c.applied[index],
        node,
        command,
        term,
    );
    lemma_fail(ordered, tick, Invariant::StateMachineSafety, differs, p);
    let after = c.observe_apply(tick, node, index, term, command);
    assert(keeps(c, ordered));
    assert(keeps(ordered, after));
    lemma_keeps_trans(c, ordered, after);
    lemma_reports_split(c, ordered, after, p);
}

} // verus!
