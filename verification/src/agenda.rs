//! Who decides, and what comes next.
use crate::config::ConfigView;
use crate::event::{EventView, QueueView, SlotView};
use vstd::prelude::*;

verus! {

/// More nodes never undo a quorum, and all voters together are one.
pub proof fn law_more_nodes_decide_more(c: ConfigView, has: Set<u32>, more: Set<u32>)
    requires
        c.wf(),
        has.subset_of(more),
    ensures
        c.is_quorum(has) ==> c.is_quorum(more),
        c.is_quorum(c.voters()),
{
    lemma_grows(c.old, has, more);
    assert(c.old.intersect(c.voters()) =~= c.old);
    if let Some(n) = c.new {
        lemma_grows(n, has, more);
        assert(n.intersect(c.voters()) =~= n);
    }
}

proof fn lemma_grows(set: Set<u32>, has: Set<u32>, more: Set<u32>)
    requires
        set.finite(),
        has.subset_of(more),
    ensures
        set.intersect(has).len() <= set.intersect(more).len(),
{
    assert(set.intersect(has).subset_of(set.intersect(more)));
    vstd::set_lib::lemma_len_subset(set.intersect(has), set.intersect(more));
}

/// Of an odd number of voters, one side of any split decides and the other does
/// not; of an even number, neither side does where they are equal.
pub proof fn law_one_side_decides(voters: Set<u32>, has: Set<u32>)
    requires
        voters.finite(),
    ensures
        ({
            let c = ConfigView::simple(voters);
            let rest = voters.difference(has);
            &&& !(c.is_quorum(has) && c.is_quorum(rest))
            &&& voters.len() % 2 == 1 ==> c.is_quorum(has) || c.is_quorum(rest)
            &&& !c.is_quorum(has) && !c.is_quorum(rest) ==> voters.intersect(has).len()
                == voters.intersect(rest).len()
        }),
{
    let rest = voters.difference(has);
    let a = voters.intersect(has);
    let b = voters.intersect(rest);
    assert(a.union(b) =~= voters);
    assert(a.intersect(b) =~= Set::<u32>::empty());
    vstd::set_lib::lemma_set_intersect_union_lens(a, b);
}

/// While two memberships hold together, both of them have to decide.
pub proof fn law_both_halves_decide(old: Set<u32>, new: Set<u32>, has: Set<u32>)
    ensures
        (ConfigView { old, new: Some(new) }).is_quorum(has) <==> ConfigView::simple(
            old,
        ).is_quorum(has) && ConfigView::simple(new).is_quorum(has),
        forall|id: u32|
            (#[trigger] (ConfigView { old, new: Some(new) }).contains(id)) <==> old.contains(id)
                || new.contains(id),
        (ConfigView { old, new: Some(new) }).to_new() == Some(ConfigView::simple(new)),
{
}

/// What is scheduled is in the queue, at its tick and as it is; nothing else comes
/// in and nothing goes.
pub proof fn law_what_is_scheduled_comes(q: QueueView, tick: u64, event: EventView, s: SlotView)
    ensures
        ({
            let new = SlotView { tick, seq: q.next_seq, event };
            q.push(tick, event).slots.contains(s) <==> q.slots.contains(s) || s == new
        }),
{
    let new = SlotView { tick, seq: q.next_seq, event };
    let p = crate::event::due(q.slots, tick) as int;
    lemma_due_within(q.slots, tick);
    let after = q.push(tick, event).slots;
    assert(after[p] == new);
    if q.slots.contains(s) {
        let i = choose|i: int| 0 <= i < q.slots.len() && q.slots[i] == s;
        if i < p {
            assert(after[i] == s);
        } else {
            assert(after[i + 1] == s);
        }
    }
    if after.contains(s) && s != new {
        let i = choose|i: int| 0 <= i < after.len() && after[i] == s;
        if i < p {
            assert(q.slots[i] == s);
        } else {
            assert(q.slots[i - 1] == s);
        }
    }
}

proof fn lemma_due_within(slots: Seq<SlotView>, tick: u64)
    ensures
        crate::event::due(slots, tick) <= slots.len(),
    decreases slots.len(),
{
    if slots.len() > 0 && slots[0].tick <= tick {
        lemma_due_within(slots.skip(1), tick);
    }
}

/// What comes next is due no later than anything else, and what is due at the
/// same tick was scheduled later.
pub proof fn law_the_next_event_is_the_earliest(q: QueueView, i: int)
    requires
        q.ordered(),
        0 < i < q.slots.len(),
    ensures
        q.next_tick() == Some(q.slots[0].tick),
        q.slots[0].tick < q.slots[i].tick || (q.slots[0].tick == q.slots[i].tick && q.slots[0].seq
            < q.slots[i].seq),
        q.rest().slots.len() == q.slots.len() - 1,
        q.rest().slots[i - 1] == q.slots[i],
{
    assert(crate::event::comes_before(q.slots[0], q.slots[i]));
}

} // verus!
