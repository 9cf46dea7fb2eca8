//! What a report remarks on, and what a timeline keeps.
use crate::survey::Coverage;
use crate::timeline::{MarkView, MomentView, TimelineView};
use vstd::prelude::*;

verus! {

proof fn lemma_noted(list: Seq<Seq<char>>, applies: bool, remark: Seq<char>, x: Seq<char>)
    ensures
        crate::report::noted(list, applies, remark).contains(x) <==> list.contains(x) || (applies
            && x == remark),
{
    let after = list.push(remark);
    if list.contains(x) {
        let i = choose|i: int| 0 <= i < list.len() && list[i] == x;
        assert(after[i] == x);
    }
    assert(after[list.len() as int] == remark);
    if after.contains(x) && x != remark {
        let i = choose|i: int| 0 <= i < after.len() && after[i] == x;
        assert(list[i] == x);
    }
}

/// A sweep is called into doubt for exactly what it failed to reach.
pub proof fn law_doubts_are_called_for(c: Coverage, x: Seq<char>)
    ensures
        crate::report::doubts(c).contains(x) <==> {
            ||| c.stats.log_truncations == 0 && x
                == "no log truncations: divergence was never reached"@
            ||| c.stats.elections_started < c.seeds && x
                == "fewer elections than seeds: many runs may have done nothing"@
            ||| c.stats.entries_applied == 0 && x
                == "nothing was ever applied: the workload is not committing"@
            ||| c.stats.snapshots_taken == 0 && x
                == "no snapshots were taken: compaction is not being exercised"@
            ||| c.stats.snapshots_installed == 0 && x
                == "no snapshot was ever shipped to a follower: InstallSnapshot is untested"@
            ||| c.stats.membership_changes == 0 && x
                == "no membership changes: joint consensus is not being exercised"@
            ||| c.stats.reads_served == 0 && x
                == "no reads were served: ReadIndex is not being exercised"@
            ||| c.operations_pending == 0 && x
                == "no operation was ever left unanswered: the checker's pending path is untested"@
            ||| c.histories_undecided > c.histories_checked / 4 && x
                == "many histories were undecided: raise the linearizability budget"@
        },
{
    let w0 = Seq::<Seq<char>>::empty();
    let t1 = "no log truncations: divergence was never reached"@;
    let t2 = "fewer elections than seeds: many runs may have done nothing"@;
    let t3 = "nothing was ever applied: the workload is not committing"@;
    let t4 = "no snapshots were taken: compaction is not being exercised"@;
    let t5 = "no snapshot was ever shipped to a follower: InstallSnapshot is untested"@;
    let t6 = "no membership changes: joint consensus is not being exercised"@;
    let t7 = "no reads were served: ReadIndex is not being exercised"@;
    let t8 = "no operation was ever left unanswered: the checker's pending path is untested"@;
    let t9 = "many histories were undecided: raise the linearizability budget"@;
    let w1 = crate::report::noted(w0, c.stats.log_truncations == 0, t1);
    let w2 = crate::report::noted(w1, c.stats.elections_started < c.seeds, t2);
    let w3 = crate::report::noted(w2, c.stats.entries_applied == 0, t3);
    let w4 = crate::report::noted(w3, c.stats.snapshots_taken == 0, t4);
    let w5 = crate::report::noted(w4, c.stats.snapshots_installed == 0, t5);
    let w6 = crate::report::noted(w5, c.stats.membership_changes == 0, t6);
    let w7 = crate::report::noted(w6, c.stats.reads_served == 0, t7);
    let w8 = crate::report::noted(w7, c.operations_pending == 0, t8);
    lemma_noted(w0, c.stats.log_truncations == 0, t1, x);
    lemma_noted(w1, c.stats.elections_started < c.seeds, t2, x);
    lemma_noted(w2, c.stats.entries_applied == 0, t3, x);
    lemma_noted(w3, c.stats.snapshots_taken == 0, t4, x);
    lemma_noted(w4, c.stats.snapshots_installed == 0, t5, x);
    lemma_noted(w5, c.stats.membership_changes == 0, t6, x);
    lemma_noted(w6, c.stats.reads_served == 0, t7, x);
    lemma_noted(w7, c.operations_pending == 0, t8, x);
    lemma_noted(w8, c.histories_undecided > c.histories_checked / 4, t9, x);
}

/// A timeline keeps the newest moments, in order: one more than before, until
/// there is no room; then the oldest makes way, and that is counted. Violations
/// are kept on their own as well, and nothing else is.
pub proof fn law_the_newest_moments_are_kept(t: TimelineView, tick: u64, moment: MomentView)
    requires
        t.entries.len() <= 2_000,
    ensures
        ({
            let u = t.push(tick, moment);
            let mark = MarkView { tick, moment };
            let full = t.entries.len() == 2_000;
            &&& u.entries.last() == mark
            &&& !full ==> u.entries.drop_last() == t.entries && u.dropped == t.dropped
            &&& full ==> u.entries.len() == 2_000 && u.entries.drop_last() == t.entries.skip(1)
                && crate::disturbance::one_more(t.dropped, u.dropped)
            &&& moment is Violation ==> u.violations.drop_last() == t.violations
                && u.violations.last() == mark
            &&& !(moment is Violation) ==> u.violations == t.violations
            &&& u.last_commit == t.last_commit
        }),
{
    let u = t.push(tick, moment);
    assert(t.entries.len() < 2_000 ==> u.entries.drop_last() =~= t.entries);
    assert(t.entries.len() == 2_000 ==> u.entries.drop_last() =~= t.entries.skip(1));
    assert(moment is Violation ==> u.violations.drop_last() =~= t.violations);
}

/// How far each node has committed is always known. It makes a moment exactly
/// when it has gone past a multiple of five.
pub proof fn law_commits_are_noted(t: TimelineView, tick: u64, node: u32, other: u32, index: u64)
    requires
        t.entries.len() < 2_000,
    ensures
        ({
            let u = t.note_commit(tick, node, index);
            let was = t.committed(node);
            &&& u.committed(node) == if index > was {
                index
            } else {
                was
            }
            &&& other != node ==> u.committed(other) == t.committed(other)
            &&& index / 5 > was / 5 ==> u.entries == t.entries.push(
                MarkView { tick, moment: MomentView::Committed { node, index } },
            )
            &&& index / 5 <= was / 5 ==> u.entries == t.entries
            &&& u.violations == t.violations && u.dropped == t.dropped
        }),
{
}

} // verus!
