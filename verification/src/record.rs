//! What goes on record when clients ask and are answered.
use crate::history::{HistoryView, OpView, OutcomeView};
use crate::kv::{CommandView, ResultView};
use vstd::prelude::*;

verus! {

/// All operations but one are as they were.
pub open spec fn only_changed(h: HistoryView, after: HistoryView, i: int) -> bool {
    &&& after.ops.len() == h.ops.len()
    &&& after.index == h.index
    &&& forall|k: int| 0 <= k < h.ops.len() && k != i ==> #[trigger] after.ops[k] == h.ops[k]
}

/// The operation is the same as it was asked for: by whom, for what and when.
pub open spec fn same_request(a: OpView, b: OpView) -> bool {
    a.id == b.id && a.process == b.process && a.seq == b.seq && a.command == b.command && a.invoked
        == b.invoked
}

/// A new request goes on record as it was made, as not yet answered; one that is
/// in flight is counted as tried once more, and nothing else about it changes.
pub proof fn law_requests_go_on_record(
    h: HistoryView,
    process: u32,
    seq: u64,
    command: CommandView,
    at: u64,
)
    requires
        h.ops.len() < usize::MAX,
    ensures
        ({
            let after = h.invoke(process, seq, command, at);
            match h.in_flight(process, seq) {
                None => {
                    let op = after.ops.last();
                    &&& after.ops.drop_last() == h.ops
                    &&& op.process == process && op.seq == seq && op.command == command
                        && op.invoked == at
                    &&& op.outcome is Pending && op.attempts == 1 && op.refusals == 0
                    &&& h.ops.len() <= u32::MAX ==> op.id == h.ops.len()
                    &&& after.find(process, seq) == Some(h.ops.len() as int)
                },
                Some(i) => {
                    &&& only_changed(h, after, i)
                    &&& same_request(h.ops[i], after.ops[i])
                    &&& after.ops[i].outcome is Pending
                    &&& after.ops[i].refusals == h.ops[i].refusals
                    &&& after.ops[i].attempts == h.ops[i].attempts + 1 || (h.ops[i].attempts
                        == u32::MAX && after.ops[i].attempts == u32::MAX)
                },
            }
        }),
{
    let after = h.invoke(process, seq, command, at);
    if h.in_flight(process, seq) is None {
        assert(after.ops.drop_last() =~= h.ops);
    }
}

/// An answer, a refusal and a request's being given up change what is on record of
/// that request while it is in flight, and only that.
pub proof fn law_answers_change_one_request(
    h: HistoryView,
    process: u32,
    seq: u64,
    at: u64,
    result: ResultView,
)
    ensures
        match h.in_flight(process, seq) {
            None => h.complete(process, seq, at, result) == h && h.refuse(process, seq) == h
                && h.abandon(process, seq, at) == h,
            Some(i) => {
                let told = h.complete(process, seq, at, result);
                let refused = h.refuse(process, seq);
                let given_up = h.abandon(process, seq, at);
                &&& only_changed(h, told, i) && same_request(h.ops[i], told.ops[i])
                &&& told.ops[i].outcome == (OutcomeView::Completed { at, result })
                &&& told.ops[i].attempts == h.ops[i].attempts && told.ops[i].refusals
                    == h.ops[i].refusals
                &&& only_changed(h, refused, i) && same_request(h.ops[i], refused.ops[i])
                &&& refused.ops[i].outcome is Pending && refused.ops[i].attempts
                    == h.ops[i].attempts
                &&& refused.ops[i].refusals == h.ops[i].refusals + 1 || (h.ops[i].refusals
                    == u32::MAX && refused.ops[i].refusals == u32::MAX)
                &&& only_changed(h, given_up, i) && same_request(h.ops[i], given_up.ops[i])
                &&& h.ops[i].refusals < h.ops[i].attempts ==> given_up.ops[i].outcome is Pending
                &&& h.ops[i].refusals >= h.ops[i].attempts ==> given_up.ops[i].outcome == (
                OutcomeView::Rejected { at })
            },
        },
{
}

/// Every operation is answered, refused or pending, and counted as one of them.
pub proof fn law_outcomes_add_up(ops: Seq<OpView>, n: int)
    requires
        0 <= n <= ops.len(),
    ensures
        crate::history::count_ops(ops, n, |o: OpView| o.outcome is Completed)
            + crate::history::count_ops(ops, n, |o: OpView| o.outcome is Rejected)
            + crate::history::count_ops(ops, n, |o: OpView| o.outcome is Pending) == n,
    decreases n,
{
    if n > 0 {
        law_outcomes_add_up(ops, n - 1);
    }
}

/// What a run comes back with is what is on record at its end: how many of its
/// operations were answered, and how many are still pending.
pub proof fn law_results_count_the_record(
    cfg: crate::cluster_model::SimView,
    end: crate::cluster_model::ClusterView,
    budget: u64,
)
    ensures
        ({
            let r = crate::fuzz::result_of(cfg, end, budget);
            let ops = end.history.ops;
            let n = ops.len() as int;
            &&& r.history_completed + r.history_pending + crate::history::count_ops(
                ops,
                n,
                |o: OpView| o.outcome is Rejected,
            ) == n
            &&& (r.history_completed == 0 <==> forall|i: int|
                0 <= i < n ==> !((#[trigger] ops[i]).outcome is Completed))
            &&& (r.history_pending == 0 <==> forall|i: int|
                0 <= i < n ==> !((#[trigger] ops[i]).outcome is Pending))
            &&& r.violations == end.checker.violations && r.stats == end.stats && r.network
                == end.net.stats && r.faults == end.faults_injected && r.seed == cfg.seed
                && r.nodes == cfg.nodes
        }),
{
    let ops = end.history.ops;
    let n = ops.len() as int;
    law_outcomes_add_up(ops, n);
    lemma_none(ops, n, |o: OpView| o.outcome is Completed);
    lemma_none(ops, n, |o: OpView| o.outcome is Pending);
}

proof fn lemma_none(ops: Seq<OpView>, n: int, test: spec_fn(OpView) -> bool)
    requires
        0 <= n <= ops.len(),
    ensures
        crate::history::count_ops(ops, n, test) == 0 <==> forall|i: int|
            0 <= i < n ==> !test(#[trigger] ops[i]),
    decreases n,
{
    if n > 0 {
        lemma_none(ops, n - 1, test);
        if test(ops[n - 1]) {
            assert(crate::history::count_ops(ops, n, test) > 0);
        }
    }
}

/// The operations on a key are all of those on record that are about it, and
/// every key that an operation is about is one of the keys.
pub proof fn law_operations_are_sorted_by_key(ops: Seq<OpView>, n: int, key: Seq<char>, op: OpView)
    requires
        0 <= n <= ops.len(),
    ensures
        crate::history::ops_on(ops, n, key).contains(op) <==> ops.take(n).contains(op)
            && op.command.key() == key,
        crate::history::keys_of(ops, n).contains(key) <==> exists|i: int|
            0 <= i < n && (#[trigger] ops[i]).command.key() == key,
    decreases n,
{
    if n > 0 {
        law_operations_are_sorted_by_key(ops, n - 1, key, op);
        let last = ops[n - 1];
        let before = ops.take(n - 1);
        assert(ops.take(n) =~= before.push(last));
        lemma_push(before, last, op);
        lemma_push(crate::history::ops_on(ops, n - 1, key), last, op);
        if crate::history::keys_of(ops, n - 1).contains(key) {
            let i = choose|i: int| 0 <= i < n - 1 && (#[trigger] ops[i]).command.key() == key;
            assert(ops[i].command.key() == key);
        }
        if last.command.key() == key {
            assert(ops[n - 1].command.key() == key);
        }
    } else {
        assert(ops.take(0) =~= Seq::empty());
    }
}

proof fn lemma_push(s: Seq<OpView>, last: OpView, r: OpView)
    ensures
        s.push(last).contains(r) <==> s.contains(r) || r == last,
{
    let t = s.push(last);
    if s.contains(r) {
        let i = choose|i: int| 0 <= i < s.len() && s[i] == r;
        assert(t[i] == r);
    }
    assert(t[s.len() as int] == last);
    if t.contains(r) && r != last {
        let i = choose|i: int| 0 <= i < t.len() && t[i] == r;
        assert(s[i] == r);
    }
}

} // verus!
