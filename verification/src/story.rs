//! The story that the clients were told.
//!
//! A history is coherent when its operations can be put in one order that a
//! plain map of keys to values could have taken them in: each operation that was
//! answered is in it and got the answer that the map gives at its turn, none that
//! was refused is in it, and what was answered before another was asked comes
//! before it. The verdict on a history says whether there is such an order.
use crate::history::{HistoryView, OpView, OutcomeView};
use crate::kv::{CommandView, ResultView, StoreView};
use crate::linearizability::VerdictView;
use vstd::prelude::*;

verus! {

/// What a map holds under `key`.
pub open spec fn found(m: Map<Seq<char>, Seq<char>>, key: Seq<char>) -> Option<Seq<char>> {
    if m.contains_key(key) {
        Some(m[key])
    } else {
        None
    }
}

/// The answer to a command on a map: a read is told the value, a write that it
/// was done, and a conditional write that it was done or what was there instead.
pub open spec fn told(m: Map<Seq<char>, Seq<char>>, c: CommandView) -> ResultView {
    match c {
        CommandView::Get { key } => ResultView::Value(found(m, key)),
        CommandView::Cas { key, expect, value } => if found(m, key) == expect {
            ResultView::Done
        } else {
            ResultView::CasFailed { actual: found(m, key) }
        },
        _ => ResultView::Done,
    }
}

/// The map after a command.
pub open spec fn turned(m: Map<Seq<char>, Seq<char>>, c: CommandView) -> Map<
    Seq<char>,
    Seq<char>,
> {
    match c {
        CommandView::Get { key } => m,
        CommandView::Put { key, value } => m.insert(key, value),
        CommandView::Delete { key } => m.remove(key),
        CommandView::Cas { key, expect, value } => if found(m, key) == expect {
            m.insert(key, value)
        } else {
            m
        },
    }
}

/// The map after the first `n` operations of an order.
pub open spec fn contents(ops: Seq<OpView>, order: Seq<int>, n: int) -> Map<Seq<char>, Seq<char>>
    decreases n,
{
    if n <= 0 {
        Map::empty()
    } else {
        turned(contents(ops, order, n - 1), ops[order[n - 1]].command)
    }
}

/// This order of operations is one that the clients could have seen.
pub open spec fn coherent_order(ops: Seq<OpView>, order: Seq<int>) -> bool {
    &&& forall|k: int|
        0 <= k < order.len() ==> 0 <= (#[trigger] order[k]) < ops.len() && !(ops[order[k]].outcome
            is Rejected)
    &&& forall|a: int, b: int|
        0 <= a < b < order.len() ==> (#[trigger] order[a]) != (#[trigger] order[b])
    &&& forall|i: int|
        0 <= i < ops.len() && (#[trigger] ops[i]).outcome is Completed ==> order.contains(i)
    &&& forall|a: int, b: int|
        0 <= a <= b < order.len() ==> !(ops[#[trigger] order[b]].outcome is Completed
            && ops[order[b]].outcome->Completed_at < ops[#[trigger] order[a]].invoked)
    &&& forall|k: int|
        0 <= k < order.len() && ops[#[trigger] order[k]].outcome is Completed
            ==> ops[order[k]].outcome->result == told(
            contents(ops, order, k),
            ops[order[k]].command,
        )
}

/// The clients can all be believed.
pub open spec fn coherent(ops: Seq<OpView>) -> bool {
    exists|order: Seq<int>| coherent_order(ops, order)
}

/// The store is a map: it answers as one and changes as one.
pub proof fn law_the_store_is_a_map(store: StoreView, c: CommandView)
    ensures
        store.answer(c) == told(store.data, c),
        store.applied(c).data == turned(store.data, c),
        StoreView::empty().data == Map::<Seq<char>, Seq<char>>::empty(),
{
}

/// What a client asks for takes effect and is answered like anything else, and
/// what it last changed is on record; unless that request, or a later one of the
/// same client, is on record already: then nothing changes, and the answer is the
/// one on record.
pub proof fn law_sessions_apply_once(
    store: StoreView,
    client: u32,
    seq: u64,
    c: CommandView,
    other: u32,
)
    ensures
        ({
            let after = store.applied_for(Some((client, seq)), c);
            let answer = store.answer_for(Some((client, seq)), c);
            let known = store.sessions.contains_key(client) && store.sessions[client].last_seq
                >= seq;
            &&& known ==> after == store && answer == store.sessions[client].last_result
            &&& !known ==> after.data == turned(store.data, c) && answer == told(store.data, c)
            &&& !known && !(c is Get) ==> after.sessions.contains_key(client)
                && after.sessions[client].last_seq == seq && after.sessions[client].last_result
                == answer
            &&& c is Get || other != client ==> (after.sessions.contains_key(other)
                <==> store.sessions.contains_key(other)) && after.sessions[other]
                == store.sessions[other]
        }),
{
}

/// Whatever was answered counts, with the ticks and the answer on record, however
/// often it had to be sent; what was refused never does; and a write that was
/// never answered may have happened.
pub proof fn law_every_answer_counts(op: OpView)
    ensures
        op.outcome matches OutcomeView::Completed { at, result } ==> (
        crate::linearizability::item_of(op) matches Some(item) && item.answer == Some((at, result))
            && item.invoke == op.invoked && item.command == op.command && item.id == op.id),
        op.outcome is Rejected ==> crate::linearizability::item_of(op) is None,
        op.outcome is Pending && !(op.command is Get) ==> (crate::linearizability::item_of(
            op,
        ) matches Some(item) && item.answer is None && item.invoke == op.invoked && item.command
            == op.command && item.id == op.id),
{
}

// ---------------------------------------------------------------------------
// From one notion to the other
// ---------------------------------------------------------------------------

proof fn lemma_contents(h: HistoryView, order: Seq<int>, n: int)
    ensures
        crate::locality::store_through(h, order, n).data == contents(h.ops, order, n),
    decreases n,
{
    if n > 0 {
        lemma_contents(h, order, n - 1);
    }
}

/// Everything but the reads that were never answered.
spec fn heard(ops: Seq<OpView>, i: int) -> bool {
    !(ops[i].outcome is Pending && ops[i].command is Get)
}

/// Where the first `n` operations of an order that are heard stand in it.
spec fn places(ops: Seq<OpView>, order: Seq<int>, n: int) -> Seq<int>
    decreases n,
{
    if n <= 0 {
        Seq::empty()
    } else if heard(ops, order[n - 1]) {
        places(ops, order, n - 1).push(n - 1)
    } else {
        places(ops, order, n - 1)
    }
}

/// The order without the reads that were never answered.
spec fn thinned(ops: Seq<OpView>, order: Seq<int>, n: int) -> Seq<int> {
    let p = places(ops, order, n);
    Seq::new(p.len(), |k: int| order[p[k]])
}

proof fn lemma_places(ops: Seq<OpView>, order: Seq<int>, n: int)
    requires
        0 <= n <= order.len(),
    ensures
        ({
            let p = places(ops, order, n);
            &&& forall|k: int|
                0 <= k < p.len() ==> 0 <= (#[trigger] p[k]) < n && heard(ops, order[p[k]])
            &&& forall|a: int, b: int| 0 <= a < b < p.len() ==> (#[trigger] p[a]) < (#[trigger] p[b])
            &&& forall|i: int|
                0 <= i < n && heard(ops, #[trigger] order[i]) ==> p.contains(i)
        }),
    decreases n,
{
    if n > 0 {
        lemma_places(ops, order, n - 1);
        let before = places(ops, order, n - 1);
        let p = places(ops, order, n);
        assert forall|i: int| 0 <= i < n && heard(ops, #[trigger] order[i]) implies p.contains(
            i,
        ) by {
            if i < n - 1 {
                assert(before.contains(i));
                let k = choose|k: int| 0 <= k < before.len() && before[k] == i;
                assert(p[k] == i);
            } else {
                assert(p[p.len() - 1] == i);
            }
        }
    }
}

proof fn lemma_same_contents(ops: Seq<OpView>, s: Seq<int>, t: Seq<int>, n: int)
    requires
        n <= s.len(),
        n <= t.len(),
        forall|k: int| 0 <= k < n ==> s[k] == t[k],
    ensures
        contents(ops, s, n) == contents(ops, t, n),
    decreases n,
{
    if n > 0 {
        lemma_same_contents(ops, s, t, n - 1);
    }
}

/// Reads change nothing, so leaving them out changes nothing.
proof fn lemma_thinned_contents(ops: Seq<OpView>, order: Seq<int>, n: int)
    requires
        0 <= n <= order.len(),
    ensures
        contents(ops, thinned(ops, order, n), thinned(ops, order, n).len() as int) == contents(
            ops,
            order,
            n,
        ),
        forall|k: int|
            0 <= k < places(ops, order, n).len() ==> contents(ops, thinned(ops, order, n), k)
                == contents(ops, order, #[trigger] places(ops, order, n)[k]),
    decreases n,
{
    if n > 0 {
        lemma_thinned_contents(ops, order, n - 1);
        let before = thinned(ops, order, n - 1);
        let after = thinned(ops, order, n);
        let p = places(ops, order, n - 1);
        let q = places(ops, order, n);
        assert forall|k: int| 0 <= k < q.len() implies contents(ops, after, k) == contents(
            ops,
            order,
            #[trigger] q[k],
        ) by {
            lemma_same_contents(ops, before, after, k);
            if k < p.len() {
                assert(q[k] == p[k]);
            }
        }
        if heard(ops, order[n - 1]) {
            lemma_same_contents(ops, before, after, before.len() as int);
            assert(after[before.len() as int] == order[n - 1]);
        } else {
            assert(after =~= before);
        }
    }
}

proof fn lemma_coherent_from_order(h: HistoryView, order: Seq<int>)
    requires
        crate::locality::explains_history(h, order),
    ensures
        coherent_order(h.ops, order),
{
    let ops = h.ops;
    assert forall|k: int| 0 <= k < order.len() implies 0 <= (#[trigger] order[k]) < ops.len()
        && !(ops[order[k]].outcome is Rejected) by {
        assert(crate::locality::counts(h, order[k]));
    }
    assert forall|i: int|
        0 <= i < ops.len() && (#[trigger] ops[i]).outcome is Completed implies order.contains(
        i,
    ) by {
        assert(crate::locality::item(h, i).answer is Some);
    }
    assert forall|a: int, b: int| 0 <= a <= b < order.len() implies !(ops[
    #[trigger] order[b]].outcome is Completed && ops[order[b]].outcome->Completed_at < ops[
    #[trigger] order[a]].invoked) by {
        assert(crate::locality::counts(h, order[a]) && crate::locality::counts(h, order[b]));
        assert(!crate::linearizability::precedes(
            crate::locality::item(h, order[b]),
            crate::locality::item(h, order[a]),
        ));
    }
    assert forall|k: int|
        0 <= k < order.len() && ops[#[trigger] order[k]].outcome
            is Completed implies ops[order[k]].outcome->result == told(
        contents(ops, order, k),
        ops[order[k]].command,
    ) by {
        lemma_contents(h, order, k);
        assert(crate::locality::item(h, order[k]).answer is Some);
    }
}

proof fn lemma_order_from_coherent(h: HistoryView, order: Seq<int>)
    requires
        coherent_order(h.ops, order),
    ensures
        crate::locality::explains_history(h, thinned(h.ops, order, order.len() as int)),
{
    let ops = h.ops;
    let n = order.len() as int;
    let p = places(ops, order, n);
    let s = thinned(ops, order, n);
    lemma_places(ops, order, n);
    lemma_thinned_contents(ops, order, n);
    assert forall|k: int| 0 <= k < s.len() implies crate::locality::counts(
        h,
        #[trigger] s[k],
    ) by {
        assert(s[k] == order[p[k]]);
        assert(heard(ops, order[p[k]]));
    }
    assert forall|a: int, b: int| 0 <= a < b < s.len() implies (#[trigger] s[a]) != (
    #[trigger] s[b]) by {
        assert(p[a] < p[b]);
        assert(order[p[a]] != order[p[b]]);
    }
    assert forall|i: int|
        crate::locality::counts(h, i) && (#[trigger] crate::locality::item(h, i)).answer
            is Some implies s.contains(i) by {
        assert(ops[i].outcome is Completed);
        assert(order.contains(i));
        let j = choose|j: int| 0 <= j < order.len() && order[j] == i;
        assert(heard(ops, order[j]));
        assert(p.contains(j));
        let k = choose|k: int| 0 <= k < p.len() && p[k] == j;
        assert(s[k] == i);
    }
    assert forall|a: int, b: int| 0 <= a <= b < s.len() implies !crate::linearizability::precedes(
        crate::locality::item(h, #[trigger] s[b]),
        crate::locality::item(h, #[trigger] s[a]),
    ) by {
        assert(crate::locality::counts(h, s[a]) && crate::locality::counts(h, s[b]));
        assert(p[a] <= p[b]);
        assert(s[a] == order[p[a]] && s[b] == order[p[b]]);
        assert(!(ops[order[p[b]]].outcome is Completed && ops[order[p[b]]].outcome->Completed_at
            < ops[order[p[a]]].invoked));
    }
    assert forall|k: int| 0 <= k < s.len() implies (crate::locality::item(
        h,
        #[trigger] s[k],
    ).answer matches Some(a) ==> crate::locality::store_through(h, s, k).answer(
        crate::locality::item(h, s[k]).command,
    ) == a.1) by {
        lemma_contents(h, s, k);
        assert(crate::locality::counts(h, s[k]));
        assert(s[k] == order[p[k]]);
        assert(contents(ops, s, k) == contents(ops, order, p[k]));
    }
}

/// The verdict on a history is the truth about what the clients were told: one
/// that is called linearizable can be believed, and one that is called not
/// linearizable cannot.
pub proof fn law_verdicts_tell_the_truth(h: HistoryView, budget: u64)
    requires
        h.ops.len() <= usize::MAX,
    ensures
        crate::linearizability::verdict_on(h, budget) is Linearizable ==> coherent(h.ops),
        crate::linearizability::verdict_on(h, budget) is NotLinearizable ==> !coherent(h.ops),
{
    crate::locality::law_verdicts_are_right_about_the_whole(h, budget);
    if crate::linearizability::verdict_on(h, budget) is Linearizable {
        let order = choose|order: Seq<int>| crate::locality::explains_history(h, order);
        lemma_coherent_from_order(h, order);
    }
    if crate::linearizability::verdict_on(h, budget) is NotLinearizable && coherent(h.ops) {
        let order = choose|order: Seq<int>| coherent_order(h.ops, order);
        lemma_order_from_coherent(h, order);
    }
}

} // verus!
