//! When a history is left undecided, and what a verdict counts.
use crate::history::{HistoryView, OpView};
use crate::linearizability::{ItemView, SearchView, Tally, VerdictView};
use vstd::prelude::*;

verus! {

proof fn lemma_explored(
    items: Seq<ItemView>,
    budget: u64,
    v: SearchView,
    order: Seq<usize>,
    state: Option<Seq<char>>,
    todo: Seq<bool>,
)
    requires
        v.steps <= budget < u64::MAX,
    ensures
        ({
            let (w, r) = crate::linearizability::explore(items, budget, v, order, state, todo);
            &&& r is None <==> w.steps == budget + 1
            &&& r is Some ==> v.steps < w.steps <= budget
        }),
    decreases crate::linearizability::left(todo, todo.len() as int), items.len() + 1,
{
    let counted = SearchView { steps: v.steps.saturating_add(1), ..v };
    if v.steps < budget && !crate::linearizability::finished(items, todo) && !v.seen.contains(
        (state, todo),
    ) {
        lemma_attempted(
            items,
            budget,
            SearchView {
                seen: v.seen.insert((state, todo)),
                best: if order.len() > v.best.len() {
                    order
                } else {
                    v.best
                },
                ..counted
            },
            order,
            state,
            todo,
            0,
        );
    }
}

proof fn lemma_attempted(
    items: Seq<ItemView>,
    budget: u64,
    v: SearchView,
    order: Seq<usize>,
    state: Option<Seq<char>>,
    todo: Seq<bool>,
    i: int,
)
    requires
        v.steps <= budget < u64::MAX,
    ensures
        ({
            let (w, r) = crate::linearizability::attempt(items, budget, v, order, state, todo, i);
            &&& r is None <==> w.steps == budget + 1
            &&& r is Some ==> v.steps <= w.steps <= budget
        }),
    decreases crate::linearizability::left(todo, todo.len() as int), items.len() - i,
{
    if i < 0 || i >= items.len() || i >= todo.len() {
    } else if !todo[i] || !crate::linearizability::may_go(items, todo, i)
        || !crate::linearizability::fits(items[i], state) {
        lemma_attempted(items, budget, v, order, state, todo, i + 1);
    } else {
        crate::linearizability::lemma_left(todo, todo.len() as int, i);
        let next = crate::linearizability::value_after(state, items[i].command);
        lemma_explored(items, budget, v, order.push(i as usize), next, todo.update(i, false));
        let (w, r) = crate::linearizability::explore(
            items,
            budget,
            v,
            order.push(i as usize),
            next,
            todo.update(i, false),
        );
        if r == Some(false) {
            lemma_attempted(items, budget, w, order, state, todo, i + 1);
        }
    }
}

/// A search gives up exactly when it has taken all the steps it was allowed and
/// needs another; one that comes to an end has taken no more than that.
pub proof fn law_searches_use_up_their_budget(items: Seq<ItemView>, budget: u64)
    requires
        budget < u64::MAX,
    ensures
        ({
            let (w, r) = crate::linearizability::searched(items, budget);
            &&& r is None <==> w.steps == budget + 1
            &&& r is Some ==> 0 < w.steps <= budget
        }),
{
    lemma_explored(
        items,
        budget,
        crate::linearizability::fresh_search(),
        Seq::empty(),
        None,
        crate::linearizability::everything(items.len()),
    );
}

/// There is a reason not to decide on these operations: there are too many of
/// them for one search, or a search within the budget ran out of steps.
pub open spec fn too_much(ops: Seq<OpView>, budget: u64) -> bool {
    let items = crate::linearizability::items_of(ops);
    ||| items.len() > 128
    ||| exists|left: u64|
        left <= budget && (#[trigger] crate::linearizability::searched(
            crate::linearizability::window(items),
            left,
        )).1 is None
}

proof fn lemma_reasons(h: HistoryView, keys: Seq<Seq<char>>, n: int, budget: u64)
    requires
        0 <= n <= keys.len(),
    ensures
        ({
            let t = crate::linearizability::tally(h, keys, n, budget);
            &&& t.budget <= budget
            &&& t.unknown is Some || (t.verdict matches Some(v) && v is Unknown) ==> exists|i: int|
                0 <= i < n && too_much(h.on_key(#[trigger] keys[i]), budget)
        }),
    decreases n,
{
    if n > 0 {
        lemma_reasons(h, keys, n - 1, budget);
        let before = crate::linearizability::tally(h, keys, n - 1, budget);
        let t = crate::linearizability::tally(h, keys, n, budget);
        let ops = h.on_key(keys[n - 1]);
        let items = crate::linearizability::items_of(ops);
        let found = crate::linearizability::searched(
            crate::linearizability::window(items),
            before.budget,
        );
        assert(t == before.with_key(keys[n - 1], ops));
        let was = before.unknown is Some || (before.verdict matches Some(v) && v is Unknown);
        let is = t.unknown is Some || (t.verdict matches Some(v) && v is Unknown);
        if was {
            let i = choose|i: int|
                0 <= i < n - 1 && too_much(h.on_key(#[trigger] keys[i]), budget);
            assert(0 <= i < n && too_much(h.on_key(keys[i]), budget));
        } else if is {
            if let Some(b) = found.1 {
                assert(b == true || b == false);
                assert(found.1 == Some(true) || found.1 == Some(false));
            }
            assert(items.len() > 128 || found.1 is None);
            assert(too_much(h.on_key(keys[n - 1]), budget));
        }
    }
}

/// A history is left undecided only for a reason: some key has too many
/// operations, or the search on some key ran out of steps.
pub proof fn law_undecided_only_for_a_reason(h: HistoryView, budget: u64)
    ensures
        crate::linearizability::verdict_on(h, budget) is Unknown ==> exists|i: int|
            0 <= i < crate::kvmap::keys_in_order(h.keys()).len() && too_much(
                h.on_key(#[trigger] crate::kvmap::keys_in_order(h.keys())[i]),
                budget,
            ),
{
    let keys = crate::kvmap::keys_in_order(h.keys());
    lemma_reasons(h, keys, keys.len() as int, budget);
}

/// How many of the first `n` keys have an operation that counts.
pub open spec fn keys_touched(h: HistoryView, keys: Seq<Seq<char>>, n: int) -> nat
    decreases n,
{
    if n <= 0 {
        0
    } else {
        keys_touched(h, keys, n - 1) + if crate::linearizability::items_of(
            h.on_key(keys[n - 1]),
        ).len() > 0 {
            1nat
        } else {
            0nat
        }
    }
}

/// How many operations that count there are on the first `n` keys.
pub open spec fn operations_counted(h: HistoryView, keys: Seq<Seq<char>>, n: int) -> nat
    decreases n,
{
    if n <= 0 {
        0
    } else {
        operations_counted(h, keys, n - 1) + crate::linearizability::items_of(
            h.on_key(keys[n - 1]),
        ).len()
    }
}

proof fn lemma_counted(h: HistoryView, keys: Seq<Seq<char>>, n: int, budget: u64)
    requires
        0 <= n <= keys.len(),
    ensures
        ({
            let t = crate::linearizability::tally(h, keys, n, budget);
            &&& !(t.verdict matches Some(v) && v is Linearizable)
            &&& t.verdict is None && t.unknown is None && operations_counted(h, keys, n)
                <= usize::MAX ==> t.keys == keys_touched(h, keys, n) && t.operations
                == operations_counted(h, keys, n)
            &&& keys_touched(h, keys, n) <= operations_counted(h, keys, n)
        }),
    decreases n,
{
    if n > 0 {
        lemma_counted(h, keys, n - 1, budget);
        let before = crate::linearizability::tally(h, keys, n - 1, budget);
        let t = crate::linearizability::tally(h, keys, n, budget);
        assert(t == before.with_key(keys[n - 1], h.on_key(keys[n - 1])));
    }
}

/// A history that is found linearizable is so on every key that has an operation
/// which counts, and with all of those operations: the verdict says how many.
pub proof fn law_verdicts_count_what_they_checked(h: HistoryView, budget: u64)
    ensures
        ({
            let keys = crate::kvmap::keys_in_order(h.keys());
            let n = keys.len() as int;
            crate::linearizability::verdict_on(h, budget) matches VerdictView::Linearizable {
                keys: k,
                operations,
            } ==> operations_counted(h, keys, n) <= usize::MAX ==> k == keys_touched(h, keys, n)
                && operations == operations_counted(h, keys, n)
        }),
{
    let keys = crate::kvmap::keys_in_order(h.keys());
    lemma_counted(h, keys, keys.len() as int, budget);
}

} // verus!
