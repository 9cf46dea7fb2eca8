//! What an explanation of a failed search is worth.
//!
//! The order it shows is a longest one that works, every operation that could
//! legally come next is listed, and each of them disagrees with what its client
//! saw.
use crate::linearizability as search;
use crate::linearizability::{ItemView, SearchView};
use vstd::prelude::*;

verus! {

/// Each item of this order is there to be placed, may go when its turn comes,
/// and answers what its client was told.
pub open spec fn works(
    items: Seq<ItemView>,
    todo: Seq<bool>,
    state: Option<Seq<char>>,
    order: Seq<usize>,
) -> bool {
    forall|k: int| 0 <= k < order.len() ==> step_works(items, todo, state, order, k)
}

/// The step at `k` works.
pub open spec fn step_works(
    items: Seq<ItemView>,
    todo: Seq<bool>,
    state: Option<Seq<char>>,
    order: Seq<usize>,
    k: int,
) -> bool {
    let i = order[k] as int;
    let rest = search::without(todo, order, k);
    &&& i < items.len()
    &&& rest[i]
    &&& search::may_go(items, rest, i)
    &&& search::fits(items[i], search::value_through(items, state, order, k))
}

/// What comes later in an order does not matter yet.
proof fn lemma_front(
    items: Seq<ItemView>,
    todo: Seq<bool>,
    state: Option<Seq<char>>,
    order: Seq<usize>,
    i: usize,
    n: int,
)
    requires
        0 <= n <= order.len(),
    ensures
        search::without(todo, order.push(i), n) == search::without(todo, order, n),
        search::value_through(items, state, order.push(i), n) == search::value_through(items, state, order, n),
    decreases n,
{
    if n > 0 {
        lemma_front(items, todo, state, order, i, n - 1);
    }
}

/// An order that works can be continued with what may go and fits.
proof fn lemma_one_longer(
    items: Seq<ItemView>,
    todo: Seq<bool>,
    state: Option<Seq<char>>,
    order: Seq<usize>,
    i: usize,
)
    requires
        works(items, todo, state, order),
        i < items.len(),
        search::without(todo, order, order.len() as int)[i as int],
        search::may_go(items, search::without(todo, order, order.len() as int), i as int),
        search::fits(items[i as int], search::value_through(items, state, order, order.len() as int)),
    ensures
        works(items, todo, state, order.push(i)),
        search::without(todo, order.push(i), order.len() as int + 1) == search::without(
            todo,
            order,
            order.len() as int,
        ).update(i as int, false),
        search::value_through(items, state, order.push(i), order.len() as int + 1) == search::value_after(
            search::value_through(items, state, order, order.len() as int),
            items[i as int].command,
        ),
{
    let longer = order.push(i);
    lemma_front(items, todo, state, order, i, order.len() as int);
    assert forall|k: int| 0 <= k < longer.len() implies step_works(
        items,
        todo,
        state,
        longer,
        k,
    ) by {
        lemma_front(items, todo, state, order, i, k);
        if k < order.len() {
            assert(step_works(items, todo, state, order, k));
        }
    }
}

/// What is left, and the value, do not depend on how the order is cut.
proof fn lemma_back(
    items: Seq<ItemView>,
    todo: Seq<bool>,
    state: Option<Seq<char>>,
    order: Seq<usize>,
    n: int,
)
    requires
        0 <= n < order.len(),
    ensures
        search::without(todo, order, n + 1) == search::without(
            todo.update(order[0] as int, false),
            order.skip(1),
            n,
        ),
        search::value_through(items, state, order, n + 1) == search::value_through(
            items,
            search::value_after(state, items[order[0] as int].command),
            order.skip(1),
            n,
        ),
    decreases n,
{
    reveal_with_fuel(search::without, 2);
    reveal_with_fuel(search::value_through, 2);
    if n > 0 {
        lemma_back(items, todo, state, order, n - 1);
        assert(order.skip(1)[n - 1] == order[n]);
    }
}

/// What follows the first step of an order that works, works too.
proof fn lemma_after_the_first(
    items: Seq<ItemView>,
    todo: Seq<bool>,
    state: Option<Seq<char>>,
    order: Seq<usize>,
)
    requires
        works(items, todo, state, order),
        order.len() > 0,
    ensures
        ({
            let i = order[0] as int;
            &&& i < items.len()
            &&& todo[i]
            &&& search::may_go(items, todo, i)
            &&& search::fits(items[i], state)
            &&& works(
                items,
                todo.update(i, false),
                search::value_after(state, items[i].command),
                order.skip(1),
            )
        }),
{
    assert(step_works(items, todo, state, order, 0));
    let rest = order.skip(1);
    let less = todo.update(order[0] as int, false);
    let next = search::value_after(state, items[order[0] as int].command);
    assert forall|k: int| 0 <= k < rest.len() implies step_works(items, less, next, rest, k) by {
        lemma_back(items, todo, state, order, k);
        assert(step_works(items, todo, state, order, k + 1));
        assert(rest[k] == order[k + 1]);
    }
}

/// However it is continued from here, no order gets beyond `depth`.
pub open spec fn bounded(items: Seq<ItemView>, p: (Option<Seq<char>>, Seq<bool>), depth: nat) -> bool {
    forall|order: Seq<usize>| #[trigger]
        works(items, p.1, p.0, order) ==> items.len() - search::left(p.1, p.1.len() as int) + order.len()
            <= depth
}

/// Of what is remembered, all but the searches still under way are bounded.
spec fn within(items: Seq<ItemView>, v: SearchView, todo: Seq<bool>) -> bool {
    forall|p: (Option<Seq<char>>, Seq<bool>)| #[trigger]
        v.seen.contains(p) ==> bounded(items, p, v.best.len()) || search::left(p.1, p.1.len() as int)
            > search::left(todo, todo.len() as int)
}

/// The best order works, and leaves something that was answered.
spec fn good(items: Seq<ItemView>, best: Seq<usize>) -> bool {
    let n = best.len() as int;
    &&& works(items, search::everything(items.len()), None, best)
    &&& n > 0 ==> !search::finished(items, search::without(search::everything(items.len()), best, n))
}

/// `order` leads here.
spec fn reached(
    items: Seq<ItemView>,
    order: Seq<usize>,
    state: Option<Seq<char>>,
    todo: Seq<bool>,
) -> bool {
    let n = order.len() as int;
    &&& works(items, search::everything(items.len()), None, order)
    &&& todo == search::without(search::everything(items.len()), order, n)
    &&& state == search::value_through(items, None, order, n)
    &&& todo.len() == items.len()
    &&& search::left(todo, todo.len() as int) + n == items.len()
}

/// Whatever is remembered anew is bounded.
spec fn gained(items: Seq<ItemView>, v: SearchView, w: SearchView) -> bool {
    &&& v.best.len() <= w.best.len()
    &&& forall|p: (Option<Seq<char>>, Seq<bool>)| #[trigger]
        w.seen.contains(p) ==> v.seen.contains(p) || bounded(items, p, w.best.len())
}

proof fn lemma_explore_longest(
    items: Seq<ItemView>,
    budget: u64,
    v: SearchView,
    order: Seq<usize>,
    state: Option<Seq<char>>,
    todo: Seq<bool>,
)
    requires
        items.len() <= usize::MAX,
        reached(items, order, state, todo),
        good(items, v.best),
        within(items, v, todo),
    ensures
        ({
            let (w, r) = search::explore(items, budget, v, order, state, todo);
            &&& good(items, w.best)
            &&& r == Some(false) ==> bounded(items, (state, todo), w.best.len()) && gained(
                items,
                v,
                w,
            )
        }),
    decreases search::left(todo, todo.len() as int), items.len() + 1,
{
    let counted = SearchView { steps: v.steps.saturating_add(1), ..v };
    if v.steps >= budget {
    } else if search::finished(items, todo) {
    } else if v.seen.contains((state, todo)) {
        assert(gained(items, v, counted));
    } else {
        let started = SearchView {
            seen: v.seen.insert((state, todo)),
            best: if order.len() > v.best.len() {
                order
            } else {
                v.best
            },
            ..counted
        };
        lemma_attempt_longest(items, budget, v, started, order, state, todo, 0);
        let (w, r) = search::attempt(
            items,
            budget,
            started,
            order,
            state,
            todo,
            0,
        );
        if r == Some(false) {
            assert forall|o: Seq<usize>| #[trigger]
                works(items, todo, state, o) implies items.len() - search::left(todo, todo.len() as int)
                + o.len() <= w.best.len() by {
                if o.len() > 0 {
                    lemma_after_the_first(items, todo, state, o);
                    let i = o[0] as int;
                    search::lemma_left(todo, todo.len() as int, i);
                    assert(goes_no_further(items, todo, state, i, w.best.len()));
                    let p = (
                        search::value_after(state, items[i].command),
                        todo.update(i, false),
                    );
                    assert(bounded(items, p, w.best.len()));
                    assert(works(items, p.1, p.0, o.skip(1)));
                }
            }
            assert(bounded(items, (state, todo), w.best.len()));
            assert forall|p: (Option<Seq<char>>, Seq<bool>)| #[trigger]
                w.seen.contains(p) implies v.seen.contains(p) || bounded(
                items,
                p,
                w.best.len(),
            ) by {
                if p == (state, todo) {
                }
            }
        }
    }
}

/// Placing `i` next goes no further than `depth`.
spec fn goes_no_further(
    items: Seq<ItemView>,
    todo: Seq<bool>,
    state: Option<Seq<char>>,
    i: int,
    depth: nat,
) -> bool {
    todo[i] && search::may_go(items, todo, i) && search::fits(items[i], state) ==> bounded(
        items,
        (search::value_after(state, items[i].command), todo.update(i, false)),
        depth,
    )
}

proof fn lemma_attempt_longest(
    items: Seq<ItemView>,
    budget: u64,
    before: SearchView,
    v: SearchView,
    order: Seq<usize>,
    state: Option<Seq<char>>,
    todo: Seq<bool>,
    i: int,
)
    requires
        items.len() <= usize::MAX,
        0 <= i <= items.len(),
        reached(items, order, state, todo),
        good(items, v.best),
        order.len() <= v.best.len(),
        before.best.len() <= v.best.len(),
        within(items, before, todo),
        forall|p: (Option<Seq<char>>, Seq<bool>)| #[trigger]
            v.seen.contains(p) ==> before.seen.contains(p) || p == (state, todo) || bounded(
                items,
                p,
                v.best.len(),
            ),
    ensures
        ({
            let (w, r) = search::attempt(items, budget, v, order, state, todo, i);
            &&& good(items, w.best)
            &&& r == Some(false) ==> {
                &&& v.best.len() <= w.best.len()
                &&& forall|k: int|
                    i <= k < items.len() ==> #[trigger] goes_no_further(
                        items,
                        todo,
                        state,
                        k,
                        w.best.len(),
                    )
                &&& forall|p: (Option<Seq<char>>, Seq<bool>)| #[trigger]
                    w.seen.contains(p) ==> before.seen.contains(p) || p == (state, todo)
                        || bounded(items, p, w.best.len())
            }
        }),
    decreases search::left(todo, todo.len() as int), items.len() - i,
{
    if i >= items.len() {
    } else if !todo[i] || !search::may_go(items, todo, i) || !search::fits(items[i], state) {
        lemma_attempt_longest(items, budget, before, v, order, state, todo, i + 1);
        let (w, r) = search::attempt(items, budget, v, order, state, todo, i);
        assert(goes_no_further(items, todo, state, i, w.best.len()));
    } else {
        search::lemma_left(todo, todo.len() as int, i);
        let less = todo.update(i, false);
        let next = search::value_after(state, items[i].command);
        let longer = order.push(i as usize);
        lemma_one_longer(items, search::everything(items.len()), None, order, i as usize);
        assert(within(items, v, less)) by {
            assert forall|p: (Option<Seq<char>>, Seq<bool>)| #[trigger]
                v.seen.contains(p) implies bounded(items, p, v.best.len()) || search::left(
                p.1,
                p.1.len() as int,
            ) > search::left(less, less.len() as int) by {
                if before.seen.contains(p) && bounded(items, p, before.best.len()) {
                    lemma_bound_grows(items, p, before.best.len(), v.best.len());
                }
            }
        }
        let (w, r) = search::explore(items, budget, v, longer, next, less);
        lemma_explore_longest(items, budget, v, longer, next, less);
        if r == Some(false) {
            assert forall|p: (Option<Seq<char>>, Seq<bool>)| #[trigger]
                w.seen.contains(p) implies before.seen.contains(p) || p == (state, todo)
                || bounded(items, p, w.best.len()) by {
                if v.seen.contains(p) && bounded(items, p, v.best.len()) {
                    lemma_bound_grows(items, p, v.best.len(), w.best.len());
                }
            }
            lemma_attempt_longest(items, budget, before, w, order, state, todo, i + 1);
            let (x, q) = search::attempt(
                items,
                budget,
                w,
                order,
                state,
                todo,
                i + 1,
            );
            if q == Some(false) {
                lemma_bound_grows(items, (next, less), w.best.len(), x.best.len());
                assert(goes_no_further(items, todo, state, i, x.best.len()));
            }
        }
    }
}

proof fn lemma_bound_grows(
    items: Seq<ItemView>,
    p: (Option<Seq<char>>, Seq<bool>),
    a: nat,
    b: nat,
)
    requires
        bounded(items, p, a),
        a <= b,
    ensures
        bounded(items, p, b),
{
}

proof fn lemma_all_left(n: nat, m: int)
    requires
        0 <= m <= n,
    ensures
        search::left(search::everything(n), m) == m,
    decreases m,
{
    if m > 0 {
        lemma_all_left(n, m - 1);
    }
}

/// Answered no earlier than invoked.
pub open spec fn in_order(x: ItemView) -> bool {
    x.answer matches Some(a) ==> x.invoke <= a.0
}

/// The earliest answer among the first `n` of what is left belongs to `j`.
spec fn earliest(items: Seq<ItemView>, todo: Seq<bool>, n: int, j: int) -> bool {
    &&& 0 <= j < n
    &&& todo[j]
    &&& items[j].answer is Some
    &&& forall|k: int|
        0 <= k < n && #[trigger] todo[k] && items[k].answer is Some ==> (items[j].answer->0).0 <= (
        items[k].answer->0).0
}

proof fn lemma_earliest_exists(items: Seq<ItemView>, todo: Seq<bool>, n: int)
    requires
        exists|k: int| 0 <= k < n && #[trigger] todo[k] && items[k].answer is Some,
    ensures
        exists|j: int| earliest(items, todo, n, j),
    decreases n,
{
    let k = choose|k: int| 0 <= k < n && #[trigger] todo[k] && items[k].answer is Some;
    if exists|k: int| 0 <= k < n - 1 && #[trigger] todo[k] && items[k].answer is Some {
        let m = n - 1;
        lemma_earliest_exists(items, todo, m);
        let j = choose|j: int| earliest(items, todo, m, j);
        if todo[n - 1] && items[n - 1].answer is Some && (items[n - 1].answer->0).0 < (
        items[j].answer->0).0 {
            assert(earliest(items, todo, n, n - 1));
        } else {
            assert(earliest(items, todo, n, j));
        }
    } else {
        assert(k == n - 1);
        assert(earliest(items, todo, n, k));
    }
}

proof fn lemma_blocked_is_listed(
    items: Seq<ItemView>,
    todo: Seq<bool>,
    state: Option<Seq<char>>,
    n: int,
    j: int,
)
    requires
        0 <= j < n,
        todo[j],
        search::may_go(items, todo, j),
        items[j].answer is Some,
    ensures
        search::blocked_in(items, todo, state, n).len() > 0,
    decreases n,
{
    if j < n - 1 {
        lemma_blocked_is_listed(items, todo, state, n - 1, j);
    }
}

/// What an explanation lists as blocked is exactly what could legally have come
/// next and was answered: with the answer that it would have had to get, and the
/// one that it got. And it shows every operation of the key.
pub proof fn law_explanations_list_what_is_blocked(
    items: Seq<ItemView>,
    todo: Seq<bool>,
    state: Option<Seq<char>>,
    n: int,
    i: int,
    k: int,
)
    requires
        0 <= n <= items.len(),
    ensures
        ({
            let blocked = search::blocked_in(items, todo, state, n);
            &&& 0 <= k < n && todo[k] && search::may_go(items, todo, k) && items[k].answer is Some
                ==> exists|j: int|
                0 <= j < blocked.len() && tells(#[trigger] blocked[j], items[k], state)
            &&& 0 <= i < blocked.len() ==> exists|j: int|
                0 <= j < n && todo[j] && search::may_go(items, todo, j) && items[j].answer is Some
                    && tells(blocked[i], #[trigger] items[j], state)
        }),
    decreases n,
{
    if n > 0 {
        law_explanations_list_what_is_blocked(items, todo, state, n - 1, i, k);
        let before = search::blocked_in(items, todo, state, n - 1);
        let after = search::blocked_in(items, todo, state, n);
        if 0 <= k < n && todo[k] && search::may_go(items, todo, k) && items[k].answer is Some {
            if k < n - 1 {
                let j = choose|j: int|
                    0 <= j < before.len() && tells(#[trigger] before[j], items[k], state);
                assert(after[j] == before[j]);
            } else {
                assert(tells(after[before.len() as int], items[k], state));
            }
        }
        if 0 <= i < after.len() {
            if i < before.len() {
                assert(after[i] == before[i]);
                let j = choose|j: int|
                    0 <= j < n - 1 && todo[j] && search::may_go(items, todo, j) && items[j].answer
                        is Some && tells(before[i], #[trigger] items[j], state);
                assert(tells(after[i], items[j], state));
            } else {
                assert(tells(after[i], items[n - 1], state));
            }
        }
    }
}

/// This is the operation, what it should have been answered, and what it was.
pub open spec fn tells(b: search::BlockedView, x: ItemView, state: Option<Seq<char>>) -> bool {
    &&& b.operation == x.describe
    &&& b.expected == crate::history::result_words(search::answer_on(state, x.command))
    &&& b.observed == crate::history::result_words((x.answer->0).1)
}

/// When the search says no, the order that the explanation shows works, and none
/// that works is longer. Every operation that could legally come next was
/// answered, so it is listed, and the store would have answered otherwise; and
/// as long as no operation was answered before it was invoked, there is one.
pub proof fn law_explanations_show_a_longest_order(
    key: Seq<char>,
    items: Seq<ItemView>,
    budget: u64,
)
    requires
        items.len() <= usize::MAX,
        search::searched(items, budget).1 == Some(false),
    ensures
        ({
            let best = search::searched(items, budget).0.best;
            let todo = search::without(search::everything(items.len()), best, best.len() as int);
            let state = search::value_through(items, None, best, best.len() as int);
            &&& works(items, search::everything(items.len()), None, best)
            &&& forall|order: Seq<usize>| #[trigger]
                works(items, search::everything(items.len()), None, order) ==> order.len() <= best.len()
            &&& forall|j: int|
                0 <= j < items.len() && #[trigger] todo[j] && search::may_go(items, todo, j) ==> (
                items[j].answer matches Some(a) && search::answer_on(state, items[j].command) != a.1)
            &&& (forall|j: int| 0 <= j < items.len() ==> in_order(#[trigger] items[j]))
                ==> search::explanation(key, items, best).blocked.len() > 0
        }),
{
    let n = items.len();
    let all = search::everything(n);
    lemma_all_left(n, n as int);
    let none = Seq::<usize>::empty();
    assert(search::without(all, none, 0) == all);
    assert(search::value_through(items, None, none, 0) is None);
    assert(works(items, all, None, none));
    lemma_explore_longest(items, budget, search::fresh_search(), none, None, all);
    let best = search::searched(items, budget).0.best;
    let todo = search::without(all, best, best.len() as int);
    let state = search::value_through(items, None, best, best.len() as int);
    assert(!search::finished(items, todo)) by {
        if best.len() == 0 {
            assert(todo == all);
        }
    }
    assert forall|order: Seq<usize>| #[trigger] works(items, all, None, order) implies order.len()
        <= best.len() by {
        assert(bounded(items, (None, all), best.len()));
        assert(works(items, (None::<Seq<char>>, all).1, (None::<Seq<char>>, all).0, order));
    }
    assert forall|j: int|
        0 <= j < items.len() && #[trigger] todo[j] && search::may_go(items, todo, j) implies (
    items[j].answer matches Some(a) && search::answer_on(state, items[j].command) != a.1) by {
        if search::fits(items[j], state) {
            lemma_one_longer(items, all, None, best, j as usize);
            assert(works(items, all, None, best.push(j as usize)));
        }
    }
    if forall|j: int| 0 <= j < items.len() ==> in_order(#[trigger] items[j]) {
        assert(exists|k: int| 0 <= k < n && #[trigger] todo[k] && items[k].answer is Some);
        lemma_earliest_exists(items, todo, n as int);
        let j = choose|j: int| earliest(items, todo, n as int, j);
        assert(in_order(items[j]));
        assert forall|k: int| 0 <= k < items.len() && #[trigger] todo[k] implies !search::precedes(
            items[k],
            items[j],
        ) by {}
        lemma_blocked_is_listed(items, todo, state, n as int, j);
    }
}

} // verus!
