//! Is this history linearizable?
//!
//! Given a set of concurrent client operations, decide whether there exists a
//! sequential order, consistent with real-time precedence, that a correct
//! single-threaded key/value store could have produced.
//!
//! The history splits into independent per-key sub-histories. Each is searched
//! on its own: linearize an operation that may go next, recurse, backtrack, and
//! remember the `(state, remaining set)` pairs that lead nowhere.
//!
//! An operation with no response may or may not have taken effect. A pending
//! read observed nothing and is dropped; a pending write is *optional*. A
//! rejected operation never entered any log and is dropped.
//!
//! When the search budget runs out, or a sub-history is longer than the cap,
//! the answer is "unknown", with a reason.
use crate::history::{show, History, HistoryView, OpId, OpView, Operation, Outcome, OutcomeView};
use crate::kv::{CommandView, KvCommand, KvResult, ResultView};
use crate::text::push_decimal;
use crate::Tick;
use std::collections::BTreeSet;
use vstd::prelude::*;

verus! {

broadcast use {vstd::laws_cmp::group_laws_cmp, vstd::std_specs::btree::group_btree_axioms};

/// Most operations one key's sub-history may have before the search gives up.
/// The remaining set is a number of that many bits.
pub const MAX_OPS_PER_KEY: usize = 128;

/// Default cap on search steps, across all keys.
pub const DEFAULT_BUDGET: u64 = 2_000_000;

// ---------------------------------------------------------------------------
// One key
// ---------------------------------------------------------------------------

/// The value of a single key. The whole model state, because the history has
/// already been split per key.
pub type State = Option<String>;

/// A key's value after a command.
pub open spec fn value_after(state: Option<Seq<char>>, c: CommandView) -> Option<Seq<char>> {
    match c {
        CommandView::Get { key } => state,
        CommandView::Put { key, value } => Some(value),
        CommandView::Delete { key } => None,
        CommandView::Cas { key, expect, value } => if state == expect {
            Some(value)
        } else {
            state
        },
    }
}

/// What a command answers on a key's value.
pub open spec fn answer_on(state: Option<Seq<char>>, c: CommandView) -> ResultView {
    match c {
        CommandView::Get { key } => ResultView::Value(state),
        CommandView::Put { key, value } => ResultView::Done,
        CommandView::Delete { key } => ResultView::Done,
        CommandView::Cas { key, expect, value } => if state == expect {
            ResultView::Done
        } else {
            ResultView::CasFailed { actual: state }
        },
    }
}

/// The single-key model agrees with the store: on the key a command touches,
/// both give the same answer and leave the same value.
pub proof fn law_model_agrees_with_the_store(store: crate::kv::StoreView, c: CommandView)
    ensures
        store.applied(c).lookup(c.key()) == value_after(store.lookup(c.key()), c),
        store.answer(c) == answer_on(store.lookup(c.key()), c),
{
}

/// Apply one command to a single key's value.
pub fn apply(state: &mut State, command: &KvCommand) -> (r: KvResult)
    ensures
        crate::json::text_view(*final(state)) == value_after(
            crate::json::text_view(*old(state)),
            command@,
        ),
        r@ == answer_on(crate::json::text_view(*old(state)), command@),
{
    match command {
        KvCommand::Get { key: _ } => KvResult::Value(crate::kv::copy_text(state)),
        KvCommand::Put { key: _, value } => {
            *state = Some(value.clone());
            KvResult::Done
        },
        KvCommand::Delete { key: _ } => {
            *state = None;
            KvResult::Done
        },
        KvCommand::Cas { key: _, expect, value } => {
            if crate::kv::same_text(state, expect) {
                *state = Some(value.clone());
                KvResult::Done
            } else {
                KvResult::CasFailed { actual: crate::kv::copy_text(state) }
            }
        },
    }
}

/// Could this command ever have produced this result, in any state?
pub open spec fn possible(c: CommandView, r: ResultView) -> bool {
    match c {
        CommandView::Get { key } => r is Value,
        CommandView::Put { key, value } => r is Done,
        CommandView::Delete { key } => r is Done,
        CommandView::Cas { key, expect, value } => r is Done || r is CasFailed,
    }
}

/// A cheap shape check, run before the search. When it fails, the store did not
/// merely order things badly: it handed back an answer belonging to a different
/// command.
fn result_is_possible(command: &KvCommand, result: &KvResult) -> (r: bool)
    ensures
        r == possible(command@, result@),
{
    match (command, result) {
        (KvCommand::Get { key: _ }, KvResult::Value(_)) => true,
        (KvCommand::Put { key: _, value: _ }, KvResult::Done) => true,
        (KvCommand::Delete { key: _ }, KvResult::Done) => true,
        (KvCommand::Cas { key: _, expect: _, value: _ }, KvResult::Done) => true,
        (KvCommand::Cas { key: _, expect: _, value: _ }, KvResult::CasFailed { actual: _ }) => true,
        _ => false,
    }
}

// ---------------------------------------------------------------------------
// What has to be ordered
// ---------------------------------------------------------------------------

/// One operation as the search sees it.
#[derive(Debug)]
struct Item {
    id: OpId,
    invoke: Tick,
    /// When it was answered, and what. `None` means it never responded: nothing
    /// has to happen after it, and it may never have taken effect.
    answer: Option<(Tick, KvResult)>,
    command: KvCommand,
    describe: String,
}

pub struct ItemView {
    pub id: u32,
    pub invoke: u64,
    pub answer: Option<(u64, ResultView)>,
    pub command: CommandView,
    pub describe: Seq<char>,
}

impl View for Item {
    type V = ItemView;

    closed spec fn view(&self) -> ItemView {
        ItemView {
            id: self.id,
            invoke: self.invoke,
            answer: match self.answer {
                Some(a) => Some((a.0, a.1@)),
                None => None,
            },
            command: self.command@,
            describe: self.describe@,
        }
    }
}

spec fn items_view(s: Seq<Item>) -> Seq<ItemView> {
    Seq::new(s.len(), |i: int| s[i]@)
}

/// An operation that constrains the order, or may take part in it.
pub open spec fn item_of(op: OpView) -> Option<ItemView> {
    match op.outcome {
        // Never entered any log.
        OutcomeView::Rejected { at } => None,
        OutcomeView::Pending => if op.command.is_read_only() {
            // An unobserved read constrains nothing at all.
            None
        } else {
            Some(
                ItemView {
                    id: op.id,
                    invoke: op.invoked,
                    answer: None,
                    command: op.command,
                    describe: op.describe(),
                },
            )
        },
        OutcomeView::Completed { at, result } => Some(
            ItemView {
                id: op.id,
                invoke: op.invoked,
                answer: Some((at, result)),
                command: op.command,
                describe: op.describe(),
            },
        ),
    }
}

/// By invocation, then id.
pub open spec fn not_after(a: ItemView, b: ItemView) -> bool {
    a.invoke < b.invoke || (a.invoke == b.invoke && a.id <= b.id)
}

/// `x` in its place among sorted items.
pub open spec fn placed(items: Seq<ItemView>, x: ItemView) -> Seq<ItemView>
    decreases items.len(),
{
    if items.len() == 0 || not_after(items.last(), x) {
        items.push(x)
    } else {
        placed(items.drop_last(), x).push(items.last())
    }
}

/// What the first `n` of a key's operations leave to be ordered, sorted.
pub open spec fn prepared(ops: Seq<OpView>, n: int) -> Seq<ItemView>
    decreases n,
{
    if n <= 0 {
        Seq::empty()
    } else {
        match item_of(ops[n - 1]) {
            None => prepared(ops, n - 1),
            Some(x) => placed(prepared(ops, n - 1), x),
        }
    }
}

/// A key's operations as the search takes them.
pub open spec fn items_of(ops: Seq<OpView>) -> Seq<ItemView> {
    prepared(ops, ops.len() as int)
}

proof fn lemma_placed(items: Seq<ItemView>, x: ItemView, at: int)
    requires
        0 <= at <= items.len(),
        at > 0 ==> not_after(items[at - 1], x),
        forall|k: int| at <= k < items.len() ==> !not_after(#[trigger] items[k], x),
    ensures
        placed(items, x) == items.insert(at, x),
    decreases items.len(),
{
    if at == items.len() {
        assert(placed(items, x) =~= items.insert(at, x));
    } else {
        let rest = items.drop_last();
        assert forall|k: int| at <= k < rest.len() implies !not_after(#[trigger] rest[k], x) by {
            assert(rest[k] == items[k]);
        }
        lemma_placed(rest, x, at);
        assert(!not_after(items[items.len() - 1], x));
        assert(placed(items, x) =~= items.insert(at, x));
    }
}

fn item_from(op: &Operation) -> (r: Option<Item>)
    ensures
        r is Some == item_of(op@) is Some,
        r matches Some(x) ==> item_of(op@) == Some(x@),
{
    match &op.outcome {
        Outcome::Rejected { at: _ } => None,
        Outcome::Pending => {
            if op.is_read_only() {
                None
            } else {
                Some(
                    Item {
                        id: op.id,
                        invoke: op.invoked,
                        answer: None,
                        command: op.command.clone(),
                        describe: op.describe(),
                    },
                )
            }
        },
        Outcome::Completed { at, result } => Some(
            Item {
                id: op.id,
                invoke: op.invoked,
                answer: Some((*at, result.clone())),
                command: op.command.clone(),
                describe: op.describe(),
            },
        ),
    }
}

/// Turn a key's operations into search items, dropping the ones that constrain
/// nothing, in a stable order by invocation and then id.
fn prepare(ops: &Vec<&Operation>) -> (r: Vec<Item>)
    ensures
        items_view(r@) == items_of(crate::history::refs_view(ops@)),
{
    let mut r: Vec<Item> = Vec::new();
    let ghost all = crate::history::refs_view(ops@);
    let mut i: usize = 0;
    assert(items_view(r@) =~= prepared(all, 0));
    while i < ops.len()
        invariant
            i <= ops@.len(),
            all == crate::history::refs_view(ops@),
            items_view(r@) == prepared(all, i as int),
        decreases ops@.len() - i,
    {
        assert(all[i as int] == ops@[i as int]@);
        match item_from(ops[i]) {
            None => {},
            Some(x) => {
                let mut at: usize = r.len();
                let ghost xv = x@;
                while at > 0 && !(r[at - 1].invoke < x.invoke || (r[at - 1].invoke == x.invoke
                    && r[at - 1].id <= x.id))
                    invariant
                        at <= r@.len(),
                        xv == x@,
                        forall|k: int|
                            at <= k < r@.len() ==> !not_after(#[trigger] items_view(r@)[k], xv),
                    decreases at,
                {
                    at = at - 1;
                    assert(!not_after(items_view(r@)[at as int], xv));
                }
                let ghost before = r@;
                proof {
                    if at > 0 {
                        assert(items_view(before)[at - 1] == before[at - 1]@);
                    }
                    lemma_placed(items_view(before), xv, at as int);
                }
                r.insert(at, x);
                assert(items_view(r@) =~= items_view(before).insert(at as int, xv));
            },
        }
        i = i + 1;
    }
    r
}

// ---------------------------------------------------------------------------
// What it means to be linearizable
// ---------------------------------------------------------------------------

/// The value after the first `n` of these items took effect in this order.
pub open spec fn value_through(
    items: Seq<ItemView>,
    state: Option<Seq<char>>,
    order: Seq<usize>,
    n: int,
) -> Option<Seq<char>>
    decreases n,
{
    if n <= 0 {
        state
    } else {
        value_after(
            value_through(items, state, order, n - 1),
            items[order[n - 1] as int].command,
        )
    }
}

/// What an item answers in `state` is what its client was told, if anything.
pub open spec fn fits(x: ItemView, state: Option<Seq<char>>) -> bool {
    x.answer matches Some(a) ==> answer_on(state, x.command) == a.1
}

/// `x` was answered before `y` was invoked.
pub open spec fn precedes(x: ItemView, y: ItemView) -> bool {
    x.answer matches Some(a) && a.0 < y.invoke
}

/// This order, of items that are still to be placed, explains what the clients
/// saw from `state` on: nothing is placed twice, everything that was answered is
/// placed, nothing comes behind what it preceded in real time, and every answer
/// is the one that the store gives.
pub open spec fn explains(
    items: Seq<ItemView>,
    todo: Seq<bool>,
    state: Option<Seq<char>>,
    order: Seq<usize>,
) -> bool {
    &&& forall|k: int|
        0 <= k < order.len() ==> 0 <= (#[trigger] order[k]) < items.len() && todo[order[k] as int]
    &&& forall|a: int, b: int|
        0 <= a < b < order.len() ==> (#[trigger] order[a]) != (#[trigger] order[b])
    &&& forall|j: usize|
        0 <= j < items.len() && #[trigger] todo[j as int] && items[j as int].answer is Some
            ==> order.contains(j)
    &&& forall|a: int, b: int|
        0 <= a <= b < order.len() ==> !precedes(
            items[(#[trigger] order[b]) as int],
            items[(#[trigger] order[a]) as int],
        )
    &&& forall|k: int|
        0 <= k < order.len() ==> fits(
            items[(#[trigger] order[k]) as int],
            value_through(items, state, order, k),
        )
}

/// All of them.
pub open spec fn everything(n: nat) -> Seq<bool> {
    Seq::new(n, |i: int| true)
}

/// Some order of what is left explains what the clients saw.
pub open spec fn can_finish(
    items: Seq<ItemView>,
    todo: Seq<bool>,
    state: Option<Seq<char>>,
) -> bool {
    exists|order: Seq<usize>| explains(items, todo, state, order)
}

/// Some order explains what the clients of this key saw.
pub open spec fn linearizable(items: Seq<ItemView>) -> bool {
    can_finish(items, everything(items.len()), None)
}

// ---------------------------------------------------------------------------
// The search, as a function
// ---------------------------------------------------------------------------

/// How many of the first `n` are still to be placed.
pub open spec fn left(todo: Seq<bool>, n: int) -> nat
    decreases n,
{
    if n <= 0 {
        0
    } else {
        left(todo, n - 1) + if todo[n - 1] {
            1nat
        } else {
            0nat
        }
    }
}

/// Placing one leaves one less.
pub proof fn lemma_left(todo: Seq<bool>, n: int, i: int)
    requires
        0 <= i < todo.len(),
        todo[i],
        0 <= n <= todo.len(),
    ensures
        left(todo.update(i, false), n) == left(todo, n) - if i < n {
            1int
        } else {
            0int
        },
    decreases n,
{
    if n > 0 {
        lemma_left(todo, n - 1, i);
    }
}

/// Everything that was answered has been placed.
pub open spec fn finished(items: Seq<ItemView>, todo: Seq<bool>) -> bool {
    forall|j: int| 0 <= j < items.len() && #[trigger] todo[j] ==> items[j].answer is None
}

/// An operation may go next only if nothing still outstanding had to finish
/// before it started.
pub open spec fn may_go(items: Seq<ItemView>, todo: Seq<bool>, i: int) -> bool {
    forall|j: int| 0 <= j < items.len() && #[trigger] todo[j] ==> !precedes(items[j], items[i])
}

/// What the search has learned.
#[verifier::ext_equal]
pub struct SearchView {
    /// Dead ends, by the value and what is left.
    pub seen: Set<(Option<Seq<char>>, Seq<bool>)>,
    pub steps: u64,
    /// The deepest the search ever got.
    pub best: Seq<usize>,
}

/// Place what is left, from `state` on, after `order`. The answer is `None` when
/// the budget ran out.
pub open spec fn explore(
    items: Seq<ItemView>,
    budget: u64,
    v: SearchView,
    order: Seq<usize>,
    state: Option<Seq<char>>,
    todo: Seq<bool>,
) -> (SearchView, Option<bool>)
    decreases left(todo, todo.len() as int), items.len() + 1,
{
    let counted = SearchView { steps: v.steps.saturating_add(1), ..v };
    if v.steps >= budget {
        (counted, None)
    } else if finished(items, todo) {
        (counted, Some(true))
    } else if v.seen.contains((state, todo)) {
        (counted, Some(false))
    } else {
        attempt(
            items,
            budget,
            SearchView {
                seen: v.seen.insert((state, todo)),
                best: if order.len() > v.best.len() {
                    order
                } else {
                    v.best
                },
                ..counted
            },
            order,
            state,
            todo,
            0,
        )
    }
}

/// Try each item from `i` on as the next one.
pub open spec fn attempt(
    items: Seq<ItemView>,
    budget: u64,
    v: SearchView,
    order: Seq<usize>,
    state: Option<Seq<char>>,
    todo: Seq<bool>,
    i: int,
) -> (SearchView, Option<bool>)
    decreases left(todo, todo.len() as int), items.len() - i,
{
    if i < 0 || i >= items.len() || i >= todo.len() {
        (v, Some(false))
    } else if !todo[i] || !may_go(items, todo, i) || !fits(items[i], state) {
        attempt(items, budget, v, order, state, todo, i + 1)
    } else {
        proof {
            lemma_left(todo, todo.len() as int, i);
        }
        let (w, r) = explore(
            items,
            budget,
            v,
            order.push(i as usize),
            value_after(state, items[i].command),
            todo.update(i, false),
        );
        if r == Some(false) {
            attempt(items, budget, w, order, state, todo, i + 1)
        } else {
            (w, r)
        }
    }
}

pub open spec fn fresh_search() -> SearchView {
    SearchView { seen: Set::empty(), steps: 0, best: Seq::empty() }
}

/// The whole search.
pub open spec fn searched(items: Seq<ItemView>, budget: u64) -> (SearchView, Option<bool>) {
    explore(items, budget, fresh_search(), Seq::empty(), None, everything(items.len()))
}

// ---------------------------------------------------------------------------
// The search is right
// ---------------------------------------------------------------------------

/// Nothing left that was answered: the empty order will do.
proof fn lemma_finished(items: Seq<ItemView>, todo: Seq<bool>, state: Option<Seq<char>>)
    requires
        finished(items, todo),
    ensures
        can_finish(items, todo, state),
{
    assert(explains(items, todo, state, Seq::<usize>::empty()));
}

/// The value does not depend on how the order is cut.
proof fn lemma_value_shift(
    items: Seq<ItemView>,
    state: Option<Seq<char>>,
    order: Seq<usize>,
    n: int,
)
    requires
        order.len() > 0,
        0 <= n < order.len(),
    ensures
        value_through(items, state, order, n + 1) == value_through(
            items,
            value_after(state, items[order[0] as int].command),
            order.skip(1),
            n,
        ),
    decreases n,
{
    if n > 0 {
        lemma_value_shift(items, state, order, n - 1);
        assert(order.skip(1)[n - 1] == order[n]);
    } else {
        assert(value_through(items, state, order, 0) == state);
    }
}

/// An order that explains what follows a first step explains the whole.
proof fn lemma_extend(
    items: Seq<ItemView>,
    todo: Seq<bool>,
    state: Option<Seq<char>>,
    i: usize,
    rest: Seq<usize>,
)
    requires
        todo.len() == items.len(),
        0 <= i < items.len(),
        todo[i as int],
        may_go(items, todo, i as int),
        fits(items[i as int], state),
        explains(
            items,
            todo.update(i as int, false),
            value_after(state, items[i as int].command),
            rest,
        ),
    ensures
        explains(items, todo, state, seq![i] + rest),
{
    let order = seq![i] + rest;
    let less = todo.update(i as int, false);
    assert(order.skip(1) =~= rest);
    assert forall|k: int| 0 <= k < order.len() implies 0 <= (#[trigger] order[k]) < items.len()
        && todo[order[k] as int] by {
        if k > 0 {
            assert(order[k] == rest[k - 1]);
            assert(less[rest[k - 1] as int]);
        }
    }
    assert forall|a: int, b: int| 0 <= a < b < order.len() implies (#[trigger] order[a]) != (
    #[trigger] order[b]) by {
        assert(order[b] == rest[b - 1]);
        assert(less[rest[b - 1] as int]);
        if a > 0 {
            assert(order[a] == rest[a - 1]);
        }
    }
    assert forall|j: usize|
        0 <= j < items.len() && #[trigger] todo[j as int] && items[j as int].answer is Some implies order.contains(
        j,
    ) by {
        if j == i {
            assert(order[0] == j);
        } else {
            assert(less[j as int]);
            assert(rest.contains(j));
            let k = choose|k: int| 0 <= k < rest.len() && rest[k] == j;
            assert(order[k + 1] == j);
        }
    }
    assert forall|a: int, b: int| 0 <= a <= b < order.len() implies !precedes(
        items[(#[trigger] order[b]) as int],
        items[(#[trigger] order[a]) as int],
    ) by {
        if a == 0 {
            assert(todo[order[b] as int]);
        } else {
            assert(order[a] == rest[a - 1] && order[b] == rest[b - 1]);
        }
    }
    assert forall|k: int| 0 <= k < order.len() implies fits(
        items[(#[trigger] order[k]) as int],
        value_through(items, state, order, k),
    ) by {
        if k > 0 {
            lemma_value_shift(items, state, order, k - 1);
            assert(order[k] == rest[k - 1]);
        }
    }
}

/// An order that explains the whole has a first step that the search tries.
proof fn lemma_first_step(
    items: Seq<ItemView>,
    todo: Seq<bool>,
    state: Option<Seq<char>>,
    order: Seq<usize>,
)
    requires
        todo.len() == items.len(),
        items.len() <= usize::MAX,
        explains(items, todo, state, order),
        order.len() > 0,
    ensures
        ({
            let i = order[0] as int;
            &&& 0 <= i < items.len()
            &&& todo[i]
            &&& may_go(items, todo, i)
            &&& fits(items[i], state)
            &&& explains(
                items,
                todo.update(i, false),
                value_after(state, items[i].command),
                order.skip(1),
            )
        }),
{
    let i = order[0] as int;
    let rest = order.skip(1);
    let less = todo.update(i, false);
    let next = value_after(state, items[i].command);
    assert(todo[order[0] as int]);
    assert(value_through(items, state, order, 0) == state);
    assert(fits(items[order[0] as int], value_through(items, state, order, 0)));
    assert(may_go(items, todo, i)) by {
        assert forall|j: int| 0 <= j < items.len() && #[trigger] todo[j] implies !precedes(
            items[j],
            items[i],
        ) by {
            if items[j].answer is Some {
                let u = j as usize;
                assert(todo[u as int]);
                assert(order.contains(u));
                let b = choose|b: int| 0 <= b < order.len() && order[b] == u;
                assert(!precedes(items[order[b] as int], items[order[0] as int]));
            }
        }
    }
    assert forall|k: int| 0 <= k < rest.len() implies 0 <= (#[trigger] rest[k]) < items.len()
        && less[rest[k] as int] by {
        assert(rest[k] == order[k + 1]);
        assert(order[0] != order[k + 1]);
    }
    assert forall|a: int, b: int| 0 <= a < b < rest.len() implies (#[trigger] rest[a]) != (
    #[trigger] rest[b]) by {
        assert(rest[a] == order[a + 1] && rest[b] == order[b + 1]);
    }
    assert forall|j: usize|
        0 <= j < items.len() && #[trigger] less[j as int] && items[j as int].answer is Some implies rest.contains(
        j,
    ) by {
        assert(todo[j as int]);
        assert(order.contains(j));
        let k = choose|k: int| 0 <= k < order.len() && order[k] == j;
        assert(k != 0);
        assert(rest[k - 1] == j);
    }
    assert forall|a: int, b: int| 0 <= a <= b < rest.len() implies !precedes(
        items[(#[trigger] rest[b]) as int],
        items[(#[trigger] rest[a]) as int],
    ) by {
        assert(rest[a] == order[a + 1] && rest[b] == order[b + 1]);
    }
    assert forall|k: int| 0 <= k < rest.len() implies fits(
        items[(#[trigger] rest[k]) as int],
        value_through(items, next, rest, k),
    ) by {
        lemma_value_shift(items, state, order, k);
        assert(rest[k] == order[k + 1]);
    }
}

/// Every remembered dead end is one, or belongs to a search still under way.
pub open spec fn remembers(items: Seq<ItemView>, v: SearchView, todo: Seq<bool>) -> bool {
    forall|p: (Option<Seq<char>>, Seq<bool>)| #[trigger]
        v.seen.contains(p) ==> !can_finish(items, p.1, p.0) || left(p.1, p.1.len() as int) > left(
            todo,
            todo.len() as int,
        )
}

/// `w` remembers what `v` did, and otherwise only dead ends.
pub open spec fn learned(items: Seq<ItemView>, v: SearchView, w: SearchView) -> bool {
    forall|p: (Option<Seq<char>>, Seq<bool>)| #[trigger]
        w.seen.contains(p) ==> v.seen.contains(p) || !can_finish(items, p.1, p.0)
}

proof fn lemma_explore_right(
    items: Seq<ItemView>,
    budget: u64,
    v: SearchView,
    order: Seq<usize>,
    state: Option<Seq<char>>,
    todo: Seq<bool>,
)
    requires
        todo.len() == items.len(),
        items.len() <= usize::MAX,
        remembers(items, v, todo),
    ensures
        ({
            let (w, r) = explore(items, budget, v, order, state, todo);
            &&& r == Some(true) ==> can_finish(items, todo, state)
            &&& r == Some(false) ==> !can_finish(items, todo, state) && learned(items, v, w)
        }),
    decreases left(todo, todo.len() as int), items.len() + 1,
{
    let counted = SearchView { steps: v.steps.saturating_add(1), ..v };
    if v.steps >= budget {
    } else if finished(items, todo) {
        lemma_finished(items, todo, state);
    } else if v.seen.contains((state, todo)) {
        assert(learned(items, v, counted));
    } else {
        let started = SearchView {
            seen: v.seen.insert((state, todo)),
            best: if order.len() > v.best.len() {
                order
            } else {
                v.best
            },
            ..counted
        };
        lemma_attempt_right(items, budget, v, started, order, state, todo, 0);
        let (w, r) = attempt(items, budget, started, order, state, todo, 0);
        if r == Some(false) {
            assert forall|o: Seq<usize>| !explains(items, todo, state, o) by {
                if explains(items, todo, state, o) {
                    if o.len() == 0 {
                        assert(finished(items, todo)) by {
                            assert forall|j: int| 0 <= j < items.len() && #[trigger] todo[j] implies items[j].answer is None by {
                                if items[j].answer is Some {
                                    let u = j as usize;
                                    assert(todo[u as int]);
                                    assert(o.contains(u));
                                }
                            }
                        }
                    } else {
                        lemma_first_step(items, todo, state, o);
                        let i = o[0] as int;
                        assert(can_finish(
                            items,
                            todo.update(i, false),
                            value_after(state, items[i].command),
                        ));
                        assert(leads_nowhere(items, todo, state, i));
                    }
                }
            }
            assert(!can_finish(items, todo, state));
        }
    }
}

/// Placing `i` next does not work out.
pub open spec fn leads_nowhere(
    items: Seq<ItemView>,
    todo: Seq<bool>,
    state: Option<Seq<char>>,
    i: int,
) -> bool {
    !todo[i] || !may_go(items, todo, i) || !fits(items[i], state) || !can_finish(
        items,
        todo.update(i, false),
        value_after(state, items[i].command),
    )
}

proof fn lemma_attempt_right(
    items: Seq<ItemView>,
    budget: u64,
    before: SearchView,
    v: SearchView,
    order: Seq<usize>,
    state: Option<Seq<char>>,
    todo: Seq<bool>,
    i: int,
)
    requires
        todo.len() == items.len(),
        items.len() <= usize::MAX,
        0 <= i <= items.len(),
        remembers(items, before, todo),
        forall|p: (Option<Seq<char>>, Seq<bool>)| #[trigger]
            v.seen.contains(p) ==> before.seen.contains(p) || p == (state, todo) || !can_finish(
                items,
                p.1,
                p.0,
            ),
    ensures
        ({
            let (w, r) = attempt(items, budget, v, order, state, todo, i);
            &&& r == Some(true) ==> can_finish(items, todo, state)
            &&& r == Some(false) ==> {
                &&& forall|k: int| i <= k < items.len() ==> #[trigger] leads_nowhere(
                    items,
                    todo,
                    state,
                    k,
                )
                &&& forall|p: (Option<Seq<char>>, Seq<bool>)| #[trigger]
                    w.seen.contains(p) ==> before.seen.contains(p) || p == (state, todo)
                        || !can_finish(items, p.1, p.0)
            }
        }),
    decreases left(todo, todo.len() as int), items.len() - i,
{
    if i >= items.len() {
    } else if !todo[i] || !may_go(items, todo, i) || !fits(items[i], state) {
        lemma_attempt_right(items, budget, before, v, order, state, todo, i + 1);
        assert(leads_nowhere(items, todo, state, i));
    } else {
        lemma_left(todo, todo.len() as int, i);
        let less = todo.update(i, false);
        let next = value_after(state, items[i].command);
        assert(remembers(items, v, less)) by {
            assert forall|p: (Option<Seq<char>>, Seq<bool>)| #[trigger]
                v.seen.contains(p) implies !can_finish(items, p.1, p.0) || left(
                p.1,
                p.1.len() as int,
            ) > left(less, less.len() as int) by {}
        }
        let (w, r) = explore(items, budget, v, order.push(i as usize), next, less);
        lemma_explore_right(items, budget, v, order.push(i as usize), next, less);
        if r == Some(true) {
            let rest = choose|rest: Seq<usize>| explains(items, less, next, rest);
            lemma_extend(items, todo, state, i as usize, rest);
            assert(can_finish(items, todo, state));
        } else if r == Some(false) {
            assert(leads_nowhere(items, todo, state, i));
            assert forall|p: (Option<Seq<char>>, Seq<bool>)| #[trigger]
                w.seen.contains(p) implies before.seen.contains(p) || p == (state, todo)
                || !can_finish(items, p.1, p.0) by {
                if v.seen.contains(p) {
                }
            }
            lemma_attempt_right(items, budget, before, w, order, state, todo, i + 1);
        }
    }
}

/// The search is right both ways: it answers yes only where some order explains
/// what the clients saw, and no only where none does.
pub proof fn law_the_search_is_right(items: Seq<ItemView>, budget: u64)
    requires
        items.len() <= usize::MAX,
    ensures
        searched(items, budget).1 == Some(true) ==> linearizable(items),
        searched(items, budget).1 == Some(false) ==> !linearizable(items),
{
    lemma_explore_right(
        items,
        budget,
        fresh_search(),
        Seq::empty(),
        None,
        everything(items.len()),
    );
}

// ---------------------------------------------------------------------------
// Keys of the memory: a value by who wrote it, a set of items by a number
// ---------------------------------------------------------------------------

/// Two to the power of `n`.
spec fn power(n: nat) -> int
    decreases n,
{
    if n == 0 {
        1
    } else {
        2 * power((n - 1) as nat)
    }
}

proof fn lemma_power_scale(n: nat)
    ensures
        power(n + 32) == power(n) * 0x1_0000_0000,
    decreases n,
{
    if n == 0 {
        reveal_with_fuel(power, 33);
    } else {
        lemma_power_scale((n - 1) as nat);
    }
}

proof fn lemma_power_grows(a: nat, b: nat)
    requires
        a <= b,
    ensures
        1 <= power(a) <= power(b),
    decreases b,
{
    if a < b {
        lemma_power_grows(a, (b - 1) as nat);
    } else if a > 0 {
        lemma_power_grows((a - 1) as nat, (b - 1) as nat);
    }
}

proof fn lemma_power_fits()
    ensures
        power(128) == u128::MAX + 1,
{
    lemma_power_scale(0);
    lemma_power_scale(32);
    lemma_power_scale(64);
    lemma_power_scale(96);
}

/// A set of items as a number.
spec fn number(todo: Seq<bool>) -> int
    decreases todo.len(),
{
    if todo.len() == 0 {
        0
    } else {
        (if todo[0] {
            1int
        } else {
            0int
        }) + 2 * number(todo.skip(1))
    }
}

proof fn lemma_number_bound(todo: Seq<bool>)
    ensures
        0 <= number(todo) < power(todo.len()),
    decreases todo.len(),
{
    if todo.len() > 0 {
        lemma_number_bound(todo.skip(1));
    }
}

proof fn lemma_number_update(todo: Seq<bool>, i: int)
    requires
        0 <= i < todo.len(),
    ensures
        number(todo.update(i, true)) == number(todo.update(i, false)) + power(i as nat),
    decreases todo.len(),
{
    let a = todo.update(i, true);
    let b = todo.update(i, false);
    if i == 0 {
        assert(a.skip(1) =~= b.skip(1));
    } else {
        lemma_number_update(todo.skip(1), i - 1);
        assert(a.skip(1) =~= todo.skip(1).update(i - 1, true));
        assert(b.skip(1) =~= todo.skip(1).update(i - 1, false));
    }
}

proof fn lemma_number_injective(a: Seq<bool>, b: Seq<bool>)
    requires
        a.len() == b.len(),
        number(a) == number(b),
    ensures
        a == b,
    decreases a.len(),
{
    if a.len() > 0 {
        lemma_number_injective(a.skip(1), b.skip(1));
        assert forall|i: int| 0 <= i < a.len() implies a[i] == b[i] by {
            if i > 0 {
                assert(a[i] == a.skip(1)[i - 1]);
                assert(b[i] == b.skip(1)[i - 1]);
            }
        }
    }
    assert(a =~= b);
}

/// What an item writes.
spec fn written(x: ItemView) -> Option<Seq<char>> {
    match x.command {
        CommandView::Put { key, value } => Some(value),
        CommandView::Cas { key, expect, value } => Some(value),
        _ => None,
    }
}

/// The value that a token stands for: nothing, or what an item writes.
spec fn value_of(items: Seq<ItemView>, token: usize) -> Option<Seq<char>> {
    if token == 0 {
        None
    } else {
        written(items[token - 1])
    }
}

/// The token names the first item that writes its value.
#[verifier::opaque]
spec fn canonical(items: Seq<ItemView>, token: usize) -> bool {
    token == 0 || {
        &&& token <= items.len()
        &&& written(items[token - 1]) is Some
        &&& forall|j: int| 0 <= j < token - 1 ==> written(#[trigger] items[j]) != written(
            items[token - 1],
        )
    }
}

proof fn lemma_tokens(items: Seq<ItemView>, a: usize, b: usize)
    requires
        canonical(items, a),
        canonical(items, b),
        value_of(items, a) == value_of(items, b),
    ensures
        a == b,
{
    reveal(canonical);
    if a != 0 && b != 0 {
        if a < b {
            assert(written(items[a - 1]) != written(items[b - 1]));
        } else if b < a {
            assert(written(items[b - 1]) != written(items[a - 1]));
        }
    }
}

#[verifier::opaque]
spec fn memory(
    items: Seq<ItemView>,
    seen: Set<(usize, u128)>,
) -> Set<(Option<Seq<char>>, Seq<bool>)> {
    Set::new(
        |p: (Option<Seq<char>>, Seq<bool>)|
            p.1.len() == items.len() && exists|t: usize| #[trigger]
                canonical(items, t) && value_of(items, t) == p.0 && seen.contains(
                    (t, number(p.1) as u128),
                ),
    )
}

proof fn lemma_memory(
    items: Seq<ItemView>,
    seen: Set<(usize, u128)>,
    token: usize,
    todo: Seq<bool>,
)
    requires
        items.len() <= 128,
        todo.len() == items.len(),
        canonical(items, token),
    ensures
        seen.contains((token, number(todo) as u128)) == memory(items, seen).contains(
            (value_of(items, token), todo),
        ),
        memory(items, seen.insert((token, number(todo) as u128))) == memory(items, seen).insert(
            (value_of(items, token), todo),
        ),
        0 <= number(todo) <= u128::MAX,
{
    reveal(memory);
    lemma_power_fits();
    lemma_power_grows(todo.len(), 128);
    lemma_number_bound(todo);
    let here = (value_of(items, token), todo);
    if memory(items, seen).contains(here) {
        let t = choose|t: usize| #[trigger]
            canonical(items, t) && value_of(items, t) == here.0 && seen.contains(
                (t, number(here.1) as u128),
            );
        lemma_tokens(items, t, token);
    }
    let more = seen.insert((token, number(todo) as u128));
    let a = memory(items, more);
    let b = memory(items, seen).insert(here);
    assert forall|p: (Option<Seq<char>>, Seq<bool>)| a.contains(p) <==> b.contains(p) by {
        if a.contains(p) {
            let t = choose|t: usize| #[trigger]
                canonical(items, t) && value_of(items, t) == p.0 && more.contains(
                    (t, number(p.1) as u128),
                );
            if !seen.contains((t, number(p.1) as u128)) {
                assert(t == token);
                lemma_number_bound(p.1);
                lemma_number_injective(p.1, todo);
            }
        }
        if b.contains(p) {
            if p == here {
                assert(canonical(items, token) && more.contains((token, number(p.1) as u128)));
            } else {
                let t = choose|t: usize| #[trigger]
                    canonical(items, t) && value_of(items, t) == p.0 && seen.contains(
                        (t, number(p.1) as u128),
                    );
                assert(more.contains((t, number(p.1) as u128)));
            }
        }
    }
    assert(a =~= b);
}

// ---------------------------------------------------------------------------
// The search, run
// ---------------------------------------------------------------------------

/// The earliest answer among what is left, if anything left was answered.
#[verifier::opaque]
spec fn is_limit(items: Seq<ItemView>, todo: Seq<bool>, limit: Option<u64>) -> bool {
    match limit {
        None => finished(items, todo),
        Some(l) => {
            &&& forall|j: int|
                0 <= j < items.len() && #[trigger] todo[j] ==> (items[j].answer matches Some(a)
                    ==> l <= a.0)
            &&& exists|j: int|
                0 <= j < items.len() && #[trigger] todo[j] && (items[j].answer matches Some(a)
                    && a.0 == l)
        },
    }
}

struct Search<'a> {
    items: &'a [Item],
    /// For each item, the token of what it writes.
    tokens: Vec<usize>,
    /// The powers of two, one per item.
    powers: Vec<u128>,
    /// Dead ends, by the value and what is left.
    seen: BTreeSet<(usize, u128)>,
    steps: u64,
    budget: u64,
    /// The deepest the search ever got, kept for the explanation.
    best: Vec<usize>,
    order: Vec<usize>,
    todo: Vec<bool>,
}

/// The text an item writes.
fn written_text(x: &Item) -> (r: Option<&String>)
    ensures
        r is Some == written(x@) is Some,
        r matches Some(s) ==> written(x@) == Some(s@),
{
    match &x.command {
        KvCommand::Put { key: _, value } => Some(value),
        KvCommand::Cas { key: _, expect: _, value } => Some(value),
        _ => None,
    }
}

/// The token of what item `i` writes.
fn token_of(items: &[Item], i: usize) -> (r: usize)
    requires
        i < items@.len() <= 128,
    ensures
        written(items@[i as int]@) is None ==> r == 0,
        written(items@[i as int]@) is Some ==> r > 0 && canonical(items_view(items@), r)
            && value_of(items_view(items@), r) == written(items@[i as int]@),
{
    let ghost all = items_view(items@);
    proof {
        reveal(canonical);
    }
    let mine = match written_text(&items[i]) {
        Some(s) => s,
        None => return 0,
    };
    let mut j: usize = 0;
    while j < i
        invariant
            j <= i < items@.len() <= 128,
            all == items_view(items@),
            all.len() == items@.len(),
            written(items@[i as int]@) == Some(mine@),
            forall|k: int| 0 <= k < j ==> written(#[trigger] all[k]) != Some(mine@),
        decreases i - j,
    {
        assert(all[j as int] == items@[j as int]@);
        match written_text(&items[j]) {
            Some(s) => {
                if *s == *mine {
                    proof {
                        reveal(canonical);
                    }
                    return j + 1;
                }
            },
            None => {},
        }
        j = j + 1;
    }
    assert(all[i as int] == items@[i as int]@);
    i + 1
}

impl<'a> Search<'a> {
    spec fn view(&self) -> SearchView {
        SearchView {
            seen: memory(items_view(self.items@), self.seen@),
            steps: self.steps,
            best: self.best@,
        }
    }

    /// Everything but what the search learns is in place.
    #[verifier::opaque]
    spec fn ready(&self) -> bool {
        let all = items_view(self.items@);
        &&& self.items@.len() <= 128
        &&& self.tokens@.len() == self.items@.len()
        &&& self.powers@.len() == self.items@.len()
        &&& self.todo@.len() == self.items@.len()
        &&& forall|i: int| 0 <= i < all.len() ==> #[trigger] self.powers@[i] == power(i as nat)
        &&& forall|i: int|
            0 <= i < all.len() ==> {
                &&& written(#[trigger] all[i]) is None ==> self.tokens@[i] == 0
                &&& written(all[i]) is Some ==> self.tokens@[i] > 0 && canonical(
                    all,
                    self.tokens@[i],
                ) && value_of(all, self.tokens@[i]) == written(all[i])
            }
    }

    /// Only what the search learns may differ.
    spec fn same_frame(&self, other: &Search<'a>) -> bool {
        &&& self.items == other.items
        &&& self.tokens@ == other.tokens@
        &&& self.powers@ == other.powers@
        &&& self.budget == other.budget
        &&& self.order@ == other.order@
        &&& self.todo@ == other.todo@
    }

    fn new(items: &'a [Item], budget: u64) -> (r: Self)
        requires
            items@.len() <= 128,
        ensures
            r.ready(),
            r.items == items,
            r.budget == budget,
            r.view() == fresh_search(),
            r.order@ == Seq::<usize>::empty(),
            r.todo@ == everything(items@.len()),
    {
        let n: usize = items.len();
        let ghost all = items_view(items@);
        let mut tokens: Vec<usize> = Vec::new();
        let mut powers: Vec<u128> = Vec::new();
        let mut todo: Vec<bool> = Vec::new();
        let mut next: u128 = 1;
        let mut i: usize = 0;
        while i < n
            invariant
                i <= n == items@.len(),
                n <= 128,
                all == items_view(items@),
                tokens@.len() == i,
                powers@.len() == i,
                todo@.len() == i,
                i < n ==> next == power(i as nat),
                forall|k: int| 0 <= k < i ==> #[trigger] powers@[k] == power(k as nat),
                forall|k: int| 0 <= k < i ==> #[trigger] todo@[k],
                forall|k: int|
                    0 <= k < i ==> {
                        &&& written(#[trigger] all[k]) is None ==> tokens@[k] == 0
                        &&& written(all[k]) is Some ==> tokens@[k] > 0 && canonical(all, tokens@[k])
                            && value_of(all, tokens@[k]) == written(all[k])
                    },
            decreases n - i,
        {
            assert(all[i as int] == items@[i as int]@);
            tokens.push(token_of(items, i));
            powers.push(next);
            todo.push(true);
            i = i + 1;
            if i < n {
                proof {
                    lemma_power_fits();
                    lemma_power_grows(i as nat, 127);
                    lemma_power_grows(127, 128);
                    assert(power(128) == 2 * power(127));
                }
                next = next * 2;
            }
        }
        assert(todo@ =~= everything(n as nat));
        let r = Search {
            items,
            tokens,
            powers,
            seen: BTreeSet::new(),
            steps: 0,
            budget,
            best: Vec::new(),
            order: Vec::new(),
            todo,
        };
        proof {
            reveal(memory);
            reveal(Search::ready);
        }
        assert(r.view().seen =~= fresh_search().seen);
        r
    }

    /// Is there nothing left that was answered?
    fn is_finished(&self) -> (r: bool)
        requires
            self.ready(),
        ensures
            r == finished(items_view(self.items@), self.todo@),
    {
        proof {
            reveal(Search::ready);
            reveal(canonical);
        }
        let ghost all = items_view(self.items@);
        let mut i: usize = 0;
        while i < self.items.len()
            invariant
                self.ready(),
                i <= self.items@.len(),
                all == items_view(self.items@),
                forall|j: int| 0 <= j < i && #[trigger] self.todo@[j] ==> all[j].answer is None,
            decreases self.items@.len() - i,
        {
            proof {
                reveal(Search::ready);
            }
            assert(all[i as int] == self.items@[i as int]@);
            if self.todo[i] && self.items[i].answer.is_some() {
                return false;
            }
            i = i + 1;
        }
        true
    }

    /// The earliest answer among what is left.
    fn earliest_answer(&self) -> (r: Option<Tick>)
        requires
            self.ready(),
        ensures
            is_limit(items_view(self.items@), self.todo@, r),
    {
        proof {
            reveal(Search::ready);
            reveal(canonical);
        }
        let ghost all = items_view(self.items@);
        let mut r: Option<u64> = None;
        let mut i: usize = 0;
        while i < self.items.len()
            invariant
                self.ready(),
                i <= self.items@.len(),
                all == items_view(self.items@),
                r is None ==> forall|j: int|
                    0 <= j < i && #[trigger] self.todo@[j] ==> all[j].answer is None,
                r matches Some(limit) ==> {
                    &&& forall|j: int|
                        0 <= j < i && #[trigger] self.todo@[j] ==> (all[j].answer matches Some(a)
                            ==> limit <= a.0)
                    &&& exists|j: int|
                        0 <= j < i && #[trigger] self.todo@[j] && (all[j].answer matches Some(a)
                            && a.0 == limit)
                },
            decreases self.items@.len() - i,
        {
            proof {
                reveal(Search::ready);
            }
            assert(all[i as int] == self.items@[i as int]@);
            if self.todo[i] {
                match &self.items[i].answer {
                    Some(a) => {
                        let at: u64 = a.0;
                        let sooner = match r {
                            Some(limit) => at < limit,
                            None => true,
                        };
                        if sooner {
                            r = Some(at);
                            assert(self.todo@[i as int]);
                        }
                    },
                    None => {},
                }
            }
            i = i + 1;
        }
        proof {
            reveal(is_limit);
        }
        r
    }

    /// May item `i` go next, and does it answer here what its client was told?
    fn can_go(&self, i: usize, token: usize, limit: Option<Tick>) -> (r: bool)
        requires
            self.ready(),
            i < self.items@.len(),
            canonical(items_view(self.items@), token),
            is_limit(items_view(self.items@), self.todo@, limit),
        ensures
            r == (self.todo@[i as int] && may_go(
                items_view(self.items@),
                self.todo@,
                i as int,
            ) && fits(
                items_view(self.items@)[i as int],
                value_of(items_view(self.items@), token),
            )),
    {
        proof {
            reveal(Search::ready);
            reveal(canonical);
        }
        let ghost all = items_view(self.items@);
        assert(all[i as int] == self.items@[i as int]@);
        proof {
            reveal(is_limit);
        }
        let in_time = match limit {
            Some(l) => self.items[i].invoke <= l,
            None => true,
        };
        assert(in_time == may_go(all, self.todo@, i as int));
        self.todo[i] && in_time && self.item_fits(i, token)
    }

    /// Does item `i` answer here what its client was told?
    fn item_fits(&self, i: usize, token: usize) -> (r: bool)
        requires
            self.ready(),
            i < self.items@.len(),
            canonical(items_view(self.items@), token),
        ensures
            r == fits(
                items_view(self.items@)[i as int],
                value_of(items_view(self.items@), token),
            ),
    {
        proof {
            reveal(Search::ready);
            reveal(canonical);
        }
        assert(items_view(self.items@)[i as int] == self.items@[i as int]@);
        match &self.items[i].answer {
            None => true,
            Some(a) => {
                let mut state: State = self.value(token);
                let produced = apply(&mut state, &self.items[i].command);
                produced.same(&a.1)
            },
        }
    }

    /// The value a token stands for.
    fn value(&self, token: usize) -> (r: State)
        requires
            self.ready(),
            canonical(items_view(self.items@), token),
        ensures
            crate::json::text_view(r) == value_of(items_view(self.items@), token),
    {
        proof {
            reveal(Search::ready);
            reveal(canonical);
        }
        if token == 0 {
            None
        } else {
            assert(items_view(self.items@)[token - 1] == self.items@[token - 1]@);
            match written_text(&self.items[token - 1]) {
                Some(s) => Some(s.clone()),
                None => None,
            }
        }
    }

    /// The value after item `i`.
    fn token_after(&self, i: usize, token: usize) -> (r: usize)
        requires
            self.ready(),
            i < self.items@.len(),
            canonical(items_view(self.items@), token),
        ensures
            canonical(items_view(self.items@), r),
            value_of(items_view(self.items@), r) == value_after(
                value_of(items_view(self.items@), token),
                items_view(self.items@)[i as int].command,
            ),
    {
        proof {
            reveal(Search::ready);
            reveal(canonical);
        }
        let ghost all = items_view(self.items@);
        assert(all[i as int] == self.items@[i as int]@);
        match &self.items[i].command {
            KvCommand::Get { key: _ } => token,
            KvCommand::Put { key: _, value: _ } => self.tokens[i],
            KvCommand::Delete { key: _ } => 0,
            KvCommand::Cas { key: _, expect, value: _ } => {
                let state: State = self.value(token);
                if crate::kv::same_text(&state, expect) {
                    self.tokens[i]
                } else {
                    token
                }
            },
        }
    }

    /// Place item `i` next, and then what is left.
    fn place(&mut self, i: usize, token: usize, key: u128) -> (r: Option<bool>)
        requires
            old(self).ready(),
            canonical(items_view(old(self).items@), token),
            key == number(old(self).todo@),
            i < old(self).items@.len(),
            old(self).todo@[i as int],
        ensures
            final(self).ready(),
            final(self).same_frame(old(self)),
            (final(self).view(), r) == explore(
                items_view(old(self).items@),
                old(self).budget,
                old(self).view(),
                old(self).order@.push(i),
                value_after(
                    value_of(items_view(old(self).items@), token),
                    items_view(old(self).items@)[i as int].command,
                ),
                old(self).todo@.update(i as int, false),
            ),
        decreases left(old(self).todo@, old(self).todo@.len() as int), 0int,
    {
        proof {
            reveal(Search::ready);
            reveal(canonical);
        }
        let ghost todo = self.todo@;
        let ghost order = self.order@;
        proof {
            lemma_left(todo, todo.len() as int, i as int);
            lemma_number_update(todo, i as int);
            assert(todo.update(i as int, true) =~= todo);
            lemma_number_bound(todo.update(i as int, false));
        }
        let next: usize = self.token_after(i, token);
        let less: u128 = key - self.powers[i];
        self.order.push(i);
        self.todo.set(i, false);
        let r = self.step(next, less);
        self.todo.set(i, true);
        let _ = self.order.pop();
        proof {
            assert(self.todo@ =~= todo);
            assert(self.order@ =~= order);
        }
        r
    }

    /// Place what is left. `None` means the budget ran out.
    fn step(&mut self, token: usize, key: u128) -> (r: Option<bool>)
        requires
            old(self).ready(),
            canonical(items_view(old(self).items@), token),
            key == number(old(self).todo@),
        ensures
            final(self).ready(),
            final(self).same_frame(old(self)),
            (final(self).view(), r) == explore(
                items_view(old(self).items@),
                old(self).budget,
                old(self).view(),
                old(self).order@,
                value_of(items_view(old(self).items@), token),
                old(self).todo@,
            ),
        decreases left(old(self).todo@, old(self).todo@.len() as int), 1int,
    {
        let ghost all = items_view(self.items@);
        let ghost todo = self.todo@;
        let ghost order = self.order@;
        let ghost state = value_of(all, token);
        let ghost v0 = self.view();
        let ghost want = explore(all, self.budget, v0, order, state, todo);
        proof {
            reveal(Search::ready);
        }
        let used: u64 = self.steps;
        self.steps = used.saturating_add(1);
        if used >= self.budget {
            return None;
        }
        if self.is_finished() {
            return Some(true);
        }
        proof {
            lemma_memory(all, self.seen@, token, todo);
        }
        if !self.seen.insert((token, key)) {
            assert(self.view() =~= (SearchView { steps: self.steps, ..v0 }));
            return Some(false);
        }
        if self.order.len() > self.best.len() {
            self.best = copy_places(&self.order);
        }
        let limit = self.earliest_answer();
        let n: usize = self.items.len();
        let mut i: usize = 0;
        while i < n
            invariant
                i <= n == self.items@.len(),
                self.ready(),
                self.same_frame(old(self)),
                all == items_view(self.items@),
                todo == self.todo@,
                todo.len() == n,
                order == self.order@,
                canonical(all, token),
                state == value_of(all, token),
                key == number(todo),
                todo == old(self).todo@,
                is_limit(all, todo, limit),
                order == old(self).order@,
                want == explore(all, old(self).budget, old(self).view(), order, state, todo),
                want == attempt(all, self.budget, self.view(), order, state, todo, i as int),
            decreases n - i,
        {
            if self.can_go(i, token, limit) {
                let r = self.place(i, token, key);
                match r {
                    Some(done) => {
                        if done {
                            return Some(true);
                        }
                    },
                    None => {
                        return None;
                    },
                }
            }
            i = i + 1;
        }
        Some(false)
    }

    fn run(&mut self) -> (r: Option<bool>)
        requires
            old(self).ready(),
            old(self).view() == fresh_search(),
            old(self).order@ == Seq::<usize>::empty(),
            old(self).todo@ == everything(old(self).items@.len()),
        ensures
            final(self).ready(),
            final(self).same_frame(old(self)),
            (final(self).view(), r) == searched(items_view(old(self).items@), old(self).budget),
    {
        proof {
            reveal(Search::ready);
            reveal(canonical);
        }
        let mut key: u128 = 0;
        let mut i: usize = 0;
        let n: usize = self.items.len();
        let ghost mut so_far = Seq::new(n as nat, |k: int| false);
        proof {
            lemma_nothing(so_far);
            lemma_power_fits();
            lemma_power_grows(n as nat, 128);
        }
        while i < n
            invariant
                *self == *old(self),
                self.ready(),
                i <= n == self.items@.len(),
                power(n as nat) <= u128::MAX + 1,
                so_far == Seq::new(n as nat, |k: int| k < i),
                key == number(so_far),
            decreases n - i,
        {
            proof {
                reveal(Search::ready);
                let more = so_far.update(i as int, true);
                lemma_number_update(so_far, i as int);
                assert(so_far.update(i as int, false) =~= so_far);
                lemma_number_bound(more);
                so_far = more;
                assert(so_far =~= Seq::new(n as nat, |k: int| k < i + 1));
            }
            key = key + self.powers[i];
            i = i + 1;
        }
        assert(so_far =~= everything(n as nat));
        self.step(0, key)
    }
}

/// Nothing is the number zero.
proof fn lemma_nothing(todo: Seq<bool>)
    requires
        forall|i: int| 0 <= i < todo.len() ==> !(#[trigger] todo[i]),
    ensures
        number(todo) == 0,
    decreases todo.len(),
{
    if todo.len() > 0 {
        let rest = todo.skip(1);
        assert forall|i: int| 0 <= i < rest.len() implies !(#[trigger] rest[i]) by {
            assert(rest[i] == todo[i + 1]);
        }
        lemma_nothing(rest);
    }
}

fn copy_places(places: &Vec<usize>) -> (r: Vec<usize>)
    ensures
        r@ == places@,
{
    let r = places.clone();
    assert(r@ =~= places@);
    r
}

// ---------------------------------------------------------------------------
// Explanations
// ---------------------------------------------------------------------------

/// Why no valid ordering exists: the sub-history, the longest prefix that *did*
/// work, the state it reached, and what each remaining candidate would have had
/// to return.
#[derive(Debug, PartialEq, Eq)]
pub struct Explanation {
    pub key: String,
    pub operations: Vec<String>,
    pub linearized: Vec<String>,
    pub state_after: Option<String>,
    pub blocked: Vec<Blocked>,
}

#[derive(Debug, PartialEq, Eq)]
pub struct Blocked {
    pub operation: String,
    pub expected: String,
    pub observed: String,
}

pub struct BlockedView {
    pub operation: Seq<char>,
    pub expected: Seq<char>,
    pub observed: Seq<char>,
}

#[verifier::ext_equal]
pub struct ExplanationView {
    pub key: Seq<char>,
    pub operations: Seq<Seq<char>>,
    pub linearized: Seq<Seq<char>>,
    pub state_after: Option<Seq<char>>,
    pub blocked: Seq<BlockedView>,
}

impl View for Blocked {
    type V = BlockedView;

    open spec fn view(&self) -> BlockedView {
        BlockedView {
            operation: self.operation@,
            expected: self.expected@,
            observed: self.observed@,
        }
    }
}

pub open spec fn blocked_view(s: Seq<Blocked>) -> Seq<BlockedView> {
    Seq::new(s.len(), |i: int| s[i]@)
}

impl View for Explanation {
    type V = ExplanationView;

    open spec fn view(&self) -> ExplanationView {
        ExplanationView {
            key: self.key@,
            operations: crate::invariants::texts_view(self.operations@),
            linearized: crate::invariants::texts_view(self.linearized@),
            state_after: crate::json::text_view(self.state_after),
            blocked: blocked_view(self.blocked@),
        }
    }
}

/// Lines, each indented, each ended.
pub open spec fn lines(out: Seq<char>, texts: Seq<Seq<char>>, n: int) -> Seq<char>
    decreases n,
{
    if n <= 0 {
        out
    } else {
        lines(out, texts, n - 1) + "    "@ + texts[n - 1] + "\n"@
    }
}

pub open spec fn blocked_lines(out: Seq<char>, blocked: Seq<BlockedView>, n: int) -> Seq<char>
    decreases n,
{
    if n <= 0 {
        out
    } else {
        let b = blocked[n - 1];
        blocked_lines(out, blocked, n - 1) + "    "@ + b.operation + "\n      would return "@
            + b.expected + ", but the client observed "@ + b.observed + "\n"@
    }
}

impl ExplanationView {
    pub open spec fn report(self) -> Seq<char> {
        let head = Seq::<char>::empty() + "no sequential ordering of the operations on key \""@
            + self.key + "\" can explain what clients saw.\n"@
            + "\n  the operations, by invocation time:\n"@;
        let listed = lines(head, self.operations, self.operations.len() as int)
            + "\n  the longest ordering that works ("@ + crate::text::decimal(
            self.linearized.len(),
        ) + " of "@ + crate::text::decimal(self.operations.len()) + " operations):\n"@;
        let none = if self.linearized.len() == 0 {
            listed + "    (none — the very first operation is already impossible)\n"@
        } else {
            listed
        };
        let ordered = lines(none, self.linearized, self.linearized.len() as int)
            + "  leaving the value as "@ + (match self.state_after {
            Some(v) => v,
            None => "nil"@,
        }) + "\n"@
            + "\n  from there every operation that could legally come next disagrees:\n"@;
        blocked_lines(ordered, self.blocked, self.blocked.len() as int)
    }
}

fn push_lines(out: &mut String, texts: &Vec<String>)
    ensures
        final(out)@ == lines(
            old(out)@,
            crate::invariants::texts_view(texts@),
            texts@.len() as int,
        ),
{
    let ghost start = out@;
    let ghost all = crate::invariants::texts_view(texts@);
    let mut i: usize = 0;
    while i < texts.len()
        invariant
            i <= texts@.len(),
            all == crate::invariants::texts_view(texts@),
            out@ == lines(start, all, i as int),
        decreases texts@.len() - i,
    {
        assert(all[i as int] == texts@[i as int]@);
        out.append("    ");
        out.append(texts[i].as_str());
        out.append("\n");
        i = i + 1;
    }
}

fn push_blocked(out: &mut String, blocked: &Vec<Blocked>)
    ensures
        final(out)@ == blocked_lines(old(out)@, blocked_view(blocked@), blocked@.len() as int),
{
    let ghost start = out@;
    let ghost all = blocked_view(blocked@);
    let mut i: usize = 0;
    while i < blocked.len()
        invariant
            i <= blocked@.len(),
            all == blocked_view(blocked@),
            out@ == blocked_lines(start, all, i as int),
        decreases blocked@.len() - i,
    {
        assert(all[i as int] == blocked@[i as int]@);
        out.append("    ");
        out.append(blocked[i].operation.as_str());
        out.append("\n      would return ");
        out.append(blocked[i].expected.as_str());
        out.append(", but the client observed ");
        out.append(blocked[i].observed.as_str());
        out.append("\n");
        i = i + 1;
    }
}

impl Explanation {
    /// The whole explanation, in words.
    pub fn report(&self) -> (r: String)
        ensures
            r@ == self@.report(),
    {
        let mut r = String::new();
        r.append("no sequential ordering of the operations on key \"");
        r.append(self.key.as_str());
        r.append("\" can explain what clients saw.\n");
        r.append("\n  the operations, by invocation time:\n");
        push_lines(&mut r, &self.operations);
        r.append("\n  the longest ordering that works (");
        push_decimal(&mut r, self.linearized.len() as u64);
        r.append(" of ");
        push_decimal(&mut r, self.operations.len() as u64);
        r.append(" operations):\n");
        if self.linearized.len() == 0 {
            r.append("    (none — the very first operation is already impossible)\n");
        }
        push_lines(&mut r, &self.linearized);
        r.append("  leaving the value as ");
        match &self.state_after {
            Some(v) => r.append(v.as_str()),
            None => r.append("nil"),
        }
        r.append("\n");
        r.append("\n  from there every operation that could legally come next disagrees:\n");
        push_blocked(&mut r, &self.blocked);
        r
    }
}

/// What these items say, in this order.
pub open spec fn descriptions(items: Seq<ItemView>, order: Seq<usize>) -> Seq<Seq<char>> {
    Seq::new(order.len(), |k: int| items[order[k] as int].describe)
}

/// What is left once the first `n` of `order` are placed.
pub open spec fn without(todo: Seq<bool>, order: Seq<usize>, n: int) -> Seq<bool>
    decreases n,
{
    if n <= 0 {
        todo
    } else {
        without(todo, order, n - 1).update(order[n - 1] as int, false)
    }
}

/// What every legal next operation among the first `n` would have had to
/// return.
pub open spec fn blocked_in(
    items: Seq<ItemView>,
    todo: Seq<bool>,
    state: Option<Seq<char>>,
    n: int,
) -> Seq<BlockedView>
    decreases n,
{
    if n <= 0 {
        Seq::empty()
    } else {
        let before = blocked_in(items, todo, state, n - 1);
        let x = items[n - 1];
        if todo[n - 1] && may_go(items, todo, n - 1) && x.answer is Some {
            before.push(
                BlockedView {
                    operation: x.describe,
                    expected: crate::history::result_words(answer_on(state, x.command)),
                    observed: crate::history::result_words((x.answer->0).1),
                },
            )
        } else {
            before
        }
    }
}

/// The explanation of a search that found nothing.
pub open spec fn explanation(
    key: Seq<char>,
    items: Seq<ItemView>,
    best: Seq<usize>,
) -> ExplanationView {
    let state = value_through(items, None, best, best.len() as int);
    let todo = without(everything(items.len()), best, best.len() as int);
    ExplanationView {
        key,
        operations: Seq::new(items.len(), |i: int| items[i].describe),
        linearized: descriptions(items, best),
        state_after: state,
        blocked: blocked_in(items, todo, state, items.len() as int),
    }
}

/// What the best order is made of: places of items.
proof fn lemma_best_in_range(
    items: Seq<ItemView>,
    budget: u64,
    v: SearchView,
    order: Seq<usize>,
    state: Option<Seq<char>>,
    todo: Seq<bool>,
)
    requires
        items.len() <= usize::MAX,
        todo.len() == items.len(),
        in_range(items, v.best),
        in_range(items, order),
    ensures
        in_range(items, explore(items, budget, v, order, state, todo).0.best),
    decreases left(todo, todo.len() as int), items.len() + 1,
{
    let counted = SearchView { steps: v.steps.saturating_add(1), ..v };
    if v.steps >= budget || finished(items, todo) || v.seen.contains((state, todo)) {
    } else {
        let started = SearchView {
            seen: v.seen.insert((state, todo)),
            best: if order.len() > v.best.len() {
                order
            } else {
                v.best
            },
            ..counted
        };
        lemma_attempt_in_range(items, budget, started, order, state, todo, 0);
    }
}

pub open spec fn in_range(items: Seq<ItemView>, order: Seq<usize>) -> bool {
    forall|k: int| 0 <= k < order.len() ==> (#[trigger] order[k]) < items.len()
}

proof fn lemma_attempt_in_range(
    items: Seq<ItemView>,
    budget: u64,
    v: SearchView,
    order: Seq<usize>,
    state: Option<Seq<char>>,
    todo: Seq<bool>,
    i: int,
)
    requires
        items.len() <= usize::MAX,
        todo.len() == items.len(),
        0 <= i <= items.len(),
        in_range(items, v.best),
        in_range(items, order),
    ensures
        in_range(items, attempt(items, budget, v, order, state, todo, i).0.best),
    decreases left(todo, todo.len() as int), items.len() - i,
{
    if i >= items.len() {
    } else if !todo[i] || !may_go(items, todo, i) || !fits(items[i], state) {
        lemma_attempt_in_range(items, budget, v, order, state, todo, i + 1);
    } else {
        lemma_left(todo, todo.len() as int, i);
        let less = todo.update(i, false);
        let next = value_after(state, items[i].command);
        lemma_best_in_range(items, budget, v, order.push(i as usize), next, less);
        let (w, r) = explore(items, budget, v, order.push(i as usize), next, less);
        if r == Some(false) {
            lemma_attempt_in_range(items, budget, w, order, state, todo, i + 1);
        }
    }
}

impl<'a> Search<'a> {
    /// Replay the best prefix to recover the state it reached, and say what
    /// every legal next operation would have had to return.
    fn explain(&mut self, key: &str) -> (r: Explanation)
        requires
            old(self).ready(),
            old(self).todo@ == everything(old(self).items@.len()),
            in_range(items_view(old(self).items@), old(self).best@),
        ensures
            r@ == explanation(key@, items_view(old(self).items@), old(self).best@),
    {
        proof {
            reveal(Search::ready);
        }
        let ghost all = items_view(self.items@);
        let ghost best = self.best@;
        let mut state: State = None;
        let mut linearized: Vec<String> = Vec::new();
        let mut k: usize = 0;
        while k < self.best.len()
            invariant
                self.ready(),
                k <= best.len(),
                best == self.best@,
                all == items_view(self.items@),
                self.items == old(self).items,
                in_range(all, best),
                self.todo@ == without(everything(all.len()), best, k as int),
                crate::json::text_view(state) == value_through(all, None, best, k as int),
                linearized@.len() == k,
                forall|j: int|
                    0 <= j < k ==> (#[trigger] linearized@[j])@ == all[best[j] as int].describe,
            decreases best.len() - k,
        {
            proof {
                reveal(Search::ready);
            }
            let i: usize = self.best[k];
            assert(i < all.len());
            assert(all[i as int] == self.items@[i as int]@);
            let _ = apply(&mut state, &self.items[i].command);
            self.todo.set(i, false);
            linearized.push(self.items[i].describe.clone());
            k = k + 1;
        }
        let limit = self.earliest_answer();
        let ghost todo = self.todo@;
        let ghost reached = crate::json::text_view(state);
        let mut blocked: Vec<Blocked> = Vec::new();
        let mut operations: Vec<String> = Vec::new();
        let mut i: usize = 0;
        assert(blocked_view(blocked@) =~= Seq::empty());
        while i < self.items.len()
            invariant
                self.ready(),
                i <= self.items@.len(),
                all == items_view(self.items@),
                todo == self.todo@,
                is_limit(all, todo, limit),
                reached == crate::json::text_view(state),
                blocked_view(blocked@) == blocked_in(all, todo, reached, i as int),
                operations@.len() == i,
                forall|j: int| 0 <= j < i ==> (#[trigger] operations@[j])@ == all[j].describe,
            decreases self.items@.len() - i,
        {
            proof {
                reveal(Search::ready);
                reveal(is_limit);
            }
            assert(all[i as int] == self.items@[i as int]@);
            operations.push(self.items[i].describe.clone());
            let in_time = match limit {
                Some(l) => self.items[i].invoke <= l,
                None => true,
            };
            assert(in_time == may_go(all, todo, i as int));
            if self.todo[i] && in_time {
                match &self.items[i].answer {
                    Some(a) => {
                        let mut probe: State = crate::kv::copy_text(&state);
                        let produced = apply(&mut probe, &self.items[i].command);
                        let ghost before = blocked@;
                        let b = Blocked {
                            operation: self.items[i].describe.clone(),
                            expected: show(&produced),
                            observed: show(&a.1),
                        };
                        let ghost bv = b@;
                        blocked.push(b);
                        assert(blocked_view(blocked@) =~= blocked_view(before).push(bv));
                    },
                    None => {},
                }
            }
            i = i + 1;
        }
        let r = Explanation {
            key: key.to_owned(),
            operations,
            linearized,
            state_after: state,
            blocked,
        };
        assert(r@ =~= explanation(key@, all, best));
        r
    }
}

// ---------------------------------------------------------------------------
// Verdicts
// ---------------------------------------------------------------------------

#[derive(Debug, PartialEq, Eq)]
pub enum Verdict {
    Linearizable { keys: usize, operations: usize },
    NotLinearizable(Box<Explanation>),
    /// The search could not decide. Says why, and never pretends otherwise.
    Unknown { reason: String },
}

pub enum VerdictView {
    Linearizable { keys: usize, operations: usize },
    NotLinearizable(ExplanationView),
    Unknown { reason: Seq<char> },
}

impl View for Verdict {
    type V = VerdictView;

    open spec fn view(&self) -> VerdictView {
        match *self {
            Verdict::Linearizable { keys, operations } => VerdictView::Linearizable {
                keys,
                operations,
            },
            Verdict::NotLinearizable(e) => VerdictView::NotLinearizable(e@),
            Verdict::Unknown { reason } => VerdictView::Unknown { reason: reason@ },
        }
    }
}

impl Verdict {
    pub fn is_linearizable(&self) -> (r: bool)
        ensures
            r == (self@ is Linearizable),
    {
        match self {
            Verdict::Linearizable { keys: _, operations: _ } => true,
            _ => false,
        }
    }

    pub fn is_violation(&self) -> (r: bool)
        ensures
            r == (self@ is NotLinearizable),
    {
        match self {
            Verdict::NotLinearizable(_) => true,
            _ => false,
        }
    }

    pub fn is_unknown(&self) -> (r: bool)
        ensures
            r == (self@ is Unknown),
    {
        match self {
            Verdict::Unknown { reason: _ } => true,
            _ => false,
        }
    }
}

/// The first operation, from `i` on, with an answer that its command cannot
/// give.
pub open spec fn impossible_from(ops: Seq<OpView>, i: int) -> Option<int>
    decreases ops.len() - i,
{
    if i < 0 || i >= ops.len() {
        None
    } else {
        match ops[i].outcome {
            OutcomeView::Completed { at, result } if !possible(ops[i].command, result) => Some(i),
            _ => impossible_from(ops, i + 1),
        }
    }
}

/// The explanation of an answer that no state could have produced.
pub open spec fn mismatch(key: Seq<char>, ops: Seq<OpView>, i: int) -> ExplanationView {
    ExplanationView {
        key,
        operations: Seq::new(ops.len(), |k: int| ops[k].describe()),
        linearized: Seq::empty(),
        state_after: None,
        blocked: seq![
            BlockedView {
                operation: ops[i].describe(),
                expected: "a result this command can produce"@,
                observed: crate::history::result_words(ops[i].result()->0),
            },
        ],
    }
}

/// What is known of an item before tick `bound`: later answers are not in yet.
pub open spec fn known_by(x: ItemView, bound: u64) -> ItemView {
    match x.answer {
        Some(a) if a.0 >= bound => ItemView { answer: None, ..x },
        _ => x,
    }
}

/// The first `n` items as they were known before tick `bound`.
pub open spec fn prefix_at(items: Seq<ItemView>, n: nat, bound: u64) -> Seq<ItemView> {
    Seq::new(n, |i: int| known_by(items[i], bound))
}

/// A read that observed nothing.
pub open spec fn unobserved(x: ItemView) -> bool {
    x.answer is None && x.command.is_read_only()
}

/// The items without the unobserved reads among the first `n`.
pub open spec fn observed(items: Seq<ItemView>, n: int) -> Seq<ItemView>
    decreases n,
{
    if n <= 0 || n > items.len() {
        items
    } else if unobserved(items[n - 1]) {
        observed(items.remove(n - 1), n - 1)
    } else {
        observed(items, n - 1)
    }
}

/// Over the cap, only a prefix is searched: the history as it was when the first
/// operation over the cap was invoked.
pub open spec fn window(items: Seq<ItemView>) -> Seq<ItemView> {
    if items.len() > MAX_OPS_PER_KEY {
        observed(
            prefix_at(items, MAX_OPS_PER_KEY as nat, items[MAX_OPS_PER_KEY as int].invoke),
            MAX_OPS_PER_KEY as int,
        )
    } else {
        items
    }
}

/// How many items are searched, the unobserved reads counted too.
pub open spec fn within_the_cap(n: nat) -> nat {
    if n > MAX_OPS_PER_KEY {
        MAX_OPS_PER_KEY as nat
    } else {
        n
    }
}

proof fn lemma_observed_len(items: Seq<ItemView>, n: int)
    requires
        0 <= n <= items.len(),
    ensures
        observed(items, n).len() <= items.len(),
    decreases n,
{
    if n > 0 {
        if unobserved(items[n - 1]) {
            lemma_observed_len(items.remove(n - 1), n - 1);
        } else {
            lemma_observed_len(items, n - 1);
        }
    }
}

pub open spec fn over_the_cap(key: Seq<char>, n: nat) -> Seq<char> {
    Seq::<char>::empty() + "key \""@ + key + "\" has "@ + crate::text::decimal(n)
        + " operations, over the cap of 128; only the first 128 were checked and they are consistent"@
}

pub open spec fn exhausted(key: Seq<char>, steps: u64, n: nat) -> Seq<char> {
    Seq::<char>::empty() + "search budget exhausted on key \""@ + key + "\" after "@
        + crate::text::decimal(steps as nat) + " steps ("@ + crate::text::decimal(n)
        + " operations); could not determine"@
}

/// How far the check has come.
pub struct Tally {
    pub keys: usize,
    pub operations: usize,
    pub unknown: Option<Seq<char>>,
    pub budget: u64,
    /// Set as soon as the verdict is known.
    pub verdict: Option<VerdictView>,
}

impl Tally {
    pub open spec fn start(budget: u64) -> Tally {
        Tally { keys: 0, operations: 0, unknown: None, budget, verdict: None }
    }

    /// One key's operations taken into account.
    pub open spec fn with_key(self, key: Seq<char>, ops: Seq<OpView>) -> Tally {
        let items = items_of(ops);
        let part = window(items);
        let (v, r) = searched(part, self.budget);
        if self.verdict is Some {
            self
        } else if impossible_from(ops, 0) is Some {
            Tally {
                verdict: Some(
                    VerdictView::NotLinearizable(mismatch(key, ops, impossible_from(ops, 0)->0)),
                ),
                ..self
            }
        } else if items.len() == 0 {
            self
        } else if r == Some(true) {
            Tally {
                keys: self.keys.saturating_add(1),
                operations: self.operations.saturating_add(within_the_cap(items.len()) as usize),
                unknown: if items.len() > MAX_OPS_PER_KEY && self.unknown is None {
                    Some(over_the_cap(key, items.len()))
                } else {
                    self.unknown
                },
                budget: self.budget.saturating_sub(v.steps),
                ..self
            }
        } else if r == Some(false) {
            Tally {
                verdict: Some(VerdictView::NotLinearizable(explanation(key, part, v.best))),
                ..self
            }
        } else {
            Tally {
                verdict: Some(
                    VerdictView::Unknown {
                        reason: exhausted(key, v.steps, within_the_cap(items.len())),
                    },
                ),
                ..self
            }
        }
    }

    /// The verdict once every key is taken into account.
    pub open spec fn conclusion(self) -> VerdictView {
        match self.verdict {
            Some(v) => v,
            None => match self.unknown {
                Some(reason) => VerdictView::Unknown { reason },
                None => VerdictView::Linearizable {
                    keys: self.keys,
                    operations: self.operations,
                },
            },
        }
    }
}

/// The check after the first `n` of these keys.
pub open spec fn tally(h: HistoryView, keys: Seq<Seq<char>>, n: int, budget: u64) -> Tally
    decreases n,
{
    if n <= 0 {
        Tally::start(budget)
    } else {
        tally(h, keys, n - 1, budget).with_key(keys[n - 1], h.on_key(keys[n - 1]))
    }
}

/// What the check says of a history.
pub open spec fn verdict_on(h: HistoryView, budget: u64) -> VerdictView {
    let keys = crate::kvmap::keys_in_order(h.keys());
    tally(h, keys, keys.len() as int, budget).conclusion()
}

/// The first operation with an answer that its command cannot give.
fn first_impossible(ops: &Vec<&Operation>) -> (r: Option<usize>)
    ensures
        r is Some == impossible_from(crate::history::refs_view(ops@), 0) is Some,
        r matches Some(i) ==> i < ops@.len() && impossible_from(
            crate::history::refs_view(ops@),
            0,
        ) == Some(i as int),
{
    let ghost all = crate::history::refs_view(ops@);
    let mut i: usize = 0;
    while i < ops.len()
        invariant
            i <= ops@.len(),
            all == crate::history::refs_view(ops@),
            impossible_from(all, 0) == impossible_from(all, i as int),
        decreases ops@.len() - i,
    {
        assert(all[i as int] == ops@[i as int]@);
        match &ops[i].outcome {
            Outcome::Completed { at: _, result } => {
                if !result_is_possible(&ops[i].command, result) {
                    return Some(i);
                }
            },
            _ => {},
        }
        i = i + 1;
    }
    None
}

fn mismatch_of(key: &str, ops: &Vec<&Operation>, i: usize) -> (r: Explanation)
    requires
        i < ops@.len(),
        ops@[i as int]@.outcome is Completed,
    ensures
        r@ == mismatch(key@, crate::history::refs_view(ops@), i as int),
{
    let ghost all = crate::history::refs_view(ops@);
    let mut operations: Vec<String> = Vec::new();
    let mut k: usize = 0;
    while k < ops.len()
        invariant
            k <= ops@.len(),
            all == crate::history::refs_view(ops@),
            operations@.len() == k,
            forall|j: int| 0 <= j < k ==> (#[trigger] operations@[j])@ == all[j].describe(),
        decreases ops@.len() - k,
    {
        operations.push(ops[k].describe());
        k = k + 1;
    }
    let observed = match &ops[i].outcome {
        Outcome::Completed { at: _, result } => show(result),
        _ => String::new(),
    };
    let mut blocked: Vec<Blocked> = Vec::new();
    blocked.push(
        Blocked {
            operation: ops[i].describe(),
            expected: "a result this command can produce".to_owned(),
            observed,
        },
    );
    let r = Explanation {
        key: key.to_owned(),
        operations,
        linearized: Vec::new(),
        state_after: None,
        blocked,
    };
    assert(all[i as int] == ops@[i as int]@);
    assert(r@ =~= mismatch(key@, all, i as int));
    r
}

fn over_the_cap_text(key: &str, n: usize) -> (r: String)
    ensures
        r@ == over_the_cap(key@, n as nat),
{
    let mut r = String::new();
    r.append("key \"");
    r.append(key);
    r.append("\" has ");
    push_decimal(&mut r, n as u64);
    r.append(
        " operations, over the cap of 128; only the first 128 were checked and they are consistent",
    );
    r
}

fn exhausted_text(key: &str, steps: u64, n: usize) -> (r: String)
    ensures
        r@ == exhausted(key@, steps, n as nat),
{
    let mut r = String::new();
    r.append("search budget exhausted on key \"");
    r.append(key);
    r.append("\" after ");
    push_decimal(&mut r, steps);
    r.append(" steps (");
    push_decimal(&mut r, n as u64);
    r.append(" operations); could not determine");
    r
}

/// The part of a key's items that is searched.
fn searchable(items: Vec<Item>) -> (r: Vec<Item>)
    ensures
        items_view(r@) == window(items_view(items@)),
        r@.len() <= MAX_OPS_PER_KEY,
{
    let mut r = items;
    let ghost all = items_view(r@);
    if r.len() <= MAX_OPS_PER_KEY {
        return r;
    }
    let bound: u64 = r[MAX_OPS_PER_KEY].invoke;
    assert(all[MAX_OPS_PER_KEY as int] == r@[MAX_OPS_PER_KEY as int]@);
    r.truncate(MAX_OPS_PER_KEY);
    let ghost cut = prefix_at(all, MAX_OPS_PER_KEY as nat, bound);
    let mut i: usize = 0;
    while i < r.len()
        invariant
            i <= r@.len() == MAX_OPS_PER_KEY,
            cut == prefix_at(all, MAX_OPS_PER_KEY as nat, bound),
            forall|k: int| 0 <= k < i ==> (#[trigger] r@[k])@ == cut[k],
            forall|k: int| i <= k < r@.len() ==> (#[trigger] r@[k])@ == all[k],
        decreases r@.len() - i,
    {
        let ghost before = r@;
        let mut x = r.remove(i);
        let late = match &x.answer {
            Some(a) => a.0 >= bound,
            None => false,
        };
        if late {
            x.answer = None;
        }
        assert(x@ == known_by(before[i as int]@, bound));
        let ghost xs = x@;
        r.insert(i, x);
        assert forall|k: int| i + 1 <= k < r@.len() implies (#[trigger] r@[k])@ == all[k] by {
            assert(r@[k] == before[k]);
        }
        assert forall|k: int| 0 <= k < i + 1 implies (#[trigger] r@[k])@ == cut[k] by {
            if k < i {
                assert(r@[k] == before[k]);
            }
        }
        i = i + 1;
    }
    assert(items_view(r@) =~= cut);
    proof {
        lemma_observed_len(cut, MAX_OPS_PER_KEY as int);
    }
    while i > 0
        invariant
            i <= r@.len(),
            observed(cut, MAX_OPS_PER_KEY as int) == observed(items_view(r@), i as int),
        decreases i,
    {
        i = i - 1;
        let ghost before = items_view(r@);
        assert(before[i as int] == r@[i as int]@);
        if r[i].answer.is_none() && r[i].command.is_read_only() {
            let _ = r.remove(i);
            assert(items_view(r@) =~= before.remove(i as int));
        }
    }
    r
}

/// The check under way.
struct Progress {
    keys: usize,
    operations: usize,
    unknown: Option<String>,
    budget: u64,
    verdict: Option<Verdict>,
}

impl Progress {
    spec fn view(&self) -> Tally {
        Tally {
            keys: self.keys,
            operations: self.operations,
            unknown: crate::json::text_view(self.unknown),
            budget: self.budget,
            verdict: match self.verdict {
                Some(v) => Some(v@),
                None => None,
            },
        }
    }

    fn with_key(&mut self, key: &str, ops: &Vec<&Operation>)
        ensures
            final(self)@ == old(self)@.with_key(key@, crate::history::refs_view(ops@)),
    {
        if self.verdict.is_some() {
            return;
        }
        let ghost all = crate::history::refs_view(ops@);
        match first_impossible(ops) {
            Some(i) => {
                proof {
                    lemma_impossible(all, 0);
                    assert(all[i as int] == ops@[i as int]@);
                }
                self.verdict = Some(Verdict::NotLinearizable(Box::new(mismatch_of(key, ops, i))));
                return;
            },
            None => {},
        }
        let items = prepare(ops);
        let n: usize = items.len();
        if n == 0 {
            return;
        }
        // Over the cap, check a prefix instead. Linearizability is prefix-closed,
        // so a violation in a prefix is a real violation of the whole; but a
        // clean prefix says nothing about the rest, which is why the verdict
        // below is Unknown rather than Linearizable.
        let truncated = n > MAX_OPS_PER_KEY;
        let checked: usize = if truncated {
            MAX_OPS_PER_KEY
        } else {
            n
        };
        let kept = searchable(items);
        let part: &[Item] = kept.as_slice();
        assert(items_view(part@) == window(items_of(all)));
        let mut search = Search::new(part, self.budget);
        let r = search.run();
        proof {
            lemma_best_in_range(
                items_view(part@),
                self.budget,
                fresh_search(),
                Seq::empty(),
                None,
                everything(part@.len()),
            );
        }
        match r {
            Some(found) => {
                if found {
                    self.budget = self.budget.saturating_sub(search.steps);
                    self.keys = self.keys.saturating_add(1);
                    self.operations = self.operations.saturating_add(checked);
                    if truncated && self.unknown.is_none() {
                        self.unknown = Some(over_the_cap_text(key, n));
                    }
                } else {
                    self.verdict = Some(Verdict::NotLinearizable(Box::new(search.explain(key))));
                }
            },
            None => {
                self.verdict = Some(
                    Verdict::Unknown { reason: exhausted_text(key, search.steps, checked) },
                );
            },
        }
    }
}

proof fn lemma_impossible(ops: Seq<OpView>, i: int)
    requires
        0 <= i,
    ensures
        impossible_from(ops, i) matches Some(k) ==> i <= k < ops.len() && (
        ops[k].outcome matches OutcomeView::Completed { at, result } && !possible(
            ops[k].command,
            result,
        )),
    decreases ops.len() - i,
{
    if i < ops.len() {
        lemma_impossible(ops, i + 1);
    }
}

/// Check a whole history.
pub fn check(history: &History) -> (r: Verdict)
    ensures
        r@ == verdict_on(history@, DEFAULT_BUDGET),
{
    check_with_budget(history, DEFAULT_BUDGET)
}

pub fn check_with_budget(history: &History, budget: u64) -> (r: Verdict)
    ensures
        r@ == verdict_on(history@, budget),
{
    let groups = history.by_key();
    let ghost keys = crate::kvmap::keys_in_order(history@.keys());
    let mut progress = Progress {
        keys: 0,
        operations: 0,
        unknown: None,
        budget,
        verdict: None,
    };
    let mut i: usize = 0;
    while i < groups.len() && progress.verdict.is_none()
        invariant
            i <= groups@.len() == keys.len(),
            keys == crate::kvmap::keys_in_order(history@.keys()),
            forall|k: int|
                0 <= k < groups@.len() ==> (#[trigger] groups@[k]).0@ == keys[k]
                    && crate::history::refs_view(groups@[k].1@) == history@.on_key(groups@[k].0@),
            progress@ == tally(history@, keys, i as int, budget),
        decreases groups@.len() - i,
    {
        assert(groups@[i as int].0@ == keys[i as int]);
        progress.with_key(groups[i].0.as_str(), &groups[i].1);
        i = i + 1;
    }
    proof {
        if progress.verdict is Some {
            lemma_tally_settled(history@, keys, i as int, keys.len() as int, budget);
        }
    }
    match progress.verdict {
        Some(v) => v,
        None => match progress.unknown {
            Some(reason) => Verdict::Unknown { reason },
            None => Verdict::Linearizable {
                keys: progress.keys,
                operations: progress.operations,
            },
        },
    }
}

proof fn lemma_tally_settled(h: HistoryView, keys: Seq<Seq<char>>, n: int, m: int, budget: u64)
    requires
        0 <= n <= m,
        tally(h, keys, n, budget).verdict is Some,
    ensures
        tally(h, keys, m, budget) == tally(h, keys, n, budget),
    decreases m,
{
    if n < m {
        lemma_tally_settled(h, keys, n, m - 1, budget);
    }
}

// ---------------------------------------------------------------------------
// The verdict is right
// ---------------------------------------------------------------------------

proof fn lemma_placed_keeps(items: Seq<ItemView>, x: ItemView)
    ensures
        placed(items, x).len() == items.len() + 1,
        placed(items, x).contains(x),
        forall|y: ItemView| #[trigger] items.contains(y) ==> placed(items, x).contains(y),
    decreases items.len(),
{
    if items.len() == 0 || not_after(items.last(), x) {
        assert(items.push(x)[items.len() as int] == x);
        assert forall|y: ItemView| #[trigger] items.contains(y) implies placed(items, x).contains(
            y,
        ) by {
            let i = choose|i: int| 0 <= i < items.len() && items[i] == y;
            assert(items.push(x)[i] == y);
        }
    } else {
        let rest = items.drop_last();
        lemma_placed_keeps(rest, x);
        let p = placed(rest, x);
        let q = p.push(items.last());
        assert(q.contains(x)) by {
            let i = choose|i: int| 0 <= i < p.len() && p[i] == x;
            assert(q[i] == x);
        }
        assert forall|y: ItemView| #[trigger] items.contains(y) implies q.contains(y) by {
            let i = choose|i: int| 0 <= i < items.len() && items[i] == y;
            if i < rest.len() {
                assert(rest[i] == y);
                assert(rest.contains(y));
                let k = choose|k: int| 0 <= k < p.len() && p[k] == y;
                assert(q[k] == y);
            } else {
                assert(q[p.len() as int] == y);
            }
        }
    }
}

proof fn lemma_prepared_keeps(ops: Seq<OpView>, n: int, k: int)
    requires
        0 <= k < n <= ops.len(),
        item_of(ops[k]) is Some,
    ensures
        prepared(ops, n).contains(item_of(ops[k])->0),
    decreases n,
{
    if item_of(ops[n - 1]) is Some {
        lemma_placed_keeps(prepared(ops, n - 1), item_of(ops[n - 1])->0);
    }
    if k < n - 1 {
        lemma_prepared_keeps(ops, n - 1, k);
    }
}

proof fn lemma_prepared_len(ops: Seq<OpView>, n: int)
    requires
        0 <= n <= ops.len(),
    ensures
        prepared(ops, n).len() <= n,
    decreases n,
{
    if n > 0 {
        lemma_prepared_len(ops, n - 1);
        if item_of(ops[n - 1]) is Some {
            lemma_placed_keeps(prepared(ops, n - 1), item_of(ops[n - 1])->0);
        }
    }
}

proof fn lemma_on_key_len(ops: Seq<OpView>, n: int, key: Seq<char>)
    requires
        0 <= n <= ops.len(),
    ensures
        crate::history::ops_on(ops, n, key).len() <= n,
    decreases n,
{
    if n > 0 {
        lemma_on_key_len(ops, n - 1, key);
    }
}

/// Finitely many operations touch finitely many keys.
pub proof fn lemma_keys_finite(ops: Seq<OpView>, n: int)
    ensures
        crate::history::keys_of(ops, n).finite(),
    decreases n,
{
    if n > 0 {
        lemma_keys_finite(ops, n - 1);
    }
}

/// An answer that no state could have produced is a violation on its own.
proof fn lemma_impossible_is_a_violation(ops: Seq<OpView>, k: int)
    requires
        ops.len() <= usize::MAX,
        0 <= k < ops.len(),
        ops[k].outcome matches OutcomeView::Completed { at, result } && !possible(
            ops[k].command,
            result,
        ),
    ensures
        !linearizable(items_of(ops)),
{
    let items = items_of(ops);
    let todo = everything(items.len());
    lemma_prepared_keeps(ops, ops.len() as int, k);
    lemma_prepared_len(ops, ops.len() as int);
    let x = item_of(ops[k])->0;
    let i = choose|i: int| 0 <= i < items.len() && items[i] == x;
    assert forall|order: Seq<usize>| !explains(items, todo, None, order) by {
        if explains(items, todo, None, order) {
            let u = i as usize;
            assert(todo[u as int]);
            assert(order.contains(u));
            let b = choose|b: int| 0 <= b < order.len() && order[b] == u;
            assert(fits(items[order[b] as int], value_through(items, None, order, b)));
        }
    }
}

/// Sorted by when they were invoked.
pub open spec fn by_invocation(items: Seq<ItemView>) -> bool {
    forall|i: int, j: int|
        0 <= i <= j < items.len() ==> (#[trigger] items[i]).invoke <= (#[trigger] items[j]).invoke
}

proof fn lemma_placed_sorted(items: Seq<ItemView>, x: ItemView)
    requires
        by_invocation(items),
    ensures
        by_invocation(placed(items, x)),
        forall|k: int|
            0 <= k < placed(items, x).len() ==> (#[trigger] placed(items, x)[k]).invoke <= x.invoke
                || (items.len() > 0 && placed(items, x)[k].invoke <= items.last().invoke),
    decreases items.len(),
{
    if items.len() == 0 || not_after(items.last(), x) {
        assert(items.len() > 0 ==> items[items.len() - 1].invoke <= x.invoke);
    } else {
        let rest = items.drop_last();
        lemma_placed_sorted(rest, x);
        if rest.len() > 0 {
            assert(rest.last() == items[items.len() - 2]);
            assert(items[items.len() - 2].invoke <= items[items.len() - 1].invoke);
        }
    }
}

proof fn lemma_prepared_sorted(ops: Seq<OpView>, n: int)
    ensures
        by_invocation(prepared(ops, n)),
    decreases n,
{
    if n > 0 {
        lemma_prepared_sorted(ops, n - 1);
        if item_of(ops[n - 1]) is Some {
            lemma_placed_sorted(prepared(ops, n - 1), item_of(ops[n - 1])->0);
        }
    }
}

/// Values only depend on the commands.
proof fn lemma_value_same(
    a: Seq<ItemView>,
    b: Seq<ItemView>,
    state: Option<Seq<char>>,
    p: Seq<usize>,
    q: Seq<usize>,
    n: int,
)
    requires
        0 <= n <= p.len(),
        n <= q.len(),
        forall|k: int| 0 <= k < n ==> a[(#[trigger] p[k]) as int].command == b[q[k] as int].command,
    ensures
        value_through(a, state, p, n) == value_through(b, state, q, n),
    decreases n,
{
    if n > 0 {
        lemma_value_same(a, b, state, p, q, n - 1);
        assert(a[p[n - 1] as int].command == b[q[n - 1] as int].command);
    }
}

/// How many come before the first that is not below `n`.
spec fn lead(order: Seq<usize>, n: nat, m: int) -> int
    decreases m,
{
    if m <= 0 {
        0
    } else {
        let before = lead(order, n, m - 1);
        if before == m - 1 && order[m - 1] < n {
            m
        } else {
            before
        }
    }
}

proof fn lemma_lead(order: Seq<usize>, n: nat, m: int)
    requires
        0 <= m <= order.len(),
    ensures
        0 <= lead(order, n, m) <= m,
        forall|k: int| 0 <= k < lead(order, n, m) ==> (#[trigger] order[k]) < n,
        lead(order, n, m) < m ==> order[lead(order, n, m)] >= n,
    decreases m,
{
    if m > 0 {
        lemma_lead(order, n, m - 1);
    }
}

/// Linearizability is prefix-closed: what holds of the whole held at any tick
/// before which nothing else was invoked.
proof fn lemma_prefix_closed(items: Seq<ItemView>, n: nat, bound: u64)
    requires
        n <= items.len() <= usize::MAX,
        forall|i: int| n <= i < items.len() ==> (#[trigger] items[i]).invoke >= bound,
        linearizable(items),
    ensures
        linearizable(prefix_at(items, n, bound)),
{
    let cut = prefix_at(items, n, bound);
    let whole = everything(items.len());
    let todo = everything(cut.len());
    let order = choose|order: Seq<usize>| explains(items, whole, None, order);
    let m = lead(order, n, order.len() as int);
    lemma_lead(order, n, order.len() as int);
    let part = order.take(m);
    assert forall|j: usize|
        0 <= j < cut.len() && #[trigger] todo[j as int] && cut[j as int].answer is Some implies part.contains(
        j,
    ) by {
        assert(whole[j as int]);
        assert(order.contains(j));
        let b = choose|b: int| 0 <= b < order.len() && order[b] == j;
        if b >= m {
            assert(!precedes(items[order[b] as int], items[order[m] as int]));
        }
        assert(part[b] == j);
    }
    assert forall|a: int, b: int| 0 <= a <= b < part.len() implies !precedes(
        cut[(#[trigger] part[b]) as int],
        cut[(#[trigger] part[a]) as int],
    ) by {
        assert(part[a] == order[a] && part[b] == order[b]);
        assert(!precedes(items[order[b] as int], items[order[a] as int]));
    }
    assert forall|k: int| 0 <= k < part.len() implies fits(
        cut[(#[trigger] part[k]) as int],
        value_through(cut, None, part, k),
    ) by {
        assert(part[k] == order[k]);
        lemma_value_same(cut, items, None, part, order, k);
        assert(fits(items[order[k] as int], value_through(items, None, order, k)));
    }
    assert(explains(cut, todo, None, part));
}

/// A place once the item at `r` is gone.
spec fn closed_up(i: usize, r: int) -> usize {
    if i > r {
        (i - 1) as usize
    } else {
        i
    }
}

spec fn all_closed_up(order: Seq<usize>, r: int) -> Seq<usize> {
    Seq::new(order.len(), |k: int| closed_up(order[k], r))
}

/// A read that observed nothing can be left out of an order.
proof fn lemma_read_left_out(items: Seq<ItemView>, order: Seq<usize>, r: int)
    requires
        items.len() <= usize::MAX,
        0 <= r < items.len(),
        unobserved(items[r]),
        explains(items, everything(items.len()), None, order),
    ensures
        exists|o: Seq<usize>|
            explains(items, everything(items.len()), None, o) && forall|k: int|
                0 <= k < o.len() ==> (#[trigger] o[k]) != r,
{
    let todo = everything(items.len());
    if exists|p: int| 0 <= p < order.len() && (#[trigger] order[p]) == r {
        let p = choose|p: int| 0 <= p < order.len() && (#[trigger] order[p]) == r;
        let o = order.remove(p);
        assert forall|k: int| 0 <= k < o.len() implies (#[trigger] o[k]) != r && 0 <= o[k]
            < items.len() && todo[o[k] as int] by {
            let q = if k < p {
                k
            } else {
                k + 1
            };
            assert(o[k] == order[q]);
            assert(order[q] != order[p]);
            assert(todo[order[q] as int]);
        }
        assert forall|a: int, b: int| 0 <= a < b < o.len() implies (#[trigger] o[a]) != (
        #[trigger] o[b]) by {
            assert(order[if a < p {
                a
            } else {
                a + 1
            }] != order[if b < p {
                b
            } else {
                b + 1
            }]);
        }
        assert forall|j: usize|
            0 <= j < items.len() && #[trigger] todo[j as int] && items[j as int].answer is Some implies o.contains(
            j,
        ) by {
            assert(order.contains(j));
            let b = choose|b: int| 0 <= b < order.len() && order[b] == j;
            assert(o[if b < p {
                b
            } else {
                b - 1
            }] == j);
        }
        assert forall|a: int, b: int| 0 <= a <= b < o.len() implies !precedes(
            items[(#[trigger] o[b]) as int],
            items[(#[trigger] o[a]) as int],
        ) by {
            assert(!precedes(
                items[order[if b < p {
                    b
                } else {
                    b + 1
                }] as int],
                items[order[if a < p {
                    a
                } else {
                    a + 1
                }] as int],
            ));
        }
        assert forall|k: int| 0 <= k < o.len() implies fits(
            items[(#[trigger] o[k]) as int],
            value_through(items, None, o, k),
        ) by {
            lemma_value_without(items, order, p, k);
            let q = if k < p {
                k
            } else {
                k + 1
            };
            assert(o[k] == order[q]);
            assert(fits(items[order[q] as int], value_through(items, None, order, q)));
        }
        assert(explains(items, todo, None, o));
    } else {
        assert forall|k: int| 0 <= k < order.len() implies (#[trigger] order[k]) != r by {}
    }
}

/// A read changes no value.
proof fn lemma_value_without(items: Seq<ItemView>, order: Seq<usize>, p: int, k: int)
    requires
        0 <= p < order.len(),
        items[order[p] as int].command.is_read_only(),
        0 <= k < order.len(),
    ensures
        value_through(items, None, order.remove(p), k) == value_through(
            items,
            None,
            order,
            if k < p {
                k
            } else {
                k + 1
            },
        ),
    decreases k,
{
    let o = order.remove(p);
    if k <= p {
        lemma_value_same(items, items, None, o, order, k);
    } else {
        lemma_value_without(items, order, p, k - 1);
        assert(o[k - 1] == order[k]);
    }
}

/// The same items in the same order, after the places have closed up.
proof fn lemma_closed_up(items: Seq<ItemView>, order: Seq<usize>, r: int)
    requires
        items.len() <= usize::MAX,
        0 <= r < items.len(),
        in_range(items, order),
        forall|k: int| 0 <= k < order.len() ==> (#[trigger] order[k]) != r,
    ensures
        forall|k: int|
            0 <= k < order.len() ==> (#[trigger] all_closed_up(order, r)[k]) < items.len() - 1
                && items.remove(r)[all_closed_up(order, r)[k] as int] == items[order[k] as int],
        forall|a: int, b: int|
            0 <= a < b < order.len() && order[a] != order[b] ==> (#[trigger] all_closed_up(
                order,
                r,
            )[a]) != (#[trigger] all_closed_up(order, r)[b]),
        forall|i: usize|
            i < items.len() && i != r && order.contains(i) ==> #[trigger] all_closed_up(
                order,
                r,
            ).contains(closed_up(i, r)),
{
    let o = all_closed_up(order, r);
    assert forall|k: int| 0 <= k < order.len() implies (#[trigger] o[k]) < items.len() - 1
        && items.remove(r)[o[k] as int] == items[order[k] as int] by {
        assert(order[k] != r && order[k] < items.len());
    }
    assert forall|a: int, b: int| 0 <= a < b < order.len() && order[a] != order[b] implies (
    #[trigger] o[a]) != (#[trigger] o[b]) by {
        assert(order[a] != r && order[b] != r);
    }
    assert forall|i: usize|
        i < items.len() && i != r && order.contains(i) implies #[trigger] o.contains(
        closed_up(i, r),
    ) by {
        let b = choose|b: int| 0 <= b < order.len() && order[b] == i;
        assert(o[b] == closed_up(i, r));
    }
}

/// Without a read that observed nothing, some order still explains what the
/// clients saw.
proof fn lemma_unobserved_read(items: Seq<ItemView>, r: int)
    requires
        items.len() <= usize::MAX,
        0 <= r < items.len(),
        unobserved(items[r]),
        linearizable(items),
    ensures
        linearizable(items.remove(r)),
{
    let whole = everything(items.len());
    let first = choose|order: Seq<usize>| explains(items, whole, None, order);
    lemma_read_left_out(items, first, r);
    let order = choose|o: Seq<usize>|
        explains(items, whole, None, o) && forall|k: int|
            0 <= k < o.len() ==> (#[trigger] o[k]) != r;
    lemma_order_closed_up(items, order, r);
}

proof fn lemma_order_closed_up(items: Seq<ItemView>, order: Seq<usize>, r: int)
    requires
        items.len() <= usize::MAX,
        0 <= r < items.len(),
        explains(items, everything(items.len()), None, order),
        forall|k: int| 0 <= k < order.len() ==> (#[trigger] order[k]) != r,
    ensures
        explains(
            items.remove(r),
            everything(items.remove(r).len()),
            None,
            all_closed_up(order, r),
        ),
{
    let whole = everything(items.len());
    let rest = items.remove(r);
    let todo = everything(rest.len());
    let o = all_closed_up(order, r);
    lemma_closed_up(items, order, r);
    assert forall|a: int, b: int| 0 <= a < b < o.len() implies (#[trigger] o[a]) != (
    #[trigger] o[b]) by {
        assert(order[a] != order[b]);
    }
    assert forall|j: usize|
        0 <= j < rest.len() && #[trigger] todo[j as int] && rest[j as int].answer is Some implies o.contains(
        j,
    ) by {
        let i: usize = if j >= r {
            (j + 1) as usize
        } else {
            j
        };
        assert(rest[j as int] == items[i as int]);
        assert(whole[i as int]);
        assert(order.contains(i));
        assert(o.contains(closed_up(i, r)));
    }
    assert forall|a: int, b: int| 0 <= a <= b < o.len() implies !precedes(
        rest[(#[trigger] o[b]) as int],
        rest[(#[trigger] o[a]) as int],
    ) by {
        assert(!precedes(items[order[b] as int], items[order[a] as int]));
    }
    assert forall|k: int| 0 <= k < o.len() implies fits(
        rest[(#[trigger] o[k]) as int],
        value_through(rest, None, o, k),
    ) by {
        lemma_value_same(rest, items, None, o, order, k);
        assert(fits(items[order[k] as int], value_through(items, None, order, k)));
    }
}

proof fn lemma_observed(items: Seq<ItemView>, n: int)
    requires
        items.len() <= usize::MAX,
        linearizable(items),
    ensures
        linearizable(observed(items, n)),
    decreases n,
{
    if 0 < n <= items.len() {
        if unobserved(items[n - 1]) {
            lemma_unobserved_read(items, n - 1);
            lemma_observed(items.remove(n - 1), n - 1);
        } else {
            lemma_observed(items, n - 1);
        }
    }
}

/// A violation in the part that is searched is a violation of the whole.
pub proof fn law_violations_in_a_prefix_are_real(ops: Seq<OpView>)
    requires
        ops.len() <= usize::MAX,
        !linearizable(window(items_of(ops))),
    ensures
        !linearizable(items_of(ops)),
{
    let items = items_of(ops);
    lemma_prepared_len(ops, ops.len() as int);
    lemma_prepared_sorted(ops, ops.len() as int);
    if items.len() > MAX_OPS_PER_KEY && linearizable(items) {
        let n = MAX_OPS_PER_KEY as nat;
        let bound = items[n as int].invoke;
        lemma_prefix_closed(items, n, bound);
        lemma_observed(prefix_at(items, n, bound), n as int);
    }
}

/// The keys before `n` that have operations to order have an order, or the
/// verdict is already in.
proof fn lemma_tally_right(h: HistoryView, keys: Seq<Seq<char>>, n: int, budget: u64)
    requires
        0 <= n <= keys.len(),
        h.ops.len() <= usize::MAX,
    ensures
        ({
            let t = tally(h, keys, n, budget);
            &&& t.verdict is None && t.unknown is None ==> forall|k: int|
                0 <= k < n ==> linearizable(items_of(h.on_key(#[trigger] keys[k])))
                    && items_of(h.on_key(keys[k])).len() <= MAX_OPS_PER_KEY
            &&& !(t.verdict matches Some(v) && v is Linearizable)
            &&& t.verdict matches Some(VerdictView::NotLinearizable(e)) ==> exists|k: int|
                0 <= k < n && #[trigger] keys[k] == e.key && violated(h, e.key)
        }),
    decreases n,
{
    if n > 0 {
        lemma_tally_right(h, keys, n - 1, budget);
        let before = tally(h, keys, n - 1, budget);
        let key = keys[n - 1];
        let ops = h.on_key(key);
        let items = items_of(ops);
        let part = window(items);
        lemma_on_key_len(h.ops, h.ops.len() as int, key);
        lemma_prepared_len(ops, ops.len() as int);
        let t = tally(h, keys, n, budget);
        if before.verdict is Some {
            match before.verdict {
                Some(VerdictView::NotLinearizable(e)) => {
                    let k = choose|k: int|
                        0 <= k < n - 1 && #[trigger] keys[k] == e.key && violated(h, e.key);
                    assert(keys[k] == e.key);
                },
                _ => {},
            }
        } else if impossible_from(ops, 0) is Some {
            lemma_impossible(ops, 0);
            lemma_impossible_is_a_violation(ops, impossible_from(ops, 0)->0);
            assert(keys[n - 1] == key && violated(h, key));
        } else if items.len() == 0 {
            lemma_finished(items, everything(items.len()), None);
        } else {
            if items.len() > MAX_OPS_PER_KEY {
                lemma_observed_len(
                    prefix_at(items, MAX_OPS_PER_KEY as nat, items[MAX_OPS_PER_KEY as int].invoke),
                    MAX_OPS_PER_KEY as int,
                );
            }
            law_the_search_is_right(part, before.budget);
            if searched(part, before.budget).1 == Some(false) {
                law_violations_in_a_prefix_are_real(ops);
                assert(keys[n - 1] == key && violated(h, key));
            }
        }
    }
}

/// No order of the operations on this key explains what the clients saw.
pub open spec fn violated(h: HistoryView, key: Seq<char>) -> bool {
    !linearizable(items_of(h.on_key(key)))
}

/// The checker never cries wolf and never waves a violation through: it calls a
/// history linearizable only when every key's operations are within the cap and
/// have an order that explains what the clients saw, and not linearizable only
/// when the operations on the key it names have none.
pub proof fn law_verdicts_are_right(h: HistoryView, budget: u64)
    requires
        h.ops.len() <= usize::MAX,
    ensures
        verdict_on(h, budget) is Linearizable ==> forall|key: Seq<char>| #[trigger]
            h.keys().contains(key) ==> linearizable(items_of(h.on_key(key))) && items_of(
            h.on_key(key),
        ).len() <= MAX_OPS_PER_KEY,
        verdict_on(h, budget) matches VerdictView::NotLinearizable(e) ==> h.keys().contains(e.key)
            && violated(h, e.key),
{
    let keys = crate::kvmap::keys_in_order(h.keys());
    lemma_keys_finite(h.ops, h.ops.len() as int);
    crate::kvmap::lemma_keys_in_order_exists(h.keys());
    lemma_tally_right(h, keys, keys.len() as int, budget);
    if verdict_on(h, budget) is Linearizable {
        assert forall|key: Seq<char>| #[trigger] h.keys().contains(key) implies linearizable(
            items_of(h.on_key(key)),
        ) && items_of(h.on_key(key)).len() <= MAX_OPS_PER_KEY by {
            assert(keys.to_set().contains(key));
            let k = choose|k: int| 0 <= k < keys.len() && keys[k] == key;
        }
    }
    match verdict_on(h, budget) {
        VerdictView::NotLinearizable(e) => {
            let k = choose|k: int|
                0 <= k < keys.len() && #[trigger] keys[k] == e.key && violated(h, e.key);
            assert(keys.to_set().contains(keys[k]));
        },
        _ => {},
    }
}

} // verus!
