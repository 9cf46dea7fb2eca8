//! Checking one key at a time is enough.
//!
//! A history is linearizable when one order of all its operations, whatever
//! their keys, explains what the clients saw: it respects real time, and a
//! store that takes the operations in that order gives the answers that were
//! seen. Operations on different keys cannot affect each other, so this holds
//! exactly when each key's operations have such an order of their own.
use crate::history::{HistoryView, OpView};
use crate::kv::StoreView;
use crate::linearizability::{ItemView, VerdictView};
use vstd::prelude::*;

verus! {

// ---------------------------------------------------------------------------
// What it means
// ---------------------------------------------------------------------------

/// The operation at `i` as something to be ordered.
pub open spec fn item(h: HistoryView, i: int) -> ItemView {
    crate::linearizability::item_of(h.ops[i])->0
}

/// The operation at `i` is there, and constrains the order or may take part in
/// it.
pub open spec fn counts(h: HistoryView, i: int) -> bool {
    0 <= i < h.ops.len() && crate::linearizability::item_of(h.ops[i]) is Some
}

pub open spec fn key_at(h: HistoryView, i: int) -> Seq<char> {
    h.ops[i].command.key()
}

/// Nothing comes behind what it preceded in real time.
pub open spec fn timely(h: HistoryView, order: Seq<int>) -> bool {
    forall|a: int, b: int|
        0 <= a <= b < order.len() ==> !crate::linearizability::precedes(
            item(h, #[trigger] order[b]),
            item(h, #[trigger] order[a]),
        )
}

pub open spec fn distinct(order: Seq<int>) -> bool {
    forall|a: int, b: int|
        0 <= a < b < order.len() ==> (#[trigger] order[a]) != (#[trigger] order[b])
}

/// A store that has taken the first `n` operations of this order.
pub open spec fn store_through(h: HistoryView, order: Seq<int>, n: int) -> StoreView
    decreases n,
{
    if n <= 0 {
        StoreView::empty()
    } else {
        store_through(h, order, n - 1).applied(h.ops[order[n - 1]].command)
    }
}

/// A store that takes the operations in this order gives the answers that the
/// clients saw.
pub open spec fn legal(h: HistoryView, order: Seq<int>) -> bool {
    forall|n: int|
        0 <= n < order.len() ==> (item(h, #[trigger] order[n]).answer matches Some(a)
            ==> store_through(h, order, n).answer(item(h, order[n]).command) == a.1)
}

/// This order of operations explains what the clients saw: nothing is placed
/// twice, everything that was answered is placed, real time is respected, and
/// every answer is the one that the store gives.
pub open spec fn explains_history(h: HistoryView, order: Seq<int>) -> bool {
    &&& forall|k: int| 0 <= k < order.len() ==> counts(h, #[trigger] order[k])
    &&& distinct(order)
    &&& forall|i: int| counts(h, i) && (#[trigger] item(h, i)).answer is Some ==> order.contains(i)
    &&& timely(h, order)
    &&& legal(h, order)
}

/// Some order of all its operations explains the whole history.
pub open spec fn history_linearizable(h: HistoryView) -> bool {
    exists|order: Seq<int>| explains_history(h, order)
}

// ---------------------------------------------------------------------------
// One key's part of an order
// ---------------------------------------------------------------------------

spec fn on_key(h: HistoryView, key: Seq<char>) -> spec_fn(int) -> bool {
    |i: int| key_at(h, i) == key
}

spec fn only(h: HistoryView, order: Seq<int>, key: Seq<char>) -> Seq<int> {
    order.filter(on_key(h, key))
}

/// The key's value after the first `n` operations of an order of its own.
spec fn key_value(h: HistoryView, s: Seq<int>, n: int) -> Option<Seq<char>>
    decreases n,
{
    if n <= 0 {
        None
    } else {
        crate::linearizability::value_after(key_value(h, s, n - 1), h.ops[s[n - 1]].command)
    }
}

spec fn key_legal(h: HistoryView, s: Seq<int>) -> bool {
    forall|n: int|
        0 <= n < s.len() ==> crate::linearizability::fits(
            item(h, #[trigger] s[n]),
            key_value(h, s, n),
        )
}

/// An order of these keys' operations, as far as real time goes.
spec fn orders(h: HistoryView, keys: Set<Seq<char>>, s: Seq<int>) -> bool {
    &&& forall|k: int|
        0 <= k < s.len() ==> counts(h, #[trigger] s[k]) && keys.contains(key_at(h, s[k]))
    &&& distinct(s)
    &&& forall|i: int|
        counts(h, i) && keys.contains(key_at(h, i)) && (#[trigger] item(h, i)).answer is Some
            ==> s.contains(i)
    &&& timely(h, s)
}

proof fn lemma_value_prefix(h: HistoryView, s: Seq<int>, t: Seq<int>, n: int)
    requires
        n <= s.len(),
        n <= t.len(),
        forall|k: int| 0 <= k < n ==> s[k] == t[k],
    ensures
        key_value(h, s, n) == key_value(h, t, n),
    decreases n,
{
    if n > 0 {
        lemma_value_prefix(h, s, t, n - 1);
    }
}

/// Where an order has one operation more, so has its key's part.
proof fn lemma_only_push(h: HistoryView, order: Seq<int>, n: int, key: Seq<char>)
    requires
        0 < n <= order.len(),
    ensures
        only(h, order.take(n), key) == if key_at(h, order[n - 1]) == key {
            only(h, order.take(n - 1), key).push(order[n - 1])
        } else {
            only(h, order.take(n - 1), key)
        },
{
    reveal(Seq::filter);
    assert(order.take(n).drop_last() =~= order.take(n - 1));
    assert(order.take(n).last() == order[n - 1]);
}

proof fn lemma_only_empty(h: HistoryView, key: Seq<char>)
    ensures
        only(h, Seq::empty(), key) == Seq::<int>::empty(),
{
    reveal(Seq::filter);
}

proof fn lemma_only_one(h: HistoryView, x: int, key: Seq<char>)
    ensures
        only(h, seq![x], key) == if key_at(h, x) == key {
            seq![x]
        } else {
            Seq::empty()
        },
{
    let s = seq![x];
    lemma_only_push(h, s, 1, key);
    lemma_only_empty(h, key);
    assert(s.take(1) =~= s);
    assert(s.take(0) =~= Seq::empty());
    assert(Seq::<int>::empty().push(x) =~= seq![x]);
}

/// What a store holds for a key depends on that key's operations alone.
proof fn lemma_lookup(h: HistoryView, order: Seq<int>, n: int, key: Seq<char>)
    requires
        0 <= n <= order.len(),
    ensures
        store_through(h, order, n).lookup(key) == key_value(
            h,
            only(h, order.take(n), key),
            only(h, order.take(n), key).len() as int,
        ),
    decreases n,
{
    if n == 0 {
        assert(order.take(0) =~= Seq::empty());
        lemma_only_empty(h, key);
    } else {
        lemma_lookup(h, order, n - 1, key);
        lemma_only_push(h, order, n, key);
        let before = only(h, order.take(n - 1), key);
        let after = only(h, order.take(n), key);
        let c = h.ops[order[n - 1]].command;
        let store = store_through(h, order, n - 1);
        crate::linearizability::law_model_agrees_with_the_store(store, c);
        crate::kv::law_keys_are_independent(store, store, c, key);
        if c.key() == key {
            lemma_value_prefix(h, before, after, before.len() as int);
            assert(after[before.len() as int] == order[n - 1]);
        }
    }
}

/// The part of an order before `n`, the operation there, and the rest.
proof fn lemma_split(h: HistoryView, order: Seq<int>, n: int, key: Seq<char>)
    requires
        0 <= n < order.len(),
        key_at(h, order[n]) == key,
    ensures
        ({
            let m = only(h, order.take(n), key).len() as int;
            let all = only(h, order, key);
            &&& m < all.len()
            &&& all[m] == order[n]
            &&& all.take(m) == only(h, order.take(n), key)
        }),
{
    let p = on_key(h, key);
    let head = order.take(n);
    let one = seq![order[n]];
    let tail = order.skip(n + 1);
    assert(order =~= head + (one + tail));
    Seq::<int>::filter_distributes_over_add(head, one + tail, p);
    Seq::<int>::filter_distributes_over_add(one, tail, p);
    lemma_only_one(h, order[n], key);
    let m = only(h, head, key).len() as int;
    let all = only(h, order, key);
    assert(all == only(h, head, key) + (one + only(h, tail, key)));
    assert(all.take(m) =~= only(h, head, key));
}

/// Every operation of a key's part has its place in the whole order.
proof fn lemma_position(h: HistoryView, order: Seq<int>, n: int, key: Seq<char>, m: int)
    requires
        0 <= n <= order.len(),
        0 <= m < only(h, order.take(n), key).len(),
    ensures
        exists|i: int|
            0 <= i < n && key_at(h, #[trigger] order[i]) == key && only(
                h,
                order.take(i),
                key,
            ).len() == m && only(h, order.take(n), key)[m] == order[i],
    decreases n,
{
    if n == 0 {
        assert(order.take(0) =~= Seq::empty());
        lemma_only_empty(h, key);
    } else {
        lemma_only_push(h, order, n, key);
        let before = only(h, order.take(n - 1), key);
        if m < before.len() {
            lemma_position(h, order, n - 1, key, m);
            let i = choose|i: int|
                0 <= i < n - 1 && key_at(h, #[trigger] order[i]) == key && only(
                    h,
                    order.take(i),
                    key,
                ).len() == m && before[m] == order[i];
            assert(only(h, order.take(n), key)[m] == before[m]);
            assert(key_at(h, order[i]) == key);
        } else {
            assert(key_at(h, order[n - 1]) == key);
        }
    }
}

/// An order is legal exactly when each key's part of it is.
proof fn lemma_legal_by_key(h: HistoryView, order: Seq<int>)
    requires
        forall|k: int| 0 <= k < order.len() ==> counts(h, #[trigger] order[k]),
    ensures
        legal(h, order) ==> forall|key: Seq<char>| key_legal(h, #[trigger] only(h, order, key)),
        (forall|key: Seq<char>| key_legal(h, #[trigger] only(h, order, key))) ==> legal(h, order),
{
    assert(order.take(order.len() as int) =~= order);
    if legal(h, order) {
        assert forall|key: Seq<char>| key_legal(h, #[trigger] only(h, order, key)) by {
            let s = only(h, order, key);
            assert forall|m: int| 0 <= m < s.len() implies crate::linearizability::fits(
                item(h, #[trigger] s[m]),
                key_value(h, s, m),
            ) by {
                lemma_position(h, order, order.len() as int, key, m);
                let i = choose|i: int|
                    0 <= i < order.len() && key_at(h, #[trigger] order[i]) == key && only(
                        h,
                        order.take(i),
                        key,
                    ).len() == m && s[m] == order[i];
                lemma_split(h, order, i, key);
                lemma_lookup(h, order, i, key);
                let head = only(h, order.take(i), key);
                assert forall|k: int| 0 <= k < m implies s[k] == head[k] by {
                    assert(s.take(m)[k] == head[k]);
                }
                lemma_value_prefix(h, s, head, m);
                crate::linearizability::law_model_agrees_with_the_store(
                    store_through(h, order, i),
                    h.ops[order[i]].command,
                );
            }
        }
    }
    if forall|key: Seq<char>| key_legal(h, #[trigger] only(h, order, key)) {
        assert forall|n: int| 0 <= n < order.len() implies (item(
            h,
            #[trigger] order[n],
        ).answer matches Some(a) ==> store_through(h, order, n).answer(item(h, order[n]).command)
            == a.1) by {
            let key = key_at(h, order[n]);
            let s = only(h, order, key);
            let head = only(h, order.take(n), key);
            let m = head.len() as int;
            lemma_split(h, order, n, key);
            lemma_lookup(h, order, n, key);
            assert(crate::linearizability::fits(item(h, s[m]), key_value(h, s, m)));
            assert forall|k: int| 0 <= k < m implies s[k] == head[k] by {
                assert(s.take(m)[k] == head[k]);
            }
            lemma_value_prefix(h, s, head, m);
            crate::linearizability::law_model_agrees_with_the_store(
                store_through(h, order, n),
                h.ops[order[n]].command,
            );
        }
    }
}

/// What a key's part of an order holds, and that it keeps the order.
proof fn lemma_only_orders(h: HistoryView, order: Seq<int>, n: int, key: Seq<char>)
    requires
        0 <= n <= order.len(),
        distinct(order),
        timely(h, order),
    ensures
        ({
            let s = only(h, order.take(n), key);
            &&& forall|x: int| #[trigger]
                s.contains(x) <==> order.take(n).contains(x) && key_at(h, x) == key
            &&& distinct(s)
            &&& timely(h, s)
        }),
    decreases n,
{
    if n == 0 {
        assert(order.take(0) =~= Seq::empty());
        lemma_only_empty(h, key);
    } else {
        lemma_only_orders(h, order, n - 1, key);
        lemma_only_push(h, order, n, key);
        let head = order.take(n - 1);
        let whole = order.take(n);
        let before = only(h, head, key);
        let s = only(h, whole, key);
        let x = order[n - 1];
        assert forall|y: int| #[trigger] whole.contains(y) <==> head.contains(
            y,
        ) || y == x by {
            if whole.contains(y) {
                let k = choose|k: int| 0 <= k < n && whole[k] == y;
                if k < n - 1 {
                    assert(head[k] == y);
                }
            }
            if head.contains(y) {
                let k = choose|k: int| 0 <= k < n - 1 && head[k] == y;
                assert(whole[k] == y);
            }
            assert(whole[n - 1] == x);
        }
        if key_at(h, x) == key {
            assert forall|y: int| #[trigger] s.contains(y) <==> before.contains(y) || y == x by {
                if s.contains(y) {
                    let k = choose|k: int| 0 <= k < s.len() && s[k] == y;
                    if k < before.len() {
                        assert(before[k] == y);
                    }
                }
                if before.contains(y) {
                    let k = choose|k: int| 0 <= k < before.len() && before[k] == y;
                    assert(s[k] == y);
                }
                assert(s[before.len() as int] == x);
            }
            assert forall|y: int| #[trigger] before.contains(y) implies y != x
                && !crate::linearizability::precedes(item(h, x), item(h, y)) by {
                let k = choose|k: int| 0 <= k < n - 1 && head[k] == y;
                assert(order[k] == y);
                assert(order[n - 1] == x);
            }
            assert forall|a: int, b: int| 0 <= a < b < s.len() implies (#[trigger] s[a]) != (
            #[trigger] s[b]) by {
                if b == before.len() {
                    assert(before.contains(before[a]));
                } else {
                    assert(before[a] != before[b]);
                }
            }
            assert forall|a: int, b: int|
                0 <= a <= b < s.len() implies !crate::linearizability::precedes(
                item(h, #[trigger] s[b]),
                item(h, #[trigger] s[a]),
            ) by {
                if b == before.len() {
                    if a < b {
                        assert(before.contains(before[a]));
                    } else {
                        assert(order[n - 1] == x);
                    }
                } else {
                    assert(before[a] == s[a] && before[b] == s[b]);
                }
            }
        }
    }
}

// ---------------------------------------------------------------------------
// Merging two orders
// ---------------------------------------------------------------------------

/// Something of `b` was answered before `x` was invoked.
spec fn held_back(h: HistoryView, x: int, b: Seq<int>) -> bool {
    exists|k: int|
        0 <= k < b.len() && crate::linearizability::precedes(item(h, #[trigger] b[k]), item(h, x))
}

/// Two orders woven into one.
spec fn merged(h: HistoryView, a: Seq<int>, b: Seq<int>) -> Seq<int>
    decreases a.len() + b.len(),
{
    if a.len() == 0 {
        b
    } else if b.len() == 0 {
        a
    } else if held_back(h, a[0], b) {
        seq![b[0]] + merged(h, a, b.skip(1))
    } else {
        seq![a[0]] + merged(h, a.skip(1), b)
    }
}

proof fn lemma_timely_skip(h: HistoryView, a: Seq<int>)
    requires
        a.len() > 0,
        timely(h, a),
    ensures
        timely(h, a.skip(1)),
{
    let r = a.skip(1);
    assert forall|i: int, j: int| 0 <= i <= j < r.len() implies !crate::linearizability::precedes(
        item(h, #[trigger] r[j]),
        item(h, #[trigger] r[i]),
    ) by {
        assert(r[i] == a[i + 1] && r[j] == a[j + 1]);
    }
}

proof fn lemma_contains_split(s: Seq<int>, x: int)
    requires
        s.len() > 0,
    ensures
        s.contains(x) <==> x == s[0] || s.skip(1).contains(x),
{
    if s.contains(x) {
        let k = choose|k: int| 0 <= k < s.len() && s[k] == x;
        if k > 0 {
            assert(s.skip(1)[k - 1] == x);
        }
    }
    let rest = s.skip(1);
    if rest.contains(x) {
        let k = choose|k: int| 0 <= k < rest.len() && rest[k] == x;
        assert(s[k + 1] == x);
    }
}

/// Nothing is lost or added by weaving.
proof fn lemma_merged_contains(h: HistoryView, a: Seq<int>, b: Seq<int>, x: int)
    ensures
        merged(h, a, b).contains(x) <==> a.contains(x) || b.contains(x),
    decreases a.len() + b.len(),
{
    let m = merged(h, a, b);
    if a.len() > 0 && b.len() > 0 {
        lemma_contains_split(m, x);
        lemma_contains_split(a, x);
        lemma_contains_split(b, x);
        if held_back(h, a[0], b) {
            lemma_merged_contains(h, a, b.skip(1), x);
            assert(m.skip(1) =~= merged(h, a, b.skip(1)));
        } else {
            lemma_merged_contains(h, a.skip(1), b, x);
            assert(m.skip(1) =~= merged(h, a.skip(1), b));
        }
    }
}

proof fn lemma_distinct_cons(x: int, s: Seq<int>)
    requires
        distinct(s),
        !s.contains(x),
    ensures
        distinct(seq![x] + s),
{
    let m = seq![x] + s;
    assert forall|a: int, b: int| 0 <= a < b < m.len() implies (#[trigger] m[a]) != (
    #[trigger] m[b]) by {
        assert(m[b] == s[b - 1]);
        if a == 0 {
            assert(s.contains(s[b - 1]));
        } else {
            assert(m[a] == s[a - 1]);
        }
    }
}

proof fn lemma_timely_cons(h: HistoryView, x: int, s: Seq<int>)
    requires
        timely(h, s),
        !crate::linearizability::precedes(item(h, x), item(h, x)),
        forall|y: int| #[trigger]
            s.contains(y) ==> !crate::linearizability::precedes(item(h, y), item(h, x)),
    ensures
        timely(h, seq![x] + s),
{
    let m = seq![x] + s;
    assert forall|a: int, b: int| 0 <= a <= b < m.len() implies !crate::linearizability::precedes(
        item(h, #[trigger] m[b]),
        item(h, #[trigger] m[a]),
    ) by {
        if b > 0 {
            assert(m[b] == s[b - 1]);
            if a == 0 {
                assert(s.contains(s[b - 1]));
            } else {
                assert(m[a] == s[a - 1]);
            }
        }
    }
}

/// Two orders over different operations weave into one that respects real time:
/// the two heads can never hold each other back.
proof fn lemma_merged_orders(h: HistoryView, a: Seq<int>, b: Seq<int>)
    requires
        distinct(a),
        distinct(b),
        timely(h, a),
        timely(h, b),
        forall|x: int| #[trigger] a.contains(x) ==> !b.contains(x),
    ensures
        distinct(merged(h, a, b)),
        timely(h, merged(h, a, b)),
    decreases a.len() + b.len(),
{
    if a.len() > 0 && b.len() > 0 {
        let a1 = a.skip(1);
        let b1 = b.skip(1);
        assert forall|x: int| #[trigger] a1.contains(x) implies !b.contains(x) by {
            lemma_contains_split(a, x);
            assert(a.contains(x));
        }
        assert forall|x: int| #[trigger] a.contains(x) implies !b1.contains(x) by {
            lemma_contains_split(b, x);
        }
        assert forall|i: int, j: int| 0 <= i < j < a1.len() implies (#[trigger] a1[i]) != (
        #[trigger] a1[j]) by {
            assert(a1[i] == a[i + 1] && a1[j] == a[j + 1]);
        }
        assert forall|i: int, j: int| 0 <= i < j < b1.len() implies (#[trigger] b1[i]) != (
        #[trigger] b1[j]) by {
            assert(b1[i] == b[i + 1] && b1[j] == b[j + 1]);
        }
        lemma_timely_skip(h, a);
        lemma_timely_skip(h, b);
        assert(a.contains(a[0]));
        assert(b.contains(b[0]));
        if held_back(h, a[0], b) {
            lemma_merged_orders(h, a, b1);
            let rest = merged(h, a, b1);
            let j = choose|j: int|
                0 <= j < b.len() && crate::linearizability::precedes(
                    item(h, #[trigger] b[j]),
                    item(h, a[0]),
                );
            lemma_merged_contains(h, a, b1, b[0]);
            assert(!b1.contains(b[0])) by {
                if b1.contains(b[0]) {
                    let k = choose|k: int| 0 <= k < b1.len() && b1[k] == b[0];
                    assert(b[k + 1] == b[0]);
                }
            }
            lemma_distinct_cons(b[0], rest);
            assert forall|y: int| #[trigger]
                rest.contains(y) implies !crate::linearizability::precedes(
                item(h, y),
                item(h, b[0]),
            ) by {
                lemma_merged_contains(h, a, b1, y);
                if b1.contains(y) {
                    let k = choose|k: int| 0 <= k < b1.len() && b1[k] == y;
                    assert(b[k + 1] == y);
                } else {
                    let i = choose|i: int| 0 <= i < a.len() && a[i] == y;
                    assert(!crate::linearizability::precedes(item(h, a[i]), item(h, a[0])));
                    assert(!crate::linearizability::precedes(item(h, b[j]), item(h, b[0])));
                }
            }
            lemma_timely_cons(h, b[0], rest);
        } else {
            lemma_merged_orders(h, a1, b);
            let rest = merged(h, a1, b);
            lemma_merged_contains(h, a1, b, a[0]);
            assert(!a1.contains(a[0])) by {
                if a1.contains(a[0]) {
                    let k = choose|k: int| 0 <= k < a1.len() && a1[k] == a[0];
                    assert(a[k + 1] == a[0]);
                }
            }
            lemma_distinct_cons(a[0], rest);
            assert forall|y: int| #[trigger]
                rest.contains(y) implies !crate::linearizability::precedes(
                item(h, y),
                item(h, a[0]),
            ) by {
                lemma_merged_contains(h, a1, b, y);
                if a1.contains(y) {
                    let k = choose|k: int| 0 <= k < a1.len() && a1[k] == y;
                    assert(a[k + 1] == y);
                } else {
                    let k = choose|k: int| 0 <= k < b.len() && b[k] == y;
                    assert(b[k] == y);
                }
            }
            lemma_timely_cons(h, a[0], rest);
        }
    }
}

/// Everything, or nothing, belongs to the key.
proof fn lemma_only_all(h: HistoryView, s: Seq<int>, n: int, key: Seq<char>)
    requires
        0 <= n <= s.len(),
    ensures
        (forall|k: int| 0 <= k < n ==> key_at(h, #[trigger] s[k]) == key) ==> only(
            h,
            s.take(n),
            key,
        ) == s.take(n),
        (forall|k: int| 0 <= k < n ==> key_at(h, #[trigger] s[k]) != key) ==> only(
            h,
            s.take(n),
            key,
        ) == Seq::<int>::empty(),
    decreases n,
{
    if n == 0 {
        assert(s.take(0) =~= Seq::empty());
        lemma_only_empty(h, key);
    } else {
        lemma_only_all(h, s, n - 1, key);
        lemma_only_push(h, s, n, key);
        assert(s.take(n) =~= s.take(n - 1).push(s[n - 1]));
    }
}

/// Weaving in another key's order leaves every key's part as it was.
proof fn lemma_merged_only(
    h: HistoryView,
    a: Seq<int>,
    b: Seq<int>,
    new: Seq<char>,
    key: Seq<char>,
)
    requires
        forall|k: int| 0 <= k < a.len() ==> key_at(h, #[trigger] a[k]) != new,
        forall|k: int| 0 <= k < b.len() ==> key_at(h, #[trigger] b[k]) == new,
    ensures
        only(h, merged(h, a, b), key) == if key == new {
            b
        } else {
            only(h, a, key)
        },
    decreases a.len() + b.len(),
{
    assert(a.take(a.len() as int) =~= a);
    assert(b.take(b.len() as int) =~= b);
    if a.len() == 0 {
        assert(a =~= Seq::empty());
        lemma_only_empty(h, key);
        lemma_only_all(h, b, b.len() as int, key);
    } else if b.len() == 0 {
        assert(b =~= Seq::empty());
        lemma_only_all(h, a, a.len() as int, key);
    } else {
        let p = on_key(h, key);
        let a1 = a.skip(1);
        let b1 = b.skip(1);
        if held_back(h, a[0], b) {
            assert forall|k: int| 0 <= k < b1.len() implies key_at(h, #[trigger] b1[k]) == new by {
                assert(b1[k] == b[k + 1]);
            }
            lemma_merged_only(h, a, b1, new, key);
            Seq::<int>::filter_distributes_over_add(seq![b[0]], merged(h, a, b1), p);
            lemma_only_one(h, b[0], key);
            assert(seq![b[0]] + b1 =~= b);
            assert(Seq::<int>::empty() + only(h, a, key) =~= only(h, a, key));
        } else {
            assert forall|k: int| 0 <= k < a1.len() implies key_at(h, #[trigger] a1[k]) != new by {
                assert(a1[k] == a[k + 1]);
            }
            lemma_merged_only(h, a1, b, new, key);
            Seq::<int>::filter_distributes_over_add(seq![a[0]], merged(h, a1, b), p);
            Seq::<int>::filter_distributes_over_add(seq![a[0]], a1, p);
            lemma_only_one(h, a[0], key);
            assert(seq![a[0]] + a1 =~= a);
            assert(Seq::<int>::empty() + b =~= b);
        }
    }
}

// ---------------------------------------------------------------------------
// Operations and the items of a search
// ---------------------------------------------------------------------------

/// Where an operation goes among sorted ones.
spec fn place_index(h: HistoryView, s: Seq<int>, x: int) -> Seq<int>
    decreases s.len(),
{
    if s.len() == 0 || crate::linearizability::not_after(item(h, s.last()), item(h, x)) {
        s.push(x)
    } else {
        place_index(h, s.drop_last(), x).push(s.last())
    }
}

/// The operations on a key among the first `n`, as the search sorts them.
spec fn sorted(h: HistoryView, n: int, key: Seq<char>) -> Seq<int>
    decreases n,
{
    if n <= 0 {
        Seq::empty()
    } else if key_at(h, n - 1) == key && counts(h, n - 1) {
        place_index(h, sorted(h, n - 1, key), n - 1)
    } else {
        sorted(h, n - 1, key)
    }
}

spec fn items_at(h: HistoryView, s: Seq<int>) -> Seq<ItemView> {
    Seq::new(s.len(), |k: int| item(h, s[k]))
}

proof fn lemma_place_index(h: HistoryView, s: Seq<int>, x: int)
    ensures
        items_at(h, place_index(h, s, x)) == crate::linearizability::placed(
            items_at(h, s),
            item(h, x),
        ),
        forall|y: int| #[trigger] place_index(h, s, x).contains(y) <==> s.contains(y) || y == x,
        distinct(s) && !s.contains(x) ==> distinct(place_index(h, s, x)),
    decreases s.len(),
{
    let r = place_index(h, s, x);
    if s.len() == 0 || crate::linearizability::not_after(item(h, s.last()), item(h, x)) {
        assert(items_at(h, r) =~= items_at(h, s).push(item(h, x)));
        assert forall|y: int| #[trigger] r.contains(y) <==> s.contains(y) || y == x by {
            if r.contains(y) {
                let k = choose|k: int| 0 <= k < r.len() && r[k] == y;
                if k < s.len() {
                    assert(s[k] == y);
                }
            }
            if s.contains(y) {
                let k = choose|k: int| 0 <= k < s.len() && s[k] == y;
                assert(r[k] == y);
            }
            assert(r[s.len() as int] == x);
        }
        if distinct(s) && !s.contains(x) {
            assert forall|a: int, b: int| 0 <= a < b < r.len() implies (#[trigger] r[a]) != (
            #[trigger] r[b]) by {
                if b == s.len() {
                    assert(s.contains(s[a]));
                } else {
                    assert(s[a] != s[b]);
                }
            }
        }
    } else {
        let t = s.drop_last();
        let q = place_index(h, t, x);
        lemma_place_index(h, t, x);
        assert(items_at(h, s).drop_last() =~= items_at(h, t));
        assert(items_at(h, r) =~= items_at(h, q).push(item(h, s.last())));
        assert forall|y: int| #[trigger] r.contains(y) <==> s.contains(y) || y == x by {
            if r.contains(y) {
                let k = choose|k: int| 0 <= k < r.len() && r[k] == y;
                if k < q.len() {
                    assert(q.contains(q[k]));
                    if t.contains(y) {
                        let j = choose|j: int| 0 <= j < t.len() && t[j] == y;
                        assert(s[j] == y);
                    }
                } else {
                    assert(s[s.len() - 1] == y);
                }
            }
            if s.contains(y) || y == x {
                if y == s.last() && !(y == x) {
                    assert(r[q.len() as int] == y);
                } else {
                    if s.contains(y) {
                        let j = choose|j: int| 0 <= j < s.len() && s[j] == y;
                        if j < t.len() {
                            assert(t[j] == y);
                        } else {
                            assert(r[q.len() as int] == y);
                        }
                    }
                    if q.contains(y) {
                        let k = choose|k: int| 0 <= k < q.len() && q[k] == y;
                        assert(r[k] == y);
                    }
                }
            }
        }
        if distinct(s) && !s.contains(x) {
            assert forall|a: int, b: int| 0 <= a < b < t.len() implies (#[trigger] t[a]) != (
            #[trigger] t[b]) by {
                assert(s[a] != s[b]);
            }
            assert(!t.contains(x)) by {
                if t.contains(x) {
                    let k = choose|k: int| 0 <= k < t.len() && t[k] == x;
                    assert(s[k] == x);
                }
            }
            assert forall|a: int, b: int| 0 <= a < b < r.len() implies (#[trigger] r[a]) != (
            #[trigger] r[b]) by {
                if b == q.len() {
                    assert(q.contains(q[a]));
                    if t.contains(q[a]) {
                        let k = choose|k: int| 0 <= k < t.len() && t[k] == q[a];
                        assert(s[k] != s[s.len() - 1]);
                    } else {
                        assert(s.contains(s.last()));
                    }
                } else {
                    assert(q[a] != q[b]);
                }
            }
        }
    }
}

proof fn lemma_prepared_prefix(a: Seq<OpView>, b: Seq<OpView>, n: int)
    requires
        n <= a.len(),
        n <= b.len(),
        forall|k: int| 0 <= k < n ==> a[k] == b[k],
    ensures
        crate::linearizability::prepared(a, n) == crate::linearizability::prepared(b, n),
    decreases n,
{
    if n > 0 {
        lemma_prepared_prefix(a, b, n - 1);
    }
}

/// The items of a key's search are its operations, each once.
proof fn lemma_sorted(h: HistoryView, n: int, key: Seq<char>)
    requires
        0 <= n <= h.ops.len(),
    ensures
        crate::linearizability::items_of(crate::history::ops_on(h.ops, n, key)) == items_at(
            h,
            sorted(h, n, key),
        ),
        distinct(sorted(h, n, key)),
        forall|i: int| #[trigger]
            sorted(h, n, key).contains(i) <==> i < n && counts(h, i) && key_at(h, i) == key,
    decreases n,
{
    let ops = crate::history::ops_on(h.ops, n, key);
    let s = sorted(h, n, key);
    if n == 0 {
        assert(items_at(h, s) =~= crate::linearizability::items_of(ops));
    } else {
        lemma_sorted(h, n - 1, key);
        let before = crate::history::ops_on(h.ops, n - 1, key);
        let prev = sorted(h, n - 1, key);
        if key_at(h, n - 1) == key {
            assert(ops == before.push(h.ops[n - 1]));
            lemma_prepared_prefix(ops, before, before.len() as int);
            assert(ops[before.len() as int] == h.ops[n - 1]);
            if counts(h, n - 1) {
                lemma_place_index(h, prev, n - 1);
                assert(!prev.contains(n - 1));
            }
        }
        assert forall|i: int| #[trigger] s.contains(i) <==> i < n && counts(h, i) && key_at(h, i)
            == key by {
            assert(prev.contains(i) <==> i < n - 1 && counts(h, i) && key_at(h, i) == key);
        }
    }
}

spec fn one_key(key: Seq<char>) -> Set<Seq<char>> {
    Set::empty().insert(key)
}

/// An order of a key's operations gives one of the items of its search.
proof fn lemma_to_items(h: HistoryView, key: Seq<char>, s: Seq<int>)
    requires
        h.ops.len() <= usize::MAX,
        orders(h, one_key(key), s),
        key_legal(h, s),
    ensures
        crate::linearizability::linearizable(crate::linearizability::items_of(h.on_key(key))),
{
    let perm = sorted(h, h.ops.len() as int, key);
    lemma_sorted(h, h.ops.len() as int, key);
    lemma_perm_len(h, h.ops.len() as int, key);
    let items = crate::linearizability::items_of(h.on_key(key));
    let todo = crate::linearizability::everything(items.len());
    let at = |x: int| choose|p: int| 0 <= p < perm.len() && #[trigger] perm[p] == x;
    let order = Seq::new(s.len(), |j: int| at(s[j]) as usize);
    assert forall|j: int| 0 <= j < s.len() implies 0 <= (#[trigger] order[j]) < perm.len()
        && perm[order[j] as int] == s[j] by {
        assert(counts(h, s[j]));
        assert(perm.contains(s[j]));
        let p = choose|p: int| 0 <= p < perm.len() && perm[p] == s[j];
        assert(perm[p] == s[j]);
    }
    assert forall|k: int| 0 <= k < order.len() implies 0 <= (#[trigger] order[k]) < items.len()
        && todo[order[k] as int] by {}
    assert forall|a: int, b: int| 0 <= a < b < order.len() implies (#[trigger] order[a]) != (
    #[trigger] order[b]) by {
        assert(s[a] != s[b]);
    }
    assert forall|j: usize|
        0 <= j < items.len() && #[trigger] todo[j as int] && items[j as int].answer
            is Some implies order.contains(j) by {
        let i = perm[j as int];
        assert(perm.contains(i));
        assert(item(h, i).answer is Some);
        assert(s.contains(i));
        let b = choose|b: int| 0 <= b < s.len() && s[b] == i;
        assert(perm[order[b] as int] == perm[j as int]);
        if order[b] < j {
            assert(perm[order[b] as int] != perm[j as int]);
        } else if order[b] > j {
            assert(perm[j as int] != perm[order[b] as int]);
        }
        assert(order[b] == j);
    }
    assert forall|a: int, b: int|
        0 <= a <= b < order.len() implies !crate::linearizability::precedes(
        items[(#[trigger] order[b]) as int],
        items[(#[trigger] order[a]) as int],
    ) by {
        assert(items[order[b] as int] == item(h, s[b]));
        assert(items[order[a] as int] == item(h, s[a]));
    }
    assert forall|k: int| 0 <= k < order.len() implies crate::linearizability::fits(
        items[(#[trigger] order[k]) as int],
        crate::linearizability::value_through(items, None, order, k),
    ) by {
        lemma_values(h, items, perm, order, s, k);
        assert(items[order[k] as int] == item(h, s[k]));
    }
    assert(crate::linearizability::explains(items, todo, None, order));
}

/// The value is the same whether operations or items are counted.
proof fn lemma_values(
    h: HistoryView,
    items: Seq<ItemView>,
    perm: Seq<int>,
    order: Seq<usize>,
    s: Seq<int>,
    n: int,
)
    requires
        items == items_at(h, perm),
        order.len() == s.len(),
        0 <= n <= s.len(),
        forall|j: int| 0 <= j < s.len() ==> counts(h, #[trigger] s[j]),
        forall|j: int|
            0 <= j < s.len() ==> (#[trigger] order[j]) < perm.len() && perm[order[j] as int]
                == s[j],
    ensures
        crate::linearizability::value_through(items, None, order, n) == key_value(h, s, n),
    decreases n,
{
    if n > 0 {
        lemma_values(h, items, perm, order, s, n - 1);
        assert(items[order[n - 1] as int] == item(h, s[n - 1]));
        assert(counts(h, s[n - 1]));
    }
}

proof fn lemma_perm_len(h: HistoryView, n: int, key: Seq<char>)
    requires
        0 <= n <= h.ops.len(),
    ensures
        sorted(h, n, key).len() <= n,
    decreases n,
{
    if n > 0 {
        lemma_perm_len(h, n - 1, key);
        lemma_place_len(h, sorted(h, n - 1, key), n - 1);
    }
}

proof fn lemma_place_len(h: HistoryView, s: Seq<int>, x: int)
    ensures
        place_index(h, s, x).len() == s.len() + 1,
    decreases s.len(),
{
    if !(s.len() == 0 || crate::linearizability::not_after(item(h, s.last()), item(h, x))) {
        lemma_place_len(h, s.drop_last(), x);
    }
}

/// The operations that an order of items stands for.
spec fn ops_of(perm: Seq<int>, order: Seq<usize>) -> Seq<int> {
    Seq::new(order.len(), |j: int| perm[order[j] as int])
}

/// They are in order.
proof fn lemma_ops_orders(h: HistoryView, key: Seq<char>, perm: Seq<int>, order: Seq<usize>)
    requires
        perm.len() <= usize::MAX,
        distinct(perm),
        forall|i: int| #[trigger] perm.contains(i) <==> counts(h, i) && key_at(h, i) == key,
        crate::linearizability::explains(
            items_at(h, perm),
            crate::linearizability::everything(perm.len()),
            None,
            order,
        ),
    ensures
        orders(h, one_key(key), ops_of(perm, order)),
{
    let items = items_at(h, perm);
    let todo = crate::linearizability::everything(perm.len());
    let s = ops_of(perm, order);
    assert forall|k: int| 0 <= k < s.len() implies counts(h, #[trigger] s[k]) && one_key(
        key,
    ).contains(key_at(h, s[k])) by {
        assert(order[k] < items.len());
        assert(perm.contains(perm[order[k] as int]));
    }
    assert forall|a: int, b: int| 0 <= a < b < s.len() implies (#[trigger] s[a]) != (
    #[trigger] s[b]) by {
        assert(order[a] != order[b]);
        assert(order[a] < items.len() && order[b] < items.len());
        if order[a] < order[b] {
            assert(perm[order[a] as int] != perm[order[b] as int]);
        } else {
            assert(perm[order[b] as int] != perm[order[a] as int]);
        }
    }
    assert forall|i: int|
        counts(h, i) && one_key(key).contains(key_at(h, i)) && (#[trigger] item(h, i)).answer
            is Some implies s.contains(i) by {
        assert(perm.contains(i));
        let p = choose|p: int| 0 <= p < perm.len() && perm[p] == i;
        assert(items[p] == item(h, i));
        let u = p as usize;
        assert(todo[u as int]);
        assert(order.contains(u));
        let b = choose|b: int| 0 <= b < order.len() && order[b] == u;
        assert(s[b] == i);
    }
    assert forall|a: int, b: int| 0 <= a <= b < s.len() implies !crate::linearizability::precedes(
        item(h, #[trigger] s[b]),
        item(h, #[trigger] s[a]),
    ) by {
        assert(order[a] < items.len() && order[b] < items.len());
        assert(items[order[b] as int] == item(h, s[b]));
        assert(items[order[a] as int] == item(h, s[a]));
    }
}

/// They are legal.
proof fn lemma_ops_legal(h: HistoryView, perm: Seq<int>, order: Seq<usize>)
    requires
        forall|k: int| 0 <= k < perm.len() ==> counts(h, #[trigger] perm[k]),
        crate::linearizability::explains(
            items_at(h, perm),
            crate::linearizability::everything(perm.len()),
            None,
            order,
        ),
    ensures
        key_legal(h, ops_of(perm, order)),
{
    let items = items_at(h, perm);
    let s = ops_of(perm, order);
    assert forall|j: int| 0 <= j < s.len() implies (#[trigger] order[j]) < perm.len()
        && perm[order[j] as int] == s[j] && counts(h, s[j]) by {
        assert(order[j] < items.len());
    }
    assert forall|j: int| 0 <= j < s.len() implies counts(h, #[trigger] s[j]) by {
        assert(order[j] < perm.len());
    }
    assert forall|n: int| 0 <= n < s.len() implies crate::linearizability::fits(
        item(h, #[trigger] s[n]),
        key_value(h, s, n),
    ) by {
        lemma_values(h, items, perm, order, s, n);
        assert(order[n] < items.len());
        assert(items[order[n] as int] == item(h, s[n]));
    }
}

/// An order of the items of a key's search gives one of its operations.
proof fn lemma_from_items(h: HistoryView, key: Seq<char>) -> (s: Seq<int>)
    requires
        h.ops.len() <= usize::MAX,
        crate::linearizability::linearizable(crate::linearizability::items_of(h.on_key(key))),
    ensures
        orders(h, one_key(key), s),
        key_legal(h, s),
{
    let all = h.ops.len() as int;
    let perm = sorted(h, all, key);
    lemma_sorted(h, all, key);
    lemma_perm_len(h, all, key);
    let items = items_at(h, perm);
    let todo = crate::linearizability::everything(perm.len());
    let order = choose|order: Seq<usize>|
        crate::linearizability::explains(items, todo, None, order);
    assert(crate::linearizability::items_of(h.on_key(key)) == items);
    assert(crate::linearizability::explains(items, todo, None, order));
    assert forall|k: int| 0 <= k < perm.len() implies counts(h, #[trigger] perm[k]) by {
        assert(perm.contains(perm[k]));
    }
    lemma_ops_orders(h, key, perm, order);
    lemma_ops_legal(h, perm, order);
    ops_of(perm, order)
}

// ---------------------------------------------------------------------------
// The laws
// ---------------------------------------------------------------------------

spec fn first_keys(keys: Seq<Seq<char>>, n: int) -> Set<Seq<char>> {
    keys.take(n).to_set()
}

/// The orders of the first `n` keys woven into one.
proof fn lemma_weave(h: HistoryView, keys: Seq<Seq<char>>, n: int) -> (order: Seq<int>)
    requires
        0 <= n <= keys.len(),
        h.ops.len() <= usize::MAX,
        keys.no_duplicates(),
        forall|k: int|
            0 <= k < n ==> crate::linearizability::linearizable(
                crate::linearizability::items_of(h.on_key(#[trigger] keys[k])),
            ),
    ensures
        orders(h, first_keys(keys, n), order),
        forall|key: Seq<char>| key_legal(h, #[trigger] only(h, order, key)),
    decreases n,
{
    if n == 0 {
        let order = Seq::<int>::empty();
        assert forall|i: int|
            counts(h, i) && first_keys(keys, 0).contains(key_at(h, i)) && (#[trigger] item(
                h,
                i,
            )).answer is Some implies order.contains(i) by {
            assert(keys.take(0).contains(key_at(h, i)));
        }
        assert forall|key: Seq<char>| key_legal(h, #[trigger] only(h, order, key)) by {
            lemma_only_empty(h, key);
        }
        order
    } else {
        let a = lemma_weave(h, keys, n - 1);
        let new = keys[n - 1];
        let b = lemma_from_items(h, new);
        let order = merged(h, a, b);
        let head = keys.take(n - 1);
        let whole = keys.take(n);
        let old_keys = first_keys(keys, n - 1);
        let all_keys = first_keys(keys, n);
        assert(!old_keys.contains(new)) by {
            if old_keys.contains(new) {
                let k = choose|k: int| 0 <= k < n - 1 && head[k] == new;
                assert(keys[k] == keys[n - 1]);
            }
        }
        assert forall|key: Seq<char>| #[trigger] all_keys.contains(key) <==> old_keys.contains(key)
            || key == new by {
            if all_keys.contains(key) {
                let k = choose|k: int| 0 <= k < n && whole[k] == key;
                if k < n - 1 {
                    assert(head[k] == key);
                }
            }
            if old_keys.contains(key) {
                let k = choose|k: int| 0 <= k < n - 1 && head[k] == key;
                assert(whole[k] == key);
            }
            assert(whole[n - 1] == new);
        }
        assert forall|x: int| #[trigger] a.contains(x) implies !b.contains(x) by {
            let k = choose|k: int| 0 <= k < a.len() && a[k] == x;
            assert(old_keys.contains(key_at(h, a[k])));
            if b.contains(x) {
                let j = choose|j: int| 0 <= j < b.len() && b[j] == x;
                assert(one_key(new).contains(key_at(h, b[j])));
            }
        }
        lemma_merged_orders(h, a, b);
        assert forall|k: int| 0 <= k < order.len() implies counts(h, #[trigger] order[k])
            && all_keys.contains(key_at(h, order[k])) by {
            let x = order[k];
            lemma_merged_contains(h, a, b, x);
            assert(order.contains(x));
            if a.contains(x) {
                let j = choose|j: int| 0 <= j < a.len() && a[j] == x;
                assert(counts(h, a[j]));
            } else {
                let j = choose|j: int| 0 <= j < b.len() && b[j] == x;
                assert(counts(h, b[j]));
                assert(one_key(new).contains(key_at(h, b[j])));
            }
        }
        assert forall|i: int|
            counts(h, i) && all_keys.contains(key_at(h, i)) && (#[trigger] item(h, i)).answer
                is Some implies order.contains(i) by {
            lemma_merged_contains(h, a, b, i);
            if key_at(h, i) == new {
                assert(one_key(new).contains(key_at(h, i)));
                assert(b.contains(i));
            } else {
                assert(a.contains(i));
            }
        }
        assert forall|k: int| 0 <= k < a.len() implies key_at(h, #[trigger] a[k]) != new by {
            assert(old_keys.contains(key_at(h, a[k])));
        }
        assert forall|k: int| 0 <= k < b.len() implies key_at(h, #[trigger] b[k]) == new by {
            assert(one_key(new).contains(key_at(h, b[k])));
        }
        assert forall|key: Seq<char>| key_legal(h, #[trigger] only(h, order, key)) by {
            lemma_merged_only(h, a, b, new, key);
            assert(key_legal(h, only(h, a, key)));
        }
        order
    }
}

proof fn lemma_key_is_listed(ops: Seq<OpView>, n: int, i: int)
    requires
        0 <= i < n <= ops.len(),
    ensures
        crate::history::keys_of(ops, n).contains(ops[i].command.key()),
    decreases n,
{
    if i < n - 1 {
        lemma_key_is_listed(ops, n - 1, i);
    }
}

/// Operations on different keys cannot affect each other: a history is
/// linearizable exactly when each key's part of it is.
pub proof fn law_keys_can_be_checked_alone(h: HistoryView)
    requires
        h.ops.len() <= usize::MAX,
    ensures
        history_linearizable(h) <==> forall|key: Seq<char>| #[trigger]
            h.keys().contains(key) ==> crate::linearizability::linearizable(
                crate::linearizability::items_of(h.on_key(key)),
            ),
{
    let all = h.ops.len() as int;
    if history_linearizable(h) {
        let order = choose|order: Seq<int>| explains_history(h, order);
        lemma_legal_by_key(h, order);
        assert(order.take(order.len() as int) =~= order);
        assert forall|key: Seq<char>| #[trigger]
            h.keys().contains(key) implies crate::linearizability::linearizable(
            crate::linearizability::items_of(h.on_key(key)),
        ) by {
            let s = only(h, order, key);
            lemma_only_orders(h, order, order.len() as int, key);
            assert forall|k: int| 0 <= k < s.len() implies counts(h, #[trigger] s[k]) && one_key(
                key,
            ).contains(key_at(h, s[k])) by {
                assert(s.contains(s[k]));
                let j = choose|j: int| 0 <= j < order.len() && order[j] == s[k];
                assert(counts(h, order[j]));
            }
            assert forall|i: int|
                counts(h, i) && one_key(key).contains(key_at(h, i)) && (#[trigger] item(
                    h,
                    i,
                )).answer is Some implies s.contains(i) by {
                assert(order.contains(i));
            }
            lemma_to_items(h, key, s);
        }
    }
    if forall|key: Seq<char>| #[trigger]
        h.keys().contains(key) ==> crate::linearizability::linearizable(
            crate::linearizability::items_of(h.on_key(key)),
        ) {
        let keys = crate::kvmap::keys_in_order(h.keys());
        crate::linearizability::lemma_keys_finite(h.ops, all);
        crate::kvmap::lemma_keys_in_order_exists(h.keys());
        assert forall|k: int| 0 <= k < keys.len() implies crate::linearizability::linearizable(
            crate::linearizability::items_of(h.on_key(#[trigger] keys[k])),
        ) by {
            assert(keys.to_set().contains(keys[k]));
        }
        assert forall|i: int, j: int|
            0 <= i < keys.len() && 0 <= j < keys.len() && i != j implies keys[i] != keys[j] by {
            crate::kvmap::lemma_key_order(keys[i], keys[i], keys[i]);
            if i < j {
                assert(crate::kvmap::key_before(keys[i], keys[j]));
            } else {
                assert(crate::kvmap::key_before(keys[j], keys[i]));
            }
        }
        let n = keys.len() as int;
        let order = lemma_weave(h, keys, n);
        assert(keys.take(n) =~= keys);
        assert forall|i: int| counts(h, i) && (#[trigger] item(h, i)).answer
            is Some implies order.contains(i) by {
            lemma_key_is_listed(h.ops, all, i);
        }
        lemma_legal_by_key(h, order);
        assert(explains_history(h, order));
    }
}

/// The checker's answer is right about the whole history. It says linearizable
/// only of one that is, and not linearizable only of one that is not.
pub proof fn law_verdicts_are_right_about_the_whole(h: HistoryView, budget: u64)
    requires
        h.ops.len() <= usize::MAX,
    ensures
        crate::linearizability::verdict_on(h, budget) is Linearizable ==> history_linearizable(h),
        crate::linearizability::verdict_on(h, budget) matches VerdictView::NotLinearizable(e)
            ==> !history_linearizable(h),
{
    crate::linearizability::law_verdicts_are_right(h, budget);
    law_keys_can_be_checked_alone(h);
}

} // verus!
