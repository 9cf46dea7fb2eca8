//! Ascending order: the one order in which sets and maps are walked.
//!
//! Iteration order feeds message send order, which feeds the event queue,
//! which decides an entire run. So a walk over a set is stated as *the*
//! ascending sequence of its members, of which there is exactly one.
use std::collections::{BTreeMap, BTreeSet};
use vstd::prelude::*;
use vstd::std_specs::cmp::OrdSpec;
use vstd::std_specs::iter::IteratorSpec;

verus! {

broadcast use {vstd::laws_cmp::group_laws_cmp, vstd::std_specs::btree::group_btree_axioms};

/// Strictly ascending.
pub open spec fn ascending(s: Seq<u32>) -> bool {
    forall|i: int, j: int| 0 <= i < j < s.len() ==> s[i] < s[j]
}

/// The members of a set in ascending order.
pub open spec fn in_order(s: Set<u32>) -> Seq<u32> {
    choose|q: Seq<u32>| ascending(q) && #[trigger] q.to_set() == s
}

/// Two ascending sequences over the same members are the same sequence.
pub proof fn lemma_ascending_unique(a: Seq<u32>, b: Seq<u32>)
    requires
        ascending(a),
        ascending(b),
        a.to_set() == b.to_set(),
    ensures
        a == b,
    decreases a.len(),
{
    if a.len() == 0 {
        if b.len() > 0 {
            assert(b.to_set().contains(b[0]));
            assert(a.to_set().contains(b[0]));
        }
        assert(a =~= b);
    } else {
        assert(a.to_set().contains(a.last()));
        assert(b.contains(a.last()));
        let i = choose|i: int| 0 <= i < b.len() && b[i] == a.last();
        assert(b.to_set().contains(b.last()));
        assert(a.contains(b.last()));
        let j = choose|j: int| 0 <= j < a.len() && a[j] == b.last();
        assert(a.last() == b.last());
        let a0 = a.drop_last();
        let b0 = b.drop_last();
        assert(a0.to_set() =~= b0.to_set()) by {
            assert forall|x: u32| a0.to_set().contains(x) implies b0.to_set().contains(x) by {
                let k = choose|k: int| 0 <= k < a0.len() && a0[k] == x;
                assert(a[k] == x);
                assert(a.to_set().contains(x));
                assert(b.contains(x));
                let m = choose|m: int| 0 <= m < b.len() && b[m] == x;
                assert(b0[m] == x);
            }
            assert forall|x: u32| b0.to_set().contains(x) implies a0.to_set().contains(x) by {
                let k = choose|k: int| 0 <= k < b0.len() && b0[k] == x;
                assert(b[k] == x);
                assert(b.to_set().contains(x));
                assert(a.contains(x));
                let m = choose|m: int| 0 <= m < a.len() && a[m] == x;
                assert(a0[m] == x);
            }
        }
        lemma_ascending_unique(a0, b0);
        assert(a =~= a0.push(a.last()));
        assert(b =~= b0.push(b.last()));
    }
}

/// An ascending sequence over the members of `s` is `in_order(s)`.
pub proof fn lemma_in_order_is(s: Set<u32>, q: Seq<u32>)
    requires
        ascending(q),
        q.to_set() == s,
    ensures
        in_order(s) == q,
        ascending(in_order(s)),
        in_order(s).to_set() == s,
{
    lemma_ascending_unique(in_order(s), q);
}

/// A finite set can be put in order.
pub proof fn lemma_in_order_exists(s: Set<u32>)
    requires
        s.finite(),
    ensures
        ascending(in_order(s)),
        in_order(s).to_set() == s,
        in_order(s).len() == s.len(),
    decreases s.len(),
{
    if s.len() == 0 {
        let q = Seq::<u32>::empty();
        assert(q.to_set() =~= s);
        lemma_in_order_is(s, q);
    } else {
        let top = lemma_greatest(s);
        let rest = s.remove(top);
        lemma_in_order_exists(rest);
        let q = in_order(rest).push(top);
        assert forall|i: int, j: int| 0 <= i < j < q.len() implies q[i] < q[j] by {
            if j == q.len() - 1 {
                assert(in_order(rest).to_set().contains(in_order(rest)[i]));
            }
        }
        assert(q.to_set() =~= s) by {
            assert forall|x: u32| s.contains(x) implies q.to_set().contains(x) by {
                if x == top {
                    assert(q[q.len() - 1] == x);
                } else {
                    assert(in_order(rest).to_set().contains(x));
                    let i = choose|i: int| 0 <= i < in_order(rest).len() && in_order(rest)[i] == x;
                    assert(q[i] == x);
                }
            }
            assert forall|x: u32| q.to_set().contains(x) implies s.contains(x) by {
                let i = choose|i: int| 0 <= i < q.len() && q[i] == x;
                if i < q.len() - 1 {
                    assert(in_order(rest)[i] == x);
                    assert(in_order(rest).to_set().contains(x));
                }
            }
        }
        lemma_in_order_is(s, q);
    }
}

/// A finite set that is not empty has a greatest member.
proof fn lemma_greatest(s: Set<u32>) -> (top: u32)
    requires
        s.finite(),
        s.len() > 0,
    ensures
        s.contains(top),
        forall|x: u32| s.contains(x) ==> x <= top,
    decreases s.len(),
{
    let a = s.choose();
    let rest = s.remove(a);
    if rest.len() == 0 {
        assert forall|x: u32| s.contains(x) implies x <= a by {
            if x != a {
                assert(rest.contains(x));
            }
        }
        a
    } else {
        let b = lemma_greatest(rest);
        let top = if a < b {
            b
        } else {
            a
        };
        assert forall|x: u32| s.contains(x) implies x <= top by {
            if x != a {
                assert(rest.contains(x));
            }
        }
        top
    }
}

/// What walking a `BTreeSet` yields is ascending and covers the set.
proof fn lemma_walk(q: Seq<&u32>, s: Set<u32>)
    requires
        vstd::std_specs::btree::increasing_seq(q),
        q.unref().to_set() == s,
    ensures
        ascending(q.unref()),
        in_order(s) == q.unref(),
        s.finite(),
        s.len() == q.len(),
{
    assert(vstd::laws_cmp::obeys_cmp::<u32>());
    assert(vstd::laws_cmp::obeys_cmp::<&u32>());
    let r = q.unref();
    assert forall|i: int, j: int| 0 <= i < j < r.len() implies r[i] < r[j] by {
        assert(OrdSpec::cmp_spec(&q[i], &q[j]) is Less);
    }
    lemma_in_order_is(s, r);
    assert(r.no_duplicates());
    r.unique_seq_to_set();
}

/// The members of `s`, ascending.
pub fn ids_in_order(s: &BTreeSet<u32>) -> (r: Vec<u32>)
    ensures
        r@ == in_order(s@),
        ascending(r@),
        r@.to_set() == s@,
        s@.finite(),
        s@.len() == r@.len(),
{
    let mut r: Vec<u32> = Vec::new();
    let walk = s.iter();
    let ghost full = walk.remaining();
    for x in it: walk
        invariant
            it.seq() == full,
            r@ == full.unref().take(it.index()),
    {
        r.push(*x);
        assert(r@ =~= full.unref().take(it.index() + 1));
    }
    proof {
        assert(r@ =~= full.unref());
        lemma_walk(full, s@);
    }
    r
}

/// The keys of `m`, ascending.
pub fn keys_in_order<V>(m: &BTreeMap<u32, V>) -> (r: Vec<u32>)
    ensures
        r@ == in_order(m@.dom()),
        ascending(r@),
        r@.to_set() == m@.dom(),
        m@.dom().finite(),
        m@.dom().len() == r@.len(),
{
    let mut r: Vec<u32> = Vec::new();
    let walk = m.keys();
    let ghost full = walk.remaining();
    for x in it: walk
        invariant
            it.seq() == full,
            r@ == full.unref().take(it.index()),
    {
        r.push(*x);
        assert(r@ =~= full.unref().take(it.index() + 1));
    }
    proof {
        assert(r@ =~= full.unref());
        lemma_walk(full, m@.dom());
    }
    r
}

/// Strictly ascending positions.
pub open spec fn climbing(s: Seq<u64>) -> bool {
    forall|i: int, j: int| 0 <= i < j < s.len() ==> s[i] < s[j]
}

/// The positions that `m` holds something for, ascending.
pub fn indices_in_order<V>(m: &BTreeMap<u64, V>) -> (r: Vec<u64>)
    ensures
        climbing(r@),
        r@.to_set() == m@.dom(),
{
    let mut r: Vec<u64> = Vec::new();
    let walk = m.keys();
    let ghost full = walk.remaining();
    for x in it: walk
        invariant
            it.seq() == full,
            r@ == full.unref().take(it.index()),
    {
        r.push(*x);
        assert(r@ =~= full.unref().take(it.index() + 1));
    }
    proof {
        assert(r@ =~= full.unref());
        assert(vstd::laws_cmp::obeys_cmp::<u64>());
        assert(vstd::laws_cmp::obeys_cmp::<&u64>());
        assert forall|i: int, j: int| 0 <= i < j < r@.len() implies r@[i] < r@[j] by {
            assert(OrdSpec::cmp_spec(&full[i], &full[j]) is Less);
        }
    }
    r
}

} // verus!
