//! An ordered map from strings to strings.
//!
//! Keys are kept in the order of their bytes, so that two replicas holding the
//! same pairs are the same value and write the same document.
use crate::json::{push_name, push_text, Json};
use vstd::prelude::*;

verus! {

/// `a` comes strictly before `b`, byte by byte.
pub open spec fn bytes_before(a: Seq<u8>, b: Seq<u8>) -> bool
    decreases a.len(),
{
    if b.len() == 0 {
        false
    } else if a.len() == 0 {
        true
    } else if a[0] != b[0] {
        a[0] < b[0]
    } else {
        bytes_before(a.drop_first(), b.drop_first())
    }
}

/// `a` comes strictly before `b` among keys.
pub open spec fn key_before(a: Seq<char>, b: Seq<char>) -> bool {
    bytes_before(vstd::utf8::encode_utf8(a), vstd::utf8::encode_utf8(b))
}

proof fn lemma_bytes_order(a: Seq<u8>, b: Seq<u8>, c: Seq<u8>)
    ensures
        !bytes_before(a, a),
        bytes_before(a, b) && bytes_before(b, c) ==> bytes_before(a, c),
        a == b || bytes_before(a, b) || bytes_before(b, a),
    decreases a.len() + b.len() + c.len(),
{
    if a.len() > 0 {
        let rest = Seq::<u8>::empty();
        if b.len() > 0 && c.len() > 0 {
            lemma_bytes_order(a.drop_first(), b.drop_first(), c.drop_first());
        }
        if b.len() > 0 {
            lemma_bytes_order(a.drop_first(), b.drop_first(), rest);
            if a[0] == b[0] && a.drop_first() == b.drop_first() {
                assert(a =~= seq![a[0]] + a.drop_first());
                assert(b =~= seq![b[0]] + b.drop_first());
            }
        }
        lemma_bytes_order(a.drop_first(), rest, rest);
    } else {
        if b.len() == 0 {
            assert(a =~= b);
        }
    }
}

/// Keys are totally ordered.
pub proof fn lemma_key_order(a: Seq<char>, b: Seq<char>, c: Seq<char>)
    ensures
        !key_before(a, a),
        key_before(a, b) && key_before(b, c) ==> key_before(a, c),
        a == b || key_before(a, b) || key_before(b, a),
{
    lemma_bytes_order(
        vstd::utf8::encode_utf8(a),
        vstd::utf8::encode_utf8(b),
        vstd::utf8::encode_utf8(c),
    );
    vstd::utf8::encode_utf8_decode_utf8(a);
    vstd::utf8::encode_utf8_decode_utf8(b);
}

/// Strictly ascending keys.
pub open spec fn keys_ascend(keys: Seq<Seq<char>>) -> bool {
    forall|i: int, j: int| 0 <= i < j < keys.len() ==> key_before(keys[i], keys[j])
}

/// A set of keys in order.
pub open spec fn keys_in_order(s: Set<Seq<char>>) -> Seq<Seq<char>> {
    choose|q: Seq<Seq<char>>| keys_ascend(q) && #[trigger] q.to_set() == s
}

proof fn lemma_keys_unique(a: Seq<Seq<char>>, b: Seq<Seq<char>>)
    requires
        keys_ascend(a),
        keys_ascend(b),
        a.to_set() == b.to_set(),
    ensures
        a == b,
    decreases a.len(),
{
    if a.len() == 0 {
        if b.len() > 0 {
            assert(b.to_set().contains(b[0]));
            assert(a.to_set().contains(b[0]));
        }
        assert(a =~= b);
    } else {
        assert(a.to_set().contains(a.last()));
        assert(b.contains(a.last()));
        let i = choose|i: int| 0 <= i < b.len() && b[i] == a.last();
        assert(b.to_set().contains(b.last()));
        assert(a.contains(b.last()));
        let j = choose|j: int| 0 <= j < a.len() && a[j] == b.last();
        lemma_key_order(a.last(), b.last(), a.last());
        if i < b.len() - 1 {
            assert(key_before(b[i], b.last()));
            if j < a.len() - 1 {
                assert(key_before(a[j], a.last()));
            }
        }
        assert(a.last() == b.last());
        let a0 = a.drop_last();
        let b0 = b.drop_last();
        assert(a0.to_set() =~= b0.to_set()) by {
            assert forall|x: Seq<char>| a0.to_set().contains(x) implies b0.to_set().contains(
                x,
            ) by {
                let k = choose|k: int| 0 <= k < a0.len() && a0[k] == x;
                assert(a[k] == x);
                assert(a.to_set().contains(x));
                assert(b.contains(x));
                let m = choose|m: int| 0 <= m < b.len() && b[m] == x;
                if m == b.len() - 1 {
                    assert(key_before(a[k], a.last()));
                    lemma_key_order(x, x, x);
                }
                assert(b0[m] == x);
            }
            assert forall|x: Seq<char>| b0.to_set().contains(x) implies a0.to_set().contains(
                x,
            ) by {
                let k = choose|k: int| 0 <= k < b0.len() && b0[k] == x;
                assert(b[k] == x);
                assert(b.to_set().contains(x));
                assert(a.contains(x));
                let m = choose|m: int| 0 <= m < a.len() && a[m] == x;
                if m == a.len() - 1 {
                    assert(key_before(b[k], b.last()));
                    lemma_key_order(x, x, x);
                }
                assert(a0[m] == x);
            }
        }
        lemma_keys_unique(a0, b0);
        assert(a =~= a0.push(a.last()));
        assert(b =~= b0.push(b.last()));
    }
}

/// A finite set of keys that is not empty has a last one.
proof fn lemma_last_key(s: Set<Seq<char>>) -> (top: Seq<char>)
    requires
        s.finite(),
        s.len() > 0,
    ensures
        s.contains(top),
        forall|x: Seq<char>| s.contains(x) && x != top ==> key_before(x, top),
    decreases s.len(),
{
    let a = s.choose();
    let rest = s.remove(a);
    if rest.len() == 0 {
        assert forall|x: Seq<char>| s.contains(x) && x != a implies key_before(x, a) by {
            assert(rest.contains(x));
        }
        a
    } else {
        let b = lemma_last_key(rest);
        lemma_key_order(a, b, a);
        let top = if key_before(a, b) {
            b
        } else {
            a
        };
        assert forall|x: Seq<char>| s.contains(x) && x != top implies key_before(x, top) by {
            if x != a {
                assert(rest.contains(x));
                if top == a && x != b {
                    lemma_key_order(x, b, a);
                }
            }
        }
        top
    }
}

/// Every finite set of keys can be put in order.
pub proof fn lemma_keys_in_order_exists(s: Set<Seq<char>>)
    requires
        s.finite(),
    ensures
        keys_ascend(keys_in_order(s)),
        keys_in_order(s).to_set() == s,
    decreases s.len(),
{
    if s.len() == 0 {
        let q = Seq::<Seq<char>>::empty();
        assert(q.to_set() =~= s);
        lemma_keys_in_order_is(s, q);
    } else {
        let top = lemma_last_key(s);
        let rest = s.remove(top);
        lemma_keys_in_order_exists(rest);
        let p = keys_in_order(rest);
        let q = p.push(top);
        assert forall|i: int, j: int| 0 <= i < j < q.len() implies key_before(q[i], q[j]) by {
            if j == p.len() {
                assert(p.to_set().contains(p[i]));
            }
        }
        assert(q.to_set() =~= s) by {
            assert forall|x: Seq<char>| s.contains(x) implies q.to_set().contains(x) by {
                if x == top {
                    assert(q[p.len() as int] == x);
                } else {
                    assert(p.to_set().contains(x));
                    let i = choose|i: int| 0 <= i < p.len() && p[i] == x;
                    assert(q[i] == x);
                }
            }
            assert forall|x: Seq<char>| q.to_set().contains(x) implies s.contains(x) by {
                let i = choose|i: int| 0 <= i < q.len() && q[i] == x;
                if i < p.len() {
                    assert(p[i] == x);
                    assert(p.to_set().contains(x));
                }
            }
        }
        lemma_keys_in_order_is(s, q);
    }
}

/// An ascending sequence over the keys of `s` is `keys_in_order(s)`.
pub proof fn lemma_keys_in_order_is(s: Set<Seq<char>>, q: Seq<Seq<char>>)
    requires
        keys_ascend(q),
        q.to_set() == s,
    ensures
        keys_in_order(s) == q,
{
    lemma_keys_unique(keys_in_order(s), q);
}

/// Whether two strings are the same.
pub(crate) fn same_str(a: &str, b: &str) -> (r: bool)
    ensures
        r == (a@ == b@),
{
    match place_of(a, b) {
        Place::Same => true,
        _ => false,
    }
}

/// Where one key stands relative to another.
enum Place {
    Before,
    Same,
    After,
}

/// Compare two keys.
fn place_of(a: &str, b: &str) -> (r: Place)
    ensures
        r is Before == key_before(a@, b@),
        r is Same == (a@ == b@),
        r is After == key_before(b@, a@),
{
    let x = a.as_bytes();
    let y = b.as_bytes();
    proof {
        lemma_key_order(a@, b@, a@);
        lemma_key_order(b@, a@, b@);
        vstd::utf8::encode_utf8_decode_utf8(a@);
        vstd::utf8::encode_utf8_decode_utf8(b@);
    }
    let mut i: usize = 0;
    assert(x@.skip(0) =~= x@);
    assert(y@.skip(0) =~= y@);
    while i < x.len() && i < y.len()
        invariant
            i <= x@.len(),
            i <= y@.len(),
            x@ == vstd::utf8::encode_utf8(a@),
            y@ == vstd::utf8::encode_utf8(b@),
            forall|k: int| 0 <= k < i ==> x@[k] == y@[k],
            bytes_before(x@, y@) == bytes_before(x@.skip(i as int), y@.skip(i as int)),
            bytes_before(y@, x@) == bytes_before(y@.skip(i as int), x@.skip(i as int)),
        decreases x@.len() - i,
    {
        let ghost xs = x@.skip(i as int);
        let ghost ys = y@.skip(i as int);
        assert(xs[0] == x@[i as int]);
        assert(ys[0] == y@[i as int]);
        if x[i] < y[i] {
            assert(bytes_before(xs, ys));
            assert(!bytes_before(ys, xs));
            proof {
                if a@ == b@ {
                    lemma_key_order(a@, a@, a@);
                }
            }
            return Place::Before;
        }
        if x[i] > y[i] {
            assert(bytes_before(ys, xs));
            assert(!bytes_before(xs, ys));
            proof {
                if a@ == b@ {
                    lemma_key_order(a@, a@, a@);
                }
            }
            return Place::After;
        }
        assert(xs.drop_first() =~= x@.skip(i + 1));
        assert(ys.drop_first() =~= y@.skip(i + 1));
        i = i + 1;
    }
    proof {
        if a@ == b@ {
            lemma_key_order(a@, a@, a@);
        }
    }
    if x.len() == y.len() {
        proof {
            assert(x@ =~= y@);
            assert(a@ == b@);
        }
        Place::Same
    } else if x.len() < y.len() {
        Place::Before
    } else {
        Place::After
    }
}

#[derive(Debug, PartialEq, Eq)]
pub struct KvMap {
    entries: Vec<(String, String)>,
}

impl View for KvMap {
    type V = Map<Seq<char>, Seq<char>>;

    closed spec fn view(&self) -> Map<Seq<char>, Seq<char>> {
        crate::json::pairs_map(self.entries@)
    }
}

spec fn entries_ascend(entries: Seq<(String, String)>) -> bool {
    forall|i: int, j: int|
        0 <= i < j < entries.len() ==> key_before(
            (#[trigger] entries[i]).0@,
            (#[trigger] entries[j]).0@,
        )
}

proof fn lemma_ascending_pairs_are_distinct(entries: Seq<(String, String)>)
    requires
        entries_ascend(entries),
    ensures
        crate::json::distinct_pairs(entries),
{
    assert forall|i: int, j: int| 0 <= i < j < entries.len() implies (#[trigger] entries[i]).0@
        != (#[trigger] entries[j]).0@ by {
        lemma_key_order(entries[i].0@, entries[i].0@, entries[i].0@);
    }
}

/// With distinct keys, each pair stands for itself.
pub(crate) proof fn lemma_pair_at(entries: Seq<(String, String)>, i: int)
    requires
        crate::json::distinct_pairs(entries),
        0 <= i < entries.len(),
    ensures
        crate::json::pairs_map(entries).contains_key(entries[i].0@),
        crate::json::pairs_map(entries)[entries[i].0@] == entries[i].1@,
{
    let name = entries[i].0@;
    let k = choose|k: int| 0 <= k < entries.len() && (#[trigger] entries[k]).0@ == name;
    assert(entries[i].0@ == name);
    assert(k == i);
}

impl Clone for KvMap {
    fn clone(&self) -> (r: Self)
        ensures
            r@ == self@,
            self.wf() ==> r.wf(),
    {
        let mut entries: Vec<(String, String)> = Vec::new();
        let mut i: usize = 0;
        while i < self.entries.len()
            invariant
                i <= self.entries.len(),
                entries@ =~= self.entries@.take(i as int),
            decreases self.entries.len() - i,
        {
            let key = self.entries[i].0.clone();
            let value = self.entries[i].1.clone();
            entries.push((key, value));
            i = i + 1;
        }
        assert(entries@ =~= self.entries@);
        KvMap { entries }
    }
}

impl KvMap {
    /// Keys are in order.
    pub closed spec fn wf(&self) -> bool {
        entries_ascend(self.entries@)
    }

    pub fn new() -> (r: Self)
        ensures
            r.wf(),
            r@ == Map::<Seq<char>, Seq<char>>::empty(),
    {
        let r = KvMap { entries: Vec::new() };
        assert(r@ =~= Map::<Seq<char>, Seq<char>>::empty());
        r
    }

    /// The first position whose key does not come before `key`.
    fn position(&self, key: &str) -> (r: (usize, bool))
        requires
            self.wf(),
        ensures
            r.0 <= self.entries@.len(),
            forall|i: int| 0 <= i < r.0 ==> key_before((#[trigger] self.entries@[i]).0@, key@),
            r.1 ==> r.0 < self.entries@.len() && self.entries@[r.0 as int].0@ == key@,
            !r.1 ==> forall|i: int|
                r.0 <= i < self.entries@.len() ==> key_before(
                    key@,
                    (#[trigger] self.entries@[i]).0@,
                ),
            r.1 == self@.contains_key(key@),
    {
        let mut i: usize = 0;
        while i < self.entries.len()
            invariant
                i <= self.entries@.len(),
                self.wf(),
                forall|k: int| 0 <= k < i ==> key_before((#[trigger] self.entries@[k]).0@, key@),
            decreases self.entries@.len() - i,
        {
            match place_of(self.entries[i].0.as_str(), key) {
                Place::Before => {},
                Place::Same => {
                    assert(self.entries@[i as int].0@ == key@);
                    return (i, true);
                },
                Place::After => {
                    proof {
                        assert forall|k: int| i <= k < self.entries@.len() implies key_before(
                            key@,
                            (#[trigger] self.entries@[k]).0@,
                        ) by {
                            if k > i {
                                lemma_key_order(
                                    key@,
                                    self.entries@[i as int].0@,
                                    self.entries@[k].0@,
                                );
                            }
                        }
                        lemma_key_order(key@, key@, key@);
                    }
                    return (i, false);
                },
            }
            i = i + 1;
        }
        proof {
            lemma_key_order(key@, key@, key@);
        }
        (i, false)
    }

    pub fn get(&self, key: &str) -> (r: Option<&String>)
        requires
            self.wf(),
        ensures
            r is Some == self@.contains_key(key@),
            r matches Some(v) ==> v@ == self@[key@],
    {
        let (i, found) = self.position(key);
        if found {
            proof {
                lemma_ascending_pairs_are_distinct(self.entries@);
                lemma_pair_at(self.entries@, i as int);
            }
            Some(&self.entries[i].1)
        } else {
            None
        }
    }

    pub fn insert(&mut self, key: String, value: String)
        requires
            old(self).wf(),
        ensures
            final(self).wf(),
            final(self)@ == old(self)@.insert(key@, value@),
    {
        let (i, found) = self.position(key.as_str());
        let ghost before = self.entries@;
        let ghost k = key@;
        let ghost v = value@;
        if found {
            self.entries.set(i, (key, value));
        } else {
            self.entries.insert(i, (key, value));
        }
        let ghost after = self.entries@;
        proof {
            lemma_ascending_pairs_are_distinct(before);
            if found {
                assert(entries_ascend(after)) by {
                    assert forall|a: int, b: int| 0 <= a < b < after.len() implies key_before(
                        (#[trigger] after[a]).0@,
                        (#[trigger] after[b]).0@,
                    ) by {
                        assert(after[a].0@ == before[a].0@);
                        assert(after[b].0@ == before[b].0@);
                    }
                }
            } else {
                assert(entries_ascend(after)) by {
                    assert forall|a: int, b: int| 0 <= a < b < after.len() implies key_before(
                        (#[trigger] after[a]).0@,
                        (#[trigger] after[b]).0@,
                    ) by {
                        if a < i {
                            assert(after[a] == before[a]);
                        }
                        if a > i {
                            assert(after[a] == before[a - 1]);
                        }
                        if b < i {
                            assert(after[b] == before[b]);
                        }
                        if b > i {
                            assert(after[b] == before[b - 1]);
                        }
                    }
                }
            }
            lemma_ascending_pairs_are_distinct(after);
            let old_map = crate::json::pairs_map(before);
            let new_map = crate::json::pairs_map(after);
            assert forall|x: Seq<char>| new_map.contains_key(x) implies old_map.insert(
                k,
                v,
            ).contains_key(x) && new_map[x] == old_map.insert(k, v)[x] by {
                let a = choose|a: int| 0 <= a < after.len() && (#[trigger] after[a]).0@ == x;
                lemma_pair_at(after, a);
                if a != i {
                    let b = if found || a < i {
                        a
                    } else {
                        a - 1
                    };
                    assert(after[a] == before[b]);
                    lemma_pair_at(before, b);
                    assert(x != k) by {
                        assert(after[i as int].0@ == k);
                    }
                } else {
                    assert(x == k);
                }
            }
            assert forall|x: Seq<char>| old_map.insert(k, v).contains_key(
                x,
            ) implies new_map.contains_key(x) by {
                if x == k {
                    assert(after[i as int].0@ == k);
                } else {
                    let b = choose|b: int| 0 <= b < before.len() && (#[trigger] before[b]).0@ == x;
                    if found || b < i {
                        assert(after[b].0@ == x);
                    } else {
                        assert(after[b + 1].0@ == x);
                    }
                }
            }
            assert(new_map =~= old_map.insert(k, v));
        }
    }

    pub fn remove(&mut self, key: &str)
        requires
            old(self).wf(),
        ensures
            final(self).wf(),
            final(self)@ == old(self)@.remove(key@),
    {
        let (i, found) = self.position(key);
        if !found {
            assert(self@.remove(key@) =~= self@);
            return;
        }
        let ghost before = self.entries@;
        self.entries.remove(i);
        let ghost after = self.entries@;
        proof {
            lemma_ascending_pairs_are_distinct(before);
            assert(entries_ascend(after)) by {
                assert forall|a: int, b: int| 0 <= a < b < after.len() implies key_before(
                    (#[trigger] after[a]).0@,
                    (#[trigger] after[b]).0@,
                ) by {
                    let a0 = if a < i {
                        a
                    } else {
                        a + 1
                    };
                    let b0 = if b < i {
                        b
                    } else {
                        b + 1
                    };
                    assert(after[a] == before[a0]);
                    assert(after[b] == before[b0]);
                }
            }
            lemma_ascending_pairs_are_distinct(after);
            let old_map = crate::json::pairs_map(before);
            let new_map = crate::json::pairs_map(after);
            assert forall|x: Seq<char>| new_map.contains_key(x) implies old_map.remove(
                key@,
            ).contains_key(x) && new_map[x] == old_map[x] by {
                let a = choose|a: int| 0 <= a < after.len() && (#[trigger] after[a]).0@ == x;
                lemma_pair_at(after, a);
                let b = if a < i {
                    a
                } else {
                    a + 1
                };
                assert(after[a] == before[b]);
                lemma_pair_at(before, b);
                assert(before[i as int].0@ == key@);
            }
            assert forall|x: Seq<char>| old_map.remove(key@).contains_key(
                x,
            ) implies new_map.contains_key(x) by {
                let b = choose|b: int| 0 <= b < before.len() && (#[trigger] before[b]).0@ == x;
                if b < i {
                    assert(after[b].0@ == x);
                } else {
                    assert(after[b - 1].0@ == x);
                }
            }
            assert(new_map =~= old_map.remove(key@));
        }
    }

    /// The keys in order.
    proof fn lemma_order(&self)
        requires
            self.wf(),
        ensures
            keys_in_order(self@.dom()) == Seq::new(
                self.entries@.len(),
                |i: int| self.entries@[i].0@,
            ),
            self@.dom().finite(),
            self@.dom().len() == self.entries@.len(),
    {
        let q = Seq::new(self.entries@.len(), |i: int| self.entries@[i].0@);
        lemma_ascending_pairs_are_distinct(self.entries@);
        assert(q.to_set() =~= self@.dom()) by {
            assert forall|x: Seq<char>| q.to_set().contains(x) implies self@.dom().contains(x) by {
                let i = choose|i: int| 0 <= i < q.len() && q[i] == x;
                lemma_pair_at(self.entries@, i);
            }
            assert forall|x: Seq<char>| self@.dom().contains(x) implies q.to_set().contains(x) by {
                let i = choose|i: int|
                    0 <= i < self.entries@.len() && (#[trigger] self.entries@[i]).0@ == x;
                assert(q[i] == x);
            }
        }
        lemma_keys_in_order_is(self@.dom(), q);
        assert(q.no_duplicates());
        q.unique_seq_to_set();
    }

    /// As members of an object, no name occurs twice.
    pub(crate) proof fn lemma_members_distinct(&self)
        requires
            self.wf(),
        ensures
            crate::json::distinct_names(map_members(self@)),
    {
        self.lemma_order();
        lemma_ascending_pairs_are_distinct(self.entries@);
        let ms = map_members(self@);
        assert forall|i: int, j: int| 0 <= i < j < ms.len() implies (#[trigger] ms[i]).0 != (
        #[trigger] ms[j]).0 by {
            assert(self.entries@[i].0@ != self.entries@[j].0@);
        }
    }

    /// As members of an object, each pair is found under its key.
    pub(crate) proof fn lemma_member_of(&self, key: Seq<char>)
        requires
            self.wf(),
        ensures
            crate::json::member_texts(map_members(self@)).contains_key(key)
                <==> self@.contains_key(key),
            self@.contains_key(key) ==> crate::json::member_texts(map_members(self@))[key]
                == Json::Text(self@[key]).text(),
    {
        self.lemma_order();
        self.lemma_members_distinct();
        let ms = map_members(self@);
        if self@.contains_key(key) {
            let i = choose|i: int|
                0 <= i < self.entries@.len() && (#[trigger] self.entries@[i]).0@ == key;
            assert(ms[i].0 == key);
            let k = choose|k: int| 0 <= k < ms.len() && (#[trigger] ms[k]).0 == key;
            assert(k == i);
        }
        if crate::json::member_texts(ms).contains_key(key) {
            let i = choose|i: int| 0 <= i < ms.len() && (#[trigger] ms[i]).0 == key;
            assert(self.entries@[i].0@ == key);
        }
    }

    pub fn len(&self) -> (r: usize)
        requires
            self.wf(),
        ensures
            r == self@.dom().len(),
    {
        proof {
            self.lemma_order();
        }
        self.entries.len()
    }

    pub fn is_empty(&self) -> (r: bool)
        requires
            self.wf(),
        ensures
            r == (self@.dom().len() == 0),
            r == (self@ == Map::<Seq<char>, Seq<char>>::empty()),
    {
        proof {
            self.lemma_order();
            if self.entries@.len() == 0 {
                assert(self@.dom() =~= Set::empty());
                assert(self@ =~= Map::<Seq<char>, Seq<char>>::empty());
            }
        }
        self.entries.len() == 0
    }

    /// The keys, in order.
    pub fn keys(&self) -> (r: Vec<String>)
        requires
            self.wf(),
        ensures
            r@.len() == keys_in_order(self@.dom()).len(),
            forall|i: int|
                0 <= i < r@.len() ==> (#[trigger] r@[i])@ == keys_in_order(self@.dom())[i],
    {
        proof {
            self.lemma_order();
        }
        let mut r: Vec<String> = Vec::new();
        let mut i: usize = 0;
        while i < self.entries.len()
            invariant
                i <= self.entries.len(),
                r@.len() == i,
                forall|k: int| 0 <= k < i ==> (#[trigger] r@[k])@ == self.entries@[k].0@,
            decreases self.entries.len() - i,
        {
            r.push(self.entries[i].0.clone());
            i = i + 1;
        }
        r
    }

    /// Append the map as a JSON object.
    pub fn write_json(&self, out: &mut String)
        requires
            self.wf(),
        ensures
            final(out)@ == map_json(self@).write(old(out)@),
    {
        let ghost members = map_members(self@);
        proof {
            self.lemma_order();
            lemma_ascending_pairs_are_distinct(self.entries@);
            assert(members.len() == self.entries@.len());
        }
        out.append("{");
        let ghost start = out@;
        let mut i: usize = 0;
        while i < self.entries.len()
            invariant
                i <= self.entries.len(),
                members.len() == self.entries@.len(),
                members == map_members(self@),
                keys_in_order(self@.dom()) == Seq::new(
                    self.entries@.len(),
                    |i: int| self.entries@[i].0@,
                ),
                crate::json::distinct_pairs(self.entries@),
                out@ == Json::write_members(members, i as int, start),
            decreases self.entries.len() - i,
        {
            proof {
                lemma_pair_at(self.entries@, i as int);
            }
            if i > 0 {
                out.append(",");
            }
            push_name(out, self.entries[i].0.as_str());
            push_text(out, self.entries[i].1.as_str());
            i = i + 1;
        }
        out.append("}");
    }
}

/// The pairs of a map as members of an object, in order.
pub open spec fn map_members(m: Map<Seq<char>, Seq<char>>) -> Seq<(Seq<char>, Json)> {
    let keys = keys_in_order(m.dom());
    Seq::new(keys.len(), |i: int| (keys[i], Json::Text(m[keys[i]])))
}

/// A map as an object.
pub open spec fn map_json(m: Map<Seq<char>, Seq<char>>) -> Json {
    Json::Object(map_members(m))
}

} // verus!
