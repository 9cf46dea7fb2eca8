//! JSON documents under construction.
use crate::json::{push_bool, push_name, push_number, push_text, Json};
use vstd::prelude::*;

verus! {

/// A JSON document that can be written out. The names of an object's members
/// are fixed in the code.
#[derive(Debug)]
pub enum Tree {
    Null,
    Bool(bool),
    Number(u64),
    Text(String),
    Array(Vec<Tree>),
    Object(Vec<(&'static str, Tree)>),
}

impl Tree {
    /// The document.
    pub open spec fn json(self) -> Json
        decreases self, 0int,
    {
        match self {
            Tree::Null => Json::Null,
            Tree::Bool(b) => Json::Bool(b),
            Tree::Number(n) => Json::Number(n as nat),
            Tree::Text(s) => Json::Text(s@),
            Tree::Array(items) => Json::Array(Tree::items(items@, items@.len() as int)),
            Tree::Object(members) => Json::Object(
                Tree::members(members@, members@.len() as int),
            ),
        }
    }

    /// The first `n` items of an array.
    pub open spec fn items(v: Seq<Tree>, n: int) -> Seq<Json>
        decreases v, n,
    {
        if n <= 0 || n > v.len() {
            Seq::empty()
        } else {
            Tree::items(v, n - 1).push(v[n - 1].json())
        }
    }

    /// The first `n` members of an object.
    pub open spec fn members(v: Seq<(&'static str, Tree)>, n: int) -> Seq<(Seq<char>, Json)>
        decreases v, n,
    {
        if n <= 0 || n > v.len() {
            Seq::empty()
        } else {
            Tree::members(v, n - 1).push((v[n - 1].0@, v[n - 1].1.json()))
        }
    }

    /// An array with nothing in it.
    pub fn array() -> (r: Tree)
        ensures
            r is Array,
            r.json() == Json::Array(Seq::empty()),
    {
        Tree::Array(Vec::new())
    }

    /// An array with one more item.
    pub fn and(self, item: Tree) -> (r: Tree)
        requires
            self is Array,
        ensures
            r is Array,
            r.json() == Json::Array(self.json()->Array_0.push(item.json())),
    {
        match self {
            Tree::Array(v) => {
                let mut v = v;
                let ghost before = v@;
                v.push(item);
                proof {
                    lemma_items_same(before, v@, before.len() as int);
                }
                Tree::Array(v)
            },
            _ => self,
        }
    }

    /// An object with nothing in it.
    pub fn object() -> (r: Tree)
        ensures
            r is Object,
            r.json() == Json::Object(Seq::empty()),
    {
        Tree::Object(Vec::new())
    }

    /// An object with one more member.
    pub fn with(self, name: &'static str, value: Tree) -> (r: Tree)
        requires
            self is Object,
        ensures
            r is Object,
            r.json() == Json::Object(self.json()->Object_0.push((name@, value.json()))),
    {
        match self {
            Tree::Object(v) => {
                let mut v = v;
                let ghost before = v@;
                v.push((name, value));
                proof {
                    lemma_members_same(before, v@, before.len() as int);
                }
                Tree::Object(v)
            },
            _ => self,
        }
    }

    /// A variant that carries something.
    pub fn tagged(tag: &'static str, body: Tree) -> (r: Tree)
        ensures
            r.json() == Json::tagged(tag@, body.json()),
    {
        Tree::object().with(tag, body)
    }

    /// A string.
    pub fn text(s: &str) -> (r: Tree)
        ensures
            r.json() == Json::Text(s@),
    {
        Tree::Text(s.to_owned())
    }

    /// A string, or `null` in place of none.
    pub fn optional_text(s: &Option<String>) -> (r: Tree)
        ensures
            r.json() == Json::optional_text(crate::json::text_view(*s)),
    {
        match s {
            None => Tree::Null,
            Some(s) => Tree::text(s.as_str()),
        }
    }

    /// Append this document to `out`.
    pub fn push_to(&self, out: &mut String)
        ensures
            final(out)@ == self.json().write(old(out)@),
        decreases self,
    {
        match self {
            Tree::Null => out.append("null"),
            Tree::Bool(b) => push_bool(out, *b),
            Tree::Number(n) => push_number(out, *n),
            Tree::Text(s) => push_text(out, s.as_str()),
            Tree::Array(v) => {
                let ghost items = Tree::items(v@, v@.len() as int);
                let ghost start = out@ + "["@;
                out.append("[");
                let mut i: usize = 0;
                while i < v.len()
                    invariant
                        self is Array,
                        v == self->Array_0,
                        items == Tree::items(v@, v@.len() as int),
                        i <= v@.len(),
                        out@ == Json::write_items(items, i as int, start),
                    decreases v@.len() - i,
                {
                    proof {
                        lemma_items_at(v@, v@.len() as int, i as int);
                    }
                    if i > 0 {
                        out.append(",");
                    }
                    assert(decreases_to!(self => v@[i as int]));
                    v[i].push_to(out);
                    i = i + 1;
                }
                proof {
                    lemma_items_at(v@, v@.len() as int, 0);
                }
                out.append("]");
            },
            Tree::Object(v) => {
                let ghost members = Tree::members(v@, v@.len() as int);
                let ghost start = out@ + "{"@;
                out.append("{");
                let mut i: usize = 0;
                while i < v.len()
                    invariant
                        self is Object,
                        v == self->Object_0,
                        members == Tree::members(v@, v@.len() as int),
                        i <= v@.len(),
                        out@ == Json::write_members(members, i as int, start),
                    decreases v@.len() - i,
                {
                    proof {
                        lemma_members_at(v@, v@.len() as int, i as int);
                    }
                    if i > 0 {
                        out.append(",");
                    }
                    push_name(out, v[i].0);
                    assert(decreases_to!(self => v@[i as int].1));
                    v[i].1.push_to(out);
                    i = i + 1;
                }
                proof {
                    lemma_members_at(v@, v@.len() as int, 0);
                }
                out.append("}");
            },
        }
    }
}

proof fn lemma_items_same(a: Seq<Tree>, b: Seq<Tree>, n: int)
    requires
        n <= a.len() <= b.len(),
        forall|i: int| 0 <= i < n ==> a[i] == b[i],
    ensures
        Tree::items(a, n) == Tree::items(b, n),
    decreases n,
{
    if n > 0 {
        lemma_items_same(a, b, n - 1);
    }
}

proof fn lemma_members_same(a: Seq<(&'static str, Tree)>, b: Seq<(&'static str, Tree)>, n: int)
    requires
        n <= a.len() <= b.len(),
        forall|i: int| 0 <= i < n ==> a[i] == b[i],
    ensures
        Tree::members(a, n) == Tree::members(b, n),
    decreases n,
{
    if n > 0 {
        lemma_members_same(a, b, n - 1);
    }
}

proof fn lemma_items_at(v: Seq<Tree>, n: int, i: int)
    requires
        0 <= n <= v.len(),
    ensures
        Tree::items(v, n).len() == n,
        0 <= i < n ==> Tree::items(v, n)[i] == v[i].json(),
    decreases n,
{
    if n > 0 {
        lemma_items_at(v, n - 1, i);
    }
}

proof fn lemma_members_at(v: Seq<(&'static str, Tree)>, n: int, i: int)
    requires
        0 <= n <= v.len(),
    ensures
        Tree::members(v, n).len() == n,
        0 <= i < n ==> Tree::members(v, n)[i] == (v[i].0@, v[i].1.json()),
    decreases n,
{
    if n > 0 {
        lemma_members_at(v, n - 1, i);
    }
}

} // verus!
