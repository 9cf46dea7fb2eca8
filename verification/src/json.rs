//! JSON, as a value and as text.
//!
//! Commands, state machine snapshots and traces are JSON. What a document says
//! is a [`Json`] value; what it looks like is [`Json::write`], stated as text
//! appended to what is already there. Strings are quoted and documents are
//! read by `serde_json`; everything else is written here.
use crate::text::push_decimal;
use serde_json::value::RawValue;
use std::collections::BTreeMap;
use vstd::prelude::*;

verus! {

/// A JSON document.
pub enum Json {
    Null,
    Bool(bool),
    Number(nat),
    Text(Seq<char>),
    Array(Seq<Json>),
    Object(Seq<(Seq<char>, Json)>),
}

/// One hexadecimal digit, lower case.
pub open spec fn hex_digit(d: int) -> char {
    if d < 10 {
        (48 + d) as char
    } else {
        (87 + d) as char
    }
}

/// A character inside a JSON string.
pub open spec fn escaped(c: char) -> Seq<char> {
    let code = c as int;
    if code == 34 || code == 92 {
        seq!['\\', c]
    } else if code == 8 {
        seq!['\\', 'b']
    } else if code == 9 {
        seq!['\\', 't']
    } else if code == 10 {
        seq!['\\', 'n']
    } else if code == 12 {
        seq!['\\', 'f']
    } else if code == 13 {
        seq!['\\', 'r']
    } else if code < 32 {
        seq!['\\', 'u', '0', '0', hex_digit(code / 16), hex_digit(code % 16)]
    } else {
        seq![c]
    }
}

/// The first `n` characters of a JSON string's contents.
pub open spec fn escaped_prefix(s: Seq<char>, n: int) -> Seq<char>
    decreases n,
{
    if n <= 0 {
        Seq::empty()
    } else {
        escaped_prefix(s, n - 1) + escaped(s[n - 1])
    }
}

/// A JSON string: quotes around the escaped characters.
pub open spec fn quoted_text(s: Seq<char>) -> Seq<char> {
    seq!['"'] + escaped_prefix(s, s.len() as int) + seq!['"']
}

/// `out` with a new line begun, indented for `level`.
pub open spec fn new_line(out: Seq<char>, level: nat) -> Seq<char> {
    out + "\n"@ + Seq::new(2 * level, |i: int| ' ')
}

/// The name under which `serde_json` passes raw values around: an object that
/// starts with it is not read as an object.
pub open spec fn reserved(name: Seq<char>) -> bool {
    name == "$serde_json::private::RawValue"@
}

/// How many arrays and objects may stand inside each other in a document that is
/// read: one level less than the reader's own limit.
pub const LEVELS: usize = 127;

impl Json {
    /// `out` with this document appended.
    pub open spec fn write(self, out: Seq<char>) -> Seq<char>
        decreases self, 0int,
    {
        match self {
            Json::Null => out + "null"@,
            Json::Bool(b) => if b {
                out + "true"@
            } else {
                out + "false"@
            },
            Json::Number(n) => out + crate::text::decimal(n),
            Json::Text(s) => out + quoted_text(s),
            Json::Array(items) => Json::write_items(items, items.len() as int, out + "["@) + "]"@,
            Json::Object(members) => Json::write_members(
                members,
                members.len() as int,
                out + "{"@,
            ) + "}"@,
        }
    }

    /// `out` with the first `n` items of an array appended.
    pub open spec fn write_items(items: Seq<Json>, n: int, out: Seq<char>) -> Seq<char>
        decreases items, n,
    {
        if n <= 0 || n > items.len() {
            out
        } else {
            let before = Json::write_items(items, n - 1, out);
            items[n - 1].write(
                if n > 1 {
                    before + ","@
                } else {
                    before
                },
            )
        }
    }

    /// `out` with the first `n` members of an object appended.
    pub open spec fn write_members(
        members: Seq<(Seq<char>, Json)>,
        n: int,
        out: Seq<char>,
    ) -> Seq<char>
        decreases members, n,
    {
        if n <= 0 || n > members.len() {
            out
        } else {
            let before = Json::write_members(members, n - 1, out);
            let named = (if n > 1 {
                before + ","@
            } else {
                before
            }) + quoted_text(members[n - 1].0) + ":"@;
            members[n - 1].1.write(named)
        }
    }

    /// `out` with this document appended, laid out over several lines: each item
    /// and each member on a line of its own, two blanks in for each level.
    pub open spec fn lay(self, out: Seq<char>, level: nat) -> Seq<char>
        decreases self, 0int,
    {
        match self {
            Json::Array(items) if items.len() > 0 => new_line(
                Json::lay_items(items, items.len() as int, out + "["@, level + 1),
                level,
            ) + "]"@,
            Json::Object(members) if members.len() > 0 => new_line(
                Json::lay_members(members, members.len() as int, out + "{"@, level + 1),
                level,
            ) + "}"@,
            _ => self.write(out),
        }
    }

    /// `out` with the first `n` items of an array appended, each on its line.
    pub open spec fn lay_items(items: Seq<Json>, n: int, out: Seq<char>, level: nat) -> Seq<char>
        decreases items, n,
    {
        if n <= 0 || n > items.len() {
            out
        } else {
            let before = Json::lay_items(items, n - 1, out, level);
            items[n - 1].lay(
                new_line(
                    if n > 1 {
                        before + ","@
                    } else {
                        before
                    },
                    level,
                ),
                level,
            )
        }
    }

    /// `out` with the first `n` members of an object appended, each on its line.
    pub open spec fn lay_members(
        members: Seq<(Seq<char>, Json)>,
        n: int,
        out: Seq<char>,
        level: nat,
    ) -> Seq<char>
        decreases members, n,
    {
        if n <= 0 || n > members.len() {
            out
        } else {
            let before = Json::lay_members(members, n - 1, out, level);
            let named = new_line(
                if n > 1 {
                    before + ","@
                } else {
                    before
                },
                level,
            ) + quoted_text(members[n - 1].0) + ": "@;
            members[n - 1].1.lay(named, level)
        }
    }

    /// This document on its own, laid out over several lines.
    pub open spec fn lines(self) -> Seq<char> {
        self.lay(Seq::empty(), 0)
    }

    /// No more than `levels` arrays and objects inside each other, no name twice
    /// in an object, none that is reserved, and no number that needs more than 64
    /// bits.
    pub open spec fn plain(self, levels: nat) -> bool
        decreases levels,
    {
        match self {
            Json::Number(n) => n <= u64::MAX,
            Json::Array(items) => levels > 0 && forall|i: int|
                0 <= i < items.len() ==> (#[trigger] items[i]).plain((levels - 1) as nat),
            Json::Object(members) => levels > 0 && distinct_names(members) && forall|i: int|
                0 <= i < members.len() ==> !reserved((#[trigger] members[i]).0)
                    && members[i].1.plain((levels - 1) as nat),
            _ => true,
        }
    }

    /// This document on its own.
    pub open spec fn text(self) -> Seq<char> {
        self.write(Seq::empty())
    }

    /// This document as bytes.
    pub open spec fn bytes(self) -> Seq<u8> {
        vstd::utf8::encode_utf8(self.text())
    }

    /// A string, or `null` in place of none.
    pub open spec fn optional_text(s: Option<Seq<char>>) -> Json {
        match s {
            None => Json::Null,
            Some(s) => Json::Text(s),
        }
    }

    /// A variant that carries something: an object with one member, named after
    /// the variant.
    pub open spec fn tagged(tag: Seq<char>, body: Json) -> Json {
        Json::Object(seq![(tag, body)])
    }
}

/// No name occurs twice.
pub open spec fn distinct_names(members: Seq<(Seq<char>, Json)>) -> bool {
    forall|i: int, j: int|
        0 <= i < j < members.len() ==> (#[trigger] members[i]).0 != (#[trigger] members[j]).0
}

/// The members of an object by name, each as the text of its value.
pub open spec fn member_texts(members: Seq<(Seq<char>, Json)>) -> Map<Seq<char>, Seq<char>> {
    Map::new(
        |name: Seq<char>| exists|i: int| 0 <= i < members.len() && (#[trigger] members[i]).0 == name,
        |name: Seq<char>|
            {
                let i = choose|i: int| 0 <= i < members.len() && (#[trigger] members[i]).0 == name;
                members[i].1.text()
            },
    )
}

/// What pairs of strings say as a map.
pub open spec fn pairs_map(pairs: Seq<(String, String)>) -> Map<Seq<char>, Seq<char>> {
    Map::new(
        |name: Seq<char>| exists|i: int| 0 <= i < pairs.len() && (#[trigger] pairs[i]).0@ == name,
        |name: Seq<char>|
            {
                let i = choose|i: int| 0 <= i < pairs.len() && (#[trigger] pairs[i]).0@ == name;
                pairs[i].1@
            },
    )
}

/// No first half occurs twice.
pub open spec fn distinct_pairs(pairs: Seq<(String, String)>) -> bool {
    forall|i: int, j: int|
        0 <= i < j < pairs.len() ==> (#[trigger] pairs[i]).0@ != (#[trigger] pairs[j]).0@
}

/// A document appended to something is that, followed by the document alone.
pub proof fn lemma_write_appends(j: Json, out: Seq<char>)
    ensures
        j.write(out) == out + j.text(),
    decreases j, 0int,
{
    let none = Seq::<char>::empty();
    match j {
        Json::Array(items) => {
            lemma_items_append(items, items.len() as int, out + "["@);
            lemma_items_append(items, items.len() as int, none + "["@);
            assert(j.write(out) =~= out + j.text());
        },
        Json::Object(members) => {
            lemma_members_append(members, members.len() as int, out + "{"@);
            lemma_members_append(members, members.len() as int, none + "{"@);
            assert(j.write(out) =~= out + j.text());
        },
        _ => {
            assert(j.write(out) =~= out + j.text());
        },
    }
}

proof fn lemma_items_append(items: Seq<Json>, n: int, out: Seq<char>)
    requires
        n <= items.len(),
    ensures
        Json::write_items(items, n, out) == out + Json::write_items(items, n, Seq::empty()),
    decreases items, n,
{
    let none = Seq::<char>::empty();
    if n <= 0 {
        assert(out =~= out + none);
    } else {
        lemma_items_append(items, n - 1, out);
        let a = Json::write_items(items, n - 1, out);
        let b = Json::write_items(items, n - 1, none);
        let a1 = if n > 1 {
            a + ","@
        } else {
            a
        };
        let b1 = if n > 1 {
            b + ","@
        } else {
            b
        };
        lemma_write_appends(items[n - 1], a1);
        lemma_write_appends(items[n - 1], b1);
        assert(a1 + items[n - 1].text() =~= out + (b1 + items[n - 1].text()));
    }
}

proof fn lemma_members_append(members: Seq<(Seq<char>, Json)>, n: int, out: Seq<char>)
    requires
        n <= members.len(),
    ensures
        Json::write_members(members, n, out) == out + Json::write_members(
            members,
            n,
            Seq::empty(),
        ),
    decreases members, n,
{
    let none = Seq::<char>::empty();
    if n <= 0 {
        assert(out =~= out + none);
    } else {
        lemma_members_append(members, n - 1, out);
        let a = Json::write_members(members, n - 1, out);
        let b = Json::write_members(members, n - 1, none);
        let name = quoted_text(members[n - 1].0) + ":"@;
        let a1 = (if n > 1 {
            a + ","@
        } else {
            a
        }) + quoted_text(members[n - 1].0) + ":"@;
        let b1 = (if n > 1 {
            b + ","@
        } else {
            b
        }) + quoted_text(members[n - 1].0) + ":"@;
        lemma_write_appends(members[n - 1].1, a1);
        lemma_write_appends(members[n - 1].1, b1);
        assert(a1 =~= out + b1);
        assert(a1 + members[n - 1].1.text() =~= out + (b1 + members[n - 1].1.text()));
    }
}

/// The text of an object with one member.
pub proof fn lemma_object_1(k1: Seq<char>, v1: Json, out: Seq<char>)
    ensures
        Json::Object(seq![(k1, v1)]).write(out) == v1.write((out + "{"@) + quoted_text(k1) + ":"@) + "}"@,
{
    let ms = seq![(k1, v1)];
    let o = out + "{"@;
    assert(Json::write_members(ms, 0, o) == o);
    let o1 = v1.write(o + quoted_text(k1) + ":"@);
    assert(ms[0] == (k1, v1));
    assert(Json::write_members(ms, 1, o) == o1);
}

/// The text of an object with two members.
pub proof fn lemma_object_2(k1: Seq<char>, v1: Json, k2: Seq<char>, v2: Json, out: Seq<char>)
    ensures
        Json::Object(seq![(k1, v1), (k2, v2)]).write(out) == v2.write(v1.write((out + "{"@) + quoted_text(k1) + ":"@) + ","@ + quoted_text(k2) + ":"@) + "}"@,
{
    let ms = seq![(k1, v1), (k2, v2)];
    let o = out + "{"@;
    assert(Json::write_members(ms, 0, o) == o);
    let o1 = v1.write(o + quoted_text(k1) + ":"@);
    assert(ms[0] == (k1, v1));
    assert(Json::write_members(ms, 1, o) == o1);
    let o2 = v2.write(o1 + ","@ + quoted_text(k2) + ":"@);
    assert(ms[1] == (k2, v2));
    assert(Json::write_members(ms, 2, o) == o2);
}

/// The text of an object with three members.
pub proof fn lemma_object_3(
    k1: Seq<char>,
    v1: Json,
    k2: Seq<char>,
    v2: Json,
    k3: Seq<char>,
    v3: Json,
    out: Seq<char>,
)
    ensures
        Json::Object(seq![(k1, v1), (k2, v2), (k3, v3)]).write(out) == v3.write(v2.write(v1.write((out + "{"@) + quoted_text(k1) + ":"@) + ","@ + quoted_text(k2) + ":"@) + ","@ + quoted_text(k3) + ":"@) + "}"@,
{
    let ms = seq![(k1, v1), (k2, v2), (k3, v3)];
    let o = out + "{"@;
    assert(Json::write_members(ms, 0, o) == o);
    let o1 = v1.write(o + quoted_text(k1) + ":"@);
    assert(ms[0] == (k1, v1));
    assert(Json::write_members(ms, 1, o) == o1);
    let o2 = v2.write(o1 + ","@ + quoted_text(k2) + ":"@);
    assert(ms[1] == (k2, v2));
    assert(Json::write_members(ms, 2, o) == o2);
    let o3 = v3.write(o2 + ","@ + quoted_text(k3) + ":"@);
    assert(ms[2] == (k3, v3));
    assert(Json::write_members(ms, 3, o) == o3);
}


// ---------------------------------------------------------------------------
// Writing
// ---------------------------------------------------------------------------

/// `serde_json::to_string` on a string: quotes around it, with the quote, the
/// backslash and the control characters escaped, and everything else as it is.
#[verifier::external_body]
fn quoted(s: &str) -> (r: String)
    ensures
        r@ == quoted_text(s@),
{
    serde_json::to_string(s).expect("a string always serializes")
}

/// Append a JSON string.
pub fn push_text(out: &mut String, s: &str)
    ensures
        final(out)@ == Json::Text(s@).write(old(out)@),
{
    let q = quoted(s);
    out.append(q.as_str());
}

/// Append a member's name and the colon.
pub fn push_name(out: &mut String, name: &str)
    ensures
        final(out)@ == old(out)@ + quoted_text(name@) + ":"@,
{
    let q = quoted(name);
    out.append(q.as_str());
    out.append(":");
}

pub fn push_number(out: &mut String, n: u64)
    ensures
        final(out)@ == Json::Number(n as nat).write(old(out)@),
{
    push_decimal(out, n);
}

pub fn push_bool(out: &mut String, b: bool)
    ensures
        final(out)@ == Json::Bool(b).write(old(out)@),
{
    if b {
        out.append("true");
    } else {
        out.append("false");
    }
}

/// An optional string by its view.
pub open spec fn text_view(s: Option<String>) -> Option<Seq<char>> {
    match s {
        None => None,
        Some(s) => Some(s@),
    }
}

pub fn push_optional_text(out: &mut String, s: &Option<String>)
    ensures
        final(out)@ == Json::optional_text(text_view(*s)).write(old(out)@),
{
    match s {
        None => out.append("null"),
        Some(s) => push_text(out, s.as_str()),
    }
}

// ---------------------------------------------------------------------------
// Reading
// ---------------------------------------------------------------------------

/// What `serde_json::from_slice` reads from `bytes` as an object: each member's
/// value, as the text it is written with.
pub uninterp spec fn parsed_object(bytes: Seq<u8>) -> Option<Map<Seq<char>, Seq<char>>>;

/// What `serde_json::from_slice` reads from `bytes` as an array: each element,
/// as the text it is written with.
pub uninterp spec fn parsed_array(bytes: Seq<u8>) -> Option<Seq<Seq<char>>>;

/// What `serde_json::from_str` reads from `text` as a string or `null`.
pub uninterp spec fn parsed_text(text: Seq<char>) -> Option<Option<Seq<char>>>;

/// What `serde_json::from_str` reads from `text` as a `u64`.
pub uninterp spec fn parsed_number(text: Seq<char>) -> Option<u64>;

/// `serde_json::from_slice` into a map from names to raw values. An object
/// whose names are distinct reads back as its members, each value as it was
/// written; a string does not read as an object.
#[verifier::external_body]
pub(crate) fn read_object(bytes: &[u8]) -> (r: Option<Vec<(String, String)>>)
    ensures
        r is Some == parsed_object(bytes@) is Some,
        r matches Some(v) ==> distinct_pairs(v@) && pairs_map(v@) == parsed_object(bytes@)->0,
        forall|members: Seq<(Seq<char>, Json)>|
            distinct_names(members) && bytes@ == #[trigger] Json::Object(members).bytes()
                ==> r is Some && pairs_map(r->0@) == member_texts(members),
        forall|s: Seq<char>| bytes@ == #[trigger] Json::Text(s).bytes() ==> r is None,
{
    match serde_json::from_slice::<BTreeMap<String, Box<RawValue>>>(bytes) {
        Ok(m) => Some(m.into_iter().map(|(k, v)| (k, v.get().to_string())).collect()),
        Err(_) => None,
    }
}

/// `serde_json::from_slice` into a sequence of raw values. What it reads has a
/// name; nothing more is claimed of it.
#[verifier::external_body]
pub(crate) fn read_array(bytes: &[u8]) -> (r: Option<Vec<String>>)
    ensures
        r is Some == parsed_array(bytes@) is Some,
        r matches Some(v) ==> crate::invariants::texts_view(v@) == parsed_array(bytes@)->0,
{
    match serde_json::from_slice::<Vec<Box<RawValue>>>(bytes) {
        Ok(v) => Some(v.into_iter().map(|x| x.get().to_string()).collect()),
        Err(_) => None,
    }
}

/// Elements under the names they stand for, in order.
pub open spec fn named(names: Seq<Seq<char>>, items: Seq<Seq<char>>) -> Map<Seq<char>, Seq<char>> {
    Map::new(
        |name: Seq<char>| names.contains(name),
        |name: Seq<char>| items[names.index_of(name)],
    )
}

/// The fields of a record: the members of an object, or the elements of an array
/// that has exactly one for each of `names`.
pub open spec fn fields_of(bytes: Seq<u8>, names: Seq<Seq<char>>) -> Option<
    Map<Seq<char>, Seq<char>>,
> {
    match parsed_object(bytes) {
        Some(members) => Some(members),
        None => match parsed_array(bytes) {
            Some(items) if items.len() == names.len() => Some(named(names, items)),
            _ => None,
        },
    }
}

pub open spec fn names_view(names: Seq<&str>) -> Seq<Seq<char>> {
    Seq::new(names.len(), |i: int| names[i]@)
}

/// The fields of a record, each as the text it is written with. What was written
/// as an object reads back as its members.
pub(crate) fn read_fields(bytes: &[u8], names: &[&str]) -> (r: Option<Vec<(String, String)>>)
    requires
        names_view(names@).no_duplicates(),
    ensures
        r is Some == fields_of(bytes@, names_view(names@)) is Some,
        r matches Some(v) ==> distinct_pairs(v@) && pairs_map(v@) == fields_of(
            bytes@,
            names_view(names@),
        )->0,
        forall|members: Seq<(Seq<char>, Json)>|
            distinct_names(members) && bytes@ == #[trigger] Json::Object(members).bytes()
                ==> r is Some && pairs_map(r->0@) == member_texts(members),
{
    let object = read_object(bytes);
    if object.is_some() {
        return object;
    }
    let items = match read_array(bytes) {
        Some(items) => items,
        None => return None,
    };
    if items.len() != names.len() {
        return None;
    }
    let ghost ns = names_view(names@);
    let ghost texts = crate::invariants::texts_view(items@);
    let mut pairs: Vec<(String, String)> = Vec::new();
    let mut i: usize = 0;
    while i < names.len()
        invariant
            i <= names@.len() == items@.len(),
            ns == names_view(names@),
            texts == crate::invariants::texts_view(items@),
            pairs@.len() == i,
            forall|k: int|
                0 <= k < i ==> (#[trigger] pairs@[k]).0@ == ns[k] && pairs@[k].1@ == texts[k],
        decreases names@.len() - i,
    {
        let pair = (names[i].to_owned(), items[i].clone());
        pairs.push(pair);
        i = i + 1;
    }
    proof {
        assert forall|a: int, b: int| 0 <= a < b < pairs@.len() implies (#[trigger] pairs@[a]).0@
            != (#[trigger] pairs@[b]).0@ by {
            assert(ns[a] != ns[b]);
        }
        let m = pairs_map(pairs@);
        assert forall|name: Seq<char>| ns.contains(name) implies #[trigger] m.contains_key(name)
            && m[name] == texts[ns.index_of(name)] by {
            let k = ns.index_of(name);
            assert(ns[k] == name);
            assert(pairs@[k].0@ == name);
            let j = choose|j: int| 0 <= j < pairs@.len() && (#[trigger] pairs@[j]).0@ == name;
            assert(ns[j] == ns[k]);
        }
        assert forall|name: Seq<char>| #[trigger] m.contains_key(name) implies ns.contains(
            name,
        ) by {
            let j = choose|j: int| 0 <= j < pairs@.len() && (#[trigger] pairs@[j]).0@ == name;
            assert(ns[j] == name);
        }
        assert(m =~= named(ns, texts));
    }
    Some(pairs)
}

/// `serde_json::from_str` into an optional string. A string reads back as it
/// was before it was quoted, and `null` as none.
#[verifier::external_body]
pub(crate) fn read_text(text: &str) -> (r: Option<Option<String>>)
    ensures
        r is Some == parsed_text(text@) is Some,
        r matches Some(s) ==> text_view(s) == parsed_text(text@)->0,
        forall|s: Option<Seq<char>>|
            text@ == #[trigger] Json::optional_text(s).text() ==> r is Some && text_view(r->0) == s,
{
    serde_json::from_str::<Option<String>>(text).ok()
}

/// `serde_json::from_str` into a `u64`. A number in decimal reads back.
#[verifier::external_body]
pub(crate) fn read_number(text: &str) -> (r: Option<u64>)
    ensures
        r == parsed_number(text@),
        forall|n: u64| text@ == #[trigger] crate::text::decimal(n as nat) ==> r == Some(n),
{
    serde_json::from_str::<u64>(text).ok()
}

/// `serde_json::to_string_pretty` on what `serde_json::from_str` reads from
/// `text`, with the members of each object in the order in which they stand
/// there. A plain document comes back with each item and each member on a line
/// of its own, two blanks in for each level. Nothing is claimed of other texts,
/// among them those with an object that starts with the reserved name.
#[verifier::external_body]
pub(crate) fn laid_out(text: &str) -> (r: Option<String>)
    ensures
        forall|j: Json| j.plain(LEVELS as nat) && text@ == #[trigger] j.text() ==> text_view(r)
            == Some(j.lines()),
{
    match serde_json::from_str::<serde_json::Value>(text) {
        Ok(v) => serde_json::to_string_pretty(&v).ok(),
        Err(_) => None,
    }
}

/// The value of the member called `name`.
pub fn find_member<'a>(pairs: &'a Vec<(String, String)>, name: &str) -> (r: Option<&'a String>)
    requires
        distinct_pairs(pairs@),
    ensures
        r is Some == pairs_map(pairs@).contains_key(name@),
        r matches Some(v) ==> v@ == pairs_map(pairs@)[name@],
{
    let wanted = name.to_owned();
    let mut i: usize = 0;
    while i < pairs.len()
        invariant
            i <= pairs.len(),
            wanted@ == name@,
            distinct_pairs(pairs@),
            forall|j: int| 0 <= j < i ==> (#[trigger] pairs@[j]).0@ != name@,
        decreases pairs.len() - i,
    {
        if pairs[i].0 == wanted {
            proof {
                assert(pairs@[i as int].0@ == name@);
                let k = choose|k: int|
                    0 <= k < pairs@.len() && (#[trigger] pairs@[k]).0@ == name@;
                assert(k == i);
            }
            return Some(&pairs[i].1);
        }
        i = i + 1;
    }
    None
}

} // verus!
