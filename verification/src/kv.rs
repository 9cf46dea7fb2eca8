//! The replicated state machine: a key/value store.
//!
//! Deliberately boring. Its only jobs are to be a deterministic function of the
//! sequence of commands applied to it, and to be simple enough that when the
//! linearizability checker says a history is impossible, the store is not the
//! thing in doubt.
use crate::json::{
    find_member, push_name, push_number, push_optional_text, push_text, read_fields, read_number,
    read_object, read_text, Json,
};
use crate::kvmap::KvMap;
use crate::order::keys_in_order;
use crate::text::push_decimal;
use crate::{ClientId, Command};
use std::collections::BTreeMap;
use vstd::prelude::*;

verus! {

broadcast use {vstd::laws_cmp::group_laws_cmp, vstd::std_specs::btree::group_btree_axioms};

// ---------------------------------------------------------------------------
// Commands
// ---------------------------------------------------------------------------

#[derive(Debug, PartialEq, Eq)]
pub enum KvCommand {
    Get { key: String },
    Put { key: String, value: String },
    Delete { key: String },
    /// Compare-and-set: a read and a write in one linearization point.
    Cas { key: String, expect: Option<String>, value: String },
}

pub enum CommandView {
    Get { key: Seq<char> },
    Put { key: Seq<char>, value: Seq<char> },
    Delete { key: Seq<char> },
    Cas { key: Seq<char>, expect: Option<Seq<char>>, value: Seq<char> },
}

impl View for KvCommand {
    type V = CommandView;

    open spec fn view(&self) -> CommandView {
        match *self {
            KvCommand::Get { key } => CommandView::Get { key: key@ },
            KvCommand::Put { key, value } => CommandView::Put { key: key@, value: value@ },
            KvCommand::Delete { key } => CommandView::Delete { key: key@ },
            KvCommand::Cas { key, expect, value } => CommandView::Cas {
                key: key@,
                expect: crate::json::text_view(expect),
                value: value@,
            },
        }
    }
}

/// An optional command by its view.
pub open spec fn command_view(c: Option<KvCommand>) -> Option<CommandView> {
    match c {
        None => None,
        Some(c) => Some(c@),
    }
}

/// A copy of an optional string.
pub(crate) fn copy_text(s: &Option<String>) -> (r: Option<String>)
    ensures
        r == *s,
{
    match s {
        None => None,
        Some(s) => Some(s.clone()),
    }
}

impl Clone for KvCommand {
    fn clone(&self) -> (r: Self)
        ensures
            r@ == self@,
    {
        match self {
            KvCommand::Get { key } => KvCommand::Get { key: key.clone() },
            KvCommand::Put { key, value } => KvCommand::Put {
                key: key.clone(),
                value: value.clone(),
            },
            KvCommand::Delete { key } => KvCommand::Delete { key: key.clone() },
            KvCommand::Cas { key, expect, value } => KvCommand::Cas {
                key: key.clone(),
                expect: copy_text(expect),
                value: value.clone(),
            },
        }
    }
}

/// A copy of an optional command.
pub(crate) fn copy_command(c: &Option<KvCommand>) -> (r: Option<KvCommand>)
    ensures
        command_view(r) == command_view(*c),
{
    match c {
        None => None,
        Some(c) => Some(c.clone()),
    }
}

/// Whether two optional strings say the same.
pub(crate) fn same_text(a: &Option<String>, b: &Option<String>) -> (r: bool)
    ensures
        r == (crate::json::text_view(*a) == crate::json::text_view(*b)),
{
    match (a, b) {
        (None, None) => true,
        (Some(x), Some(y)) => *x == *y,
        _ => false,
    }
}

impl KvCommand {
    /// Whether two commands say the same.
    pub fn same(&self, other: &KvCommand) -> (r: bool)
        ensures
            r == (self@ == other@),
    {
        match (self, other) {
            (KvCommand::Get { key: a }, KvCommand::Get { key: b }) => *a == *b,
            (KvCommand::Delete { key: a }, KvCommand::Delete { key: b }) => *a == *b,
            (
                KvCommand::Put { key: a, value: x },
                KvCommand::Put { key: b, value: y },
            ) => *a == *b && *x == *y,
            (
                KvCommand::Cas { key: a, expect: e, value: x },
                KvCommand::Cas { key: b, expect: f, value: y },
            ) => *a == *b && same_text(e, f) && *x == *y,
            _ => false,
        }
    }
}

/// Whether two optional commands say the same.
pub(crate) fn same_command(a: &Option<KvCommand>, b: &Option<KvCommand>) -> (r: bool)
    ensures
        r == (command_view(*a) == command_view(*b)),
{
    match (a, b) {
        (None, None) => true,
        (Some(x), Some(y)) => x.same(y),
        _ => false,
    }
}

impl CommandView {
    pub open spec fn key(self) -> Seq<char> {
        match self {
            CommandView::Get { key } => key,
            CommandView::Put { key, value } => key,
            CommandView::Delete { key } => key,
            CommandView::Cas { key, expect, value } => key,
        }
    }

    pub open spec fn is_read_only(self) -> bool {
        self is Get
    }

    pub open spec fn json(self) -> Json {
        match self {
            CommandView::Get { key } => Json::tagged(
                "Get"@,
                Json::Object(seq![("key"@, Json::Text(key))]),
            ),
            CommandView::Put { key, value } => Json::tagged(
                "Put"@,
                Json::Object(seq![("key"@, Json::Text(key)), ("value"@, Json::Text(value))]),
            ),
            CommandView::Delete { key } => Json::tagged(
                "Delete"@,
                Json::Object(seq![("key"@, Json::Text(key))]),
            ),
            CommandView::Cas { key, expect, value } => Json::tagged(
                "Cas"@,
                Json::Object(
                    seq![
                        ("key"@, Json::Text(key)),
                        ("expect"@, Json::optional_text(expect)),
                        ("value"@, Json::Text(value)),
                    ],
                ),
            ),
        }
    }
}

// --- reading a document ------------------------------------------------------

/// `name` is the only member.
pub open spec fn only_member(members: Map<Seq<char>, Seq<char>>, name: Seq<char>) -> bool {
    members.contains_key(name) && forall|k: Seq<char>| #[trigger]
        members.contains_key(k) ==> k == name
}

/// The member called `name`, which must be there and be a string.
pub open spec fn text_member(members: Map<Seq<char>, Seq<char>>, name: Seq<char>) -> Option<
    Seq<char>,
> {
    if members.contains_key(name) {
        match crate::json::parsed_text(members[name]) {
            Some(Some(s)) => Some(s),
            _ => None,
        }
    } else {
        None
    }
}

/// The member called `name`, a string or `null`; left out, it counts as `null`.
pub open spec fn optional_member(
    members: Map<Seq<char>, Seq<char>>,
    name: Seq<char>,
) -> Option<Option<Seq<char>>> {
    if members.contains_key(name) {
        crate::json::parsed_text(members[name])
    } else {
        Some(None)
    }
}

/// The members of the object that `text` is.
pub open spec fn object_in(text: Seq<char>) -> Option<Map<Seq<char>, Seq<char>>> {
    crate::json::parsed_object(vstd::utf8::encode_utf8(text))
}

/// The fields of the record that `text` is: an object, or an array with an element
/// for each of `names`.
pub open spec fn fields_in(text: Seq<char>, names: Seq<Seq<char>>) -> Option<
    Map<Seq<char>, Seq<char>>,
> {
    crate::json::fields_of(vstd::utf8::encode_utf8(text), names)
}

/// The command that an object with these members is.
pub open spec fn command_in(members: Map<Seq<char>, Seq<char>>) -> Option<CommandView> {
    if only_member(members, "Get"@) {
        match fields_in(members["Get"@], seq!["key"@]) {
            None => None,
            Some(body) => match text_member(body, "key"@) {
                None => None,
                Some(key) => Some(CommandView::Get { key }),
            },
        }
    } else if only_member(members, "Put"@) {
        match fields_in(members["Put"@], seq!["key"@, "value"@]) {
            None => None,
            Some(body) => match (text_member(body, "key"@), text_member(body, "value"@)) {
                (Some(key), Some(value)) => Some(CommandView::Put { key, value }),
                _ => None,
            },
        }
    } else if only_member(members, "Delete"@) {
        match fields_in(members["Delete"@], seq!["key"@]) {
            None => None,
            Some(body) => match text_member(body, "key"@) {
                None => None,
                Some(key) => Some(CommandView::Delete { key }),
            },
        }
    } else if only_member(members, "Cas"@) {
        match fields_in(members["Cas"@], seq!["key"@, "expect"@, "value"@]) {
            None => None,
            Some(body) => match (
                text_member(body, "key"@),
                optional_member(body, "expect"@),
                text_member(body, "value"@),
            ) {
                (Some(key), Some(expect), Some(value)) => Some(
                    CommandView::Cas { key, expect, value },
                ),
                _ => None,
            },
        }
    } else {
        None
    }
}

/// The command that these bytes are.
pub open spec fn command_of(bytes: Seq<u8>) -> Option<CommandView> {
    match crate::json::parsed_object(bytes) {
        None => None,
        Some(members) => command_in(members),
    }
}

/// Why bytes are not a command.
#[derive(Clone, Copy, Debug, PartialEq, Eq, Structural)]
pub enum DecodeError {
    /// They are not a JSON object.
    NotAnObject,
    /// They are an object, but not one that stands for a command.
    NotACommand,
}

/// The names used in documents are different from each other.
proof fn lemma_names()
    ensures
        "key"@ != "value"@,
        "key"@ != "expect"@,
        "expect"@ != "value"@,
        "Get"@ != "Put"@,
        "Get"@ != "Delete"@,
        "Get"@ != "Cas"@,
        "Put"@ != "Delete"@,
        "Put"@ != "Cas"@,
        "Delete"@ != "Cas"@,
        "Value"@ != "CasFailed"@,
        "data"@ != "sessions"@,
        "last_seq"@ != "last_result"@,
{
    reveal_strlit("key");
    reveal_strlit("value");
    reveal_strlit("expect");
    reveal_strlit("Get");
    reveal_strlit("Put");
    reveal_strlit("Delete");
    reveal_strlit("Cas");
    reveal_strlit("Value");
    reveal_strlit("CasFailed");
    reveal_strlit("data");
    reveal_strlit("sessions");
    reveal_strlit("last_seq");
    reveal_strlit("last_result");
    assert("Get"@[0] != "Put"@[0]);
    assert("Get"@[0] != "Cas"@[0]);
    assert("Put"@[0] != "Cas"@[0]);
    assert("key"@.len() == 3);
    assert("value"@.len() == 5);
    assert("expect"@.len() == 6);
    assert("Delete"@.len() == 6);
    assert("Value"@.len() == 5);
    assert("CasFailed"@.len() == 9);
    assert("data"@.len() == 4);
    assert("sessions"@.len() == 8);
    assert("last_seq"@.len() == 8);
    assert("last_result"@.len() == 11);
}

/// Each member of an object with distinct names is found under its name.
proof fn lemma_member_at(members: Seq<(Seq<char>, Json)>, i: int)
    requires
        crate::json::distinct_names(members),
        0 <= i < members.len(),
    ensures
        crate::json::member_texts(members).contains_key(members[i].0),
        crate::json::member_texts(members)[members[i].0] == members[i].1.text(),
{
    let name = members[i].0;
    let k = choose|k: int| 0 <= k < members.len() && (#[trigger] members[k]).0 == name;
    assert(members[i].0 == name);
    assert(k == i);
}

/// An object with a single member reads back as just that member.
proof fn lemma_tagged(tag: Seq<char>, body: Json)
    ensures
        crate::json::distinct_names(seq![(tag, body)]),
        only_member(crate::json::member_texts(seq![(tag, body)]), tag),
        crate::json::member_texts(seq![(tag, body)])[tag] == body.text(),
{
    lemma_member_at(seq![(tag, body)], 0);
}

/// A string that must be there.
fn read_text_member(members: &Vec<(String, String)>, name: &str) -> (r: Option<String>)
    requires
        crate::json::distinct_pairs(members@),
    ensures
        crate::json::text_view(r) == text_member(crate::json::pairs_map(members@), name@),
        forall|s: Seq<char>|
            crate::json::pairs_map(members@).contains_key(name@) && crate::json::pairs_map(
                members@,
            )[name@] == #[trigger] Json::Text(s).text() ==> r is Some && r->0@ == s,
{
    match find_member(members, name) {
        None => None,
        Some(text) => {
            let read = read_text(text.as_str());
            proof {
                assert forall|s: Seq<char>| text@ == #[trigger] Json::Text(s).text() implies read
                    is Some && read->0 is Some && read->0->0@ == s by {
                    assert(Json::optional_text(Some(s)).text() == Json::Text(s).text());
                }
            }
            match read {
                Some(s) => s,
                None => None,
            }
        },
    }
}

/// A string, `null`, or nothing at all.
fn read_optional_member(members: &Vec<(String, String)>, name: &str) -> (r: Option<
    Option<String>,
>)
    requires
        crate::json::distinct_pairs(members@),
    ensures
        r is Some == optional_member(crate::json::pairs_map(members@), name@) is Some,
        r matches Some(s) ==> crate::json::text_view(s) == optional_member(
            crate::json::pairs_map(members@),
            name@,
        )->0,
        forall|s: Option<Seq<char>>|
            crate::json::pairs_map(members@).contains_key(name@) && crate::json::pairs_map(
                members@,
            )[name@] == #[trigger] Json::optional_text(s).text() ==> r is Some
                && crate::json::text_view(r->0) == s,
{
    match find_member(members, name) {
        None => Some(None),
        Some(text) => read_text(text.as_str()),
    }
}

/// The members are exactly one, called `name`.
fn is_only_member(members: &Vec<(String, String)>, name: &str) -> (r: bool)
    requires
        crate::json::distinct_pairs(members@),
    ensures
        r == only_member(crate::json::pairs_map(members@), name@),
{
    if members.len() != 1 {
        proof {
            let m = crate::json::pairs_map(members@);
            if members@.len() > 1 {
                assert(m.contains_key(members@[0].0@));
                assert(m.contains_key(members@[1].0@));
            }
        }
        return false;
    }
    let wanted = name.to_owned();
    assert(crate::json::pairs_map(members@).contains_key(members@[0].0@));
    members[0].0 == wanted
}

/// The body of the variant called `tag`, as a record with these fields.
fn read_body(members: &Vec<(String, String)>, tag: &str, names: &[&str]) -> (r: Option<
    Vec<(String, String)>,
>)
    requires
        crate::json::distinct_pairs(members@),
        crate::json::pairs_map(members@).contains_key(tag@),
        crate::json::names_view(names@).no_duplicates(),
    ensures
        r is Some == fields_in(
            crate::json::pairs_map(members@)[tag@],
            crate::json::names_view(names@),
        ) is Some,
        r matches Some(v) ==> crate::json::distinct_pairs(v@) && crate::json::pairs_map(v@)
            == fields_in(
            crate::json::pairs_map(members@)[tag@],
            crate::json::names_view(names@),
        )->0,
        forall|body: Seq<(Seq<char>, Json)>|
            crate::json::distinct_names(body) && crate::json::pairs_map(members@)[tag@]
                == #[trigger] Json::Object(body).text() ==> r is Some && crate::json::pairs_map(
                r->0@,
            ) == crate::json::member_texts(body),
{
    match find_member(members, tag) {
        None => None,
        Some(text) => {
            let read = read_fields(text.as_str().as_bytes(), names);
            proof {
                assert forall|body: Seq<(Seq<char>, Json)>|
                    crate::json::distinct_names(body) && text@ == #[trigger] Json::Object(
                        body,
                    ).text() implies read is Some && crate::json::pairs_map(read->0@)
                    == crate::json::member_texts(body) by {
                    assert(Json::Object(body).bytes() == vstd::utf8::encode_utf8(text@));
                }
            }
            read
        },
    }
}

impl KvCommand {
    /// The key this command touches. The linearizability checker uses it to
    /// decompose a history into independent per-key sub-histories.
    pub fn key(&self) -> (r: &str)
        ensures
            r@ == self@.key(),
    {
        match self {
            KvCommand::Get { key } => key.as_str(),
            KvCommand::Put { key, value: _ } => key.as_str(),
            KvCommand::Delete { key } => key.as_str(),
            KvCommand::Cas { key, expect: _, value: _ } => key.as_str(),
        }
    }

    pub fn is_read_only(&self) -> (r: bool)
        ensures
            r == self@.is_read_only(),
    {
        match self {
            KvCommand::Get { key: _ } => true,
            _ => false,
        }
    }

    /// Append the command as a JSON document.
    pub fn write_json(&self, out: &mut String)
        ensures
            final(out)@ == self@.json().write(old(out)@),
    {
        proof {
            lemma_command_text(self@, out@);
        }
        out.append("{");
        match self {
            KvCommand::Get { key } => {
                push_name(out, "Get");
                out.append("{");
                push_name(out, "key");
                push_text(out, key.as_str());
            },
            KvCommand::Put { key, value } => {
                push_name(out, "Put");
                out.append("{");
                push_name(out, "key");
                push_text(out, key.as_str());
                out.append(",");
                push_name(out, "value");
                push_text(out, value.as_str());
            },
            KvCommand::Delete { key } => {
                push_name(out, "Delete");
                out.append("{");
                push_name(out, "key");
                push_text(out, key.as_str());
            },
            KvCommand::Cas { key, expect, value } => {
                push_name(out, "Cas");
                out.append("{");
                push_name(out, "key");
                push_text(out, key.as_str());
                out.append(",");
                push_name(out, "expect");
                push_optional_text(out, expect);
                out.append(",");
                push_name(out, "value");
                push_text(out, value.as_str());
            },
        }
        out.append("}");
        out.append("}");
    }

    /// The command as the bytes that go into the log. The same command always
    /// gives the same bytes.
    pub fn encode(&self) -> (r: Command)
        ensures
            r@ == self@.json().bytes(),
    {
        let mut text = String::new();
        self.write_json(&mut text);
        assert(text@ == self@.json().text());
        Command(copy_slice(text.as_str().as_bytes()))
    }

    /// The command that `cmd` encodes. What was encoded decodes to itself.
    pub fn decode(cmd: &Command) -> (r: Result<KvCommand, DecodeError>)
        ensures
            r is Ok == command_of(cmd@) is Some,
            r matches Ok(c) ==> command_of(cmd@) == Some(c@),
            r == Err::<KvCommand, DecodeError>(DecodeError::NotAnObject) <==> crate::json::parsed_object(
                cmd@,
            ) is None,
            forall|c: CommandView| cmd@ == #[trigger] c.json().bytes() ==> r is Ok && r->Ok_0@ == c,
    {
        match read_object(cmd.0.as_slice()) {
            None => {
                proof {
                    assert forall|c: CommandView| cmd@ == #[trigger] c.json().bytes() implies false by {
                        lemma_command_is_tagged(c);
                    }
                }
                Err(DecodeError::NotAnObject)
            },
            Some(members) => {
                let read = read_command(&members);
                proof {
                    assert forall|c: CommandView| cmd@ == #[trigger] c.json().bytes() implies read
                        is Some && read->0@ == c by {
                        lemma_command_is_tagged(c);
                    }
                }
                match read {
                    Some(c) => Ok(c),
                    None => Err(DecodeError::NotACommand),
                }
            },
        }
    }
}

/// The text of a command's document, written out.
proof fn lemma_command_text(c: CommandView, out: Seq<char>)
    ensures
        ({
            let inside = out + "{"@ + crate::json::quoted_text(command_tag(c)) + ":"@;
            let named = inside + "{"@ + crate::json::quoted_text("key"@) + ":"@;
            let key = Json::Text(c.key()).write(named);
            let body = match c {
                CommandView::Get { key: _ } => key,
                CommandView::Delete { key: _ } => key,
                CommandView::Put { key: _, value } => Json::Text(value).write(
                    key + ","@ + crate::json::quoted_text("value"@) + ":"@,
                ),
                CommandView::Cas { key: _, expect, value } => Json::Text(value).write(
                    Json::optional_text(expect).write(
                        key + ","@ + crate::json::quoted_text("expect"@) + ":"@,
                    ) + ","@ + crate::json::quoted_text("value"@) + ":"@,
                ),
            };
            c.json().write(out) == body + "}"@ + "}"@
        }),
{
    let inside = out + "{"@ + crate::json::quoted_text(command_tag(c)) + ":"@;
    let body = Json::Object(command_body(c));
    crate::json::lemma_object_1(command_tag(c), body, out);
    match c {
        CommandView::Get { key } => crate::json::lemma_object_1("key"@, Json::Text(key), inside),
        CommandView::Delete { key } => crate::json::lemma_object_1("key"@, Json::Text(key), inside),
        CommandView::Put { key, value } => crate::json::lemma_object_2(
            "key"@,
            Json::Text(key),
            "value"@,
            Json::Text(value),
            inside,
        ),
        CommandView::Cas { key, expect, value } => crate::json::lemma_object_3(
            "key"@,
            Json::Text(key),
            "expect"@,
            Json::optional_text(expect),
            "value"@,
            Json::Text(value),
            inside,
        ),
    }
}

/// The name and the body of a command's document.
pub open spec fn command_tag(c: CommandView) -> Seq<char> {
    match c {
        CommandView::Get { key } => "Get"@,
        CommandView::Put { key, value } => "Put"@,
        CommandView::Delete { key } => "Delete"@,
        CommandView::Cas { key, expect, value } => "Cas"@,
    }
}

pub open spec fn command_body(c: CommandView) -> Seq<(Seq<char>, Json)> {
    match c {
        CommandView::Get { key } => seq![("key"@, Json::Text(key))],
        CommandView::Put { key, value } => seq![
            ("key"@, Json::Text(key)),
            ("value"@, Json::Text(value)),
        ],
        CommandView::Delete { key } => seq![("key"@, Json::Text(key))],
        CommandView::Cas { key, expect, value } => seq![
            ("key"@, Json::Text(key)),
            ("expect"@, Json::optional_text(expect)),
            ("value"@, Json::Text(value)),
        ],
    }
}

proof fn lemma_command_is_tagged(c: CommandView)
    ensures
        c.json() == Json::Object(seq![(command_tag(c), Json::Object(command_body(c)))]),
        crate::json::distinct_names(seq![(command_tag(c), Json::Object(command_body(c)))]),
{
    lemma_tagged(command_tag(c), Json::Object(command_body(c)));
}

/// What a command's body reads back as.
proof fn lemma_command_body(c: CommandView)
    ensures
        crate::json::distinct_names(command_body(c)),
        ({
            let body = crate::json::member_texts(command_body(c));
            &&& body.contains_key("key"@)
            &&& body["key"@] == Json::Text(c.key()).text()
            &&& c matches CommandView::Put { key, value } ==> body.contains_key("value"@)
                && body["value"@] == Json::Text(value).text()
            &&& c matches CommandView::Cas { key, expect, value } ==> {
                &&& body.contains_key("value"@)
                &&& body["value"@] == Json::Text(value).text()
                &&& body.contains_key("expect"@)
                &&& body["expect"@] == Json::optional_text(expect).text()
            }
        }),
{
    lemma_names();
    let body = command_body(c);
    assert(crate::json::distinct_names(body));
    lemma_member_at(body, 0);
    if c is Put || c is Cas {
        lemma_member_at(body, 1);
    }
    if c is Cas {
        lemma_member_at(body, 2);
    }
}

/// The command that an object with these members is.
fn read_command(members: &Vec<(String, String)>) -> (r: Option<KvCommand>)
    requires
        crate::json::distinct_pairs(members@),
    ensures
        command_view(r) == command_in(crate::json::pairs_map(members@)),
        forall|c: CommandView|
            crate::json::pairs_map(members@) == crate::json::member_texts(
                seq![(#[trigger] command_tag(c), Json::Object(command_body(c)))],
            ) ==> r is Some && r->0@ == c,
{
    let ghost all = crate::json::pairs_map(members@);
    proof {
        lemma_names();
        assert forall|c: CommandView| #[trigger]
            is_document_of(all, c) implies only_member(all, command_tag(c))
            && all[command_tag(c)] == Json::Object(command_body(c)).text() by {
            lemma_tagged(command_tag(c), Json::Object(command_body(c)));
        }
        assert forall|c: CommandView| all == crate::json::member_texts(
            seq![(#[trigger] command_tag(c), Json::Object(command_body(c)))],
        ) implies is_document_of(all, c) by {}
    }
    if is_only_member(members, "Get") {
        let names: [&str; 1] = ["key"];
        assert(crate::json::names_view(names@) =~= seq!["key"@]);
        let body = read_body(members, "Get", &names);
        proof {
            lemma_body_of(all, "Get"@, body);
        }
        match body {
            None => None,
            Some(body) => match read_text_member(&body, "key") {
                None => None,
                Some(key) => Some(KvCommand::Get { key }),
            },
        }
    } else if is_only_member(members, "Put") {
        let names: [&str; 2] = ["key", "value"];
        assert(crate::json::names_view(names@) =~= seq!["key"@, "value"@]);
        let body = read_body(members, "Put", &names);
        proof {
            lemma_body_of(all, "Put"@, body);
        }
        match body {
            None => None,
            Some(body) => match (read_text_member(&body, "key"), read_text_member(&body, "value")) {
                (Some(key), Some(value)) => Some(KvCommand::Put { key, value }),
                _ => None,
            },
        }
    } else if is_only_member(members, "Delete") {
        let names: [&str; 1] = ["key"];
        assert(crate::json::names_view(names@) =~= seq!["key"@]);
        let body = read_body(members, "Delete", &names);
        proof {
            lemma_body_of(all, "Delete"@, body);
        }
        match body {
            None => None,
            Some(body) => match read_text_member(&body, "key") {
                None => None,
                Some(key) => Some(KvCommand::Delete { key }),
            },
        }
    } else if is_only_member(members, "Cas") {
        let names: [&str; 3] = ["key", "expect", "value"];
        assert(crate::json::names_view(names@) =~= seq!["key"@, "expect"@, "value"@]);
        let body = read_body(members, "Cas", &names);
        proof {
            lemma_body_of(all, "Cas"@, body);
        }
        match body {
            None => None,
            Some(body) => {
                let key = read_text_member(&body, "key");
                let expect = read_optional_member(&body, "expect");
                let value = read_text_member(&body, "value");
                match (key, expect, value) {
                    (Some(key), Some(expect), Some(value)) => Some(
                        KvCommand::Cas { key, expect, value },
                    ),
                    _ => None,
                }
            },
        }
    } else {
        None
    }
}

/// The members `all` are those of the document of `c`.
spec fn is_document_of(all: Map<Seq<char>, Seq<char>>, c: CommandView) -> bool {
    all == crate::json::member_texts(seq![(command_tag(c), Json::Object(command_body(c)))])
}

/// If the members are a command's, so is the body that was read.
proof fn lemma_body_of(
    all: Map<Seq<char>, Seq<char>>,
    tag: Seq<char>,
    body: Option<Vec<(String, String)>>,
)
    requires
        only_member(all, tag),
        forall|b: Seq<(Seq<char>, Json)>|
            crate::json::distinct_names(b) && all[tag] == #[trigger] Json::Object(b).text()
                ==> body is Some && crate::json::pairs_map(body->0@) == crate::json::member_texts(
                b,
            ),
        forall|c: CommandView| #[trigger]
            is_document_of(all, c) ==> only_member(all, command_tag(c)) && all[command_tag(c)]
                == Json::Object(command_body(c)).text(),
    ensures
        forall|c: CommandView| #[trigger]
            is_document_of(all, c) ==> {
                &&& command_tag(c) == tag
                &&& body is Some
                &&& crate::json::pairs_map(body->0@) == crate::json::member_texts(command_body(c))
                &&& ({
                    let b = crate::json::member_texts(command_body(c));
                    &&& b.contains_key("key"@)
                    &&& b["key"@] == Json::Text(c.key()).text()
                    &&& c matches CommandView::Put { key, value } ==> b.contains_key("value"@)
                        && b["value"@] == Json::Text(value).text()
                    &&& c matches CommandView::Cas { key, expect, value } ==> {
                        &&& b.contains_key("value"@)
                        &&& b["value"@] == Json::Text(value).text()
                        &&& b.contains_key("expect"@)
                        &&& b["expect"@] == Json::optional_text(expect).text()
                    }
                })
            },
{
    assert forall|c: CommandView| #[trigger] is_document_of(all, c) implies {
        &&& command_tag(c) == tag
        &&& body is Some
        &&& crate::json::pairs_map(body->0@) == crate::json::member_texts(command_body(c))
        &&& ({
            let b = crate::json::member_texts(command_body(c));
            &&& b.contains_key("key"@)
            &&& b["key"@] == Json::Text(c.key()).text()
            &&& c matches CommandView::Put { key, value } ==> b.contains_key("value"@)
                && b["value"@] == Json::Text(value).text()
            &&& c matches CommandView::Cas { key, expect, value } ==> {
                &&& b.contains_key("value"@)
                &&& b["value"@] == Json::Text(value).text()
                &&& b.contains_key("expect"@)
                &&& b["expect"@] == Json::optional_text(expect).text()
            }
        })
    } by {
        lemma_command_body(c);
        assert(all.contains_key(tag));
        assert(all.contains_key(command_tag(c)));
    }
}

/// A copy of a slice of bytes.
pub(crate) fn copy_slice(bytes: &[u8]) -> (r: Vec<u8>)
    ensures
        r@ == bytes@,
{
    let mut r: Vec<u8> = Vec::new();
    r.extend_from_slice(bytes);
    assert(r@ =~= bytes@);
    r
}

// ---------------------------------------------------------------------------
// Results
// ---------------------------------------------------------------------------

#[derive(Debug, PartialEq, Eq)]
pub enum KvResult {
    Value(Option<String>),
    /// The write took effect.
    Done,
    /// A `Cas` whose `expect` did not match; carries what was actually there.
    CasFailed { actual: Option<String> },
}

pub enum ResultView {
    Value(Option<Seq<char>>),
    Done,
    CasFailed { actual: Option<Seq<char>> },
}

impl View for KvResult {
    type V = ResultView;

    open spec fn view(&self) -> ResultView {
        match *self {
            KvResult::Value(v) => ResultView::Value(crate::json::text_view(v)),
            KvResult::Done => ResultView::Done,
            KvResult::CasFailed { actual } => ResultView::CasFailed {
                actual: crate::json::text_view(actual),
            },
        }
    }
}

/// An optional result by its view.
pub open spec fn result_view(r: Option<KvResult>) -> Option<ResultView> {
    match r {
        None => None,
        Some(r) => Some(r@),
    }
}

/// A copy of an optional result.
pub(crate) fn copy_result(r: &Option<KvResult>) -> (s: Option<KvResult>)
    ensures
        result_view(s) == result_view(*r),
{
    match r {
        None => None,
        Some(r) => Some(r.clone()),
    }
}

impl Clone for KvResult {
    fn clone(&self) -> (r: Self)
        ensures
            r@ == self@,
    {
        match self {
            KvResult::Value(v) => KvResult::Value(copy_text(v)),
            KvResult::Done => KvResult::Done,
            KvResult::CasFailed { actual } => KvResult::CasFailed { actual: copy_text(actual) },
        }
    }
}

impl KvResult {
    /// Whether two results say the same.
    pub fn same(&self, other: &KvResult) -> (r: bool)
        ensures
            r == (self@ == other@),
    {
        match (self, other) {
            (KvResult::Value(a), KvResult::Value(b)) => same_text(a, b),
            (KvResult::Done, KvResult::Done) => true,
            (KvResult::CasFailed { actual: a }, KvResult::CasFailed { actual: b }) => same_text(
                a,
                b,
            ),
            _ => false,
        }
    }
}

impl ResultView {
    pub open spec fn json(self) -> Json {
        match self {
            ResultView::Value(v) => Json::tagged("Value"@, Json::optional_text(v)),
            ResultView::Done => Json::Text("Ok"@),
            ResultView::CasFailed { actual } => Json::tagged(
                "CasFailed"@,
                Json::Object(seq![("actual"@, Json::optional_text(actual))]),
            ),
        }
    }
}

/// The result that `text` is.
pub open spec fn result_of(text: Seq<char>) -> Option<ResultView> {
    match object_in(text) {
        None => if crate::json::parsed_text(text) == Some(Some("Ok"@)) {
            Some(ResultView::Done)
        } else {
            None
        },
        Some(members) => if only_member(members, "Value"@) {
            match crate::json::parsed_text(members["Value"@]) {
                Some(v) => Some(ResultView::Value(v)),
                None => None,
            }
        } else if only_member(members, "CasFailed"@) {
            match fields_in(members["CasFailed"@], seq!["actual"@]) {
                None => None,
                Some(body) => match optional_member(body, "actual"@) {
                    Some(actual) => Some(ResultView::CasFailed { actual }),
                    None => None,
                },
            }
        } else if only_member(members, "Ok"@) {
            if crate::json::parsed_text(members["Ok"@]) == Some(None::<Seq<char>>) {
                Some(ResultView::Done)
            } else {
                None
            }
        } else {
            None
        },
    }
}

impl KvResult {
    pub fn write_json(&self, out: &mut String)
        ensures
            final(out)@ == self@.json().write(old(out)@),
    {
        let ghost start = out@;
        match self {
            KvResult::Value(v) => {
                proof {
                    crate::json::lemma_object_1(
                        "Value"@,
                        Json::optional_text(crate::json::text_view(*v)),
                        start,
                    );
                }
                out.append("{");
                push_name(out, "Value");
                push_optional_text(out, v);
                out.append("}");
            },
            KvResult::Done => {
                push_text(out, "Ok");
            },
            KvResult::CasFailed { actual } => {
                out.append("{");
                push_name(out, "CasFailed");
                proof {
                    let value = Json::optional_text(crate::json::text_view(*actual));
                    crate::json::lemma_object_1(
                        "CasFailed"@,
                        Json::Object(seq![("actual"@, value)]),
                        start,
                    );
                    crate::json::lemma_object_1("actual"@, value, out@);
                }
                out.append("{");
                push_name(out, "actual");
                push_optional_text(out, actual);
                out.append("}");
                out.append("}");
            },
        }
    }

    /// The result that `text` is. What was written reads back.
    fn read_json(text: &str) -> (r: Option<KvResult>)
        ensures
            result_view(r) == result_of(text@),
            forall|res: ResultView| text@ == #[trigger] res.json().text() ==> r is Some && r->0@
                == res,
    {
        let read = read_object(text.as_bytes());
        proof {
            lemma_names();
            assert forall|res: ResultView| text@ == #[trigger] res.json().text() implies {
                &&& res is Done ==> read is None
                &&& res matches ResultView::Value(v) ==> read is Some && crate::json::pairs_map(
                    read->0@,
                ) == crate::json::member_texts(seq![("Value"@, Json::optional_text(v))])
                &&& res matches ResultView::CasFailed { actual } ==> read is Some
                    && crate::json::pairs_map(read->0@) == crate::json::member_texts(
                    seq![
                        (
                            "CasFailed"@,
                            Json::Object(seq![("actual"@, Json::optional_text(actual))]),
                        ),
                    ],
                )
            } by {
                match res {
                    ResultView::Done => {
                        assert(Json::Text("Ok"@).bytes() == vstd::utf8::encode_utf8(text@));
                    },
                    ResultView::Value(v) => {
                        let ms = seq![("Value"@, Json::optional_text(v))];
                        lemma_tagged("Value"@, Json::optional_text(v));
                        assert(Json::Object(ms).bytes() == vstd::utf8::encode_utf8(text@));
                    },
                    ResultView::CasFailed { actual } => {
                        let inner = Json::Object(seq![("actual"@, Json::optional_text(actual))]);
                        let ms = seq![("CasFailed"@, inner)];
                        lemma_tagged("CasFailed"@, inner);
                        assert(Json::Object(ms).bytes() == vstd::utf8::encode_utf8(text@));
                    },
                }
            }
        }
        match read {
            None => {
                let ok = "Ok".to_owned();
                let word = read_text(text);
                proof {
                    assert(Json::optional_text(Some("Ok"@)).text() == Json::Text("Ok"@).text());
                }
                match word {
                    Some(Some(s)) => if s == ok {
                        Some(KvResult::Done)
                    } else {
                        None
                    },
                    _ => None,
                }
            },
            Some(members) => {
                let ghost all = crate::json::pairs_map(members@);
                proof {
                    assert forall|v: Option<Seq<char>>|
                        text@ == (#[trigger] ResultView::Value(v).json()).text() implies only_member(
                        all,
                        "Value"@,
                    ) && all["Value"@] == Json::optional_text(v).text() by {
                        lemma_tagged("Value"@, Json::optional_text(v));
                    }
                    assert forall|v: Option<Seq<char>>|
                        text@ == (#[trigger] (ResultView::CasFailed { actual: v }).json()).text() implies only_member(
                        all,
                        "CasFailed"@,
                    ) && all["CasFailed"@] == Json::Object(
                        seq![("actual"@, Json::optional_text(v))],
                    ).text() by {
                        let inner = Json::Object(seq![("actual"@, Json::optional_text(v))]);
                        lemma_tagged("CasFailed"@, inner);
                    }
                }
                if is_only_member(&members, "Value") {
                    let value = match find_member(&members, "Value") {
                        None => None,
                        Some(v) => read_text(v.as_str()),
                    };
                    proof {
                        assert forall|res: ResultView| text@ == #[trigger] res.json().text() implies res
                            is Value && value is Some && crate::json::text_view(value->0)
                            == res->Value_0 by {
                            match res {
                                ResultView::Done => {},
                                ResultView::Value(v) => {
                                    assert(text@ == ResultView::Value(v).json().text());
                                },
                                ResultView::CasFailed { actual } => {
                                    assert(text@ == (ResultView::CasFailed { actual }).json().text());
                                    assert(all.contains_key("CasFailed"@));
                                },
                            }
                        }
                    }
                    match value {
                        Some(v) => Some(KvResult::Value(v)),
                        None => None,
                    }
                } else if is_only_member(&members, "CasFailed") {
                    let names: [&str; 1] = ["actual"];
                    assert(crate::json::names_view(names@) =~= seq!["actual"@]);
                    let body = read_body(&members, "CasFailed", &names);
                    let actual = match &body {
                        None => None,
                        Some(body) => read_optional_member(body, "actual"),
                    };
                    proof {
                        assert forall|res: ResultView| text@ == #[trigger] res.json().text() implies res
                            is CasFailed && actual is Some && crate::json::text_view(actual->0)
                            == res->actual by {
                            match res {
                                ResultView::Done => {},
                                ResultView::Value(v) => {
                                    assert(text@ == ResultView::Value(v).json().text());
                                },
                                ResultView::CasFailed { actual: v } => {
                                    assert(text@ == (ResultView::CasFailed { actual: v }).json().text());
                                    let ms = seq![("actual"@, Json::optional_text(v))];
                                    lemma_tagged("actual"@, Json::optional_text(v));
                                    assert(all["CasFailed"@] == Json::Object(ms).text());
                                },
                            }
                        }
                    }
                    match actual {
                        Some(actual) => Some(KvResult::CasFailed { actual }),
                        None => None,
                    }
                } else {
                    let bare = is_only_member(&members, "Ok");
                    proof {
                        assert forall|res: ResultView| text@ == #[trigger] res.json().text() implies false by {
                            match res {
                                ResultView::Done => {},
                                ResultView::Value(v) => {
                                    assert(text@ == ResultView::Value(v).json().text());
                                },
                                ResultView::CasFailed { actual } => {
                                    assert(text@ == (ResultView::CasFailed { actual }).json().text());
                                },
                            }
                        }
                    }
                    if !bare {
                        return None;
                    }
                    match find_member(&members, "Ok") {
                        Some(v) => match read_text(v.as_str()) {
                            Some(None) => Some(KvResult::Done),
                            _ => None,
                        },
                        None => None,
                    }
                }
            },
        }
    }
}

// ---------------------------------------------------------------------------
// The store
// ---------------------------------------------------------------------------

/// What a client was last told.
///
/// Kept in the state machine rather than on the leader: it is replicated, so a
/// retry that lands on a *different* leader is still recognised as a duplicate.
#[derive(Debug, PartialEq, Eq)]
struct Session {
    last_seq: u64,
    last_result: KvResult,
}

pub struct SessionView {
    pub last_seq: u64,
    pub last_result: ResultView,
}

impl View for Session {
    type V = SessionView;

    closed spec fn view(&self) -> SessionView {
        SessionView { last_seq: self.last_seq, last_result: self.last_result@ }
    }
}

impl SessionView {
    pub open spec fn members(self) -> Seq<(Seq<char>, Json)> {
        seq![
            ("last_seq"@, Json::Number(self.last_seq as nat)),
            ("last_result"@, self.last_result.json()),
        ]
    }

    pub open spec fn json(self) -> Json {
        Json::Object(self.members())
    }
}

#[verifier::ext_equal]
pub struct StoreView {
    pub data: Map<Seq<char>, Seq<char>>,
    /// Per-client deduplication state.
    pub sessions: Map<u32, SessionView>,
}

impl StoreView {
    pub open spec fn empty() -> StoreView {
        StoreView { data: Map::empty(), sessions: Map::empty() }
    }

    pub open spec fn lookup(self, key: Seq<char>) -> Option<Seq<char>> {
        if self.data.contains_key(key) {
            Some(self.data[key])
        } else {
            None
        }
    }

    pub open spec fn last_seq(self, client: u32) -> Option<u64> {
        if self.sessions.contains_key(client) {
            Some(self.sessions[client].last_seq)
        } else {
            None
        }
    }

    /// The store after a command.
    pub open spec fn applied(self, cmd: CommandView) -> StoreView {
        match cmd {
            CommandView::Get { key } => self,
            CommandView::Put { key, value } => StoreView {
                data: self.data.insert(key, value),
                ..self
            },
            CommandView::Delete { key } => StoreView { data: self.data.remove(key), ..self },
            CommandView::Cas { key, expect, value } => if self.lookup(key) == expect {
                StoreView { data: self.data.insert(key, value), ..self }
            } else {
                self
            },
        }
    }

    /// What a command answers.
    pub open spec fn answer(self, cmd: CommandView) -> ResultView {
        match cmd {
            CommandView::Get { key } => ResultView::Value(self.lookup(key)),
            CommandView::Put { key, value } => ResultView::Done,
            CommandView::Delete { key } => ResultView::Done,
            CommandView::Cas { key, expect, value } => if self.lookup(key) == expect {
                ResultView::Done
            } else {
                ResultView::CasFailed { actual: self.lookup(key) }
            },
        }
    }

    /// This request was answered before, or a later one of the same client was.
    pub open spec fn is_duplicate(self, client: Option<(u32, u64)>) -> bool {
        client matches Some(c) && self.sessions.contains_key(c.0) && c.1
            <= self.sessions[c.0].last_seq
    }

    /// The store after a command on behalf of a client.
    pub open spec fn applied_for(self, client: Option<(u32, u64)>, cmd: CommandView) -> StoreView {
        if self.is_duplicate(client) {
            self
        } else {
            let after = self.applied(cmd);
            match client {
                Some(c) if !cmd.is_read_only() => StoreView {
                    sessions: after.sessions.insert(
                        c.0,
                        SessionView { last_seq: c.1, last_result: self.answer(cmd) },
                    ),
                    ..after
                },
                _ => after,
            }
        }
    }

    /// What a command on behalf of a client answers.
    pub open spec fn answer_for(self, client: Option<(u32, u64)>, cmd: CommandView) -> ResultView {
        if self.is_duplicate(client) {
            self.sessions[(client->0).0].last_result
        } else {
            self.answer(cmd)
        }
    }

    /// The sessions as members of an object, by ascending client.
    pub open spec fn session_members(self) -> Seq<(Seq<char>, Json)> {
        let ids = crate::order::in_order(self.sessions.dom());
        Seq::new(
            ids.len(),
            |i: int| (crate::text::decimal(ids[i] as nat), self.sessions[ids[i]].json()),
        )
    }

    pub open spec fn members(self) -> Seq<(Seq<char>, Json)> {
        seq![
            ("data"@, crate::kvmap::map_json(self.data)),
            ("sessions"@, Json::Object(self.session_members())),
        ]
    }

    pub open spec fn json(self) -> Json {
        Json::Object(self.members())
    }
}

/// The store after the first `n` of these commands.
pub open spec fn replay_commands(store: StoreView, cmds: Seq<CommandView>, n: int) -> StoreView
    decreases n,
{
    if n <= 0 {
        store
    } else {
        replay_commands(store, cmds, n - 1).applied(cmds[n - 1])
    }
}

// --- laws ----------------------------------------------------------------------

/// Exactly once: a retry, or anything older of the same client, changes nothing,
/// and a retry of the latest write is answered as the first attempt was.
pub proof fn law_retries_apply_once(
    store: StoreView,
    client: u32,
    seq: u64,
    retry: u64,
    cmd: CommandView,
    again: CommandView,
)
    requires
        !cmd.is_read_only(),
        retry <= seq,
        !store.is_duplicate(Some((client, seq))),
    ensures
        ({
            let first = store.applied_for(Some((client, seq)), cmd);
            &&& first.applied_for(Some((client, retry)), again) == first
            &&& first.answer_for(Some((client, retry)), again) == store.answer_for(
                Some((client, seq)),
                cmd,
            )
        }),
{
}

/// Reads take no session slot: a client's write stays recognisable as a
/// duplicate however much it reads in between.
pub proof fn law_reads_take_no_session_slot(store: StoreView, client: u32, seq: u64, key: Seq<char>)
    ensures
        store.applied_for(Some((client, seq)), CommandView::Get { key }) == store,
{
}

/// Clients are deduplicated independently of each other.
pub proof fn law_clients_are_independent(
    store: StoreView,
    a: u32,
    b: u32,
    seq: u64,
    cmd: CommandView,
)
    requires
        a != b,
    ensures
        store.applied_for(Some((a, seq)), cmd).last_seq(b) == store.last_seq(b),
{
}

/// Commands without a client are never deduplicated and leave no session.
pub proof fn law_anonymous_commands_always_apply(store: StoreView, cmd: CommandView)
    ensures
        store.applied_for(None, cmd) == store.applied(cmd),
        store.answer_for(None, cmd) == store.answer(cmd),
        store.applied(cmd).sessions == store.sessions,
{
}

/// A command only touches its own key, and neither its effect there nor its
/// answer depends on any other key. This is what lets a history be checked one
/// key at a time.
pub proof fn law_keys_are_independent(
    a: StoreView,
    b: StoreView,
    cmd: CommandView,
    other: Seq<char>,
)
    requires
        a.lookup(cmd.key()) == b.lookup(cmd.key()),
    ensures
        other != cmd.key() ==> a.applied(cmd).lookup(other) == a.lookup(other),
        a.answer(cmd) == b.answer(cmd),
        a.applied(cmd).lookup(cmd.key()) == b.applied(cmd).lookup(cmd.key()),
{
}

/// A read sees what was last written.
pub proof fn law_reads_see_writes(store: StoreView, key: Seq<char>, value: Seq<char>)
    ensures
        store.applied(CommandView::Put { key, value }).answer(CommandView::Get { key })
            == ResultView::Value(Some(value)),
        store.applied(CommandView::Delete { key }).answer(CommandView::Get { key })
            == ResultView::Value(None),
{
}

// --- reading a store --------------------------------------------------------------

/// The pairs of an object whose members are all strings.
pub open spec fn data_in(members: Map<Seq<char>, Seq<char>>) -> Option<Map<Seq<char>, Seq<char>>> {
    if forall|k: Seq<char>| #[trigger]
        members.contains_key(k) ==> text_member(members, k) is Some {
        Some(
            Map::new(
                |k: Seq<char>| members.contains_key(k),
                |k: Seq<char>| text_member(members, k)->0,
            ),
        )
    } else {
        None
    }
}

/// The session that an object with these members is.
pub open spec fn session_in(members: Map<Seq<char>, Seq<char>>) -> Option<SessionView> {
    if members.contains_key("last_seq"@) && members.contains_key("last_result"@) {
        match (
            crate::json::parsed_number(members["last_seq"@]),
            result_of(members["last_result"@]),
        ) {
            (Some(last_seq), Some(last_result)) => Some(SessionView { last_seq, last_result }),
            _ => None,
        }
    } else {
        None
    }
}

/// The session that `text` is.
pub open spec fn session_of(text: Seq<char>) -> Option<SessionView> {
    match fields_in(text, seq!["last_seq"@, "last_result"@]) {
        None => None,
        Some(members) => session_in(members),
    }
}

/// `name` is a client id in decimal.
pub open spec fn is_client_name(name: Seq<char>) -> bool {
    match crate::json::parsed_number(name) {
        Some(n) => n <= u32::MAX && crate::text::decimal(n as nat) == name,
        None => false,
    }
}

/// The sessions of an object whose names are clients and whose members are
/// sessions.
pub open spec fn sessions_in(members: Map<Seq<char>, Seq<char>>) -> Option<Map<u32, SessionView>> {
    if forall|k: Seq<char>| #[trigger]
        members.contains_key(k) ==> is_client_name(k) && session_of(members[k]) is Some {
        Some(
            Map::new(
                |c: u32| members.contains_key(crate::text::decimal(c as nat)),
                |c: u32| session_of(members[crate::text::decimal(c as nat)])->0,
            ),
        )
    } else {
        None
    }
}

/// The store that these bytes are.
pub open spec fn store_of(bytes: Seq<u8>) -> Option<StoreView> {
    match crate::json::fields_of(bytes, seq!["data"@, "sessions"@]) {
        None => None,
        Some(members) => if members.contains_key("data"@) && members.contains_key("sessions"@) {
            match (object_in(members["data"@]), object_in(members["sessions"@])) {
                (Some(data), Some(sessions)) => match (data_in(data), sessions_in(sessions)) {
                    (Some(data), Some(sessions)) => Some(StoreView { data, sessions }),
                    _ => None,
                },
                _ => None,
            }
        } else {
            None
        },
    }
}

#[derive(Debug, PartialEq, Eq)]
pub struct KvStore {
    data: KvMap,
    sessions: BTreeMap<ClientId, Session>,
}

spec fn sessions_view(m: Map<u32, Session>) -> Map<u32, SessionView> {
    Map::new(|c: u32| m.contains_key(c), |c: u32| m[c]@)
}

impl View for KvStore {
    type V = StoreView;

    closed spec fn view(&self) -> StoreView {
        StoreView { data: self.data@, sessions: sessions_view(self.sessions@) }
    }
}

impl Clone for KvStore {
    fn clone(&self) -> (r: Self)
        ensures
            r@ == self@,
            self.wf() ==> r.wf(),
    {
        let mut sessions: BTreeMap<ClientId, Session> = BTreeMap::new();
        let ids = keys_in_order(&self.sessions);
        let mut i: usize = 0;
        while i < ids.len()
            invariant
                i <= ids.len(),
                ids@.to_set() == self.sessions@.dom(),
                forall|c: u32| #[trigger]
                    sessions@.contains_key(c) ==> self.sessions@.contains_key(c) && sessions@[c]@
                        == self.sessions@[c]@,
                forall|k: int| 0 <= k < i ==> #[trigger] sessions@.contains_key(ids@[k]),
            decreases ids.len() - i,
        {
            let id: u32 = ids[i];
            assert(ids@.to_set().contains(id));
            match self.sessions.get(&id) {
                Some(s) => {
                    let copy = Session {
                        last_seq: s.last_seq,
                        last_result: s.last_result.clone(),
                    };
                    sessions.insert(id, copy);
                },
                None => {},
            }
            i = i + 1;
        }
        proof {
            assert forall|c: u32| self.sessions@.contains_key(c) implies sessions@.contains_key(
                c,
            ) by {
                assert(ids@.to_set().contains(c));
                let k = choose|k: int| 0 <= k < ids@.len() && ids@[k] == c;
                assert(sessions@.contains_key(ids@[k]));
            }
            assert(sessions_view(sessions@) =~= sessions_view(self.sessions@));
        }
        KvStore { data: self.data.clone(), sessions }
    }
}

impl Default for KvStore {
    fn default() -> (r: Self)
        ensures
            r@ == StoreView::empty(),
            r.wf(),
    {
        KvStore::new()
    }
}


/// The first `n` members have been read as sessions.
spec fn sessions_read(map: Map<u32, Session>, members: Seq<(String, String)>, n: int) -> bool {
    forall|c: u32, k: int|
        #![trigger map.contains_key(c), members[k]]
        0 <= k < n && members[k].0@ == crate::text::decimal(c as nat) ==> map.contains_key(c)
            && session_of(members[k].1@) == Some(map[c]@)
}

impl KvStore {
    /// The pairs are in order.
    pub closed spec fn wf(&self) -> bool {
        self.data.wf()
    }

    pub fn new() -> (r: Self)
        ensures
            r@ == StoreView::empty(),
            r.wf(),
    {
        let r = KvStore { data: KvMap::new(), sessions: BTreeMap::new() };
        assert(r@ =~= StoreView::empty());
        r
    }

    /// Apply a command on behalf of a client, deduplicating retries.
    ///
    /// A client that never hears back retries with the *same* sequence number.
    /// Only the most recent response per client is kept, so a client has one
    /// outstanding request at a time. A duplicate whose sequence number is
    /// *older* than the slot is still never re-applied.
    pub fn apply_for(&mut self, client: Option<(ClientId, u64)>, cmd: &KvCommand) -> (r: KvResult)
        requires
            old(self).wf(),
        ensures
            final(self).wf(),
            final(self)@ == old(self)@.applied_for(client, cmd@),
            r@ == old(self)@.answer_for(client, cmd@),
    {
        match client {
            None => self.apply(cmd),
            Some((client, seq)) => {
                match self.sessions.get(&client) {
                    Some(session) => {
                        if seq <= session.last_seq {
                            return session.last_result.clone();
                        }
                    },
                    None => {},
                }
                let result = self.apply(cmd);
                // Reads do not need a session slot, and keeping them out means
                // a client's writes are not evicted by its own reads.
                if !cmd.is_read_only() {
                    let ghost before = self.sessions@;
                    let session = Session { last_seq: seq, last_result: result.clone() };
                    self.sessions.insert(client, session);
                    assert(sessions_view(self.sessions@) =~= sessions_view(before).insert(
                        client,
                        session@,
                    ));
                }
                result
            },
        }
    }

    /// The highest sequence number applied for a client, if any.
    pub fn last_seq(&self, client: ClientId) -> (r: Option<u64>)
        ensures
            r == self@.last_seq(client),
    {
        match self.sessions.get(&client) {
            Some(s) => Some(s.last_seq),
            None => None,
        }
    }

    pub fn apply(&mut self, cmd: &KvCommand) -> (r: KvResult)
        requires
            old(self).wf(),
        ensures
            final(self).wf(),
            final(self)@ == old(self)@.applied(cmd@),
            r@ == old(self)@.answer(cmd@),
    {
        match cmd {
            KvCommand::Get { key } => KvResult::Value(self.value_of(key.as_str())),
            KvCommand::Put { key, value } => {
                self.data.insert(key.clone(), value.clone());
                KvResult::Done
            },
            KvCommand::Delete { key } => {
                self.data.remove(key.as_str());
                KvResult::Done
            },
            KvCommand::Cas { key, expect, value } => {
                let actual = self.value_of(key.as_str());
                if same_text(&actual, expect) {
                    self.data.insert(key.clone(), value.clone());
                    KvResult::Done
                } else {
                    KvResult::CasFailed { actual }
                }
            },
        }
    }

    /// A copy of the value under `key`.
    fn value_of(&self, key: &str) -> (r: Option<String>)
        requires
            self.wf(),
        ensures
            crate::json::text_view(r) == self@.lookup(key@),
    {
        match self.data.get(key) {
            Some(v) => Some(v.clone()),
            None => None,
        }
    }

    pub fn get(&self, key: &str) -> (r: Option<&String>)
        requires
            self.wf(),
        ensures
            r is Some == self@.lookup(key@) is Some,
            r matches Some(v) ==> self@.lookup(key@) == Some(v@),
    {
        self.data.get(key)
    }

    pub fn len(&self) -> (r: usize)
        requires
            self.wf(),
        ensures
            r == self@.data.dom().len(),
    {
        self.data.len()
    }

    pub fn is_empty(&self) -> (r: bool)
        requires
            self.wf(),
        ensures
            r == (self@.data.dom().len() == 0),
            r == (self@.data == Map::<Seq<char>, Seq<char>>::empty()),
    {
        self.data.is_empty()
    }

    /// Ordered view of the whole store, for comparing replicas.
    pub fn snapshot(&self) -> (r: &KvMap)
        ensures
            r@ == self@.data,
            self.wf() ==> r.wf(),
    {
        &self.data
    }

    /// Append the store as a JSON document.
    fn write_json(&self, out: &mut String)
        requires
            self.wf(),
        ensures
            final(out)@ == self@.json().write(old(out)@),
    {
        let ghost start = out@;
        proof {
            crate::json::lemma_object_2(
                "data"@,
                crate::kvmap::map_json(self@.data),
                "sessions"@,
                Json::Object(self@.session_members()),
                start,
            );
        }
        out.append("{");
        push_name(out, "data");
        self.data.write_json(out);
        out.append(",");
        push_name(out, "sessions");
        self.write_sessions(out);
        out.append("}");
    }

    fn write_sessions(&self, out: &mut String)
        ensures
            final(out)@ == Json::Object(self@.session_members()).write(old(out)@),
    {
        let ghost members = self@.session_members();
        let ids = keys_in_order(&self.sessions);
        assert(self@.sessions.dom() =~= self.sessions@.dom());
        out.append("{");
        let ghost start = out@;
        let mut i: usize = 0;
        while i < ids.len()
            invariant
                i <= ids.len(),
                ids@ == crate::order::in_order(self@.sessions.dom()),
                ids@.to_set() == self.sessions@.dom(),
                members == self@.session_members(),
                members.len() == ids@.len(),
                out@ == Json::write_members(members, i as int, start),
            decreases ids.len() - i,
        {
            let id: u32 = ids[i];
            assert(ids@.to_set().contains(id));
            assert(members[i as int] == (
                crate::text::decimal(id as nat),
                self@.sessions[id].json(),
            ));
            if i > 0 {
                out.append(",");
            }
            let mut name = String::new();
            push_decimal(&mut name, id as u64);
            assert(name@ =~= crate::text::decimal(id as nat));
            push_name(out, name.as_str());
            match self.sessions.get(&id) {
                Some(session) => {
                    proof {
                        crate::json::lemma_object_2(
                            "last_seq"@,
                            Json::Number(session.last_seq as nat),
                            "last_result"@,
                            session.last_result@.json(),
                            out@,
                        );
                    }
                    out.append("{");
                    push_name(out, "last_seq");
                    push_number(out, session.last_seq);
                    out.append(",");
                    push_name(out, "last_result");
                    session.last_result.write_json(out);
                    out.append("}");
                },
                None => {},
            }
            i = i + 1;
        }
        out.append("}");
    }

    /// The store as bytes, for a snapshot. The same store always gives the same
    /// bytes.
    pub fn to_bytes(&self) -> (r: Vec<u8>)
        requires
            self.wf(),
        ensures
            r@ == self@.json().bytes(),
    {
        let mut text = String::new();
        self.write_json(&mut text);
        assert(text@ == self@.json().text());
        copy_slice(text.as_str().as_bytes())
    }

    /// The store that these bytes are. What a store wrote reads back as that
    /// store.
    pub fn from_bytes(bytes: &[u8]) -> (r: Option<KvStore>)
        ensures
            r is Some == store_of(bytes@) is Some,
            r matches Some(s) ==> store_of(bytes@) == Some(s@) && s.wf(),
            forall|s: KvStore|
                s.wf() && bytes@ == #[trigger] s@.json().bytes() ==> r is Some && r->0@ == s@,
    {
        proof {
            lemma_names();
        }
        let names: [&str; 2] = ["data", "sessions"];
        assert(crate::json::names_view(names@) =~= seq!["data"@, "sessions"@]);
        let read = read_fields(bytes, &names);
        let result = match &read {
            None => None,
            Some(members) => KvStore::read_members(members),
        };
        proof {
            assert forall|s: KvStore| s.wf() && bytes@ == #[trigger] s@.json().bytes() implies result
                is Some && result->0@ == s@ by {
                lemma_names();
                let ms = s@.members();
                assert(crate::json::distinct_names(ms));
                lemma_member_at(ms, 0);
                lemma_member_at(ms, 1);
            }
        }
        result
    }

    /// The store that an object with these members is.
    fn read_members(members: &Vec<(String, String)>) -> (r: Option<KvStore>)
        requires
            crate::json::distinct_pairs(members@),
        ensures
            ({
                let all = crate::json::pairs_map(members@);
                let expected = if all.contains_key("data"@) && all.contains_key("sessions"@) {
                    match (object_in(all["data"@]), object_in(all["sessions"@])) {
                        (Some(data), Some(sessions)) => match (
                            data_in(data),
                            sessions_in(sessions),
                        ) {
                            (Some(data), Some(sessions)) => Some(StoreView { data, sessions }),
                            _ => None,
                        },
                        _ => None,
                    }
                } else {
                    None
                };
                &&& r is Some == expected is Some
                &&& r matches Some(s) ==> expected == Some(s@) && s.wf()
                &&& forall|s: KvStore|
                    s.wf() && all.contains_key("data"@) && all.contains_key("sessions"@)
                        && all["data"@] == crate::kvmap::map_json(s@.data).text()
                        && all["sessions"@] == Json::Object(
                        #[trigger] s@.session_members(),
                    ).text() ==> r is Some && r->0@ == s@
            }),
    {
        let data_text = find_member(members, "data");
        let sessions_text = find_member(members, "sessions");
        match (data_text, sessions_text) {
            (Some(data_text), Some(sessions_text)) => {
                let data = KvStore::read_data(data_text.as_str());
                let sessions = KvStore::read_sessions(sessions_text.as_str());
                match (data, sessions) {
                    (Some(data), Some(sessions)) => {
                        let r = KvStore { data, sessions };
                        Some(r)
                    },
                    _ => None,
                }
            },
            _ => None,
        }
    }

    /// The pairs that `text` is.
    fn read_data(text: &str) -> (r: Option<KvMap>)
        ensures
            ({
                let expected = match object_in(text@) {
                    None => None,
                    Some(members) => data_in(members),
                };
                &&& r is Some == expected is Some
                &&& r matches Some(m) ==> expected == Some(m@) && m.wf()
            }),
            forall|s: KvStore|
                s.wf() && text@ == crate::kvmap::map_json((#[trigger] s@).data).text() ==> r is Some
                    && r->0@ == s@.data,
    {
        let read = read_object(text.as_bytes());
        proof {
            assert forall|s: KvStore|
                s.wf() && text@ == crate::kvmap::map_json((#[trigger] s@).data).text() implies read
                is Some && crate::json::pairs_map(read->0@) == crate::json::member_texts(
                crate::kvmap::map_members(s@.data),
            ) by {
                s.data.lemma_members_distinct();
                assert(Json::Object(crate::kvmap::map_members(s@.data)).bytes()
                    == vstd::utf8::encode_utf8(text@));
            }
        }
        let members = match read {
            None => {
                return None;
            },
            Some(members) => members,
        };
        let ghost all = crate::json::pairs_map(members@);
        proof {
            assert forall|s: KvStore, k: Seq<char>|
                s.wf() && text@ == crate::kvmap::map_json((#[trigger] s@).data).text() implies (
            #[trigger] all.contains_key(k) <==> s@.data.contains_key(k)) && (all.contains_key(k)
                ==> all[k] == Json::Text(s@.data[k]).text()) by {
                s.data.lemma_member_of(k);
            }
        }
        let mut map = KvMap::new();
        let mut i: usize = 0;
        while i < members.len()
            invariant
                i <= members.len(),
                crate::json::distinct_pairs(members@),
                all == crate::json::pairs_map(members@),
                object_in(text@) == Some(all),
                map.wf(),
                forall|k: int|
                    0 <= k < i ==> map@.contains_key((#[trigger] members@[k]).0@) && text_member(
                        all,
                        members@[k].0@,
                    ) == Some(map@[members@[k].0@]),
                forall|x: Seq<char>| #[trigger]
                    map@.contains_key(x) ==> exists|k: int|
                        0 <= k < i && (#[trigger] members@[k]).0@ == x,
                forall|s: KvStore, k: Seq<char>|
                    s.wf() && text@ == crate::kvmap::map_json((#[trigger] s@).data).text() ==> (
                    #[trigger] all.contains_key(k) <==> s@.data.contains_key(k)) && (
                    all.contains_key(k) ==> all[k] == Json::Text(s@.data[k]).text()),
                forall|s: KvStore|
                    s.wf() && text@ == crate::kvmap::map_json((#[trigger] s@).data).text()
                        ==> forall|k: int|
                        0 <= k < i ==> s@.data.contains_key((#[trigger] members@[k]).0@)
                            && map@[members@[k].0@] == s@.data[members@[k].0@],
            decreases members.len() - i,
        {
            proof {
                crate::kvmap::lemma_pair_at(members@, i as int);
            }
            let read = read_text(members[i].1.as_str());
            proof {
                let name = members@[i as int].0@;
                assert(all.contains_key(name));
                assert forall|s: KvStore|
                    s.wf() && text@ == crate::kvmap::map_json(
                        (#[trigger] s@).data,
                    ).text() implies s@.data.contains_key(name) && read is Some && read->0 is Some
                    && read->0->0@ == s@.data[name] by {
                    assert(all.contains_key(name) <==> s@.data.contains_key(name));
                    assert(Json::optional_text(Some(s@.data[name])).text() == Json::Text(
                        s@.data[name],
                    ).text());
                }
            }
            match read {
                Some(Some(value)) => {
                    let key = members[i].0.clone();
                    let ghost before = map@;
                    map.insert(key, value);
                    proof {
                        assert forall|k: int| 0 <= k < i + 1 implies map@.contains_key(
                            (#[trigger] members@[k]).0@,
                        ) && text_member(all, members@[k].0@) == Some(map@[members@[k].0@]) by {
                            if k < i {
                                assert(members@[k].0@ != members@[i as int].0@);
                            }
                        }
                        assert forall|x: Seq<char>| #[trigger]
                            map@.contains_key(x) implies exists|k: int|
                            0 <= k < i + 1 && (#[trigger] members@[k]).0@ == x by {
                            if x == members@[i as int].0@ {
                            } else {
                                assert(before.contains_key(x));
                            }
                        }
                        assert forall|s: KvStore|
                            s.wf() && text@ == crate::kvmap::map_json(
                                (#[trigger] s@).data,
                            ).text() implies forall|k: int|
                            0 <= k < i + 1 ==> s@.data.contains_key((#[trigger] members@[k]).0@)
                                && map@[members@[k].0@] == s@.data[members@[k].0@] by {
                            assert forall|k: int| 0 <= k < i + 1 implies s@.data.contains_key(
                                (#[trigger] members@[k]).0@,
                            ) && map@[members@[k].0@] == s@.data[members@[k].0@] by {
                                if k < i {
                                    assert(members@[k].0@ != members@[i as int].0@);
                                }
                            }
                        }
                    }
                },
                _ => {
                    assert(text_member(all, members@[i as int].0@) is None);
                    return None;
                },
            }
            i = i + 1;
        }
        proof {
            assert forall|k: Seq<char>| #[trigger] all.contains_key(k) implies text_member(all, k)
                is Some by {
                let j = choose|j: int| 0 <= j < members@.len() && (#[trigger] members@[j]).0@ == k;
            }
            assert(data_in(all) is Some);
            assert(map@ =~= data_in(all)->0) by {
                assert forall|k: Seq<char>| #[trigger]
                    map@.contains_key(k) implies all.contains_key(k) by {
                    let j = choose|j: int|
                        0 <= j < members@.len() && (#[trigger] members@[j]).0@ == k;
                    crate::kvmap::lemma_pair_at(members@, j);
                }
                assert forall|k: Seq<char>| #[trigger] all.contains_key(k) implies map@.contains_key(
                    k,
                ) && map@[k] == data_in(all)->0[k] by {
                    let j = choose|j: int|
                        0 <= j < members@.len() && (#[trigger] members@[j]).0@ == k;
                }
            }
            assert forall|s: KvStore|
                s.wf() && text@ == crate::kvmap::map_json((#[trigger] s@).data).text() implies map@
                == s@.data by {
                assert forall|k: Seq<char>| s@.data.contains_key(k) implies map@.contains_key(k)
                    && map@[k] == s@.data[k] by {
                    assert(all.contains_key(k));
                    let j = choose|j: int|
                        0 <= j < members@.len() && (#[trigger] members@[j]).0@ == k;
                }
                assert forall|k: Seq<char>| map@.contains_key(k) implies s@.data.contains_key(
                    k,
                ) by {
                    assert(all.contains_key(k));
                }
                assert(map@ =~= s@.data);
            }
        }
        Some(map)
    }

    /// The sessions that `text` is.
    fn read_sessions(text: &str) -> (r: Option<BTreeMap<ClientId, Session>>)
        ensures
            ({
                let expected = match object_in(text@) {
                    None => None,
                    Some(members) => sessions_in(members),
                };
                &&& r is Some == expected is Some
                &&& r matches Some(m) ==> expected == Some(sessions_view(m@))
            }),
            forall|s: KvStore|
                s.wf() && text@ == Json::Object((#[trigger] s@).session_members()).text() ==> r
                    is Some && sessions_view(r->0@) == s@.sessions,
    {
        let read = read_object(text.as_bytes());
        proof {
            assert forall|s: KvStore|
                s.wf() && text@ == Json::Object((#[trigger] s@).session_members()).text() implies read
                is Some && crate::json::pairs_map(read->0@) == crate::json::member_texts(
                s@.session_members(),
            ) by {
                s.lemma_session_names();
                assert(Json::Object(s@.session_members()).bytes() == vstd::utf8::encode_utf8(
                    text@,
                ));
            }
        }
        let members = match read {
            None => {
                return None;
            },
            Some(members) => members,
        };
        let ghost all = crate::json::pairs_map(members@);
        proof {
            assert forall|s: KvStore, c: u32|
                s.wf() && text@ == Json::Object((#[trigger] s@).session_members()).text()
                    && #[trigger] s@.sessions.contains_key(c) implies all.contains_key(
                crate::text::decimal(c as nat),
            ) && all[crate::text::decimal(c as nat)] == s@.sessions[c].json().text() by {
                s.lemma_session_of(c);
            }
            assert forall|s: KvStore, k: Seq<char>|
                s.wf() && text@ == Json::Object((#[trigger] s@).session_members()).text()
                    && #[trigger] all.contains_key(k) implies exists|c: u32| #[trigger]
                s@.sessions.contains_key(c) && k == crate::text::decimal(c as nat) by {
                s.lemma_session_names();
                let ms = s@.session_members();
                let i = choose|i: int| 0 <= i < ms.len() && (#[trigger] ms[i]).0 == k;
                let c = crate::order::in_order(s@.sessions.dom())[i];
                s.lemma_session_id(i);
                assert(s@.sessions.contains_key(c));
            }
        }
        let mut map: BTreeMap<ClientId, Session> = BTreeMap::new();
        let mut i: usize = 0;
        while i < members.len()
            invariant
                i <= members.len(),
                crate::json::distinct_pairs(members@),
                all == crate::json::pairs_map(members@),
                object_in(text@) == Some(all),
                forall|k: int|
                    0 <= k < i ==> is_client_name((#[trigger] members@[k]).0@) && session_of(
                        members@[k].1@,
                    ) is Some,
                forall|c: u32| #[trigger]
                    map@.contains_key(c) <==> exists|k: int|
                        0 <= k < i && (#[trigger] members@[k]).0@ == crate::text::decimal(
                            c as nat,
                        ),
                sessions_read(map@, members@, i as int),
                forall|s: KvStore, c: u32|
                    s.wf() && text@ == Json::Object((#[trigger] s@).session_members()).text()
                        && #[trigger] s@.sessions.contains_key(c) ==> all.contains_key(
                        crate::text::decimal(c as nat),
                    ) && all[crate::text::decimal(c as nat)] == s@.sessions[c].json().text(),
                forall|s: KvStore, k: Seq<char>|
                    s.wf() && text@ == Json::Object((#[trigger] s@).session_members()).text()
                        && #[trigger] all.contains_key(k) ==> exists|c: u32| #[trigger]
                        s@.sessions.contains_key(c) && k == crate::text::decimal(c as nat),
                forall|k: int, session: SessionView|
                    0 <= k < i && (#[trigger] members@[k]).1@ == (#[trigger] session.json()).text()
                        ==> session_of(members@[k].1@) == Some(session),
            decreases members.len() - i,
        {
            proof {
                crate::kvmap::lemma_pair_at(members@, i as int);
            }
            let number = read_number(members[i].0.as_str());
            let session = KvStore::read_session(members[i].1.as_str());
            proof {
                assert forall|s: KvStore|
                    s.wf() && text@ == Json::Object(
                        (#[trigger] s@).session_members(),
                    ).text() implies is_client_name(members@[i as int].0@) && session is Some by {
                    let k = members@[i as int].0@;
                    assert(all.contains_key(k));
                    let c = choose|c: u32| #[trigger]
                        s@.sessions.contains_key(c) && k == crate::text::decimal(c as nat);
                    assert(crate::text::decimal((c as u64) as nat) == k);
                    assert(number == Some(c as u64));
                }
            }
            let (n, session) = match (number, session) {
                (Some(n), Some(session)) => (n, session),
                _ => {
                    assert(sessions_in(all) is None);
                    return None;
                },
            };
            let mut canonical = String::new();
            push_decimal(&mut canonical, n);
            assert(canonical@ =~= crate::text::decimal(n as nat));
            if n > u32::MAX as u64 || canonical != members[i].0 {
                assert(!is_client_name(members@[i as int].0@));
                assert(sessions_in(all) is None);
                return None;
            }
            let id: u32 = n as u32;
            let ghost before = map@;
            map.insert(id, session);
            proof {
                assert(members@[i as int].0@ == crate::text::decimal(id as nat));
                assert forall|c: u32| #[trigger] map@.contains_key(c) <==> exists|k: int|
                    0 <= k < i + 1 && (#[trigger] members@[k]).0@ == crate::text::decimal(
                        c as nat,
                    ) by {
                    if c == id {
                        assert(members@[i as int].0@ == crate::text::decimal(c as nat));
                    } else {
                        crate::text::lemma_decimal_injective(c as nat, id as nat);
                        assert(map@.contains_key(c) == before.contains_key(c));
                    }
                }
                assert(sessions_read(map@, members@, i + 1)) by {
                    assert forall|c: u32, k: int|
                        #![trigger map@.contains_key(c), members@[k]]
                        0 <= k < i + 1 && members@[k].0@ == crate::text::decimal(
                            c as nat,
                        ) implies map@.contains_key(c) && session_of(members@[k].1@) == Some(
                        map@[c]@,
                    ) by {
                        if k < i {
                            assert(members@[k].0@ != members@[i as int].0@);
                            assert(c != id);
                            assert(before.contains_key(c));
                        } else {
                            crate::text::lemma_decimal_injective(c as nat, id as nat);
                        }
                    }
                }
            }
            i = i + 1;
        }
        proof {
            assert forall|k: Seq<char>| #[trigger] all.contains_key(k) implies is_client_name(k)
                && session_of(all[k]) is Some by {
                let j = choose|j: int| 0 <= j < members@.len() && (#[trigger] members@[j]).0@ == k;
                crate::kvmap::lemma_pair_at(members@, j);
            }
            let expected = sessions_in(all)->0;
            assert(sessions_in(all) is Some);
            assert(sessions_view(map@) =~= expected) by {
                assert forall|c: u32| map@.contains_key(c) == expected.contains_key(c) by {
                    let name = crate::text::decimal(c as nat);
                    if map@.contains_key(c) {
                        let k = choose|k: int|
                            0 <= k < members@.len() && (#[trigger] members@[k]).0@ == name;
                        crate::kvmap::lemma_pair_at(members@, k);
                    }
                    if all.contains_key(name) {
                        let k = choose|k: int|
                            0 <= k < members@.len() && (#[trigger] members@[k]).0@ == name;
                        assert(map@.contains_key(c));
                    }
                }
                assert forall|c: u32| map@.contains_key(c) implies map@[c]@ == expected[c] by {
                    let name = crate::text::decimal(c as nat);
                    let k = choose|k: int|
                        0 <= k < members@.len() && (#[trigger] members@[k]).0@ == name;
                    crate::kvmap::lemma_pair_at(members@, k);
                }
            }
            assert forall|s: KvStore|
                s.wf() && text@ == Json::Object((#[trigger] s@).session_members()).text() implies sessions_view(
                map@,
            ) == s@.sessions by {
                assert forall|c: u32| s@.sessions.contains_key(c) implies map@.contains_key(c)
                    && map@[c]@ == s@.sessions[c] by {
                    let name = crate::text::decimal(c as nat);
                    assert(all.contains_key(name));
                    let k = choose|k: int|
                        0 <= k < members@.len() && (#[trigger] members@[k]).0@ == name;
                    crate::kvmap::lemma_pair_at(members@, k);
                    assert(members@[k].1@ == s@.sessions[c].json().text());
                    assert(map@.contains_key(c));
                }
                assert forall|c: u32| map@.contains_key(c) implies s@.sessions.contains_key(c) by {
                    let name = crate::text::decimal(c as nat);
                    let k = choose|k: int|
                        0 <= k < members@.len() && (#[trigger] members@[k]).0@ == name;
                    crate::kvmap::lemma_pair_at(members@, k);
                    assert(all.contains_key(name));
                    let d = choose|d: u32| #[trigger]
                        s@.sessions.contains_key(d) && name == crate::text::decimal(d as nat);
                    crate::text::lemma_decimal_injective(c as nat, d as nat);
                }
                assert(sessions_view(map@) =~= s@.sessions);
            }
        }
        Some(map)
    }

    /// The session that `text` is.
    fn read_session(text: &str) -> (r: Option<Session>)
        ensures
            r is Some == session_of(text@) is Some,
            r matches Some(s) ==> session_of(text@) == Some(s@),
            forall|s: SessionView| text@ == (#[trigger] s.json()).text() ==> r is Some && r->0@
                == s,
    {
        proof {
            lemma_names();
        }
        let names: [&str; 2] = ["last_seq", "last_result"];
        assert(crate::json::names_view(names@) =~= seq!["last_seq"@, "last_result"@]);
        let read = read_fields(text.as_bytes(), &names);
        proof {
            assert forall|s: SessionView| text@ == (#[trigger] s.json()).text() implies read is Some
                && crate::json::pairs_map(read->0@) == crate::json::member_texts(s.members()) by {
                assert(crate::json::distinct_names(s.members()));
                assert(Json::Object(s.members()).bytes() == vstd::utf8::encode_utf8(text@));
            }
        }
        let members = match read {
            None => {
                return None;
            },
            Some(members) => members,
        };
        let ghost all = crate::json::pairs_map(members@);
        proof {
            assert forall|s: SessionView| text@ == (#[trigger] s.json()).text() implies {
                &&& all.contains_key("last_seq"@)
                &&& all["last_seq"@] == crate::text::decimal(s.last_seq as nat)
                &&& all.contains_key("last_result"@)
                &&& all["last_result"@] == s.last_result.json().text()
            } by {
                assert(crate::json::distinct_names(s.members()));
                lemma_member_at(s.members(), 0);
                lemma_member_at(s.members(), 1);
                assert(Json::Number(s.last_seq as nat).text() =~= crate::text::decimal(
                    s.last_seq as nat,
                ));
            }
        }
        match (find_member(&members, "last_seq"), find_member(&members, "last_result")) {
            (Some(last_seq), Some(last_result)) => {
                let seq = read_number(last_seq.as_str());
                let result = KvResult::read_json(last_result.as_str());
                match (seq, result) {
                    (Some(last_seq), Some(last_result)) => Some(Session { last_seq, last_result }),
                    _ => None,
                }
            },
            _ => None,
        }
    }

    /// The sessions' names are distinct.
    proof fn lemma_session_names(&self)
        ensures
            crate::json::distinct_names(self@.session_members()),
    {
        let ids = crate::order::in_order(self@.sessions.dom());
        let ms = self@.session_members();
        assert(self@.sessions.dom() =~= self.sessions@.dom());
        crate::order::lemma_in_order_exists(self@.sessions.dom());
        assert forall|i: int, j: int| 0 <= i < j < ms.len() implies (#[trigger] ms[i]).0 != (
        #[trigger] ms[j]).0 by {
            assert(ids[i] < ids[j]);
            if crate::text::decimal(ids[i] as nat) == crate::text::decimal(ids[j] as nat) {
                crate::text::lemma_decimal_injective(ids[i] as nat, ids[j] as nat);
            }
        }
    }

    /// Every id in order has a session.
    proof fn lemma_session_id(&self, i: int)
        requires
            0 <= i < self@.session_members().len(),
        ensures
            self@.sessions.contains_key(crate::order::in_order(self@.sessions.dom())[i]),
    {
        let ids = crate::order::in_order(self@.sessions.dom());
        assert(self@.sessions.dom() =~= self.sessions@.dom());
        crate::order::lemma_in_order_exists(self@.sessions.dom());
        assert(ids.to_set().contains(ids[i]));
    }

    /// Every session is found under its client's name.
    proof fn lemma_session_of(&self, c: u32)
        requires
            self@.sessions.contains_key(c),
        ensures
            ({
                let all = crate::json::member_texts(self@.session_members());
                &&& all.contains_key(crate::text::decimal(c as nat))
                &&& all[crate::text::decimal(c as nat)] == self@.sessions[c].json().text()
            }),
    {
        let ids = crate::order::in_order(self@.sessions.dom());
        let ms = self@.session_members();
        assert(self@.sessions.dom() =~= self.sessions@.dom());
        crate::order::lemma_in_order_exists(self@.sessions.dom());
        assert(ids.to_set().contains(c));
        let i = choose|i: int| 0 <= i < ids.len() && ids[i] == c;
        self.lemma_session_names();
        lemma_member_at(ms, i);
    }
}

} // verus!
