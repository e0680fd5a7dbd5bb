//! JSON values, and how they are read and written.
//!
//! Reading is left to `serde_json`; what it read is held as a [`Json`] value, which the rest of the
//! library works on. An object is a list of members in the order in which `serde_json` keeps them.
use crate::text;
use vstd::prelude::*;
use vstd::string::*;
use vstd::utf8::*;

verus! {

/// A JSON value, as mathematics: what the contracts speak of.
pub enum JsonView {
    Null,
    Bool(bool),
    /// A number, as `serde_json` writes it.
    Number(Seq<char>),
    Text(Seq<char>),
    Array(Seq<JsonView>),
    /// The members of an object, in order.
    Object(Seq<(Seq<char>, JsonView)>),
}

/// A JSON value.
#[derive(Debug, PartialEq)]
pub enum Json {
    Null,
    Bool(bool),
    /// A number, as `serde_json` writes it.
    Number(String),
    Text(String),
    Array(Vec<Json>),
    /// The members of an object, in order.
    Object(Vec<(String, Json)>),
}

impl Json {
    pub open spec fn view(&self) -> JsonView
        decreases self,
    {
        match self {
            Json::Null => JsonView::Null,
            Json::Bool(b) => JsonView::Bool(*b),
            Json::Number(n) => JsonView::Number(n@),
            Json::Text(s) => JsonView::Text(s@),
            Json::Array(items) => JsonView::Array(
                Seq::new(
                    items@.len(),
                    |i: int|
                        if 0 <= i < items@.len() {
                            items@[i].view()
                        } else {
                            JsonView::Null
                        },
                ),
            ),
            Json::Object(members) => JsonView::Object(
                Seq::new(
                    members@.len(),
                    |i: int|
                        if 0 <= i < members@.len() {
                            (members@[i].0@, members@[i].1.view())
                        } else {
                            (Seq::empty(), JsonView::Null)
                        },
                ),
            ),
        }
    }
}

/// The views of a list of values.
pub open spec fn items_view(items: Seq<Json>) -> Seq<JsonView> {
    Seq::new(items.len(), |i: int| items[i].view())
}

/// The views of a list of members.
pub open spec fn members_view(members: Seq<(String, Json)>) -> Seq<(Seq<char>, JsonView)> {
    Seq::new(members.len(), |i: int| (members[i].0@, members[i].1.view()))
}

pub proof fn lemma_array_view(items: Vec<Json>)
    ensures
        Json::Array(items).view() == JsonView::Array(items_view(items@)),
{
    assert(Json::Array(items).view()->Array_0 =~= items_view(items@));
}

pub proof fn lemma_object_view(members: Vec<(String, Json)>)
    ensures
        Json::Object(members).view() == JsonView::Object(members_view(members@)),
{
    assert(Json::Object(members).view()->Object_0 =~= members_view(members@));
}

// ---------------------------------------------------------------------------
// Members
// ---------------------------------------------------------------------------

/// Whether an object has a member of that name.
pub open spec fn has_member(members: Seq<(Seq<char>, JsonView)>, key: Seq<char>) -> bool {
    exists|i: int| 0 <= i < members.len() && (#[trigger] members[i]).0 == key
}

/// The first member of that name, if there is one.
pub open spec fn member(members: Seq<(Seq<char>, JsonView)>, key: Seq<char>) -> Option<JsonView>
    decreases members.len(),
{
    if members.len() == 0 {
        None
    } else if members[0].0 == key {
        Some(members[0].1)
    } else {
        member(members.drop_first(), key)
    }
}

pub proof fn lemma_member(members: Seq<(Seq<char>, JsonView)>, key: Seq<char>)
    ensures
        member(members, key) is Some <==> has_member(members, key),
    decreases members.len(),
{
    if members.len() > 0 {
        lemma_member(members.drop_first(), key);
        if has_member(members, key) && members[0].0 != key {
            let i = choose|i: int| 0 <= i < members.len() && (#[trigger] members[i]).0 == key;
            assert(members.drop_first()[i - 1].0 == key);
        }
        if has_member(members.drop_first(), key) {
            let i = choose|i: int|
                0 <= i < members.drop_first().len() && (#[trigger] members.drop_first()[i]).0
                    == key;
            assert(members[i + 1].0 == key);
        }
    }
}

proof fn lemma_member_at(members: Seq<(Seq<char>, JsonView)>, key: Seq<char>, i: int)
    requires
        0 <= i < members.len(),
        members[i].0 == key,
        forall|j: int| 0 <= j < i ==> (#[trigger] members[j]).0 != key,
    ensures
        member(members, key) == Some(members[i].1),
    decreases i,
{
    if i > 0 {
        assert(members[0].0 != key);
        assert forall|j: int| 0 <= j < i - 1 implies (#[trigger] members.drop_first()[j]).0
            != key by {
            assert(members[j + 1].0 != key);
        }
        lemma_member_at(members.drop_first(), key, i - 1);
    }
}

/// Where the first member of that name stands.
pub fn find(members: &Vec<(String, Json)>, key: &str) -> (r: Option<usize>)
    ensures
        match r {
            Some(i) => i < members@.len() && members@[i as int].0@ == key@ && member(
                members_view(members@),
                key@,
            ) == Some(members@[i as int].1.view()),
            None => member(members_view(members@), key@) is None,
        },
{
    let ghost all = members_view(members@);
    let mut i: usize = 0;
    while i < members.len()
        invariant
            i <= members@.len(),
            all == members_view(members@),
            forall|j: int| 0 <= j < i ==> (#[trigger] all[j]).0 != key@,
        decreases members@.len() - i,
    {
        if text::same(members[i].0.as_str(), key) {
            proof {
                assert(all[i as int].0 == key@);
                lemma_member_at(all, key@, i as int);
            }
            return Some(i);
        }
        i = i + 1;
    }
    proof {
        lemma_member(all, key@);
    }
    None
}

/// The first member of that name.
pub fn lookup<'a>(members: &'a Vec<(String, Json)>, key: &str) -> (r: Option<&'a Json>)
    ensures
        match r {
            Some(v) => member(members_view(members@), key@) == Some(v.view()),
            None => member(members_view(members@), key@) is None,
        },
{
    match find(members, key) {
        Some(i) => Some(&members[i].1),
        None => None,
    }
}

/// The first member of that name, when it is a text.
pub open spec fn text_member(members: Seq<(Seq<char>, JsonView)>, key: Seq<char>) -> Option<
    Seq<char>,
> {
    match member(members, key) {
        Some(JsonView::Text(s)) => Some(s),
        _ => None,
    }
}

/// The first member of that name, when it is a text.
pub fn lookup_text<'a>(members: &'a Vec<(String, Json)>, key: &str) -> (r: Option<&'a String>)
    ensures
        match r {
            Some(s) => text_member(members_view(members@), key@) == Some(s@),
            None => text_member(members_view(members@), key@) is None,
        },
{
    match lookup(members, key) {
        Some(Json::Text(s)) => Some(s),
        _ => None,
    }
}

/// The members with one more, put where its key belongs in the order of the keys' bytes, or put
/// in the place of the member that has the key already.
pub open spec fn inserted(
    members: Seq<(Seq<char>, JsonView)>,
    key: Seq<char>,
    value: JsonView,
) -> Seq<(Seq<char>, JsonView)>
    decreases members.len(),
{
    if members.len() == 0 {
        seq![(key, value)]
    } else if members[0].0 == key {
        seq![(key, value)] + members.drop_first()
    } else if text::before(key, members[0].0) {
        seq![(key, value)] + members
    } else {
        seq![members[0]] + inserted(members.drop_first(), key, value)
    }
}

proof fn lemma_inserted_at(
    members: Seq<(Seq<char>, JsonView)>,
    key: Seq<char>,
    value: JsonView,
    i: int,
)
    requires
        0 <= i <= members.len(),
        forall|j: int|
            0 <= j < i ==> (#[trigger] members[j]).0 != key && !text::before(key, members[j].0),
    ensures
        inserted(members, key, value) == members.take(i) + inserted(members.skip(i), key, value),
    decreases i,
{
    if i == 0 {
        assert(members.skip(0) =~= members);
        assert(members.take(0) + inserted(members, key, value) =~= inserted(members, key, value));
    } else {
        let rest = members.drop_first();
        assert(members[0].0 != key && !text::before(key, members[0].0));
        assert forall|j: int| 0 <= j < i - 1 implies (#[trigger] rest[j]).0 != key && !text::before(
            key,
            rest[j].0,
        ) by {
            assert(rest[j] == members[j + 1]);
        }
        lemma_inserted_at(rest, key, value, i - 1);
        assert(rest.skip(i - 1) =~= members.skip(i));
        assert(seq![members[0]] + (rest.take(i - 1) + inserted(members.skip(i), key, value))
            =~= members.take(i) + inserted(members.skip(i), key, value));
    }
}

/// Puts a member where its key belongs, or in the place of the member that has the key already.
pub fn insert_member(members: &mut Vec<(String, Json)>, key: &str, value: Json)
    ensures
        members_view(final(members)@) == inserted(members_view(old(members)@), key@, value.view()),
{
    let ghost was = members@;
    let ghost all = members_view(members@);
    let mut i: usize = 0;
    while i < members.len() && !text::same(members[i].0.as_str(), key) && !text::is_before(
        key,
        members[i].0.as_str(),
    )
        invariant
            i <= members@.len(),
            members@ == was,
            all == members_view(was),
            forall|j: int|
                0 <= j < i ==> (#[trigger] all[j]).0 != key@ && !text::before(key@, all[j].0),
        decreases members@.len() - i,
    {
        i = i + 1;
    }
    proof {
        lemma_inserted_at(all, key@, value.view(), i as int);
        if i < all.len() {
            assert(all.skip(i as int)[0] == all[i as int]);
        }
    }
    if i < members.len() && text::same(members[i].0.as_str(), key) {
        proof {
            assert(members_view(was.update(i as int, (members@[i as int].0, value)))
                =~= all.take(i as int) + (seq![(key@, value.view())] + all.skip(
                i as int,
            ).drop_first()));
        }
        members[i].1 = value;
    } else {
        let entry = (key.to_owned(), value);
        proof {
            assert(members_view(was.insert(i as int, entry)) =~= all.take(i as int) + (seq![
                (key@, value.view()),
            ] + all.skip(i as int)));
        }
        members.insert(i, entry);
    }
}

/// A member that was put in is found under its key, and every other key finds what it found.
pub proof fn law_inserted_member_is_found(
    members: Seq<(Seq<char>, JsonView)>,
    key: Seq<char>,
    value: JsonView,
    other: Seq<char>,
)
    ensures
        member(inserted(members, key, value), key) == Some(value),
        other != key ==> member(inserted(members, key, value), other) == member(members, other),
    decreases members.len(),
{
    let out = inserted(members, key, value);
    if members.len() == 0 {
        assert(out.drop_first() =~= members);
    } else if members[0].0 == key {
        assert(out.drop_first() =~= members.drop_first());
    } else if text::before(key, members[0].0) {
        assert(out.drop_first() =~= members);
    } else {
        assert(out.drop_first() =~= inserted(members.drop_first(), key, value));
        law_inserted_member_is_found(members.drop_first(), key, value, other);
    }
}

impl Json {
    /// An equal value that shares nothing with this one.
    pub fn copy(&self) -> (r: Json)
        ensures
            r.view() == self.view(),
        decreases self,
    {
        match self {
            Json::Null => Json::Null,
            Json::Bool(b) => Json::Bool(*b),
            Json::Number(n) => Json::Number(n.clone()),
            Json::Text(s) => Json::Text(s.clone()),
            Json::Array(items) => {
                let mut out: Vec<Json> = Vec::new();
                let mut i: usize = 0;
                while i < items.len()
                    invariant
                        i <= items@.len(),
                        out@.len() == i,
                        *self == Json::Array(*items),
                        forall|j: int| 0 <= j < i ==> out@[j].view() == items@[j].view(),
                    decreases items@.len() - i,
                {
                    assert(decreases_to!(*self => self->Array_0@[i as int]));
                    out.push(items[i].copy());
                    i = i + 1;
                }
                proof {
                    lemma_array_view(out);
                    lemma_array_view(*items);
                    assert(items_view(out@) =~= items_view(items@));
                }
                Json::Array(out)
            },
            Json::Object(members) => {
                let mut out: Vec<(String, Json)> = Vec::new();
                let mut i: usize = 0;
                while i < members.len()
                    invariant
                        i <= members@.len(),
                        out@.len() == i,
                        *self == Json::Object(*members),
                        forall|j: int|
                            0 <= j < i ==> out@[j].0@ == members@[j].0@ && out@[j].1.view()
                                == members@[j].1.view(),
                    decreases members@.len() - i,
                {
                    assert(decreases_to!(*self => self->Object_0@[i as int].1));
                    out.push((members[i].0.clone(), members[i].1.copy()));
                    i = i + 1;
                }
                proof {
                    lemma_object_view(out);
                    lemma_object_view(*members);
                    assert(members_view(out@) =~= members_view(members@));
                }
                Json::Object(out)
            },
        }
    }
}

// ---------------------------------------------------------------------------
// Reading
// ---------------------------------------------------------------------------

/// `serde_json::Value`, which `serde_json` reads a document into.
#[verifier::external_type_specification]
#[verifier::external_body]
pub struct ExValue(serde_json::Value);

/// What a `serde_json::Value` holds.
pub uninterp spec fn value_contents(v: serde_json::Value) -> JsonView;

/// What `serde_json` reads from a document: the value, or the text of its error.
pub uninterp spec fn parsed_json(document: Seq<u8>) -> Result<JsonView, Seq<char>>;

/// One level of a `serde_json::Value`.
enum Node<'a> {
    Null,
    Bool(bool),
    Number(String),
    Text(&'a String),
    Array(&'a Vec<serde_json::Value>),
    Object(Vec<(&'a String, &'a serde_json::Value)>),
}

spec fn node_contents(node: Node) -> JsonView {
    match node {
        Node::Null => JsonView::Null,
        Node::Bool(b) => JsonView::Bool(b),
        Node::Number(n) => JsonView::Number(n@),
        Node::Text(s) => JsonView::Text(s@),
        Node::Array(items) => JsonView::Array(
            Seq::new(items@.len(), |i: int| value_contents(items@[i])),
        ),
        Node::Object(members) => JsonView::Object(
            Seq::new(members@.len(), |i: int| (members@[i].0@, value_contents(*members@[i].1))),
        ),
    }
}

/// How deep `serde_json` lets values nest.
pub const MAX_NESTING: u32 = 127;

/// The key by which `serde_json` tells a value that stands for a text of JSON: an object that
/// begins with it is not read as an object.
pub const RAW_VALUE_KEY: &'static str = "$serde_json::private::RawValue";

/// A key that does not begin as that one does is another.
pub proof fn lemma_plain_key(key: Seq<char>)
    requires
        key.len() == 0 || key[0] != '$',
    ensures
        key != RAW_VALUE_KEY@,
{
    reveal_strlit("$serde_json::private::RawValue");
    assert(RAW_VALUE_KEY@[0] == '$');
}

/// Whether a text is a whole number that `serde_json` keeps as it is.
pub open spec fn is_whole(n: Seq<char>) -> bool {
    exists|k: int|
        -0x8000_0000_0000_0000 <= k <= 0xffff_ffff_ffff_ffff && n == #[trigger] text::signed_decimal(
            k,
        )
}

/// Whether a value can be read back from its text: its numbers are whole, no object in it has a
/// key twice or begins with the key that `serde_json` keeps for itself, and it nests at most
/// `depth` deep.
pub open spec fn readable(v: JsonView, depth: nat) -> bool
    decreases v,
{
    match v {
        JsonView::Number(n) => is_whole(n),
        JsonView::Array(items) => {
            &&& depth > 0
            &&& forall|i: int|
                0 <= i < items.len() ==> readable(#[trigger] items[i], (depth - 1) as nat)
        },
        JsonView::Object(members) => {
            &&& depth > 0
            &&& forall|i: int, j: int|
                0 <= i < j < members.len() ==> (#[trigger] members[i]).0 != (
                #[trigger] members[j]).0
            &&& members.len() > 0 ==> members[0].0 != RAW_VALUE_KEY@
            &&& forall|i: int|
                0 <= i < members.len() ==> readable(
                    (#[trigger] members[i]).1,
                    (depth - 1) as nat,
                )
        },
        _ => true,
    }
}

/// Whether `read` is what a value comes to once it was written and read: the same value, with the
/// members of every object in the order of their keys.
pub open spec fn reads_as(v: JsonView, read: JsonView) -> bool
    decreases v,
{
    match (v, read) {
        (JsonView::Array(items), JsonView::Array(got)) => {
            &&& items.len() == got.len()
            &&& forall|i: int| 0 <= i < items.len() ==> reads_as(#[trigger] items[i], got[i])
        },
        (JsonView::Object(members), JsonView::Object(got)) => {
            &&& members.len() == got.len()
            &&& forall|i: int, j: int|
                0 <= i < j < got.len() ==> text::before(
                    (#[trigger] got[i]).0,
                    (#[trigger] got[j]).0,
                )
            &&& forall|i: int|
                0 <= i < members.len() ==> exists|j: int|
                    0 <= j < got.len() && (#[trigger] got[j]).0 == (#[trigger] members[i]).0
                        && reads_as(members[i].1, got[j].1)
        },
        _ => read == v,
    }
}

/// The bytes of a value's text.
pub open spec fn written(v: JsonView) -> Seq<u8> {
    encode_utf8(json_text(v))
}

/// Whether what was read from a document is what was written to it.
pub open spec fn read_back(document: Seq<u8>, read: Result<JsonView, Seq<char>>) -> bool {
    forall|v: JsonView|
        #![trigger written(v)]
        document == written(v) && readable(v, MAX_NESTING as nat) ==> (read matches Ok(got)
            && reads_as(v, got))
}

/// What a `serde_json::Value` holds, or the text of an error.
pub open spec fn value_read(r: Result<serde_json::Value, String>) -> Result<JsonView, Seq<char>> {
    match r {
        Ok(v) => Ok(value_contents(v)),
        Err(e) => Err(e@),
    }
}

/// Calls `serde_json::from_slice`. What it gives is the document's own, whoever asks: the value
/// that the document holds, or the text of the error. The text of a value that is written without
/// space is read back as that value, unless an object in it begins with [`RAW_VALUE_KEY`]. A
/// `serde_json::Map` has its members in the order of their keys.
#[verifier::external_body]
fn value_from_slice(document: &[u8]) -> (r: Result<serde_json::Value, String>)
    ensures
        value_read(r) == parsed_json(document@),
        read_back(document@, value_read(r)),
{
    serde_json::from_slice::<serde_json::Value>(document).map_err(|e| e.to_string())
}

/// Tells the variants of `serde_json::Value` apart and hands out what the value holds: its items,
/// or its members in the order of `serde_json::Map`. A number is handed out as its `Display` text.
#[verifier::external_body]
fn open_value<'a>(v: &'a serde_json::Value) -> (r: Node<'a>)
    ensures
        node_contents(r) == value_contents(*v),
{
    match v {
        serde_json::Value::Null => Node::Null,
        serde_json::Value::Bool(b) => Node::Bool(*b),
        serde_json::Value::Number(n) => Node::Number(n.to_string()),
        serde_json::Value::String(s) => Node::Text(s),
        serde_json::Value::Array(items) => Node::Array(items),
        serde_json::Value::Object(members) => Node::Object(members.iter().collect()),
    }
}

/// The value that a `serde_json::Value` holds.
fn lift(v: &serde_json::Value) -> (r: Json)
    ensures
        r.view() == value_contents(*v),
    decreases value_contents(*v),
{
    match open_value(v) {
        Node::Null => Json::Null,
        Node::Bool(b) => Json::Bool(b),
        Node::Number(n) => Json::Number(n),
        Node::Text(s) => Json::Text(s.clone()),
        Node::Array(items) => {
            let mut out: Vec<Json> = Vec::new();
            let mut i: usize = 0;
            while i < items.len()
                invariant
                    i <= items@.len(),
                    out@.len() == i,
                    value_contents(*v) == JsonView::Array(
                        Seq::new(items@.len(), |k: int| value_contents(items@[k])),
                    ),
                    forall|j: int| 0 <= j < i ==> out@[j].view() == value_contents(items@[j]),
                decreases items@.len() - i,
            {
                assert(value_contents(*v)->Array_0[i as int] == value_contents(items@[i as int]));
                assert(decreases_to!(value_contents(*v) => value_contents(*v)->Array_0[i as int]));
                out.push(lift(&items[i]));
                i = i + 1;
            }
            proof {
                lemma_array_view(out);
                assert(items_view(out@) =~= value_contents(*v)->Array_0);
            }
            Json::Array(out)
        },
        Node::Object(members) => {
            let mut out: Vec<(String, Json)> = Vec::new();
            let mut i: usize = 0;
            while i < members.len()
                invariant
                    i <= members@.len(),
                    out@.len() == i,
                    value_contents(*v) == JsonView::Object(
                        Seq::new(
                            members@.len(),
                            |k: int| (members@[k].0@, value_contents(*members@[k].1)),
                        ),
                    ),
                    forall|j: int|
                        0 <= j < i ==> out@[j].0@ == members@[j].0@ && out@[j].1.view()
                            == value_contents(*members@[j].1),
                decreases members@.len() - i,
            {
                assert(value_contents(*v)->Object_0[i as int].1 == value_contents(
                    *members@[i as int].1,
                ));
                assert(decreases_to!(
                    value_contents(*v) => value_contents(*v)->Object_0[i as int].1
                ));
                out.push((members[i].0.clone(), lift(members[i].1)));
                i = i + 1;
            }
            proof {
                lemma_object_view(out);
                assert(members_view(out@) =~= value_contents(*v)->Object_0);
            }
            Json::Object(out)
        },
    }
}

/// What was read, as mathematics.
pub open spec fn parsed_view(parsed: Result<Json, String>) -> Result<JsonView, Seq<char>> {
    match parsed {
        Ok(v) => Ok(v.view()),
        Err(e) => Err(e@),
    }
}

/// Reads a document. What was written is read back.
pub fn parse(document: &[u8]) -> (r: Result<Json, String>)
    ensures
        parsed_view(r) == parsed_json(document@),
        read_back(document@, parsed_view(r)),
{
    match value_from_slice(document) {
        Ok(v) => Ok(lift(&v)),
        Err(e) => Err(e),
    }
}

// ---------------------------------------------------------------------------
// Writing
// ---------------------------------------------------------------------------

/// One character inside a quoted text.
pub open spec fn escaped(c: char) -> Seq<char> {
    if c == '"' {
        seq!['\\', '"']
    } else if c == '\\' {
        seq!['\\', '\\']
    } else if c == '\u{8}' {
        seq!['\\', 'b']
    } else if c == '\t' {
        seq!['\\', 't']
    } else if c == '\n' {
        seq!['\\', 'n']
    } else if c == '\u{c}' {
        seq!['\\', 'f']
    } else if c == '\r' {
        seq!['\\', 'r']
    } else if (c as u32) < 0x20 {
        seq!['\\', 'u', '0', '0'] + text::hex_byte(c as u8)
    } else {
        seq![c]
    }
}

/// The characters of a text, each escaped.
pub open spec fn escaped_all(s: Seq<char>) -> Seq<char>
    decreases s.len(),
{
    if s.len() == 0 {
        Seq::empty()
    } else {
        escaped_all(s.drop_last()) + escaped(s.last())
    }
}

/// A text in quotes, as JSON writes it.
pub open spec fn quoted(s: Seq<char>) -> Seq<char> {
    seq!['"'] + escaped_all(s) + seq!['"']
}

/// Calls `serde_json::to_string` on a text: the text in quotes, with the quote, the backslash and
/// the control characters escaped, the shortest escape where JSON has several.
#[verifier::external_body]
pub(crate) fn quote(s: &str) -> (r: String)
    ensures
        r@ == quoted(s@),
{
    serde_json::to_string(s).unwrap_or_default()
}

/// How JSON writes a value, without any space.
pub open spec fn json_text(v: JsonView) -> Seq<char>
    decreases v, 0int,
{
    match v {
        JsonView::Null => "null"@,
        JsonView::Bool(b) => if b {
            "true"@
        } else {
            "false"@
        },
        JsonView::Number(n) => n,
        JsonView::Text(s) => quoted(s),
        JsonView::Array(items) => "["@ + items_text(items, items.len() as int) + "]"@,
        JsonView::Object(members) => "{"@ + members_text(members, members.len() as int) + "}"@,
    }
}

/// The first `n` items of an array, separated by commas.
pub open spec fn items_text(items: Seq<JsonView>, n: int) -> Seq<char>
    decreases items, n,
{
    if n <= 0 || items.len() < n {
        Seq::empty()
    } else if n == 1 {
        json_text(items[0])
    } else {
        items_text(items, n - 1) + ","@ + json_text(items[n - 1])
    }
}

/// The first `n` members of an object, separated by commas.
pub open spec fn members_text(members: Seq<(Seq<char>, JsonView)>, n: int) -> Seq<char>
    decreases members, n,
{
    if n <= 0 || members.len() < n {
        Seq::empty()
    } else if n == 1 {
        quoted(members[0].0) + ":"@ + json_text(members[0].1)
    } else {
        members_text(members, n - 1) + ","@ + quoted(members[n - 1].0) + ":"@ + json_text(
            members[n - 1].1,
        )
    }
}

impl Json {
    /// Writes the value, without any space.
    pub fn to_text(&self) -> (r: String)
        ensures
            r@ == json_text(self.view()),
    {
        let mut out = String::new();
        self.write_to(&mut out);
        proof {
            assert(out@ =~= json_text(self.view()));
        }
        out
    }

    fn write_to(&self, out: &mut String)
        ensures
            final(out)@ == old(out)@ + json_text(self.view()),
        decreases self,
    {
        match self {
            Json::Null => out.append("null"),
            Json::Bool(b) => if *b {
                out.append("true")
            } else {
                out.append("false")
            },
            Json::Number(n) => out.append(n.as_str()),
            Json::Text(s) => out.append(quote(s.as_str()).as_str()),
            Json::Array(items) => {
                let ghost v = self.view();
                let ghost before = out@ + "["@;
                out.append("[");
                proof {
                    lemma_array_view(*items);
                    assert(before + items_text(v->Array_0, 0) =~= before);
                }
                let mut i: usize = 0;
                while i < items.len()
                    invariant
                        i <= items@.len(),
                        *self == Json::Array(*items),
                        v == JsonView::Array(items_view(items@)),
                        out@ == before + items_text(v->Array_0, i as int),
                    decreases items@.len() - i,
                {
                    assert(decreases_to!(*self => self->Array_0@[i as int]));
                    if i > 0 {
                        out.append(",");
                    }
                    items[i].write_to(out);
                    proof {
                        assert(v->Array_0[i as int] == items@[i as int].view());
                        assert(out@ =~= before + items_text(v->Array_0, i + 1));
                    }
                    i = i + 1;
                }
                out.append("]");
                proof {
                    assert(out@ =~= old(out)@ + json_text(v));
                }
            },
            Json::Object(members) => {
                let ghost v = self.view();
                let ghost before = out@ + "{"@;
                out.append("{");
                proof {
                    lemma_object_view(*members);
                    assert(before + members_text(v->Object_0, 0) =~= before);
                }
                let mut i: usize = 0;
                while i < members.len()
                    invariant
                        i <= members@.len(),
                        *self == Json::Object(*members),
                        v == JsonView::Object(members_view(members@)),
                        out@ == before + members_text(v->Object_0, i as int),
                    decreases members@.len() - i,
                {
                    assert(decreases_to!(*self => self->Object_0@[i as int].1));
                    if i > 0 {
                        out.append(",");
                    }
                    out.append(quote(members[i].0.as_str()).as_str());
                    out.append(":");
                    members[i].1.write_to(out);
                    proof {
                        assert(v->Object_0[i as int] == (
                            members@[i as int].0@,
                            members@[i as int].1.view(),
                        ));
                        assert(out@ =~= before + members_text(v->Object_0, i + 1));
                    }
                    i = i + 1;
                }
                out.append("}");
                proof {
                    assert(out@ =~= old(out)@ + json_text(v));
                }
            },
        }
    }
}

// ---------------------------------------------------------------------------
// How long the text of a value is
// ---------------------------------------------------------------------------

/// An upper bound on the bytes that a value takes when it is written.
pub open spec fn size_bound(v: JsonView) -> nat
    decreases v, 0int,
{
    match v {
        JsonView::Null => 4,
        JsonView::Bool(_) => 5,
        JsonView::Number(n) => text::byte_len(n),
        JsonView::Text(s) => 6 * text::byte_len(s) + 2,
        JsonView::Array(items) => 2 + items_bound(items, items.len() as int),
        JsonView::Object(members) => 2 + members_bound(members, members.len() as int),
    }
}

/// The bound for the first `n` items of an array.
pub open spec fn items_bound(items: Seq<JsonView>, n: int) -> nat
    decreases items, n,
{
    if n <= 0 || items.len() < n {
        0
    } else {
        items_bound(items, n - 1) + 1 + size_bound(items[n - 1])
    }
}

/// The bound for the first `n` members of an object.
pub open spec fn members_bound(members: Seq<(Seq<char>, JsonView)>, n: int) -> nat
    decreases members, n,
{
    if n <= 0 || members.len() < n {
        0
    } else {
        members_bound(members, n - 1) + 6 * text::byte_len(members[n - 1].0) + 4 + size_bound(
            members[n - 1].1,
        )
    }
}

/// ASCII text takes one byte for each character.
pub proof fn lemma_ascii_len(s: Seq<char>)
    requires
        is_ascii_chars(s),
    ensures
        text::byte_len(s) == s.len(),
{
    is_ascii_chars_encode_utf8(s);
}

proof fn lemma_concat_len(a: Seq<char>, b: Seq<char>)
    ensures
        text::byte_len(a + b) == text::byte_len(a) + text::byte_len(b),
{
    text::lemma_encode_concat(a, b);
}

proof fn lemma_escaped_len(c: char)
    ensures
        text::byte_len(escaped(c)) <= 6 * text::char_width(c),
        text::char_width(c) >= 1,
{
    let s = escaped(c);
    if s == seq![c] {
        assert(s.drop_first() =~= Seq::<char>::empty());
        reveal_with_fuel(encode_utf8, 2);
    } else {
        assert(is_ascii_chars(s));
        lemma_ascii_len(s);
    }
}

/// Each byte of a text takes at most six when the text is quoted.
pub proof fn lemma_quoted_len(s: Seq<char>)
    ensures
        text::byte_len(quoted(s)) <= 6 * text::byte_len(s) + 2,
{
    lemma_escaped_all_len(s);
    let q = seq!['"'];
    lemma_ascii_len(q);
    lemma_concat_len(q, escaped_all(s));
    lemma_concat_len(q + escaped_all(s), q);
}

proof fn lemma_escaped_all_len(s: Seq<char>)
    ensures
        text::byte_len(escaped_all(s)) <= 6 * text::byte_len(s),
    decreases s.len(),
{
    if s.len() == 0 {
        lemma_ascii_len(escaped_all(s));
    } else {
        lemma_escaped_all_len(s.drop_last());
        lemma_escaped_len(s.last());
        lemma_concat_len(escaped_all(s.drop_last()), escaped(s.last()));
        assert(s =~= s.drop_last() + seq![s.last()]);
        lemma_concat_len(s.drop_last(), seq![s.last()]);
        assert(seq![s.last()].drop_first() =~= Seq::<char>::empty());
        reveal_with_fuel(encode_utf8, 2);
    }
}

/// A value takes no more bytes than its bound.
pub proof fn law_text_is_bounded(v: JsonView)
    ensures
        text::byte_len(json_text(v)) <= size_bound(v),
    decreases v, 0int,
{
    reveal_strlit("null");
    reveal_strlit("true");
    reveal_strlit("false");
    reveal_strlit("[");
    reveal_strlit("]");
    reveal_strlit("{");
    reveal_strlit("}");
    match v {
        JsonView::Null => lemma_ascii_len("null"@),
        JsonView::Bool(_) => {
            lemma_ascii_len("true"@);
            lemma_ascii_len("false"@);
        },
        JsonView::Number(_) => {},
        JsonView::Text(s) => lemma_quoted_len(s),
        JsonView::Array(items) => {
            let inner = items_text(items, items.len() as int);
            lemma_items_bound(items, items.len() as int);
            lemma_ascii_len("["@);
            lemma_ascii_len("]"@);
            lemma_concat_len("["@, inner);
            lemma_concat_len("["@ + inner, "]"@);
        },
        JsonView::Object(members) => {
            let inner = members_text(members, members.len() as int);
            lemma_members_bound(members, members.len() as int);
            lemma_ascii_len("{"@);
            lemma_ascii_len("}"@);
            lemma_concat_len("{"@, inner);
            lemma_concat_len("{"@ + inner, "}"@);
        },
    }
}

proof fn lemma_items_bound(items: Seq<JsonView>, n: int)
    requires
        n <= items.len(),
    ensures
        text::byte_len(items_text(items, n)) <= items_bound(items, n),
    decreases items, n,
{
    reveal_strlit(",");
    lemma_ascii_len(","@);
    if n <= 0 {
        lemma_ascii_len(items_text(items, n));
    } else {
        law_text_is_bounded(items[n - 1]);
        if n > 1 {
            lemma_items_bound(items, n - 1);
            lemma_concat_len(items_text(items, n - 1), ","@);
            lemma_concat_len(items_text(items, n - 1) + ","@, json_text(items[n - 1]));
        }
    }
}

proof fn lemma_members_bound(members: Seq<(Seq<char>, JsonView)>, n: int)
    requires
        n <= members.len(),
    ensures
        text::byte_len(members_text(members, n)) <= members_bound(members, n),
    decreases members, n,
{
    reveal_strlit(",");
    reveal_strlit(":");
    lemma_ascii_len(","@);
    lemma_ascii_len(":"@);
    if n <= 0 {
        lemma_ascii_len(members_text(members, n));
    } else {
        let key = quoted(members[n - 1].0);
        let value = json_text(members[n - 1].1);
        law_text_is_bounded(members[n - 1].1);
        lemma_quoted_len(members[n - 1].0);
        if n == 1 {
            lemma_concat_len(key, ":"@);
            lemma_concat_len(key + ":"@, value);
        } else {
            let head = members_text(members, n - 1);
            lemma_members_bound(members, n - 1);
            lemma_concat_len(head, ","@);
            lemma_concat_len(head + ","@, key);
            lemma_concat_len(head + ","@ + key, ":"@);
            lemma_concat_len(head + ","@ + key + ":"@, value);
        }
    }
}

/// The bound for one member.
pub open spec fn member_bound(key: Seq<char>, value: JsonView) -> nat {
    6 * text::byte_len(key) + 4 + size_bound(value)
}

proof fn lemma_members_bound_front(members: Seq<(Seq<char>, JsonView)>, n: int)
    requires
        1 <= n <= members.len(),
    ensures
        members_bound(members, n) == member_bound(members[0].0, members[0].1) + members_bound(
            members.drop_first(),
            n - 1,
        ),
    decreases n,
{
    reveal_with_fuel(members_bound, 2);
    if n > 1 {
        lemma_members_bound_front(members, n - 1);
        assert(members.drop_first()[n - 2] == members[n - 1]);
    }
}

/// One more member adds no more than its own bound.
pub proof fn lemma_inserted_bound(
    members: Seq<(Seq<char>, JsonView)>,
    key: Seq<char>,
    value: JsonView,
)
    ensures
        ({
            let out = inserted(members, key, value);
            members_bound(out, out.len() as int) <= members_bound(members, members.len() as int)
                + member_bound(key, value)
        }),
    decreases members.len(),
{
    let out = inserted(members, key, value);
    lemma_inserted_not_empty(members, key, value);
    lemma_members_bound_front(out, out.len() as int);
    if members.len() == 0 {
        assert(out.drop_first() =~= members);
    } else {
        lemma_members_bound_front(members, members.len() as int);
        if members[0].0 == key {
            assert(out.drop_first() =~= members.drop_first());
        } else if text::before(key, members[0].0) {
            assert(out.drop_first() =~= members);
        } else {
            assert(out.drop_first() =~= inserted(members.drop_first(), key, value));
            lemma_inserted_bound(members.drop_first(), key, value);
        }
    }
}

proof fn lemma_inserted_not_empty(
    members: Seq<(Seq<char>, JsonView)>,
    key: Seq<char>,
    value: JsonView,
)
    ensures
        inserted(members, key, value).len() > 0,
{
}

// ---------------------------------------------------------------------------
// The text of a value is one line
// ---------------------------------------------------------------------------

/// Whether a text is on one line.
pub open spec fn one_line(s: Seq<char>) -> bool {
    forall|i: int| 0 <= i < s.len() ==> #[trigger] s[i] != '\n'
}

/// Whether every number in a value is written on one line.
pub open spec fn numbers_on_one_line(v: JsonView) -> bool
    decreases v,
{
    match v {
        JsonView::Number(n) => one_line(n),
        JsonView::Array(items) => forall|i: int|
            0 <= i < items.len() ==> numbers_on_one_line(#[trigger] items[i]),
        JsonView::Object(members) => forall|i: int|
            0 <= i < members.len() ==> numbers_on_one_line((#[trigger] members[i]).1),
        _ => true,
    }
}

proof fn lemma_escaped_one_line(s: Seq<char>)
    ensures
        one_line(escaped_all(s)),
    decreases s.len(),
{
    if s.len() > 0 {
        lemma_escaped_one_line(s.drop_last());
        assert(one_line(escaped(s.last())));
    }
}

/// A value is written on one line, whatever its texts hold.
pub proof fn law_text_is_one_line(v: JsonView)
    requires
        numbers_on_one_line(v),
    ensures
        one_line(json_text(v)),
    decreases v, 0int,
{
    reveal_strlit("null");
    reveal_strlit("true");
    reveal_strlit("false");
    reveal_strlit("[");
    reveal_strlit("]");
    reveal_strlit("{");
    reveal_strlit("}");
    assert(one_line("null"@) && one_line("true"@) && one_line("false"@));
    assert(one_line("["@) && one_line("]"@) && one_line("{"@) && one_line("}"@));
    match v {
        JsonView::Text(s) => lemma_escaped_one_line(s),
        JsonView::Array(items) => {
            lemma_items_one_line(items, items.len() as int);
        },
        JsonView::Object(members) => {
            lemma_members_one_line(members, members.len() as int);
        },
        _ => {},
    }
}

proof fn lemma_items_one_line(items: Seq<JsonView>, n: int)
    requires
        n <= items.len(),
        forall|i: int| 0 <= i < items.len() ==> numbers_on_one_line(#[trigger] items[i]),
    ensures
        one_line(items_text(items, n)),
    decreases items, n,
{
    reveal_strlit(",");
    assert(one_line(","@));
    if n > 0 {
        law_text_is_one_line(items[n - 1]);
        lemma_items_one_line(items, n - 1);
    }
}

proof fn lemma_members_one_line(members: Seq<(Seq<char>, JsonView)>, n: int)
    requires
        n <= members.len(),
        forall|i: int| 0 <= i < members.len() ==> numbers_on_one_line((#[trigger] members[i]).1),
    ensures
        one_line(members_text(members, n)),
    decreases members, n,
{
    reveal_strlit(",");
    reveal_strlit(":");
    assert(one_line(","@) && one_line(":"@));
    if n > 0 {
        law_text_is_one_line(members[n - 1].1);
        lemma_escaped_one_line(members[n - 1].0);
        assert(one_line(quoted(members[n - 1].0)));
        lemma_members_one_line(members, n - 1);
    }
}

// ---------------------------------------------------------------------------
// Reading what was written
// ---------------------------------------------------------------------------

/// Whether every object in a value has its members in the order of their keys.
pub open spec fn in_order(v: JsonView) -> bool
    decreases v,
{
    match v {
        JsonView::Array(items) => forall|i: int|
            0 <= i < items.len() ==> in_order(#[trigger] items[i]),
        JsonView::Object(members) => {
            &&& keys_in_order(members)
            &&& forall|i: int| 0 <= i < members.len() ==> in_order((#[trigger] members[i]).1)
        },
        _ => true,
    }
}

/// Whether members are in the order of their keys.
pub open spec fn keys_in_order(members: Seq<(Seq<char>, JsonView)>) -> bool {
    forall|i: int, j: int|
        0 <= i < j < members.len() ==> text::before(
            (#[trigger] members[i]).0,
            (#[trigger] members[j]).0,
        )
}

/// Whether some member has that key and what the value reads as.
pub open spec fn found_in(got: Seq<(Seq<char>, JsonView)>, key: Seq<char>, v: JsonView) -> bool {
    exists|j: int| 0 <= j < got.len() && (#[trigger] got[j]).0 == key && reads_as(v, got[j].1)
}

spec fn place_of(got: Seq<(Seq<char>, JsonView)>, key: Seq<char>, v: JsonView) -> int {
    choose|j: int| 0 <= j < got.len() && (#[trigger] got[j]).0 == key && reads_as(v, got[j].1)
}

proof fn lemma_places_ascend(
    members: Seq<(Seq<char>, JsonView)>,
    got: Seq<(Seq<char>, JsonView)>,
    i: int,
)
    requires
        0 <= i < members.len() - 1,
        keys_in_order(members),
        keys_in_order(got),
        forall|k: int|
            0 <= k < members.len() ==> found_in(
                got,
                (#[trigger] members[k]).0,
                members[k].1,
            ),
    ensures
        place_of(got, members[i].0, members[i].1) < place_of(
            got,
            members[i + 1].0,
            members[i + 1].1,
        ),
{
    let a = place_of(got, members[i].0, members[i].1);
    let b = place_of(got, members[i + 1].0, members[i + 1].1);
    assert(found_in(got, members[i].0, members[i].1));
    assert(found_in(got, members[i + 1].0, members[i + 1].1));
    assert(text::before(members[i].0, members[i + 1].0));
    text::lemma_order(members[i].0, members[i + 1].0);
    if b < a {
        assert(text::before(got[b].0, got[a].0));
    }
}

proof fn lemma_place_at_least(
    members: Seq<(Seq<char>, JsonView)>,
    got: Seq<(Seq<char>, JsonView)>,
    i: int,
)
    requires
        0 <= i < members.len(),
        keys_in_order(members),
        keys_in_order(got),
        forall|k: int|
            0 <= k < members.len() ==> found_in(
                got,
                (#[trigger] members[k]).0,
                members[k].1,
            ),
    ensures
        i <= place_of(got, members[i].0, members[i].1),
    decreases i,
{
    assert(found_in(got, members[i].0, members[i].1));
    if i > 0 {
        lemma_place_at_least(members, got, i - 1);
        lemma_places_ascend(members, got, i - 1);
    }
}

proof fn lemma_place_at_most(
    members: Seq<(Seq<char>, JsonView)>,
    got: Seq<(Seq<char>, JsonView)>,
    i: int,
)
    requires
        0 <= i < members.len(),
        members.len() == got.len(),
        keys_in_order(members),
        keys_in_order(got),
        forall|k: int|
            0 <= k < members.len() ==> found_in(
                got,
                (#[trigger] members[k]).0,
                members[k].1,
            ),
    ensures
        place_of(got, members[i].0, members[i].1) <= i,
    decreases members.len() - i,
{
    assert(found_in(got, members[i].0, members[i].1));
    if i < members.len() - 1 {
        lemma_place_at_most(members, got, i + 1);
        lemma_places_ascend(members, got, i);
    }
}

/// Members that were put in the order of their keys are read one by one as they are. `members` are
/// those of the value, in any order; `ordered` are the same in the order of their keys.
pub proof fn lemma_members_are_read(
    members: Seq<(Seq<char>, JsonView)>,
    ordered: Seq<(Seq<char>, JsonView)>,
    read: JsonView,
)
    requires
        reads_as(JsonView::Object(members), read),
        keys_in_order(ordered),
        ordered.len() == members.len(),
        forall|i: int| 0 <= i < ordered.len() ==> members.contains(#[trigger] ordered[i]),
    ensures
        read is Object,
        read->Object_0.len() == ordered.len(),
        forall|i: int|
            0 <= i < ordered.len() ==> (#[trigger] read->Object_0[i]).0 == ordered[i].0 && reads_as(
                ordered[i].1,
                read->Object_0[i].1,
            ),
{
    let got = read->Object_0;
    assert forall|k: int| 0 <= k < ordered.len() implies found_in(
        got,
        (#[trigger] ordered[k]).0,
        ordered[k].1,
    ) by {
        assert(members.contains(ordered[k]));
        let m = choose|m: int| 0 <= m < members.len() && members[m] == ordered[k];
        assert(members[m].0 == ordered[k].0);
    }
    assert forall|i: int| 0 <= i < ordered.len() implies (#[trigger] got[i]).0 == ordered[i].0
        && reads_as(ordered[i].1, got[i].1) by {
        lemma_place_at_least(ordered, got, i);
        lemma_place_at_most(ordered, got, i);
        assert(found_in(got, ordered[i].0, ordered[i].1));
    }
}

/// Inserting brings no member but the new one.
pub proof fn lemma_inserted_keys(
    members: Seq<(Seq<char>, JsonView)>,
    key: Seq<char>,
    value: JsonView,
    i: int,
)
    requires
        0 <= i < inserted(members, key, value).len(),
    ensures
        inserted(members, key, value)[i] == (key, value) || members.contains(
            inserted(members, key, value)[i],
        ),
    decreases members.len(),
{
    let now = inserted(members, key, value);
    if members.len() == 0 {
    } else if members[0].0 == key {
        if i > 0 {
            assert(now[i] == members[i]);
        }
    } else if text::before(key, members[0].0) {
        if i > 0 {
            assert(now[i] == members[i - 1]);
        }
    } else if i > 0 {
        let rest = members.drop_first();
        lemma_inserted_keys(rest, key, value, i - 1);
        if rest.contains(now[i]) {
            let j = choose|j: int| 0 <= j < rest.len() && rest[j] == now[i];
            assert(members[j + 1] == now[i]);
        }
    } else {
        assert(now[0] == members[0]);
    }
}

/// A member is put where its key belongs.
pub proof fn law_inserting_keeps_the_order(
    members: Seq<(Seq<char>, JsonView)>,
    key: Seq<char>,
    value: JsonView,
)
    requires
        keys_in_order(members),
    ensures
        keys_in_order(inserted(members, key, value)),
    decreases members.len(),
{
    let now = inserted(members, key, value);
    if members.len() > 0 {
        let rest = members.drop_first();
        text::lemma_order(key, members[0].0);
        if members[0].0 == key {
            assert forall|i: int, j: int| 0 <= i < j < now.len() implies text::before(
                (#[trigger] now[i]).0,
                (#[trigger] now[j]).0,
            ) by {
                assert(now[i].0 == members[i].0);
                assert(now[j].0 == members[j].0);
            }
        } else if text::before(key, members[0].0) {
            assert forall|i: int, j: int| 0 <= i < j < now.len() implies text::before(
                (#[trigger] now[i]).0,
                (#[trigger] now[j]).0,
            ) by {
                assert(now[j] == members[j - 1]);
                if i > 0 {
                    assert(now[i] == members[i - 1]);
                } else if j > 1 {
                    text::lemma_order_transitive(key, members[0].0, members[j - 1].0);
                }
            }
        } else {
            assert forall|i: int, j: int| 0 <= i < j < rest.len() implies text::before(
                (#[trigger] rest[i]).0,
                (#[trigger] rest[j]).0,
            ) by {
                assert(rest[i] == members[i + 1]);
                assert(rest[j] == members[j + 1]);
            }
            law_inserting_keeps_the_order(rest, key, value);
            let after = inserted(rest, key, value);
            assert forall|i: int, j: int| 0 <= i < j < now.len() implies text::before(
                (#[trigger] now[i]).0,
                (#[trigger] now[j]).0,
            ) by {
                assert(now[j] == after[j - 1]);
                if i > 0 {
                    assert(now[i] == after[i - 1]);
                } else {
                    lemma_inserted_keys(rest, key, value, j - 1);
                    if rest.contains(after[j - 1]) {
                        let k = choose|k: int| 0 <= k < rest.len() && rest[k] == after[j - 1];
                        assert(members[k + 1] == after[j - 1]);
                    }
                }
            }
        }
    }
}

/// A value whose objects have their members in the order of their keys is read back unchanged.
pub proof fn law_values_in_order_are_read_back(v: JsonView, read: JsonView)
    requires
        in_order(v),
        reads_as(v, read),
    ensures
        read == v,
    decreases v,
{
    match v {
        JsonView::Array(items) => {
            let got = read->Array_0;
            assert forall|i: int| 0 <= i < items.len() implies items[i] == got[i] by {
                law_values_in_order_are_read_back(items[i], got[i]);
            }
            assert(items =~= got);
        },
        JsonView::Object(members) => {
            lemma_members_are_read(members, members, read);
            let got = read->Object_0;
            assert forall|i: int| 0 <= i < members.len() implies members[i] == got[i] by {
                law_values_in_order_are_read_back(members[i].1, got[i].1);
            }
            assert(members =~= got);
        },
        _ => {},
    }
}

/// A member is the first one under its key, and there is none where no member has that key.
pub proof fn law_a_member_is_the_first_under_its_key(
    members: Seq<(Seq<char>, JsonView)>,
    key: Seq<char>,
)
    ensures
        match member(members, key) {
            Some(v) => exists|i: int|
                {
                    &&& 0 <= i < members.len()
                    &&& (#[trigger] members[i]).0 == key
                    &&& members[i].1 == v
                    &&& forall|j: int| 0 <= j < i ==> (#[trigger] members[j]).0 != key
                },
            None => forall|i: int| 0 <= i < members.len() ==> (#[trigger] members[i]).0 != key,
        },
        text_member(members, key) == (match member(members, key) {
            Some(JsonView::Text(s)) => Some(s),
            _ => None,
        }),
    decreases members.len(),
{
    if members.len() > 0 && members[0].0 != key {
        let rest = members.drop_first();
        law_a_member_is_the_first_under_its_key(rest, key);
        match member(rest, key) {
            Some(v) => {
                let i = choose|i: int|
                    {
                        &&& 0 <= i < rest.len()
                        &&& (#[trigger] rest[i]).0 == key
                        &&& rest[i].1 == v
                        &&& forall|j: int| 0 <= j < i ==> (#[trigger] rest[j]).0 != key
                    };
                assert(members[i + 1] == rest[i]);
                assert forall|j: int| 0 <= j < i + 1 implies (#[trigger] members[j]).0 != key by {
                    if j > 0 {
                        assert(members[j] == rest[j - 1]);
                    }
                }
            },
            None => {
                assert forall|i: int| 0 <= i < members.len() implies (#[trigger] members[i]).0
                    != key by {
                    if i > 0 {
                        assert(members[i] == rest[i - 1]);
                    }
                }
            },
        }
    } else if members.len() > 0 {
        assert(members[0].0 == key);
    }
}

/// Inserting adds one member, or replaces the one that was there.
pub proof fn law_inserting_adds_one_member_at_most(
    members: Seq<(Seq<char>, JsonView)>,
    key: Seq<char>,
    value: JsonView,
)
    requires
        keys_in_order(members),
    ensures
        inserted(members, key, value).len() == members.len() + (if has_member(members, key) {
            0int
        } else {
            1
        }),
    decreases members.len(),
{
    if members.len() > 0 {
        let rest = members.drop_first();
        assert forall|i: int, j: int| 0 <= i < j < rest.len() implies text::before(
            (#[trigger] rest[i]).0,
            (#[trigger] rest[j]).0,
        ) by {
            assert(rest[i] == members[i + 1] && rest[j] == members[j + 1]);
        }
        law_inserting_adds_one_member_at_most(rest, key, value);
        if members[0].0 != key {
            if has_member(members, key) {
                let i = choose|i: int| 0 <= i < members.len() && (#[trigger] members[i]).0 == key;
                assert(rest[i - 1].0 == key);
                if text::before(key, members[0].0) {
                    assert(text::before(members[0].0, members[i].0));
                    text::lemma_order(key, members[0].0);
                }
            } else if has_member(rest, key) {
                let i = choose|i: int| 0 <= i < rest.len() && (#[trigger] rest[i]).0 == key;
                assert(members[i + 1].0 == key);
            }
        }
    }
}

} // verus!
