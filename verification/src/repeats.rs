//! Repeated keys in a JSON document.
//!
//! Reading a document into a map keeps the last value of a repeated key and forgets that there
//! were two. "Last one wins" lets a sender show one value to whoever logs the document and another
//! to whoever checks it, so repeats are looked for in the document itself.
//!
//! The document is walked along its structure. Where a key or a scalar stands, `serde_json` reads
//! it and says how long it is.
use crate::json::{self, JsonView};
use crate::text;
use vstd::prelude::*;
use vstd::slice::slice_subrange;
use vstd::string::*;

verus! {

/// How deep the walk goes. `serde_json` refuses documents that nest deeper.
pub const MAX_DEPTH: u32 = 128;

// ---------------------------------------------------------------------------
// The keys of a document
// ---------------------------------------------------------------------------

/// The keys of a document, as they nest, as mathematics.
pub enum KeysView {
    Leaf,
    Items(Seq<KeysView>),
    Members(Seq<(Seq<char>, KeysView)>),
}

/// The keys of a document, as they nest. Every key is kept, repeated ones too.
pub enum Keys {
    Leaf,
    Items(Vec<Keys>),
    Members(Vec<(String, Keys)>),
}

impl Keys {
    pub open spec fn view(&self) -> KeysView
        decreases self,
    {
        match self {
            Keys::Leaf => KeysView::Leaf,
            Keys::Items(items) => KeysView::Items(
                Seq::new(
                    items@.len(),
                    |i: int|
                        if 0 <= i < items@.len() {
                            items@[i].view()
                        } else {
                            KeysView::Leaf
                        },
                ),
            ),
            Keys::Members(members) => KeysView::Members(
                Seq::new(
                    members@.len(),
                    |i: int|
                        if 0 <= i < members@.len() {
                            (members@[i].0@, members@[i].1.view())
                        } else {
                            (Seq::empty(), KeysView::Leaf)
                        },
                ),
            ),
        }
    }
}

pub open spec fn key_items(items: Seq<Keys>) -> Seq<KeysView> {
    Seq::new(items.len(), |i: int| items[i].view())
}

pub open spec fn key_members(members: Seq<(String, Keys)>) -> Seq<(Seq<char>, KeysView)> {
    Seq::new(members.len(), |i: int| (members[i].0@, members[i].1.view()))
}

proof fn lemma_items_view(items: Vec<Keys>)
    ensures
        Keys::Items(items).view() == KeysView::Items(key_items(items@)),
{
    assert(Keys::Items(items).view()->Items_0 =~= key_items(items@));
}

proof fn lemma_members_view(members: Vec<(String, Keys)>)
    ensures
        Keys::Members(members).view() == KeysView::Members(key_members(members@)),
{
    assert(Keys::Members(members).view()->Members_0 =~= key_members(members@));
}

// ---------------------------------------------------------------------------
// Walking a document
// ---------------------------------------------------------------------------

/// The text that `serde_json` reads at the start of some bytes, and how many bytes it takes.
pub uninterp spec fn leading_text(bytes: Seq<u8>) -> Option<(Seq<char>, int)>;

/// How many bytes the value takes that `serde_json` skips at the start of some bytes.
pub uninterp spec fn leading_value(bytes: Seq<u8>) -> Option<int>;

/// A text in quotes, and more bytes after it.
pub open spec fn text_then(s: Seq<char>, rest: Seq<u8>) -> Seq<u8> {
    vstd::utf8::encode_utf8(json::quoted(s)) + rest
}

/// A value as it is written, and more bytes after it.
pub open spec fn value_then(v: JsonView, rest: Seq<u8>) -> Seq<u8> {
    json::written(v) + rest
}

/// Whether a value has no values in it, and can be read back.
pub open spec fn is_scalar(v: JsonView) -> bool {
    match v {
        JsonView::Array(_) => false,
        JsonView::Object(_) => false,
        JsonView::Number(n) => json::is_whole(n),
        _ => true,
    }
}

/// Whether a value inside a document can end before these bytes.
pub open spec fn ends_value(rest: Seq<u8>) -> bool {
    rest.len() == 0 || rest[0] == 0x2c || rest[0] == 0x5d || rest[0] == 0x7d
}

/// Whether a text that was written is what was read.
pub open spec fn text_read_back(bytes: Seq<u8>, read: Option<(Seq<char>, int)>) -> bool {
    forall|s: Seq<char>, rest: Seq<u8>|
        #![trigger text_then(s, rest)]
        bytes == text_then(s, rest) ==> read == Some(
            (s, vstd::utf8::encode_utf8(json::quoted(s)).len() as int),
        )
}

/// Whether a value that was written is what was passed over.
pub open spec fn value_passed(bytes: Seq<u8>, read: Option<int>) -> bool {
    forall|v: JsonView, rest: Seq<u8>|
        #![trigger value_then(v, rest)]
        bytes == value_then(v, rest) && is_scalar(v) && ends_value(rest) ==> read == Some(
            json::written(v).len() as int,
        )
}

/// What was read, and how many bytes it took.
pub open spec fn text_taken(r: Option<(String, usize)>) -> Option<(Seq<char>, int)> {
    match r {
        Some((s, n)) => Some((s@, n as int)),
        None => None,
    }
}

/// How many bytes were passed over.
pub open spec fn bytes_taken(r: Option<usize>) -> Option<int> {
    match r {
        Some(n) => Some(n as int),
        None => None,
    }
}

/// Reads one text with `serde_json::StreamDeserializer`: the text and `byte_offset` after it, or
/// nothing where `serde_json` reads no text there. A text takes at least its quotes, and never
/// more than there is. A text that was written as JSON is read back, whatever comes after it.
#[verifier::external_body]
fn read_text(bytes: &[u8]) -> (r: Option<(String, usize)>)
    ensures
        text_taken(r) == leading_text(bytes@),
        text_taken(r) matches Some((s, n)) ==> 0 < n <= bytes@.len(),
        text_read_back(bytes@, text_taken(r)),
{
    let mut stream = serde_json::Deserializer::from_slice(bytes).into_iter::<String>();
    match stream.next() {
        Some(Ok(s)) => Some((s, stream.byte_offset())),
        _ => None,
    }
}

/// Skips one value with `serde_json::StreamDeserializer` and `serde::de::IgnoredAny`:
/// `byte_offset` after it, or nothing where there is no value. A value takes at least one byte,
/// and never more than there is. A value without others in it that was written as JSON is passed
/// over, where what comes after it can end it.
#[verifier::external_body]
fn skip_value(bytes: &[u8]) -> (r: Option<usize>)
    ensures
        bytes_taken(r) == leading_value(bytes@),
        bytes_taken(r) matches Some(n) ==> 0 < n <= bytes@.len(),
        value_passed(bytes@, bytes_taken(r)),
{
    let mut stream = serde_json::Deserializer::from_slice(bytes).into_iter::<serde::de::IgnoredAny>();
    match stream.next() {
        Some(Ok(_)) => Some(stream.byte_offset()),
        _ => None,
    }
}

/// Space between the tokens of a document.
pub open spec fn is_space(b: u8) -> bool {
    b == 0x20 || b == 0x09 || b == 0x0a || b == 0x0d
}

/// What is left of some bytes once the space before the next token is passed over.
pub open spec fn after_space(b: Seq<u8>) -> Seq<u8>
    decreases b.len(),
{
    if b.len() > 0 && is_space(b[0]) {
        after_space(b.skip(1))
    } else {
        b
    }
}

/// Whether the next token is that byte.
pub open spec fn next_is(b: Seq<u8>, token: u8) -> bool {
    b.len() > 0 && b[0] == token
}

/// The keys of the value at the start of `b`, and what comes after the value. `depth` bounds how
/// deep values may nest.
pub open spec fn value_keys(b: Seq<u8>, depth: nat) -> Option<(KeysView, Seq<u8>)>
    decreases b.len(), 1int,
    via value_keys_decreases
{
    let b = after_space(b);
    if b.len() == 0 {
        None
    } else if b[0] == 0x7b {
        if depth == 0 {
            None
        } else {
            match members_keys(b.skip(1), (depth - 1) as nat, Seq::empty()) {
                Some((members, rest)) => Some((KeysView::Members(members), rest)),
                None => None,
            }
        }
    } else if b[0] == 0x5b {
        if depth == 0 {
            None
        } else {
            match items_keys(b.skip(1), (depth - 1) as nat, Seq::empty()) {
                Some((items, rest)) => Some((KeysView::Items(items), rest)),
                None => None,
            }
        }
    } else {
        match leading_value(b) {
            Some(n) => Some((KeysView::Leaf, b.skip(n))),
            None => None,
        }
    }
}

/// The members of an object from `b` on, after the members `before`, and what comes after the
/// object.
pub open spec fn members_keys(
    b: Seq<u8>,
    depth: nat,
    before: Seq<(Seq<char>, KeysView)>,
) -> Option<(Seq<(Seq<char>, KeysView)>, Seq<u8>)>
    decreases b.len(), 0int,
    via members_keys_decreases
{
    let b1 = after_space(b);
    if next_is(b1, 0x7d) && before.len() == 0 {
        Some((before, b1.skip(1)))
    } else {
        match leading_text(b1) {
            Some((key, n)) if 0 < n <= b1.len() => {
                let b2 = after_space(b1.skip(n));
                if !next_is(b2, 0x3a) {
                    None
                } else {
                    match value_keys(b2.skip(1), depth) {
                        Some((value, rest)) => {
                            let members = before.push((key, value));
                            let b3 = after_space(rest);
                            if next_is(b3, 0x2c) && b3.len() <= b.len() {
                                members_keys(b3.skip(1), depth, members)
                            } else if next_is(b3, 0x7d) {
                                Some((members, b3.skip(1)))
                            } else {
                                None
                            }
                        },
                        None => None,
                    }
                }
            },
            _ => None,
        }
    }
}

/// The items of an array from `b` on, after the items `before`, and what comes after the array.
pub open spec fn items_keys(b: Seq<u8>, depth: nat, before: Seq<KeysView>) -> Option<
    (Seq<KeysView>, Seq<u8>),
>
    decreases b.len(), 2int,
    via items_keys_decreases
{
    let b1 = after_space(b);
    if next_is(b1, 0x5d) && before.len() == 0 {
        Some((before, b1.skip(1)))
    } else {
        match value_keys(b, depth) {
            Some((value, rest)) => {
                let items = before.push(value);
                let b3 = after_space(rest);
                if next_is(b3, 0x2c) && b3.len() <= b.len() {
                    items_keys(b3.skip(1), depth, items)
                } else if next_is(b3, 0x5d) {
                    Some((items, b3.skip(1)))
                } else {
                    None
                }
            },
            None => None,
        }
    }
}

#[via_fn]
proof fn value_keys_decreases(b: Seq<u8>, depth: nat) {
    lemma_after_space(b);
}

#[via_fn]
proof fn members_keys_decreases(
    b: Seq<u8>,
    depth: nat,
    before: Seq<(Seq<char>, KeysView)>,
) {
    lemma_after_space(b);
    let b1 = after_space(b);
    match leading_text(b1) {
        Some((key, n)) => {
            if 0 < n <= b1.len() {
                lemma_after_space(b1.skip(n));
            }
        },
        None => {},
    }
}

#[via_fn]
proof fn items_keys_decreases(b: Seq<u8>, depth: nat, before: Seq<KeysView>) {
}

/// Passing over space leaves the end of what was there.
proof fn lemma_after_space(b: Seq<u8>)
    ensures
        after_space(b).len() <= b.len(),
        after_space(b) == b.skip(b.len() - after_space(b).len()),
    decreases b.len(),
{
    if b.len() > 0 && is_space(b[0]) {
        lemma_after_space(b.skip(1));
        assert(b.skip(1).skip(b.skip(1).len() - after_space(b).len()) =~= b.skip(
            b.len() - after_space(b).len(),
        ));
    } else {
        assert(b.skip(0) =~= b);
    }
}

/// The keys of a whole document, when the walk finds a value there.
pub open spec fn document_keys(document: Seq<u8>) -> Option<KeysView> {
    match value_keys(document, MAX_DEPTH as nat) {
        Some((keys, rest)) => Some(keys),
        None => None,
    }
}

// ---------------------------------------------------------------------------
// The keys of what was written
// ---------------------------------------------------------------------------

/// The keys of a value, as they nest.
pub open spec fn keys_of(v: JsonView) -> KeysView
    decreases v,
{
    match v {
        JsonView::Array(items) => KeysView::Items(
            Seq::new(
                items.len(),
                |i: int|
                    if 0 <= i < items.len() {
                        keys_of(items[i])
                    } else {
                        KeysView::Leaf
                    },
            ),
        ),
        JsonView::Object(members) => KeysView::Members(
            Seq::new(
                members.len(),
                |i: int|
                    if 0 <= i < members.len() {
                        (members[i].0, keys_of(members[i].1))
                    } else {
                        (Seq::empty(), KeysView::Leaf)
                    },
            ),
        ),
        _ => KeysView::Leaf,
    }
}

spec fn keys_of_items(items: Seq<JsonView>) -> Seq<KeysView> {
    Seq::new(items.len(), |i: int| keys_of(items[i]))
}

spec fn keys_of_members(members: Seq<(Seq<char>, JsonView)>) -> Seq<(Seq<char>, KeysView)> {
    Seq::new(members.len(), |i: int| (members[i].0, keys_of(members[i].1)))
}

proof fn lemma_keys_of(v: JsonView)
    ensures
        v matches JsonView::Array(items) ==> keys_of(v) == KeysView::Items(keys_of_items(items)),
        v matches JsonView::Object(members) ==> keys_of(v) == KeysView::Members(
            keys_of_members(members),
        ),
{
    match v {
        JsonView::Array(items) => {
            assert(keys_of(v)->Items_0 =~= keys_of_items(items));
        },
        JsonView::Object(members) => {
            assert(keys_of(v)->Members_0 =~= keys_of_members(members));
        },
        _ => {},
    }
}

/// The items of an array from the `i`-th on, as they are written, and more bytes after the array.
spec fn items_rest(items: Seq<JsonView>, i: int, rest: Seq<u8>) -> Seq<u8>
    decreases items.len() - i, 0int,
{
    if i < 0 || i >= items.len() {
        seq![0x5du8] + rest
    } else {
        value_then(items[i], after_item(items, i, rest))
    }
}

/// What comes after the `i`-th item of an array.
spec fn after_item(items: Seq<JsonView>, i: int, rest: Seq<u8>) -> Seq<u8>
    decreases items.len() - i - 1, 1int,
{
    if 0 <= i < items.len() - 1 {
        seq![0x2cu8] + items_rest(items, i + 1, rest)
    } else {
        seq![0x5du8] + rest
    }
}

/// The members of an object from the `i`-th on, as they are written, and more bytes after the
/// object.
spec fn members_rest(members: Seq<(Seq<char>, JsonView)>, i: int, rest: Seq<u8>) -> Seq<u8>
    decreases members.len() - i, 0int,
{
    if i < 0 || i >= members.len() {
        seq![0x7du8] + rest
    } else {
        text_then(
            members[i].0,
            seq![0x3au8] + value_then(members[i].1, after_member(members, i, rest)),
        )
    }
}

/// What comes after the `i`-th member of an object.
spec fn after_member(members: Seq<(Seq<char>, JsonView)>, i: int, rest: Seq<u8>) -> Seq<u8>
    decreases members.len() - i - 1, 1int,
{
    if 0 <= i < members.len() - 1 {
        seq![0x2cu8] + members_rest(members, i + 1, rest)
    } else {
        seq![0x7du8] + rest
    }
}

proof fn lemma_one_byte(c: char, s: Seq<char>)
    requires
        c <= '\u{7f}',
    ensures
        vstd::utf8::encode_utf8(seq![c]) == seq![c as u8],
        vstd::utf8::encode_utf8(seq![c] + s) == seq![c as u8] + vstd::utf8::encode_utf8(s),
{
    vstd::utf8::is_ascii_chars_encode_utf8(seq![c]);
    assert(vstd::utf8::encode_utf8(seq![c]) =~= seq![c as u8]);
    text::lemma_encode_concat(seq![c], s);
}

proof fn lemma_items_text(items: Seq<JsonView>, n: int, rest: Seq<u8>)
    requires
        0 <= n <= items.len(),
    ensures
        vstd::utf8::encode_utf8(json::items_text(items, items.len() as int)) + (seq![0x5du8] + rest)
            == vstd::utf8::encode_utf8(json::items_text(items, n)) + (if 0 < n < items.len() {
            seq![0x2cu8] + items_rest(items, n, rest)
        } else {
            items_rest(items, n, rest)
        }),
    decreases items.len() - n,
{
    if n < items.len() {
        lemma_items_text(items, n + 1, rest);
        let before = json::items_text(items, n);
        let one = json::json_text(items[n]);
        if n > 0 {
            reveal_strlit(",");
            assert(","@ =~= seq![',']);
            text::lemma_encode_concat(before, ","@);
            text::lemma_encode_concat(before + ","@, one);
            lemma_one_byte(',', Seq::empty());
            assert(json::items_text(items, n + 1) == before + ","@ + one);
        } else {
            assert(json::items_text(items, 1) == one);
            assert(before =~= Seq::<char>::empty());
            assert(vstd::utf8::encode_utf8(before) =~= Seq::<u8>::empty());
        }
        let after = after_item(items, n, rest);
        assert(items_rest(items, n, rest) == json::written(items[n]) + after);
        assert(vstd::utf8::encode_utf8(json::items_text(items, n + 1)) + after
            =~= vstd::utf8::encode_utf8(before) + (if 0 < n < items.len() {
            seq![0x2cu8] + items_rest(items, n, rest)
        } else {
            items_rest(items, n, rest)
        }));
    }
}

proof fn lemma_members_text(members: Seq<(Seq<char>, JsonView)>, n: int, rest: Seq<u8>)
    requires
        0 <= n <= members.len(),
    ensures
        vstd::utf8::encode_utf8(json::members_text(members, members.len() as int)) + (
        seq![0x7du8] + rest) == vstd::utf8::encode_utf8(json::members_text(members, n)) + (if 0
            < n < members.len() {
            seq![0x2cu8] + members_rest(members, n, rest)
        } else {
            members_rest(members, n, rest)
        }),
    decreases members.len() - n,
{
    if n < members.len() {
        lemma_members_text(members, n + 1, rest);
        let before = json::members_text(members, n);
        let key = json::quoted(members[n].0);
        let one = json::json_text(members[n].1);
        reveal_strlit(",");
        reveal_strlit(":");
        assert(","@ =~= seq![',']);
        assert(":"@ =~= seq![':']);
        lemma_one_byte(',', Seq::empty());
        lemma_one_byte(':', Seq::empty());
        if n > 0 {
            text::lemma_encode_concat(before, ","@);
            text::lemma_encode_concat(before + ","@, key);
            text::lemma_encode_concat(before + ","@ + key, ":"@);
            text::lemma_encode_concat(before + ","@ + key + ":"@, one);
            assert(json::members_text(members, n + 1) == before + ","@ + key + ":"@ + one);
        } else {
            text::lemma_encode_concat(key, ":"@);
            text::lemma_encode_concat(key + ":"@, one);
            assert(json::members_text(members, 1) == key + ":"@ + one);
            assert(before =~= Seq::<char>::empty());
            assert(vstd::utf8::encode_utf8(before) =~= Seq::<u8>::empty());
        }
        let after = after_member(members, n, rest);
        assert(members_rest(members, n, rest) == vstd::utf8::encode_utf8(key) + (seq![0x3au8] + (
        json::written(members[n].1) + after)));
        assert(vstd::utf8::encode_utf8(json::members_text(members, n + 1)) + after
            =~= vstd::utf8::encode_utf8(before) + (if 0 < n < members.len() {
            seq![0x2cu8] + members_rest(members, n, rest)
        } else {
            members_rest(members, n, rest)
        }));
    }
}

/// How a value begins that was written, and what comes after its bracket.
proof fn lemma_written_begins(v: JsonView, depth: nat, rest: Seq<u8>)
    requires
        json::readable(v, depth),
    ensures
        value_then(v, rest).len() > 0,
        !is_space(value_then(v, rest)[0]),
        value_then(v, rest)[0] != 0x5d,
        value_then(v, rest)[0] == 0x7b <==> v is Object,
        value_then(v, rest)[0] == 0x5b <==> v is Array,
        v matches JsonView::Array(items) ==> value_then(v, rest) == seq![0x5bu8] + items_rest(
            items,
            0,
            rest,
        ),
        v matches JsonView::Object(members) ==> value_then(v, rest) == seq![0x7bu8] + members_rest(
            members,
            0,
            rest,
        ),
{
    match v {
        JsonView::Null => {
            reveal_strlit("null");
            assert("null"@ =~= seq!['n'] + "null"@.skip(1));
            lemma_one_byte('n', "null"@.skip(1));
        },
        JsonView::Bool(b) => {
            reveal_strlit("true");
            reveal_strlit("false");
            assert("true"@ =~= seq!['t'] + "true"@.skip(1));
            assert("false"@ =~= seq!['f'] + "false"@.skip(1));
            lemma_one_byte('t', "true"@.skip(1));
            lemma_one_byte('f', "false"@.skip(1));
        },
        JsonView::Number(n) => {
            let k = choose|k: int|
                -0x8000_0000_0000_0000 <= k <= 0xffff_ffff_ffff_ffff && n
                    == #[trigger] text::signed_decimal(k);
            if k < 0 {
                reveal_strlit("-");
                assert("-"@ =~= seq!['-']);
                lemma_one_byte('-', text::decimal((-k) as nat));
            } else {
                let d = text::decimal(k as nat);
                text::lemma_decimal_ascii(k as nat);
                assert(d.len() > 0);
                assert(d =~= seq![d[0]] + d.skip(1));
                lemma_one_byte(d[0], d.skip(1));
            }
        },
        JsonView::Text(t) => {
            lemma_quote_begins(t, rest);
        },
        JsonView::Array(items) => {
            let inner = json::items_text(items, items.len() as int);
            reveal_strlit("[");
            reveal_strlit("]");
            assert("["@ =~= seq!['[']);
            assert("]"@ =~= seq![']']);
            lemma_one_byte('[', inner);
            lemma_one_byte(']', Seq::empty());
            text::lemma_encode_concat("["@ + inner, "]"@);
            lemma_items_text(items, 0, rest);
            assert(vstd::utf8::encode_utf8(json::items_text(items, 0)) =~= Seq::<u8>::empty());
            assert(value_then(v, rest) =~= seq![0x5bu8] + items_rest(items, 0, rest));
        },
        JsonView::Object(members) => {
            let inner = json::members_text(members, members.len() as int);
            reveal_strlit("{");
            reveal_strlit("}");
            assert("{"@ =~= seq!['{']);
            assert("}"@ =~= seq!['}']);
            lemma_one_byte('{', inner);
            lemma_one_byte('}', Seq::empty());
            text::lemma_encode_concat("{"@ + inner, "}"@);
            lemma_members_text(members, 0, rest);
            assert(vstd::utf8::encode_utf8(json::members_text(members, 0)) =~= Seq::<u8>::empty());
            assert(value_then(v, rest) =~= seq![0x7bu8] + members_rest(members, 0, rest));
        },
    }
}

proof fn lemma_quote_begins(t: Seq<char>, rest: Seq<u8>)
    ensures
        text_then(t, rest).len() > 0,
        text_then(t, rest)[0] == 0x22,
{
    let q = seq!['"'];
    assert(json::quoted(t) =~= q + (json::escaped_all(t) + q));
    lemma_one_byte('"', json::escaped_all(t) + q);
}

/// A value that can be read back has no key twice.
proof fn lemma_readable_keys(v: JsonView, depth: nat)
    requires
        json::readable(v, depth),
    ensures
        no_key_twice(keys_of(v)),
    decreases v,
{
    lemma_keys_of(v);
    match v {
        JsonView::Array(items) => {
            assert forall|i: int| 0 <= i < items.len() implies no_key_twice(
                #[trigger] keys_of_items(items)[i],
            ) by {
                lemma_readable_keys(items[i], (depth - 1) as nat);
            }
        },
        JsonView::Object(members) => {
            assert forall|i: int| 0 <= i < members.len() implies no_key_twice(
                (#[trigger] keys_of_members(members)[i]).1,
            ) by {
                lemma_readable_keys(members[i].1, (depth - 1) as nat);
            }
            assert forall|i: int, j: int| 0 <= i < j < members.len() implies (
            #[trigger] keys_of_members(members)[i]).0 != (#[trigger] keys_of_members(members)[j]).0 by {
                assert(members[i].0 != members[j].0);
            }
        },
        _ => {},
    }
}

proof fn lemma_readable_deeper(v: JsonView, depth: nat)
    requires
        json::readable(v, depth),
    ensures
        json::readable(v, depth + 1),
    decreases v,
{
    match v {
        JsonView::Array(items) => {
            assert forall|i: int| 0 <= i < items.len() implies json::readable(
                #[trigger] items[i],
                depth,
            ) by {
                lemma_readable_deeper(items[i], (depth - 1) as nat);
            }
        },
        JsonView::Object(members) => {
            assert forall|i: int| 0 <= i < members.len() implies json::readable(
                (#[trigger] members[i]).1,
                depth,
            ) by {
                lemma_readable_deeper(members[i].1, (depth - 1) as nat);
            }
        },
        _ => {},
    }
}

/// Where the next token stands, from `at` on.
fn pass_space(bytes: &[u8], at: usize) -> (r: usize)
    requires
        at <= bytes@.len(),
    ensures
        at <= r <= bytes@.len(),
        bytes@.skip(r as int) == after_space(bytes@.skip(at as int)),
{
    let mut i: usize = at;
    while i < bytes.len() && (bytes[i] == 0x20 || bytes[i] == 0x09 || bytes[i] == 0x0a || bytes[i]
        == 0x0d)
        invariant
            at <= i <= bytes@.len(),
            after_space(bytes@.skip(i as int)) == after_space(bytes@.skip(at as int)),
        decreases bytes@.len() - i,
    {
        proof {
            let b = bytes@.skip(i as int);
            assert(b[0] == bytes@[i as int]);
            assert(b.skip(1) =~= bytes@.skip(i + 1));
        }
        i = i + 1;
    }
    proof {
        let b = bytes@.skip(i as int);
        if i < bytes@.len() {
            assert(b[0] == bytes@[i as int]);
        }
    }
    i
}

/// Whether a value stands at `at` as it is written, and nests at most `depth` deep.
spec fn value_at(
    bytes: Seq<u8>,
    at: int,
    depth: nat,
    written: Option<(JsonView, Seq<u8>)>,
) -> bool {
    written matches Some((v, rest)) ==> {
        &&& bytes.skip(at) == value_then(v, rest)
        &&& json::readable(v, depth)
        &&& ends_value(rest)
    }
}

/// Walks the value that starts at `at`: its keys, and where it ends. One that was written is walked
/// to its end.
fn walk_value(
    bytes: &[u8],
    at: usize,
    depth: u32,
    Ghost(written): Ghost<Option<(JsonView, Seq<u8>)>>,
) -> (r: Option<(Keys, usize)>)
    requires
        at <= bytes@.len(),
        value_at(bytes@, at as int, depth as nat, written),
    ensures
        written matches Some((v, rest)) ==> (r matches Some((keys, end)) && keys.view() == keys_of(v)
            && bytes@.skip(end as int) == rest),
        match r {
            Some((keys, end)) => at < end <= bytes@.len() && value_keys(
                bytes@.skip(at as int),
                depth as nat,
            ) == Some((keys.view(), bytes@.skip(end as int))),
            None => value_keys(bytes@.skip(at as int), depth as nat) is None,
        },
    decreases bytes@.len() - at, 1int,
{
    let i: usize = pass_space(bytes, at);
    let ghost b = bytes@.skip(i as int);
    let ghost mut inside: Option<(Seq<(Seq<char>, JsonView)>, Seq<u8>)> = None;
    let ghost mut listed: Option<(Seq<JsonView>, Seq<u8>)> = None;
    proof {
        if let Some((v, rest)) = written {
            lemma_written_begins(v, depth as nat, rest);
            lemma_keys_of(v);
            assert(b == value_then(v, rest));
            match v {
                JsonView::Object(members) => {
                    inside = Some((members, rest));
                    assert(b.skip(1) =~= members_rest(members, 0, rest));
                },
                JsonView::Array(items) => {
                    listed = Some((items, rest));
                    assert(b.skip(1) =~= items_rest(items, 0, rest));
                },
                _ => {
                    assert(is_scalar(v));
                    assert(b.skip(json::written(v).len() as int) =~= rest);
                },
            }
        }
    }
    if i >= bytes.len() {
        return None;
    }
    assert(b[0] == bytes@[i as int]);
    assert(b.skip(1) =~= bytes@.skip(i + 1));
    if bytes[i] == 0x7b {
        if depth == 0 {
            return None;
        }
        match walk_members(bytes, i + 1, depth - 1, Ghost(inside)) {
            Some((members, end)) => {
                proof {
                    lemma_members_view(members);
                }
                Some((Keys::Members(members), end))
            },
            None => None,
        }
    } else if bytes[i] == 0x5b {
        if depth == 0 {
            return None;
        }
        match walk_items(bytes, i + 1, depth - 1, Ghost(listed)) {
            Some((items, end)) => {
                proof {
                    lemma_items_view(items);
                }
                Some((Keys::Items(items), end))
            },
            None => None,
        }
    } else {
        let tail = slice_subrange(bytes, i, bytes.len());
        assert(tail@ =~= b);
        match skip_value(tail) {
            Some(n) => {
                assert(b.skip(n as int) =~= bytes@.skip(i + n));
                Some((Keys::Leaf, i + n))
            },
            None => None,
        }
    }
}

/// Whether the members of an object from the `n`-th on stand at `at` as they are written, and nest
/// at most `depth` deep.
spec fn members_at(
    bytes: Seq<u8>,
    at: int,
    depth: nat,
    n: int,
    written: Option<(Seq<(Seq<char>, JsonView)>, Seq<u8>)>,
) -> bool {
    written matches Some((all, rest)) ==> {
        &&& bytes.skip(at) == members_rest(all, n, rest)
        &&& forall|i: int| 0 <= i < all.len() ==> json::readable((#[trigger] all[i]).1, depth)
    }
}

/// Whether the first `n` members of an object were walked, and it has more, or none at all.
spec fn members_before(
    before: Seq<(Seq<char>, KeysView)>,
    written: Option<(Seq<(Seq<char>, JsonView)>, Seq<u8>)>,
) -> bool {
    written matches Some((all, rest)) ==> {
        &&& before.len() < all.len() || before.len() == all.len() == 0
        &&& before == keys_of_members(all).take(before.len() as int)
    }
}

/// How a member begins that was written, and what comes after its key.
proof fn lemma_member_begins(all: Seq<(Seq<char>, JsonView)>, m: int, rest: Seq<u8>)
    requires
        0 <= m < all.len(),
    ensures
        ({
            let b = members_rest(all, m, rest);
            let colon = seq![0x3au8] + value_then(all[m].1, after_member(all, m, rest));
            &&& b == text_then(all[m].0, colon)
            &&& b.len() > 0
            &&& b[0] == 0x22
            &&& b.skip(vstd::utf8::encode_utf8(json::quoted(all[m].0)).len() as int) == colon
            &&& colon[0] == 0x3a
            &&& colon.skip(1) == value_then(all[m].1, after_member(all, m, rest))
            &&& ends_value(after_member(all, m, rest))
        }),
{
    let after = after_member(all, m, rest);
    let colon = seq![0x3au8] + value_then(all[m].1, after);
    lemma_quote_begins(all[m].0, colon);
    assert(text_then(all[m].0, colon).skip(
        vstd::utf8::encode_utf8(json::quoted(all[m].0)).len() as int,
    ) =~= colon);
    assert(colon.skip(1) =~= value_then(all[m].1, after));
}

/// Walks the members of the object whose brace stands before `at`.
#[verifier::rlimit(40)]
fn walk_members(
    bytes: &[u8],
    at: usize,
    depth: u32,
    Ghost(written): Ghost<Option<(Seq<(Seq<char>, JsonView)>, Seq<u8>)>>,
) -> (r: Option<(Vec<(String, Keys)>, usize)>)
    requires
        at <= bytes@.len(),
        members_at(bytes@, at as int, depth as nat, 0, written),
    ensures
        written matches Some((all, rest)) ==> (r matches Some((members, end)) && key_members(
            members@,
        ) == keys_of_members(all) && bytes@.skip(end as int) == rest),
        match r {
            Some((members, end)) => at < end <= bytes@.len() && members_keys(
                bytes@.skip(at as int),
                depth as nat,
                Seq::empty(),
            ) == Some((key_members(members@), bytes@.skip(end as int))),
            None => members_keys(bytes@.skip(at as int), depth as nat, Seq::empty()) is None,
        },
    decreases bytes@.len() - at, 0int,
{
    let mut members: Vec<(String, Keys)> = Vec::new();
    let mut here: usize = at;
    assert(key_members(members@) =~= Seq::empty());
    proof {
        if let Some((all, rest)) = written {
            assert(key_members(members@) =~= keys_of_members(all).take(0));
        }
    }
    loop
        invariant
            at <= here <= bytes@.len(),
            members_keys(bytes@.skip(here as int), depth as nat, key_members(members@))
                == members_keys(bytes@.skip(at as int), depth as nat, Seq::empty()),
            members_at(bytes@, here as int, depth as nat, members@.len() as int, written),
            members_before(key_members(members@), written),
        decreases bytes@.len() - here,
    {
        let ghost b = bytes@.skip(here as int);
        let ghost before = key_members(members@);
        let i: usize = pass_space(bytes, here);
        let ghost b1 = bytes@.skip(i as int);
        let ghost mut value_written: Option<(JsonView, Seq<u8>)> = None;
        proof {
            if let Some((all, rest)) = written {
                let m = before.len() as int;
                if all.len() == 0 {
                    assert(b =~= seq![0x7du8] + rest);
                    assert(b.skip(1) =~= rest);
                    assert(b1 == b);
                    assert(keys_of_members(all) =~= before);
                } else {
                    lemma_member_begins(all, m, rest);
                    assert(b1 == b);
                    value_written = Some((all[m].1, after_member(all, m, rest)));
                }
            }
        }
        if i < bytes.len() {
            assert(b1[0] == bytes@[i as int]);
        }
        if i < bytes.len() && bytes[i] == 0x7d && members.len() == 0 {
            assert(b1.skip(1) =~= bytes@.skip(i + 1));
            return Some((members, i + 1));
        }
        let tail = slice_subrange(bytes, i, bytes.len());
        assert(tail@ =~= b1);
        let (key, n) = match read_text(tail) {
            Some(p) => p,
            None => {
                return None;
            },
        };
        assert(b1.skip(n as int) =~= bytes@.skip(i + n));
        let j: usize = pass_space(bytes, i + n);
        let ghost b2 = bytes@.skip(j as int);
        if j < bytes.len() {
            assert(b2[0] == bytes@[j as int]);
        }
        if !(j < bytes.len() && bytes[j] == 0x3a) {
            return None;
        }
        assert(b2.skip(1) =~= bytes@.skip(j + 1));
        let (value, rest) = match walk_value(bytes, j + 1, depth, Ghost(value_written)) {
            Some(p) => p,
            None => {
                return None;
            },
        };
        let k: usize = pass_space(bytes, rest);
        let ghost b3 = bytes@.skip(k as int);
        if k < bytes.len() {
            assert(b3[0] == bytes@[k as int]);
            assert(b3.skip(1) =~= bytes@.skip(k + 1));
        }
        members.push((key, value));
        assert(key_members(members@) =~= before.push((key@, value.view())));
        proof {
            if let Some((all, rest_written)) = written {
                let m = before.len() as int;
                assert(key_members(members@) =~= keys_of_members(all).take(m + 1));
                assert(b3 == after_member(all, m, rest_written));
                if m + 1 < all.len() {
                    assert(b3.skip(1) =~= members_rest(all, m + 1, rest_written));
                } else {
                    assert(b3.skip(1) =~= rest_written);
                    assert(keys_of_members(all).take(m + 1) =~= keys_of_members(all));
                }
            }
        }
        if k < bytes.len() && bytes[k] == 0x2c {
            here = k + 1;
        } else if k < bytes.len() && bytes[k] == 0x7d {
            return Some((members, k + 1));
        } else {
            return None;
        }
    }
}

/// Whether the items of an array from the `n`-th on stand at `at` as they are written, and nest at
/// most `depth` deep.
spec fn items_at(
    bytes: Seq<u8>,
    at: int,
    depth: nat,
    n: int,
    written: Option<(Seq<JsonView>, Seq<u8>)>,
) -> bool {
    written matches Some((all, rest)) ==> {
        &&& bytes.skip(at) == items_rest(all, n, rest)
        &&& forall|i: int| 0 <= i < all.len() ==> json::readable(#[trigger] all[i], depth)
    }
}

/// Whether the first `n` items of an array were walked, and it has more, or none at all.
spec fn items_before(before: Seq<KeysView>, written: Option<(Seq<JsonView>, Seq<u8>)>) -> bool {
    written matches Some((all, rest)) ==> {
        &&& before.len() < all.len() || before.len() == all.len() == 0
        &&& before == keys_of_items(all).take(before.len() as int)
    }
}

/// Walks the items of the array whose bracket stands before `at`.
fn walk_items(
    bytes: &[u8],
    at: usize,
    depth: u32,
    Ghost(written): Ghost<Option<(Seq<JsonView>, Seq<u8>)>>,
) -> (r: Option<(Vec<Keys>, usize)>)
    requires
        at <= bytes@.len(),
        items_at(bytes@, at as int, depth as nat, 0, written),
    ensures
        written matches Some((all, rest)) ==> (r matches Some((items, end)) && key_items(items@)
            == keys_of_items(all) && bytes@.skip(end as int) == rest),
        match r {
            Some((items, end)) => at < end <= bytes@.len() && items_keys(
                bytes@.skip(at as int),
                depth as nat,
                Seq::empty(),
            ) == Some((key_items(items@), bytes@.skip(end as int))),
            None => items_keys(bytes@.skip(at as int), depth as nat, Seq::empty()) is None,
        },
    decreases bytes@.len() - at, 2int,
{
    let mut items: Vec<Keys> = Vec::new();
    let mut here: usize = at;
    assert(key_items(items@) =~= Seq::empty());
    proof {
        if let Some((all, rest)) = written {
            assert(key_items(items@) =~= keys_of_items(all).take(0));
        }
    }
    loop
        invariant
            at <= here <= bytes@.len(),
            items_keys(bytes@.skip(here as int), depth as nat, key_items(items@)) == items_keys(
                bytes@.skip(at as int),
                depth as nat,
                Seq::empty(),
            ),
            items_at(bytes@, here as int, depth as nat, items@.len() as int, written),
            items_before(key_items(items@), written),
        decreases bytes@.len() - here,
    {
        let ghost b = bytes@.skip(here as int);
        let ghost before = key_items(items@);
        let i: usize = pass_space(bytes, here);
        let ghost b1 = bytes@.skip(i as int);
        let ghost mut value_written: Option<(JsonView, Seq<u8>)> = None;
        proof {
            if let Some((all, rest)) = written {
                let m = before.len() as int;
                if all.len() == 0 {
                    assert(b =~= seq![0x5du8] + rest);
                    assert(b.skip(1) =~= rest);
                    assert(b1 == b);
                    assert(keys_of_items(all) =~= before);
                } else {
                    let after = after_item(all, m, rest);
                    assert(b == value_then(all[m], after));
                    lemma_written_begins(all[m], depth as nat, after);
                    assert(b1 == b);
                    value_written = Some((all[m], after));
                }
            }
        }
        if i < bytes.len() {
            assert(b1[0] == bytes@[i as int]);
        }
        if i < bytes.len() && bytes[i] == 0x5d && items.len() == 0 {
            assert(b1.skip(1) =~= bytes@.skip(i + 1));
            return Some((items, i + 1));
        }
        let (value, rest) = match walk_value(bytes, here, depth, Ghost(value_written)) {
            Some(p) => p,
            None => {
                return None;
            },
        };
        let k: usize = pass_space(bytes, rest);
        let ghost b3 = bytes@.skip(k as int);
        if k < bytes.len() {
            assert(b3[0] == bytes@[k as int]);
            assert(b3.skip(1) =~= bytes@.skip(k + 1));
        }
        items.push(value);
        assert(key_items(items@) =~= before.push(value.view()));
        proof {
            if let Some((all, rest_written)) = written {
                let m = before.len() as int;
                assert(key_items(items@) =~= keys_of_items(all).take(m + 1));
                assert(b3 == after_item(all, m, rest_written));
                if m + 1 < all.len() {
                    assert(b3.skip(1) =~= items_rest(all, m + 1, rest_written));
                } else {
                    assert(b3.skip(1) =~= rest_written);
                    assert(keys_of_items(all).take(m + 1) =~= keys_of_items(all));
                }
            }
        }
        if k < bytes.len() && bytes[k] == 0x2c {
            here = k + 1;
        } else if k < bytes.len() && bytes[k] == 0x5d {
            return Some((items, k + 1));
        } else {
            return None;
        }
    }
}

// ---------------------------------------------------------------------------
// Repeats
// ---------------------------------------------------------------------------

/// Whether one of the members before the `n`-th has its key.
pub open spec fn seen_before(members: Seq<(Seq<char>, KeysView)>, n: int) -> bool {
    exists|i: int| 0 <= i < n && (#[trigger] members[i]).0 == members[n].0
}

/// Every repeated key under `path`, in the order of the document: the path of keys that leads to
/// it, itself last. Positions in arrays are no part of a path.
pub open spec fn repeats(keys: KeysView, path: Seq<Seq<char>>) -> Seq<Seq<Seq<char>>>
    decreases keys, 0int,
{
    match keys {
        KeysView::Leaf => Seq::empty(),
        KeysView::Items(items) => item_repeats(items, items.len() as int, path),
        KeysView::Members(members) => member_repeats(members, members.len() as int, path),
    }
}

/// The repeats in the first `n` items of an array.
pub open spec fn item_repeats(items: Seq<KeysView>, n: int, path: Seq<Seq<char>>) -> Seq<
    Seq<Seq<char>>,
>
    decreases items, n,
{
    if n <= 0 || items.len() < n {
        Seq::empty()
    } else {
        item_repeats(items, n - 1, path) + repeats(items[n - 1], path)
    }
}

/// The repeats in the first `n` members of an object.
pub open spec fn member_repeats(
    members: Seq<(Seq<char>, KeysView)>,
    n: int,
    path: Seq<Seq<char>>,
) -> Seq<Seq<Seq<char>>>
    decreases members, n,
{
    if n <= 0 || members.len() < n {
        Seq::empty()
    } else {
        let at = path.push(members[n - 1].0);
        let own = if seen_before(members, n - 1) {
            seq![at]
        } else {
            Seq::empty()
        };
        member_repeats(members, n - 1, path) + own + repeats(members[n - 1].1, at)
    }
}

/// The first repeat of a key of the outermost object.
pub open spec fn first_in_envelope(all: Seq<Seq<Seq<char>>>) -> Option<Seq<Seq<char>>>
    decreases all.len(),
{
    if all.len() == 0 {
        None
    } else if all[0].len() == 1 {
        Some(all[0])
    } else {
        first_in_envelope(all.drop_first())
    }
}

/// The repeat that is reported: the first one of the outermost object, else the first one.
pub open spec fn reported(all: Seq<Seq<Seq<char>>>) -> Option<Seq<Seq<char>>> {
    match first_in_envelope(all) {
        Some(path) => Some(path),
        None => if all.len() > 0 {
            Some(all[0])
        } else {
            None
        },
    }
}

/// The repeat that is reported for a document.
pub open spec fn document_repeat(document: Seq<u8>) -> Option<Seq<Seq<char>>> {
    match document_keys(document) {
        Some(keys) => reported(repeats(keys, Seq::empty())),
        None => None,
    }
}

/// The two repeats that can be reported. Only these are kept: copying the path of every repeat
/// would let one document of long keys and many repeats take far more memory than it has bytes.
struct Found {
    envelope: Option<Vec<String>>,
    first: Option<Vec<String>>,
    /// How many paths were copied.
    copies: usize,
}

ghost struct FoundView {
    envelope: Option<Seq<Seq<char>>>,
    first: Option<Seq<Seq<char>>>,
}

/// The texts of an optional list of strings.
pub open spec fn path_view(path: Option<Vec<String>>) -> Option<Seq<Seq<char>>> {
    match path {
        Some(list) => Some(text::views(list@)),
        None => None,
    }
}

impl Found {
    spec fn view(&self) -> FoundView {
        FoundView { envelope: path_view(self.envelope), first: path_view(self.first) }
    }

    spec fn wf(&self) -> bool {
        self.copies == (if self.envelope is Some {
            1int
        } else {
            0int
        }) + (if self.first is Some {
            1int
        } else {
            0int
        })
    }
}

/// What is kept after one more repeat.
spec fn with_repeat(found: FoundView, at: Seq<Seq<char>>) -> FoundView {
    if at.len() == 1 && found.envelope is None {
        FoundView { envelope: Some(at), ..found }
    } else if found.first is None {
        FoundView { first: Some(at), ..found }
    } else {
        found
    }
}

/// What is kept after some more repeats.
spec fn with_repeats(found: FoundView, all: Seq<Seq<Seq<char>>>) -> FoundView
    decreases all.len(),
{
    if all.len() == 0 {
        found
    } else {
        with_repeat(with_repeats(found, all.drop_last()), all.last())
    }
}

proof fn lemma_with_repeats_concat(
    found: FoundView,
    a: Seq<Seq<Seq<char>>>,
    b: Seq<Seq<Seq<char>>>,
)
    ensures
        with_repeats(found, a + b) == with_repeats(with_repeats(found, a), b),
    decreases b.len(),
{
    if b.len() == 0 {
        assert(a + b =~= a);
    } else {
        assert((a + b).drop_last() =~= a + b.drop_last());
        lemma_with_repeats_concat(found, a, b.drop_last());
    }
}

proof fn lemma_first_in_envelope_push(all: Seq<Seq<Seq<char>>>, at: Seq<Seq<char>>)
    ensures
        first_in_envelope(all.push(at)) == (match first_in_envelope(all) {
            Some(p) => Some(p),
            None => if at.len() == 1 {
                Some(at)
            } else {
                None
            },
        }),
    decreases all.len(),
{
    if all.len() == 0 {
        assert(all.push(at).drop_first() =~= Seq::empty());
    } else {
        assert(all.push(at).drop_first() =~= all.drop_first().push(at));
        lemma_first_in_envelope_push(all.drop_first(), at);
    }
}

proof fn lemma_kept(all: Seq<Seq<Seq<char>>>)
    ensures
        ({
            let kept = with_repeats(FoundView { envelope: None, first: None }, all);
            &&& kept.envelope == first_in_envelope(all)
            &&& kept.envelope is None ==> kept.first == (if all.len() > 0 {
                Some(all[0])
            } else {
                None
            })
        }),
    decreases all.len(),
{
    if all.len() > 0 {
        lemma_kept(all.drop_last());
        assert(all =~= all.drop_last().push(all.last()));
        lemma_first_in_envelope_push(all.drop_last(), all.last());
    }
}

/// The last key of `path` is a repeat: keeps it if it can be the one to report.
fn keep(found: &mut Found, path: &Vec<String>)
    requires
        old(found).wf(),
        path@.len() > 0,
    ensures
        final(found).wf(),
        final(found).view() == with_repeat(old(found).view(), text::views(path@)),
{
    if path.len() == 1 && found.envelope.is_none() {
        found.envelope = Some(text::copy_strings(path));
        found.copies = found.copies + 1;
    } else if found.first.is_none() {
        found.first = Some(text::copy_strings(path));
        found.copies = found.copies + 1;
    }
}

/// Looks through the keys under `path`.
fn look(keys: &Keys, path: &mut Vec<String>, found: &mut Found)
    requires
        old(found).wf(),
    ensures
        final(found).wf(),
        final(path)@ == old(path)@,
        final(found).view() == with_repeats(
            old(found).view(),
            repeats(keys.view(), text::views(old(path)@)),
        ),
    decreases keys,
{
    let ghost start = found.view();
    let ghost here = path@;
    let ghost at = text::views(path@);
    match keys {
        Keys::Leaf => {},
        Keys::Items(items) => {
            proof {
                lemma_items_view(*items);
            }
            let mut i: usize = 0;
            while i < items.len()
                invariant
                    i <= items@.len(),
                    *keys == Keys::Items(*items),
                    keys.view() == KeysView::Items(key_items(items@)),
                    found.wf(),
                    path@ == here,
                    at == text::views(here),
                    found.view() == with_repeats(
                        start,
                        item_repeats(key_items(items@), i as int, at),
                    ),
                decreases items@.len() - i,
            {
                proof {
                    assert(decreases_to!(*keys => keys->Items_0@[i as int]));
                    lemma_with_repeats_concat(
                        start,
                        item_repeats(key_items(items@), i as int, at),
                        repeats(items@[i as int].view(), at),
                    );
                }
                look(&items[i], path, found);
                i = i + 1;
            }
        },
        Keys::Members(members) => {
            let ghost all = key_members(members@);
            proof {
                lemma_members_view(*members);
            }
            let mut seen = vstd::hash_set::StringHashSet::new();
            let mut i: usize = 0;
            while i < members.len()
                invariant
                    i <= members@.len(),
                    *keys == Keys::Members(*members),
                    all == key_members(members@),
                    keys.view() == KeysView::Members(all),
                    found.wf(),
                    path@ == here,
                    at == text::views(here),
                    forall|k: Seq<char>| #[trigger]
                        seen@.contains(k) <==> exists|j: int|
                            0 <= j < i && (#[trigger] all[j]).0 == k,
                    found.view() == with_repeats(start, member_repeats(all, i as int, at)),
                decreases members@.len() - i,
            {
                let key = members[i].0.clone();
                let ghost was = found.view();
                let ghost to = at.push(key@);
                proof {
                    assert(decreases_to!(*keys => keys->Members_0@[i as int].1));
                    assert(all[i as int] == (key@, members@[i as int].1.view()));
                }
                let ghost before = seen@;
                let fresh = seen.insert(key.clone());
                path.push(key);
                proof {
                    assert(text::views(path@) =~= to);
                    assert(before.contains(key@) <==> seen_before(all, i as int));
                    assert forall|k: Seq<char>| #[trigger]
                        seen@.contains(k) <==> exists|j: int|
                            0 <= j < i + 1 && (#[trigger] all[j]).0 == k by {
                        if k == key@ {
                            assert(all[i as int].0 == k);
                        }
                    }
                    let done = member_repeats(all, i as int, at);
                    let own: Seq<Seq<Seq<char>>> = if seen_before(all, i as int) {
                        seq![to]
                    } else {
                        Seq::empty()
                    };
                    let inner = repeats(all[i as int].1, to);
                    assert(member_repeats(all, i + 1, at) == done + own + inner);
                    lemma_with_repeats_concat(start, done + own, inner);
                    lemma_with_repeats_concat(start, done, own);
                    if seen_before(all, i as int) {
                        assert(own.drop_last() =~= Seq::empty());
                        assert(with_repeats(was, own.drop_last()) == was);
                        assert(with_repeats(was, own) == with_repeat(was, to));
                    } else {
                        assert(with_repeats(was, own) == was);
                    }
                }
                if !fresh {
                    keep(found, path);
                }
                look(&members[i].1, path, found);
                let _ = path.pop();
                proof {
                    assert(path@ =~= here);
                }
                i = i + 1;
            }
        },
    }
}

/// Whether a document is a value as it is written, and can be read back.
pub open spec fn is_written(document: Seq<u8>, v: JsonView) -> bool {
    document == json::written(v) && json::readable(v, json::MAX_NESTING as nat)
}

/// Finds the repeat to report for a document, and says how many paths were copied on the way: at
/// most two, whatever the document. Nothing is reported for a value as it is written.
pub fn scan_duplicates(document: &[u8]) -> (r: (Option<Vec<String>>, usize))
    ensures
        path_view(r.0) == document_repeat(document@),
        (exists|v: JsonView| #[trigger] is_written(document@, v)) ==> r.0 is None,
        r.1 <= 2,
        r.1 == 0 <==> r.0 is None,
{
    let mut found = Found { envelope: None, first: None, copies: 0 };
    let mut path: Vec<String> = Vec::new();
    assert(document@.skip(0) =~= document@);
    let ghost mut value_written: Option<(JsonView, Seq<u8>)> = None;
    proof {
        if exists|v: JsonView| #[trigger] is_written(document@, v) {
            let v = choose|v: JsonView| #[trigger] is_written(document@, v);
            assert(value_then(v, Seq::empty()) =~= document@);
            lemma_readable_deeper(v, json::MAX_NESTING as nat);
            lemma_readable_keys(v, json::MAX_NESTING as nat);
            law_reported_iff_a_key_is_repeated(keys_of(v), Seq::empty());
            value_written = Some((v, Seq::empty()));
        }
    }
    match walk_value(document, 0, MAX_DEPTH, Ghost(value_written)) {
        Some((keys, _)) => {
            look(&keys, &mut path, &mut found);
            proof {
                assert(text::views(Seq::<String>::empty()) =~= Seq::empty());
                lemma_kept(repeats(keys.view(), Seq::empty()));
            }
        },
        None => {},
    }
    let copies: usize = found.copies;
    let answer = match found.envelope {
        Some(at) => Some(at),
        None => found.first,
    };
    (answer, copies)
}

/// A repeated key, as the path of keys that leads to it from the top. One in the outermost object
/// is reported in preference to one further in. Call it on bytes that are known to be JSON: where
/// the walk finds no value, nothing is reported, and nothing is for a value as it is written.
pub fn find_duplicate_key(document: &[u8]) -> (r: Option<Vec<String>>)
    ensures
        path_view(r) == document_repeat(document@),
        (exists|v: JsonView| #[trigger] is_written(document@, v)) ==> r is None,
{
    scan_duplicates(document).0
}

// ---------------------------------------------------------------------------
// Laws
// ---------------------------------------------------------------------------

/// Whether no object has a key twice.
pub open spec fn no_key_twice(keys: KeysView) -> bool
    decreases keys,
{
    match keys {
        KeysView::Leaf => true,
        KeysView::Items(items) => forall|i: int|
            0 <= i < items.len() ==> no_key_twice(#[trigger] items[i]),
        KeysView::Members(members) => {
            &&& forall|i: int, j: int|
                0 <= i < j < members.len() ==> (#[trigger] members[i]).0 != (
                #[trigger] members[j]).0
            &&& forall|i: int| 0 <= i < members.len() ==> no_key_twice((#[trigger] members[i]).1)
        },
    }
}

/// A repeat is reported for a document exactly when some object in it has a key twice.
pub proof fn law_reported_iff_a_key_is_repeated(keys: KeysView, path: Seq<Seq<char>>)
    ensures
        reported(repeats(keys, path)) is None <==> no_key_twice(keys),
    decreases keys, 0int,
{
    lemma_reported_none(repeats(keys, path));
    match keys {
        KeysView::Leaf => {},
        KeysView::Items(items) => {
            lemma_no_item_repeats(items, items.len() as int, path);
            assert(no_key_twice(keys) <==> forall|i: int|
                0 <= i < items.len() ==> no_key_twice(#[trigger] items[i]));
        },
        KeysView::Members(members) => {
            lemma_no_member_repeats(members, members.len() as int, path);
            assert(no_key_twice(keys) <==> ((forall|i: int, j: int|
                0 <= i < j < members.len() ==> (#[trigger] members[i]).0 != (
                #[trigger] members[j]).0) && (forall|i: int|
                0 <= i < members.len() ==> no_key_twice((#[trigger] members[i]).1))));
        },
    }
}

proof fn lemma_reported_none(all: Seq<Seq<Seq<char>>>)
    ensures
        reported(all) is None <==> all.len() == 0,
{
    if all.len() == 0 {
        assert(first_in_envelope(all) is None);
    }
}

proof fn lemma_no_item_repeats(items: Seq<KeysView>, n: int, path: Seq<Seq<char>>)
    requires
        0 <= n <= items.len(),
    ensures
        item_repeats(items, n, path).len() == 0 <==> forall|i: int|
            0 <= i < n ==> no_key_twice(#[trigger] items[i]),
    decreases items, n,
{
    if n > 0 {
        lemma_no_item_repeats(items, n - 1, path);
        law_reported_iff_a_key_is_repeated(items[n - 1], path);
        lemma_reported_none(repeats(items[n - 1], path));
        assert(no_key_twice(items[n - 1]) <==> repeats(items[n - 1], path).len() == 0);
    }
}

proof fn lemma_no_member_repeats(
    members: Seq<(Seq<char>, KeysView)>,
    n: int,
    path: Seq<Seq<char>>,
)
    requires
        0 <= n <= members.len(),
    ensures
        member_repeats(members, n, path).len() == 0 <==> ((forall|i: int, j: int|
            0 <= i < j < n ==> (#[trigger] members[i]).0 != (#[trigger] members[j]).0) && (forall|
            i: int,
        |
            0 <= i < n ==> no_key_twice((#[trigger] members[i]).1))),
    decreases members, n,
{
    if n > 0 {
        let at = path.push(members[n - 1].0);
        lemma_no_member_repeats(members, n - 1, path);
        law_reported_iff_a_key_is_repeated(members[n - 1].1, at);
        lemma_reported_none(repeats(members[n - 1].1, at));
        assert(no_key_twice(members[n - 1].1) <==> repeats(members[n - 1].1, at).len() == 0);
    }
}

/// A repeat in the outermost object is reported whatever else is repeated before or after it.
pub proof fn law_envelope_outranks(all: Seq<Seq<Seq<char>>>, i: int)
    requires
        0 <= i < all.len(),
        all[i].len() == 1,
    ensures
        reported(all) matches Some(path) && path.len() == 1,
{
    lemma_first_some(all, i);
}

proof fn lemma_first_some(all: Seq<Seq<Seq<char>>>, i: int)
    requires
        0 <= i < all.len(),
        all[i].len() == 1,
    ensures
        first_in_envelope(all) matches Some(path) && path.len() == 1,
    decreases all.len(),
{
    if all[0].len() != 1 {
        lemma_first_some(all.drop_first(), i - 1);
    }
}

/// Whether these steps lead to a key that stands a second time in its object: through members by
/// their keys, and through lists without a step.
pub open spec fn leads_to_repeat(keys: KeysView, steps: Seq<Seq<char>>) -> bool
    decreases keys,
{
    match keys {
        KeysView::Leaf => false,
        KeysView::Items(items) => exists|i: int|
            0 <= i < items.len() && leads_to_repeat(#[trigger] items[i], steps),
        KeysView::Members(members) => exists|j: int|
            {
                &&& 0 <= j < members.len()
                &&& steps.len() > 0
                &&& (#[trigger] members[j]).0 == steps[0]
                &&& {
                    ||| steps.len() == 1 && exists|i: int|
                        0 <= i < j && (#[trigger] members[i]).0 == members[j].0
                    ||| leads_to_repeat(members[j].1, steps.drop_first())
                }
            },
    }
}

/// What is found in a document is every repeated key, and nothing else, each under the keys that lead
/// to it.
pub proof fn law_what_is_found_repeats(keys: KeysView, at: Seq<Seq<char>>)
    ensures
        repeats(keys, Seq::empty()).contains(at) <==> leads_to_repeat(keys, at),
{
    let none = Seq::<Seq<char>>::empty();
    lemma_found_repeats(keys, none, at);
    assert(none + at =~= at);
    if repeats(keys, none).contains(at) {
        let steps = choose|steps: Seq<Seq<char>>|
            at == #[trigger] (none + steps) && leads_to_repeat(keys, steps);
        assert(none + steps =~= steps);
    }
}

proof fn lemma_found_repeats(keys: KeysView, path: Seq<Seq<char>>, at: Seq<Seq<char>>)
    ensures
        repeats(keys, path).contains(at) <==> exists|steps: Seq<Seq<char>>|
            at == #[trigger] (path + steps) && leads_to_repeat(keys, steps),
    decreases keys, 0int,
{
    match keys {
        KeysView::Leaf => {},
        KeysView::Items(items) => {
            lemma_found_in_items(items, items.len() as int, path, at);
            if repeats(keys, path).contains(at) {
                let (i, steps) = choose|i: int, steps: Seq<Seq<char>>|
                    0 <= i < items.len() && at == #[trigger] (path + steps) && leads_to_repeat(
                        #[trigger] items[i],
                        steps,
                    );
                assert(leads_to_repeat(keys, steps));
            }
        },
        KeysView::Members(members) => {
            lemma_found_in_members(members, members.len() as int, path, at);
            if repeats(keys, path).contains(at) {
                let (j, steps) = choose|j: int, steps: Seq<Seq<char>>|
                    0 <= j < members.len() && at == #[trigger] (path + steps) && #[trigger]
                        member_leads(members, j, steps);
                assert(members[j].0 == steps[0]);
                assert(leads_to_repeat(keys, steps));
            }
            if exists|steps: Seq<Seq<char>>|
                at == #[trigger] (path + steps) && leads_to_repeat(keys, steps) {
                let steps = choose|steps: Seq<Seq<char>>|
                    at == #[trigger] (path + steps) && leads_to_repeat(keys, steps);
                let j = choose|j: int|
                    {
                        &&& 0 <= j < members.len()
                        &&& steps.len() > 0
                        &&& (#[trigger] members[j]).0 == steps[0]
                        &&& {
                            ||| steps.len() == 1 && exists|i: int|
                                0 <= i < j && (#[trigger] members[i]).0 == members[j].0
                            ||| leads_to_repeat(members[j].1, steps.drop_first())
                        }
                    };
                assert(member_leads(members, j, steps));
            }
        },
    }
}

spec fn member_leads(members: Seq<(Seq<char>, KeysView)>, j: int, steps: Seq<Seq<char>>) -> bool {
    &&& steps.len() > 0
    &&& members[j].0 == steps[0]
    &&& {
        ||| steps.len() == 1 && exists|i: int|
            0 <= i < j && (#[trigger] members[i]).0 == members[j].0
        ||| leads_to_repeat(members[j].1, steps.drop_first())
    }
}

proof fn lemma_found_in_items(
    items: Seq<KeysView>,
    n: int,
    path: Seq<Seq<char>>,
    at: Seq<Seq<char>>,
)
    requires
        0 <= n <= items.len(),
    ensures
        item_repeats(items, n, path).contains(at) <==> exists|i: int, steps: Seq<Seq<char>>|
            0 <= i < n && at == #[trigger] (path + steps) && leads_to_repeat(
                #[trigger] items[i],
                steps,
            ),
    decreases items, n,
{
    if n > 0 {
        let before = item_repeats(items, n - 1, path);
        let own = repeats(items[n - 1], path);
        lemma_found_in_items(items, n - 1, path, at);
        lemma_found_repeats(items[n - 1], path, at);
        lemma_in_either(before, own, at);
    }
}

proof fn lemma_in_either<T>(a: Seq<T>, b: Seq<T>, x: T)
    ensures
        (a + b).contains(x) <==> a.contains(x) || b.contains(x),
{
    if a.contains(x) {
        let i = choose|i: int| 0 <= i < a.len() && a[i] == x;
        assert((a + b)[i] == x);
    }
    if b.contains(x) {
        let i = choose|i: int| 0 <= i < b.len() && b[i] == x;
        assert((a + b)[a.len() + i] == x);
    }
    if (a + b).contains(x) {
        let i = choose|i: int| 0 <= i < (a + b).len() && (a + b)[i] == x;
        if i >= a.len() {
            assert(b[i - a.len()] == x);
        }
    }
}

proof fn lemma_found_in_members(
    members: Seq<(Seq<char>, KeysView)>,
    n: int,
    path: Seq<Seq<char>>,
    at: Seq<Seq<char>>,
)
    requires
        0 <= n <= members.len(),
    ensures
        member_repeats(members, n, path).contains(at) <==> exists|j: int, steps: Seq<Seq<char>>|
            0 <= j < n && at == #[trigger] (path + steps) && #[trigger] member_leads(
                members,
                j,
                steps,
            ),
    decreases members, n,
{
    if n > 0 {
        let key = members[n - 1].0;
        let under = path.push(key);
        let before = member_repeats(members, n - 1, path);
        let own = if seen_before(members, n - 1) {
            seq![under]
        } else {
            Seq::empty()
        };
        let inner = repeats(members[n - 1].1, under);
        lemma_found_in_members(members, n - 1, path, at);
        lemma_found_repeats(members[n - 1].1, under, at);
        lemma_in_either(before + own, inner, at);
        lemma_in_either(before, own, at);
        if own.contains(at) {
            let steps = seq![key];
            assert(own[0] == at);
            assert(at =~= path + steps);
            assert(member_leads(members, n - 1, steps));
        }
        if inner.contains(at) {
            let more = choose|more: Seq<Seq<char>>|
                at == #[trigger] (under + more) && leads_to_repeat(members[n - 1].1, more);
            let steps = seq![key] + more;
            assert(at =~= path + steps);
            assert(steps.drop_first() =~= more);
            assert(member_leads(members, n - 1, steps));
        }
        if exists|j: int, steps: Seq<Seq<char>>|
            0 <= j < n && at == #[trigger] (path + steps) && #[trigger] member_leads(
                members,
                j,
                steps,
            ) {
            let (j, steps) = choose|j: int, steps: Seq<Seq<char>>|
                0 <= j < n && at == #[trigger] (path + steps) && #[trigger] member_leads(
                    members,
                    j,
                    steps,
                );
            if j == n - 1 {
                if steps.len() == 1 && seen_before(members, n - 1) {
                    assert(at =~= under);
                    assert(own[0] == at);
                } else {
                    let more = steps.drop_first();
                    assert(at =~= under + more);
                }
            }
        }
    }
}

/// Of what repeats, what makes the request itself ambiguous is reported, the first of it; else the
/// first of all.
pub proof fn law_what_is_reported_comes_first(all: Seq<Seq<Seq<char>>>)
    ensures
        match reported(all) {
            None => all.len() == 0,
            Some(path) => exists|i: int|
                {
                    &&& 0 <= i < all.len()
                    &&& #[trigger] all[i] == path
                    &&& path.len() == 1 ==> forall|j: int|
                        0 <= j < i ==> (#[trigger] all[j]).len() != 1
                    &&& path.len() != 1 ==> i == 0 && forall|j: int|
                        0 <= j < all.len() ==> (#[trigger] all[j]).len() != 1
                },
        },
{
    lemma_first_in_envelope(all);
    if let Some(path) = reported(all) {
        if first_in_envelope(all) is None {
            assert(all[0] == path);
        }
    }
}

proof fn lemma_first_in_envelope(all: Seq<Seq<Seq<char>>>)
    ensures
        match first_in_envelope(all) {
            None => forall|j: int| 0 <= j < all.len() ==> (#[trigger] all[j]).len() != 1,
            Some(path) => path.len() == 1 && exists|i: int|
                {
                    &&& 0 <= i < all.len()
                    &&& #[trigger] all[i] == path
                    &&& forall|j: int| 0 <= j < i ==> (#[trigger] all[j]).len() != 1
                },
        },
    decreases all.len(),
{
    if all.len() > 0 {
        let rest = all.drop_first();
        lemma_first_in_envelope(rest);
        if all[0].len() == 1 {
            assert(all[0] == first_in_envelope(all)->Some_0);
        } else {
            match first_in_envelope(rest) {
                None => {
                    assert forall|j: int| 0 <= j < all.len() implies (#[trigger] all[j]).len()
                        != 1 by {
                        if j > 0 {
                            assert(rest[j - 1] == all[j]);
                        }
                    }
                },
                Some(path) => {
                    let i = choose|i: int|
                        {
                            &&& 0 <= i < rest.len()
                            &&& #[trigger] rest[i] == path
                            &&& forall|j: int| 0 <= j < i ==> (#[trigger] rest[j]).len() != 1
                        };
                    assert(all[i + 1] == path);
                    assert forall|j: int| 0 <= j < i + 1 implies (#[trigger] all[j]).len() != 1 by {
                        if j > 0 {
                            assert(rest[j - 1] == all[j]);
                        }
                    }
                },
            }
        }
    }
}

/// Spaces, tabs and line ends are passed over, and nothing else is.
pub proof fn law_only_spaces_are_passed_over(b: Seq<u8>)
    ensures
        exists|n: int|
            {
                &&& 0 <= n <= b.len()
                &&& after_space(b) == #[trigger] b.skip(n)
                &&& forall|i: int|
                    0 <= i < n ==> #[trigger] b[i] == 0x20 || b[i] == 0x09 || b[i] == 0x0a
                        || b[i] == 0x0d
                &&& n < b.len() ==> b[n] != 0x20 && b[n] != 0x09 && b[n] != 0x0a && b[n] != 0x0d
            },
    decreases b.len(),
{
    if b.len() > 0 && is_space(b[0]) {
        let rest = b.skip(1);
        law_only_spaces_are_passed_over(rest);
        let n = choose|n: int|
            {
                &&& 0 <= n <= rest.len()
                &&& after_space(rest) == #[trigger] rest.skip(n)
                &&& forall|i: int|
                    0 <= i < n ==> #[trigger] rest[i] == 0x20 || rest[i] == 0x09 || rest[i]
                        == 0x0a || rest[i] == 0x0d
                &&& n < rest.len() ==> rest[n] != 0x20 && rest[n] != 0x09 && rest[n] != 0x0a
                    && rest[n] != 0x0d
            };
        assert(rest.skip(n) =~= b.skip(n + 1));
        assert forall|i: int| 0 <= i < n + 1 implies #[trigger] b[i] == 0x20 || b[i] == 0x09
            || b[i] == 0x0a || b[i] == 0x0d by {
            if i > 0 {
                assert(rest[i - 1] == b[i]);
            }
        }
    } else {
        assert(b.skip(0) =~= b);
    }
}

/// Where nothing may nest any deeper, no object and no list is read.
pub proof fn law_nesting_is_bounded(b: Seq<u8>)
    requires
        after_space(b).len() > 0,
        after_space(b)[0] == 0x7b || after_space(b)[0] == 0x5b,
    ensures
        value_keys(b, 0) is None,
        MAX_DEPTH == 128,
{
}

} // verus!
