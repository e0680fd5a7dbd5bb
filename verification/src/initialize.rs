//! The handshake: the first frame of a connection, and how a bad one is refused.
//!
//! One frame is read here, and said what it is: a usable handshake, or a particular refusal. Any
//! failure during the handshake disconnects; whoever owns the connection does that.
use crate::frame;
use crate::json;
use crate::json::{Json, JsonView};
use crate::module;
use crate::repeats;
use crate::rpc;
use crate::rpc::{ErrorKind, Response, RpcError, MAX_ID_BYTES, MAX_MESSAGE_BYTES};
use crate::text;
use crate::version;
use crate::version::{VersionMismatch, VersionRange};
use vstd::prelude::*;
use vstd::string::*;

verus! {

/// The method of the handshake.
pub const INITIALIZE_METHOD: &'static str = "initialize";

// ---------------------------------------------------------------------------
// What is sent
// ---------------------------------------------------------------------------

/// The params of the first frame, as mathematics.
pub struct ParamsView {
    pub protocol_versions: Option<VersionRange>,
    pub module: Seq<char>,
    pub manifest_digest: Seq<char>,
    pub auth_token: Seq<char>,
    pub capabilities: Seq<Seq<char>>,
}

/// The params of the first frame. A member that is not named here is refused: it is a message
/// that this kernel does not understand.
#[derive(Debug, Clone, PartialEq, Eq)]
pub struct InitializeParams {
    /// The versions that the module speaks. None declared is incompatible.
    pub protocol_versions: Option<VersionRange>,
    /// The name that the module claims.
    pub module: String,
    /// The digest of the manifest that the module read.
    pub manifest_digest: String,
    /// The secret that the kernel passed when it started the module.
    pub auth_token: String,
    /// What the module asks for.
    pub capabilities: Vec<String>,
}

impl View for InitializeParams {
    type V = ParamsView;

    open spec fn view(&self) -> ParamsView {
        ParamsView {
            protocol_versions: self.protocol_versions,
            module: self.module@,
            manifest_digest: self.manifest_digest@,
            auth_token: self.auth_token@,
            capabilities: text::views(self.capabilities@),
        }
    }
}

/// The first frame.
#[derive(Debug, Clone)]
pub struct InitializeRequest {
    pub jsonrpc: String,
    pub method: String,
    /// Echoed in the response.
    pub id: String,
    pub params: InitializeParams,
}

/// What the kernel offers a connection: the families of methods that it has handlers for. A name
/// that is not there is not provided; there is no other way to say so.
#[derive(Debug, Clone, PartialEq, Eq)]
pub struct Offer {
    /// Prefixes of the methods that are answered.
    pub provides: Vec<String>,
}

impl View for Offer {
    type V = Seq<Seq<char>>;

    open spec fn view(&self) -> Seq<Seq<char>> {
        text::views(self.provides@)
    }
}

impl Default for Offer {
    fn default() -> (r: Offer)
        ensures
            r@ == Seq::<Seq<char>>::empty(),
    {
        let r = Offer { provides: Vec::new() };
        assert(r@ =~= Seq::<Seq<char>>::empty());
        r
    }
}

/// Whether some prefix is one of a method.
pub open spec fn offered(prefixes: Seq<Seq<char>>, method: Seq<char>) -> bool {
    exists|i: int| 0 <= i < prefixes.len() && text::starts_with(method, #[trigger] prefixes[i])
}

impl Offer {
    /// Nothing is offered.
    pub fn none() -> (r: Offer)
        ensures
            r@ == Seq::<Seq<char>>::empty(),
    {
        Offer::default()
    }

    /// Whether a method falls inside something offered.
    pub fn provides(&self, method: &str) -> (r: bool)
        ensures
            r == offered(self@, method@),
    {
        let mut i: usize = 0;
        while i < self.provides.len()
            invariant
                i <= self.provides@.len(),
                forall|j: int|
                    0 <= j < i ==> !text::starts_with(method@, #[trigger] self@[j]),
            decreases self.provides@.len() - i,
        {
            assert(self@[i as int] == self.provides@[i as int]@);
            if text::has_prefix(method, self.provides[i].as_str()) {
                return true;
            }
            i = i + 1;
        }
        false
    }

    fn copy(&self) -> (r: Offer)
        ensures
            r@ == self@,
    {
        Offer { provides: text::copy_strings(&self.provides) }
    }
}

/// What the kernel answers a handshake that passed.
#[derive(Debug, Clone, PartialEq, Eq)]
pub struct InitializeResult {
    /// The one version to speak.
    pub protocol_version: u32,
    pub offer: Offer,
}

/// A handshake that passed: the id to answer under, and the answer.
#[derive(Debug, Clone, PartialEq, Eq)]
pub struct Accepted {
    pub id: String,
    pub result: InitializeResult,
}

/// A handshake that passed, as mathematics.
pub struct AcceptedView {
    pub id: Seq<char>,
    pub protocol_version: u32,
    pub provides: Seq<Seq<char>>,
}

impl View for Accepted {
    type V = AcceptedView;

    open spec fn view(&self) -> AcceptedView {
        AcceptedView {
            id: self.id@,
            protocol_version: self.result.protocol_version,
            provides: self.result.offer@,
        }
    }
}

/// What the kernel knows before the module says anything.
#[derive(Debug, Clone)]
pub struct Expectation {
    /// The name in the manifest.
    pub module: String,
    /// The digest of the manifest, as the kernel computed it.
    pub manifest_digest: String,
    /// The secret that was handed to the module.
    pub auth_token: String,
    /// What this kernel speaks.
    pub kernel_versions: VersionRange,
    /// What it can serve.
    pub offer: Offer,
}

/// What the kernel knows, as mathematics.
pub struct ExpectationView {
    pub module: Seq<char>,
    pub manifest_digest: Seq<char>,
    pub auth_token: Seq<char>,
    pub kernel_versions: VersionRange,
    pub provides: Seq<Seq<char>>,
}

impl View for Expectation {
    type V = ExpectationView;

    open spec fn view(&self) -> ExpectationView {
        ExpectationView {
            module: self.module@,
            manifest_digest: self.manifest_digest@,
            auth_token: self.auth_token@,
            kernel_versions: self.kernel_versions,
            provides: self.offer@,
        }
    }
}

// ---------------------------------------------------------------------------
// Refusals
// ---------------------------------------------------------------------------

/// Why a first frame is no usable handshake, as mathematics.
pub enum HandshakeErrorView {
    Parse(Seq<char>),
    NotInitialize(Seq<char>),
    BadParams(Seq<char>),
    AuthFailed,
    ManifestMismatch { expected: Seq<char>, got: Seq<char> },
    VersionMismatch(VersionMismatch),
}

/// Why a first frame is no usable handshake.
#[derive(Debug, Clone, PartialEq, Eq)]
pub enum HandshakeError {
    /// Not JSON.
    Parse(String),
    /// JSON, but no `initialize` request.
    NotInitialize(String),
    /// The params are not usable.
    BadParams(String),
    /// The secret is another one.
    AuthFailed,
    /// The module's name or the digest of its manifest is another one.
    ManifestMismatch { expected: String, got: String },
    /// No version is shared, or none was declared.
    VersionMismatch(VersionMismatch),
}

impl View for HandshakeError {
    type V = HandshakeErrorView;

    open spec fn view(&self) -> HandshakeErrorView {
        match self {
            HandshakeError::Parse(e) => HandshakeErrorView::Parse(e@),
            HandshakeError::NotInitialize(what) => HandshakeErrorView::NotInitialize(what@),
            HandshakeError::BadParams(e) => HandshakeErrorView::BadParams(e@),
            HandshakeError::AuthFailed => HandshakeErrorView::AuthFailed,
            HandshakeError::ManifestMismatch { expected, got } => {
                HandshakeErrorView::ManifestMismatch { expected: expected@, got: got@ }
            },
            HandshakeError::VersionMismatch(e) => HandshakeErrorView::VersionMismatch(*e),
        }
    }
}

impl HandshakeErrorView {
    /// The code of the refusal.
    pub open spec fn code(self) -> i32 {
        match self {
            HandshakeErrorView::Parse(_) => rpc::PARSE_ERROR,
            HandshakeErrorView::NotInitialize(_) => rpc::INVALID_REQUEST,
            HandshakeErrorView::BadParams(_) => rpc::INVALID_PARAMS,
            _ => rpc::APPLICATION,
        }
    }

    /// The kind of an application failure. The others are told by their code.
    pub open spec fn kind(self) -> Option<ErrorKind> {
        match self {
            HandshakeErrorView::AuthFailed => Some(ErrorKind::AuthFailed),
            HandshakeErrorView::ManifestMismatch { .. } => Some(ErrorKind::ManifestMismatch),
            HandshakeErrorView::VersionMismatch(_) => Some(ErrorKind::VersionMismatch),
            _ => None,
        }
    }

    /// The refusal in words. One for a wrong secret says nothing of the secret.
    pub open spec fn text(self) -> Seq<char> {
        match self {
            HandshakeErrorView::Parse(e) => "the first frame is not valid JSON: "@ + e,
            HandshakeErrorView::NotInitialize(what) => {
                "the first frame must be an `initialize` request, got "@ + what
            },
            HandshakeErrorView::BadParams(e) => "`initialize` params are not usable: "@ + e,
            HandshakeErrorView::AuthFailed => "authentication failed"@,
            HandshakeErrorView::ManifestMismatch { expected, got } => {
                "the module read a different manifest: kernel has "@ + expected
                    + ", module reports "@ + got
            },
            HandshakeErrorView::VersionMismatch(e) => e.text(),
        }
    }

    /// What is told beside the kind: for a version mismatch, what both sides speak.
    pub open spec fn data(self) -> Option<Seq<(Seq<char>, JsonView)>> {
        match self {
            HandshakeErrorView::VersionMismatch(VersionMismatch::NotDeclared { kernel }) => Some(
                json::inserted(
                    json::inserted(Seq::empty(), "module"@, JsonView::Null),
                    "kernel"@,
                    range_json(kernel),
                ),
            ),
            HandshakeErrorView::VersionMismatch(VersionMismatch::NoOverlap { module, kernel }) => {
                Some(
                    json::inserted(
                        json::inserted(Seq::empty(), "module"@, range_json(module)),
                        "kernel"@,
                        range_json(kernel),
                    ),
                )
            },
            _ => None,
        }
    }
}

/// A range of versions, as an object.
pub open spec fn range_json(range: VersionRange) -> JsonView {
    JsonView::Object(
        seq![
            ("max"@, JsonView::Number(text::decimal(range.high() as nat))),
            ("min"@, JsonView::Number(text::decimal(range.low() as nat))),
        ],
    )
}

fn range_value(range: &VersionRange) -> (r: Json)
    ensures
        r.view() == range_json(*range),
{
    let mut members: Vec<(String, Json)> = Vec::new();
    members.push(("max".to_owned(), Json::Number(text::decimal_string(range.max() as u64))));
    members.push(("min".to_owned(), Json::Number(text::decimal_string(range.min() as u64))));
    proof {
        json::lemma_object_view(members);
        assert(json::members_view(members@) =~= range_json(*range)->Object_0);
    }
    Json::Object(members)
}

impl HandshakeError {
    /// The code of the refusal.
    pub fn code(&self) -> (r: i32)
        ensures
            r == self@.code(),
    {
        match self {
            HandshakeError::Parse(_) => rpc::PARSE_ERROR,
            HandshakeError::NotInitialize(_) => rpc::INVALID_REQUEST,
            HandshakeError::BadParams(_) => rpc::INVALID_PARAMS,
            _ => rpc::APPLICATION,
        }
    }

    fn error_kind(&self) -> (r: Option<ErrorKind>)
        ensures
            r == self@.kind(),
    {
        match self {
            HandshakeError::AuthFailed => Some(ErrorKind::AuthFailed),
            HandshakeError::ManifestMismatch { .. } => Some(ErrorKind::ManifestMismatch),
            HandshakeError::VersionMismatch(_) => Some(ErrorKind::VersionMismatch),
            _ => None,
        }
    }

    /// The kind of an application failure, as it stands on the wire.
    pub fn kind(&self) -> (r: Option<&'static str>)
        ensures
            match (r, self@.kind()) {
                (Some(s), Some(kind)) => s@ == kind.wire(),
                (None, None) => true,
                _ => false,
            },
    {
        match self.error_kind() {
            Some(kind) => Some(kind.as_str()),
            None => None,
        }
    }

    /// The refusal in words.
    pub fn to_text(&self) -> (r: String)
        ensures
            r@ == self@.text(),
    {
        match self {
            HandshakeError::Parse(e) => {
                let mut out = "the first frame is not valid JSON: ".to_owned();
                out.append(e.as_str());
                out
            },
            HandshakeError::NotInitialize(what) => {
                let mut out = "the first frame must be an `initialize` request, got ".to_owned();
                out.append(what.as_str());
                out
            },
            HandshakeError::BadParams(e) => {
                let mut out = "`initialize` params are not usable: ".to_owned();
                out.append(e.as_str());
                out
            },
            HandshakeError::AuthFailed => "authentication failed".to_owned(),
            HandshakeError::ManifestMismatch { expected, got } => {
                let mut out = "the module read a different manifest: kernel has ".to_owned();
                out.append(expected.as_str());
                out.append(", module reports ");
                out.append(got.as_str());
                out
            },
            HandshakeError::VersionMismatch(e) => e.to_text(),
        }
    }

    /// What is told beside the kind.
    fn to_data(&self) -> (r: Option<Vec<(String, Json)>>)
        ensures
            match (r, self@.data()) {
                (Some(members), Some(data)) => json::members_view(members@) == data,
                (None, None) => true,
                _ => false,
            },
    {
        let (module, kernel) = match self {
            HandshakeError::VersionMismatch(VersionMismatch::NotDeclared { kernel }) => (
                Json::Null,
                range_value(kernel),
            ),
            HandshakeError::VersionMismatch(VersionMismatch::NoOverlap { module, kernel }) => (
                range_value(module),
                range_value(kernel),
            ),
            _ => {
                return None;
            },
        };
        let mut data: Vec<(String, Json)> = Vec::new();
        assert(json::members_view(data@) =~= Seq::empty());
        json::insert_member(&mut data, "module", module);
        json::insert_member(&mut data, "kernel", kernel);
        Some(data)
    }
}

// ---------------------------------------------------------------------------
// Reading the params
// ---------------------------------------------------------------------------

/// Whether the text of a number is that of a fraction.
pub open spec fn is_fraction(number: Seq<char>) -> bool {
    let b = vstd::utf8::encode_utf8(number);
    b.contains(0x2e) || b.contains(0x65) || b.contains(0x45)
}

fn fraction(number: &str) -> (r: bool)
    ensures
        r == is_fraction(number@),
{
    let b = number.as_bytes();
    let mut i: usize = 0;
    while i < b.len()
        invariant
            i <= b@.len(),
            b@ == vstd::utf8::encode_utf8(number@),
            forall|j: int|
                0 <= j < i ==> b@[j] != 0x2e && b@[j] != 0x65 && b@[j] != 0x45,
        decreases b@.len() - i,
    {
        if b[i] == 0x2e || b[i] == 0x65 || b[i] == 0x45 {
            assert(b@.contains(b@[i as int]));
            return true;
        }
        i = i + 1;
    }
    false
}

/// What stands where something else was expected.
pub open spec fn described(v: JsonView) -> Seq<char> {
    match v {
        JsonView::Null => "null"@,
        JsonView::Bool(b) => if b {
            "boolean `true`"@
        } else {
            "boolean `false`"@
        },
        JsonView::Number(n) => if is_fraction(n) {
            "floating point `"@ + n + "`"@
        } else {
            "integer `"@ + n + "`"@
        },
        JsonView::Text(s) => "string "@ + text::debug_text(s),
        JsonView::Array(_) => "sequence"@,
        JsonView::Object(_) => "map"@,
    }
}

fn describe(v: &Json) -> (r: String)
    ensures
        r@ == described(v.view()),
{
    match v {
        Json::Null => "null".to_owned(),
        Json::Bool(b) => if *b {
            "boolean `true`".to_owned()
        } else {
            "boolean `false`".to_owned()
        },
        Json::Number(n) => if fraction(n.as_str()) {
            text::concat3("floating point `", n.as_str(), "`")
        } else {
            text::concat3("integer `", n.as_str(), "`")
        },
        Json::Text(s) => {
            let mut out = "string ".to_owned();
            out.append(text::debug_string(s.as_str()).as_str());
            out
        },
        Json::Array(_) => "sequence".to_owned(),
        Json::Object(_) => "map".to_owned(),
    }
}

/// The message for a value of another type than expected.
pub open spec fn wrong_type(v: JsonView, expected: Seq<char>) -> Seq<char> {
    "invalid type: "@ + described(v) + ", expected "@ + expected
}

pub(crate) fn wrong_type_message(v: &Json, expected: &str) -> (r: String)
    ensures
        r@ == wrong_type(v.view(), expected@),
{
    let mut out = "invalid type: ".to_owned();
    out.append(describe(v).as_str());
    out.append(", expected ");
    out.append(expected);
    out
}

/// A text member.
pub open spec fn text_of(v: JsonView) -> Result<Seq<char>, Seq<char>> {
    match v {
        JsonView::Text(s) => Ok(s),
        _ => Err(wrong_type(v, "a string"@)),
    }
}

pub(crate) fn read_string(v: &Json) -> (r: Result<String, String>)
    ensures
        match (r, text_of(v.view())) {
            (Ok(s), Ok(t)) => s@ == t,
            (Err(e), Err(f)) => e@ == f,
            _ => false,
        },
{
    match v {
        Json::Text(s) => Ok(s.clone()),
        _ => Err(wrong_type_message(v, "a string")),
    }
}

/// The texts of a list, after those `before`.
pub open spec fn texts_from(items: Seq<JsonView>, before: Seq<Seq<char>>) -> Result<
    Seq<Seq<char>>,
    Seq<char>,
>
    decreases items.len(),
{
    if items.len() == 0 {
        Ok(before)
    } else {
        match text_of(items[0]) {
            Ok(s) => texts_from(items.drop_first(), before.push(s)),
            Err(e) => Err(e),
        }
    }
}

/// A list of texts.
pub open spec fn texts_of(v: JsonView) -> Result<Seq<Seq<char>>, Seq<char>> {
    match v {
        JsonView::Array(items) => texts_from(items, Seq::empty()),
        _ => Err(wrong_type(v, "a sequence"@)),
    }
}

pub(crate) fn read_strings(v: &Json) -> (r: Result<Vec<String>, String>)
    ensures
        match (r, texts_of(v.view())) {
            (Ok(list), Ok(texts)) => text::views(list@) == texts,
            (Err(e), Err(f)) => e@ == f,
            _ => false,
        },
{
    match v {
        Json::Array(items) => {
            let ghost all = json::items_view(items@);
            proof {
                json::lemma_array_view(*items);
                assert(all.skip(0) =~= all);
            }
            let mut out: Vec<String> = Vec::new();
            assert(text::views(out@) =~= Seq::empty());
            let mut i: usize = 0;
            while i < items.len()
                invariant
                    i <= items@.len(),
                    all == json::items_view(items@),
                    v.view() == JsonView::Array(all),
                    texts_from(all, Seq::empty()) == texts_from(
                        all.skip(i as int),
                        text::views(out@),
                    ),
                decreases items@.len() - i,
            {
                let ghost tail = all.skip(i as int);
                assert(tail[0] == items@[i as int].view());
                assert(tail.drop_first() =~= all.skip(i + 1));
                let ghost before = text::views(out@);
                match read_string(&items[i]) {
                    Ok(s) => {
                        out.push(s);
                        assert(text::views(out@) =~= before.push(s@));
                    },
                    Err(e) => {
                        return Err(e);
                    },
                }
                i = i + 1;
            }
            Ok(out)
        },
        _ => Err(wrong_type_message(v, "a sequence")),
    }
}

/// A version number.
pub open spec fn version_of(v: JsonView) -> Result<u32, Seq<char>> {
    match v {
        JsonView::Number(n) => match text::decimal_value(n) {
            Some(k) if k <= u32::MAX => Ok(k as u32),
            _ => if is_fraction(n) {
                Err(wrong_type(v, "u32"@))
            } else {
                Err("invalid value: integer `"@ + n + "`, expected u32"@)
            },
        },
        _ => Err(wrong_type(v, "u32"@)),
    }
}

pub(crate) fn read_version(v: &Json) -> (r: Result<u32, String>)
    ensures
        match (r, version_of(v.view())) {
            (Ok(n), Ok(k)) => n == k,
            (Err(e), Err(f)) => e@ == f,
            _ => false,
        },
{
    match v {
        Json::Number(n) => match text::parse_u32(n.as_str()) {
            Some(k) => Ok(k),
            None => if fraction(n.as_str()) {
                Err(wrong_type_message(v, "u32"))
            } else {
                Err(text::concat3("invalid value: integer `", n.as_str(), "`, expected u32"))
            },
        },
        _ => Err(wrong_type_message(v, "u32")),
    }
}

/// The ends of a range, from the members left, after those read before.
pub open spec fn range_from(
    members: Seq<(Seq<char>, JsonView)>,
    min: Option<u32>,
    max: Option<u32>,
) -> Result<VersionRange, Seq<char>>
    decreases members.len(),
{
    if members.len() == 0 {
        match (min, max) {
            (None, _) => Err("missing field `min`"@),
            (_, None) => Err("missing field `max`"@),
            (Some(low), Some(high)) => if low <= high {
                Ok(VersionRange::from_to(low, high))
            } else {
                Err("the version range is empty"@)
            },
        }
    } else if members[0].0 == "min"@ {
        match version_of(members[0].1) {
            Ok(n) => range_from(members.drop_first(), Some(n), max),
            Err(e) => Err(e),
        }
    } else if members[0].0 == "max"@ {
        match version_of(members[0].1) {
            Ok(n) => range_from(members.drop_first(), min, Some(n)),
            Err(e) => Err(e),
        }
    } else {
        Err("unknown field `"@ + members[0].0 + "`, expected `min` or `max`"@)
    }
}

/// A range of versions, which may be left out.
pub open spec fn range_of(v: JsonView) -> Result<Option<VersionRange>, Seq<char>> {
    match v {
        JsonView::Null => Ok(None),
        JsonView::Object(members) => match range_from(members, None, None) {
            Ok(range) => Ok(Some(range)),
            Err(e) => Err(e),
        },
        _ => Err(wrong_type(v, "struct VersionRange"@)),
    }
}

fn read_range(v: &Json) -> (r: Result<Option<VersionRange>, String>)
    ensures
        match (r, range_of(v.view())) {
            (Ok(a), Ok(b)) => a == b,
            (Err(e), Err(f)) => e@ == f,
            _ => false,
        },
{
    match v {
        Json::Null => Ok(None),
        Json::Object(members) => {
            let ghost all = json::members_view(members@);
            proof {
                json::lemma_object_view(*members);
                assert(all.skip(0) =~= all);
            }
            let mut min: Option<u32> = None;
            let mut max: Option<u32> = None;
            let mut i: usize = 0;
            while i < members.len()
                invariant
                    i <= members@.len(),
                    all == json::members_view(members@),
                    v.view() == JsonView::Object(all),
                    range_from(all, None, None) == range_from(all.skip(i as int), min, max),
                decreases members@.len() - i,
            {
                let ghost tail = all.skip(i as int);
                assert(tail[0] == (members@[i as int].0@, members@[i as int].1.view()));
                assert(tail.drop_first() =~= all.skip(i + 1));
                let key = members[i].0.as_str();
                if text::same(key, "min") {
                    match read_version(&members[i].1) {
                        Ok(n) => {
                            min = Some(n);
                        },
                        Err(e) => {
                            return Err(e);
                        },
                    }
                } else if text::same(key, "max") {
                    match read_version(&members[i].1) {
                        Ok(n) => {
                            max = Some(n);
                        },
                        Err(e) => {
                            return Err(e);
                        },
                    }
                } else {
                    return Err(
                        text::concat3("unknown field `", key, "`, expected `min` or `max`"),
                    );
                }
                i = i + 1;
            }
            match (min, max) {
                (None, _) => Err("missing field `min`".to_owned()),
                (_, None) => Err("missing field `max`".to_owned()),
                (Some(low), Some(high)) => match VersionRange::new(low, high) {
                    Some(range) => Ok(Some(range)),
                    None => Err("the version range is empty".to_owned()),
                },
            }
        },
        _ => Err(wrong_type_message(v, "struct VersionRange")),
    }
}

/// The params as far as they were read.
pub struct PartialView {
    pub protocol_versions: Option<VersionRange>,
    pub module: Option<Seq<char>>,
    pub manifest_digest: Option<Seq<char>>,
    pub auth_token: Option<Seq<char>>,
    pub capabilities: Option<Seq<Seq<char>>>,
}

/// Nothing was read yet.
pub open spec fn nothing_read() -> PartialView {
    PartialView {
        protocol_versions: None,
        module: None,
        manifest_digest: None,
        auth_token: None,
        capabilities: None,
    }
}

/// What is read once one more member is.
pub open spec fn with_member(read: PartialView, key: Seq<char>, value: JsonView) -> Result<
    PartialView,
    Seq<char>,
> {
    if key == "protocol_versions"@ {
        match range_of(value) {
            Ok(range) => Ok(PartialView { protocol_versions: range, ..read }),
            Err(e) => Err(e),
        }
    } else if key == "module"@ {
        match text_of(value) {
            Ok(s) => Ok(PartialView { module: Some(s), ..read }),
            Err(e) => Err(e),
        }
    } else if key == "manifest_digest"@ {
        match text_of(value) {
            Ok(s) => Ok(PartialView { manifest_digest: Some(s), ..read }),
            Err(e) => Err(e),
        }
    } else if key == "auth_token"@ {
        match text_of(value) {
            Ok(s) => Ok(PartialView { auth_token: Some(s), ..read }),
            Err(e) => Err(e),
        }
    } else if key == "capabilities"@ {
        match texts_of(value) {
            Ok(list) => Ok(PartialView { capabilities: Some(list), ..read }),
            Err(e) => Err(e),
        }
    } else {
        Err(
            "unknown field `"@ + key
                + "`, expected one of `protocol_versions`, `module`, `manifest_digest`, `auth_token`, `capabilities`"@,
        )
    }
}

/// What is read once the members left are.
pub open spec fn with_members(read: PartialView, members: Seq<(Seq<char>, JsonView)>) -> Result<
    PartialView,
    Seq<char>,
>
    decreases members.len(),
{
    if members.len() == 0 {
        Ok(read)
    } else {
        match with_member(read, members[0].0, members[0].1) {
            Ok(next) => with_members(next, members.drop_first()),
            Err(e) => Err(e),
        }
    }
}

/// The params, where none is missing that must be there.
pub open spec fn complete(read: PartialView) -> Result<ParamsView, Seq<char>> {
    match (read.module, read.manifest_digest, read.auth_token) {
        (None, _, _) => Err("missing field `module`"@),
        (_, None, _) => Err("missing field `manifest_digest`"@),
        (_, _, None) => Err("missing field `auth_token`"@),
        (Some(module), Some(manifest_digest), Some(auth_token)) => Ok(
            ParamsView {
                protocol_versions: read.protocol_versions,
                module,
                manifest_digest,
                auth_token,
                capabilities: match read.capabilities {
                    Some(list) => list,
                    None => Seq::empty(),
                },
            },
        ),
    }
}

/// The name of the field at a position.
pub open spec fn field_name(i: int) -> Seq<char> {
    if i == 0 {
        "protocol_versions"@
    } else if i == 1 {
        "module"@
    } else if i == 2 {
        "manifest_digest"@
    } else if i == 3 {
        "auth_token"@
    } else {
        "capabilities"@
    }
}

/// A list of fields, as members.
pub open spec fn positional(items: Seq<JsonView>) -> Seq<(Seq<char>, JsonView)> {
    Seq::new(
        if items.len() < 5 {
            items.len()
        } else {
            5
        },
        |i: int| (field_name(i), items[i]),
    )
}

/// Reads the params. They are an object, or a list of the fields in order.
pub open spec fn decoded(params: JsonView) -> Result<ParamsView, Seq<char>> {
    match params {
        JsonView::Object(members) => match with_members(nothing_read(), members) {
            Ok(read) => complete(read),
            Err(e) => Err(e),
        },
        JsonView::Array(items) => match with_members(nothing_read(), positional(items)) {
            Ok(read) => if items.len() < 4 {
                Err(
                    "invalid length "@ + text::decimal(
                        if items.len() == 0 {
                            1
                        } else {
                            items.len()
                        },
                    ) + ", expected struct InitializeParams with 5 elements"@,
                )
            } else if items.len() > 5 {
                Err(
                    "invalid length "@ + text::decimal(items.len())
                        + ", expected fewer elements in array"@,
                )
            } else {
                complete(read)
            },
            Err(e) => Err(e),
        },
        _ => Err(wrong_type(params, "struct InitializeParams"@)),
    }
}

struct Partial {
    protocol_versions: Option<VersionRange>,
    module: Option<String>,
    manifest_digest: Option<String>,
    auth_token: Option<String>,
    capabilities: Option<Vec<String>>,
}

impl Partial {
    spec fn view(&self) -> PartialView {
        PartialView {
            protocol_versions: self.protocol_versions,
            module: rpc::id_view(self.module),
            manifest_digest: rpc::id_view(self.manifest_digest),
            auth_token: rpc::id_view(self.auth_token),
            capabilities: repeats::path_view(self.capabilities),
        }
    }
}

fn read_member(read: &mut Partial, key: &str, value: &Json) -> (r: Result<(), String>)
    ensures
        match (r, with_member(old(read).view(), key@, value.view())) {
            (Ok(_), Ok(next)) => final(read).view() == next,
            (Err(e), Err(f)) => e@ == f,
            _ => false,
        },
{
    if text::same(key, "protocol_versions") {
        match read_range(value) {
            Ok(range) => {
                read.protocol_versions = range;
                Ok(())
            },
            Err(e) => Err(e),
        }
    } else if text::same(key, "module") {
        match read_string(value) {
            Ok(s) => {
                read.module = Some(s);
                Ok(())
            },
            Err(e) => Err(e),
        }
    } else if text::same(key, "manifest_digest") {
        match read_string(value) {
            Ok(s) => {
                read.manifest_digest = Some(s);
                Ok(())
            },
            Err(e) => Err(e),
        }
    } else if text::same(key, "auth_token") {
        match read_string(value) {
            Ok(s) => {
                read.auth_token = Some(s);
                Ok(())
            },
            Err(e) => Err(e),
        }
    } else if text::same(key, "capabilities") {
        match read_strings(value) {
            Ok(list) => {
                read.capabilities = Some(list);
                Ok(())
            },
            Err(e) => Err(e),
        }
    } else {
        Err(
            text::concat3(
                "unknown field `",
                key,
                "`, expected one of `protocol_versions`, `module`, `manifest_digest`, `auth_token`, `capabilities`",
            ),
        )
    }
}

fn read_members(members: &Vec<(String, Json)>) -> (r: Result<Partial, String>)
    ensures
        match (r, with_members(nothing_read(), json::members_view(members@))) {
            (Ok(read), Ok(view)) => read.view() == view,
            (Err(e), Err(f)) => e@ == f,
            _ => false,
        },
{
    let ghost all = json::members_view(members@);
    let mut read = Partial {
        protocol_versions: None,
        module: None,
        manifest_digest: None,
        auth_token: None,
        capabilities: None,
    };
    let mut i: usize = 0;
    assert(all.skip(0) =~= all);
    while i < members.len()
        invariant
            i <= members@.len(),
            all == json::members_view(members@),
            with_members(nothing_read(), all) == with_members(read.view(), all.skip(i as int)),
        decreases members@.len() - i,
    {
        let ghost tail = all.skip(i as int);
        assert(tail[0] == (members@[i as int].0@, members@[i as int].1.view()));
        assert(tail.drop_first() =~= all.skip(i + 1));
        match read_member(&mut read, members[i].0.as_str(), &members[i].1) {
            Ok(_) => {},
            Err(e) => {
                return Err(e);
            },
        }
        i = i + 1;
    }
    Ok(read)
}

fn completed(read: Partial) -> (r: Result<InitializeParams, String>)
    ensures
        match (r, complete(read.view())) {
            (Ok(params), Ok(view)) => params@ == view,
            (Err(e), Err(f)) => e@ == f,
            _ => false,
        },
{
    let Partial { protocol_versions, module, manifest_digest, auth_token, capabilities } = read;
    let module = match module {
        Some(s) => s,
        None => {
            return Err("missing field `module`".to_owned());
        },
    };
    let manifest_digest = match manifest_digest {
        Some(s) => s,
        None => {
            return Err("missing field `manifest_digest`".to_owned());
        },
    };
    let auth_token = match auth_token {
        Some(s) => s,
        None => {
            return Err("missing field `auth_token`".to_owned());
        },
    };
    let capabilities = match capabilities {
        Some(list) => list,
        None => {
            let none: Vec<String> = Vec::new();
            assert(text::views(none@) =~= Seq::empty());
            none
        },
    };
    Ok(InitializeParams { protocol_versions, module, manifest_digest, auth_token, capabilities })
}

fn name_of_field(i: usize) -> (r: &'static str)
    ensures
        r@ == field_name(i as int),
{
    match i {
        0 => "protocol_versions",
        1 => "module",
        2 => "manifest_digest",
        3 => "auth_token",
        _ => "capabilities",
    }
}

/// Reads the params of the first frame.
pub fn read_params(params: &Json) -> (r: Result<InitializeParams, String>)
    ensures
        match (r, decoded(params.view())) {
            (Ok(p), Ok(view)) => p@ == view,
            (Err(e), Err(f)) => e@ == f,
            _ => false,
        },
{
    match params {
        Json::Object(members) => {
            proof {
                json::lemma_object_view(*members);
            }
            match read_members(members) {
                Ok(read) => completed(read),
                Err(e) => Err(e),
            }
        },
        Json::Array(items) => {
            let ghost all = json::items_view(items@);
            proof {
                json::lemma_array_view(*items);
            }
            let mut members: Vec<(String, Json)> = Vec::new();
            let mut i: usize = 0;
            while i < items.len() && i < 5
                invariant
                    i <= items@.len(),
                    i <= 5,
                    members@.len() == i,
                    all == json::items_view(items@),
                    forall|j: int|
                        0 <= j < i ==> members@[j].0@ == field_name(j) && members@[j].1.view()
                            == all[j],
                decreases items@.len() - i,
            {
                members.push((name_of_field(i).to_owned(), items[i].copy()));
                i = i + 1;
            }
            assert(json::members_view(members@) =~= positional(all));
            match read_members(&members) {
                Ok(read) => {
                    if items.len() < 4 {
                        let n: u64 = if items.len() == 0 {
                            1
                        } else {
                            items.len() as u64
                        };
                        Err(
                            text::concat3(
                                "invalid length ",
                                text::decimal_string(n).as_str(),
                                ", expected struct InitializeParams with 5 elements",
                            ),
                        )
                    } else if items.len() > 5 {
                        Err(
                            text::concat3(
                                "invalid length ",
                                text::decimal_string(items.len() as u64).as_str(),
                                ", expected fewer elements in array",
                            ),
                        )
                    } else {
                        completed(read)
                    }
                },
                Err(e) => Err(e),
            }
        },
        _ => Err(wrong_type_message(params, "struct InitializeParams")),
    }
}

// ---------------------------------------------------------------------------
// The envelope
// ---------------------------------------------------------------------------

/// Checks the envelope of the first frame and takes its id and its params out, before anything
/// reads the params. A fault of the envelope is an invalid request, a fault inside the params is
/// bad params. A repeat further in is looked at only once the envelope has passed: every other
/// member is then a text, so the repeat is inside the params.
pub open spec fn envelope_of(
    parsed: Result<JsonView, Seq<char>>,
    repeat: Option<Seq<Seq<char>>>,
) -> Result<(Seq<char>, JsonView), HandshakeErrorView> {
    match parsed {
        Err(e) => Err(HandshakeErrorView::Parse(e)),
        Ok(JsonView::Object(members)) => envelope_of_object(members, repeat),
        Ok(_) => Err(
            HandshakeErrorView::NotInitialize("a frame that is not a request object"@),
        ),
    }
}

/// Quotes some text from the frame in a message.
pub open spec fn quoting(before: Seq<char>, quote: Seq<char>, after: Seq<char>) -> Seq<char> {
    before + text::clipped(quote, 128) + after
}

pub open spec fn envelope_of_object(
    members: Seq<(Seq<char>, JsonView)>,
    repeat: Option<Seq<Seq<char>>>,
) -> Result<(Seq<char>, JsonView), HandshakeErrorView> {
    if repeat matches Some(path) && path.len() == 1 {
        Err(
            HandshakeErrorView::NotInitialize(
                quoting("a repeated `"@, repeat->Some_0[0], "`"@),
            ),
        )
    } else if rpc::unknown_member(members) is Some {
        Err(
            HandshakeErrorView::NotInitialize(
                quoting("an unknown member `"@, rpc::unknown_member(members)->Some_0, "`"@),
            ),
        )
    } else if json::text_member(members, "jsonrpc"@) != Some("2.0"@) {
        Err(HandshakeErrorView::NotInitialize("a `jsonrpc` that is not \"2.0\""@))
    } else {
        match json::text_member(members, "method"@) {
            None => Err(HandshakeErrorView::NotInitialize("a frame with no string `method`"@)),
            Some(method) => if method != INITIALIZE_METHOD@ {
                Err(
                    HandshakeErrorView::NotInitialize(
                        "method "@ + text::debug_text(text::clipped(method, 128)),
                    ),
                )
            } else {
                match rpc::id_of_request(members) {
                    rpc::IdView::Absent => Err(
                        HandshakeErrorView::NotInitialize("a frame with no `id`"@),
                    ),
                    rpc::IdView::TooLong => Err(
                        HandshakeErrorView::NotInitialize(
                            "an id longer than "@ + text::decimal(MAX_ID_BYTES as nat)
                                + " bytes"@,
                        ),
                    ),
                    rpc::IdView::NotText => Err(
                        HandshakeErrorView::NotInitialize("an id that is not a string"@),
                    ),
                    rpc::IdView::Usable(id) => match (
                        json::member(members, "params"@),
                        repeat,
                    ) {
                        (None, _) => Err(HandshakeErrorView::BadParams("no `params`"@)),
                        (Some(_), Some(path)) => Err(
                            HandshakeErrorView::BadParams(
                                quoting("a repeated key `"@, text::joined(path, "."@), "`"@),
                            ),
                        ),
                        (Some(params), None) => Ok((id, params)),
                    },
                }
            },
        }
    }
}

fn quote_in(before: &str, quote: &str, after: &str) -> (r: String)
    ensures
        r@ == quoting(before@, quote@, after@),
{
    text::concat3(before, text::clip_to(quote, 128).as_str(), after)
}

fn read_envelope_object(members: &Vec<(String, Json)>, repeat: &Option<Vec<String>>) -> (r: Result<
    (String, Json),
    HandshakeError,
>)
    ensures
        match (r, envelope_of_object(json::members_view(members@), repeats::path_view(*repeat))) {
            (Ok((id, params)), Ok((i, p))) => id@ == i && params.view() == p,
            (Err(e), Err(f)) => e@ == f,
            _ => false,
        },
{
    match repeat {
        Some(path) => {
            assert(text::views(path@).len() == path@.len());
            if path.len() == 1 {
                return Err(
                    HandshakeError::NotInitialize(
                        quote_in("a repeated `", path[0].as_str(), "`"),
                    ),
                );
            }
        },
        None => {},
    }
    match rpc::find_unknown_member(members) {
        Some(extra) => {
            return Err(
                HandshakeError::NotInitialize(
                    quote_in("an unknown member `", extra.as_str(), "`"),
                ),
            );
        },
        None => {},
    }
    let is_version_two = match json::lookup_text(members, "jsonrpc") {
        Some(v) => text::same(v.as_str(), "2.0"),
        None => false,
    };
    if !is_version_two {
        return Err(HandshakeError::NotInitialize("a `jsonrpc` that is not \"2.0\"".to_owned()));
    }
    match json::lookup_text(members, "method") {
        Some(method) => {
            if !text::same(method.as_str(), INITIALIZE_METHOD) {
                let mut what = "method ".to_owned();
                what.append(
                    text::debug_string(text::clip_to(method.as_str(), 128).as_str()).as_str(),
                );
                return Err(HandshakeError::NotInitialize(what));
            }
        },
        None => {
            return Err(
                HandshakeError::NotInitialize("a frame with no string `method`".to_owned()),
            );
        },
    }
    let id = match json::lookup(members, "id") {
        None => {
            return Err(HandshakeError::NotInitialize("a frame with no `id`".to_owned()));
        },
        Some(Json::Text(s)) => {
            if s.as_str().as_bytes().len() <= MAX_ID_BYTES {
                s.clone()
            } else {
                return Err(
                    HandshakeError::NotInitialize(
                        text::concat3(
                            "an id longer than ",
                            text::decimal_string(MAX_ID_BYTES as u64).as_str(),
                            " bytes",
                        ),
                    ),
                );
            }
        },
        Some(_) => {
            return Err(HandshakeError::NotInitialize("an id that is not a string".to_owned()));
        },
    };
    let params = match json::lookup(members, "params") {
        Some(p) => p.copy(),
        None => {
            return Err(HandshakeError::BadParams("no `params`".to_owned()));
        },
    };
    match repeat {
        Some(path) => Err(
            HandshakeError::BadParams(
                quote_in("a repeated key `", text::join(path, ".").as_str(), "`"),
            ),
        ),
        None => Ok((id, params)),
    }
}

/// Checks the envelope of what was read from the first frame. `repeat` is the repeated key to
/// report for the frame.
pub fn read_envelope(parsed: Result<Json, String>, repeat: &Option<Vec<String>>) -> (r: Result<
    (String, Json),
    HandshakeError,
>)
    ensures
        match (r, envelope_of(json::parsed_view(parsed), repeats::path_view(*repeat))) {
            (Ok((id, params)), Ok((i, p))) => id@ == i && params.view() == p,
            (Err(e), Err(f)) => e@ == f,
            _ => false,
        },
{
    match parsed {
        Err(e) => Err(HandshakeError::Parse(e)),
        Ok(Json::Object(members)) => {
            proof {
                json::lemma_object_view(members);
            }
            read_envelope_object(&members, repeat)
        },
        Ok(_) => Err(
            HandshakeError::NotInitialize("a frame that is not a request object".to_owned()),
        ),
    }
}

// ---------------------------------------------------------------------------
// Accepting
// ---------------------------------------------------------------------------

/// A name and a digest, as one text.
pub open spec fn identity(module: Seq<char>, digest: Seq<char>) -> Seq<char> {
    module + "@"@ + digest
}

/// Judges the params against what the kernel knows: who the module is, then the secret, then the
/// version.
pub open spec fn judged_params(
    id: Seq<char>,
    params: ParamsView,
    expect: ExpectationView,
) -> Result<AcceptedView, HandshakeErrorView> {
    if params.module != expect.module || params.manifest_digest != expect.manifest_digest {
        Err(
            HandshakeErrorView::ManifestMismatch {
                expected: identity(expect.module, expect.manifest_digest),
                got: identity(params.module, params.manifest_digest),
            },
        )
    } else if params.auth_token != expect.auth_token {
        Err(HandshakeErrorView::AuthFailed)
    } else {
        match version::settled(params.protocol_versions, expect.kernel_versions) {
            Err(e) => Err(HandshakeErrorView::VersionMismatch(e)),
            Ok(protocol_version) => Ok(
                AcceptedView { id, protocol_version, provides: expect.provides },
            ),
        }
    }
}

/// Judges what was read from the first frame: its shape first, then what it says.
pub open spec fn judged(
    parsed: Result<JsonView, Seq<char>>,
    repeat: Option<Seq<Seq<char>>>,
    expect: ExpectationView,
) -> Result<AcceptedView, HandshakeErrorView> {
    match envelope_of(parsed, repeat) {
        Err(e) => Err(e),
        Ok((id, params)) => match decoded(params) {
            Err(e) => Err(HandshakeErrorView::BadParams(e)),
            Ok(p) => judged_params(id, p, expect),
        },
    }
}

/// Judges what was read from the first frame.
pub fn judge(
    parsed: Result<Json, String>,
    repeat: &Option<Vec<String>>,
    expect: &Expectation,
) -> (r: Result<Accepted, HandshakeError>)
    ensures
        match (r, judged(json::parsed_view(parsed), repeats::path_view(*repeat), expect@)) {
            (Ok(a), Ok(b)) => a@ == b,
            (Err(e), Err(f)) => e@ == f,
            _ => false,
        },
{
    let (id, params) = match read_envelope(parsed, repeat) {
        Ok(p) => p,
        Err(e) => {
            return Err(e);
        },
    };
    let params = match read_params(&params) {
        Ok(p) => p,
        Err(e) => {
            return Err(HandshakeError::BadParams(e));
        },
    };
    if !text::same(params.module.as_str(), expect.module.as_str()) || !text::same(
        params.manifest_digest.as_str(),
        expect.manifest_digest.as_str(),
    ) {
        return Err(
            HandshakeError::ManifestMismatch {
                expected: text::concat3(
                    expect.module.as_str(),
                    "@",
                    expect.manifest_digest.as_str(),
                ),
                got: text::concat3(params.module.as_str(), "@", params.manifest_digest.as_str()),
            },
        );
    }
    if !text::same(params.auth_token.as_str(), expect.auth_token.as_str()) {
        return Err(HandshakeError::AuthFailed);
    }
    match version::negotiate(params.protocol_versions, expect.kernel_versions) {
        Ok(protocol_version) => Ok(
            Accepted {
                id,
                result: InitializeResult { protocol_version, offer: expect.offer.copy() },
            },
        ),
        Err(e) => Err(HandshakeError::VersionMismatch(e)),
    }
}

/// Reads and judges the first frame. Shape comes before secrets: a frame that is no `initialize`
/// is refused as such before the secret in it is looked at. What a module's own introduction says
/// is what is judged.
pub fn accept(frame: &[u8], expect: &Expectation) -> (r: Result<Accepted, HandshakeError>)
    ensures
        match (
            r,
            judged(json::parsed_json(frame@), repeats::document_repeat(frame@), expect@),
        ) {
            (Ok(a), Ok(b)) => a@ == b,
            (Err(e), Err(f)) => e@ == f,
            _ => false,
        },
        forall|said: ParamsView| #[trigger]
            module::introduced(frame@, said) ==> match (
                r,
                judged_params(module::HANDSHAKE_ID@, said, expect@),
            ) {
                (Ok(a), Ok(b)) => a@ == b,
                (Err(e), Err(f)) => e@ == f,
                _ => false,
            },
{
    let parsed = json::parse(frame);
    let repeat = repeats::find_duplicate_key(frame);
    proof {
        assert forall|said: ParamsView| #[trigger] module::introduced(frame@, said) implies judged(
            json::parsed_json(frame@),
            repeats::document_repeat(frame@),
            expect@,
        ) == judged_params(module::HANDSHAKE_ID@, said, expect@) by {
            module::lemma_introduction_readable(said);
            assert(repeats::is_written(frame@, module::hello_value(said)));
            module::law_an_introduction_is_judged_as_it_was_said(
                said,
                json::parsed_json(frame@)->Ok_0,
                expect@,
            );
        }
    }
    judge(parsed, &repeat, expect)
}

// ---------------------------------------------------------------------------
// Answering
// ---------------------------------------------------------------------------

/// The id that a refused frame is answered under: none where the frame is no object, has a
/// repeated key in its envelope, or has no usable id.
pub open spec fn answerable_id(
    parsed: Result<JsonView, Seq<char>>,
    repeat: Option<Seq<Seq<char>>>,
) -> Option<Seq<char>> {
    match parsed {
        Ok(JsonView::Object(members)) => if repeat matches Some(path) && path.len() == 1 {
            None
        } else {
            match rpc::id_of_request(members) {
                rpc::IdView::Usable(id) => Some(id),
                _ => None,
            }
        },
        _ => None,
    }
}

/// The id that what was read is answered under.
pub fn find_id(parsed: &Result<Json, String>, repeat: &Option<Vec<String>>) -> (r: Option<String>)
    ensures
        rpc::id_view(r) == answerable_id(
            json::parsed_view(*parsed),
            repeats::path_view(*repeat),
        ),
{
    match parsed {
        Ok(Json::Object(members)) => {
            proof {
                json::lemma_object_view(*members);
            }
            match repeat {
                Some(path) => {
                    assert(text::views(path@).len() == path@.len());
                    if path.len() == 1 {
                        return None;
                    }
                },
                None => {},
            }
            match json::lookup(members, "id") {
                Some(Json::Text(s)) => if s.as_str().as_bytes().len() <= MAX_ID_BYTES {
                    Some(s.clone())
                } else {
                    None
                },
                _ => None,
            }
        },
        _ => None,
    }
}

/// The id of a first frame, if it has a usable one.
pub fn id_of(frame: &[u8]) -> (r: Option<String>)
    ensures
        rpc::id_view(r) == answerable_id(
            json::parsed_json(frame@),
            repeats::document_repeat(frame@),
        ),
{
    let parsed = json::parse(frame);
    let repeat = repeats::find_duplicate_key(frame);
    find_id(&parsed, &repeat)
}

/// The texts of a list, as an array.
pub open spec fn texts_json(texts: Seq<Seq<char>>) -> JsonView {
    JsonView::Array(Seq::new(texts.len(), |i: int| JsonView::Text(texts[i])))
}

pub(crate) fn texts_value(list: &Vec<String>) -> (r: Json)
    ensures
        r.view() == texts_json(text::views(list@)),
{
    let mut items: Vec<Json> = Vec::new();
    let mut i: usize = 0;
    while i < list.len()
        invariant
            i <= list@.len(),
            items@.len() == i,
            forall|j: int| 0 <= j < i ==> items@[j].view() == JsonView::Text(list@[j]@),
        decreases list@.len() - i,
    {
        items.push(Json::Text(list[i].clone()));
        i = i + 1;
    }
    proof {
        json::lemma_array_view(items);
        assert(json::items_view(items@) =~= texts_json(text::views(list@))->Array_0);
    }
    Json::Array(items)
}

impl AcceptedView {
    /// The response to a handshake that passed.
    pub open spec fn response(self) -> rpc::ResponseView {
        rpc::ResponseView {
            id: Some(self.id),
            outcome: Ok(
                JsonView::Object(
                    seq![
                        ("offer"@, JsonView::Object(seq![("provides"@, texts_json(self.provides))])),
                        (
                            "protocol_version"@,
                            JsonView::Number(text::decimal(self.protocol_version as nat)),
                        ),
                    ],
                ),
            ),
        }
    }
}

/// The line that answers a handshake that passed.
pub fn success_line(accepted: &Accepted) -> (r: Vec<u8>)
    ensures
        r@ == accepted@.response().line(),
{
    let mut offer: Vec<(String, Json)> = Vec::new();
    offer.push(("provides".to_owned(), texts_value(&accepted.result.offer.provides)));
    let ghost inner = json::members_view(offer@);
    proof {
        json::lemma_object_view(offer);
        assert(inner =~= seq![("provides"@, texts_json(accepted@.provides))]);
    }
    let mut result: Vec<(String, Json)> = Vec::new();
    result.push(("offer".to_owned(), Json::Object(offer)));
    result.push(
        (
            "protocol_version".to_owned(),
            Json::Number(text::decimal_string(accepted.result.protocol_version as u64)),
        ),
    );
    proof {
        json::lemma_object_view(result);
        assert(json::members_view(result@) =~= accepted@.response().outcome->Ok_0->Object_0);
    }
    Response { id: Some(accepted.id.clone()), outcome: Ok(Json::Object(result)) }.to_line()
}

/// The refusal as an error, with that message.
pub open spec fn refusal(error: HandshakeErrorView, message: Seq<char>) -> rpc::RpcErrorView {
    rpc::RpcErrorView { code: error.code(), message, kind: error.kind(), data: error.data() }
}

/// The id that a refusal is answered under: none that is over the limit is echoed.
pub open spec fn echoed(id: Option<Seq<char>>) -> Option<Seq<char>> {
    match id {
        Some(s) if text::byte_len(s) <= MAX_ID_BYTES => Some(s),
        _ => None,
    }
}

/// The line that answers a refused handshake. Its message, which can quote the module, is cut;
/// a line over the frame limit all the same is replaced by one that says less.
pub open spec fn refusal_line(id: Option<Seq<char>>, error: HandshakeErrorView) -> Seq<u8> {
    let message = text::clipped(error.text(), MAX_MESSAGE_BYTES - 3);
    let line = rpc::error_response(echoed(id), refusal(error, message)).line();
    if line.len() <= frame::MAX_FRAME_BYTES {
        line
    } else {
        rpc::error_response(echoed(id), refusal(error, "the handshake was refused"@)).line()
    }
}

/// The line that answers a refused handshake.
pub fn error_line(id: Option<&str>, error: &HandshakeError) -> (r: Vec<u8>)
    ensures
        r@ == refusal_line(
            match id {
                Some(s) => Some(s@),
                None => None,
            },
            error@,
        ),
{
    let message = text::clip_to(error.to_text().as_str(), MAX_MESSAGE_BYTES - 3);
    let line = refusal_response(id, error, message).to_line();
    if line.len() <= frame::MAX_FRAME_BYTES {
        line
    } else {
        refusal_response(id, error, "the handshake was refused".to_owned()).to_line()
    }
}

fn refusal_response(id: Option<&str>, error: &HandshakeError, message: String) -> (r: Response)
    ensures
        r@ == rpc::error_response(
            echoed(
                match id {
                    Some(s) => Some(s@),
                    None => None,
                },
            ),
            refusal(error@, message@),
        ),
{
    let id = match id {
        Some(s) => if s.as_bytes().len() <= MAX_ID_BYTES {
            Some(s.to_owned())
        } else {
            None
        },
        None => None,
    };
    Response {
        id,
        outcome: Err(
            RpcError {
                code: error.code(),
                message,
                kind: error.error_kind(),
                data: error.to_data(),
            },
        ),
    }
}

// ---------------------------------------------------------------------------
// What the handshake promises
// ---------------------------------------------------------------------------

/// Shape comes before secrets: a frame whose shape is refused is refused alike whatever the kernel
/// expects.
pub proof fn law_shape_is_judged_before_secrets(
    parsed: Result<JsonView, Seq<char>>,
    repeat: Option<Seq<Seq<char>>>,
    one: ExpectationView,
    other: ExpectationView,
)
    requires
        envelope_of(parsed, repeat) is Err || decoded(envelope_of(parsed, repeat)->Ok_0.1) is Err,
    ensures
        judged(parsed, repeat, one) is Err,
        judged(parsed, repeat, one) == judged(parsed, repeat, other),
{
}

/// A handshake passes only where the name, the digest and the secret are the expected ones and the
/// version is one that both sides speak.
pub proof fn law_only_the_expected_module_passes(
    parsed: Result<JsonView, Seq<char>>,
    repeat: Option<Seq<Seq<char>>>,
    expect: ExpectationView,
)
    ensures
        judged(parsed, repeat, expect) matches Ok(accepted) ==> {
            let params = decoded(envelope_of(parsed, repeat)->Ok_0.1)->Ok_0;
            &&& params.module == expect.module
            &&& params.manifest_digest == expect.manifest_digest
            &&& params.auth_token == expect.auth_token
            &&& params.protocol_versions matches Some(range) && range.has(
                accepted.protocol_version as int,
            )
            &&& expect.kernel_versions.has(accepted.protocol_version as int)
            &&& accepted.provides == expect.provides
        },
{
}

/// A module that declares no versions never passes.
pub proof fn law_undeclared_versions_never_pass(
    id: Seq<char>,
    params: ParamsView,
    expect: ExpectationView,
)
    requires
        params.protocol_versions is None,
    ensures
        judged_params(id, params, expect) is Err,
{
}

/// Two wrong secrets are refused alike: the refusal says nothing of either.
pub proof fn law_a_wrong_secret_is_no_oracle(
    id: Seq<char>,
    one: ParamsView,
    other: ParamsView,
    expect: ExpectationView,
)
    requires
        one.module == expect.module,
        one.manifest_digest == expect.manifest_digest,
        other.module == expect.module,
        other.manifest_digest == expect.manifest_digest,
        one.auth_token != expect.auth_token,
        other.auth_token != expect.auth_token,
    ensures
        judged_params(id, one, expect) == judged_params(id, other, expect),
        judged_params(id, one, expect) == Err::<AcceptedView, HandshakeErrorView>(
            HandshakeErrorView::AuthFailed,
        ),
{
}

/// A frame with a repeated key in its envelope is refused as no valid request, and answered under
/// no id.
pub proof fn law_an_ambiguous_handshake_is_answered_under_null(
    members: Seq<(Seq<char>, JsonView)>,
    key: Seq<char>,
    expect: ExpectationView,
)
    ensures
        judged(Ok(JsonView::Object(members)), Some(seq![key]), expect) matches Err(e) && e.code()
            == rpc::INVALID_REQUEST,
        answerable_id(Ok(JsonView::Object(members)), Some(seq![key])) is None,
{
}

/// The line of a refusal stays small, however much of the module it quotes: it always has its
/// message, and fits a frame many times over.
pub proof fn law_refusals_stay_small(id: Option<Seq<char>>, error: HandshakeErrorView)
    ensures
        refusal_line(id, error).len() <= 8192,
        refusal_line(id, error) == rpc::error_response(
            echoed(id),
            refusal(error, text::clipped(error.text(), MAX_MESSAGE_BYTES - 3)),
        ).line(),
{
    let message = text::clipped(error.text(), MAX_MESSAGE_BYTES - 3);
    text::law_clipped_is_bounded(error.text(), MAX_MESSAGE_BYTES - 3);
    let e = refusal(error, message);
    rpc::lemma_error_line_bound(echoed(id), e);
    lemma_refusal_data_bound(error);
    lemma_kind_bound(e);
}

proof fn lemma_range_bound(range: VersionRange)
    ensures
        json::size_bound(range_json(range)) <= 100,
{
    reveal_strlit("max");
    reveal_strlit("min");
    json::lemma_ascii_len("max"@);
    json::lemma_ascii_len("min"@);
    text::lemma_decimal_ascii(range.high() as nat);
    text::lemma_decimal_ascii(range.low() as nat);
    text::lemma_decimal_width(range.high() as nat);
    text::lemma_decimal_width(range.low() as nat);
    reveal_with_fuel(json::members_bound, 3);
    reveal_with_fuel(json::size_bound, 2);
    let members = range_json(range)->Object_0;
    assert(members[0] == ("max"@, JsonView::Number(text::decimal(range.high() as nat))));
    assert(members[1] == ("min"@, JsonView::Number(text::decimal(range.low() as nat))));
    assert(json::members_bound(members, 2) <= 6 * 3 + 4 + 10 + 6 * 3 + 4 + 10);
}

proof fn lemma_refusal_data_bound(error: HandshakeErrorView)
    ensures
        error.data() matches Some(data) ==> json::members_bound(data, data.len() as int) <= 400,
{
    reveal_strlit("module");
    reveal_strlit("kernel");
    json::lemma_ascii_len("module"@);
    json::lemma_ascii_len("kernel"@);
    let none = Seq::<(Seq<char>, JsonView)>::empty();
    assert(json::members_bound(none, 0) == 0);
    match error {
        HandshakeErrorView::VersionMismatch(VersionMismatch::NotDeclared { kernel }) => {
            lemma_range_bound(kernel);
            json::lemma_inserted_bound(none, "module"@, JsonView::Null);
            json::lemma_inserted_bound(
                json::inserted(none, "module"@, JsonView::Null),
                "kernel"@,
                range_json(kernel),
            );
        },
        HandshakeErrorView::VersionMismatch(VersionMismatch::NoOverlap { module, kernel }) => {
            lemma_range_bound(kernel);
            lemma_range_bound(module);
            json::lemma_inserted_bound(none, "module"@, range_json(module));
            json::lemma_inserted_bound(
                json::inserted(none, "module"@, range_json(module)),
                "kernel"@,
                range_json(kernel),
            );
        },
        _ => {},
    }
}

proof fn lemma_kind_bound(e: rpc::RpcErrorView)
    requires
        e.data matches Some(data) ==> json::members_bound(data, data.len() as int) <= 400,
    ensures
        json::members_bound(e.data_members(), e.data_members().len() as int) <= 1000,
{
    let others = match e.data {
        Some(members) => members,
        None => Seq::empty(),
    };
    assert(json::members_bound(Seq::<(Seq<char>, JsonView)>::empty(), 0) == 0);
    match e.kind {
        Some(kind) => {
            reveal_strlit("kind");
            json::lemma_ascii_len("kind"@);
            rpc::lemma_kind_is_short(kind);
            json::lemma_inserted_bound(others, "kind"@, JsonView::Text(kind.wire()));
        },
        None => {},
    }
}

// ---------------------------------------------------------------------------
// What the handshake reads and says
// ---------------------------------------------------------------------------

/// Exactly an `initialize` request without repeated keys is read as a handshake: a request with a
/// usable id and with params, whatever these hold. Its id and its params are handed on as they are.
pub proof fn law_exactly_an_initialize_request_is_read(
    members: Seq<(Seq<char>, JsonView)>,
    repeat: Option<Seq<Seq<char>>>,
)
    ensures
        ({
            let read = envelope_of(Ok(JsonView::Object(members)), repeat);
            let id = json::member(members, "id"@)->Some_0->Text_0;
            let initializes = {
                &&& rpc::is_well_made(members)
                &&& json::member(members, "method"@) == Some(JsonView::Text("initialize"@))
                &&& json::member(members, "id"@) matches Some(JsonView::Text(_))
                &&& vstd::utf8::encode_utf8(id).len() <= 256
                &&& !rpc::repeats_at(repeat, false)
            };
            let params = json::member(members, "params"@);
            &&& read is Ok <==> initializes && params is Some && repeat is None
            &&& read matches Ok((i, p)) ==> i == id && Some(p) == params
            &&& read matches Err(e) ==> {
                &&& e is BadParams <==> initializes
                &&& e is NotInitialize <==> !initializes
            }
        }),
{
    rpc::lemma_unknown_member(members);
}

/// Text that is no JSON is told so, and JSON that is no object is no `initialize` request.
pub proof fn law_what_is_no_object_is_no_handshake(
    error: Seq<char>,
    v: JsonView,
    repeat: Option<Seq<Seq<char>>>,
)
    ensures
        envelope_of(Err(error), repeat) == Err::<(Seq<char>, JsonView), HandshakeErrorView>(
            HandshakeErrorView::Parse(error),
        ),
        !(v is Object) ==> envelope_of(Ok(v), repeat) == Err::<
            (Seq<char>, JsonView),
            HandshakeErrorView,
        >(HandshakeErrorView::NotInitialize("a frame that is not a request object"@)),
{
}

/// A module is accepted exactly if it names itself, its manifest and its secret as they are expected
/// and speaks a version that the kernel speaks. It is then answered under its own id with the highest
/// such version and with all that the kernel offers. Else it is told of its manifest first, then of
/// its secret, and of the versions last.
pub proof fn law_exactly_the_expected_module_is_accepted(
    id: Seq<char>,
    params: ParamsView,
    expect: ExpectationView,
)
    requires
        params.protocol_versions matches Some(range) ==> range.low() <= range.high(),
        expect.kernel_versions.low() <= expect.kernel_versions.high(),
    ensures
        ({
            let judgement = judged_params(id, params, expect);
            let kernel = expect.kernel_versions;
            let same = params.module == expect.module && params.manifest_digest
                == expect.manifest_digest;
            let known = params.auth_token == expect.auth_token;
            let shared = params.protocol_versions matches Some(range) && range.low()
                <= kernel.high() && kernel.low() <= range.high();
            &&& judgement is Ok <==> same && known && shared
            &&& judgement matches Ok(accepted) ==> {
                &&& accepted.id == id
                &&& accepted.provides == expect.provides
                &&& accepted.protocol_version == if params.protocol_versions->Some_0.high()
                    <= kernel.high() {
                    params.protocol_versions->Some_0.high()
                } else {
                    kernel.high()
                }
            }
            &&& judgement matches Err(e) ==> {
                &&& e is ManifestMismatch <==> !same
                &&& e is AuthFailed <==> same && !known
                &&& e is VersionMismatch <==> same && known
            }
            &&& judgement matches Err(HandshakeErrorView::ManifestMismatch { expected, got }) ==> {
                &&& expected == expect.module + seq!['@'] + expect.manifest_digest
                &&& got == params.module + seq!['@'] + params.manifest_digest
            }
            &&& judgement matches Err(HandshakeErrorView::VersionMismatch(e)) ==> e == (
            match params.protocol_versions {
                Some(module) => VersionMismatch::NoOverlap { module, kernel },
                None => VersionMismatch::NotDeclared { kernel },
            })
        }),
{
    if let Some(range) = params.protocol_versions {
        version::law_the_highest_shared_version_is_settled(range, expect.kernel_versions);
    } else {
        version::law_the_highest_shared_version_is_settled(
            expect.kernel_versions,
            expect.kernel_versions,
        );
    }
    reveal_strlit("@");
    assert("@"@ =~= seq!['@']);
}

/// A frame is judged by its params only where it is an `initialize` request and these can be read.
pub proof fn law_a_frame_is_judged_by_its_params(
    parsed: Result<JsonView, Seq<char>>,
    repeat: Option<Seq<Seq<char>>>,
    expect: ExpectationView,
)
    ensures
        envelope_of(parsed, repeat) matches Err(e) ==> judged(parsed, repeat, expect) == Err::<
            AcceptedView,
            HandshakeErrorView,
        >(e),
        envelope_of(parsed, repeat) matches Ok((id, params)) ==> {
            &&& decoded(params) matches Ok(said) ==> judged(parsed, repeat, expect)
                == judged_params(id, said, expect)
            &&& decoded(params) matches Err(e) ==> judged(parsed, repeat, expect) == Err::<
                AcceptedView,
                HandshakeErrorView,
            >(HandshakeErrorView::BadParams(e))
        },
{
}

/// The codes and the kinds of refusals, and what they say in words.
pub proof fn law_the_words_of_refusals(
    a: Seq<char>,
    b: Seq<char>,
    module: VersionRange,
    kernel: VersionRange,
)
    ensures
        ({
            let parse = HandshakeErrorView::Parse(a);
            let other = HandshakeErrorView::NotInitialize(a);
            let params = HandshakeErrorView::BadParams(a);
            let secret = HandshakeErrorView::AuthFailed;
            let manifest = HandshakeErrorView::ManifestMismatch { expected: a, got: b };
            let none = HandshakeErrorView::VersionMismatch(VersionMismatch::NotDeclared { kernel });
            let apart = HandshakeErrorView::VersionMismatch(
                VersionMismatch::NoOverlap { module, kernel },
            );
            &&& parse.code() == -32700 && other.code() == -32600 && params.code() == -32602
            &&& secret.code() == -32000 && manifest.code() == -32000 && none.code() == -32000
                && apart.code() == -32000
            &&& parse.kind() is None && other.kind() is None && params.kind() is None
            &&& secret.kind() matches Some(kind) && kind.wire() == "auth_failed"@
            &&& manifest.kind() matches Some(kind) && kind.wire() == "manifest_mismatch"@
            &&& none.kind() matches Some(kind) && kind.wire() == "version_mismatch"@
            &&& apart.kind() matches Some(kind) && kind.wire() == "version_mismatch"@
            &&& parse.text() == "the first frame is not valid JSON: "@ + a
            &&& other.text() == "the first frame must be an `initialize` request, got "@ + a
            &&& params.text() == "`initialize` params are not usable: "@ + a
            &&& secret.text() == "authentication failed"@
            &&& manifest.text() == "the module read a different manifest: kernel has "@ + a
                + ", module reports "@ + b
            &&& none.text() == (VersionMismatch::NotDeclared { kernel }).text()
            &&& apart.text() == (VersionMismatch::NoOverlap { module, kernel }).text()
            &&& parse.data() is None && other.data() is None && params.data() is None
            &&& secret.data() is None && manifest.data() is None
        }),
{
}

/// The members of a range.
pub open spec fn says_range(v: JsonView, range: VersionRange) -> bool {
    v matches JsonView::Object(members) && {
        &&& members.len() == 2
        &&& json::member(members, "min"@) == Some(
            JsonView::Number(text::decimal(range.low() as nat)),
        )
        &&& json::member(members, "max"@) == Some(
            JsonView::Number(text::decimal(range.high() as nat)),
        )
    }
}

/// A refusal for the versions says which each side speaks, and nothing else.
pub proof fn law_a_version_refusal_says_both_ranges(module: VersionRange, kernel: VersionRange)
    ensures
        HandshakeErrorView::VersionMismatch(
            VersionMismatch::NotDeclared { kernel },
        ).data() matches Some(data) && {
            &&& data.len() == 2
            &&& json::member(data, "module"@) == Some(JsonView::Null)
            &&& json::member(data, "kernel"@) matches Some(v) && says_range(v, kernel)
        },
        HandshakeErrorView::VersionMismatch(
            VersionMismatch::NoOverlap { module, kernel },
        ).data() matches Some(data) && {
            &&& data.len() == 2
            &&& json::member(data, "module"@) matches Some(v) && says_range(v, module)
            &&& json::member(data, "kernel"@) matches Some(v) && says_range(v, kernel)
        },
{
    reveal_strlit("module");
    reveal_strlit("kernel");
    assert("module"@[0] == 'm' && "kernel"@[0] == 'k');
    lemma_says_range(module);
    lemma_says_range(kernel);
    lemma_two_inserted("module"@, JsonView::Null, "kernel"@, range_json(kernel));
    lemma_two_inserted("module"@, range_json(module), "kernel"@, range_json(kernel));
}

proof fn lemma_two_inserted(a: Seq<char>, x: JsonView, b: Seq<char>, y: JsonView)
    requires
        a != b,
    ensures
        ({
            let data = json::inserted(json::inserted(Seq::empty(), a, x), b, y);
            &&& data.len() == 2
            &&& json::member(data, a) == Some(x)
            &&& json::member(data, b) == Some(y)
        }),
{
    let none = Seq::<(Seq<char>, JsonView)>::empty();
    let one = json::inserted(none, a, x);
    json::law_inserting_adds_one_member_at_most(none, a, x);
    json::law_inserting_keeps_the_order(none, a, x);
    json::law_inserted_member_is_found(none, a, x, a);
    json::law_inserted_member_is_found(none, a, x, b);
    json::law_inserting_adds_one_member_at_most(one, b, y);
    json::law_inserted_member_is_found(one, b, y, a);
    json::law_inserted_member_is_found(one, b, y, b);
    json::lemma_member(none, b);
    json::lemma_member(one, b);
}

proof fn lemma_says_range(range: VersionRange)
    ensures
        says_range(range_json(range), range),
{
    reveal_strlit("min");
    reveal_strlit("max");
    assert("min"@[1] == 'i' && "max"@[1] == 'a');
    let members = range_json(range)->Object_0;
    assert(members.drop_first()[0] == members[1]);
    assert(json::member(members.drop_first(), "min"@) == Some(members[1].1));
}

/// A frame is answered under its id exactly where it has one that can be echoed: a text of no more
/// than 256 bytes in an object whose keys do not repeat.
pub proof fn law_only_a_clear_id_is_echoed(
    parsed: Result<JsonView, Seq<char>>,
    repeat: Option<Seq<Seq<char>>>,
    id: Seq<char>,
)
    ensures
        answerable_id(parsed, repeat) == Some(id) <==> {
            &&& !rpc::repeats_at(repeat, false)
            &&& parsed matches Ok(JsonView::Object(members)) && json::member(members, "id"@)
                == Some(JsonView::Text(id))
            &&& vstd::utf8::encode_utf8(id).len() <= 256
        },
        echoed(Some(id)) == if vstd::utf8::encode_utf8(id).len() <= 256 {
            Some(id)
        } else {
            None
        },
        echoed(None) is None,
{
}

/// An acceptance is answered under the id that was asked under, with the version to speak and with
/// what is offered.
pub proof fn law_an_acceptance_says_version_and_offer(accepted: AcceptedView)
    ensures
        accepted.response().id == Some(accepted.id),
        accepted.response().outcome matches Ok(JsonView::Object(members)) && {
            &&& members.len() == 2
            &&& json::member(members, "protocol_version"@) == Some(
                JsonView::Number(text::decimal(accepted.protocol_version as nat)),
            )
            &&& json::member(members, "offer"@) matches Some(JsonView::Object(offer)) && {
                &&& offer.len() == 1
                &&& json::member(offer, "provides"@) matches Some(JsonView::Array(items)) && {
                    &&& items.len() == accepted.provides.len()
                    &&& forall|i: int|
                        0 <= i < items.len() ==> #[trigger] items[i] == JsonView::Text(
                            accepted.provides[i],
                        )
                }
            }
        },
{
    reveal_strlit("protocol_version");
    reveal_strlit("offer");
    assert("protocol_version"@.len() == 16 && "offer"@.len() == 5);
    let members = accepted.response().outcome->Ok_0->Object_0;
    assert(members.drop_first()[0] == members[1]);
    assert(json::member(members.drop_first(), "protocol_version"@) == Some(members[1].1));
}

/// A method is offered exactly if one of the prefixes is its beginning.
pub proof fn law_a_method_is_offered_by_its_prefix(prefixes: Seq<Seq<char>>, method: Seq<char>)
    ensures
        offered(prefixes, method) <==> exists|i: int, rest: Seq<char>|
            0 <= i < prefixes.len() && method == #[trigger] (prefixes[i] + rest),
{
    if offered(prefixes, method) {
        let i = choose|i: int|
            0 <= i < prefixes.len() && text::starts_with(method, #[trigger] prefixes[i]);
        let rest = method.skip(prefixes[i].len() as int);
        assert(method =~= prefixes[i] + rest);
    }
    if exists|i: int, rest: Seq<char>|
        0 <= i < prefixes.len() && method == #[trigger] (prefixes[i] + rest) {
        let (i, rest) = choose|i: int, rest: Seq<char>|
            0 <= i < prefixes.len() && method == #[trigger] (prefixes[i] + rest);
        assert(method.take(prefixes[i].len() as int) =~= prefixes[i]);
    }
}

/// A refusal carries the code, the kind and the details of its error, and says it in words, as far as
/// 512 bytes of them go.
pub proof fn law_a_refusal_says_its_error(id: Option<Seq<char>>, error: HandshakeErrorView)
    ensures
        ({
            let said = rpc::RpcErrorView {
                code: error.code(),
                message: text::clipped(error.text(), 509),
                kind: error.kind(),
                data: error.data(),
            };
            refusal_line(id, error) == (rpc::ResponseView {
                id: echoed(id),
                outcome: Err(said),
            }).line()
        }),
{
    law_refusals_stay_small(id, error);
}

/// A version is a whole number that fits, written in decimal.
pub proof fn law_a_version_is_a_number_that_fits(v: JsonView, k: u32)
    ensures
        version_of(v) == Ok::<u32, Seq<char>>(k) <==> v == JsonView::Number(
            text::decimal(k as nat),
        ),
        version_of(v) is Ok <==> exists|n: u32|
            v == JsonView::Number(#[trigger] text::decimal(n as nat)),
{
    if let JsonView::Number(n) = v {
        text::law_what_is_read_as_a_number_writes_it(n, k as nat);
        if let Ok(m) = version_of(v) {
            text::law_what_is_read_as_a_number_writes_it(n, m as nat);
        }
        if exists|m: u32| v == JsonView::Number(#[trigger] text::decimal(m as nat)) {
            let m = choose|m: u32| v == JsonView::Number(#[trigger] text::decimal(m as nat));
            text::law_what_is_read_as_a_number_writes_it(n, m as nat);
        }
    }
}

/// A list of texts is an array that holds nothing else, and is read in order.
pub proof fn law_a_list_holds_texts_alone(v: JsonView)
    ensures
        texts_of(v) is Ok <==> {
            &&& v is Array
            &&& forall|i: int| 0 <= i < v->Array_0.len() ==> #[trigger] v->Array_0[i] is Text
        },
        texts_of(v) matches Ok(list) ==> {
            &&& list.len() == v->Array_0.len()
            &&& forall|i: int|
                0 <= i < list.len() ==> v->Array_0[i] == JsonView::Text(#[trigger] list[i])
        },
{
    if let JsonView::Array(items) = v {
        lemma_texts_from(items, Seq::empty());
    }
}

proof fn lemma_texts_from(items: Seq<JsonView>, before: Seq<Seq<char>>)
    ensures
        texts_from(items, before) is Ok <==> forall|i: int|
            0 <= i < items.len() ==> #[trigger] items[i] is Text,
        texts_from(items, before) matches Ok(list) ==> {
            &&& list.len() == before.len() + items.len()
            &&& forall|i: int| 0 <= i < before.len() ==> #[trigger] list[i] == before[i]
            &&& forall|i: int|
                before.len() <= i < list.len() ==> items[i - before.len()] == JsonView::Text(
                    #[trigger] list[i],
                )
        },
    decreases items.len(),
{
    if items.len() > 0 {
        let rest = items.drop_first();
        if let JsonView::Text(s) = items[0] {
            lemma_texts_from(rest, before.push(s));
            assert(forall|i: int| 0 <= i < rest.len() ==> rest[i] == #[trigger] items[i + 1]);
            if texts_from(rest, before.push(s)) is Ok {
                assert forall|i: int| 0 <= i < items.len() implies #[trigger] items[i] is Text by {
                    if i > 0 {
                        assert(rest[i - 1] == items[i]);
                    }
                }
                let list = texts_from(items, before)->Ok_0;
                assert forall|i: int| before.len() <= i < list.len() implies items[i - before.len()]
                    == JsonView::Text(#[trigger] list[i]) by {
                    if i == before.len() {
                        assert(list[i] == before.push(s)[i]);
                    } else {
                        assert(rest[i - before.len() - 1] == items[i - before.len()]);
                    }
                }
                assert forall|i: int| 0 <= i < before.len() implies #[trigger] list[i]
                    == before[i] by {
                    assert(list[i] == before.push(s)[i]);
                }
            } else if forall|i: int| 0 <= i < items.len() ==> #[trigger] items[i] is Text {
                assert forall|i: int| 0 <= i < rest.len() implies #[trigger] rest[i] is Text by {
                    assert(items[i + 1] is Text);
                }
            }
        }
    }
}

/// Whether no key is there twice.
pub open spec fn keys_differ(members: Seq<(Seq<char>, JsonView)>) -> bool {
    forall|i: int, j: int|
        0 <= i < j < members.len() ==> (#[trigger] members[i]).0 != (#[trigger] members[j]).0
}

pub(crate) proof fn lemma_first_of_its_key(members: Seq<(Seq<char>, JsonView)>)
    requires
        members.len() > 0,
        keys_differ(members),
    ensures
        keys_differ(members.drop_first()),
        json::member(members.drop_first(), members[0].0) is None,
        forall|key: Seq<char>|
            key != members[0].0 ==> #[trigger] json::member(members, key) == json::member(
                members.drop_first(),
                key,
            ),
{
    let rest = members.drop_first();
    assert forall|i: int, j: int| 0 <= i < j < rest.len() implies (#[trigger] rest[i]).0 != (
    #[trigger] rest[j]).0 by {
        assert(rest[i] == members[i + 1] && rest[j] == members[j + 1]);
    }
    json::lemma_member(rest, members[0].0);
    if json::has_member(rest, members[0].0) {
        let i = choose|i: int| 0 <= i < rest.len() && (#[trigger] rest[i]).0 == members[0].0;
        assert(rest[i] == members[i + 1]);
        assert(members[0].0 != members[i + 1].0);
    }
}

/// Whether each key is one that a range has.
pub open spec fn only_range_members(members: Seq<(Seq<char>, JsonView)>) -> bool {
    forall|i: int|
        0 <= i < members.len() ==> (#[trigger] members[i]).0 == "min"@ || members[i].0 == "max"@
}

proof fn lemma_range_from(members: Seq<(Seq<char>, JsonView)>, min: Option<u32>, max: Option<u32>)
    requires
        keys_differ(members),
    ensures
        ({
            let low = json::member(members, "min"@);
            let high = json::member(members, "max"@);
            let a = match low {
                Some(v) => version_of(v)->Ok_0,
                None => min->Some_0,
            };
            let b = match high {
                Some(v) => version_of(v)->Ok_0,
                None => max->Some_0,
            };
            let read = range_from(members, min, max);
            &&& read is Ok <==> {
                &&& only_range_members(members)
                &&& low is Some || min is Some
                &&& high is Some || max is Some
                &&& low matches Some(v) ==> version_of(v) is Ok
                &&& high matches Some(v) ==> version_of(v) is Ok
                &&& a <= b
            }
            &&& read matches Ok(range) ==> range == VersionRange::from_to(a, b)
        }),
    decreases members.len(),
{
    reveal_strlit("min");
    reveal_strlit("max");
    assert("min"@[1] == 'i' && "max"@[1] == 'a');
    if members.len() > 0 {
        let rest = members.drop_first();
        lemma_first_of_its_key(members);
        if only_range_members(members) {
            assert forall|i: int| 0 <= i < rest.len() implies (#[trigger] rest[i]).0 == "min"@
                || rest[i].0 == "max"@ by {
                assert(rest[i] == members[i + 1]);
            }
        }
        if only_range_members(rest) && (members[0].0 == "min"@ || members[0].0 == "max"@) {
            assert forall|i: int| 0 <= i < members.len() implies (#[trigger] members[i]).0
                == "min"@ || members[i].0 == "max"@ by {
                if i > 0 {
                    assert(rest[i - 1] == members[i]);
                }
            }
        }
        if members[0].0 == "min"@ {
            if let Ok(n) = version_of(members[0].1) {
                lemma_range_from(rest, Some(n), max);
            }
        } else if members[0].0 == "max"@ {
            if let Ok(n) = version_of(members[0].1) {
                lemma_range_from(rest, min, Some(n));
            }
        }
    }
}

/// Versions that a module declares: a lowest and a highest one, the highest no lower, and nothing
/// else; or nothing, where it declares none.
pub proof fn law_a_range_is_read_as_it_says(v: JsonView)
    requires
        v matches JsonView::Object(members) ==> keys_differ(members),
    ensures
        range_of(v) == Ok::<Option<VersionRange>, Seq<char>>(None) <==> v is Null,
        ({
            let members = v->Object_0;
            let low = json::member(members, "min"@);
            let high = json::member(members, "max"@);
            &&& (range_of(v) matches Ok(Some(_))) <==> {
                &&& v is Object
                &&& only_range_members(members)
                &&& low is Some && version_of(low->Some_0) is Ok
                &&& high is Some && version_of(high->Some_0) is Ok
                &&& version_of(low->Some_0)->Ok_0 <= version_of(high->Some_0)->Ok_0
            }
            &&& range_of(v) matches Ok(Some(range)) ==> {
                &&& low == Some(JsonView::Number(text::decimal(range.low() as nat)))
                &&& high == Some(JsonView::Number(text::decimal(range.high() as nat)))
            }
        }),
{
    if let JsonView::Object(members) = v {
        lemma_range_from(members, None, None);
        if let Ok(Some(range)) = range_of(v) {
            let low = json::member(members, "min"@)->Some_0;
            let high = json::member(members, "max"@)->Some_0;
            let a = version_of(low)->Ok_0;
            let b = version_of(high)->Ok_0;
            law_a_version_is_a_number_that_fits(low, a);
            law_a_version_is_a_number_that_fits(high, b);
            version::law_a_range_holds_its_ends(a, b, 0);
        }
    }
}

/// Whether a member of the params can be read for what it is.
pub open spec fn is_readable(key: Seq<char>, value: JsonView) -> bool {
    if key == "module"@ || key == "manifest_digest"@ || key == "auth_token"@ {
        value is Text
    } else if key == "capabilities"@ {
        texts_of(value) is Ok
    } else {
        key == "protocol_versions"@ && range_of(value) is Ok
    }
}

/// Whether each member of the params can be read.
pub open spec fn all_readable(members: Seq<(Seq<char>, JsonView)>) -> bool {
    forall|i: int|
        0 <= i < members.len() ==> is_readable((#[trigger] members[i]).0, members[i].1)
}

proof fn lemma_with_members(read: PartialView, members: Seq<(Seq<char>, JsonView)>)
    requires
        keys_differ(members),
    ensures
        with_members(read, members) is Ok <==> all_readable(members),
        with_members(read, members) matches Ok(out) ==> {
            &&& out.module == match json::member(members, "module"@) {
                Some(v) => Some(v->Text_0),
                None => read.module,
            }
            &&& out.manifest_digest == match json::member(members, "manifest_digest"@) {
                Some(v) => Some(v->Text_0),
                None => read.manifest_digest,
            }
            &&& out.auth_token == match json::member(members, "auth_token"@) {
                Some(v) => Some(v->Text_0),
                None => read.auth_token,
            }
            &&& out.capabilities == match json::member(members, "capabilities"@) {
                Some(v) => Some(texts_of(v)->Ok_0),
                None => read.capabilities,
            }
            &&& out.protocol_versions == match json::member(members, "protocol_versions"@) {
                Some(v) => range_of(v)->Ok_0,
                None => read.protocol_versions,
            }
        },
    decreases members.len(),
{
    module::lemma_names_differ();
    if members.len() > 0 {
        let rest = members.drop_first();
        lemma_first_of_its_key(members);
        assert(with_member(read, members[0].0, members[0].1) is Ok <==> is_readable(
            members[0].0,
            members[0].1,
        ));
        if all_readable(members) {
            assert forall|i: int| 0 <= i < rest.len() implies is_readable(
                (#[trigger] rest[i]).0,
                rest[i].1,
            ) by {
                assert(rest[i] == members[i + 1]);
            }
        }
        if all_readable(rest) && is_readable(members[0].0, members[0].1) {
            assert forall|i: int| 0 <= i < members.len() implies is_readable(
                (#[trigger] members[i]).0,
                members[i].1,
            ) by {
                if i > 0 {
                    assert(rest[i - 1] == members[i]);
                }
            }
        }
        if let Ok(next) = with_member(read, members[0].0, members[0].1) {
            lemma_with_members(next, rest);
        }
    }
}

/// Params that are an object are read exactly if every member has one of the five names and can be
/// read, and if the name, the digest and the secret are there. Each is read from the member of its own
/// name; without `capabilities` nothing is asked for, and without versions none are declared.
pub proof fn law_params_are_read_by_their_names(members: Seq<(Seq<char>, JsonView)>)
    requires
        keys_differ(members),
    ensures
        ({
            let read = decoded(JsonView::Object(members));
            &&& read is Ok <==> {
                &&& all_readable(members)
                &&& json::member(members, "module"@) is Some
                &&& json::member(members, "manifest_digest"@) is Some
                &&& json::member(members, "auth_token"@) is Some
            }
            &&& read matches Ok(params) ==> {
                &&& json::member(members, "module"@) == Some(JsonView::Text(params.module))
                &&& json::member(members, "manifest_digest"@) == Some(
                    JsonView::Text(params.manifest_digest),
                )
                &&& json::member(members, "auth_token"@) == Some(
                    JsonView::Text(params.auth_token),
                )
                &&& match json::member(members, "capabilities"@) {
                    Some(v) => texts_of(v) == Ok::<Seq<Seq<char>>, Seq<char>>(
                        params.capabilities,
                    ),
                    None => params.capabilities.len() == 0,
                }
                &&& match json::member(members, "protocol_versions"@) {
                    Some(v) => range_of(v) == Ok::<Option<VersionRange>, Seq<char>>(
                        params.protocol_versions,
                    ),
                    None => params.protocol_versions is None,
                }
            }
        }),
{
    lemma_with_members(nothing_read(), members);
    if all_readable(members) {
        lemma_found_readable(members, "module"@);
        lemma_found_readable(members, "manifest_digest"@);
        lemma_found_readable(members, "auth_token"@);
        lemma_found_readable(members, "capabilities"@);
        lemma_found_readable(members, "protocol_versions"@);
        module::lemma_names_differ();
    }
}

proof fn lemma_found_readable(members: Seq<(Seq<char>, JsonView)>, key: Seq<char>)
    requires
        all_readable(members),
    ensures
        json::member(members, key) matches Some(v) ==> is_readable(key, v),
{
    json::law_a_member_is_the_first_under_its_key(members, key);
}

/// Params that are an array are read by position: versions, name, digest, secret, and what is asked
/// for, which alone may be left out.
pub proof fn law_params_are_read_by_their_place(items: Seq<JsonView>)
    ensures
        ({
            let read = decoded(JsonView::Array(items));
            &&& read is Ok <==> {
                &&& 4 <= items.len() <= 5
                &&& range_of(items[0]) is Ok
                &&& items[1] is Text && items[2] is Text && items[3] is Text
                &&& items.len() == 5 ==> texts_of(items[4]) is Ok
            }
            &&& read matches Ok(params) ==> {
                &&& range_of(items[0]) == Ok::<Option<VersionRange>, Seq<char>>(
                    params.protocol_versions,
                )
                &&& items[1] == JsonView::Text(params.module)
                &&& items[2] == JsonView::Text(params.manifest_digest)
                &&& items[3] == JsonView::Text(params.auth_token)
                &&& if items.len() == 5 {
                    texts_of(items[4]) == Ok::<Seq<Seq<char>>, Seq<char>>(params.capabilities)
                } else {
                    params.capabilities.len() == 0
                }
            }
        }),
{
    module::lemma_names_differ();
    let members = positional(items);
    lemma_with_members(nothing_read(), members);
    if 4 <= items.len() <= 5 {
        assert(members[0] == ("protocol_versions"@, items[0]));
        assert(members[1] == ("module"@, items[1]));
        assert(members[2] == ("manifest_digest"@, items[2]));
        assert(members[3] == ("auth_token"@, items[3]));
        if items.len() == 5 {
            assert(members[4] == ("capabilities"@, items[4]));
        }
        lemma_only_under(members, 0);
        lemma_only_under(members, 1);
        lemma_only_under(members, 2);
        lemma_only_under(members, 3);
        if items.len() == 5 {
            lemma_only_under(members, 4);
        } else {
            json::lemma_member(members, "capabilities"@);
        }
    }
}

pub(crate) proof fn lemma_only_under(members: Seq<(Seq<char>, JsonView)>, i: int)
    requires
        keys_differ(members),
        0 <= i < members.len(),
    ensures
        json::member(members, members[i].0) == Some(members[i].1),
{
    json::law_a_member_is_the_first_under_its_key(members, members[i].0);
}

/// What a first frame that is no `initialize` request is told, the first thing that is wrong with it.
pub proof fn law_what_a_bad_first_frame_is_told(
    members: Seq<(Seq<char>, JsonView)>,
    repeat: Option<Seq<Seq<char>>>,
)
    ensures
        ({
            let read = envelope_of(Ok(JsonView::Object(members)), repeat);
            let clear = !rpc::repeats_at(repeat, false);
            let plain = clear && rpc::only_request_members(members);
            let spoken = plain && json::member(members, "jsonrpc"@) == Some(
                JsonView::Text("2.0"@),
            );
            let method = json::member(members, "method"@);
            let id = json::member(members, "id"@);
            let asks = spoken && method == Some(JsonView::Text("initialize"@));
            &&& read matches Err(HandshakeErrorView::NotInitialize(told)) ==> {
                &&& !clear ==> told == "a repeated `"@ + text::clipped(repeat->Some_0[0], 128)
                    + "`"@
                &&& clear && !plain ==> exists|i: int|
                    {
                        &&& 0 <= i < members.len()
                        &&& told == "an unknown member `"@ + text::clipped(
                            (#[trigger] members[i]).0,
                            128,
                        ) + "`"@
                    }
                &&& plain && !spoken ==> told == "a `jsonrpc` that is not \"2.0\""@
                &&& spoken && !(method matches Some(JsonView::Text(_))) ==> told
                    == "a frame with no string `method`"@
                &&& spoken && !asks ==> (method matches Some(JsonView::Text(named)) ==> told
                    == "method "@ + text::debug_text(text::clipped(named, 128)))
                &&& asks && id is None ==> told == "a frame with no `id`"@
                &&& asks && id is Some && !(id matches Some(JsonView::Text(_))) ==> told
                    == "an id that is not a string"@
                &&& asks ==> (id matches Some(JsonView::Text(_)) ==> told
                    == "an id longer than "@ + text::decimal(256) + " bytes"@)
            }
            &&& read matches Err(HandshakeErrorView::BadParams(told)) ==> {
                &&& json::member(members, "params"@) is None ==> told == "no `params`"@
                &&& json::member(members, "params"@) is Some ==> told == "a repeated key `"@
                    + text::clipped(text::joined(repeat->Some_0, seq!['.']), 128) + "`"@
            }
        }),
{
    reveal_strlit(".");
    assert("."@ =~= seq!['.']);
    rpc::lemma_unknown_member(members);
    if let Some(key) = rpc::unknown_member(members) {
        let i = choose|i: int| 0 <= i < members.len() && (#[trigger] members[i]).0 == key;
        assert(members[i].0 == key);
    }
}

/// What is said of a value that is of the wrong kind.
pub proof fn law_a_wrong_value_is_described(v: JsonView, expected: Seq<char>)
    ensures
        wrong_type(v, expected) == "invalid type: "@ + described(v) + ", expected "@ + expected,
        match v {
            JsonView::Null => described(v) == "null"@,
            JsonView::Bool(b) => described(v) == if b {
                "boolean `true`"@
            } else {
                "boolean `false`"@
            },
            JsonView::Number(n) => {
                &&& is_fraction(n) ==> described(v) == "floating point `"@ + n + "`"@
                &&& !is_fraction(n) ==> described(v) == "integer `"@ + n + "`"@
            },
            JsonView::Text(s) => described(v) == "string "@ + text::debug_text(s),
            JsonView::Array(_) => described(v) == "sequence"@,
            JsonView::Object(_) => described(v) == "map"@,
        },
{
}

/// Whether a number is written with a fraction or an exponent.
pub open spec fn has_fraction_or_exponent(number: Seq<char>) -> bool {
    exists|i: int|
        {
            &&& 0 <= i < number.len()
            &&& #[trigger] number[i] == '.' || number[i] == 'e' || number[i] == 'E'
        }
}

/// What is said of a member that cannot be read.
pub proof fn law_what_an_unreadable_value_is_told(v: JsonView, key: Seq<char>, read: PartialView)
    ensures
        text_of(v) matches Err(told) ==> told == "invalid type: "@ + described(v)
            + ", expected a string"@,
        !(v is Array) ==> texts_of(v) == Err::<Seq<Seq<char>>, Seq<char>>(
            "invalid type: "@ + described(v) + ", expected a sequence"@,
        ),
        !(v is Object) && !(v is Null) ==> range_of(v) == Err::<Option<VersionRange>, Seq<char>>(
            "invalid type: "@ + described(v) + ", expected struct VersionRange"@,
        ),
        version_of(v) matches Err(told) ==> {
            &&& !(v is Number) || is_fraction(v->Number_0) ==> told == "invalid type: "@
                + described(v) + ", expected u32"@
            &&& v is Number && !is_fraction(v->Number_0) ==> told == "invalid value: integer `"@
                + v->Number_0 + "`, expected u32"@
        },
        !(v is Object) && !(v is Array) ==> decoded(v) == Err::<ParamsView, Seq<char>>(
            "invalid type: "@ + described(v) + ", expected struct InitializeParams"@,
        ),
        key != "protocol_versions"@ && key != "module"@ && key != "manifest_digest"@ && key
            != "auth_token"@ && key != "capabilities"@ ==> with_member(read, key, v) == Err::<
            PartialView,
            Seq<char>,
        >(
            "unknown field `"@ + key
                + "`, expected one of `protocol_versions`, `module`, `manifest_digest`, `auth_token`, `capabilities`"@,
        ),
        key != "min"@ && key != "max"@ ==> range_of(JsonView::Object(seq![(key, v)])) == Err::<
            Option<VersionRange>,
            Seq<char>,
        >("unknown field `"@ + key + "`, expected `min` or `max`"@),
{
    reveal_strlit(", expected ");
    reveal_strlit("a string");
    reveal_strlit(", expected a string");
    assert(", expected "@ + "a string"@ =~= ", expected a string"@);
    reveal_strlit("a sequence");
    reveal_strlit(", expected a sequence");
    assert(", expected "@ + "a sequence"@ =~= ", expected a sequence"@);
    reveal_strlit("struct VersionRange");
    reveal_strlit(", expected struct VersionRange");
    assert(", expected "@ + "struct VersionRange"@ =~= ", expected struct VersionRange"@);
    reveal_strlit("u32");
    reveal_strlit(", expected u32");
    assert(", expected "@ + "u32"@ =~= ", expected u32"@);
    reveal_strlit("struct InitializeParams");
    reveal_strlit(", expected struct InitializeParams");
    assert(", expected "@ + "struct InitializeParams"@ =~= ", expected struct InitializeParams"@);
    let before = "invalid type: "@ + described(v);
    lemma_said_after(before, "a string"@, ", expected a string"@);
    lemma_said_after(before, "a sequence"@, ", expected a sequence"@);
    lemma_said_after(before, "struct VersionRange"@, ", expected struct VersionRange"@);
    lemma_said_after(before, "u32"@, ", expected u32"@);
    lemma_said_after(before, "struct InitializeParams"@, ", expected struct InitializeParams"@);
}

proof fn lemma_said_after(before: Seq<char>, expected: Seq<char>, said: Seq<char>)
    requires
        ", expected "@ + expected == said,
    ensures
        before + ", expected "@ + expected == before + said,
{
    assert(before + ", expected "@ + expected =~= before + (", expected "@ + expected));
}

/// A number is a fraction exactly if it is written with a point or an exponent.
pub proof fn law_a_fraction_has_a_point_or_an_exponent(number: Seq<char>)
    requires
        vstd::utf8::is_ascii_chars(number),
    ensures
        is_fraction(number) <==> has_fraction_or_exponent(number),
{
    vstd::utf8::is_ascii_chars_encode_utf8(number);
    let b = vstd::utf8::encode_utf8(number);
    if b.contains(0x2e) {
        let i = choose|i: int| 0 <= i < b.len() && b[i] == 0x2e;
        assert(number[i] == '.');
    }
    if b.contains(0x65) {
        let i = choose|i: int| 0 <= i < b.len() && b[i] == 0x65;
        assert(number[i] == 'e');
    }
    if b.contains(0x45) {
        let i = choose|i: int| 0 <= i < b.len() && b[i] == 0x45;
        assert(number[i] == 'E');
    }
    if has_fraction_or_exponent(number) {
        let i = choose|i: int|
            {
                &&& 0 <= i < number.len()
                &&& #[trigger] number[i] == '.' || number[i] == 'e' || number[i] == 'E'
            };
        assert(b.contains(b[i]));
    }
}

/// What is said of members that are missing, the first of them, and of versions that are the wrong
/// way round.
pub proof fn law_what_is_missing_is_named(read: PartialView, low: u32, high: u32)
    ensures
        read.module is None ==> complete(read) == Err::<ParamsView, Seq<char>>(
            "missing field `module`"@,
        ),
        read.module is Some && read.manifest_digest is None ==> complete(read) == Err::<
            ParamsView,
            Seq<char>,
        >("missing field `manifest_digest`"@),
        read.module is Some && read.manifest_digest is Some && read.auth_token is None
            ==> complete(read) == Err::<ParamsView, Seq<char>>("missing field `auth_token`"@),
        range_from(Seq::empty(), None, Some(high)) == Err::<VersionRange, Seq<char>>(
            "missing field `min`"@,
        ),
        range_from(Seq::empty(), Some(low), None) == Err::<VersionRange, Seq<char>>(
            "missing field `max`"@,
        ),
        low > high ==> range_from(Seq::empty(), Some(low), Some(high)) == Err::<
            VersionRange,
            Seq<char>,
        >("the version range is empty"@),
        decoded(JsonView::Array(Seq::empty())) == Err::<ParamsView, Seq<char>>(
            "invalid length "@ + text::decimal(1)
                + ", expected struct InitializeParams with 5 elements"@,
        ),
{
    assert(positional(Seq::empty()).len() == 0);
}

} // verus!
