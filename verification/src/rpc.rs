//! The callback channel after the handshake: how one frame is classified, what is answered, and
//! how one connection runs many calls at once.
//!
//! During the handshake every failure disconnects. After it only a line over the limit does: a
//! malformed line, bad params, a second `initialize`, an unknown method each fail that one line,
//! and the connection goes on.
use crate::frame;
use crate::frame::{FrameError, IoFault, MAX_FRAME_BYTES};
use crate::json;
use crate::json::{Json, JsonView};
use crate::module;
use crate::repeats;
use crate::text;
use vstd::prelude::*;
use vstd::string::*;

verus! {

/// How many calls one connection may have in flight. Beyond it a call is answered `busy` at once:
/// a queue would be memory that the peer controls.
pub const MAX_IN_FLIGHT_PER_CONNECTION: usize = 64;

/// How long the kernel works on one call before it answers `timeout`, in nanoseconds.
pub const CALL_TIMEOUT: u64 = 30_000_000_000;

/// How long one response may take to be written, in nanoseconds.
pub const WRITE_TIMEOUT: u64 = 10_000_000_000;

/// The longest request id, in bytes.
pub const MAX_ID_BYTES: usize = 256;

/// The longest message in an error that quotes the peer, in bytes.
pub const MAX_MESSAGE_BYTES: usize = 512;

/// Cancels a call in flight. A notification: `params` names the call's id.
pub const CANCEL_METHOD: &'static str = "$/cancelRequest";

/// The method of the handshake.
pub const INITIALIZE_METHOD: &'static str = "initialize";

/// The longest text that an error message quotes from a request, in bytes.
pub const ECHO_LIMIT: usize = 128;

pub const PARSE_ERROR: i32 = -32700;

pub const INVALID_REQUEST: i32 = -32600;

pub const METHOD_NOT_FOUND: i32 = -32601;

pub const INVALID_PARAMS: i32 = -32602;

pub const INTERNAL_ERROR: i32 = -32603;

/// The code of every failure that carries a kind.
pub const APPLICATION: i32 = -32000;

// ---------------------------------------------------------------------------
// Errors
// ---------------------------------------------------------------------------

/// `error.data.kind`: a closed set.
#[derive(Debug, Clone, Copy, PartialEq, Eq, Structural, Hash)]
pub enum ErrorKind {
    Forbidden,
    Busy,
    Cancelled,
    Timeout,
    QuotaExceeded,
    InvalidLease,
    UnknownCapability,
    VersionMismatch,
    AuthFailed,
    ManifestMismatch,
}

impl ErrorKind {
    pub const ALL: [ErrorKind; 10] = [
        ErrorKind::Forbidden,
        ErrorKind::Busy,
        ErrorKind::Cancelled,
        ErrorKind::Timeout,
        ErrorKind::QuotaExceeded,
        ErrorKind::InvalidLease,
        ErrorKind::UnknownCapability,
        ErrorKind::VersionMismatch,
        ErrorKind::AuthFailed,
        ErrorKind::ManifestMismatch,
    ];

    pub open spec fn wire(self) -> Seq<char> {
        match self {
            ErrorKind::Forbidden => "forbidden"@,
            ErrorKind::Busy => "busy"@,
            ErrorKind::Cancelled => "cancelled"@,
            ErrorKind::Timeout => "timeout"@,
            ErrorKind::QuotaExceeded => "quota_exceeded"@,
            ErrorKind::InvalidLease => "invalid_lease"@,
            ErrorKind::UnknownCapability => "unknown_capability"@,
            ErrorKind::VersionMismatch => "version_mismatch"@,
            ErrorKind::AuthFailed => "auth_failed"@,
            ErrorKind::ManifestMismatch => "manifest_mismatch"@,
        }
    }

    /// The kind on the wire.
    pub fn as_str(self) -> (r: &'static str)
        ensures
            r@ == self.wire(),
    {
        match self {
            ErrorKind::Forbidden => "forbidden",
            ErrorKind::Busy => "busy",
            ErrorKind::Cancelled => "cancelled",
            ErrorKind::Timeout => "timeout",
            ErrorKind::QuotaExceeded => "quota_exceeded",
            ErrorKind::InvalidLease => "invalid_lease",
            ErrorKind::UnknownCapability => "unknown_capability",
            ErrorKind::VersionMismatch => "version_mismatch",
            ErrorKind::AuthFailed => "auth_failed",
            ErrorKind::ManifestMismatch => "manifest_mismatch",
        }
    }
}

/// Two kinds that look alike on the wire are the same kind.
pub proof fn law_kinds_are_distinct_on_the_wire(a: ErrorKind, b: ErrorKind)
    requires
        a.wire() == b.wire(),
    ensures
        a == b,
{
    reveal_strlit("forbidden");
    reveal_strlit("busy");
    reveal_strlit("cancelled");
    reveal_strlit("timeout");
    reveal_strlit("quota_exceeded");
    reveal_strlit("invalid_lease");
    reveal_strlit("unknown_capability");
    reveal_strlit("version_mismatch");
    reveal_strlit("auth_failed");
    reveal_strlit("manifest_mismatch");
    assert("forbidden"@.len() == 9 && "forbidden"@[0] == 'f');
    assert("cancelled"@.len() == 9 && "cancelled"@[0] == 'c');
    assert("busy"@.len() == 4);
    assert("timeout"@.len() == 7);
    assert("quota_exceeded"@.len() == 14);
    assert("invalid_lease"@.len() == 13);
    assert("unknown_capability"@.len() == 18);
    assert("version_mismatch"@.len() == 16);
    assert("auth_failed"@.len() == 11);
    assert("manifest_mismatch"@.len() == 17);
    assert(a.wire().len() == b.wire().len());
}

/// A kind takes few bytes on the wire.
pub proof fn lemma_kind_is_short(kind: ErrorKind)
    ensures
        text::byte_len(kind.wire()) <= 18,
{
    reveal_strlit("forbidden");
    reveal_strlit("busy");
    reveal_strlit("cancelled");
    reveal_strlit("timeout");
    reveal_strlit("quota_exceeded");
    reveal_strlit("invalid_lease");
    reveal_strlit("unknown_capability");
    reveal_strlit("version_mismatch");
    reveal_strlit("auth_failed");
    reveal_strlit("manifest_mismatch");
    json::lemma_ascii_len(kind.wire());
}

/// An error object, as mathematics.
pub struct RpcErrorView {
    pub code: i32,
    pub message: Seq<char>,
    pub kind: Option<ErrorKind>,
    pub data: Option<Seq<(Seq<char>, JsonView)>>,
}

/// A JSON-RPC error object.
#[derive(Debug, PartialEq)]
pub struct RpcError {
    pub code: i32,
    pub message: String,
    /// What an application error carries in `data.kind`.
    pub kind: Option<ErrorKind>,
    /// What else `data` holds, beside `kind`.
    pub data: Option<Vec<(String, Json)>>,
}

impl View for RpcError {
    type V = RpcErrorView;

    open spec fn view(&self) -> RpcErrorView {
        RpcErrorView {
            code: self.code,
            message: self.message@,
            kind: self.kind,
            data: match self.data {
                Some(members) => Some(json::members_view(members@)),
                None => None,
            },
        }
    }
}

/// An error of the protocol: a code and a message.
pub open spec fn protocol_error(code: i32, message: Seq<char>) -> RpcErrorView {
    RpcErrorView { code, message, kind: None, data: None }
}

/// An error of the application: a kind and a message.
pub open spec fn application_error(kind: ErrorKind, message: Seq<char>) -> RpcErrorView {
    RpcErrorView { code: APPLICATION, message, kind: Some(kind), data: None }
}

impl RpcErrorView {
    /// What `data` holds: the other members, and the kind.
    pub open spec fn data_members(self) -> Seq<(Seq<char>, JsonView)> {
        let others = match self.data {
            Some(members) => members,
            None => Seq::empty(),
        };
        match self.kind {
            Some(kind) => json::inserted(others, "kind"@, JsonView::Text(kind.wire())),
            None => others,
        }
    }

    /// The error object. `data` is left out where it would be empty.
    pub open spec fn json(self) -> JsonView {
        let code = ("code"@, JsonView::Number(text::signed_decimal(self.code as int)));
        let message = ("message"@, JsonView::Text(self.message));
        let data = self.data_members();
        if data.len() == 0 {
            JsonView::Object(seq![code, message])
        } else {
            JsonView::Object(seq![code, ("data"@, JsonView::Object(data)), message])
        }
    }
}

impl RpcError {
    fn protocol(code: i32, message: String) -> (r: RpcError)
        ensures
            r@ == protocol_error(code, message@),
    {
        RpcError { code, message, kind: None, data: None }
    }

    pub fn parse_error(message: String) -> (r: RpcError)
        ensures
            r@ == protocol_error(PARSE_ERROR, message@),
    {
        RpcError::protocol(PARSE_ERROR, message)
    }

    pub fn invalid_request(message: String) -> (r: RpcError)
        ensures
            r@ == protocol_error(INVALID_REQUEST, message@),
    {
        RpcError::protocol(INVALID_REQUEST, message)
    }

    pub fn method_not_found(method: &str) -> (r: RpcError)
        ensures
            r@ == protocol_error(
                METHOD_NOT_FOUND,
                "method not found: this daemon does not provide `"@ + text::clipped(
                    method@,
                    ECHO_LIMIT as int,
                ) + "`"@,
            ),
    {
        RpcError::protocol(
            METHOD_NOT_FOUND,
            text::concat3(
                "method not found: this daemon does not provide `",
                clip(method).as_str(),
                "`",
            ),
        )
    }

    pub fn invalid_params(message: String) -> (r: RpcError)
        ensures
            r@ == protocol_error(INVALID_PARAMS, message@),
    {
        RpcError::protocol(INVALID_PARAMS, message)
    }

    pub fn internal(message: String) -> (r: RpcError)
        ensures
            r@ == protocol_error(INTERNAL_ERROR, message@),
    {
        RpcError::protocol(INTERNAL_ERROR, message)
    }

    /// A failure with a kind.
    pub fn application(kind: ErrorKind, message: String) -> (r: RpcError)
        ensures
            r@ == application_error(kind, message@),
    {
        RpcError { code: APPLICATION, message, kind: Some(kind), data: None }
    }

    /// The same error with one more member in `data`.
    pub fn with_data(self, key: &str, value: Json) -> (r: RpcError)
        ensures
            r@ == (RpcErrorView {
                data: Some(
                    json::inserted(
                        match self@.data {
                            Some(members) => members,
                            None => Seq::empty(),
                        },
                        key@,
                        value.view(),
                    ),
                ),
                ..self@
            }),
    {
        let RpcError { code, message, kind, data } = self;
        let mut members = match data {
            Some(members) => members,
            None => {
                let none: Vec<(String, Json)> = Vec::new();
                assert(json::members_view(none@) =~= Seq::empty());
                none
            },
        };
        json::insert_member(&mut members, key, value);
        RpcError { code, message, kind, data: Some(members) }
    }

    /// The error object.
    pub fn to_json(&self) -> (r: Json)
        ensures
            r.view() == self@.json(),
    {
        let mut data: Vec<(String, Json)> = Vec::new();
        match &self.data {
            Some(members) => {
                let mut i: usize = 0;
                while i < members.len()
                    invariant
                        i <= members@.len(),
                        data@.len() == i,
                        forall|j: int|
                            0 <= j < i ==> data@[j].0@ == members@[j].0@ && data@[j].1.view()
                                == members@[j].1.view(),
                    decreases members@.len() - i,
                {
                    data.push((members[i].0.clone(), members[i].1.copy()));
                    i = i + 1;
                }
                assert(json::members_view(data@) =~= json::members_view(members@));
            },
            None => {
                assert(json::members_view(data@) =~= Seq::empty());
            },
        }
        match self.kind {
            Some(kind) => {
                json::insert_member(&mut data, "kind", Json::Text(kind.as_str().to_owned()));
            },
            None => {},
        }
        assert(json::members_view(data@) == self@.data_members());
        let mut error: Vec<(String, Json)> = Vec::new();
        error.push(("code".to_owned(), Json::Number(text::signed_decimal_string(self.code))));
        if data.len() > 0 {
            proof {
                json::lemma_object_view(data);
            }
            error.push(("data".to_owned(), Json::Object(data)));
        }
        error.push(("message".to_owned(), Json::Text(self.message.clone())));
        proof {
            json::lemma_object_view(error);
            assert(json::members_view(error@) =~= self@.json()->Object_0);
        }
        Json::Object(error)
    }
}

// ---------------------------------------------------------------------------
// Responses
// ---------------------------------------------------------------------------

/// One response, as mathematics.
pub struct ResponseView {
    pub id: Option<Seq<char>>,
    pub outcome: Result<JsonView, RpcErrorView>,
}

/// One response line. Without an id it is answered under `null`: the request's id could not be
/// told, or must not be echoed.
#[derive(Debug, PartialEq)]
pub struct Response {
    pub id: Option<String>,
    pub outcome: Result<Json, RpcError>,
}

/// The text of an optional string.
pub open spec fn id_view(id: Option<String>) -> Option<Seq<char>> {
    match id {
        Some(s) => Some(s@),
        None => None,
    }
}

impl View for Response {
    type V = ResponseView;

    open spec fn view(&self) -> ResponseView {
        ResponseView {
            id: id_view(self.id),
            outcome: match self.outcome {
                Ok(v) => Ok(v.view()),
                Err(e) => Err(e@),
            },
        }
    }
}

/// How an id is answered: as itself, or as `null`.
pub open spec fn id_json(id: Option<Seq<char>>) -> JsonView {
    match id {
        Some(s) => JsonView::Text(s),
        None => JsonView::Null,
    }
}

/// An error, answered under an id.
pub open spec fn error_response(id: Option<Seq<char>>, error: RpcErrorView) -> ResponseView {
    ResponseView { id, outcome: Err(error) }
}

impl ResponseView {
    /// The response object.
    pub open spec fn json(self) -> JsonView {
        let id = ("id"@, id_json(self.id));
        let version = ("jsonrpc"@, JsonView::Text("2.0"@));
        match self.outcome {
            Ok(v) => JsonView::Object(seq![id, version, ("result"@, v)]),
            Err(e) => JsonView::Object(seq![("error"@, e.json()), id, version]),
        }
    }

    /// The response as a line, its newline included.
    pub open spec fn line(self) -> Seq<u8> {
        text_line(json::json_text(self.json()))
    }
}

/// A text as a line.
pub open spec fn text_line(s: Seq<char>) -> Seq<u8> {
    vstd::utf8::encode_utf8(s).push(frame::NEWLINE)
}

/// Writes a text as a line.
pub fn line_of(s: &str) -> (r: Vec<u8>)
    ensures
        r@ == text_line(s@),
{
    let mut line = vstd::slice::slice_to_vec(s.as_bytes());
    line.push(frame::NEWLINE);
    line
}

impl Response {
    fn error(id: Option<String>, error: RpcError) -> (r: Response)
        ensures
            r@ == error_response(id_view(id), error@),
    {
        Response { id, outcome: Err(error) }
    }

    /// The response as a line, its newline included.
    pub fn to_line(&self) -> (r: Vec<u8>)
        ensures
            r@ == self@.line(),
    {
        let id = match &self.id {
            Some(s) => Json::Text(s.clone()),
            None => Json::Null,
        };
        let version = Json::Text("2.0".to_owned());
        let mut object: Vec<(String, Json)> = Vec::new();
        match &self.outcome {
            Ok(v) => {
                object.push(("id".to_owned(), id));
                object.push(("jsonrpc".to_owned(), version));
                object.push(("result".to_owned(), v.copy()));
            },
            Err(e) => {
                object.push(("error".to_owned(), e.to_json()));
                object.push(("id".to_owned(), id));
                object.push(("jsonrpc".to_owned(), version));
            },
        }
        proof {
            json::lemma_object_view(object);
            assert(json::members_view(object@) =~= self@.json()->Object_0);
        }
        line_of(Json::Object(object).to_text().as_str())
    }
}

// ---------------------------------------------------------------------------
// Methods
// ---------------------------------------------------------------------------

/// What came of a method's check of its params.
#[derive(Debug)]
pub enum Checked {
    Passed,
    /// The params are not usable, and why.
    Refused(String),
    /// The check itself failed. That is the kernel's fault, and fails this one request.
    Failed,
}

/// What came of a check, as mathematics.
pub enum CheckedView {
    Passed,
    Refused(Seq<char>),
    Failed,
}

impl View for Checked {
    type V = CheckedView;

    open spec fn view(&self) -> CheckedView {
        match self {
            Checked::Passed => CheckedView::Passed,
            Checked::Refused(why) => CheckedView::Refused(why@),
            Checked::Failed => CheckedView::Failed,
        }
    }
}

/// One method that a connection serves.
pub trait Handler {
    /// Checks the params before anything runs.
    fn check_params(&self, params: &Json) -> Checked;
}

/// The methods that a connection serves: their names, no name twice, and who handles each.
pub struct Methods<H> {
    entries: Vec<(String, H)>,
}

impl<H> Methods<H> {
    /// The names served, in the order in which they were registered.
    pub closed spec fn names(&self) -> Seq<Seq<char>> {
        Seq::new(self.entries@.len(), |i: int| self.entries@[i].0@)
    }

    /// Every name has a handler.
    pub proof fn lemma_same_len(&self)
        ensures
            self.names().len() == self.handlers().len(),
    {
    }

    /// Who handles each name.
    pub closed spec fn handlers(&self) -> Seq<H> {
        Seq::new(self.entries@.len(), |i: int| self.entries@[i].1)
    }

    /// No method at all: every call is answered that its method was not found.
    pub fn none() -> (r: Methods<H>)
        ensures
            r.names() == Seq::<Seq<char>>::empty(),
            r.handlers() == Seq::<H>::empty(),
            r.names().no_duplicates(),
    {
        let r = Methods { entries: Vec::new() };
        assert(r.names() =~= Seq::<Seq<char>>::empty());
        assert(r.handlers() =~= Seq::<H>::empty());
        r
    }

    /// The same methods and one more. A name that is served already gets the new handler.
    pub fn with(self, name: &str, handler: H) -> (r: Methods<H>)
        ensures
            match position(self.names(), name@) {
                Some(i) => r.names() == self.names() && r.handlers() == self.handlers().update(
                    i,
                    handler,
                ),
                None => r.names() == self.names().push(name@) && r.handlers()
                    == self.handlers().push(handler),
            },
            self.names().no_duplicates() ==> r.names().no_duplicates(),
    {
        let found = self.get(name);
        let Methods { mut entries } = self;
        match found {
            Some(i) => {
                entries[i].1 = handler;
            },
            None => {
                entries.push((name.to_owned(), handler));
            },
        }
        let r = Methods { entries };
        proof {
            match found {
                Some(i) => {
                    assert(r.names() =~= self.names());
                    assert(r.handlers() =~= self.handlers().update(i as int, handler));
                },
                None => {
                    assert(r.names() =~= self.names().push(name@));
                    lemma_position_is_found(self.names(), name@);
                    assert(r.handlers() =~= self.handlers().push(handler));
                },
            }
        }
        r
    }

    /// Which handler serves that name.
    pub fn get(&self, name: &str) -> (r: Option<usize>)
        ensures
            match r {
                Some(i) => position(self.names(), name@) == Some(i as int) && i
                    < self.handlers().len(),
                None => position(self.names(), name@) is None,
            },
            self.handlers().len() == self.names().len(),
    {
        let mut i: usize = 0;
        proof {
            assert(self.names().skip(0) =~= self.names());
        }
        while i < self.entries.len()
            invariant
                i <= self.entries@.len(),
                position(self.names(), name@) == (match position(
                    self.names().skip(i as int),
                    name@,
                ) {
                    Some(k) => Some(k + i),
                    None => None,
                }),
            decreases self.entries@.len() - i,
        {
            let ghost tail = self.names().skip(i as int);
            assert(tail[0] == self.entries@[i as int].0@);
            assert(tail.drop_first() =~= self.names().skip(i + 1));
            if text::same(self.entries[i].0.as_str(), name) {
                return Some(i);
            }
            i = i + 1;
        }
        None
    }

    /// The handler that [`Methods::get`] named.
    pub fn handler(&self, i: usize) -> (r: &H)
        requires
            i < self.handlers().len(),
        ensures
            *r == self.handlers()[i as int],
    {
        &self.entries[i].1
    }
}

/// Where a name stands first in a list of names.
pub open spec fn position(names: Seq<Seq<char>>, name: Seq<char>) -> Option<int>
    decreases names.len(),
{
    if names.len() == 0 {
        None
    } else if names[0] == name {
        Some(0)
    } else {
        match position(names.drop_first(), name) {
            Some(i) => Some(i + 1),
            None => None,
        }
    }
}

/// What stands nowhere first stands nowhere.
proof fn lemma_position_is_found(names: Seq<Seq<char>>, name: Seq<char>)
    ensures
        position(names, name) is None ==> !names.contains(name),
    decreases names.len(),
{
    if names.len() > 0 {
        lemma_position_is_found(names.drop_first(), name);
        if names.contains(name) && names[0] != name {
            let i = choose|i: int| 0 <= i < names.len() && names[i] == name;
            assert(names.drop_first()[i - 1] == name);
        }
    }
}

// ---------------------------------------------------------------------------
// Calls in flight
// ---------------------------------------------------------------------------

/// The calls in flight on one connection: the task that runs each id, and back.
pub struct Running {
    by_id: vstd::hash_map::StringHashMap<u64>,
    by_task: std::collections::HashMap<u64, String>,
}

impl Running {
    /// The task of each call in flight.
    pub closed spec fn tasks(&self) -> Map<Seq<char>, u64> {
        self.by_id@
    }

    /// Each call in flight has one task, and each task runs one call.
    pub closed spec fn wf(&self) -> bool {
        &&& self.by_id@.dom().finite()
        &&& forall|id: Seq<char>| #[trigger]
            self.by_id@.contains_key(id) ==> self.by_task@.contains_key(self.by_id@[id])
                && self.by_task@[self.by_id@[id]]@ == id
        &&& forall|task: u64| #[trigger]
            self.by_task@.contains_key(task) ==> self.by_id@.contains_key(self.by_task@[task]@)
                && self.by_id@[self.by_task@[task]@] == task
    }

    pub fn new() -> (r: Running)
        ensures
            r.wf(),
            r.tasks() == Map::<Seq<char>, u64>::empty(),
    {
        broadcast use vstd::std_specs::hash::group_hash_axioms;

        Running {
            by_id: vstd::hash_map::StringHashMap::new(),
            by_task: std::collections::HashMap::new(),
        }
    }

    /// Whether a call of that id is in flight.
    pub fn has(&self, id: &str) -> (r: bool)
        ensures
            r == self.tasks().contains_key(id@),
    {
        self.by_id.contains_key(id)
    }

    /// The task that runs the call of that id.
    pub fn task_of(&self, id: &str) -> (r: Option<u64>)
        ensures
            match r {
                Some(task) => self.tasks().contains_key(id@) && self.tasks()[id@] == task,
                None => !self.tasks().contains_key(id@),
            },
    {
        match self.by_id.get(id) {
            Some(task) => Some(*task),
            None => None,
        }
    }

    /// How many calls are in flight.
    pub fn len(&self) -> (r: usize)
        ensures
            r == self.tasks().len(),
    {
        self.by_id.len()
    }

    /// A call has begun. Its id is not in flight, and its task runs no other call.
    pub fn insert(&mut self, id: String, task: u64)
        requires
            old(self).wf(),
            !old(self).tasks().contains_key(id@),
            !old(self).tasks().contains_value(task),
        ensures
            final(self).wf(),
            final(self).tasks() == old(self).tasks().insert(id@, task),
    {
        broadcast use vstd::std_specs::hash::group_hash_axioms;

        let ghost was = *self;
        proof {
            if was.by_task@.contains_key(task) {
                let other = was.by_task@[task]@;
                assert(was.by_id@.contains_key(other));
                assert(was.by_id@[other] == task);
                assert(was.tasks().contains_value(task));
            }
        }
        self.by_id.insert(id.clone(), task);
        self.by_task.insert(task, id);
        proof {
            assert forall|k: Seq<char>| #[trigger] self.by_id@.contains_key(k) implies (
            self.by_task@.contains_key(self.by_id@[k]) && self.by_task@[self.by_id@[k]]@ == k) by {
                if k != id@ {
                    assert(was.by_id@.contains_key(k));
                }
            }
            assert forall|t: u64| #[trigger] self.by_task@.contains_key(t) implies (
            self.by_id@.contains_key(self.by_task@[t]@) && self.by_id@[self.by_task@[t]@] == t) by {
                if t != task {
                    assert(was.by_task@.contains_key(t));
                }
            }
        }
    }

    /// A task has ended: the id of the call that it ran, which is in flight no more.
    pub fn remove(&mut self, task: u64) -> (r: Option<String>)
        requires
            old(self).wf(),
        ensures
            final(self).wf(),
            match r {
                Some(id) => old(self).tasks().contains_key(id@) && old(self).tasks()[id@] == task
                    && final(self).tasks() == old(self).tasks().remove(id@),
                None => !old(self).tasks().contains_value(task) && final(self).tasks()
                    == old(self).tasks(),
            },
    {
        broadcast use vstd::std_specs::hash::group_hash_axioms;

        let ghost was = *self;
        match self.by_task.remove(&task) {
            Some(id) => {
                self.by_id.remove(id.as_str());
                proof {
                    assert(was.by_task@.contains_key(task));
                    assert forall|k: Seq<char>| #[trigger] self.by_id@.contains_key(k) implies (
                    self.by_task@.contains_key(self.by_id@[k]) && self.by_task@[self.by_id@[k]]@
                        == k) by {
                        assert(was.by_id@.contains_key(k));
                    }
                    assert forall|t: u64| #[trigger] self.by_task@.contains_key(t) implies (
                    self.by_id@.contains_key(self.by_task@[t]@) && self.by_id@[self.by_task@[t]@]
                        == t) by {
                        assert(was.by_task@.contains_key(t));
                    }
                }
                Some(id)
            },
            None => {
                proof {
                    if was.tasks().contains_value(task) {
                        let k = choose|k: Seq<char>|
                            was.by_id@.contains_key(k) && was.by_id@[k] == task;
                        assert(was.by_task@.contains_key(task));
                    }
                    assert(self.by_task@ =~= was.by_task@);
                }
                None
            },
        }
    }
}

// ---------------------------------------------------------------------------
// Classifying a frame
// ---------------------------------------------------------------------------

/// What to do with one frame, as mathematics.
pub enum DispatchView {
    Respond(ResponseView),
    Call { id: Seq<char>, params: JsonView, handler: int },
    Cancel { id: Seq<char> },
    Ignore,
}

/// What to do with one frame.
#[derive(Debug)]
pub enum Dispatch {
    /// Answer now; nothing runs.
    Respond(Response),
    /// Run that handler of the connection's methods for request `id`.
    Call { id: String, params: Json, handler: usize },
    /// Cancel the call in flight under `id`, if there is one.
    Cancel { id: String },
    /// A notification that is not acted on. Notifications are never answered.
    Ignore,
}

impl View for Dispatch {
    type V = DispatchView;

    open spec fn view(&self) -> DispatchView {
        match self {
            Dispatch::Respond(r) => DispatchView::Respond(r@),
            Dispatch::Call { id, params, handler } => DispatchView::Call {
                id: id@,
                params: params.view(),
                handler: *handler as int,
            },
            Dispatch::Cancel { id } => DispatchView::Cancel { id: id@ },
            Dispatch::Ignore => DispatchView::Ignore,
        }
    }
}

/// How far a frame was classified before its method's own check, as mathematics.
pub enum StepView {
    Settled(DispatchView),
    Check { id: Seq<char>, params: JsonView, handler: int },
}

/// How far a frame was classified before its method's own check.
#[derive(Debug)]
pub enum Step {
    /// The check has no say.
    Settled(Dispatch),
    /// A request that the check decides.
    Check { id: String, params: Json, handler: usize },
}

impl View for Step {
    type V = StepView;

    open spec fn view(&self) -> StepView {
        match self {
            Step::Settled(d) => StepView::Settled(d@),
            Step::Check { id, params, handler } => StepView::Check {
                id: id@,
                params: params.view(),
                handler: *handler as int,
            },
        }
    }
}

/// Whether a name is a member of a request.
pub open spec fn is_request_member(key: Seq<char>) -> bool {
    key == "jsonrpc"@ || key == "id"@ || key == "method"@ || key == "params"@
}

/// The first member that a request cannot have.
pub open spec fn unknown_member(members: Seq<(Seq<char>, JsonView)>) -> Option<Seq<char>>
    decreases members.len(),
{
    if members.len() == 0 {
        None
    } else if !is_request_member(members[0].0) {
        Some(members[0].0)
    } else {
        unknown_member(members.drop_first())
    }
}

/// Whether an object has no members but an id and `_meta`.
pub open spec fn is_cancel_params(members: Seq<(Seq<char>, JsonView)>) -> bool {
    forall|i: int|
        0 <= i < members.len() ==> (#[trigger] members[i]).0 == "id"@ || members[i].0 == "_meta"@
}

/// What `id` stands for in a request.
pub enum IdView {
    /// There is none: a notification.
    Absent,
    Usable(Seq<char>),
    TooLong,
    NotText,
}

pub open spec fn id_of_request(members: Seq<(Seq<char>, JsonView)>) -> IdView {
    match json::member(members, "id"@) {
        None => IdView::Absent,
        Some(JsonView::Text(s)) => if text::byte_len(s) <= MAX_ID_BYTES {
            IdView::Usable(s)
        } else {
            IdView::TooLong
        },
        Some(_) => IdView::NotText,
    }
}

/// A repeat inside `params`, as one text.
pub open spec fn repeat_in_params(repeat: Option<Seq<Seq<char>>>) -> Option<Seq<char>> {
    match repeat {
        Some(path) => if path.len() > 1 && path[0] == "params"@ {
            Some(text::joined(path, "."@))
        } else {
            None
        },
        None => None,
    }
}

/// A failure that has no id to be answered under.
pub open spec fn respond_null(error: RpcErrorView) -> StepView {
    StepView::Settled(DispatchView::Respond(error_response(None, error)))
}

/// A failure of a request that is answered under its id, and of a notification that is not
/// answered.
pub open spec fn fail(id: Option<Seq<char>>, error: RpcErrorView) -> StepView {
    StepView::Settled(
        match id {
            Some(s) => DispatchView::Respond(error_response(Some(s), error)),
            None => DispatchView::Ignore,
        },
    )
}

/// The message of an id over the limit.
pub open spec fn id_too_long_message() -> Seq<char> {
    "the id is longer than "@ + text::decimal(MAX_ID_BYTES as nat) + " bytes"@
}

/// Classifies what was read from a frame. `repeat` is the repeated key to report for the frame,
/// `in_flight` are the ids in flight. The order of the checks is part of what is promised.
pub open spec fn classified(
    parsed: Result<JsonView, Seq<char>>,
    repeat: Option<Seq<Seq<char>>>,
    names: Seq<Seq<char>>,
    in_flight: Set<Seq<char>>,
) -> StepView {
    match parsed {
        Err(e) => respond_null(protocol_error(PARSE_ERROR, e)),
        Ok(JsonView::Object(members)) => classified_object(members, repeat, names, in_flight),
        Ok(JsonView::Array(_)) => respond_null(
            protocol_error(INVALID_REQUEST, "batch requests are not supported"@),
        ),
        Ok(_) => respond_null(
            protocol_error(INVALID_REQUEST, "a request must be a JSON object"@),
        ),
    }
}

/// Classifies a request object: a repeat in the envelope, then the id, then whether the id is in
/// flight, then everything that is answered under the id.
pub open spec fn classified_object(
    members: Seq<(Seq<char>, JsonView)>,
    repeat: Option<Seq<Seq<char>>>,
    names: Seq<Seq<char>>,
    in_flight: Set<Seq<char>>,
) -> StepView {
    if repeat matches Some(path) && path.len() == 1 {
        if json::has_member(members, "id"@) {
            respond_null(
                protocol_error(
                    INVALID_REQUEST,
                    "duplicate key `"@ + text::clipped(repeat->Some_0[0], ECHO_LIMIT as int)
                        + "` in the request"@,
                ),
            )
        } else {
            StepView::Settled(DispatchView::Ignore)
        }
    } else {
        match id_of_request(members) {
            IdView::TooLong => respond_null(
                protocol_error(INVALID_REQUEST, id_too_long_message()),
            ),
            IdView::NotText => respond_null(
                protocol_error(INVALID_REQUEST, "the id must be a string"@),
            ),
            IdView::Absent => classified_body(members, repeat, names, None),
            IdView::Usable(id) => if in_flight.contains(id) {
                respond_null(
                    RpcErrorView {
                        data: Some(
                            json::inserted(Seq::empty(), "duplicate_id"@, JsonView::Text(id)),
                        ),
                        ..protocol_error(
                            INVALID_REQUEST,
                            "this id is already in flight on this connection"@,
                        )
                    },
                )
            } else {
                classified_body(members, repeat, names, Some(id))
            },
        }
    }
}

/// Classifies the rest of a request, whose failures are answered under its id.
pub open spec fn classified_body(
    members: Seq<(Seq<char>, JsonView)>,
    repeat: Option<Seq<Seq<char>>>,
    names: Seq<Seq<char>>,
    id: Option<Seq<char>>,
) -> StepView {
    match unknown_member(members) {
        Some(extra) => fail(
            id,
            protocol_error(
                INVALID_REQUEST,
                "unknown member `"@ + text::clipped(extra, ECHO_LIMIT as int) + "`"@,
            ),
        ),
        None => if json::text_member(members, "jsonrpc"@) != Some("2.0"@) {
            fail(id, protocol_error(INVALID_REQUEST, "`jsonrpc` must be \"2.0\""@))
        } else {
            match json::text_member(members, "method"@) {
                None => fail(
                    id,
                    protocol_error(INVALID_REQUEST, "`method` must be a string"@),
                ),
                Some(method) => match json::member(members, "params"@) {
                    None => classified_call(method, Seq::empty(), repeat, names, id),
                    Some(JsonView::Object(params)) => classified_call(
                        method,
                        params,
                        repeat,
                        names,
                        id,
                    ),
                    Some(_) => fail(
                        id,
                        protocol_error(INVALID_PARAMS, "params must be an object"@),
                    ),
                },
            }
        },
    }
}

/// Classifies a well-formed request or notification by its method.
pub open spec fn classified_call(
    method: Seq<char>,
    params: Seq<(Seq<char>, JsonView)>,
    repeat: Option<Seq<Seq<char>>>,
    names: Seq<Seq<char>>,
    id: Option<Seq<char>>,
) -> StepView {
    match id {
        None => StepView::Settled(
            if method == CANCEL_METHOD@ && repeat_in_params(repeat) is None {
                match json::text_member(params, "id"@) {
                    Some(target) => if is_cancel_params(params) {
                        DispatchView::Cancel { id: target }
                    } else {
                        DispatchView::Ignore
                    },
                    None => DispatchView::Ignore,
                }
            } else {
                DispatchView::Ignore
            },
        ),
        Some(s) => if method == INITIALIZE_METHOD@ {
            fail(
                id,
                protocol_error(
                    INVALID_REQUEST,
                    "`initialize` may be sent only once, as the first message"@,
                ),
            )
        } else if method == CANCEL_METHOD@ {
            fail(
                id,
                protocol_error(
                    INVALID_REQUEST,
                    "`$/cancelRequest` is a notification; send it without an id"@,
                ),
            )
        } else {
            match position(names, method) {
                None => fail(
                    id,
                    protocol_error(
                        METHOD_NOT_FOUND,
                        "method not found: this daemon does not provide `"@ + text::clipped(
                            method,
                            ECHO_LIMIT as int,
                        ) + "`"@,
                    ),
                ),
                Some(handler) => match repeat_in_params(repeat) {
                    Some(at) => fail(
                        id,
                        protocol_error(
                            INVALID_PARAMS,
                            "duplicate key `"@ + text::clipped(at, ECHO_LIMIT as int)
                                + "` in params"@,
                        ),
                    ),
                    None => StepView::Check { id: s, params: JsonView::Object(params), handler },
                },
            }
        },
    }
}

/// What a request comes to once its method's check has spoken.
pub open spec fn after_check(
    id: Seq<char>,
    params: JsonView,
    handler: int,
    checked: CheckedView,
) -> DispatchView {
    match checked {
        CheckedView::Passed => DispatchView::Call { id, params, handler },
        CheckedView::Refused(why) => DispatchView::Respond(
            error_response(Some(id), protocol_error(INVALID_PARAMS, why)),
        ),
        CheckedView::Failed => DispatchView::Respond(
            error_response(
                Some(id),
                protocol_error(INTERNAL_ERROR, "the method's params check failed"@),
            ),
        ),
    }
}

/// Whether a method's own check of some params may come to that verdict.
pub open spec fn checks<H: Handler>(handler: H, params: JsonView, checked: CheckedView) -> bool {
    exists|p: Json, c: Checked|
        p.view() == params && c@ == checked && #[trigger] call_ensures(
            H::check_params,
            (&handler, &p),
            c,
        )
}

/// Whether a frame may come to `d`: what was settled, or what a verdict of the method's own check
/// of its params makes of the request.
pub open spec fn may_come_to<H: Handler>(step: StepView, handlers: Seq<H>, d: DispatchView) -> bool {
    match step {
        StepView::Settled(settled) => d == settled,
        StepView::Check { id, params, handler } => exists|checked: CheckedView|
            checks(handlers[handler], params, checked) && d == #[trigger] after_check(
                id,
                params,
                handler,
                checked,
            ),
    }
}

fn respond_null_step(error: RpcError) -> (r: Step)
    ensures
        r@ == respond_null(error@),
{
    Step::Settled(Dispatch::Respond(Response::error(None, error)))
}

fn fail_step(id: Option<String>, error: RpcError) -> (r: Step)
    ensures
        r@ == fail(id_view(id), error@),
{
    match id {
        Some(id) => Step::Settled(Dispatch::Respond(Response::error(Some(id), error))),
        None => Step::Settled(Dispatch::Ignore),
    }
}

/// The first member that a request cannot have.
pub fn find_unknown_member(members: &Vec<(String, Json)>) -> (r: Option<&String>)
    ensures
        match r {
            Some(key) => unknown_member(json::members_view(members@)) == Some(key@),
            None => unknown_member(json::members_view(members@)) is None,
        },
{
    let ghost all = json::members_view(members@);
    let mut i: usize = 0;
    assert(all.skip(0) =~= all);
    while i < members.len()
        invariant
            i <= members@.len(),
            all == json::members_view(members@),
            unknown_member(all) == unknown_member(all.skip(i as int)),
        decreases members@.len() - i,
    {
        let key = members[i].0.as_str();
        assert(all.skip(i as int)[0] == all[i as int]);
        assert(all.skip(i as int).drop_first() =~= all.skip(i + 1));
        if !(text::same(key, "jsonrpc") || text::same(key, "id") || text::same(key, "method")
            || text::same(key, "params")) {
            return Some(&members[i].0);
        }
        i = i + 1;
    }
    None
}

/// Whether an object has no members but an id and `_meta`.
fn params_only(members: &Vec<(String, Json)>) -> (r: bool)
    ensures
        r == is_cancel_params(json::members_view(members@)),
{
    let ghost all = json::members_view(members@);
    let mut i: usize = 0;
    while i < members.len()
        invariant
            i <= members@.len(),
            all == json::members_view(members@),
            forall|j: int|
                0 <= j < i ==> (#[trigger] all[j]).0 == "id"@ || all[j].0 == "_meta"@,
        decreases members@.len() - i,
    {
        let key = members[i].0.as_str();
        assert(all[i as int].0 == key@);
        if !(text::same(key, "id") || text::same(key, "_meta")) {
            return false;
        }
        i = i + 1;
    }
    true
}

/// Text from a request, short enough to be put into an error message.
pub fn clip(s: &str) -> (r: String)
    ensures
        r@ == text::clipped(s@, ECHO_LIMIT as int),
{
    text::clip_to(s, ECHO_LIMIT)
}

fn join_repeat(repeat: &Option<Vec<String>>) -> (r: Option<String>)
    ensures
        match r {
            Some(at) => repeat_in_params(repeats::path_view(*repeat)) == Some(at@),
            None => repeat_in_params(repeats::path_view(*repeat)) is None,
        },
{
    match repeat {
        Some(path) => {
            assert(text::views(path@).len() == path@.len());
            if path.len() > 1 && text::same(path[0].as_str(), "params") {
                Some(text::join(path, "."))
            } else {
                None
            }
        },
        None => None,
    }
}

/// Classifies a well-formed request or notification by its method.
fn classify_call<H>(
    method: &str,
    params: Vec<(String, Json)>,
    repeat: &Option<Vec<String>>,
    methods: &Methods<H>,
    id: Option<String>,
) -> (r: Step)
    ensures
        r@ == classified_call(
            method@,
            json::members_view(params@),
            repeats::path_view(*repeat),
            methods.names(),
            id_view(id),
        ),
{
    let in_params = join_repeat(repeat);
    match id {
        None => {
            if text::same(method, CANCEL_METHOD) && in_params.is_none() {
                match json::lookup_text(&params, "id") {
                    Some(target) => {
                        if params_only(&params) {
                            Step::Settled(Dispatch::Cancel { id: target.clone() })
                        } else {
                            Step::Settled(Dispatch::Ignore)
                        }
                    },
                    None => Step::Settled(Dispatch::Ignore),
                }
            } else {
                Step::Settled(Dispatch::Ignore)
            }
        },
        Some(id) => {
            if text::same(method, INITIALIZE_METHOD) {
                return fail_step(
                    Some(id),
                    RpcError::invalid_request(
                        "`initialize` may be sent only once, as the first message".to_owned(),
                    ),
                );
            }
            if text::same(method, CANCEL_METHOD) {
                return fail_step(
                    Some(id),
                    RpcError::invalid_request(
                        "`$/cancelRequest` is a notification; send it without an id".to_owned(),
                    ),
                );
            }
            let handler: usize = match methods.get(method) {
                Some(i) => i,
                None => {
                    return fail_step(Some(id), RpcError::method_not_found(method));
                },
            };
            match in_params {
                Some(at) => fail_step(
                    Some(id),
                    RpcError::invalid_params(
                        text::concat3("duplicate key `", clip(at.as_str()).as_str(), "` in params"),
                    ),
                ),
                None => {
                    proof {
                        json::lemma_object_view(params);
                    }
                    Step::Check { id, params: Json::Object(params), handler }
                },
            }
        },
    }
}

/// Classifies the rest of a request, whose failures are answered under its id.
fn classify_body<H>(
    members: Vec<(String, Json)>,
    repeat: &Option<Vec<String>>,
    methods: &Methods<H>,
    id: Option<String>,
) -> (r: Step)
    ensures
        r@ == classified_body(
            json::members_view(members@),
            repeats::path_view(*repeat),
            methods.names(),
            id_view(id),
        ),
{
    match find_unknown_member(&members) {
        Some(extra) => {
            return fail_step(
                id,
                RpcError::invalid_request(
                    text::concat3("unknown member `", clip(extra.as_str()).as_str(), "`"),
                ),
            );
        },
        None => {},
    }
    let is_version_two = match json::lookup_text(&members, "jsonrpc") {
        Some(v) => text::same(v.as_str(), "2.0"),
        None => false,
    };
    if !is_version_two {
        return fail_step(id, RpcError::invalid_request("`jsonrpc` must be \"2.0\"".to_owned()));
    }
    let method = match json::lookup_text(&members, "method") {
        Some(m) => m.clone(),
        None => {
            return fail_step(
                id,
                RpcError::invalid_request("`method` must be a string".to_owned()),
            );
        },
    };
    match json::lookup(&members, "params") {
        None => {
            let params: Vec<(String, Json)> = Vec::new();
            assert(json::members_view(params@) =~= Seq::empty());
            classify_call(method.as_str(), params, repeat, methods, id)
        },
        Some(p) => match p.copy() {
            Json::Object(params) => {
                proof {
                    json::lemma_object_view(params);
                }
                classify_call(method.as_str(), params, repeat, methods, id)
            },
            _ => fail_step(id, RpcError::invalid_params("params must be an object".to_owned())),
        },
    }
}

/// Classifies a request object.
fn classify_object<H>(
    members: Vec<(String, Json)>,
    repeat: &Option<Vec<String>>,
    methods: &Methods<H>,
    in_flight: &Running,
) -> (r: Step)
    ensures
        r@ == classified_object(
            json::members_view(members@),
            repeats::path_view(*repeat),
            methods.names(),
            in_flight.tasks().dom(),
        ),
{
    proof {
        json::lemma_member(json::members_view(members@), "id"@);
    }
    match repeat {
        Some(path) => {
            assert(text::views(path@).len() == path@.len());
            if path.len() == 1 {
                if json::find(&members, "id").is_none() {
                    return Step::Settled(Dispatch::Ignore);
                }
                return respond_null_step(
                    RpcError::invalid_request(
                        text::concat3(
                            "duplicate key `",
                            clip(path[0].as_str()).as_str(),
                            "` in the request",
                        ),
                    ),
                );
            }
        },
        None => {},
    }
    let id = match json::lookup(&members, "id") {
        None => None,
        Some(Json::Text(s)) => {
            if s.as_str().as_bytes().len() <= MAX_ID_BYTES {
                Some(s.clone())
            } else {
                return respond_null_step(
                    RpcError::invalid_request(
                        text::concat3(
                            "the id is longer than ",
                            text::decimal_string(MAX_ID_BYTES as u64).as_str(),
                            " bytes",
                        ),
                    ),
                );
            }
        },
        Some(_) => {
            return respond_null_step(
                RpcError::invalid_request("the id must be a string".to_owned()),
            );
        },
    };
    match &id {
        Some(s) => {
            if in_flight.has(s.as_str()) {
                return respond_null_step(
                    RpcError::invalid_request(
                        "this id is already in flight on this connection".to_owned(),
                    ).with_data("duplicate_id", Json::Text(s.clone())),
                );
            }
        },
        None => {},
    }
    classify_body(members, repeat, methods, id)
}

/// Classifies what was read from a frame. `repeat` is the repeated key to report for the frame.
pub fn classify<H>(
    parsed: Result<Json, String>,
    repeat: Option<Vec<String>>,
    methods: &Methods<H>,
    in_flight: &Running,
) -> (r: Step)
    ensures
        r@ == classified(
            json::parsed_view(parsed),
            repeats::path_view(repeat),
            methods.names(),
            in_flight.tasks().dom(),
        ),
{
    match parsed {
        Err(e) => respond_null_step(RpcError::parse_error(e)),
        Ok(Json::Object(members)) => {
            proof {
                json::lemma_object_view(members);
            }
            classify_object(members, &repeat, methods, in_flight)
        },
        Ok(Json::Array(_)) => respond_null_step(
            RpcError::invalid_request("batch requests are not supported".to_owned()),
        ),
        Ok(_) => respond_null_step(
            RpcError::invalid_request("a request must be a JSON object".to_owned()),
        ),
    }
}

/// What a request comes to once its method's check has spoken.
pub fn settle(id: String, params: Json, handler: usize, checked: Checked) -> (r: Dispatch)
    ensures
        r@ == after_check(id@, params.view(), handler as int, checked@),
{
    match checked {
        Checked::Passed => Dispatch::Call { id, params, handler },
        Checked::Refused(why) => Dispatch::Respond(
            Response::error(Some(id), RpcError::invalid_params(why)),
        ),
        Checked::Failed => Dispatch::Respond(
            Response::error(
                Some(id),
                RpcError::internal("the method's params check failed".to_owned()),
            ),
        ),
    }
}

proof fn lemma_position_in_range(names: Seq<Seq<char>>, name: Seq<char>)
    ensures
        position(names, name) matches Some(i) ==> 0 <= i < names.len() && names[i] == name,
    decreases names.len(),
{
    if names.len() > 0 && names[0] != name {
        lemma_position_in_range(names.drop_first(), name);
    }
}

/// A request that is left to a check names a handler that there is.
proof fn lemma_checked_handler(
    parsed: Result<JsonView, Seq<char>>,
    repeat: Option<Seq<Seq<char>>>,
    names: Seq<Seq<char>>,
    in_flight: Set<Seq<char>>,
)
    ensures
        classified(parsed, repeat, names, in_flight) matches StepView::Check {
            id,
            params,
            handler,
        } ==> 0 <= handler < names.len(),
{
    match parsed {
        Ok(JsonView::Object(members)) => {
            match json::text_member(members, "method"@) {
                Some(method) => {
                    lemma_position_in_range(names, method);
                },
                None => {},
            }
        },
        _ => {},
    }
}

/// Whether a frame is a module's request, and can be read back.
pub open spec fn requested(
    frame: Seq<u8>,
    id: Seq<char>,
    method: Seq<char>,
    params: JsonView,
) -> bool {
    repeats::is_written(frame, module::call_value(id, method, params))
}

/// Whether a frame is a module's notice that it gives a call up.
pub open spec fn given_up(frame: Seq<u8>, id: Seq<char>) -> bool {
    frame == json::written(module::cancel_value(id))
}

/// Classifies one frame.
///
/// 1. Not JSON, or not an object: answered under `null`.
/// 2. A repeated key in the envelope: answered under `null`, since which of two ids is meant is
///    itself the problem. A notification is not answered.
/// 3. An id that is no text of at most [`MAX_ID_BYTES`]: answered under `null`.
/// 4. An id in flight: answered under `null`, with the id in `error.data.duplicate_id`. Echoing
///    the id would pair the error with the call that is still running.
/// 5. Everything else fails that one request, under its id.
///
/// A module's own requests are classified as they were meant.
pub fn dispatch<H: Handler>(frame: &[u8], methods: &Methods<H>, in_flight: &Running) -> (r:
    Dispatch)
    ensures
        may_come_to(
            classified(
                json::parsed_json(frame@),
                repeats::document_repeat(frame@),
                methods.names(),
                in_flight.tasks().dom(),
            ),
            methods.handlers(),
            r@,
        ),
        forall|id: Seq<char>, method: Seq<char>, params: JsonView| #[trigger]
            requested(frame@, id, method, params) ==> exists|read: JsonView|
                json::reads_as(params, read) && may_come_to(
                    #[trigger] classified(
                        Ok(module::call_value(id, method, read)),
                        None,
                        methods.names(),
                        in_flight.tasks().dom(),
                    ),
                    methods.handlers(),
                    r@,
                ),
        forall|id: Seq<char>| #[trigger]
            given_up(frame@, id) ==> r@ == (DispatchView::Cancel { id }),
{
    let parsed = json::parse(frame);
    let repeat = repeats::find_duplicate_key(frame);
    let step = classify(parsed, repeat, methods, in_flight);
    let ghost expected = step@;
    proof {
        let got = json::parsed_json(frame@)->Ok_0;
        assert forall|id: Seq<char>, method: Seq<char>, params: JsonView| #[trigger]
            requested(frame@, id, method, params) implies json::reads_as(
            params,
            got->Object_0[3].1,
        ) && expected == classified(
            Ok(module::call_value(id, method, got->Object_0[3].1)),
            None,
            methods.names(),
            in_flight.tasks().dom(),
        ) by {
            let v = module::call_value(id, method, params);
            assert(repeats::is_written(frame@, v));
            assert(json::written(v) == frame@);
            module::lemma_request_arrives(id, method, params, got);
        }
        assert forall|id: Seq<char>| #[trigger] given_up(frame@, id) implies expected
            == StepView::Settled(DispatchView::Cancel { id }) by {
            module::lemma_cancel_arrives(id);
            assert(repeats::is_written(frame@, module::cancel_value(id)));
            assert(json::reads_as(module::cancel_value(id), got));
            module::law_a_cancel_is_understood(id, methods.names(), in_flight.tasks().dom());
        }
    }
    match step {
        Step::Settled(d) => {
            assert(expected == StepView::Settled(d@));
            d
        },
        Step::Check { id, params, handler } => {
            proof {
                methods.lemma_same_len();
                lemma_checked_handler(
                    json::parsed_json(frame@),
                    repeats::document_repeat(frame@),
                    methods.names(),
                    in_flight.tasks().dom(),
                );
            }
            let checked = methods.handler(handler).check_params(&params);
            assert(checks(methods.handlers()[handler as int], params.view(), checked@));
            let d = settle(id, params, handler, checked);
            assert(may_come_to(expected, methods.handlers(), d@));
            d
        },
    }
}

// ---------------------------------------------------------------------------
// What classification promises
// ---------------------------------------------------------------------------

/// An object without an id is a notification, and is never answered.
pub proof fn law_notifications_are_never_answered(
    members: Seq<(Seq<char>, JsonView)>,
    repeat: Option<Seq<Seq<char>>>,
    names: Seq<Seq<char>>,
    in_flight: Set<Seq<char>>,
)
    requires
        !json::has_member(members, "id"@),
    ensures
        ({
            let step = classified(Ok(JsonView::Object(members)), repeat, names, in_flight);
            step is Settled && !(step->Settled_0 is Respond) && !(step->Settled_0 is Call)
        }),
{
    json::lemma_member(members, "id"@);
}

/// An id is echoed only where it is within the limit and no call of that id is in flight: an error
/// is never paired with a call that is still running.
pub proof fn law_an_id_in_flight_is_never_echoed(
    parsed: Result<JsonView, Seq<char>>,
    repeat: Option<Seq<Seq<char>>>,
    names: Seq<Seq<char>>,
    in_flight: Set<Seq<char>>,
    id: Seq<char>,
)
    ensures
        classified(parsed, repeat, names, in_flight) matches StepView::Settled(
            DispatchView::Respond(response),
        ) ==> response.id == Some(id) ==> !in_flight.contains(id) && text::byte_len(id)
            <= MAX_ID_BYTES,
        classified(parsed, repeat, names, in_flight) matches StepView::Check {
            id: asked,
            params,
            handler,
        } ==> asked == id ==> !in_flight.contains(id) && text::byte_len(id) <= MAX_ID_BYTES,
{
}

/// With a repeated key in the envelope, whatever is answered is answered under `null`.
pub proof fn law_an_ambiguous_request_is_answered_under_null(
    members: Seq<(Seq<char>, JsonView)>,
    key: Seq<char>,
    names: Seq<Seq<char>>,
    in_flight: Set<Seq<char>>,
)
    ensures
        ({
            let step = classified(
                Ok(JsonView::Object(members)),
                Some(seq![key]),
                names,
                in_flight,
            );
            &&& step is Settled
            &&& !(step->Settled_0 is Ignore) ==> (step->Settled_0 matches DispatchView::Respond(
                response,
            ) && response.id is None)
        }),
{
}

/// A call runs only where its method is served.
pub proof fn law_only_served_methods_run(
    parsed: Result<JsonView, Seq<char>>,
    repeat: Option<Seq<Seq<char>>>,
    names: Seq<Seq<char>>,
    in_flight: Set<Seq<char>>,
)
    ensures
        classified(parsed, repeat, names, in_flight) matches StepView::Check {
            id,
            params,
            handler,
        } ==> {
            &&& 0 <= handler < names.len()
            &&& parsed matches Ok(JsonView::Object(members)) && json::text_member(
                members,
                "method"@,
            ) == Some(names[handler])
        },
        names.len() == 0 ==> !(classified(parsed, repeat, names, in_flight) is Check),
{
    lemma_checked_handler(parsed, repeat, names, in_flight);
    match parsed {
        Ok(JsonView::Object(members)) => {
            match json::text_member(members, "method"@) {
                Some(method) => {
                    lemma_position_in_range(names, method);
                },
                None => {},
            }
        },
        _ => {},
    }
}

/// A request that its method's check refuses, or whose check fails, does not run.
pub proof fn law_refused_params_do_not_run(
    id: Seq<char>,
    params: JsonView,
    handler: int,
    checked: CheckedView,
)
    ensures
        after_check(id, params, handler, checked) is Call <==> checked is Passed,
        !(checked is Passed) ==> (after_check(id, params, handler, checked) matches
            DispatchView::Respond(response) && response.id == Some(id)),
{
}

// ---------------------------------------------------------------------------
// Response lines
// ---------------------------------------------------------------------------

/// The message in the place of a response that is over the frame limit.
pub open spec fn too_large_message() -> Seq<char> {
    "the response would exceed the "@ + text::decimal(MAX_FRAME_BYTES as nat)
        + "-byte frame limit"@
}

/// The line that is written for a response: its own, or where that is over the frame limit, an
/// error under the same id.
pub open spec fn written_line(response: ResponseView) -> Seq<u8> {
    if response.line().len() <= MAX_FRAME_BYTES + 1 {
        response.line()
    } else {
        error_response(response.id, protocol_error(INTERNAL_ERROR, too_large_message())).line()
    }
}

/// The line to write for a response. The peer applies the same limit to what it reads, so a
/// response over it is replaced by an error for the same id.
pub fn response_line(response: Response) -> (r: Vec<u8>)
    ensures
        r@ == written_line(response@),
{
    let line = response.to_line();
    if line.len() <= MAX_FRAME_BYTES + 1 {
        return line;
    }
    Response::error(
        response.id,
        RpcError::internal(
            text::concat3(
                "the response would exceed the ",
                text::decimal_string(MAX_FRAME_BYTES as u64).as_str(),
                "-byte frame limit",
            ),
        ),
    ).to_line()
}

/// A value that is written as a line is one frame to whoever reads it, the bytes of its text, and
/// what comes after the line is left alone.
pub proof fn law_a_line_is_one_frame(v: JsonView, rest: Seq<u8>)
    requires
        json::numbers_on_one_line(v),
        json::written(v).len() <= MAX_FRAME_BYTES,
    ensures
        frame::first_frame(text_line(json::json_text(v)) + rest) == (frame::FirstFrame::Frame {
            frame: json::written(v),
            rest,
        }),
{
    json::law_text_is_one_line(v);
    text::lemma_no_newline(json::json_text(v));
    frame::law_a_written_frame_is_read_back(json::written(v), rest);
}

/// What is written for a response under an id within its limit always fits one frame.
pub proof fn law_written_lines_fit_a_frame(response: ResponseView)
    requires
        response.id matches Some(id) ==> text::byte_len(id) <= MAX_ID_BYTES,
    ensures
        written_line(response).len() <= MAX_FRAME_BYTES + 1,
{
    let instead = error_response(
        response.id,
        protocol_error(INTERNAL_ERROR, too_large_message()),
    );
    lemma_error_line_bound(response.id, protocol_error(INTERNAL_ERROR, too_large_message()));
    assert(json::members_bound(Seq::empty(), 0) == 0);
    let a = "the response would exceed the "@;
    let b = text::decimal(MAX_FRAME_BYTES as nat);
    let c = "-byte frame limit"@;
    reveal_strlit("the response would exceed the ");
    reveal_strlit("-byte frame limit");
    text::lemma_decimal_ascii(MAX_FRAME_BYTES as nat);
    text::lemma_decimal_width(MAX_FRAME_BYTES as nat);
    json::lemma_ascii_len(a);
    json::lemma_ascii_len(c);
    text::lemma_encode_concat(a, b);
    text::lemma_encode_concat(a + b, c);
}

proof fn lemma_code_bound(code: i32)
    ensures
        text::byte_len(text::signed_decimal(code as int)) <= 11,
{
    reveal_strlit("-");
    json::lemma_ascii_len("-"@);
    let magnitude = (if code < 0 {
        -(code as int)
    } else {
        code as int
    }) as nat;
    text::lemma_decimal_ascii(magnitude);
    text::lemma_decimal_width(magnitude);
    text::lemma_encode_concat("-"@, text::decimal(magnitude));
}

proof fn lemma_two_members(a: (Seq<char>, JsonView), b: (Seq<char>, JsonView))
    ensures
        json::size_bound(JsonView::Object(seq![a, b])) == 2 + json::member_bound(a.0, a.1)
            + json::member_bound(b.0, b.1),
{
    let m = seq![a, b];
    assert(json::members_bound(m, 0) == 0);
    assert(json::members_bound(m, 1) == json::member_bound(a.0, a.1));
    assert(json::members_bound(m, 2) == json::members_bound(m, 1) + json::member_bound(b.0, b.1));
}

proof fn lemma_three_members(
    a: (Seq<char>, JsonView),
    b: (Seq<char>, JsonView),
    c: (Seq<char>, JsonView),
)
    ensures
        json::size_bound(JsonView::Object(seq![a, b, c])) == 2 + json::member_bound(a.0, a.1)
            + json::member_bound(b.0, b.1) + json::member_bound(c.0, c.1),
{
    let m = seq![a, b, c];
    assert(json::members_bound(m, 0) == 0);
    assert(json::members_bound(m, 1) == json::member_bound(a.0, a.1));
    assert(json::members_bound(m, 2) == json::members_bound(m, 1) + json::member_bound(b.0, b.1));
    assert(json::members_bound(m, 3) == json::members_bound(m, 2) + json::member_bound(c.0, c.1));
}

proof fn lemma_error_json_bound(e: RpcErrorView)
    ensures
        json::size_bound(e.json()) <= 6 * text::byte_len(e.message) + json::members_bound(
            e.data_members(),
            e.data_members().len() as int,
        ) + 200,
{
    reveal_strlit("code");
    reveal_strlit("data");
    reveal_strlit("message");
    json::lemma_ascii_len("code"@);
    json::lemma_ascii_len("data"@);
    json::lemma_ascii_len("message"@);
    lemma_code_bound(e.code);
    let code = ("code"@, JsonView::Number(text::signed_decimal(e.code as int)));
    let message = ("message"@, JsonView::Text(e.message));
    let data = ("data"@, JsonView::Object(e.data_members()));
    lemma_two_members(code, message);
    lemma_three_members(code, data, message);
}

/// An error takes little more than its message, its data and its id.
pub proof fn lemma_error_line_bound(id: Option<Seq<char>>, e: RpcErrorView)
    requires
        id matches Some(s) ==> text::byte_len(s) <= MAX_ID_BYTES,
    ensures
        error_response(id, e).line().len() <= 6 * text::byte_len(e.message) + json::members_bound(
            e.data_members(),
            e.data_members().len() as int,
        ) + 2048,
{
    let v = error_response(id, e).json();
    json::law_text_is_bounded(v);
    lemma_error_json_bound(e);
    reveal_strlit("error");
    reveal_strlit("id");
    reveal_strlit("jsonrpc");
    reveal_strlit("2.0");
    json::lemma_ascii_len("error"@);
    json::lemma_ascii_len("id"@);
    json::lemma_ascii_len("jsonrpc"@);
    json::lemma_ascii_len("2.0"@);
    assert(json::size_bound(id_json(id)) <= 6 * MAX_ID_BYTES + 4);
    lemma_three_members(
        ("error"@, e.json()),
        ("id"@, id_json(id)),
        ("jsonrpc"@, JsonView::Text("2.0"@)),
    );
}

// ---------------------------------------------------------------------------
// One connection
// ---------------------------------------------------------------------------

/// The limits of one connection. Times are in nanoseconds.
#[derive(Debug, Clone, Copy, PartialEq, Eq, Structural)]
pub struct Limits {
    pub max_in_flight: usize,
    pub call_timeout: u64,
    /// How long one response may take to be written before the connection is given up on.
    pub write_timeout: u64,
}

impl Default for Limits {
    fn default() -> (r: Limits)
        ensures
            r == (Limits {
                max_in_flight: MAX_IN_FLIGHT_PER_CONNECTION,
                call_timeout: CALL_TIMEOUT,
                write_timeout: WRITE_TIMEOUT,
            }),
    {
        Limits {
            max_in_flight: MAX_IN_FLIGHT_PER_CONNECTION,
            call_timeout: CALL_TIMEOUT,
            write_timeout: WRITE_TIMEOUT,
        }
    }
}

/// Why a connection ended. By then every call in flight was stopped, and none of them was
/// answered: the connection that they would be answered on is gone.
#[derive(Debug)]
pub enum Ended {
    /// The module closed the connection.
    PeerClosed,
    /// A line was over the frame limit.
    TooLong,
    /// Reading failed.
    ReadFailed(IoFault),
    /// Writing a response failed, or took too long.
    WriteFailed(IoFault),
    /// The connection was stopped by a revocation.
    Stopped,
}

impl Ended {
    pub open spec fn shown(self) -> Seq<char> {
        match self {
            Ended::PeerClosed => "PeerClosed"@,
            Ended::TooLong => "TooLong"@,
            Ended::ReadFailed(e) => "ReadFailed("@ + e.shown@ + ")"@,
            Ended::WriteFailed(e) => "WriteFailed("@ + e.shown@ + ")"@,
            Ended::Stopped => "Stopped"@,
        }
    }

    /// What a developer is shown.
    pub fn to_shown(&self) -> (r: String)
        ensures
            r@ == self.shown(),
    {
        match self {
            Ended::PeerClosed => "PeerClosed".to_owned(),
            Ended::TooLong => "TooLong".to_owned(),
            Ended::ReadFailed(e) => text::concat3("ReadFailed(", e.shown.as_str(), ")"),
            Ended::WriteFailed(e) => text::concat3("WriteFailed(", e.shown.as_str(), ")"),
            Ended::Stopped => "Stopped".to_owned(),
        }
    }
}

/// How a connection ends when no more frames can be read from it.
pub fn conn_end(end: FrameError) -> (r: Ended)
    ensures
        match end {
            FrameError::TooLong { limit } => r is TooLong,
            FrameError::Eof => r is PeerClosed,
            FrameError::Io(e) => r == Ended::ReadFailed(e),
        },
{
    match end {
        FrameError::TooLong { .. } => Ended::TooLong,
        FrameError::Eof => Ended::PeerClosed,
        FrameError::Io(e) => Ended::ReadFailed(e),
    }
}

/// Whole milliseconds in some nanoseconds.
pub open spec fn millis(nanos: u64) -> nat {
    (nanos / 1_000_000) as nat
}

/// What to do on a connection, as mathematics.
pub enum ActView {
    Respond(ResponseView),
    Run { id: Seq<char>, params: JsonView, handler: int },
    Abort { task: u64 },
    Nothing,
}

/// What to do on a connection.
#[derive(Debug)]
pub enum Act {
    /// Answer.
    Respond(Response),
    /// Run that handler, and report its task with [`Conn::started`].
    Run { id: String, params: Json, handler: usize },
    /// Stop that task. The call is answered once the task has ended.
    Abort { task: u64 },
    Nothing,
}

impl View for Act {
    type V = ActView;

    open spec fn view(&self) -> ActView {
        match self {
            Act::Respond(r) => ActView::Respond(r@),
            Act::Run { id, params, handler } => ActView::Run {
                id: id@,
                params: params.view(),
                handler: *handler as int,
            },
            Act::Abort { task } => ActView::Abort { task: *task },
            Act::Nothing => ActView::Nothing,
        }
    }
}

/// The message of a call beyond the limit.
pub open spec fn busy_message(max_in_flight: usize) -> Seq<char> {
    text::decimal(max_in_flight as nat) + " calls are already in flight on this connection"@
}

/// What a classified frame makes a connection do: a call beyond the limit is answered at once, a
/// cancelled call has its task stopped.
pub open spec fn acted(d: DispatchView, tasks: Map<Seq<char>, u64>, limits: Limits) -> ActView {
    match d {
        DispatchView::Respond(response) => ActView::Respond(response),
        DispatchView::Ignore => ActView::Nothing,
        DispatchView::Cancel { id } => if tasks.contains_key(id) {
            ActView::Abort { task: tasks[id] }
        } else {
            ActView::Nothing
        },
        DispatchView::Call { id, params, handler } => if tasks.len() >= limits.max_in_flight {
            ActView::Respond(
                error_response(
                    Some(id),
                    application_error(ErrorKind::Busy, busy_message(limits.max_in_flight)),
                ),
            )
        } else {
            ActView::Run { id, params, handler }
        },
    }
}

/// How a task ended.
#[derive(Debug)]
pub enum Outcome {
    /// The handler answered.
    Answered(Result<Json, RpcError>),
    /// The call took longer than it may.
    TimedOut,
    /// The task was stopped.
    Cancelled,
    /// The handler ended without an answer.
    Failed,
}

/// What a call is answered once its task has ended.
pub open spec fn answer(outcome: Outcome, limits: Limits) -> Result<JsonView, RpcErrorView> {
    match outcome {
        Outcome::Answered(Ok(v)) => Ok(v.view()),
        Outcome::Answered(Err(e)) => Err(e@),
        Outcome::TimedOut => Err(
            application_error(
                ErrorKind::Timeout,
                "the kernel gave up after "@ + text::decimal(millis(limits.call_timeout))
                    + "ms; the call is not retried"@,
            ),
        ),
        Outcome::Cancelled => Err(
            application_error(
                ErrorKind::Cancelled,
                "cancelled by $/cancelRequest; any side effect already committed stays"@,
            ),
        ),
        Outcome::Failed => Err(
            protocol_error(INTERNAL_ERROR, "the handler failed without answering"@),
        ),
    }
}

/// The calls of one connection.
pub struct Conn {
    limits: Limits,
    running: Running,
}

impl Conn {
    pub closed spec fn limits(&self) -> Limits {
        self.limits
    }

    /// The task of each call in flight.
    pub closed spec fn tasks(&self) -> Map<Seq<char>, u64> {
        self.running.tasks()
    }

    /// No more calls are in flight than may be.
    pub closed spec fn wf(&self) -> bool {
        &&& self.running.wf()
        &&& self.running.tasks().len() <= self.limits.max_in_flight
    }

    /// No more calls are in flight than may be.
    pub proof fn law_calls_in_flight_are_bounded(&self)
        requires
            self.wf(),
        ensures
            self.tasks().len() <= self.limits().max_in_flight,
    {
    }

    /// A task runs one call: no two ids in flight share it.
    pub proof fn law_a_task_runs_one_call(&self, a: Seq<char>, b: Seq<char>)
        requires
            self.wf(),
            self.tasks().contains_key(a),
            self.tasks().contains_key(b),
            self.tasks()[a] == self.tasks()[b],
        ensures
            a == b,
    {
    }

    /// There are finitely many calls in flight.
    pub proof fn lemma_finite(&self)
        requires
            self.wf(),
        ensures
            self.tasks().dom().finite(),
    {
    }

    pub fn new(limits: Limits) -> (r: Conn)
        ensures
            r.wf(),
            r.limits() == limits,
            r.tasks() == Map::<Seq<char>, u64>::empty(),
    {
        Conn { limits, running: Running::new() }
    }

    /// How many calls are in flight.
    pub fn in_flight(&self) -> (r: usize)
        ensures
            r == self.tasks().len(),
    {
        self.running.len()
    }

    /// What a classified frame makes the connection do.
    pub fn act(&self, d: Dispatch) -> (r: Act)
        ensures
            r@ == acted(d@, self.tasks(), self.limits()),
    {
        match d {
            Dispatch::Respond(response) => Act::Respond(response),
            Dispatch::Ignore => Act::Nothing,
            Dispatch::Cancel { id } => match self.running.task_of(id.as_str()) {
                Some(task) => Act::Abort { task },
                None => Act::Nothing,
            },
            Dispatch::Call { id, params, handler } => {
                if self.running.len() >= self.limits.max_in_flight {
                    let mut message = text::decimal_string(self.limits.max_in_flight as u64);
                    message.append(" calls are already in flight on this connection");
                    Act::Respond(
                        Response::error(Some(id), RpcError::application(ErrorKind::Busy, message)),
                    )
                } else {
                    Act::Run { id, params, handler }
                }
            },
        }
    }

    /// What to do about one frame.
    pub fn on_frame<H: Handler>(&self, bytes: &[u8], methods: &Methods<H>) -> (r: Act)
        ensures
            exists|d: DispatchView|
                #![trigger acted(d, self.tasks(), self.limits())]
                may_come_to(
                    classified(
                        json::parsed_json(bytes@),
                        repeats::document_repeat(bytes@),
                        methods.names(),
                        self.tasks().dom(),
                    ),
                    methods.handlers(),
                    d,
                ) && r@ == acted(d, self.tasks(), self.limits()),
    {
        let d = dispatch(bytes, methods, &self.running);
        let ghost seen = d@;
        let r = self.act(d);
        assert(r@ == acted(seen, self.tasks(), self.limits()));
        r
    }

    /// A call that was to run has begun, in that task.
    pub fn started(&mut self, id: String, task: u64)
        requires
            old(self).wf(),
            old(self).tasks().len() < old(self).limits().max_in_flight,
            !old(self).tasks().contains_key(id@),
            !old(self).tasks().contains_value(task),
        ensures
            final(self).wf(),
            final(self).limits() == old(self).limits(),
            final(self).tasks() == old(self).tasks().insert(id@, task),
    {
        self.running.insert(id, task);
    }

    /// A task has ended: the response to its call, which is in flight no more.
    pub fn finished(&mut self, task: u64, outcome: Outcome) -> (r: Option<Response>)
        requires
            old(self).wf(),
        ensures
            final(self).wf(),
            final(self).limits() == old(self).limits(),
            match r {
                Some(response) => {
                    &&& response.id matches Some(id)
                    &&& old(self).tasks().contains_key(id@)
                    &&& old(self).tasks()[id@] == task
                    &&& final(self).tasks() == old(self).tasks().remove(id@)
                    &&& response@.outcome == answer(outcome, old(self).limits())
                    &&& !final(self).tasks().contains_value(task)
                },
                None => !old(self).tasks().contains_value(task) && final(self).tasks()
                    == old(self).tasks(),
            },
    {
        let answer = match outcome {
            Outcome::Answered(r) => r,
            Outcome::TimedOut => Err(
                RpcError::application(
                    ErrorKind::Timeout,
                    text::concat3(
                        "the kernel gave up after ",
                        text::decimal_string(self.limits.call_timeout / 1_000_000).as_str(),
                        "ms; the call is not retried",
                    ),
                ),
            ),
            Outcome::Cancelled => Err(
                RpcError::application(
                    ErrorKind::Cancelled,
                    "cancelled by $/cancelRequest; any side effect already committed stays"
                        .to_owned(),
                ),
            ),
            Outcome::Failed => Err(
                RpcError::internal("the handler failed without answering".to_owned()),
            ),
        };
        match self.running.remove(task) {
            Some(id) => Some(Response { id: Some(id), outcome: answer }),
            None => None,
        }
    }
}

/// A cancel stops the task of the call it names, which runs no other call.
pub proof fn law_a_cancel_stops_only_its_target(conn: Conn, id: Seq<char>, other: Seq<char>)
    requires
        conn.wf(),
    ensures
        conn.tasks().contains_key(id) ==> acted(
            DispatchView::Cancel { id },
            conn.tasks(),
            conn.limits(),
        ) == (ActView::Abort { task: conn.tasks()[id] }),
        !conn.tasks().contains_key(id) ==> acted(
            DispatchView::Cancel { id },
            conn.tasks(),
            conn.limits(),
        ) is Nothing,
        conn.tasks().contains_key(id) && conn.tasks().contains_key(other) && other != id
            ==> conn.tasks()[other] != conn.tasks()[id],
{
    if conn.tasks().contains_key(id) && conn.tasks().contains_key(other) && conn.tasks()[other]
        == conn.tasks()[id] {
        conn.law_a_task_runs_one_call(other, id);
    }
}

// ---------------------------------------------------------------------------
// Running a connection
// ---------------------------------------------------------------------------

/// After this many frames in a row one ended call is answered before the next frame. Frames come
/// first otherwise, and a peer that never stops sending would keep ended calls from being answered.
pub const FRAMES_BEFORE_REAPING: usize = 16;

/// Bytes waiting to be written from which on no more frames are read. One response of the largest
/// size never stops reading by itself.
pub const QUEUE_HIGH_WATER: usize = 2_097_152;

/// What a connection waits for.
#[derive(Debug, Clone, Copy, PartialEq, Eq, Structural)]
pub enum Wait {
    /// Look whether the stream has ended, then answer one ended call if there is one, then take
    /// the frame that was there.
    ReapFirst,
    /// Wait for a frame if `read`, for an ended call, or for the writer.
    Next { read: bool },
}

/// What the loop of a connection has to do.
#[derive(Debug)]
pub enum Effect {
    /// Queue that line to be written.
    Send(Vec<u8>),
    /// Run that handler, and report its task with [`Serve::started`].
    Run { id: String, params: Json, handler: usize },
    /// Stop that task.
    Abort { task: u64 },
    Nothing,
}

/// One connection after its handshake.
///
/// Responses wait in a queue that is bounded by not reading, never by waiting for the peer: while
/// the queue is over the mark no frame is read, but ended calls are still answered and the writer
/// is still watched.
pub struct Serve {
    conn: Conn,
    frames_in_a_row: usize,
    queued: usize,
    may_read: bool,
    starting: Option<String>,
}

/// What is queued after one more line.
pub open spec fn queue_with(queued: usize, bytes: nat) -> usize {
    if queued + bytes <= usize::MAX {
        (queued + bytes) as usize
    } else {
        usize::MAX
    }
}

/// The most bytes that one response takes in the queue.
pub open spec fn largest_line() -> nat {
    (MAX_FRAME_BYTES + 1) as nat
}

/// The most bytes that wait to be written, if every call in flight were answered with the largest
/// line, as long as frames are read only while the queue is below the mark.
pub open spec fn queue_bound(limits: Limits) -> nat {
    (QUEUE_HIGH_WATER - 1 + largest_line() * (limits.max_in_flight + 1)) as nat
}

impl Serve {
    pub closed spec fn conn(&self) -> Conn {
        self.conn
    }

    /// How many frames were taken since the last ended call was answered.
    pub closed spec fn frames_in_a_row(&self) -> usize {
        self.frames_in_a_row
    }

    /// How many bytes wait to be written.
    pub closed spec fn queued(&self) -> usize {
        self.queued
    }

    /// Whether a frame may be taken now.
    pub closed spec fn may_read(&self) -> bool {
        self.may_read
    }

    /// The id of the call that is to run and has not begun yet.
    pub closed spec fn starting(&self) -> Option<Seq<char>> {
        id_view(self.starting)
    }

    /// How many calls are in flight or about to be.
    pub open spec fn calls(&self) -> nat {
        self.conn().tasks().len() + (if self.starting() is Some {
            1nat
        } else {
            0
        })
    }

    /// How many bytes would wait if every call were answered with the largest line.
    pub open spec fn load(&self) -> nat {
        self.queued() as nat + largest_line() * self.calls()
    }

    /// No more calls are in flight than may be, under ids that can be echoed, and what waits to be
    /// written is bounded.
    pub open spec fn wf(&self) -> bool {
        &&& self.conn().wf()
        &&& self.frames_in_a_row() <= FRAMES_BEFORE_REAPING
        &&& self.calls() <= self.conn().limits().max_in_flight
        &&& forall|id: Seq<char>| #[trigger]
            self.conn().tasks().contains_key(id) ==> text::byte_len(id) <= MAX_ID_BYTES
        &&& self.starting() matches Some(id) ==> text::byte_len(id) <= MAX_ID_BYTES
            && !self.conn().tasks().contains_key(id)
        &&& self.load() <= queue_bound(self.conn().limits()) + largest_line()
        &&& self.frames_in_a_row() >= 2 ==> self.load() <= queue_bound(self.conn().limits())
        &&& self.may_read() ==> self.queued() < QUEUE_HIGH_WATER || (self.frames_in_a_row() == 0
            && self.load() <= queue_bound(self.conn().limits()))
    }

    pub fn new(limits: Limits) -> (r: Serve)
        ensures
            r.wf(),
            r.conn().limits() == limits,
            r.conn().tasks() == Map::<Seq<char>, u64>::empty(),
            r.frames_in_a_row() == 0,
            r.queued() == 0,
            !r.may_read(),
            r.starting() is None,
    {
        let r = Serve {
            conn: Conn::new(limits),
            frames_in_a_row: 0,
            queued: 0,
            may_read: false,
            starting: None,
        };
        proof {
            lemma_load(r.queued as nat, r.calls(), limits);
        }
        r
    }

    /// What to wait for next. A frame may be taken where this says to look for one.
    pub fn next(&mut self) -> (r: Wait)
        requires
            old(self).wf(),
        ensures
            final(self).wf(),
            final(self).conn() == old(self).conn(),
            final(self).queued() == old(self).queued(),
            final(self).starting() == old(self).starting(),
            if old(self).frames_in_a_row() >= FRAMES_BEFORE_REAPING {
                &&& r == Wait::ReapFirst
                &&& final(self).frames_in_a_row() == 0
                &&& final(self).may_read()
            } else {
                &&& r == (Wait::Next { read: old(self).queued() < QUEUE_HIGH_WATER })
                &&& final(self).frames_in_a_row() == old(self).frames_in_a_row()
                &&& final(self).may_read() == (old(self).queued() < QUEUE_HIGH_WATER)
            },
    {
        if self.frames_in_a_row >= FRAMES_BEFORE_REAPING {
            self.frames_in_a_row = 0;
            self.may_read = true;
            Wait::ReapFirst
        } else {
            self.may_read = self.queued < QUEUE_HIGH_WATER;
            Wait::Next { read: self.queued < QUEUE_HIGH_WATER }
        }
    }

    /// Queues the line of a response.
    fn enqueue(&mut self, response: Response) -> (r: Effect)
        ensures
            final(self).conn() == old(self).conn(),
            final(self).frames_in_a_row() == old(self).frames_in_a_row(),
            final(self).may_read() == old(self).may_read(),
            final(self).starting() == old(self).starting(),
            final(self).queued() == queue_with(old(self).queued(), written_line(response@).len()),
            r matches Effect::Send(line) && line@ == written_line(response@),
    {
        let line = response_line(response);
        if self.queued <= usize::MAX - line.len() {
            self.queued = self.queued + line.len();
        } else {
            self.queued = usize::MAX;
        }
        Effect::Send(line)
    }

    /// A frame was read.
    pub fn on_frame<H: Handler>(&mut self, bytes: &[u8], methods: &Methods<H>) -> (r: Effect)
        requires
            old(self).wf(),
            old(self).may_read(),
            old(self).starting() is None,
        ensures
            final(self).wf(),
            final(self).conn() == old(self).conn(),
            !final(self).may_read(),
            final(self).frames_in_a_row() == (if old(self).frames_in_a_row()
                < FRAMES_BEFORE_REAPING {
                old(self).frames_in_a_row() + 1
            } else {
                old(self).frames_in_a_row() as int
            }),
            final(self).starting() == (match r {
                Effect::Run { id, params, handler } => Some(id@),
                _ => None,
            }),
            exists|d: DispatchView|
                #![trigger acted(d, old(self).conn().tasks(), old(self).conn().limits())]
                may_come_to(
                    classified(
                        json::parsed_json(bytes@),
                        repeats::document_repeat(bytes@),
                        methods.names(),
                        old(self).conn().tasks().dom(),
                    ),
                    methods.handlers(),
                    d,
                ) && effect_of(
                    acted(d, old(self).conn().tasks(), old(self).conn().limits()),
                    old(self).queued(),
                    final(self).queued(),
                    r,
                ),
    {
        if self.frames_in_a_row < FRAMES_BEFORE_REAPING {
            self.frames_in_a_row = self.frames_in_a_row + 1;
        }
        self.may_read = false;
        let act = self.conn.on_frame(bytes, methods);
        proof {
            lemma_act_is_bounded(
                classified(
                    json::parsed_json(bytes@),
                    repeats::document_repeat(bytes@),
                    methods.names(),
                    self.conn.tasks().dom(),
                ),
                json::parsed_json(bytes@),
                repeats::document_repeat(bytes@),
                methods.names(),
                methods.handlers(),
                self.conn.tasks(),
                self.conn.limits(),
                act@,
            );
            lemma_load(old(self).queued() as nat, old(self).calls(), self.conn.limits());
        }
        match act {
            Act::Respond(response) => {
                proof {
                    law_written_lines_fit_a_frame(response@);
                }
                self.enqueue(response)
            },
            Act::Run { id, params, handler } => {
                self.starting = Some(id.clone());
                proof {
                    lemma_one_more(old(self).calls());
                }
                Effect::Run { id, params, handler }
            },
            Act::Abort { task } => Effect::Abort { task },
            Act::Nothing => Effect::Nothing,
        }
    }

    /// The reader gave a frame, or said why there are no more, or is gone. Whatever else is ready
    /// at the time, an end of the stream ends the connection, and nothing more is written.
    pub fn on_read<H: Handler>(
        &mut self,
        item: Option<Result<Vec<u8>, FrameError>>,
        methods: &Methods<H>,
    ) -> (r: Result<Effect, Ended>)
        requires
            old(self).wf(),
            old(self).may_read(),
            old(self).starting() is None,
        ensures
            final(self).wf(),
            final(self).conn() == old(self).conn(),
            match item {
                Some(Ok(bytes)) => {
                    &&& r is Ok
                    &&& !final(self).may_read()
                    &&& final(self).frames_in_a_row() == (if old(self).frames_in_a_row()
                        < FRAMES_BEFORE_REAPING {
                        old(self).frames_in_a_row() + 1
                    } else {
                        old(self).frames_in_a_row() as int
                    })
                    &&& final(self).starting() == (match r->Ok_0 {
                        Effect::Run { id, params, handler } => Some(id@),
                        _ => None,
                    })
                    &&& exists|d: DispatchView|
                        #![trigger acted(d, old(self).conn().tasks(), old(self).conn().limits())]
                        may_come_to(
                            classified(
                                json::parsed_json(bytes@),
                                repeats::document_repeat(bytes@),
                                methods.names(),
                                old(self).conn().tasks().dom(),
                            ),
                            methods.handlers(),
                            d,
                        ) && effect_of(
                            acted(d, old(self).conn().tasks(), old(self).conn().limits()),
                            old(self).queued(),
                            final(self).queued(),
                            r->Ok_0,
                        )
                },
                Some(Err(FrameError::TooLong { limit })) => r == Err::<Effect, Ended>(
                    Ended::TooLong,
                ) && *final(self) == *old(self),
                Some(Err(FrameError::Eof)) => r == Err::<Effect, Ended>(Ended::PeerClosed)
                    && *final(self) == *old(self),
                Some(Err(FrameError::Io(e))) => r == Err::<Effect, Ended>(Ended::ReadFailed(e))
                    && *final(self) == *old(self),
                None => r == Err::<Effect, Ended>(Ended::PeerClosed) && *final(self)
                    == *old(self),
            },
    {
        match item {
            Some(Ok(bytes)) => Ok(self.on_frame(bytes.as_slice(), methods)),
            Some(Err(end)) => Err(conn_end(end)),
            None => Err(Ended::PeerClosed),
        }
    }

    /// The call that was to run has begun, in that task.
    pub fn started(&mut self, task: u64)
        requires
            old(self).wf(),
            old(self).starting() is Some,
            !old(self).conn().tasks().contains_value(task),
        ensures
            final(self).wf(),
            final(self).conn().limits() == old(self).conn().limits(),
            final(self).conn().tasks() == old(self).conn().tasks().insert(
                old(self).starting()->Some_0,
                task,
            ),
            final(self).starting() is None,
            final(self).frames_in_a_row() == old(self).frames_in_a_row(),
            final(self).may_read() == old(self).may_read(),
            final(self).queued() == old(self).queued(),
    {
        match self.starting.take() {
            Some(id) => {
                proof {
                    self.conn.lemma_finite();
                }
                self.conn.started(id, task);
            },
            None => {},
        }
    }

    /// A task has ended.
    pub fn on_finished(&mut self, task: u64, outcome: Outcome) -> (r: Effect)
        requires
            old(self).wf(),
        ensures
            final(self).wf(),
            final(self).frames_in_a_row() == 0,
            final(self).may_read() == old(self).may_read(),
            final(self).starting() == old(self).starting(),
            final(self).conn().limits() == old(self).conn().limits(),
            if old(self).conn().tasks().contains_value(task) {
                exists|id: Seq<char>|
                    {
                        &&& old(self).conn().tasks().contains_key(id)
                        &&& old(self).conn().tasks()[id] == task
                        &&& final(self).conn().tasks() == old(self).conn().tasks().remove(id)
                        &&& effect_of(
                            ActView::Respond(
                                #[trigger] finished_response(
                                    id,
                                    outcome,
                                    old(self).conn().limits(),
                                ),
                            ),
                            old(self).queued(),
                            final(self).queued(),
                            r,
                        )
                    }
            } else {
                r is Nothing && final(self).conn().tasks() == old(self).conn().tasks()
                    && final(self).queued() == old(self).queued()
            },
    {
        proof {
            self.conn.lemma_finite();
            lemma_load(self.queued as nat, self.calls(), self.conn.limits());
        }
        self.frames_in_a_row = 0;
        let ghost before = self.conn.tasks();
        match self.conn.finished(task, outcome) {
            Some(response) => {
                let ghost view = response@;
                let ghost id = response.id->Some_0@;
                proof {
                    law_written_lines_fit_a_frame(view);
                    lemma_one_more((old(self).calls() - 1) as nat);
                }
                let r = self.enqueue(response);
                proof {
                    assert(before.contains_key(id) && before[id] == task);
                    assert(before.contains_value(task));
                    assert(view == finished_response(id, outcome, old(self).conn().limits()));
                }
                r
            },
            None => Effect::Nothing,
        }
    }

    /// A line was written.
    pub fn on_written(&mut self, bytes: usize)
        requires
            old(self).wf(),
        ensures
            final(self).wf(),
            final(self).conn() == old(self).conn(),
            final(self).frames_in_a_row() == old(self).frames_in_a_row(),
            final(self).may_read() == old(self).may_read(),
            final(self).starting() == old(self).starting(),
            final(self).queued() == (if old(self).queued() >= bytes {
                old(self).queued() - bytes
            } else {
                0
            }),
    {
        if self.queued >= bytes {
            self.queued = self.queued - bytes;
        } else {
            self.queued = 0;
        }
    }

    /// A task runs one call, on a connection that is served too.
    pub proof fn law_a_task_runs_one_call(&self, a: Seq<char>, b: Seq<char>)
        requires
            self.wf(),
            self.conn().tasks().contains_key(a),
            self.conn().tasks().contains_key(b),
            self.conn().tasks()[a] == self.conn().tasks()[b],
        ensures
            a == b,
    {
        self.conn.law_a_task_runs_one_call(a, b);
    }

    /// What waits to be written is bounded, however fast the peer sends and however slowly it
    /// reads: by the mark, by one largest line for each call that may be in flight, and by two
    /// more.
    pub proof fn law_the_queue_is_bounded(&self)
        requires
            self.wf(),
        ensures
            self.queued() < QUEUE_HIGH_WATER + (MAX_FRAME_BYTES + 1) * (
            self.conn().limits().max_in_flight + 2),
    {
        let n = self.conn().limits().max_in_flight as nat;
        lemma_one_more((n + 1) as nat);
        lemma_lines(self.calls());
    }
}

/// A call more is a largest line more.
proof fn lemma_one_more(calls: nat)
    ensures
        largest_line() * (calls + 1) == largest_line() * calls + largest_line(),
{
    assert(largest_line() * (calls + 1) == largest_line() * calls + largest_line())
        by (nonlinear_arith);
}

proof fn lemma_lines(calls: nat)
    ensures
        largest_line() * calls >= 0,
{
    assert(largest_line() * calls >= 0) by (nonlinear_arith);
}

/// Below the mark there is room for one more response, whatever calls are in flight.
proof fn lemma_load(queued: nat, calls: nat, limits: Limits)
    requires
        calls <= limits.max_in_flight,
    ensures
        largest_line() * calls >= 0,
        queued < QUEUE_HIGH_WATER ==> queued + largest_line() * calls + largest_line()
            <= queue_bound(limits),
{
    let n = limits.max_in_flight as nat;
    lemma_lines(calls);
    lemma_one_more(n);
    assert(largest_line() * calls <= largest_line() * n) by (nonlinear_arith)
        requires
            calls <= n,
    ;
}

/// Whatever a frame makes a connection answer or run has an id that can be echoed, and that is not
/// in flight.
proof fn lemma_act_is_bounded<H: Handler>(
    step: StepView,
    parsed: Result<JsonView, Seq<char>>,
    repeat: Option<Seq<Seq<char>>>,
    names: Seq<Seq<char>>,
    handlers: Seq<H>,
    tasks: Map<Seq<char>, u64>,
    limits: Limits,
    act: ActView,
)
    requires
        step == classified(parsed, repeat, names, tasks.dom()),
        exists|d: DispatchView|
            #![trigger acted(d, tasks, limits)]
            may_come_to(step, handlers, d) && act == acted(d, tasks, limits),
    ensures
        match act {
            ActView::Respond(response) => response.id matches Some(id) ==> text::byte_len(id)
                <= MAX_ID_BYTES,
            ActView::Run { id, params, handler } => {
                &&& text::byte_len(id) <= MAX_ID_BYTES
                &&& !tasks.contains_key(id)
                &&& tasks.len() < limits.max_in_flight
            },
            _ => true,
        },
{
    let d = choose|d: DispatchView|
        #![trigger acted(d, tasks, limits)]
        may_come_to(step, handlers, d) && act == acted(d, tasks, limits);
    match step {
        StepView::Settled(settled) => {
            match settled {
                DispatchView::Respond(response) => {
                    match response.id {
                        Some(id) => law_an_id_in_flight_is_never_echoed(
                            parsed,
                            repeat,
                            names,
                            tasks.dom(),
                            id,
                        ),
                        None => {},
                    }
                },
                _ => {
                    assert(!(settled is Call));
                },
            }
        },
        StepView::Check { id, params, handler } => {
            law_an_id_in_flight_is_never_echoed(parsed, repeat, names, tasks.dom(), id);
            let checked = choose|checked: CheckedView|
                checks(handlers[handler], params, checked) && d == #[trigger] after_check(
                    id,
                    params,
                    handler,
                    checked,
                );
            assert(d == after_check(id, params, handler, checked));
        },
    }
}

/// The response to a call whose task has ended.
pub open spec fn finished_response(id: Seq<char>, outcome: Outcome, limits: Limits) -> ResponseView {
    ResponseView { id: Some(id), outcome: answer(outcome, limits) }
}

/// What an act comes to in the loop: a response is queued as the line that is written for it.
pub open spec fn effect_of(act: ActView, queued: usize, queued_then: usize, effect: Effect) -> bool {
    match act {
        ActView::Respond(response) => {
            &&& effect matches Effect::Send(line)
            &&& line@ == written_line(response)
            &&& queued_then == queue_with(queued, line@.len())
        },
        ActView::Run { id, params, handler } => {
            &&& effect matches Effect::Run { id: i, params: p, handler: h }
            &&& i@ == id
            &&& p.view() == params
            &&& h == handler
            &&& queued_then == queued
        },
        ActView::Abort { task } => effect == (Effect::Abort { task }) && queued_then == queued,
        ActView::Nothing => effect is Nothing && queued_then == queued,
    }
}

/// What a write that took too long is told as.
pub fn write_timeout_fault(limits: Limits) -> (r: IoFault)
    ensures
        r.text@ == "a response took longer than "@ + text::decimal(millis(limits.write_timeout))
            + "ms to write"@,
        r.shown@ == "Custom { kind: TimedOut, error: "@ + text::debug_text(r.text@) + " }"@,
{
    IoFault::timed_out(
        text::concat3(
            "a response took longer than ",
            text::decimal_string(limits.write_timeout / 1_000_000).as_str(),
            "ms to write",
        ).as_str(),
    )
}

// ---------------------------------------------------------------------------
// What a connection promises
// ---------------------------------------------------------------------------

/// A call whose handler answered is answered with exactly that: a success with the handler's own
/// value, an error with the handler's own code, message, kind and data. No other ending gives a
/// result, and each of the others has an error of its own.
pub proof fn law_a_call_is_answered_with_what_its_handler_said(
    id: Seq<char>,
    outcome: Outcome,
    limits: Limits,
)
    ensures
        ({
            let response = finished_response(id, outcome, limits);
            &&& response.id == Some(id)
            &&& response.outcome == answer(outcome, limits)
            &&& response.outcome is Ok <==> (outcome matches Outcome::Answered(said) && said is Ok)
            &&& match outcome {
                Outcome::Answered(Ok(value)) => response.outcome->Ok_0 == value.view(),
                Outcome::Answered(Err(error)) => {
                    let told = response.outcome->Err_0;
                    &&& told.code == error.code
                    &&& told.message == error.message@
                    &&& told.kind == error.kind
                    &&& match (told.data, error.data) {
                        (Some(a), Some(b)) => {
                            &&& a.len() == b@.len()
                            &&& forall|i: int|
                                0 <= i < a.len() ==> (#[trigger] a[i]).0 == b@[i].0@ && a[i].1
                                    == b@[i].1.view()
                        },
                        (None, None) => true,
                        _ => false,
                    }
                },
                Outcome::TimedOut => {
                    let told = response.outcome->Err_0;
                    &&& told.code == -32000
                    &&& told.kind == Some(ErrorKind::Timeout)
                    &&& told.message == "the kernel gave up after "@ + text::decimal(
                        (limits.call_timeout / 1_000_000) as nat,
                    ) + "ms; the call is not retried"@
                    &&& told.data is None
                },
                Outcome::Cancelled => {
                    let told = response.outcome->Err_0;
                    &&& told.code == -32000
                    &&& told.kind == Some(ErrorKind::Cancelled)
                    &&& told.message
                        == "cancelled by $/cancelRequest; any side effect already committed stays"@
                    &&& told.data is None
                },
                Outcome::Failed => {
                    let told = response.outcome->Err_0;
                    &&& told.code == -32603
                    &&& told.kind is None
                    &&& told.message == "the handler failed without answering"@
                    &&& told.data is None
                },
            }
        }),
{
}

/// A response says what it is under the name that it has on the wire: a success has a result and no
/// error, a failure an error and no result, and either names the request and the protocol.
pub proof fn law_a_response_says_its_outcome(response: ResponseView)
    ensures
        ({
            let members = response.json()->Object_0;
            &&& response.json() is Object
            &&& members.len() == 3
            &&& json::member(members, "jsonrpc"@) == Some(JsonView::Text("2.0"@))
            &&& json::member(members, "id"@) == Some(
                match response.id {
                    Some(id) => JsonView::Text(id),
                    None => JsonView::Null,
                },
            )
            &&& match response.outcome {
                Ok(value) => {
                    &&& json::member(members, "result"@) == Some(value)
                    &&& json::member(members, "error"@) is None
                },
                Err(error) => {
                    &&& json::member(members, "error"@) == Some(error.json())
                    &&& json::member(members, "result"@) is None
                },
            }
        }),
{
    reveal_strlit("jsonrpc");
    reveal_strlit("id");
    reveal_strlit("result");
    reveal_strlit("error");
    assert("jsonrpc"@.len() == 7 && "id"@.len() == 2 && "result"@.len() == 6 && "error"@.len()
        == 5);
    let members = response.json()->Object_0;
    reveal_with_fuel(json::member, 4);
    let one = members.drop_first();
    let two = one.drop_first();
    let three = two.drop_first();
    assert(one[0] == members[1]);
    assert(two[0] == members[2]);
    assert(three.len() == 0);
}

/// An error says its code and its message, and its kind and its data where it has them.
pub proof fn law_an_error_says_its_code_and_kind(error: RpcErrorView, key: Seq<char>)
    requires
        error.data matches Some(members) ==> json::keys_in_order(members),
    ensures
        ({
            let members = error.json()->Object_0;
            let bare = error.kind is None && (error.data matches Some(data) ==> data.len() == 0);
            &&& error.json() is Object
            &&& json::member(members, "code"@) == Some(
                JsonView::Number(text::signed_decimal(error.code as int)),
            )
            &&& json::member(members, "message"@) == Some(JsonView::Text(error.message))
            &&& json::member(members, "data"@) is None <==> bare
            &&& members.len() == (if bare {
                2int
            } else {
                3
            })
            &&& !bare ==> {
                let data = json::member(members, "data"@)->Some_0->Object_0;
                &&& json::member(members, "data"@)->Some_0 is Object
                &&& error.kind matches Some(kind) ==> json::member(data, "kind"@) == Some(
                    JsonView::Text(kind.wire()),
                )
                &&& key != "kind"@ || error.kind is None ==> json::member(data, key) == (
                match error.data {
                    Some(others) => json::member(others, key),
                    None => None,
                })
            }
        }),
{
    reveal_strlit("code");
    reveal_strlit("message");
    reveal_strlit("data");
    assert("code"@.len() == 4 && "message"@.len() == 7 && "data"@.len() == 4);
    assert("code"@[0] == 'c' && "data"@[0] == 'd');
    let members = error.json()->Object_0;
    let others = match error.data {
        Some(others) => others,
        None => Seq::empty(),
    };
    if let Some(kind) = error.kind {
        json::law_inserted_member_is_found(others, "kind"@, JsonView::Text(kind.wire()), key);
        json::law_inserting_adds_one_member_at_most(
            others,
            "kind"@,
            JsonView::Text(kind.wire()),
        );
        if others.len() == 0 {
            assert(error.data_members() =~= seq![("kind"@, JsonView::Text(kind.wire()))]);
        }
    }
    assert(error.data_members().len() == 0 <==> error.kind is None && others.len() == 0);
    reveal_with_fuel(json::member, 4);
    let one = members.drop_first();
    let two = one.drop_first();
    assert(one[0] == members[1]);
    if members.len() == 3 {
        assert(two[0] == members[2]);
    } else {
        assert(two.len() == 0);
    }
    if error.data is None {
        assert(json::member(others, key) is None);
    }
}

/// The numbers and the names that errors have on the wire, and the bounds of a connection.
pub proof fn law_the_words_of_the_wire()
    ensures
        PARSE_ERROR == -32700 && INVALID_REQUEST == -32600 && METHOD_NOT_FOUND == -32601
            && INVALID_PARAMS == -32602 && INTERNAL_ERROR == -32603 && APPLICATION == -32000,
        ErrorKind::Forbidden.wire() == "forbidden"@,
        ErrorKind::Busy.wire() == "busy"@,
        ErrorKind::Cancelled.wire() == "cancelled"@,
        ErrorKind::Timeout.wire() == "timeout"@,
        ErrorKind::QuotaExceeded.wire() == "quota_exceeded"@,
        ErrorKind::InvalidLease.wire() == "invalid_lease"@,
        ErrorKind::UnknownCapability.wire() == "unknown_capability"@,
        ErrorKind::VersionMismatch.wire() == "version_mismatch"@,
        ErrorKind::AuthFailed.wire() == "auth_failed"@,
        ErrorKind::ManifestMismatch.wire() == "manifest_mismatch"@,
        CANCEL_METHOD@ == "$/cancelRequest"@ && INITIALIZE_METHOD@ == "initialize"@,
        MAX_IN_FLIGHT_PER_CONNECTION == 64 && CALL_TIMEOUT == 30_000_000_000 && WRITE_TIMEOUT
            == 10_000_000_000,
        MAX_ID_BYTES == 256 && MAX_MESSAGE_BYTES == 512 && ECHO_LIMIT == 128,
        FRAMES_BEFORE_REAPING == 16 && QUEUE_HIGH_WATER == 2_097_152,
{
}

/// Errors of the protocol have a code and no kind; errors of an application one code and their kind.
pub proof fn law_kinds_belong_to_applications(code: i32, kind: ErrorKind, message: Seq<char>)
    ensures
        ({
            let e = protocol_error(code, message);
            e.code == code && e.message == message && e.kind is None && e.data is None
        }),
        ({
            let e = application_error(kind, message);
            e.code == -32000 && e.message == message && e.kind == Some(kind) && e.data is None
        }),
{
}

/// A method is looked for by its name: the first of that name is found, and none where there is none.
pub proof fn law_a_method_is_found_by_its_name(names: Seq<Seq<char>>, name: Seq<char>)
    ensures
        match position(names, name) {
            Some(i) => {
                &&& 0 <= i < names.len()
                &&& names[i] == name
                &&& forall|j: int| 0 <= j < i ==> #[trigger] names[j] != name
            },
            None => !names.contains(name),
        },
    decreases names.len(),
{
    lemma_position_is_found(names, name);
    if names.len() > 0 && names[0] != name {
        let rest = names.drop_first();
        law_a_method_is_found_by_its_name(rest, name);
        if let Some(k) = position(rest, name) {
            assert forall|j: int| 0 <= j < k + 1 implies #[trigger] names[j] != name by {
                if j > 0 {
                    assert(names[j] == rest[j - 1]);
                }
            }
        }
    }
}

/// Whether every member of an object is one that a request has.
pub open spec fn only_request_members(members: Seq<(Seq<char>, JsonView)>) -> bool {
    forall|i: int|
        0 <= i < members.len() ==> {
            let key = (#[trigger] members[i]).0;
            key == "jsonrpc"@ || key == "id"@ || key == "method"@ || key == "params"@
        }
}

/// Whether an object is a request, but for its id: it has no other members, says the protocol's
/// version, and names a method.
pub open spec fn is_well_made(members: Seq<(Seq<char>, JsonView)>) -> bool {
    &&& only_request_members(members)
    &&& json::member(members, "jsonrpc"@) == Some(JsonView::Text("2.0"@))
    &&& json::member(members, "method"@) matches Some(JsonView::Text(_))
}

/// Whether a repeated key makes the whole request ambiguous, or its params.
pub open spec fn repeats_at(repeat: Option<Seq<Seq<char>>>, in_params: bool) -> bool {
    repeat matches Some(path) && if in_params {
        path.len() > 1 && path[0] == "params"@
    } else {
        path.len() == 1
    }
}

pub(crate) proof fn lemma_unknown_member(members: Seq<(Seq<char>, JsonView)>)
    ensures
        unknown_member(members) is None <==> only_request_members(members),
        unknown_member(members) matches Some(key) ==> exists|i: int|
            0 <= i < members.len() && (#[trigger] members[i]).0 == key,
    decreases members.len(),
{
    if members.len() > 0 {
        let rest = members.drop_first();
        lemma_unknown_member(rest);
        if is_request_member(members[0].0) {
            if only_request_members(rest) {
                assert forall|i: int| 0 <= i < members.len() implies ({
                    let key = (#[trigger] members[i]).0;
                    key == "jsonrpc"@ || key == "id"@ || key == "method"@ || key == "params"@
                }) by {
                    if i > 0 {
                        assert(members[i] == rest[i - 1]);
                    }
                }
            }
            if only_request_members(members) {
                assert forall|i: int| 0 <= i < rest.len() implies ({
                    let key = (#[trigger] rest[i]).0;
                    key == "jsonrpc"@ || key == "id"@ || key == "method"@ || key == "params"@
                }) by {
                    assert(rest[i] == members[i + 1]);
                }
            }
            if let Some(key) = unknown_member(rest) {
                let i = choose|i: int| 0 <= i < rest.len() && (#[trigger] rest[i]).0 == key;
                assert(members[i + 1].0 == key);
            }
        } else {
            assert(!only_request_members(members));
        }
    }
}

/// A request that is well made, under an id that can be used, for a method that is served, reaches
/// the method's own check, with its own params. Nothing else does.
pub proof fn law_a_usable_request_reaches_its_method(
    members: Seq<(Seq<char>, JsonView)>,
    repeat: Option<Seq<Seq<char>>>,
    names: Seq<Seq<char>>,
    in_flight: Set<Seq<char>>,
)
    ensures
        ({
            let step = classified(Ok(JsonView::Object(members)), repeat, names, in_flight);
            let id = json::member(members, "id"@)->Some_0->Text_0;
            let method = json::member(members, "method"@)->Some_0->Text_0;
            let params = json::member(members, "params"@);
            let usable = {
                &&& !repeats_at(repeat, false)
                &&& !repeats_at(repeat, true)
                &&& json::member(members, "id"@) matches Some(JsonView::Text(_))
                &&& vstd::utf8::encode_utf8(id).len() <= 256
                &&& !in_flight.contains(id)
                &&& is_well_made(members)
                &&& params matches Some(given) ==> given is Object
                &&& method != "initialize"@
                &&& method != "$/cancelRequest"@
                &&& names.contains(method)
            };
            &&& step is Check <==> usable
            &&& step matches StepView::Check { id: asked, params: handed, handler } ==> {
                &&& asked == id
                &&& handed == (match params {
                    Some(given) => given,
                    None => JsonView::Object(Seq::empty()),
                })
                &&& 0 <= handler < names.len()
                &&& names[handler] == method
            }
        }),
{
    lemma_unknown_member(members);
    if let Some(JsonView::Text(method)) = json::member(members, "method"@) {
        law_a_method_is_found_by_its_name(names, method);
    }
}

/// The code that a request with a usable id is refused under. It is answered under that id, never
/// with a result, and with a code that says what was wrong: with the request as a whole, with the
/// method, or with the params.
pub proof fn law_a_refused_request_is_told_why(
    members: Seq<(Seq<char>, JsonView)>,
    repeat: Option<Seq<Seq<char>>>,
    names: Seq<Seq<char>>,
    in_flight: Set<Seq<char>>,
    id: Seq<char>,
)
    requires
        !repeats_at(repeat, false),
        json::member(members, "id"@) == Some(JsonView::Text(id)),
        vstd::utf8::encode_utf8(id).len() <= 256,
        !in_flight.contains(id),
    ensures
        ({
            let step = classified(Ok(JsonView::Object(members)), repeat, names, in_flight);
            let method = json::member(members, "method"@)->Some_0->Text_0;
            let params = json::member(members, "params"@);
            let told = step->Settled_0->Respond_0;
            let error = told.outcome->Err_0;
            let bad_params = params matches Some(given) && !(given is Object);
            let reserved = method == "initialize"@ || method == "$/cancelRequest"@;
            !(step is Check) ==> {
                &&& step is Settled
                &&& step->Settled_0 is Respond
                &&& told.id == Some(id)
                &&& told.outcome is Err
                &&& error.kind is None
                &&& error.data is None
                &&& error.code == -32600 || error.code == -32601 || error.code == -32602
                &&& error.code == -32601 <==> is_well_made(members) && !bad_params && !reserved
                    && !names.contains(method)
                &&& error.code == -32602 <==> is_well_made(members) && (bad_params || (!reserved
                    && names.contains(method) && repeats_at(repeat, true)))
                &&& error.code == -32601 ==> error.message
                    == "method not found: this daemon does not provide `"@ + text::clipped(
                    method,
                    128,
                ) + "`"@
                &&& is_well_made(members) && bad_params ==> error.message
                    == "params must be an object"@
                &&& is_well_made(members) && !bad_params && method == "initialize"@
                    ==> error.message
                    == "`initialize` may be sent only once, as the first message"@
                &&& is_well_made(members) && !bad_params && method == "$/cancelRequest"@
                    ==> error.message
                    == "`$/cancelRequest` is a notification; send it without an id"@
                &&& only_request_members(members) && json::member(members, "jsonrpc"@) != Some(
                    JsonView::Text("2.0"@),
                ) ==> error.message == "`jsonrpc` must be \"2.0\""@
                &&& only_request_members(members) && json::member(members, "jsonrpc"@) == Some(
                    JsonView::Text("2.0"@),
                ) && !is_well_made(members) ==> error.message == "`method` must be a string"@
                &&& is_well_made(members) && !bad_params && !reserved && names.contains(method)
                    ==> error.message == "duplicate key `"@ + text::clipped(
                    text::joined(repeat->Some_0, seq!['.']),
                    128,
                ) + "` in params"@
                &&& !only_request_members(members) ==> exists|i: int|
                    0 <= i < members.len() && error.message == "unknown member `"@ + text::clipped(
                        (#[trigger] members[i]).0,
                        128,
                    ) + "`"@
            }
        }),
{
    reveal_strlit("initialize");
    reveal_strlit("$/cancelRequest");
    assert("initialize"@.len() == 10 && "$/cancelRequest"@.len() == 15);
    reveal_strlit(".");
    assert("."@ =~= seq!['.']);
    lemma_unknown_member(members);
    if let Some(key) = unknown_member(members) {
        let i = choose|i: int| 0 <= i < members.len() && (#[trigger] members[i]).0 == key;
        assert(members[i].0 == key);
    }
    if let Some(JsonView::Text(method)) = json::member(members, "method"@) {
        law_a_method_is_found_by_its_name(names, method);
    }
}

/// What is answered under no id, since none can be trusted: what is no JSON, what is no object, an
/// id that is no text or too long, one that is in flight, and a request that says a key twice.
pub proof fn law_what_is_answered_under_no_id(
    parsed: Result<JsonView, Seq<char>>,
    repeat: Option<Seq<Seq<char>>>,
    names: Seq<Seq<char>>,
    in_flight: Set<Seq<char>>,
)
    ensures
        ({
            let step = classified(parsed, repeat, names, in_flight);
            let told = step->Settled_0->Respond_0;
            let error = told.outcome->Err_0;
            let nameless = step is Settled && step->Settled_0 is Respond && told.id is None
                && told.outcome is Err && error.kind is None;
            match parsed {
                Err(why) => nameless && error.code == -32700 && error.message == why,
                Ok(JsonView::Object(members)) => {
                    let id = json::member(members, "id"@);
                    &&& repeats_at(repeat, false) && id is Some ==> nameless && error.code == -32600
                        && error.message == "duplicate key `"@ + text::clipped(
                        repeat->Some_0[0],
                        128,
                    ) + "` in the request"@
                    &&& repeats_at(repeat, false) && id is None ==> step == StepView::Settled(
                        DispatchView::Ignore,
                    )
                    &&& !repeats_at(repeat, false) ==> match id {
                        None => true,
                        Some(JsonView::Text(s)) => {
                            &&& vstd::utf8::encode_utf8(s).len() > 256 ==> nameless && error.code
                                == -32600 && error.message == "the id is longer than "@
                                + text::decimal(256) + " bytes"@ && error.data is None
                            &&& vstd::utf8::encode_utf8(s).len() <= 256 && in_flight.contains(s)
                                ==> {
                                &&& nameless
                                &&& error.code == -32600
                                &&& error.message
                                    == "this id is already in flight on this connection"@
                                &&& error.data == Some(
                                    seq![("duplicate_id"@, JsonView::Text(s))],
                                )
                            }
                        },
                        Some(_) => nameless && error.code == -32600 && error.message
                            == "the id must be a string"@ && error.data is None,
                    }
                },
                Ok(JsonView::Array(_)) => nameless && error.code == -32600 && error.message
                    == "batch requests are not supported"@,
                Ok(_) => nameless && error.code == -32600 && error.message
                    == "a request must be a JSON object"@,
            }
        }),
{
    if let Ok(JsonView::Object(members)) = parsed {
        json::lemma_member(members, "id"@);
    }
}

/// A notification does one thing or nothing: one that is well made, asks to cancel, and names a call
/// and nothing else, cancels that call. No other notification does anything.
pub proof fn law_a_notification_can_only_cancel(
    members: Seq<(Seq<char>, JsonView)>,
    repeat: Option<Seq<Seq<char>>>,
    names: Seq<Seq<char>>,
    in_flight: Set<Seq<char>>,
)
    requires
        json::member(members, "id"@) is None,
    ensures
        ({
            let step = classified(Ok(JsonView::Object(members)), repeat, names, in_flight);
            let params = json::member(members, "params"@)->Some_0->Object_0;
            let target = json::member(params, "id"@);
            let cancels = {
                &&& !repeats_at(repeat, false)
                &&& !repeats_at(repeat, true)
                &&& is_well_made(members)
                &&& json::member(members, "method"@) == Some(JsonView::Text("$/cancelRequest"@))
                &&& json::member(members, "params"@) matches Some(JsonView::Object(_))
                &&& target matches Some(JsonView::Text(_))
                &&& forall|i: int|
                    0 <= i < params.len() ==> (#[trigger] params[i]).0 == "id"@ || params[i].0
                        == "_meta"@
            };
            step == StepView::Settled(
                if cancels {
                    DispatchView::Cancel { id: target->Some_0->Text_0 }
                } else {
                    DispatchView::Ignore
                },
            )
        }),
{
    lemma_unknown_member(members);
    json::lemma_member(members, "id"@);
    assert(json::member(Seq::<(Seq<char>, JsonView)>::empty(), "id"@) is None);
}

/// What the check says decides: params that passed run as they were sent, params that were refused
/// are refused with the reason given, and a check that fails is the kernel's fault.
pub proof fn law_the_check_decides(
    id: Seq<char>,
    params: JsonView,
    handler: int,
    checked: CheckedView,
)
    ensures
        ({
            let d = after_check(id, params, handler, checked);
            let told = d->Respond_0;
            let error = told.outcome->Err_0;
            match checked {
                CheckedView::Passed => d == (DispatchView::Call { id, params, handler }),
                CheckedView::Refused(why) => {
                    &&& d is Respond
                    &&& told.id == Some(id)
                    &&& told.outcome is Err
                    &&& error.code == -32602
                    &&& error.message == why
                    &&& error.kind is None
                    &&& error.data is None
                },
                CheckedView::Failed => {
                    &&& d is Respond
                    &&& told.id == Some(id)
                    &&& told.outcome is Err
                    &&& error.code == -32603
                    &&& error.message == "the method's params check failed"@
                    &&& error.kind is None
                    &&& error.data is None
                },
            }
        }),
{
}

/// A call runs, with its own params, as long as fewer calls are in flight than may be; the one too
/// many is told to come again. What is to be answered is answered as it is.
pub proof fn law_a_call_runs_while_there_is_room(
    d: DispatchView,
    tasks: Map<Seq<char>, u64>,
    limits: Limits,
)
    ensures
        ({
            let act = acted(d, tasks, limits);
            let told = act->Respond_0;
            let error = told.outcome->Err_0;
            match d {
                DispatchView::Call { id, params, handler } => {
                    &&& tasks.len() < limits.max_in_flight ==> act == (ActView::Run {
                        id,
                        params,
                        handler,
                    })
                    &&& tasks.len() >= limits.max_in_flight ==> {
                        &&& act is Respond
                        &&& told.id == Some(id)
                        &&& told.outcome is Err
                        &&& error.code == -32000
                        &&& error.kind == Some(ErrorKind::Busy)
                        &&& error.message == text::decimal(limits.max_in_flight as nat)
                            + " calls are already in flight on this connection"@
                        &&& error.data is None
                    }
                },
                DispatchView::Respond(response) => act == ActView::Respond(response),
                DispatchView::Ignore => act == ActView::Nothing,
                DispatchView::Cancel { id } => act == (if tasks.contains_key(id) {
                    ActView::Abort { task: tasks[id] }
                } else {
                    ActView::Nothing
                }),
            }
        }),
{
}

/// What is written is the response itself, wherever it fits into a frame. One that does not is
/// replaced by an error under the same id.
pub proof fn law_a_response_that_fits_is_written_as_it_is(response: ResponseView)
    ensures
        ({
            let own = vstd::utf8::encode_utf8(json::json_text(response.json())).push(0x0au8);
            let other = ResponseView {
                id: response.id,
                outcome: Err(
                    RpcErrorView {
                        code: -32603i32,
                        message: "the response would exceed the "@ + text::decimal(1_048_576)
                            + "-byte frame limit"@,
                        kind: None,
                        data: None,
                    },
                ),
            };
            &&& own.len() <= 1_048_577 ==> written_line(response) == own
            &&& own.len() > 1_048_577 ==> written_line(response) == vstd::utf8::encode_utf8(
                json::json_text(other.json()),
            ).push(0x0au8)
        }),
{
}

/// What a connection decides is what its loop does: a response is queued as it is written, and
/// counted; a call is run as it was asked; a task is stopped; and nothing is nothing.
pub proof fn law_what_is_decided_is_done(
    act: ActView,
    queued: usize,
    queued_then: usize,
    effect: Effect,
)
    requires
        effect_of(act, queued, queued_then, effect),
    ensures
        match act {
            ActView::Respond(response) => {
                &&& effect matches Effect::Send(line) && line@ == written_line(response) && (queued
                    + line@.len() <= usize::MAX ==> queued_then == queued + line@.len())
                &&& queued_then >= queued
            },
            ActView::Run { id, params, handler } => {
                &&& effect matches Effect::Run { id: i, params: p, handler: h } && i@ == id
                    && p.view() == params && h == handler
                &&& queued_then == queued
            },
            ActView::Abort { task } => effect == (Effect::Abort { task }) && queued_then == queued,
            ActView::Nothing => effect == Effect::Nothing && queued_then == queued,
        },
{
}

/// How the end of a connection is told.
pub proof fn law_the_ends_of_a_connection(fault: IoFault)
    ensures
        Ended::PeerClosed.shown() == "PeerClosed"@,
        Ended::TooLong.shown() == "TooLong"@,
        Ended::Stopped.shown() == "Stopped"@,
        Ended::ReadFailed(fault).shown() == "ReadFailed("@ + fault.shown@ + ")"@,
        Ended::WriteFailed(fault).shown() == "WriteFailed("@ + fault.shown@ + ")"@,
{
}

} // verus!
