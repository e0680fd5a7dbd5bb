//! A request that the kernel itself makes to one generation of a module.
//!
//! It goes straight to the module's socket, on a connection of its own, and holds its place in
//! flight for the whole exchange. What matters to whoever asked is whether the module could have
//! seen it. So the call notes for itself when it was let through to the wire: that a request was
//! once marked as about to be sent does not say that a byte left.
use crate::drain::{self, Abandoned, Generation, InFlight, RequestRefused};
use crate::proxy::{self, ExchangeError};
use crate::rpc;
use crate::text;
use vstd::prelude::*;
use vstd::string::*;

verus! {

/// The header that says which schedule fired, by the module's own key.
pub const SCHEDULE_KEY_HEADER: &'static str = "x-a24-schedule-key";

/// The header that says which fire this is, the same in every attempt.
pub const FIRE_ID_HEADER: &'static str = "x-a24-fire-id";

/// The host that a module is addressed by, wherever its socket is.
pub const UPSTREAM_HOST: &'static str = "agent24-module.invalid";

// ---------------------------------------------------------------------------
// What is asked and answered
// ---------------------------------------------------------------------------

/// What the kernel sends. No client has a part in it, so nothing is taken out of it.
#[derive(Debug)]
pub struct KernelRequest {
    /// The path, from the root.
    pub path: String,
    /// Headers under the reserved prefix.
    pub extra_headers: Vec<(String, Vec<u8>)>,
    /// JSON.
    pub body: Vec<u8>,
}

impl KernelRequest {
    /// Every extra header is one, and a map can hold them.
    pub open spec fn wf(&self) -> bool {
        &&& extra_fields(self.extra_headers@).dom().len() <= proxy::NAMES_THAT_FIT - 3
        &&& forall|i: int|
            0 <= i < self.extra_headers@.len() ==> {
                let h = #[trigger] self.extra_headers@[i];
                &&& proxy::is_field_name(h.0@)
                &&& proxy::is_header_value(h.1@)
            }
    }
}

/// How long a call may take, and how much of an answer is read.
#[derive(Debug, Clone, Copy, PartialEq, Eq, Structural)]
pub struct KernelLimits {
    /// For admission and for the whole exchange, in nanoseconds.
    pub total: u64,
    pub max_response_bytes: usize,
}

/// An answer. Only the status matters.
#[derive(Debug, Clone, Copy, PartialEq, Eq, Structural)]
pub struct KernelResponse {
    pub status: u16,
}

/// The body of a delivery that a schedule fired.
#[derive(Debug, Clone, PartialEq, Eq)]
pub struct FiredBody {
    pub key: String,
    /// `tick` or `run_now`.
    pub trigger: String,
    pub scheduled_for: String,
    pub fired_at: String,
}

/// Why a call has no answer.
#[derive(Debug, PartialEq, Eq)]
pub enum KernelCallError {
    /// Not admitted: nothing was sent.
    Refused(RequestRefused),
    /// No token could be made: nothing was admitted.
    EntropyUnavailable,
    /// Revoked after it was admitted and before the first attempt: nothing was sent.
    NotDispatched,
    /// The generation was revoked while this was in flight.
    Abandoned(Abandoned),
    /// Nothing reached the module, which is still there.
    NotSent(String),
    /// The module may have received it.
    MaybeSent(String),
    Timeout,
    ResponseTooLarge,
    /// The body of an answer that is no success broke off.
    ResponseBodyError(String),
    /// There is nowhere to send it.
    NoUpstream,
}

// ---------------------------------------------------------------------------
// Ids
// ---------------------------------------------------------------------------

/// Ids of the kernel's own requests.
pub struct KernelRequestIds {
    prefix: String,
    next: u64,
}

/// The id of a number.
pub open spec fn kernel_id(prefix: Seq<char>, n: u64) -> Seq<char> {
    "sch-"@ + proxy::minted(prefix, n)
}

impl KernelRequestIds {
    pub closed spec fn prefix(&self) -> Seq<char> {
        self.prefix@
    }

    pub closed spec fn next(&self) -> u64 {
        self.next
    }

    pub fn new(prefix8hex: String) -> (r: KernelRequestIds)
        ensures
            r.prefix() == prefix8hex@,
            r.next() == 0,
    {
        KernelRequestIds { prefix: prefix8hex, next: 0 }
    }

    /// With a prefix of eight hexadecimal digits: of four random bytes if there are any, else of
    /// the time's nanoseconds.
    pub fn new_random(random: Option<[u8; 4]>, nanos: u32) -> (r: KernelRequestIds)
        ensures
            r.prefix() == (match random {
                Some(bytes) => text::hex(bytes@),
                None => text::hex(proxy::be_bytes(nanos)),
            }),
            r.next() == 0,
    {
        KernelRequestIds::new(proxy::short_prefix(random, nanos))
    }

    /// The next id. After the last number the first one comes again.
    pub fn mint(&mut self) -> (r: String)
        ensures
            r@ == kernel_id(old(self).prefix(), old(self).next()),
            final(self).prefix() == old(self).prefix(),
            final(self).next() == (if old(self).next() == u64::MAX {
                0
            } else {
                old(self).next() + 1
            }),
    {
        let n: u64 = self.next;
        self.next = if n == u64::MAX {
            0
        } else {
            n + 1
        };
        let mut out = "sch-".to_owned();
        out.append(
            text::concat3(self.prefix.as_str(), "-", text::decimal_string(n).as_str()).as_str(),
        );
        out
    }
}

/// Ids of different numbers are different.
pub proof fn law_kernel_ids_are_distinct(prefix: Seq<char>, a: u64, b: u64)
    requires
        kernel_id(prefix, a) == kernel_id(prefix, b),
    ensures
        a == b,
{
    let k = "sch-"@.len() as int;
    assert(kernel_id(prefix, a).skip(k) =~= proxy::minted(prefix, a));
    assert(kernel_id(prefix, b).skip(k) =~= proxy::minted(prefix, b));
    proxy::law_ids_are_distinct(prefix, a, b);
}

/// No id of the kernel's own requests is one of a proxied request.
pub proof fn law_kernel_ids_are_no_proxy_ids(
    prefix: Seq<char>,
    n: u64,
    random: Seq<u8>,
    m: u64,
)
    ensures
        kernel_id(prefix, n) != proxy::minted(text::hex(random), m),
{
    reveal_strlit("sch-");
    reveal_strlit("-");
    let id = proxy::minted(text::hex(random), m);
    assert(kernel_id(prefix, n)[0] == 's');
    text::lemma_hex_len(random);
    if random.len() > 0 {
        lemma_hex_begins_with_a_digit(random);
        assert(id[0] == text::hex(random)[0]);
    } else {
        assert(id[0] == '-');
    }
}

proof fn lemma_hex_begins_with_a_digit(bytes: Seq<u8>)
    requires
        bytes.len() > 0,
    ensures
        text::hex(bytes).len() > 0,
        text::hex(bytes)[0] != 's',
    decreases bytes.len(),
{
    let before = bytes.drop_last();
    if before.len() > 0 {
        lemma_hex_begins_with_a_digit(before);
        assert(text::hex(bytes)[0] == text::hex(before)[0]);
    } else {
        assert(text::hex(before) =~= Seq::<char>::empty());
        assert(text::hex(bytes) =~= text::hex_byte(bytes.last()));
    }
}

// ---------------------------------------------------------------------------
// The request
// ---------------------------------------------------------------------------

/// Why a text is no URI; nothing if it is one.
pub uninterp spec fn uri_fault(path: Seq<char>) -> Option<Seq<char>>;

/// Calls `http::Uri::from_str`: what it says of a text that it does not take, which is a function
/// of the text alone.
#[verifier::external_body]
fn check_uri(path: &str) -> (r: Option<String>)
    ensures
        rpc::id_view(r) == uri_fault(path@),
{
    match path.parse::<axum::http::Uri>() {
        Ok(_) => None,
        Err(e) => Some(e.to_string()),
    }
}

/// The extra headers, of which a later one replaces an earlier one of the same name.
pub open spec fn extra_fields(headers: Seq<(String, Vec<u8>)>) -> Map<Seq<char>, Seq<Seq<u8>>>
    decreases headers.len(),
{
    if headers.len() == 0 {
        Map::empty()
    } else {
        extra_fields(headers.drop_last()).insert(headers.last().0@, seq![headers.last().1@])
    }
}

/// The headers of a request of the kernel's own: the extra ones, and what the kernel always says,
/// which nothing replaces.
pub open spec fn kernel_fields(
    extra: Seq<(String, Vec<u8>)>,
    id: Seq<char>,
    token: Seq<char>,
) -> Map<Seq<char>, Seq<Seq<u8>>> {
    extra_fields(extra).insert(
        proxy::REQUEST_ID_HEADER@,
        seq![vstd::utf8::encode_utf8(id)],
    ).insert(proxy::APPROVAL_TOKEN_HEADER@, seq![vstd::utf8::encode_utf8(token)]).insert(
        "host"@,
        seq![vstd::utf8::encode_utf8(UPSTREAM_HOST@)],
    ).insert("content-type"@, seq![vstd::utf8::encode_utf8("application/json"@)])
}

/// Whatever the extra headers say, the module is told the id and the token of the request.
pub proof fn law_extra_headers_replace_nothing(
    extra: Seq<(String, Vec<u8>)>,
    id: Seq<char>,
    token: Seq<char>,
)
    ensures
        kernel_fields(extra, id, token)[proxy::REQUEST_ID_HEADER@] == seq![
            vstd::utf8::encode_utf8(id),
        ],
        kernel_fields(extra, id, token)[proxy::APPROVAL_TOKEN_HEADER@] == seq![
            vstd::utf8::encode_utf8(token),
        ],
        kernel_fields(extra, id, token)["host"@] == seq![
            vstd::utf8::encode_utf8(UPSTREAM_HOST@),
        ],
{
    reveal_strlit("x-a24-request-id");
    reveal_strlit("x-a24-approval-token");
    reveal_strlit("host");
    reveal_strlit("content-type");
    assert(proxy::REQUEST_ID_HEADER@.len() == 16);
    assert(proxy::APPROVAL_TOKEN_HEADER@.len() == 20);
    assert("host"@.len() == 4);
    assert("content-type"@.len() == 12);
}

proof fn lemma_extra_fields(headers: Seq<(String, Vec<u8>)>)
    ensures
        extra_fields(headers).dom().finite(),
    decreases headers.len(),
{
    if headers.len() > 0 {
        lemma_extra_fields(headers.drop_last());
    }
}

proof fn lemma_fewer_extra_fields(headers: Seq<(String, Vec<u8>)>, n: int)
    requires
        0 <= n <= headers.len(),
    ensures
        extra_fields(headers.take(n)).dom().subset_of(extra_fields(headers).dom()),
        extra_fields(headers.take(n)).dom().len() <= extra_fields(headers).dom().len(),
    decreases headers.len(),
{
    if n == headers.len() {
        assert(headers.take(n) =~= headers);
    } else {
        let before = headers.drop_last();
        lemma_fewer_extra_fields(before, n);
        assert(before.take(n) =~= headers.take(n));
    }
    lemma_extra_fields(headers);
    vstd::set_lib::lemma_len_subset(
        extra_fields(headers.take(n)).dom(),
        extra_fields(headers).dom(),
    );
}

proof fn lemma_ascii_value(s: Seq<char>)
    requires
        forall|i: int| 0 <= i < s.len() ==> ' ' <= #[trigger] s[i] <= '~',
    ensures
        proxy::is_header_text(s),
{
    vstd::utf8::is_ascii_chars_encode_utf8(s);
    assert forall|i: int| 0 <= i < vstd::utf8::encode_utf8(s).len() implies ({
        let b = #[trigger] vstd::utf8::encode_utf8(s)[i];
        b >= 0x20 && b != 0x7f || b == 0x09
    }) by {
        assert(' ' <= s[i] <= '~');
    }
}

fn headers_of(extra: &Vec<(String, Vec<u8>)>, id: &str, token: &str) -> (r: Option<
    axum::http::HeaderMap,
>)
    requires
        extra_fields(extra@).dom().len() <= proxy::NAMES_THAT_FIT - 3,
        forall|i: int|
            0 <= i < extra@.len() ==> {
                let h = #[trigger] extra@[i];
                proxy::is_field_name(h.0@) && proxy::is_header_value(h.1@)
            },
    ensures
        match r {
            Some(headers) => proxy::is_header_text(id@) && proxy::is_header_text(token@)
                && proxy::header_fields(headers) == kernel_fields(extra@, id@, token@),
            None => !proxy::is_header_text(id@) || !proxy::is_header_text(token@),
        },
{
    let mut headers = proxy::no_headers();
    let mut i: usize = 0;
    assert(extra@.take(0) =~= Seq::<(String, Vec<u8>)>::empty());
    while i < extra.len()
        invariant
            i <= extra@.len(),
            extra_fields(extra@).dom().len() <= proxy::NAMES_THAT_FIT - 3,
            forall|i: int|
                0 <= i < extra@.len() ==> {
                    let h = #[trigger] extra@[i];
                    proxy::is_field_name(h.0@) && proxy::is_header_value(h.1@)
                },
            proxy::header_fields(headers) == extra_fields(extra@.take(i as int)),
        decreases extra@.len() - i,
    {
        proof {
            lemma_fewer_extra_fields(extra@, i as int);
            lemma_extra_fields(extra@.take(i as int));
            assert(extra@.take(i + 1).drop_last() =~= extra@.take(i as int));
        }
        let _ = proxy::set_field(&mut headers, extra[i].0.as_str(), extra[i].1.as_slice());
        i = i + 1;
    }
    proof {
        assert(extra@.take(i as int) =~= extra@);
        lemma_extra_fields(extra@);
        proxy::lemma_kernel_names();
        reveal_strlit("agent24-module.invalid");
        reveal_strlit("application/json");
        lemma_ascii_value(UPSTREAM_HOST@);
        lemma_ascii_value("application/json"@);
    }
    if !proxy::set_field(&mut headers, proxy::REQUEST_ID_HEADER, id.as_bytes()) {
        return None;
    }
    if !proxy::set_field(&mut headers, proxy::APPROVAL_TOKEN_HEADER, token.as_bytes()) {
        return None;
    }
    let _ = proxy::set_field(&mut headers, "host", UPSTREAM_HOST.as_bytes());
    let _ = proxy::set_field(&mut headers, "content-type", "application/json".as_bytes());
    Some(headers)
}

// ---------------------------------------------------------------------------
// The exchange
// ---------------------------------------------------------------------------

/// What came of reading the body of an answer.
#[derive(Debug)]
pub enum Drained {
    All,
    /// It was longer than the limit.
    TooLong,
    Failed(String),
}

/// Whether a status is a success.
pub open spec fn is_success(status: u16) -> bool {
    200 <= status < 300
}

/// What a module is asked by the kernel, and where.
#[derive(Debug)]
pub struct KernelOutgoing {
    /// The socket of the run that the call was admitted into.
    pub address: Vec<u8>,
    pub method: &'static str,
    pub path: String,
    pub headers: axum::http::HeaderMap,
    pub body: Vec<u8>,
}

/// A call in flight.
pub struct KernelCall {
    request: InFlight,
    token: String,
    may_have_left: bool,
    head: Option<u16>,
}

impl KernelCall {
    /// The request that was admitted for the call.
    pub closed spec fn request(&self) -> drain::RequestView {
        self.request@
    }

    pub open spec fn request_id(&self) -> Seq<char> {
        self.request().id
    }

    pub closed spec fn token(&self) -> Seq<char> {
        self.token@
    }

    pub open spec fn address(&self) -> Option<Seq<u8>> {
        self.request().address
    }

    /// Whether it was let through to the wire.
    pub closed spec fn may_have_left(&self) -> bool {
        self.may_have_left
    }

    /// The status of the answer, once its head has come.
    pub closed spec fn head(&self) -> Option<u16> {
        self.head
    }

    /// Admits a call under the next id, with the digest of a token that was made for it.
    pub fn begin(
        generation: &mut Generation,
        ids: &mut KernelRequestIds,
        token: Option<String>,
        now: u64,
        limits: KernelLimits,
    ) -> (r: Result<KernelCall, KernelCallError>)
        requires
            old(generation).wf(),
        ensures
            final(generation).wf(),
            final(ids).prefix() == old(ids).prefix(),
            final(ids).next() == (if old(ids).next() == u64::MAX {
                0
            } else {
                old(ids).next() + 1
            }),
            ({
                let id = kernel_id(old(ids).prefix(), old(ids).next());
                match token {
                    None => r == Err::<KernelCall, KernelCallError>(
                        KernelCallError::EntropyUnavailable,
                    ) && final(generation)@ == old(generation)@,
                    Some(t) => {
                        &&& final(generation)@ == old(generation)@.after_admit(
                            id,
                            drain::sha256_of(vstd::utf8::encode_utf8(t@)),
                            now,
                            limits.total,
                        )
                        &&& match old(generation)@.refusal(id) {
                            Some(refused) => r == Err::<KernelCall, KernelCallError>(
                                KernelCallError::Refused(refused),
                            ),
                            None => {
                                &&& r matches Ok(call)
                                &&& call.request() == (drain::RequestView {
                                    id,
                                    serial: old(generation)@.next,
                                    address: old(generation)@.upstream,
                                })
                                &&& final(generation)@.carries(call.request())
                                &&& call.token() == t@
                                &&& !call.may_have_left()
                                &&& call.head() is None
                            },
                        }
                    },
                }
            }),
    {
        let id = ids.mint();
        match token {
            None => Err(KernelCallError::EntropyUnavailable),
            Some(token) => {
                let hash = drain::token_hash(token.as_str());
                match generation.admit_request(id, hash, now, limits.total) {
                    Ok(request) => Ok(
                        KernelCall { request, token, may_have_left: false, head: None },
                    ),
                    Err(refused) => Err(KernelCallError::Refused(refused)),
                }
            },
        }
    }

    /// The id of the call.
    pub fn id(&self) -> (r: &str)
        ensures
            r@ == self.request_id(),
    {
        self.request.id()
    }

    /// Where the request goes.
    pub fn upstream(&self) -> (r: Option<&Vec<u8>>)
        ensures
            match r {
                Some(s) => self.address() == Some(s@),
                None => self.address() is None,
            },
    {
        self.request.upstream()
    }

    /// The headers of the request, given what is wrong with its path.
    pub fn prepare_with(&self, request: &KernelRequest, fault: Option<String>) -> (r: Result<
        axum::http::HeaderMap,
        KernelCallError,
    >)
        requires
            request.wf(),
        ensures
            if self.address() is None {
                r == Err::<axum::http::HeaderMap, KernelCallError>(KernelCallError::NoUpstream)
            } else if fault is Some {
                r matches Err(KernelCallError::NotSent(e)) && e@ == "bad kernel path: "@
                    + fault->Some_0@
            } else if !proxy::is_header_text(self.request_id()) || !proxy::is_header_text(self.token()) {
                r matches Err(KernelCallError::NotSent(e)) && e@ == "failed to parse header value"@
            } else {
                r matches Ok(headers) && proxy::header_fields(headers) == kernel_fields(
                    request.extra_headers@,
                    self.request_id(),
                    self.token(),
                )
            },
    {
        if self.request.upstream().is_none() {
            return Err(KernelCallError::NoUpstream);
        }
        if let Some(e) = fault {
            let mut out = "bad kernel path: ".to_owned();
            out.append(e.as_str());
            return Err(KernelCallError::NotSent(out));
        }
        match headers_of(&request.extra_headers, self.request.id(), self.token.as_str()) {
            Some(headers) => Ok(headers),
            None => Err(KernelCallError::NotSent("failed to parse header value".to_owned())),
        }
    }

    /// The headers of the request: it is made in full before anything is marked as sent.
    pub fn prepare(&self, request: &KernelRequest) -> (r: Result<
        axum::http::HeaderMap,
        KernelCallError,
    >)
        requires
            request.wf(),
        ensures
            if self.address() is None {
                r == Err::<axum::http::HeaderMap, KernelCallError>(KernelCallError::NoUpstream)
            } else if uri_fault(request.path@) is Some {
                r matches Err(KernelCallError::NotSent(e)) && e@ == "bad kernel path: "@
                    + uri_fault(request.path@)->Some_0
            } else if !proxy::is_header_text(self.request_id()) || !proxy::is_header_text(self.token()) {
                r matches Err(KernelCallError::NotSent(e)) && e@ == "failed to parse header value"@
            } else {
                r matches Ok(headers) && proxy::header_fields(headers) == kernel_fields(
                    request.extra_headers@,
                    self.request_id(),
                    self.token(),
                )
            },
    {
        let fault = check_uri(request.path.as_str());
        self.prepare_with(request, fault)
    }

    /// The whole request that a module is sent: the path and the body as they are, to the run that
    /// the call was admitted into.
    pub fn outgoing(&self, request: KernelRequest) -> (r: Result<KernelOutgoing, KernelCallError>)
        requires
            request.wf(),
        ensures
            match r {
                Ok(sent) => {
                    &&& self.address() == Some(sent.address@)
                    &&& sent.method@ == "POST"@
                    &&& sent.path@ == request.path@
                    &&& sent.body@ == request.body@
                    &&& proxy::header_fields(sent.headers) == kernel_fields(
                        request.extra_headers@,
                        self.request_id(),
                        self.token(),
                    )
                    &&& uri_fault(request.path@) is None
                    &&& proxy::is_header_text(self.request_id())
                    &&& proxy::is_header_text(self.token())
                },
                Err(e) => if self.address() is None {
                    e is NoUpstream
                } else if uri_fault(request.path@) is Some {
                    e matches KernelCallError::NotSent(why) && why@ == "bad kernel path: "@
                        + uri_fault(request.path@)->Some_0
                } else {
                    &&& !proxy::is_header_text(self.request_id()) || !proxy::is_header_text(
                        self.token(),
                    )
                    &&& e matches KernelCallError::NotSent(why)
                    &&& why@ == "failed to parse header value"@
                },
            },
    {
        let headers = match self.prepare(&request) {
            Ok(headers) => headers,
            Err(e) => {
                return Err(e);
            },
        };
        match self.request.upstream() {
            Some(address) => Ok(
                KernelOutgoing {
                    address: text::copy_bytes(address),
                    method: "POST",
                    path: request.path,
                    headers,
                    body: request.body,
                },
            ),
            None => Err(KernelCallError::NoUpstream),
        }
    }

    /// Marks the call as about to be sent, before there is a connection. If this says no, not one
    /// byte goes out.
    pub fn dispatch(&self, generation: &mut Generation) -> (r: Result<(), KernelCallError>)
        requires
            old(generation).wf(),
        ensures
            final(generation).wf(),
            final(generation)@ == old(generation)@.after_dispatch(self.request()),
            r == (if old(generation)@.can_dispatch(self.request()) {
                Ok::<(), KernelCallError>(())
            } else {
                Err::<(), KernelCallError>(KernelCallError::NotDispatched)
            }),
    {
        if self.request.dispatch(generation) {
            Ok(())
        } else {
            Err(KernelCallError::NotDispatched)
        }
    }

    /// The last look before the wire. What it lets through may have left, whether or not an
    /// answer ever comes.
    pub fn send_guard(&mut self, generation: &mut Generation) -> (r: bool)
        requires
            old(generation).wf(),
        ensures
            final(generation).wf(),
            final(generation)@ == old(generation)@.after_dispatch(old(self).request()),
            r == old(generation)@.can_dispatch(old(self).request()),
            final(self).may_have_left() == (old(self).may_have_left() || r),
            final(self).request() == old(self).request(),
            final(self).token() == old(self).token(),
            final(self).head() == old(self).head(),
    {
        let ok = self.request.dispatch(generation);
        if ok {
            self.may_have_left = true;
        }
        ok
    }

    /// The head of the answer came. It is noted before the body is touched.
    pub fn on_head(&mut self, status: u16)
        ensures
            final(self).head() == (match old(self).head() {
                Some(s) => Some(s),
                None => Some(status),
            }),
            final(self).may_have_left() == old(self).may_have_left(),
            final(self).request() == old(self).request(),
            final(self).token() == old(self).token(),
    {
        if self.head.is_none() {
            self.head = Some(status);
        }
    }

    /// The call is over, with that outcome, or with none because the generation was revoked. A
    /// head that says success is the acknowledgement, whatever came after it.
    pub fn finish(
        self,
        generation: &mut Generation,
        outcome: Option<Result<KernelResponse, KernelCallError>>,
    ) -> (r: Result<KernelResponse, KernelCallError>)
        requires
            old(generation).wf(),
        ensures
            final(generation).wf(),
            final(generation)@ == old(generation)@.after_finish(self.request()),
            !final(generation)@.carries(self.request()),
            r == ended_with(
                self.head(),
                old(generation)@.outcome(self.request()) is Err,
                self.may_have_left(),
                outcome,
            ),
    {
        let left = self.may_have_left;
        let head = self.head;
        let finished = self.request.finish(generation);
        if let Some(status) = head {
            if 200 <= status && status < 300 {
                return Ok(KernelResponse { status });
            }
        }
        match (finished, outcome) {
            (Ok(()), Some(r)) => r,
            _ => Err(KernelCallError::Abandoned(Abandoned { dispatched: left })),
        }
    }
}

/// How a call ends.
pub open spec fn ended_with(
    head: Option<u16>,
    revoked: bool,
    may_have_left: bool,
    outcome: Option<Result<KernelResponse, KernelCallError>>,
) -> Result<KernelResponse, KernelCallError> {
    match head {
        Some(status) if is_success(status) => Ok(KernelResponse { status }),
        _ => match outcome {
            Some(r) if !revoked => r,
            _ => Err(KernelCallError::Abandoned(Abandoned { dispatched: may_have_left })),
        },
    }
}

/// A success that was seen stands, whatever the transport says then and whether or not the
/// generation is revoked.
pub proof fn law_a_seen_success_stands(
    status: u16,
    revoked: bool,
    may_have_left: bool,
    outcome: Option<Result<KernelResponse, KernelCallError>>,
)
    requires
        is_success(status),
    ensures
        ended_with(Some(status), revoked, may_have_left, outcome) == Ok::<
            KernelResponse,
            KernelCallError,
        >(KernelResponse { status }),
{
}

/// A call that was not let through to the wire is never told of as one that may have left, and one
/// that was is never told of as one that did not, if a revocation ended it.
pub proof fn law_a_revoked_call_tells_whether_it_left(
    head: Option<u16>,
    may_have_left: bool,
    outcome: Option<Result<KernelResponse, KernelCallError>>,
)
    requires
        head matches Some(status) ==> !is_success(status),
    ensures
        ended_with(head, true, may_have_left, outcome) == Err::<KernelResponse, KernelCallError>(
            KernelCallError::Abandoned(Abandoned { dispatched: may_have_left }),
        ),
{
}

/// What an exchange that failed means.
pub fn exchange_failed(e: ExchangeError) -> (r: KernelCallError)
    ensures
        match e {
            ExchangeError::NotSent(e) => r == KernelCallError::NotSent(e),
            ExchangeError::MaybeSent(e) => r == KernelCallError::MaybeSent(e),
        },
{
    match e {
        ExchangeError::NotSent(e) => KernelCallError::NotSent(e),
        ExchangeError::MaybeSent(e) => KernelCallError::MaybeSent(e),
    }
}

/// What an answer means once its body was read. The body of a success means nothing. Only a body
/// that was too long is told of as one.
pub fn answer(status: u16, read: Drained) -> (r: Result<KernelResponse, KernelCallError>)
    ensures
        match read {
            Drained::TooLong if !is_success(status) => r == Err::<KernelResponse, KernelCallError>(
                KernelCallError::ResponseTooLarge,
            ),
            Drained::Failed(e) if !is_success(status) => r == Err::<
                KernelResponse,
                KernelCallError,
            >(KernelCallError::ResponseBodyError(e)),
            _ => r == Ok::<KernelResponse, KernelCallError>(KernelResponse { status }),
        },
{
    let success = 200 <= status && status < 300;
    match read {
        Drained::TooLong => if !success {
            return Err(KernelCallError::ResponseTooLarge);
        },
        Drained::Failed(e) => if !success {
            return Err(KernelCallError::ResponseBodyError(e));
        },
        Drained::All => {},
    }
    Ok(KernelResponse { status })
}

/// How a call ends. Once the head of a success was seen, it is a success, whatever happens then. Else,
/// as long as the generation was not revoked, it ends with what its exchange came to, let through to
/// the wire or not. Only a revocation, or an exchange that came to nothing, makes it abandoned; and
/// then it tells whether it may have left.
pub proof fn law_a_call_ends_with_what_its_exchange_came_to(
    head: Option<u16>,
    revoked: bool,
    may_have_left: bool,
    outcome: Option<Result<KernelResponse, KernelCallError>>,
)
    ensures
        ({
            let end = ended_with(head, revoked, may_have_left, outcome);
            let seen = head matches Some(status) && 200 <= status <= 299;
            &&& seen ==> end == Ok::<KernelResponse, KernelCallError>(
                KernelResponse { status: head->Some_0 },
            )
            &&& !seen && !revoked && outcome is Some ==> end == outcome->Some_0
            &&& !seen && (revoked || outcome is None) ==> end == Err::<
                KernelResponse,
                KernelCallError,
            >(KernelCallError::Abandoned(Abandoned { dispatched: may_have_left }))
        }),
{
}

/// A call in a generation that carries it and was not revoked ends with its exchange's own outcome;
/// in a revoked one it is abandoned, unless a success was seen.
pub proof fn law_only_a_revocation_abandons_a_call(
    generation: drain::GenerationView,
    request: drain::RequestView,
    head: Option<u16>,
    may_have_left: bool,
    came_to: Result<KernelResponse, KernelCallError>,
)
    requires
        generation.in_flight.contains_key(request.id),
        generation.in_flight[request.id].serial == request.serial,
        generation.upstream == request.address,
        head matches Some(status) ==> status < 200 || status > 299,
    ensures
        ({
            let end = ended_with(
                head,
                generation.outcome(request) is Err,
                may_have_left,
                Some(came_to),
            );
            &&& generation.state != drain::DrainState::Revoked ==> end == came_to
            &&& generation.state == drain::DrainState::Revoked ==> end == Err::<
                KernelResponse,
                KernelCallError,
            >(KernelCallError::Abandoned(Abandoned { dispatched: may_have_left }))
        }),
{
    drain::law_only_a_revocation_takes_a_success_away(generation, request);
}

/// A success is a status of the two hundreds, and nothing else.
pub proof fn law_which_statuses_are_successes(status: u16)
    ensures
        is_success(status) <==> 200 <= status && status <= 299,
{
}

/// What a module is told by a request of the kernel's own: the id, the token, the host and the type of
/// the body, each once; and of each extra header the last value that was given for it, unless its name
/// is one of those. Nothing else.
pub proof fn law_what_a_kernel_request_says(
    extra: Seq<(String, Vec<u8>)>,
    id: Seq<char>,
    token: Seq<char>,
    name: Seq<char>,
)
    ensures
        ({
            let said = kernel_fields(extra, id, token);
            &&& said["x-a24-request-id"@] == seq![vstd::utf8::encode_utf8(id)]
            &&& said["x-a24-approval-token"@] == seq![vstd::utf8::encode_utf8(token)]
            &&& said["host"@] == seq![vstd::utf8::encode_utf8("agent24-module.invalid"@)]
            &&& said["content-type"@] == seq![vstd::utf8::encode_utf8("application/json"@)]
            &&& said.contains_key("x-a24-request-id"@) && said.contains_key(
                "x-a24-approval-token"@,
            ) && said.contains_key("host"@) && said.contains_key("content-type"@)
            &&& name != "x-a24-request-id"@ && name != "x-a24-approval-token"@ && name != "host"@
                && name != "content-type"@ ==> {
                &&& said.contains_key(name) <==> exists|i: int|
                    0 <= i < extra.len() && (#[trigger] extra[i]).0@ == name
                &&& said.contains_key(name) ==> exists|i: int|
                    {
                        &&& 0 <= i < extra.len()
                        &&& (#[trigger] extra[i]).0@ == name
                        &&& said[name] == seq![extra[i].1@]
                        &&& forall|j: int|
                            i < j < extra.len() ==> (#[trigger] extra[j]).0@ != name
                    }
            }
        }),
{
    reveal_strlit("x-a24-request-id");
    reveal_strlit("x-a24-approval-token");
    reveal_strlit("host");
    reveal_strlit("content-type");
    assert("x-a24-request-id"@.len() == 16);
    assert("x-a24-approval-token"@.len() == 20);
    assert("host"@.len() == 4);
    assert("content-type"@.len() == 12);
    lemma_last_extra(extra, name);
}

proof fn lemma_last_extra(extra: Seq<(String, Vec<u8>)>, name: Seq<char>)
    ensures
        extra_fields(extra).contains_key(name) <==> exists|i: int|
            0 <= i < extra.len() && (#[trigger] extra[i]).0@ == name,
        extra_fields(extra).contains_key(name) ==> exists|i: int|
            {
                &&& 0 <= i < extra.len()
                &&& (#[trigger] extra[i]).0@ == name
                &&& extra_fields(extra)[name] == seq![extra[i].1@]
                &&& forall|j: int| i < j < extra.len() ==> (#[trigger] extra[j]).0@ != name
            },
    decreases extra.len(),
{
    if extra.len() > 0 {
        let before = extra.drop_last();
        let n = extra.len() - 1;
        lemma_last_extra(before, name);
        if extra[n].0@ == name {
            assert(extra_fields(extra)[name] == seq![extra[n].1@]);
        } else {
            if extra_fields(before).contains_key(name) {
                let i = choose|i: int|
                    {
                        &&& 0 <= i < before.len()
                        &&& (#[trigger] before[i]).0@ == name
                        &&& extra_fields(before)[name] == seq![before[i].1@]
                        &&& forall|j: int|
                            i < j < before.len() ==> (#[trigger] before[j]).0@ != name
                    };
                assert(extra[i] == before[i]);
                assert forall|j: int| i < j < extra.len() implies (#[trigger] extra[j]).0@
                    != name by {
                    if j < n {
                        assert(before[j] == extra[j]);
                    }
                }
            }
            if exists|i: int| 0 <= i < extra.len() && (#[trigger] extra[i]).0@ == name {
                let i = choose|i: int| 0 <= i < extra.len() && (#[trigger] extra[i]).0@ == name;
                assert(before[i].0@ == name);
            }
        }
    }
}

/// The ids of the kernel's own requests are told by their beginning, and counted.
pub proof fn law_kernel_ids_are_counted_under_their_prefix(prefix: Seq<char>, n: u64)
    ensures
        kernel_id(prefix, n) == "sch-"@ + (prefix + "-"@ + text::decimal(n as nat)),
{
}

} // verus!
