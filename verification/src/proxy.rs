//! The constrained proxy: what passes between a client and a module, and what does not.
//!
//! Forwarding is not proxying. A request forwarded as it came would hand the kernel's credentials
//! to the module, and a response forwarded as it came would let the module speak for the kernel.
//! Both directions are filtered here.
//!
//! Every header under the reserved prefix is dropped in both directions, and then the kernel
//! writes its own. Other private headers are dropped by an explicit list, which nothing keeps
//! complete: a private header has to be named under the prefix.
use crate::drain;
use crate::drain::{Abandoned, Generation, InFlight, RequestRefused};
use crate::tenths;
use crate::text;
use vstd::prelude::*;
use vstd::string::*;

verus! {

/// The id that the kernel writes on every proxied request. It is no secret.
pub const REQUEST_ID_HEADER: &'static str = "x-a24-request-id";

/// The header that carries a request's approval token: the secret twin of its id.
pub const APPROVAL_TOKEN_HEADER: &'static str = "x-a24-approval-token";

/// The reserved prefix. Everything under it is written by the kernel, in both directions.
pub const A24_HEADER_PREFIX: &'static str = "x-a24-";

/// What a proxy says of where a request came from. The kernel is the only hop, so none of it can
/// be legitimate on the way to a module.
pub const X_FORWARDED_PREFIX: &'static str = "x-forwarded-";

/// How long one proxied request may take, from the client's body to the module's last byte, in
/// nanoseconds.
pub const UPSTREAM_DEADLINE: u64 = 30_000_000_000;

/// How long the module may take to begin answering, in nanoseconds.
pub const UPSTREAM_HEAD_DEADLINE: u64 = 10_000_000_000;

/// How many proxied requests one module may have at once.
pub const MAX_INFLIGHT_PER_MODULE: usize = 64;

/// The largest body that is held, in either direction.
pub const MAX_BODY_BYTES: usize = 1_048_576;

/// How many idle connections to a module are kept.
pub const MAX_IDLE_CONNECTIONS: usize = 8;

/// How long a connection may take to be ready again after a response, before it is closed instead
/// of kept, in nanoseconds.
pub const IDLE_SETTLE: u64 = 50_000_000;

// ---------------------------------------------------------------------------
// Which headers pass
// ---------------------------------------------------------------------------

/// Headers between two hops, and the length, which is computed anew.
pub open spec fn hop_by_hop(name: Seq<char>) -> bool {
    ||| name == "connection"@
    ||| name == "keep-alive"@
    ||| name == "te"@
    ||| name == "trailer"@
    ||| name == "transfer-encoding"@
    ||| name == "upgrade"@
    ||| name == "proxy-authenticate"@
    ||| name == "proxy-authorization"@
    ||| name == "proxy-connection"@
    ||| name == "content-length"@
}

/// Headers that never reach the module.
pub open spec fn stripped_from_request(name: Seq<char>) -> bool {
    ||| hop_by_hop(name)
    ||| text::starts_with(name, A24_HEADER_PREFIX@)
    ||| text::starts_with(name, X_FORWARDED_PREFIX@)
    ||| name == "authorization"@
    ||| name == "cookie"@
    ||| name == "host"@
    ||| name == "expect"@
    ||| name == "forwarded"@
    ||| name == "x-real-ip"@
}

/// Headers that never reach the client.
pub open spec fn stripped_from_response(name: Seq<char>) -> bool {
    ||| hop_by_hop(name)
    ||| text::starts_with(name, A24_HEADER_PREFIX@)
    ||| name == "set-cookie"@
    ||| name == "www-authenticate"@
    ||| name == "authorization"@
    ||| name == "authentication-info"@
    ||| name == "proxy-authentication-info"@
    ||| name == "refresh"@
}

/// Whether a header is between two hops, or computed anew.
pub fn is_hop_by_hop_or_recomputed(name: &str) -> (r: bool)
    ensures
        r == hop_by_hop(name@),
{
    text::same(name, "connection") || text::same(name, "keep-alive") || text::same(name, "te")
        || text::same(name, "trailer") || text::same(name, "transfer-encoding") || text::same(
        name,
        "upgrade",
    ) || text::same(name, "proxy-authenticate") || text::same(name, "proxy-authorization")
        || text::same(name, "proxy-connection") || text::same(name, "content-length")
}

/// Whether a header must never reach the module.
pub fn strips_from_request(name: &str) -> (r: bool)
    ensures
        r == stripped_from_request(name@),
{
    is_hop_by_hop_or_recomputed(name) || text::has_prefix(name, A24_HEADER_PREFIX)
        || text::has_prefix(name, X_FORWARDED_PREFIX) || text::same(name, "authorization")
        || text::same(name, "cookie") || text::same(name, "host") || text::same(name, "expect")
        || text::same(name, "forwarded") || text::same(name, "x-real-ip")
}

/// Whether a header must never reach the client.
pub fn strips_from_response(name: &str) -> (r: bool)
    ensures
        r == stripped_from_response(name@),
{
    is_hop_by_hop_or_recomputed(name) || text::has_prefix(name, A24_HEADER_PREFIX)
        || text::same(name, "set-cookie") || text::same(name, "www-authenticate") || text::same(
        name,
        "authorization",
    ) || text::same(name, "authentication-info") || text::same(name, "proxy-authentication-info")
        || text::same(name, "refresh")
}

// ---------------------------------------------------------------------------
// Header maps
// ---------------------------------------------------------------------------

/// `http::HeaderMap`, the headers of a request or a response.
#[verifier::external_type_specification]
#[verifier::external_body]
#[verifier::reject_recursive_types(T)]
pub struct ExHeaderMap<T>(axum::http::HeaderMap<T>);

/// `http::HeaderValue`, the value of a header.
#[verifier::external_type_specification]
#[verifier::external_body]
pub struct ExHeaderValue(axum::http::HeaderValue);

/// What a header map holds: under each name its values, in order.
pub uninterp spec fn header_fields(headers: axum::http::HeaderMap) -> Map<Seq<char>, Seq<Seq<u8>>>;

/// Whether a text has no upper-case ASCII letters.
pub open spec fn is_lower(s: Seq<char>) -> bool {
    forall|i: int| 0 <= i < s.len() ==> !('A' <= #[trigger] s[i] <= 'Z')
}

/// Calls `HeaderMap::keys`: every name once. Names are kept in lower case.
#[verifier::external_body]
fn field_names(headers: &axum::http::HeaderMap) -> (r: Vec<String>)
    ensures
        forall|name: Seq<char>| #[trigger]
            text::views(r@).contains(name) <==> header_fields(*headers).contains_key(name),
        forall|i: int, j: int|
            0 <= i < j < r@.len() ==> (#[trigger] r@[i])@ != (#[trigger] r@[j])@,
        forall|i: int| 0 <= i < r@.len() ==> is_lower((#[trigger] r@[i])@),
{
    headers.keys().map(|name| name.as_str().to_owned()).collect()
}

/// Calls `HeaderMap::get_all`: the values under a name, in the order in which they were added.
/// The map is asked in lower case, as its names are.
#[verifier::external_body]
fn field_values(headers: &axum::http::HeaderMap, name: &str) -> (r: Vec<Vec<u8>>)
    requires
        is_lower(name@),
    ensures
        text::contents(r@) == values_under(header_fields(*headers), name@),
{
    headers.get_all(name).iter().map(|value| value.as_bytes().to_vec()).collect()
}

/// Calls `HeaderMap::clone`: a map with the same names and values.
#[verifier::external_body]
fn copy_headers(headers: &axum::http::HeaderMap) -> (r: axum::http::HeaderMap)
    ensures
        header_fields(r) == header_fields(*headers),
{
    headers.clone()
}

/// Calls `HeaderMap::remove`: takes out a name that is there, with all its values.
#[verifier::external_body]
fn remove_field(headers: &mut axum::http::HeaderMap, name: &str)
    requires
        is_lower(name@),
    ensures
        header_fields(*final(headers)) == header_fields(*old(headers)).remove(name@),
{
    let _ = headers.remove(name);
}

/// Whether bytes can be the value of a header: no control characters but the tab.
pub open spec fn is_header_value(b: Seq<u8>) -> bool {
    forall|i: int| 0 <= i < b.len() ==> (#[trigger] b[i] >= 0x20 && b[i] != 0x7f || b[i] == 0x09)
}

/// Whether a text can be the value of a header.
pub open spec fn is_header_text(s: Seq<char>) -> bool {
    is_header_value(vstd::utf8::encode_utf8(s))
}

/// Whether a character can stand in the name of a header, in lower case.
pub open spec fn in_field_name(c: char) -> bool {
    ||| 'a' <= c <= 'z'
    ||| '0' <= c <= '9'
    ||| c == '!' || c == '#' || c == '$' || c == '%' || c == '&' || c == '\'' || c == '*'
    ||| c == '+' || c == '-' || c == '.' || c == '^' || c == '_' || c == '`' || c == '|'
    ||| c == '~'
}

/// Whether a text is the name of a header, in lower case.
pub open spec fn is_field_name(s: Seq<char>) -> bool {
    &&& 0 < s.len() <= 0xffff
    &&& forall|i: int| 0 <= i < s.len() ==> in_field_name(#[trigger] s[i])
}

/// What a map holds that holds nothing.
pub open spec fn no_fields() -> Map<Seq<char>, Seq<Seq<u8>>> {
    Map::empty()
}

/// Calls `HeaderMap::new`: a map that holds nothing.
#[verifier::external_body]
pub(crate) fn no_headers() -> (r: axum::http::HeaderMap)
    ensures
        header_fields(r) == no_fields(),
{
    axum::http::HeaderMap::new()
}

/// A header map of this many names, or fewer, can take one more, however its names are hashed.
pub const NAMES_THAT_FIT: usize = 6553;

/// Calls `HeaderMap::try_insert` with a name from `HeaderName::from_bytes` and a value from
/// `HeaderValue::from_bytes`: the value is then the only one under the name. Where the value
/// cannot be one, or the map is full, nothing is changed. A map of at most [`NAMES_THAT_FIT`] names
/// is not full.
#[verifier::external_body]
pub(crate) fn set_field(headers: &mut axum::http::HeaderMap, name: &str, value: &[u8]) -> (r: bool)
    requires
        is_field_name(name@),
    ensures
        header_fields(*final(headers)) == (if r {
            header_fields(*old(headers)).insert(name@, seq![value@])
        } else {
            header_fields(*old(headers))
        }),
        r ==> is_header_value(value@),
        is_header_value(value@) && header_fields(*old(headers)).dom().finite() && header_fields(
            *old(headers),
        ).dom().len() <= NAMES_THAT_FIT ==> r,
{
    let name = axum::http::HeaderName::from_bytes(name.as_bytes());
    let value = axum::http::HeaderValue::from_bytes(value);
    match (name, value) {
        (Ok(name), Ok(value)) => headers.try_insert(name, value).is_ok(),
        _ => false,
    }
}

/// The names that the kernel writes are names of headers.
pub proof fn lemma_kernel_names()
    ensures
        is_field_name(REQUEST_ID_HEADER@),
        is_field_name(APPROVAL_TOKEN_HEADER@),
        is_field_name("host"@),
        is_field_name("content-type"@),
{
    reveal_strlit("x-a24-request-id");
    reveal_strlit("x-a24-approval-token");
    reveal_strlit("host");
    reveal_strlit("content-type");
}

/// The values under a name; none where the name is not there.
pub open spec fn values_under(
    fields: Map<Seq<char>, Seq<Seq<u8>>>,
    name: Seq<char>,
) -> Seq<Seq<u8>> {
    if fields.contains_key(name) {
        fields[name]
    } else {
        Seq::empty()
    }
}

// ---------------------------------------------------------------------------
// Tokens
// ---------------------------------------------------------------------------

/// Space in ASCII.
pub open spec fn is_ascii_space(b: u8) -> bool {
    b == 0x20 || b == 0x09 || b == 0x0a || b == 0x0c || b == 0x0d
}

/// Bytes without the space at their start.
pub open spec fn trimmed_start(b: Seq<u8>) -> Seq<u8>
    decreases b.len(),
{
    if b.len() > 0 && is_ascii_space(b[0]) {
        trimmed_start(b.drop_first())
    } else {
        b
    }
}

/// Bytes without the space at their end.
pub open spec fn trimmed_end(b: Seq<u8>) -> Seq<u8>
    decreases b.len(),
{
    if b.len() > 0 && is_ascii_space(b.last()) {
        trimmed_end(b.drop_last())
    } else {
        b
    }
}

/// Bytes without the space round them.
pub open spec fn trimmed(b: Seq<u8>) -> Seq<u8> {
    trimmed_end(trimmed_start(b))
}

fn is_space(b: u8) -> (r: bool)
    ensures
        r == is_ascii_space(b),
{
    b == 0x20 || b == 0x09 || b == 0x0a || b == 0x0c || b == 0x0d
}

/// Bytes without the space round them.
pub fn trim_ascii_whitespace(bytes: &[u8]) -> (r: &[u8])
    ensures
        r@ == trimmed(bytes@),
{
    let mut start: usize = 0;
    assert(bytes@.skip(0) =~= bytes@);
    while start < bytes.len() && is_space(bytes[start])
        invariant
            start <= bytes@.len(),
            trimmed_start(bytes@.skip(start as int)) == trimmed_start(bytes@),
        decreases bytes@.len() - start,
    {
        proof {
            let b = bytes@.skip(start as int);
            assert(b[0] == bytes@[start as int]);
            assert(b.drop_first() =~= bytes@.skip(start + 1));
        }
        start = start + 1;
    }
    let ghost inner = bytes@.skip(start as int);
    proof {
        if start < bytes@.len() {
            assert(inner[0] == bytes@[start as int]);
        }
        assert(trimmed_start(bytes@) == inner);
    }
    let mut end: usize = bytes.len();
    assert(bytes@.subrange(start as int, end as int) =~= inner);
    while start < end && is_space(bytes[end - 1])
        invariant
            start <= end <= bytes@.len(),
            trimmed_end(bytes@.subrange(start as int, end as int)) == trimmed_end(inner),
        decreases end,
    {
        proof {
            let b = bytes@.subrange(start as int, end as int);
            assert(b.last() == bytes@[end - 1]);
            assert(b.drop_last() =~= bytes@.subrange(start as int, end - 1));
        }
        end = end - 1;
    }
    proof {
        let b = bytes@.subrange(start as int, end as int);
        if start < end {
            assert(b.last() == bytes@[end - 1]);
        }
    }
    vstd::slice::slice_subrange(bytes, start, end)
}

/// A byte in lower case.
pub open spec fn lower(b: u8) -> u8 {
    if 0x41 <= b <= 0x5a {
        (b + 0x20) as u8
    } else {
        b
    }
}

/// Bytes in lower case.
pub open spec fn lowered(b: Seq<u8>) -> Seq<u8> {
    Seq::new(b.len(), |i: int| lower(b[i]))
}

/// Bytes in lower case.
pub fn to_lower(bytes: &[u8]) -> (r: Vec<u8>)
    ensures
        r@ == lowered(bytes@),
{
    let mut out: Vec<u8> = Vec::new();
    let mut i: usize = 0;
    while i < bytes.len()
        invariant
            i <= bytes@.len(),
            out@.len() == i,
            forall|j: int| 0 <= j < i ==> out@[j] == lower(bytes@[j]),
        decreases bytes@.len() - i,
    {
        let b: u8 = bytes[i];
        if 0x41 <= b && b <= 0x5a {
            out.push(b + 0x20);
        } else {
            out.push(b);
        }
        i = i + 1;
    }
    assert(out@ =~= lowered(bytes@));
    out
}

/// Whether every byte is ASCII.
pub open spec fn all_ascii(b: Seq<u8>) -> bool {
    forall|i: int| 0 <= i < b.len() ==> #[trigger] b[i] < 0x80
}

fn is_all_ascii(b: &[u8]) -> (r: bool)
    ensures
        r == all_ascii(b@),
{
    let mut i: usize = 0;
    while i < b.len()
        invariant
            i <= b@.len(),
            forall|j: int| 0 <= j < i ==> #[trigger] b@[j] < 0x80,
        decreases b@.len() - i,
    {
        if b[i] >= 0x80 {
            return false;
        }
        i = i + 1;
    }
    true
}

/// Whether one piece of a `Connection` value names that header.
pub open spec fn names(piece: Seq<u8>, name: Seq<u8>) -> bool {
    &&& trimmed(piece).len() > 0
    &&& all_ascii(trimmed(piece))
    &&& lowered(trimmed(piece)) == name
}

/// Whether one of the `Connection` values names that header. A value is read piece by piece: one
/// piece that is no ASCII does not hide the others.
pub open spec fn nominated(values: Seq<Seq<u8>>, name: Seq<u8>) -> bool {
    exists|i: int, j: int|
        0 <= i < values.len() && 0 <= j < text::pieces(values[i], 0x2c).len() && names(
            #[trigger] text::pieces(values[i], 0x2c)[j],
            name,
        )
}

/// The headers that `Connection` values name, in lower case.
pub fn connection_tokens(values: &Vec<Vec<u8>>) -> (r: Vec<Vec<u8>>)
    ensures
        forall|name: Seq<u8>| #[trigger]
            text::contents(r@).contains(name) <==> nominated(text::contents(values@), name),
{
    let ghost all = text::contents(values@);
    let mut out: Vec<Vec<u8>> = Vec::new();
    let mut i: usize = 0;
    while i < values.len()
        invariant
            i <= values@.len(),
            all == text::contents(values@),
            forall|name: Seq<u8>| #[trigger]
                text::contents(out@).contains(name) <==> exists|a: int, b: int|
                    0 <= a < i && 0 <= b < text::pieces(all[a], 0x2c).len() && names(
                        #[trigger] text::pieces(all[a], 0x2c)[b],
                        name,
                    ),
        decreases values@.len() - i,
    {
        let parts = text::split_bytes(values[i].as_slice(), 0x2c);
        let ghost ps = text::pieces(all[i as int], 0x2c);
        assert(all[i as int] == values@[i as int]@);
        assert(text::contents(parts@) == ps);
        let mut j: usize = 0;
        while j < parts.len()
            invariant
                i < values@.len(),
                j <= parts@.len(),
                all == text::contents(values@),
                ps == text::pieces(all[i as int], 0x2c),
                text::contents(parts@) == ps,
                forall|name: Seq<u8>| #[trigger]
                    text::contents(out@).contains(name) <==> exists|a: int, b: int|
                        (0 <= a < i && 0 <= b < text::pieces(all[a], 0x2c).len() || a == i && 0
                            <= b < j) && names(#[trigger] text::pieces(all[a], 0x2c)[b], name),
            decreases parts@.len() - j,
        {
            assert(ps[j as int] == parts@[j as int]@);
            let token = trim_ascii_whitespace(parts[j].as_slice());
            let ghost before = text::contents(out@);
            if token.len() > 0 && is_all_ascii(token) {
                let t = to_lower(token);
                out.push(t);
                proof {
                    let now = text::contents(out@);
                    assert(now =~= before.push(t@));
                    assert forall|name: Seq<u8>| #[trigger]
                        now.contains(name) <==> exists|a: int, b: int|
                            (0 <= a < i && 0 <= b < text::pieces(all[a], 0x2c).len() || a == i && 0
                                <= b < j + 1) && names(
                                #[trigger] text::pieces(all[a], 0x2c)[b],
                                name,
                            ) by {
                        if now.contains(name) {
                            let k = choose|k: int| 0 <= k < now.len() && now[k] == name;
                            if k < before.len() {
                                assert(before[k] == name);
                                assert(before.contains(name));
                            } else {
                                assert(names(text::pieces(all[i as int], 0x2c)[j as int], name));
                            }
                        }
                        if exists|a: int, b: int|
                            (0 <= a < i && 0 <= b < text::pieces(all[a], 0x2c).len() || a == i && 0
                                <= b < j + 1) && names(
                                #[trigger] text::pieces(all[a], 0x2c)[b],
                                name,
                            ) {
                            let (a, b) = choose|a: int, b: int|
                                (0 <= a < i && 0 <= b < text::pieces(all[a], 0x2c).len() || a == i
                                    && 0 <= b < j + 1) && names(
                                    #[trigger] text::pieces(all[a], 0x2c)[b],
                                    name,
                                );
                            if a == i && b == j {
                                assert(now[before.len() as int] == name);
                            } else {
                                assert(names(text::pieces(all[a], 0x2c)[b], name));
                                assert(before.contains(name));
                                let k = choose|k: int| 0 <= k < before.len() && before[k] == name;
                                assert(now[k] == name);
                            }
                        }
                    }
                }
            } else {
                assert forall|name: Seq<u8>| !names(ps[j as int], name) by {}
            }
            j = j + 1;
        }
        proof {
            assert forall|name: Seq<u8>| #[trigger]
                text::contents(out@).contains(name) <==> exists|a: int, b: int|
                    0 <= a < i + 1 && 0 <= b < text::pieces(all[a], 0x2c).len() && names(
                        #[trigger] text::pieces(all[a], 0x2c)[b],
                        name,
                    ) by {
                assert(parts@.len() == ps.len());
            }
        }
        i = i + 1;
    }
    out
}

// ---------------------------------------------------------------------------
// Filtering headers
// ---------------------------------------------------------------------------

/// Which way headers go.
#[derive(Debug, Clone, Copy, PartialEq, Eq, Structural)]
pub enum Direction {
    ToModule,
    ToClient,
}

/// Whether a header is dropped on its way.
pub open spec fn stripped(direction: Direction, name: Seq<char>) -> bool {
    match direction {
        Direction::ToModule => stripped_from_request(name),
        Direction::ToClient => stripped_from_response(name),
    }
}

/// Whether a header passes: it is neither dropped on that way, nor named by `Connection`.
pub open spec fn passes(
    direction: Direction,
    fields: Map<Seq<char>, Seq<Seq<u8>>>,
    name: Seq<char>,
) -> bool {
    !stripped(direction, name) && !nominated(
        values_under(fields, "connection"@),
        vstd::utf8::encode_utf8(name),
    )
}

/// The headers that pass, each with all its values.
pub open spec fn filtered(direction: Direction, fields: Map<Seq<char>, Seq<Seq<u8>>>) -> Map<
    Seq<char>,
    Seq<Seq<u8>>,
> {
    fields.restrict(fields.dom().filter(|name: Seq<char>| passes(direction, fields, name)))
}

fn holds_bytes(list: &Vec<Vec<u8>>, b: &[u8]) -> (r: bool)
    ensures
        r == text::contents(list@).contains(b@),
{
    let ghost all = text::contents(list@);
    let mut i: usize = 0;
    while i < list.len()
        invariant
            i <= list@.len(),
            all == text::contents(list@),
            forall|j: int| 0 <= j < i ==> all[j] != b@,
        decreases list@.len() - i,
    {
        assert(all[i as int] == list@[i as int]@);
        if text::same_bytes(list[i].as_slice(), b) {
            return true;
        }
        i = i + 1;
    }
    false
}

fn sanitize(headers: &axum::http::HeaderMap, direction: Direction) -> (r: axum::http::HeaderMap)
    ensures
        header_fields(r) == filtered(direction, header_fields(*headers)),
        header_fields(*headers).dom().finite(),
{
    let ghost fields = header_fields(*headers);
    proof {
        lemma_connection_is_lower();
    }
    let values = field_values(headers, "connection");
    let tokens = connection_tokens(&values);
    let list = field_names(headers);
    let mut out = copy_headers(headers);
    let ghost keys = text::views(list@);
    proof {
        vstd::seq_lib::seq_to_set_is_finite(keys);
        assert(fields.dom() =~= keys.to_set());
    }
    let mut i: usize = 0;
    while i < list.len()
        invariant
            i <= list@.len(),
            keys == text::views(list@),
            fields == header_fields(*headers),
            forall|name: Seq<u8>| #[trigger]
                text::contents(tokens@).contains(name) <==> nominated(
                    values_under(fields, "connection"@),
                    name,
                ),
            forall|a: int, b: int|
                0 <= a < b < list@.len() ==> (#[trigger] list@[a])@ != (#[trigger] list@[b])@,
            forall|a: int| 0 <= a < list@.len() ==> is_lower((#[trigger] list@[a])@),
            forall|name: Seq<char>| #[trigger]
                header_fields(out).contains_key(name) <==> fields.contains_key(name) && !(exists|
                    a: int,
                |
                    0 <= a < i && (#[trigger] keys[a]) == name && !passes(
                        direction,
                        fields,
                        name,
                    )),
            forall|name: Seq<char>| #[trigger]
                header_fields(out).contains_key(name) ==> header_fields(out)[name] == fields[name],
        decreases list@.len() - i,
    {
        let name = list[i].as_str();
        assert(keys[i as int] == name@);
        let dropped = match direction {
            Direction::ToModule => strips_from_request(name),
            Direction::ToClient => strips_from_response(name),
        };
        let ghost before = header_fields(out);
        if dropped || holds_bytes(&tokens, name.as_bytes()) {
            remove_field(&mut out, name);
            proof {
                assert(!passes(direction, fields, name@));
                assert forall|other: Seq<char>| #[trigger]
                    header_fields(out).contains_key(other) <==> fields.contains_key(other) && !(
                    exists|a: int|
                        0 <= a < i + 1 && (#[trigger] keys[a]) == other && !passes(
                            direction,
                            fields,
                            other,
                        )) by {
                    if other == name@ {
                        assert(keys[i as int] == other);
                    } else {
                        assert(before.contains_key(other) == header_fields(out).contains_key(
                            other,
                        ));
                    }
                }
            }
        } else {
            assert(passes(direction, fields, name@));
        }
        i = i + 1;
    }
    proof {
        let want = filtered(direction, fields);
        assert(header_fields(out) =~= want) by {
            assert forall|name: Seq<char>| #[trigger]
                header_fields(out).contains_key(name) <==> want.contains_key(name) by {
                if fields.contains_key(name) {
                    assert(keys.contains(name));
                    let a = choose|a: int| 0 <= a < keys.len() && keys[a] == name;
                    assert(keys[a] == name);
                }
            }
        }
    }
    out
}

proof fn lemma_connection_is_lower()
    ensures
        is_lower("connection"@),
        is_lower("content-type"@),
        is_lower("location"@),
{
    reveal_strlit("connection");
    reveal_strlit("content-type");
    reveal_strlit("location");
}

/// The headers that a module may see, of those that a client sent. The headers that the kernel
/// writes itself are not among them.
pub fn sanitize_request_headers(from_client: &axum::http::HeaderMap) -> (r:
    axum::http::HeaderMap)
    ensures
        header_fields(r) == filtered(Direction::ToModule, header_fields(*from_client)),
        header_fields(*from_client).dom().finite(),
{
    sanitize(from_client, Direction::ToModule)
}

/// The headers that a client may see, of those that a module returned.
pub fn sanitize_response_headers(from_module: &axum::http::HeaderMap) -> (r:
    axum::http::HeaderMap)
    ensures
        header_fields(r) == filtered(Direction::ToClient, header_fields(*from_module)),
        header_fields(*from_module).dom().finite(),
{
    sanitize(from_module, Direction::ToClient)
}

/// Which of the kernel's own headers could be written.
#[derive(Debug, Clone, Copy, PartialEq, Eq, Structural)]
pub struct OwnHeaders {
    pub id: bool,
    pub token: bool,
    pub host: bool,
}

/// A text, where a header could hold it.
pub open spec fn if_written(written: bool, s: Seq<char>) -> Option<Seq<char>> {
    if written {
        Some(s)
    } else {
        None
    }
}

/// The headers of a request to a module: what passes from the client, the request's id, its
/// approval token if it has one, and where it goes. Says which of the kernel's own were written.
pub fn outgoing_headers(
    from_client: &axum::http::HeaderMap,
    request_id: &str,
    token: Option<&str>,
    host: &str,
) -> (r: (axum::http::HeaderMap, OwnHeaders))
    ensures
        header_fields(r.0) == outgoing(
            header_fields(*from_client),
            if_written(r.1.id, request_id@),
            match token {
                Some(t) => if_written(r.1.token, t@),
                None => None,
            },
            if_written(r.1.host, host@),
        ),
        r.1.id ==> is_header_text(request_id@),
        r.1.token ==> (token matches Some(t) && is_header_text(t@)),
        r.1.host ==> is_header_text(host@),
        header_fields(*from_client).dom().finite(),
        header_fields(*from_client).dom().len() <= NAMES_THAT_FIT - 2 ==> {
            &&& r.1.id == is_header_text(request_id@)
            &&& r.1.token == (token matches Some(t) && is_header_text(t@))
            &&& r.1.host == is_header_text(host@)
        },
{
    let mut headers = sanitize_request_headers(from_client);
    proof {
        let fields = header_fields(*from_client);
        vstd::set_lib::lemma_len_subset(
            filtered(Direction::ToModule, fields).dom(),
            fields.dom(),
        );
        lemma_kernel_names();
    }
    let id = set_field(&mut headers, REQUEST_ID_HEADER, request_id.as_bytes());
    let token = match token {
        Some(token) => set_field(&mut headers, APPROVAL_TOKEN_HEADER, token.as_bytes()),
        None => false,
    };
    let host = set_field(&mut headers, "host", host.as_bytes());
    (headers, OwnHeaders { id, token, host })
}

/// What a client asked for.
#[derive(Debug)]
pub struct ClientRequest {
    pub method: String,
    /// The path and the query, if the request has them.
    pub path_and_query: Option<String>,
    pub headers: axum::http::HeaderMap,
    pub body: Vec<u8>,
}

/// What a module is asked, and where.
#[derive(Debug)]
pub struct OutgoingRequest {
    /// The socket of the run that the request was admitted into.
    pub address: Vec<u8>,
    pub method: String,
    pub path_and_query: String,
    pub headers: axum::http::HeaderMap,
    pub body: Vec<u8>,
    /// Which of the kernel's own headers could be written.
    pub own: OwnHeaders,
}

/// The answer where a run has no address.
pub open spec fn no_address_answer() -> RefusalView {
    bad_gateway(
        "upstream_unavailable"@,
        "the module's run has no address to send the request to"@,
    )
}

/// The whole request that a module is sent: the client's own method, path, query and body, to the
/// run that the request was admitted into and to no other, with the headers that pass and those
/// that the kernel writes.
pub fn outgoing_request(request: &InFlight, client: ClientRequest, token: Option<&str>, host: &str) -> (r:
    Result<OutgoingRequest, Refusal>)
    ensures
        match r {
            Err(refused) => request@.address is None && refused@ == no_address_answer(),
            Ok(sent) => {
                &&& request@.address == Some(sent.address@)
                &&& sent.method@ == client.method@
                &&& sent.path_and_query@ == (match client.path_and_query {
                    Some(s) => s@,
                    None => "/"@,
                })
                &&& sent.body@ == client.body@
                &&& header_fields(sent.headers) == outgoing(
                    header_fields(client.headers),
                    if_written(sent.own.id, request@.id),
                    match token {
                        Some(t) => if_written(sent.own.token, t@),
                        None => None,
                    },
                    if_written(sent.own.host, host@),
                )
                &&& header_fields(client.headers).dom().finite()
                &&& header_fields(client.headers).dom().len() <= NAMES_THAT_FIT - 2 ==> sent.own
                    == (OwnHeaders {
                    id: is_header_text(request@.id),
                    token: token matches Some(t) && is_header_text(t@),
                    host: is_header_text(host@),
                })
            },
        },
{
    let address = match request.upstream() {
        Some(path) => text::copy_bytes(path),
        None => {
            return Err(
                refusal(
                    BAD_GATEWAY,
                    "upstream_unavailable",
                    "the module's run has no address to send the request to",
                ),
            );
        },
    };
    let (headers, own) = outgoing_headers(&client.headers, request.id(), token, host);
    let path_and_query = match client.path_and_query {
        Some(s) => s,
        None => "/".to_owned(),
    };
    Ok(
        OutgoingRequest {
            address,
            method: client.method,
            path_and_query,
            headers,
            body: client.body,
            own,
        },
    )
}

/// A header with one value, where there is one.
pub open spec fn with_field(
    fields: Map<Seq<char>, Seq<Seq<u8>>>,
    name: Seq<char>,
    value: Option<Seq<char>>,
) -> Map<Seq<char>, Seq<Seq<u8>>> {
    match value {
        Some(v) => fields.insert(name, seq![vstd::utf8::encode_utf8(v)]),
        None => fields,
    }
}

/// What passes from the client, and what the kernel writes.
pub open spec fn outgoing(
    fields: Map<Seq<char>, Seq<Seq<u8>>>,
    request_id: Option<Seq<char>>,
    token: Option<Seq<char>>,
    host: Option<Seq<char>>,
) -> Map<Seq<char>, Seq<Seq<u8>>> {
    with_field(
        with_field(
            with_field(filtered(Direction::ToModule, fields), REQUEST_ID_HEADER@, request_id),
            APPROVAL_TOKEN_HEADER@,
            token,
        ),
        "host"@,
        host,
    )
}

/// Nothing that is dropped passes, and everything else passes with all its values.
pub proof fn law_filtering_is_exact(
    direction: Direction,
    fields: Map<Seq<char>, Seq<Seq<u8>>>,
    name: Seq<char>,
)
    ensures
        stripped(direction, name) ==> !filtered(direction, fields).contains_key(name),
        nominated(values_under(fields, "connection"@), vstd::utf8::encode_utf8(name))
            ==> !filtered(direction, fields).contains_key(name),
        fields.contains_key(name) && passes(direction, fields, name) ==> filtered(
            direction,
            fields,
        ).contains_key(name) && filtered(direction, fields)[name] == fields[name],
{
}

/// Whatever a client sends, a module sees no header under the reserved prefix but the request's
/// id and its approval token, each with the one value that the kernel wrote.
pub proof fn law_a_client_cannot_forge_kernel_headers(
    fields: Map<Seq<char>, Seq<Seq<u8>>>,
    request_id: Option<Seq<char>>,
    token: Option<Seq<char>>,
    host: Option<Seq<char>>,
    name: Seq<char>,
)
    requires
        text::starts_with(name, A24_HEADER_PREFIX@),
        outgoing(fields, request_id, token, host).contains_key(name),
    ensures
        ({
            let values = outgoing(fields, request_id, token, host)[name];
            ||| request_id matches Some(id) && name == REQUEST_ID_HEADER@ && values == seq![
                vstd::utf8::encode_utf8(id),
            ]
            ||| token matches Some(t) && name == APPROVAL_TOKEN_HEADER@ && values == seq![
                vstd::utf8::encode_utf8(t),
            ]
        }),
{
    reveal_strlit("host");
    reveal_strlit("x-a24-");
    reveal_strlit("x-a24-request-id");
    reveal_strlit("x-a24-approval-token");
    assert("host"@.len() == 4);
    assert(A24_HEADER_PREFIX@.len() == 6);
    assert(REQUEST_ID_HEADER@.len() == 16);
    assert(APPROVAL_TOKEN_HEADER@.len() == 20);
    assert(name != "host"@);
}

/// The kernel's credentials never reach a module, whatever else a client sends.
pub proof fn law_credentials_never_reach_a_module(
    fields: Map<Seq<char>, Seq<Seq<u8>>>,
    request_id: Option<Seq<char>>,
    token: Option<Seq<char>>,
    host: Option<Seq<char>>,
)
    ensures
        !outgoing(fields, request_id, token, host).contains_key("authorization"@),
        !outgoing(fields, request_id, token, host).contains_key("cookie"@),
{
    reveal_strlit("host");
    reveal_strlit("authorization");
    reveal_strlit("cookie");
    reveal_strlit("x-a24-request-id");
    reveal_strlit("x-a24-approval-token");
    assert("host"@.len() == 4);
    assert("authorization"@.len() == 13);
    assert("cookie"@.len() == 6);
    assert(REQUEST_ID_HEADER@.len() == 16);
    assert(APPROVAL_TOKEN_HEADER@.len() == 20);
}

/// Filtering what was filtered changes nothing.
pub proof fn law_filtering_is_idempotent(
    direction: Direction,
    fields: Map<Seq<char>, Seq<Seq<u8>>>,
)
    ensures
        filtered(direction, filtered(direction, fields)) == filtered(direction, fields),
{
    let once = filtered(direction, fields);
    assert(!once.contains_key("connection"@));
    assert(values_under(once, "connection"@) =~= Seq::<Seq<u8>>::empty());
    assert(filtered(direction, once) =~= once) by {
        assert forall|name: Seq<char>| once.contains_key(name) implies filtered(
            direction,
            once,
        ).contains_key(name) by {
            assert(!stripped(direction, name));
            assert(!nominated(
                values_under(once, "connection"@),
                vstd::utf8::encode_utf8(name),
            ));
        }
    }
}

// ---------------------------------------------------------------------------
// Where a module may send a client
// ---------------------------------------------------------------------------

/// Control characters, as Unicode has them.
pub open spec fn is_control(c: char) -> bool {
    (c as u32) < 0x20 || 0x7f <= (c as u32) <= 0x9f
}

/// White space, as Unicode has it.
pub open spec fn is_white(c: char) -> bool {
    let u = c as u32;
    ||| 0x09 <= u <= 0x0d
    ||| u == 0x20
    ||| u == 0x85
    ||| u == 0xa0
    ||| u == 0x1680
    ||| 0x2000 <= u <= 0x200a
    ||| u == 0x2028
    ||| u == 0x2029
    ||| u == 0x202f
    ||| u == 0x205f
    ||| u == 0x3000
}

/// Whether a character can stand in a location at all. A browser deletes some of the others, so
/// what is judged would not be what is followed.
pub open spec fn is_url_material(c: char) -> bool {
    !is_control(c) && !is_white(c) && c != '\\'
}

/// Whether a character ends the path.
pub open spec fn ends_path(c: char) -> bool {
    c == '?' || c == '#'
}

/// How long the path at the start of a reference is.
pub open spec fn path_len(s: Seq<char>) -> nat
    decreases s.len(),
{
    if s.len() == 0 || ends_path(s[0]) {
        0
    } else {
        1 + path_len(s.drop_first())
    }
}

pub open spec fn is_letter(c: char) -> bool {
    'a' <= c <= 'z' || 'A' <= c <= 'Z'
}

/// Characters that a scheme may have after its first letter.
pub open spec fn in_scheme(c: char) -> bool {
    is_letter(c) || '0' <= c <= '9' || c == '+' || c == '-' || c == '.'
}

/// Whether a reference begins with a scheme: a letter, more characters of a scheme, and a colon.
pub open spec fn with_scheme(s: Seq<char>) -> bool {
    let colon = text::index_of_first(s, ':') as int;
    &&& 0 < colon < s.len()
    &&& is_letter(s[0])
    &&& forall|i: int| 0 <= i < colon ==> in_scheme(#[trigger] s[i])
}

/// A path in which an escaped dot is a dot, as browsers read it.
pub open spec fn dots_decoded(s: Seq<char>) -> Seq<char>
    decreases s.len(),
{
    if s.len() == 0 {
        s
    } else if s.len() >= 3 && s[0] == '%' && s[1] == '2' && (s[2] == 'e' || s[2] == 'E') {
        seq!['.'] + dots_decoded(s.skip(3))
    } else {
        seq![s[0]] + dots_decoded(s.drop_first())
    }
}

/// How long the directory of a path is, its slash included.
pub open spec fn directory_len(s: Seq<char>) -> nat
    decreases s.len(),
{
    if s.len() == 0 {
        0
    } else if s.last() == '/' {
        s.len()
    } else {
        directory_len(s.drop_last())
    }
}

/// The directory that a relative reference is resolved in.
pub open spec fn directory(request_path: Seq<char>) -> Seq<char> {
    if directory_len(request_path) == 0 {
        "/"@
    } else {
        request_path.take(directory_len(request_path) as int)
    }
}

/// The segments that are left once `.` and `..` are followed; none where `..` leads above the
/// root.
pub open spec fn resolved(segments: Seq<Seq<char>>) -> Option<Seq<Seq<char>>>
    decreases segments.len(),
{
    if segments.len() == 0 {
        Some(Seq::empty())
    } else {
        match resolved(segments.drop_last()) {
            None => None,
            Some(out) => {
                let s = segments.last();
                if s.len() == 0 || s == seq!['.'] {
                    Some(out)
                } else if s == seq!['.', '.'] {
                    if out.len() == 0 {
                        None
                    } else {
                        Some(out.drop_last())
                    }
                } else {
                    Some(out.push(s))
                }
            },
        }
    }
}

/// A path without `.` and `..`.
pub open spec fn normalised(path: Seq<char>) -> Option<Seq<char>> {
    match resolved(text::pieces(path, '/')) {
        Some(segments) => Some("/"@ + text::joined(segments, "/"@)),
        None => None,
    }
}

/// The path that a reference without a scheme leads to.
pub open spec fn target(request_path: Seq<char>, path: Seq<char>) -> Option<Seq<char>> {
    let decoded = dots_decoded(path);
    if decoded.len() > 0 && decoded[0] == '/' {
        normalised(decoded)
    } else {
        normalised(directory(request_path) + decoded)
    }
}

/// Whether a path is the namespace or lies under it.
pub open spec fn inside(namespace: Seq<char>, path: Seq<char>) -> bool {
    path == namespace || text::starts_with(path, namespace + "/"@)
}

/// Whether a location leads into the namespace. Any scheme and any `//host` is refused, and so is
/// what a browser would read otherwise than it is written. A reference without a path keeps the
/// path of the request, which is inside.
pub open spec fn within(namespace: Seq<char>, request_path: Seq<char>, location: Seq<char>) -> bool {
    &&& forall|i: int| 0 <= i < location.len() ==> is_url_material(#[trigger] location[i])
    &&& !text::starts_with(location, "//"@)
    &&& !with_scheme(location)
    &&& {
        let path = location.take(path_len(location) as int);
        path.len() > 0 ==> (target(request_path, path) matches Some(p) && inside(namespace, p))
    }
}

fn char_is_material(c: char) -> (r: bool)
    ensures
        r == is_url_material(c),
{
    let u: u32 = c as u32;
    let control = u < 0x20 || (0x7f <= u && u <= 0x9f);
    let white = (0x09 <= u && u <= 0x0d) || u == 0x20 || u == 0x85 || u == 0xa0 || u == 0x1680 || (
    0x2000 <= u && u <= 0x200a) || u == 0x2028 || u == 0x2029 || u == 0x202f || u == 0x205f || u
        == 0x3000;
    !control && !white && c != '\\'
}

fn all_material(s: &Vec<char>) -> (r: bool)
    ensures
        r == (forall|i: int| 0 <= i < s@.len() ==> is_url_material(#[trigger] s@[i])),
{
    let mut i: usize = 0;
    while i < s.len()
        invariant
            i <= s@.len(),
            forall|j: int| 0 <= j < i ==> is_url_material(#[trigger] s@[j]),
        decreases s@.len() - i,
    {
        if !char_is_material(s[i]) {
            return false;
        }
        i = i + 1;
    }
    true
}

fn scheme_at(s: &Vec<char>) -> (r: bool)
    ensures
        r == with_scheme(s@),
{
    let mut i: usize = 0;
    proof {
        text::lemma_index_of_first(s@, ':');
    }
    let ghost colon = text::index_of_first(s@, ':') as int;
    while i < s.len() && s[i] != ':'
        invariant
            i <= s@.len(),
            colon == text::index_of_first(s@, ':'),
            colon <= s@.len(),
            colon < s@.len() ==> s@[colon] == ':',
            forall|j: int| 0 <= j < colon ==> s@[j] != ':',
            forall|j: int| 0 <= j < i ==> s@[j] != ':',
            forall|j: int| 0 <= j < i ==> in_scheme(#[trigger] s@[j]),
            i > 0 ==> is_letter(s@[0]),
        decreases s@.len() - i,
    {
        assert(i < colon) by {
            if colon < s@.len() && colon <= i {
                assert(s@[colon] == ':');
            }
        }
        let c: char = s[i];
        let letter = ('a' <= c && c <= 'z') || ('A' <= c && c <= 'Z');
        if !letter && !(i > 0 && (('0' <= c && c <= '9') || c == '+' || c == '-' || c == '.')) {
            return false;
        }
        i = i + 1;
    }
    assert(i == colon) by {
        text::lemma_index_of_first_is(s@, ':', i as int);
    }
    0 < i && i < s.len()
}

/// Whether a reference begins with a scheme.
pub fn has_scheme(reference: &str) -> (r: bool)
    ensures
        r == with_scheme(reference@),
{
    scheme_at(&text::chars_of(reference))
}

/// The path at the start of a reference.
fn take_path(s: &Vec<char>) -> (r: Vec<char>)
    ensures
        r@ == s@.take(path_len(s@) as int),
{
    let mut out: Vec<char> = Vec::new();
    let mut i: usize = 0;
    assert(s@.skip(0) =~= s@);
    while i < s.len() && s[i] != '?' && s[i] != '#'
        invariant
            i <= s@.len(),
            out@ == s@.take(i as int),
            path_len(s@) == i + path_len(s@.skip(i as int)),
        decreases s@.len() - i,
    {
        proof {
            let tail = s@.skip(i as int);
            assert(tail[0] == s@[i as int]);
            assert(tail.drop_first() =~= s@.skip(i + 1));
        }
        out.push(s[i]);
        i = i + 1;
        assert(out@ =~= s@.take(i as int));
    }
    proof {
        let tail = s@.skip(i as int);
        if i < s@.len() {
            assert(tail[0] == s@[i as int]);
        }
        assert(path_len(tail) == 0);
    }
    out
}

fn decode_dots(s: &Vec<char>) -> (r: Vec<char>)
    ensures
        r@ == dots_decoded(s@),
{
    let mut out: Vec<char> = Vec::new();
    let mut i: usize = 0;
    assert(s@.skip(0) =~= s@);
    assert(out@ + dots_decoded(s@) =~= dots_decoded(s@));
    while i < s.len()
        invariant
            i <= s@.len(),
            out@ + dots_decoded(s@.skip(i as int)) == dots_decoded(s@),
        decreases s@.len() - i,
    {
        let ghost tail = s@.skip(i as int);
        let ghost before = out@;
        assert(tail[0] == s@[i as int]);
        if s.len() - i >= 3 && s[i] == '%' && s[i + 1] == '2' && (s[i + 2] == 'e' || s[i + 2]
            == 'E') {
            assert(tail[1] == s@[i + 1]);
            assert(tail[2] == s@[i + 2]);
            assert(tail.skip(3) =~= s@.skip(i + 3));
            out.push('.');
            assert(out@ + dots_decoded(s@.skip(i + 3)) =~= before + (seq!['.'] + dots_decoded(
                s@.skip(i + 3),
            )));
            i = i + 3;
        } else {
            proof {
                if s@.len() - i >= 3 {
                    assert(tail[1] == s@[i + 1]);
                    assert(tail[2] == s@[i + 2]);
                }
            }
            assert(tail.drop_first() =~= s@.skip(i + 1));
            let c: char = s[i];
            out.push(c);
            assert(out@ + dots_decoded(s@.skip(i + 1)) =~= before + (seq![c] + dots_decoded(
                s@.skip(i + 1),
            )));
            i = i + 1;
        }
    }
    assert(s@.skip(i as int) =~= Seq::<char>::empty());
    assert(out@ + dots_decoded(s@.skip(i as int)) =~= out@);
    out
}

/// The directory of a path.
fn take_directory(s: &Vec<char>) -> (r: Vec<char>)
    ensures
        r@ == directory(s@),
{
    let mut end: usize = s.len();
    assert(s@.take(s@.len() as int) =~= s@);
    while end > 0 && s[end - 1] != '/'
        invariant
            end <= s@.len(),
            directory_len(s@) == directory_len(s@.take(end as int)),
        decreases end,
    {
        proof {
            let head = s@.take(end as int);
            assert(head.last() == s@[end - 1]);
            assert(head.drop_last() =~= s@.take(end - 1));
        }
        end = end - 1;
    }
    proof {
        let head = s@.take(end as int);
        if end > 0 {
            assert(head.last() == s@[end - 1]);
        }
        assert(directory_len(s@) == end);
    }
    let mut out: Vec<char> = Vec::new();
    if end == 0 {
        out.push('/');
        proof {
            reveal_strlit("/");
            assert(out@ =~= "/"@);
        }
        return out;
    }
    let mut i: usize = 0;
    while i < end
        invariant
            i <= end <= s@.len(),
            out@ == s@.take(i as int),
        decreases end - i,
    {
        out.push(s[i]);
        i = i + 1;
        assert(out@ =~= s@.take(i as int));
    }
    out
}

fn is_dot(s: &Vec<char>) -> (r: bool)
    ensures
        r == (s@ == seq!['.']),
{
    let r = s.len() == 1 && s[0] == '.';
    proof {
        if r {
            assert(s@ =~= seq!['.']);
        }
    }
    r
}

fn is_dot_dot(s: &Vec<char>) -> (r: bool)
    ensures
        r == (s@ == seq!['.', '.']),
{
    let r = s.len() == 2 && s[0] == '.' && s[1] == '.';
    proof {
        if r {
            assert(s@ =~= seq!['.', '.']);
        }
    }
    r
}

/// Follows `.` and `..`.
fn resolve(path: &Vec<char>) -> (r: Option<Vec<Vec<char>>>)
    ensures
        match r {
            Some(out) => resolved(text::pieces(path@, '/')) == Some(text::contents(out@)),
            None => resolved(text::pieces(path@, '/')) is None,
        },
{
    let segments = text::split_chars(path, '/');
    let ghost all = text::pieces(path@, '/');
    let mut out: Vec<Vec<char>> = Vec::new();
    assert(text::contents(out@) =~= Seq::<Seq<char>>::empty());
    assert(all.take(0) =~= Seq::<Seq<char>>::empty());
    let mut i: usize = 0;
    while i < segments.len()
        invariant
            i <= segments@.len(),
            text::contents(segments@) == all,
            all == text::pieces(path@, '/'),
            resolved(all.take(i as int)) == Some(text::contents(out@)),
        decreases segments@.len() - i,
    {
        let ghost next = all.take(i + 1);
        let ghost before = text::contents(out@);
        proof {
            assert(next.drop_last() =~= all.take(i as int));
            assert(next.last() == segments@[i as int]@);
        }
        if segments[i].len() == 0 || is_dot(&segments[i]) {
        } else if is_dot_dot(&segments[i]) {
            if out.len() == 0 {
                proof {
                    assert(resolved(next) is None);
                    lemma_resolved_none(all, i + 1);
                }
                return None;
            }
            let _ = out.pop();
            assert(text::contents(out@) =~= before.drop_last());
        } else {
            let piece = copy_chars(&segments[i]);
            out.push(piece);
            assert(text::contents(out@) =~= before.push(next.last()));
        }
        i = i + 1;
    }
    assert(all.take(all.len() as int) =~= all);
    Some(out)
}

fn copy_chars(s: &Vec<char>) -> (r: Vec<char>)
    ensures
        r@ == s@,
{
    let mut out: Vec<char> = Vec::new();
    let mut i: usize = 0;
    while i < s.len()
        invariant
            i <= s@.len(),
            out@ == s@.take(i as int),
        decreases s@.len() - i,
    {
        out.push(s[i]);
        i = i + 1;
        assert(out@ =~= s@.take(i as int));
    }
    assert(s@.take(i as int) =~= s@);
    out
}

/// A path that leads above the root on the way stays above it.
proof fn lemma_resolved_none(segments: Seq<Seq<char>>, k: int)
    requires
        0 <= k <= segments.len(),
        resolved(segments.take(k)) is None,
    ensures
        resolved(segments) is None,
    decreases segments.len(),
{
    if k == segments.len() {
        assert(segments.take(k) =~= segments);
    } else {
        assert(segments.drop_last().take(k) =~= segments.take(k));
        lemma_resolved_none(segments.drop_last(), k);
    }
}

fn join_segments(segments: &Vec<Vec<char>>) -> (r: Vec<char>)
    ensures
        r@ == "/"@ + text::joined(text::contents(segments@), "/"@),
{
    let ghost all = text::contents(segments@);
    let mut out: Vec<char> = Vec::new();
    out.push('/');
    proof {
        reveal_strlit("/");
        assert(out@ =~= "/"@);
        assert(all.take(0) =~= Seq::<Seq<char>>::empty());
        assert("/"@ + text::joined(all.take(0), "/"@) =~= "/"@);
    }
    let mut i: usize = 0;
    while i < segments.len()
        invariant
            i <= segments@.len(),
            all == text::contents(segments@),
            "/"@ =~= seq!['/'],
            out@ == "/"@ + text::joined(all.take(i as int), "/"@),
        decreases segments@.len() - i,
    {
        let ghost before = out@;
        if i > 0 {
            out.push('/');
        }
        let ghost start = out@;
        let mut j: usize = 0;
        while j < segments[i as usize].len()
            invariant
                i < segments@.len(),
                j <= segments@[i as int]@.len(),
                out@ == start + segments@[i as int]@.take(j as int),
            decreases segments@[i as int]@.len() - j,
        {
            out.push(segments[i][j]);
            j = j + 1;
            assert(out@ =~= start + segments@[i as int]@.take(j as int));
        }
        proof {
            let piece = segments@[i as int]@;
            assert(piece.take(piece.len() as int) =~= piece);
            let next = all.take(i + 1);
            assert(next.drop_last() =~= all.take(i as int));
            assert(next.last() == piece);
            if i == 0 {
                assert(next.len() == 1);
                assert(out@ =~= "/"@ + text::joined(next, "/"@));
            } else {
                assert(out@ =~= "/"@ + text::joined(next, "/"@));
            }
        }
        i = i + 1;
    }
    assert(all.take(all.len() as int) =~= all);
    out
}

/// Follows `.` and `..` in a path; nothing where `..` leads above the root.
pub fn normalise_dot_segments(path: &str) -> (r: Option<String>)
    ensures
        match r {
            Some(s) => normalised(path@) == Some(s@),
            None => normalised(path@) is None,
        },
{
    match resolve(&text::chars_of(path)) {
        Some(segments) => Some(text::string_of(&join_segments(&segments))),
        None => None,
    }
}

/// Whether a path is the namespace or lies under it.
fn is_inside(namespace: &Vec<char>, path: &Vec<char>) -> (r: bool)
    ensures
        r == inside(namespace@, path@),
{
    let ghost under = namespace@ + "/"@;
    proof {
        reveal_strlit("/");
        assert("/"@ =~= seq!['/']);
        assert(under.len() == namespace@.len() + 1);
    }
    if path.len() < namespace.len() {
        return false;
    }
    let mut i: usize = 0;
    while i < namespace.len()
        invariant
            i <= namespace@.len() <= path@.len(),
            under == namespace@ + "/"@,
            under.len() == namespace@.len() + 1,
            forall|j: int| 0 <= j < i ==> namespace@[j] == path@[j],
        decreases namespace@.len() - i,
    {
        if namespace[i] != path[i] {
            proof {
                if text::starts_with(path@, under) {
                    assert(path@.take(under.len() as int)[i as int] == under[i as int]);
                }
            }
            return false;
        }
        i = i + 1;
    }
    if path.len() == namespace.len() {
        assert(path@ =~= namespace@);
        return true;
    }
    let r = path[namespace.len()] == '/';
    proof {
        if r {
            assert(path@.take(under.len() as int) =~= under);
        } else if text::starts_with(path@, under) {
            assert(path@.take(under.len() as int)[namespace@.len() as int]
                == under[namespace@.len() as int]);
        }
    }
    r
}

/// Whether a location that a module returned leads into its own namespace.
///
/// The kernel does not follow it; a browser that it is handed to would. So it is judged as a
/// browser reads it.
pub fn location_within(namespace: &str, request_path: &str, location: &str) -> (r: bool)
    ensures
        r == within(namespace@, request_path@, location@),
{
    let s = text::chars_of(location);
    if !all_material(&s) {
        return false;
    }
    if text::has_prefix(location, "//") || scheme_at(&s) {
        return false;
    }
    let path = take_path(&s);
    if path.len() == 0 {
        return true;
    }
    let decoded = decode_dots(&path);
    let absolute = if decoded.len() > 0 && decoded[0] == '/' {
        decoded
    } else {
        let mut base = take_directory(&text::chars_of(request_path));
        let mut decoded = decoded;
        let ghost a = base@;
        let ghost b = decoded@;
        base.append(&mut decoded);
        assert(base@ =~= a + b);
        base
    };
    match resolve(&absolute) {
        None => false,
        Some(segments) => {
            let path = join_segments(&segments);
            is_inside(&text::chars_of(namespace), &path)
        },
    }
}

/// A name of its own: nothing that would be followed or dropped.
pub open spec fn is_plain(segment: Seq<char>) -> bool {
    &&& segment.len() > 0
    &&& segment != seq!['.']
    &&& segment != seq!['.', '.']
    &&& !segment.contains('/')
}

/// No segment that is left after resolving is empty, `.` or `..`, and none has a slash: nothing
/// is left for a browser to resolve otherwise.
pub proof fn law_resolved_paths_are_plain(path: Seq<char>, i: int)
    requires
        resolved(text::pieces(path, '/')) is Some,
        0 <= i < resolved(text::pieces(path, '/'))->Some_0.len(),
    ensures
        is_plain(resolved(text::pieces(path, '/'))->Some_0[i]),
{
    text::lemma_pieces_have_no_separator(path, '/');
    lemma_resolved_plain(text::pieces(path, '/'), i);
}

/// How far below the root some segments lead; less than nothing where they lead above it.
pub open spec fn depth(segments: Seq<Seq<char>>) -> int
    decreases segments.len(),
{
    if segments.len() == 0 {
        0
    } else {
        let s = segments.last();
        depth(segments.drop_last()) + if s.len() == 0 || s == seq!['.'] {
            0int
        } else if s == seq!['.', '.'] {
            -1
        } else {
            1
        }
    }
}

/// A path is refused if and only if, somewhere on the way, it leads above the root. What leads
/// above it and comes back is refused too.
pub proof fn law_only_what_leads_above_the_root_is_refused(path: Seq<char>)
    ensures
        normalised(path) is None <==> exists|k: int|
            0 <= k <= text::pieces(path, '/').len() && depth(
                #[trigger] text::pieces(path, '/').take(k),
            ) < 0,
{
    lemma_resolved_depth(text::pieces(path, '/'));
}

proof fn lemma_resolved_depth(segments: Seq<Seq<char>>)
    ensures
        resolved(segments) is None <==> exists|k: int|
            0 <= k <= segments.len() && depth(#[trigger] segments.take(k)) < 0,
        resolved(segments) matches Some(out) ==> out.len() == depth(segments),
    decreases segments.len(),
{
    assert(segments.take(segments.len() as int) =~= segments);
    if segments.len() == 0 {
        assert forall|k: int| 0 <= k <= segments.len() implies depth(
            #[trigger] segments.take(k),
        ) >= 0 by {
            assert(segments.take(k) =~= segments);
        }
    } else {
        let front = segments.drop_last();
        lemma_resolved_depth(front);
        assert forall|k: int| 0 <= k <= front.len() implies #[trigger] segments.take(k)
            == front.take(k) by {
            assert(segments.take(k) =~= front.take(k));
        }
        if resolved(front) is None {
            let k = choose|k: int|
                0 <= k <= front.len() && depth(#[trigger] front.take(k)) < 0;
            assert(depth(segments.take(k)) < 0);
        } else {
            assert forall|k: int| 0 <= k <= front.len() implies depth(
                #[trigger] segments.take(k),
            ) >= 0 by {
                assert(depth(front.take(k)) >= 0);
            }
            if resolved(segments) is None {
                assert(depth(segments.take(segments.len() as int)) < 0);
            }
        }
    }
}

/// A path that was normalised stays as it is.
pub proof fn law_normalising_is_idempotent(path: Seq<char>)
    ensures
        normalised(path) matches Some(p) ==> normalised(p) == Some(p),
{
    if let Some(segments) = resolved(text::pieces(path, '/')) {
        assert forall|i: int| 0 <= i < segments.len() implies is_plain(#[trigger] segments[i]) by {
            law_resolved_paths_are_plain(path, i);
        }
        reveal_strlit("/");
        assert("/"@ =~= seq!['/']);
        let j = text::joined(segments, "/"@);
        let empty = Seq::<char>::empty();
        text::lemma_mark_pieces('/');
        text::lemma_pieces_concat(seq!['/'], j, '/');
        let parts = text::pieces(j, '/');
        assert(empty + parts[0] =~= parts[0]);
        assert(text::pieces("/"@ + j, '/') =~= seq![empty] + parts);
        lemma_plain_stays(segments);
        if segments.len() == 0 {
            text::lemma_one_piece(empty, '/');
            let two = seq![empty, empty];
            assert(seq![empty] + parts =~= two);
            assert(two.drop_last() =~= seq![empty]);
            assert(seq![empty].drop_last() =~= Seq::<Seq<char>>::empty());
            assert(resolved(seq![empty].drop_last()) == Some(Seq::<Seq<char>>::empty()));
            assert(resolved(seq![empty]) == Some(Seq::<Seq<char>>::empty()));
            assert(resolved(two) == Some(Seq::<Seq<char>>::empty()));
            assert(segments =~= Seq::<Seq<char>>::empty());
        } else {
            text::lemma_joined_pieces(segments, '/');
        }
    }
}

proof fn lemma_plain_stays(segments: Seq<Seq<char>>)
    requires
        forall|i: int| 0 <= i < segments.len() ==> is_plain(#[trigger] segments[i]),
    ensures
        resolved(seq![Seq::<char>::empty()] + segments) == Some(segments),
    decreases segments.len(),
{
    let empty = Seq::<char>::empty();
    let all = seq![empty] + segments;
    if segments.len() == 0 {
        assert(all =~= seq![empty]);
        assert(all.drop_last() =~= Seq::<Seq<char>>::empty());
        assert(resolved(all.drop_last()) == Some(Seq::<Seq<char>>::empty()));
        assert(segments =~= Seq::<Seq<char>>::empty());
    } else {
        let front = segments.drop_last();
        assert forall|i: int| 0 <= i < front.len() implies is_plain(#[trigger] front[i]) by {
            assert(front[i] == segments[i]);
        }
        lemma_plain_stays(front);
        assert(all.drop_last() =~= seq![empty] + front);
        assert(is_plain(segments[segments.len() - 1]));
        assert(front.push(segments.last()) =~= segments);
    }
}

proof fn lemma_resolved_plain(segments: Seq<Seq<char>>, i: int)
    requires
        resolved(segments) is Some,
        0 <= i < resolved(segments)->Some_0.len(),
        forall|k: int| 0 <= k < segments.len() ==> !(#[trigger] segments[k]).contains('/'),
    ensures
        is_plain(resolved(segments)->Some_0[i]),
    decreases segments.len(),
{
    if segments.len() > 0 {
        let before = resolved(segments.drop_last())->Some_0;
        assert forall|k: int| 0 <= k < segments.drop_last().len() implies !(
        #[trigger] segments.drop_last()[k]).contains('/') by {
            assert(segments.drop_last()[k] == segments[k]);
        }
        if i < before.len() {
            lemma_resolved_plain(segments.drop_last(), i);
        } else {
            assert(segments.last() == segments[segments.len() - 1]);
        }
    }
}

/// A location that passes has no scheme and names no host, and where it has a path, the path it
/// leads to is the namespace or lies under it.
pub proof fn law_a_location_stays_inside(
    namespace: Seq<char>,
    request_path: Seq<char>,
    location: Seq<char>,
)
    requires
        within(namespace, request_path, location),
    ensures
        !with_scheme(location),
        !text::starts_with(location, "//"@),
        !location.contains('\\') && !location.contains('\t') && !location.contains('\n'),
        path_len(location) > 0 ==> (target(
            request_path,
            location.take(path_len(location) as int),
        ) matches Some(p) && inside(namespace, p)),
{
    assert(!is_url_material('\\'));
    assert(!is_url_material('\t'));
    assert(!is_url_material('\n'));
    lemma_path_len(location);
}

/// Whether this is nothing, or a query or a fragment, of characters that a location can have.
pub open spec fn is_tail(s: Seq<char>) -> bool {
    &&& s.len() > 0 ==> ends_path(s[0])
    &&& forall|i: int| 0 <= i < s.len() ==> is_url_material(#[trigger] s[i])
}

/// The query and the fragment never decide whether a location passes: only the path does.
pub proof fn law_the_path_alone_decides(
    namespace: Seq<char>,
    request_path: Seq<char>,
    path: Seq<char>,
    a: Seq<char>,
    b: Seq<char>,
)
    requires
        forall|i: int| 0 <= i < path.len() ==> !ends_path(#[trigger] path[i]),
        is_tail(a),
        is_tail(b),
    ensures
        within(namespace, request_path, path + a) == within(namespace, request_path, path + b),
{
    lemma_path_and_tail(namespace, request_path, path, a);
    lemma_path_and_tail(namespace, request_path, path, b);
}

proof fn lemma_path_and_tail(
    namespace: Seq<char>,
    request_path: Seq<char>,
    path: Seq<char>,
    tail: Seq<char>,
)
    requires
        forall|i: int| 0 <= i < path.len() ==> !ends_path(#[trigger] path[i]),
        is_tail(tail),
    ensures
        within(namespace, request_path, path + tail) == within(namespace, request_path, path),
{
    let all = path + tail;
    let empty = Seq::<char>::empty();
    lemma_path_len_of(path, tail);
    lemma_path_len_of(path, empty);
    assert(path + empty =~= path);
    assert(all.take(path.len() as int) =~= path);
    assert(path.take(path.len() as int) =~= path);
    // The characters.
    assert((forall|i: int| 0 <= i < all.len() ==> is_url_material(#[trigger] all[i])) == (forall|
        i: int,
    |
        0 <= i < path.len() ==> is_url_material(#[trigger] path[i]))) by {
        if forall|i: int| 0 <= i < all.len() ==> is_url_material(#[trigger] all[i]) {
            assert forall|i: int| 0 <= i < path.len() implies is_url_material(
                #[trigger] path[i],
            ) by {
                assert(all[i] == path[i]);
            }
        }
        if forall|i: int| 0 <= i < path.len() ==> is_url_material(#[trigger] path[i]) {
            assert forall|i: int| 0 <= i < all.len() implies is_url_material(
                #[trigger] all[i],
            ) by {
                if i < path.len() {
                    assert(all[i] == path[i]);
                } else {
                    assert(all[i] == tail[i - path.len()]);
                }
            }
        }
    }
    // The host.
    assert(text::starts_with(all, "//"@) == text::starts_with(path, "//"@)) by {
        reveal_strlit("//");
        if path.len() >= 2 {
            assert(all.take(2) =~= path.take(2));
        } else if text::starts_with(all, "//"@) {
            let n = path.len() as int;
            assert(all.take(2)[n] == "//"@[n]);
            assert(all[n] == tail[0]);
        }
    }
    // The scheme.
    assert(with_scheme(all) == with_scheme(path)) by {
        text::lemma_index_of_first(all, ':');
        text::lemma_index_of_first(path, ':');
        let m = text::index_of_first(path, ':') as int;
        let n = text::index_of_first(all, ':') as int;
        if m < path.len() {
            assert(all[m] == path[m]);
            assert forall|i: int| 0 <= i < m implies all[i] != ':' by {
                assert(all[i] == path[i]);
            }
            text::lemma_index_of_first_is(all, ':', m);
            assert(all[0] == path[0]);
            assert forall|i: int| 0 <= i < m implies all[i] == path[i] by {}
            if with_scheme(all) {
                assert forall|i: int| 0 <= i < m implies in_scheme(#[trigger] path[i]) by {
                    assert(in_scheme(all[i]));
                }
            }
        } else {
            assert(!with_scheme(path));
            if with_scheme(all) {
                if n < path.len() {
                    assert(path[n] == all[n]);
                } else {
                    let k = path.len() as int;
                    assert(all[k] == tail[0]);
                    assert(!in_scheme(all[k]));
                    assert(all[n] == ':');
                    assert(n != k);
                }
            }
        }
    }
}

proof fn lemma_path_len_of(path: Seq<char>, tail: Seq<char>)
    requires
        forall|i: int| 0 <= i < path.len() ==> !ends_path(#[trigger] path[i]),
        tail.len() > 0 ==> ends_path(tail[0]),
    ensures
        path_len(path + tail) == path.len(),
    decreases path.len(),
{
    let all = path + tail;
    if path.len() == 0 {
        assert(all =~= tail);
    } else {
        let rest = path.drop_first();
        assert(all[0] == path[0]);
        assert(all.drop_first() =~= rest + tail);
        assert forall|i: int| 0 <= i < rest.len() implies !ends_path(#[trigger] rest[i]) by {
            assert(rest[i] == path[i + 1]);
        }
        lemma_path_len_of(rest, tail);
    }
}

proof fn lemma_path_len(s: Seq<char>)
    ensures
        path_len(s) <= s.len(),
    decreases s.len(),
{
    if s.len() > 0 && !ends_path(s[0]) {
        lemma_path_len(s.drop_first());
    }
}

// ---------------------------------------------------------------------------
// Answers of the proxy's own
// ---------------------------------------------------------------------------

pub const BAD_GATEWAY: u16 = 502;

pub const SERVICE_UNAVAILABLE: u16 = 503;

pub const GATEWAY_TIMEOUT: u16 = 504;

pub const SWITCHING_PROTOCOLS: u16 = 101;

/// An answer in the place of the module's, as mathematics.
pub struct RefusalView {
    pub status: u16,
    pub code: Seq<char>,
    pub message: Seq<char>,
}

/// An answer in the place of the module's. The status says whose fault it is, the code says which.
#[derive(Debug)]
pub struct Refusal {
    pub status: u16,
    pub code: &'static str,
    pub message: String,
}

impl View for Refusal {
    type V = RefusalView;

    open spec fn view(&self) -> RefusalView {
        RefusalView { status: self.status, code: self.code@, message: self.message@ }
    }
}

fn refusal(status: u16, code: &'static str, message: &str) -> (r: Refusal)
    ensures
        r@ == (RefusalView { status, code: code@, message: message@ }),
{
    Refusal { status, code, message: message.to_owned() }
}

/// Why a request was not admitted, in words.
pub open spec fn refused_message(refused: RequestRefused) -> Seq<char> {
    match refused {
        RequestRefused::NotReady => {
            "the module is starting and has not completed its handshake"@
        },
        RequestRefused::Draining => {
            "the module is being stopped: it is finishing the requests it already has and takes no new ones"@
        },
        RequestRefused::Stopping => "the module has been stopped"@,
        RequestRefused::DuplicateId => {
            "the kernel minted a request id that is already in flight"@
        },
    }
}

/// The answer to a request that was not admitted.
pub open spec fn refused_answer(refused: RequestRefused) -> RefusalView {
    RefusalView {
        status: SERVICE_UNAVAILABLE,
        code: refused.wire(),
        message: refused_message(refused),
    }
}

/// The answer to a request that was not admitted.
pub fn refused_response(refused: RequestRefused) -> (r: Refusal)
    ensures
        r@ == refused_answer(refused),
{
    let message = match refused {
        RequestRefused::NotReady => "the module is starting and has not completed its handshake",
        RequestRefused::Draining => {
            "the module is being stopped: it is finishing the requests it already has and takes no new ones"
        },
        RequestRefused::Stopping => "the module has been stopped",
        RequestRefused::DuplicateId => "the kernel minted a request id that is already in flight",
    };
    refusal(SERVICE_UNAVAILABLE, refused.code(), message)
}

/// The answer to a request that was sent to a module that was then stopped.
pub open spec fn abandoned_answer() -> RefusalView {
    RefusalView {
        status: SERVICE_UNAVAILABLE,
        code: Abandoned::CODE@,
        message:
            "the module was stopped while this request was in flight; whether it acted on the request is unknown"@,
    }
}

/// What a request comes to once it is done, or its generation was revoked: nothing in the place of
/// the module's answer, where there is one and the request was not abandoned. An answer that came
/// after the revocation is not passed on, whatever it says; one that was never sent is not called
/// unknown.
pub open spec fn ending(outcome: Result<(), Abandoned>, answered: bool) -> Option<RefusalView> {
    match outcome {
        Ok(_) => if answered {
            None
        } else {
            Some(refused_answer(RequestRefused::Stopping))
        },
        Err(abandoned) => if abandoned.dispatched {
            Some(abandoned_answer())
        } else {
            Some(refused_answer(RequestRefused::Stopping))
        },
    }
}

/// What a request comes to once it is done, or its generation was revoked: nothing, if the
/// module's answer is passed on.
pub fn proxy_ending(outcome: Result<(), Abandoned>, answered: bool) -> (r: Option<Refusal>)
    ensures
        match (r, ending(outcome, answered)) {
            (Some(a), Some(b)) => a@ == b,
            (None, None) => true,
            _ => false,
        },
{
    match outcome {
        Ok(_) => if answered {
            None
        } else {
            Some(refused_response(RequestRefused::Stopping))
        },
        Err(abandoned) => if abandoned.dispatched {
            Some(
                refusal(
                    SERVICE_UNAVAILABLE,
                    Abandoned::CODE,
                    "the module was stopped while this request was in flight; whether it acted on the request is unknown",
                ),
            )
        } else {
            Some(refused_response(RequestRefused::Stopping))
        },
    }
}

/// A module's answer is passed on only where its generation was not revoked before the request was
/// done.
pub proof fn law_a_revoked_answer_is_never_passed_on(
    generation: drain::GenerationView,
    request: drain::RequestView,
    answered: bool,
)
    requires
        generation.state == drain::DrainState::Revoked,
    ensures
        ending(generation.outcome(request), answered) is Some,
{
}

// ---------------------------------------------------------------------------
// Judging the head of a response
// ---------------------------------------------------------------------------

/// Bytes up to the first semicolon, without the space round them.
pub open spec fn media_type(value: Seq<u8>) -> Seq<u8> {
    trimmed(value.take(text::index_of_first(value, 0x3b) as int))
}

/// The media type of an event stream, in lower case.
pub open spec fn event_stream() -> Seq<u8> {
    vstd::utf8::encode_utf8("text/event-stream"@)
}

/// Whether one of the content types is that of an event stream. The media type is compared, not
/// a prefix of the header, and in any case of its letters.
pub open spec fn streams(values: Seq<Seq<u8>>) -> bool {
    exists|i: int|
        0 <= i < values.len() && lowered(media_type(#[trigger] values[i])) == event_stream()
}

/// Whether every byte is visible ASCII, or a tab.
pub open spec fn is_visible(b: Seq<u8>) -> bool {
    forall|i: int| 0 <= i < b.len() ==> (0x20 <= #[trigger] b[i] <= 0x7e || b[i] == 0x09)
}

/// The text of ASCII bytes.
pub open spec fn ascii_text(b: Seq<u8>) -> Seq<char> {
    Seq::new(b.len(), |i: int| b[i] as char)
}

/// Whether a location's bytes are a text that leads into the namespace.
pub open spec fn location_passes(
    namespace: Seq<char>,
    request_path: Seq<char>,
    value: Seq<u8>,
) -> bool {
    is_visible(value) && within(namespace, request_path, ascii_text(value))
}

pub open spec fn bad_gateway(code: Seq<char>, message: Seq<char>) -> RefusalView {
    RefusalView { status: BAD_GATEWAY, code, message }
}

/// What can be told from the head of a module's response: nothing, or the answer in its place.
pub open spec fn head_judged(
    namespace: Seq<char>,
    request_path: Seq<char>,
    status: u16,
    fields: Map<Seq<char>, Seq<Seq<u8>>>,
) -> Option<RefusalView> {
    let locations = values_under(fields, "location"@);
    if status == SWITCHING_PROTOCOLS {
        Some(
            bad_gateway(
                "upstream_streaming_unsupported"@,
                "protocol upgrades (WebSocket) are not proxied this round"@,
            ),
        )
    } else if streams(values_under(fields, "content-type"@)) {
        Some(
            bad_gateway(
                "upstream_streaming_unsupported"@,
                "server-sent events are not proxied this round"@,
            ),
        )
    } else if locations.len() > 1 {
        Some(
            bad_gateway(
                "upstream_location_rejected"@,
                "the module returned more than one Location header"@,
            ),
        )
    } else if locations.len() == 1 && !location_passes(namespace, request_path, locations[0]) {
        Some(
            bad_gateway(
                "upstream_location_rejected"@,
                "the module redirected outside "@ + namespace,
            ),
        )
    } else {
        None
    }
}

/// Whether a content type is that of an event stream.
fn is_event_stream(value: &[u8]) -> (r: bool)
    ensures
        r == (lowered(media_type(value@)) == event_stream()),
{
    let mut n: usize = 0;
    assert(value@.skip(0) =~= value@);
    while n < value.len() && value[n] != 0x3b
        invariant
            n <= value@.len(),
            forall|j: int| 0 <= j < n ==> value@[j] != 0x3b,
        decreases value@.len() - n,
    {
        n = n + 1;
    }
    proof {
        text::lemma_index_of_first_is(value@, 0x3b, n as int);
    }
    let head = vstd::slice::slice_subrange(value, 0, n);
    assert(head@ =~= value@.take(n as int));
    let media = to_lower(trim_ascii_whitespace(head));
    text::same_bytes(media.as_slice(), "text/event-stream".as_bytes())
}

fn any_stream(values: &Vec<Vec<u8>>) -> (r: bool)
    ensures
        r == streams(text::contents(values@)),
{
    let ghost all = text::contents(values@);
    let mut i: usize = 0;
    while i < values.len()
        invariant
            i <= values@.len(),
            all == text::contents(values@),
            forall|j: int|
                0 <= j < i ==> lowered(media_type(#[trigger] all[j])) != event_stream(),
        decreases values@.len() - i,
    {
        assert(all[i as int] == values@[i as int]@);
        if is_event_stream(values[i].as_slice()) {
            return true;
        }
        i = i + 1;
    }
    false
}

/// The text of a header's value, if it is visible ASCII.
fn visible_text(value: &[u8]) -> (r: Option<String>)
    ensures
        match r {
            Some(s) => is_visible(value@) && s@ == ascii_text(value@),
            None => !is_visible(value@),
        },
{
    let mut out: Vec<char> = Vec::new();
    let mut i: usize = 0;
    while i < value.len()
        invariant
            i <= value@.len(),
            out@.len() == i,
            forall|j: int| 0 <= j < i ==> (0x20 <= #[trigger] value@[j] <= 0x7e || value@[j] == 0x09),
            forall|j: int| 0 <= j < i ==> out@[j] == value@[j] as char,
        decreases value@.len() - i,
    {
        let b: u8 = value[i];
        if !((0x20 <= b && b <= 0x7e) || b == 0x09) {
            return None;
        }
        out.push(b as char);
        i = i + 1;
    }
    assert(out@ =~= ascii_text(value@));
    Some(text::string_of(&out))
}

/// Judges the head of a module's response, before anything of its body is read: a stream that
/// never ends would otherwise be answered as one that took too long. Every value counts, not the
/// first of them.
pub fn head_refusal(
    namespace: &str,
    request_path: &str,
    status: u16,
    headers: &axum::http::HeaderMap,
) -> (r: Option<Refusal>)
    ensures
        match (r, head_judged(namespace@, request_path@, status, header_fields(*headers))) {
            (Some(a), Some(b)) => a@ == b,
            (None, None) => true,
            _ => false,
        },
{
    proof {
        lemma_connection_is_lower();
    }
    if status == SWITCHING_PROTOCOLS {
        return Some(
            refusal(
                BAD_GATEWAY,
                "upstream_streaming_unsupported",
                "protocol upgrades (WebSocket) are not proxied this round",
            ),
        );
    }
    if any_stream(&field_values(headers, "content-type")) {
        return Some(
            refusal(
                BAD_GATEWAY,
                "upstream_streaming_unsupported",
                "server-sent events are not proxied this round",
            ),
        );
    }
    let locations = field_values(headers, "location");
    let ghost all = text::contents(locations@);
    if locations.len() > 1 {
        return Some(
            refusal(
                BAD_GATEWAY,
                "upstream_location_rejected",
                "the module returned more than one Location header",
            ),
        );
    }
    if locations.len() == 1 {
        assert(all[0] == locations@[0]@);
        let ok = match visible_text(locations[0].as_slice()) {
            Some(l) => location_within(namespace, request_path, l.as_str()),
            None => false,
        };
        if !ok {
            let mut message = "the module redirected outside ".to_owned();
            message.append(namespace);
            return Some(refusal(BAD_GATEWAY, "upstream_location_rejected", message.as_str()));
        }
    }
    None
}

/// A response that passes has at most one location, and that one leads into the namespace.
pub proof fn law_locations_that_pass_stay_inside(
    namespace: Seq<char>,
    request_path: Seq<char>,
    status: u16,
    fields: Map<Seq<char>, Seq<Seq<u8>>>,
    i: int,
)
    requires
        head_judged(namespace, request_path, status, fields) is None,
        0 <= i < values_under(filtered(Direction::ToClient, fields), "location"@).len(),
    ensures
        values_under(filtered(Direction::ToClient, fields), "location"@).len() == 1,
        location_passes(
            namespace,
            request_path,
            values_under(filtered(Direction::ToClient, fields), "location"@)[i],
        ),
{
}

// ---------------------------------------------------------------------------
// Forwarding one request
// ---------------------------------------------------------------------------

/// How long a proxied request may take, in nanoseconds.
#[derive(Debug, Clone, Copy, PartialEq, Eq, Structural)]
pub struct Limits {
    /// From the client's body to the module's last byte.
    pub total: u64,
    /// Until the module begins to answer.
    pub head: u64,
}

impl Default for Limits {
    fn default() -> (r: Limits)
        ensures
            r == (Limits { total: UPSTREAM_DEADLINE, head: UPSTREAM_HEAD_DEADLINE }),
    {
        Limits { total: UPSTREAM_DEADLINE, head: UPSTREAM_HEAD_DEADLINE }
    }
}

/// Which deadline ran out. Each is told in words of its own: one message for all of them would
/// name the wrong limit, and for a client that stalls, blame the wrong side.
#[derive(Debug)]
pub enum TimedOut {
    /// The client did not finish its request.
    ClientBody,
    /// The module did not begin to answer, within the time that applied, in nanoseconds.
    UpstreamHead(u64),
    /// The module began to answer and did not finish.
    UpstreamBody,
}

/// Whole seconds in some nanoseconds.
pub open spec fn seconds(nanos: u64) -> nat {
    (nanos / 1_000_000_000) as nat
}

pub open spec fn timed_out_message(limits: Limits, which: TimedOut) -> Seq<char> {
    match which {
        TimedOut::ClientBody => "the request body was not received within "@ + text::decimal(
            seconds(limits.total),
        ) + "s"@,
        TimedOut::UpstreamHead(budget) => "the module did not begin answering within "@
            + tenths::seconds_text(budget) + "s"@,
        TimedOut::UpstreamBody => "the module did not finish answering within "@ + text::decimal(
            seconds(limits.total),
        ) + "s"@,
    }
}

/// The answer where a deadline ran out.
pub fn timed_out(limits: Limits, which: TimedOut) -> (r: Refusal)
    ensures
        r@ == (RefusalView {
            status: GATEWAY_TIMEOUT,
            code: "upstream_timeout"@,
            message: timed_out_message(limits, which),
        }),
{
    let total = text::decimal_string(limits.total / 1_000_000_000);
    let message = match &which {
        TimedOut::ClientBody => text::concat3(
            "the request body was not received within ",
            total.as_str(),
            "s",
        ),
        TimedOut::UpstreamHead(budget) => text::concat3(
            "the module did not begin answering within ",
            tenths::seconds_string(*budget).as_str(),
            "s",
        ),
        TimedOut::UpstreamBody => text::concat3(
            "the module did not finish answering within ",
            total.as_str(),
            "s",
        ),
    };
    refusal(GATEWAY_TIMEOUT, "upstream_timeout", message.as_str())
}

/// A time some nanoseconds on. Time has no end here.
pub open spec fn later(now: u64, by: u64) -> u64 {
    if now + by <= u64::MAX {
        (now + by) as u64
    } else {
        u64::MAX
    }
}

fn time_later(now: u64, by: u64) -> (r: u64)
    ensures
        r == later(now, by),
{
    match now.checked_add(by) {
        Some(t) => t,
        None => u64::MAX,
    }
}

/// One request on its way through the proxy.
#[derive(Debug)]
pub struct Forward {
    limits: Limits,
    deadline: u64,
    /// Whether the request had no body. A connection that carried one is never used again: the
    /// module need not have read it, and what it left would be taken for the next request.
    bodiless: bool,
    /// How long the module may take to begin to answer, once the request is about to be sent.
    head_budget: u64,
}

/// How the client's body was read.
#[derive(Debug)]
pub enum BodyRead {
    TimedOut,
    /// The whole body, of that many bytes.
    Whole { bytes: usize },
}

/// When a request may be sent, and until when the module may take to begin to answer.
#[derive(Debug, Clone, Copy, PartialEq, Eq, Structural)]
pub struct SendPlan {
    pub head_deadline: u64,
    /// How long that is.
    pub head_budget: u64,
}

/// How the head of the response was read.
#[derive(Debug)]
pub enum HeadRead {
    /// The module's time ran out.
    TimedOut,
    /// The module could not be reached, and why.
    Failed(String),
    Head { status: u16, headers: axum::http::HeaderMap },
}

/// The head of a response that may be passed on.
#[derive(Debug)]
pub struct PassedHead {
    status: u16,
    headers: axum::http::HeaderMap,
}

impl PassedHead {
    pub closed spec fn status(&self) -> u16 {
        self.status
    }

    /// The headers that the module sent.
    pub closed spec fn fields(&self) -> Map<Seq<char>, Seq<Seq<u8>>> {
        header_fields(self.headers)
    }
}

/// The whole answer that a client gets from a module.
#[derive(Debug)]
pub struct PassedAnswer {
    pub status: u16,
    pub headers: axum::http::HeaderMap,
    pub body: Vec<u8>,
    /// Whether the connection may carry another request.
    pub reusable: bool,
}

/// How the body of the response was read.
#[derive(Debug)]
pub enum Collected {
    TimedOut,
    TooLarge,
    /// It ended early, and why.
    Failed(String),
    /// All of it.
    Whole { body: Vec<u8> },
}

/// The answer where the module has too many requests. It names the limit that applies.
pub open spec fn overloaded_answer(capacity: usize) -> RefusalView {
    RefusalView {
        status: SERVICE_UNAVAILABLE,
        code: "module_overloaded"@,
        message: "the module already has "@ + text::decimal(capacity as nat)
            + " requests in flight"@,
    }
}

/// Why a request could not be made anew for the module.
#[derive(Debug)]
pub enum NotRebuilt {
    Path(String),
    Request(String),
}

/// The answer where a request could not be made anew. Another request is never sent in its place.
pub fn not_rebuilt(why: NotRebuilt) -> (r: Refusal)
    ensures
        r@ == bad_gateway(
            "upstream_unavailable"@,
            match why {
                NotRebuilt::Path(e) => "the proxied path could not be reconstructed: "@ + e@,
                NotRebuilt::Request(e) => "the proxied request could not be rebuilt: "@ + e@,
            },
        ),
{
    let (before, e) = match why {
        NotRebuilt::Path(e) => ("the proxied path could not be reconstructed: ", e),
        NotRebuilt::Request(e) => ("the proxied request could not be rebuilt: ", e),
    };
    let mut message = before.to_owned();
    message.append(e.as_str());
    refusal(BAD_GATEWAY, "upstream_unavailable", message.as_str())
}

/// What is answered in the place of a head that was not read, or not let pass.
pub open spec fn head_answer(
    limits: Limits,
    budget: u64,
    read: HeadRead,
    namespace: Seq<char>,
    request_path: Seq<char>,
) -> Option<RefusalView> {
    match read {
        HeadRead::TimedOut => Some(
            RefusalView {
                status: GATEWAY_TIMEOUT,
                code: "upstream_timeout"@,
                message: timed_out_message(limits, TimedOut::UpstreamHead(budget)),
            },
        ),
        HeadRead::Failed(e) => Some(
            bad_gateway("upstream_unavailable"@, "the module could not be reached: "@ + e@),
        ),
        HeadRead::Head { status, headers } => head_judged(
            namespace,
            request_path,
            status,
            header_fields(headers),
        ),
    }
}

/// The answer where a module's body is longer than may be.
pub open spec fn too_large_answer() -> RefusalView {
    bad_gateway(
        "upstream_response_too_large"@,
        "the module's response exceeded "@ + text::decimal(MAX_BODY_BYTES as nat) + " bytes"@,
    )
}

fn too_large() -> (r: Refusal)
    ensures
        r@ == too_large_answer(),
{
    let message = text::concat3(
        "the module's response exceeded ",
        text::decimal_string(MAX_BODY_BYTES as u64).as_str(),
        " bytes",
    );
    refusal(BAD_GATEWAY, "upstream_response_too_large", message.as_str())
}

/// What is answered in the place of a body that was not read whole. The head said that all was
/// well; passing it on with half a body would report a success that never was.
pub open spec fn body_answer(limits: Limits, read: Collected) -> Option<RefusalView> {
    match read {
        Collected::TimedOut => Some(
            RefusalView {
                status: GATEWAY_TIMEOUT,
                code: "upstream_timeout"@,
                message: timed_out_message(limits, TimedOut::UpstreamBody),
            },
        ),
        Collected::TooLarge => Some(too_large_answer()),
        Collected::Failed(e) => Some(
            bad_gateway("upstream_unavailable"@, "the module's response ended early: "@ + e@),
        ),
        Collected::Whole { body } => if body@.len() > MAX_BODY_BYTES {
            Some(too_large_answer())
        } else {
            None
        },
    }
}

impl Forward {
    pub closed spec fn limits(&self) -> Limits {
        self.limits
    }

    pub closed spec fn deadline(&self) -> u64 {
        self.deadline
    }

    pub closed spec fn bodiless(&self) -> bool {
        self.bodiless
    }

    /// How long the module may take to begin to answer, in nanoseconds.
    pub closed spec fn head_budget(&self) -> u64 {
        self.head_budget
    }

    /// Begins at `now`: the time that the client takes to send its body counts too. A request over
    /// the module's limit is refused, not queued.
    pub fn begin(now: u64, limits: Limits, permitted: bool, capacity: usize) -> (r: Result<
        Forward,
        Refusal,
    >)
        ensures
            match r {
                Ok(f) => permitted && f.limits() == limits && f.deadline() == later(
                    now,
                    limits.total,
                ) && f.bodiless() && f.head_budget() == 0,
                Err(refused) => !permitted && refused@ == overloaded_answer(capacity),
            },
    {
        if !permitted {
            let message = text::concat3(
                "the module already has ",
                text::decimal_string(capacity as u64).as_str(),
                " requests in flight",
            );
            return Err(refusal(SERVICE_UNAVAILABLE, "module_overloaded", message.as_str()));
        }
        Ok(
            Forward {
                limits,
                deadline: time_later(now, limits.total),
                bodiless: true,
                head_budget: 0,
            },
        )
    }

    /// Until when the whole exchange may take.
    pub fn until(&self) -> (r: u64)
        ensures
            r == self.deadline(),
    {
        self.deadline
    }

    /// The client's body was read.
    pub fn on_body(&mut self, read: BodyRead) -> (r: Option<Refusal>)
        ensures
            final(self).limits() == old(self).limits(),
            final(self).deadline() == old(self).deadline(),
            final(self).head_budget() == old(self).head_budget(),
            match read {
                BodyRead::TimedOut => {
                    &&& final(self).bodiless() == old(self).bodiless()
                    &&& r matches Some(refused)
                    &&& refused@ == (RefusalView {
                        status: GATEWAY_TIMEOUT,
                        code: "upstream_timeout"@,
                        message: timed_out_message(old(self).limits(), TimedOut::ClientBody),
                    })
                },
                BodyRead::Whole { bytes } => r is None && final(self).bodiless() == (bytes == 0),
            },
    {
        match read {
            BodyRead::TimedOut => Some(timed_out(self.limits, TimedOut::ClientBody)),
            BodyRead::Whole { bytes } => {
                self.bodiless = bytes == 0;
                None
            },
        }
    }

    /// The request is about to be sent. It is marked as sent in the same step that finds its
    /// generation not revoked; where it is revoked, the request must not be sent. The module may
    /// take the shorter of its own time and what is left of the whole.
    pub fn before_send(&mut self, request: &InFlight, generation: &mut Generation, now: u64) -> (r:
        Result<SendPlan, Refusal>)
        requires
            old(generation).wf(),
        ensures
            final(generation).wf(),
            final(self).limits() == old(self).limits(),
            final(self).deadline() == old(self).deadline(),
            final(self).bodiless() == old(self).bodiless(),
            match r {
                Ok(plan) => {
                    &&& request@.address is Some
                    &&& old(generation)@.can_dispatch(request@)
                    &&& final(generation)@ == old(generation)@.after_dispatch(request@)
                    &&& plan == send_plan(now, old(self).deadline(), old(self).limits().head)
                    &&& final(self).head_budget() == plan.head_budget
                },
                Err(refused) => {
                    &&& final(generation)@ == old(generation)@
                    &&& final(self).head_budget() == old(self).head_budget()
                    &&& if request@.address is None {
                        refused@ == no_address_answer()
                    } else {
                        !old(generation)@.can_dispatch(request@) && refused@ == refused_answer(
                            RequestRefused::Stopping,
                        )
                    }
                },
            },
    {
        if request.upstream().is_none() {
            return Err(
                refusal(
                    BAD_GATEWAY,
                    "upstream_unavailable",
                    "the module's run has no address to send the request to",
                ),
            );
        }
        let own: u64 = time_later(now, self.limits.head);
        let head_deadline: u64 = if self.deadline < own {
            self.deadline
        } else {
            own
        };
        let head_budget: u64 = if head_deadline > now {
            head_deadline - now
        } else {
            0
        };
        if !request.dispatch(generation) {
            return Err(refused_response(RequestRefused::Stopping));
        }
        self.head_budget = head_budget;
        Ok(SendPlan { head_deadline, head_budget })
    }

    /// The head of the response was read, or not. A head that passes is handed back: what is
    /// answered then is answered with it.
    pub fn on_head(&self, read: HeadRead, namespace: &str, request_path: &str) -> (r: Result<
        PassedHead,
        Refusal,
    >)
        ensures
            match (
                r,
                head_answer(
                    self.limits(),
                    self.head_budget(),
                    read,
                    namespace@,
                    request_path@,
                ),
            ) {
                (Err(a), Some(b)) => a@ == b,
                (Ok(head), None) => read matches HeadRead::Head { status, headers }
                    && head.status() == status && head.fields() == header_fields(headers),
                _ => false,
            },
    {
        match read {
            HeadRead::TimedOut => Err(
                timed_out(self.limits, TimedOut::UpstreamHead(self.head_budget)),
            ),
            HeadRead::Failed(e) => {
                let mut message = "the module could not be reached: ".to_owned();
                message.append(e.as_str());
                Err(refusal(BAD_GATEWAY, "upstream_unavailable", message.as_str()))
            },
            HeadRead::Head { status, headers } => match head_refusal(
                namespace,
                request_path,
                status,
                &headers,
            ) {
                Some(refused) => Err(refused),
                None => Ok(PassedHead { status, headers }),
            },
        }
    }

    /// The body of the response was read, or not: the whole answer, if it is passed on. It has the
    /// module's status and the module's body byte for byte, or nothing of either.
    pub fn on_collected(&self, head: PassedHead, read: Collected) -> (r: Result<
        PassedAnswer,
        Refusal,
    >)
        ensures
            match (r, body_answer(self.limits(), read)) {
                (Err(a), Some(b)) => a@ == b,
                (Ok(answer), None) => {
                    &&& read matches Collected::Whole { body }
                    &&& answer.body@ == body@
                    &&& answer.status == head.status()
                    &&& header_fields(answer.headers) == filtered(
                        Direction::ToClient,
                        head.fields(),
                    )
                    &&& answer.reusable == self.bodiless()
                },
                _ => false,
            },
    {
        match read {
            Collected::TimedOut => Err(timed_out(self.limits, TimedOut::UpstreamBody)),
            Collected::TooLarge => Err(too_large()),
            Collected::Failed(e) => {
                let mut message = "the module's response ended early: ".to_owned();
                message.append(e.as_str());
                Err(refusal(BAD_GATEWAY, "upstream_unavailable", message.as_str()))
            },
            Collected::Whole { body } => {
                if body.len() > MAX_BODY_BYTES {
                    return Err(too_large());
                }
                Ok(
                    PassedAnswer {
                        status: head.status,
                        headers: sanitize_response_headers(&head.headers),
                        body,
                        reusable: self.bodiless,
                    },
                )
            },
        }
    }
}

/// The shorter of the module's own time and what is left of the whole.
pub open spec fn send_plan(now: u64, deadline: u64, head: u64) -> SendPlan {
    let own = later(now, head);
    let head_deadline = if deadline < own {
        deadline
    } else {
        own
    };
    SendPlan {
        head_deadline,
        head_budget: (if head_deadline > now {
            head_deadline - now
        } else {
            0
        }) as u64,
    }
}

/// The time that is told is the time that applied: never more than the module's own, nor than what
/// is left of the whole.
pub proof fn law_the_budget_told_is_the_one_that_applied(now: u64, deadline: u64, head: u64)
    ensures
        send_plan(now, deadline, head).head_budget <= head,
        deadline >= now ==> send_plan(now, deadline, head).head_budget <= deadline - now,
        deadline >= now && now + head <= u64::MAX ==> send_plan(now, deadline, head).head_budget
            == (if deadline - now < head {
            deadline - now
        } else {
            head as int
        }),
{
}

// ---------------------------------------------------------------------------
// Idle connections
// ---------------------------------------------------------------------------

/// What is known of one idle connection.
#[derive(Debug, Clone, Copy, PartialEq, Eq, Structural)]
pub struct ConnStatus {
    /// The generation that it was opened for.
    pub generation: u64,
    pub closed: bool,
    pub ready: bool,
    /// Whether its generation was revoked.
    pub revoked: bool,
}

/// Whether an idle connection is kept.
pub open spec fn is_kept(c: ConnStatus) -> bool {
    !c.closed && !c.revoked
}

/// Whether a connection can carry a request to that generation.
pub open spec fn can_carry(c: ConnStatus, generation: u64) -> bool {
    is_kept(c) && c.generation == generation && c.ready
}

/// Whether an idle connection is kept when the others are looked through.
pub fn keeps(c: ConnStatus) -> (r: bool)
    ensures
        r == is_kept(c),
{
    !c.closed && !c.revoked
}

/// Picks the idle connection for a request: the last one to its own generation that is ready.
/// Connections that closed or whose generation was revoked are not among them.
pub fn pick_idle(connections: &Vec<ConnStatus>, generation: u64) -> (r: Option<usize>)
    ensures
        match r {
            Some(i) => {
                &&& i < connections@.len()
                &&& can_carry(connections@[i as int], generation)
                &&& forall|j: int|
                    i < j < connections@.len() ==> !can_carry(
                        #[trigger] connections@[j],
                        generation,
                    )
            },
            None => forall|j: int|
                0 <= j < connections@.len() ==> !can_carry(
                    #[trigger] connections@[j],
                    generation,
                ),
        },
{
    let mut i: usize = connections.len();
    while i > 0
        invariant
            i <= connections@.len(),
            forall|j: int|
                i <= j < connections@.len() ==> !can_carry(
                    #[trigger] connections@[j],
                    generation,
                ),
        decreases i,
    {
        i = i - 1;
        let c = connections[i];
        if keeps(c) && c.generation == generation && c.ready {
            return Some(i);
        }
    }
    None
}

/// Whether an idle connection is kept, of which that many are.
pub fn keep_idle(kept: usize, revoked: bool) -> (r: bool)
    ensures
        r == (!revoked && kept < MAX_IDLE_CONNECTIONS),
{
    !revoked && kept < MAX_IDLE_CONNECTIONS
}

// ---------------------------------------------------------------------------
// One exchange
// ---------------------------------------------------------------------------

/// What an exchange on a connection failed with.
#[derive(Debug)]
pub enum ExchangeError {
    /// Before anything was sent.
    NotSent(String),
    /// After something may have been.
    MaybeSent(String),
}

/// What happened in an exchange with a module.
#[derive(Debug)]
pub enum ExchangeEvent {
    /// It begins, with an idle connection at hand or with none.
    Begun { idle: bool },
    /// The idle connection brought an answer.
    Reused,
    /// The idle connection was closed by the module, and hands the request back unsent.
    HandedBack,
    /// The idle connection failed with the request.
    ReuseFailed(String),
    /// There is a new connection.
    Connected,
    /// There is none.
    NotConnected(String),
    /// Whether the request may still be sent.
    Allowed(bool),
    /// The new connection brought an answer.
    Answered,
    /// The new connection failed with the request.
    Failed(String),
}

/// What is to be done next in an exchange.
#[derive(Debug)]
pub enum ExchangeStep {
    /// Send the request on the idle connection.
    Reuse,
    /// Open a connection.
    Connect,
    /// Ask whether the request may still be sent.
    Ask,
    /// Send the request on the new connection.
    Send,
    /// The answer is there.
    Done,
    /// It failed.
    Fail(ExchangeError),
}

/// The next step of an exchange. A request that an idle connection hands back goes once more, on a
/// new connection: that a module closes what is idle is no failure of a request.
pub fn exchange_step(event: ExchangeEvent) -> (r: ExchangeStep)
    ensures
        match event {
            ExchangeEvent::Begun { idle: true } => r is Reuse,
            ExchangeEvent::Begun { idle: false } => r is Connect,
            ExchangeEvent::Reused => r is Done,
            ExchangeEvent::HandedBack => r is Connect,
            ExchangeEvent::ReuseFailed(why) => r == ExchangeStep::Fail(
                ExchangeError::MaybeSent(why),
            ),
            ExchangeEvent::Connected => r is Ask,
            ExchangeEvent::NotConnected(why) => r == ExchangeStep::Fail(
                ExchangeError::NotSent(why),
            ),
            ExchangeEvent::Allowed(true) => r is Send,
            ExchangeEvent::Allowed(false) => r matches ExchangeStep::Fail(
                ExchangeError::NotSent(why),
            ) && why@ == "the send was withdrawn before it reached the wire"@,
            ExchangeEvent::Answered => r is Done,
            ExchangeEvent::Failed(why) => r == ExchangeStep::Fail(ExchangeError::MaybeSent(why)),
        },
        (r matches ExchangeStep::Fail(ExchangeError::MaybeSent(_))) ==> may_have_left(event),
        (r matches ExchangeStep::Fail(ExchangeError::NotSent(_))) ==> !may_have_left(event),
{
    match event {
        ExchangeEvent::Begun { idle } => if idle {
            ExchangeStep::Reuse
        } else {
            ExchangeStep::Connect
        },
        ExchangeEvent::Reused | ExchangeEvent::Answered => ExchangeStep::Done,
        ExchangeEvent::HandedBack => ExchangeStep::Connect,
        ExchangeEvent::ReuseFailed(why) => ExchangeStep::Fail(ExchangeError::MaybeSent(why)),
        ExchangeEvent::Connected => ExchangeStep::Ask,
        ExchangeEvent::NotConnected(why) => ExchangeStep::Fail(ExchangeError::NotSent(why)),
        ExchangeEvent::Allowed(allowed) => if allowed {
            ExchangeStep::Send
        } else {
            ExchangeStep::Fail(
                ExchangeError::NotSent(
                    "the send was withdrawn before it reached the wire".to_owned(),
                ),
            )
        },
        ExchangeEvent::Failed(why) => ExchangeStep::Fail(ExchangeError::MaybeSent(why)),
    }
}

/// Whether some of the request may have left with this.
pub open spec fn may_have_left(event: ExchangeEvent) -> bool {
    event is Reused || event is ReuseFailed || event is Answered || event is Failed
}

/// Whether one thing can happen next after another, where each step that is called for is taken.
pub open spec fn comes_next(event: ExchangeEvent, next: ExchangeEvent) -> bool {
    match event {
        ExchangeEvent::Begun { idle: true } => next is Reused || next is HandedBack
            || next is ReuseFailed,
        ExchangeEvent::Begun { idle: false } => next is Connected || next is NotConnected,
        ExchangeEvent::HandedBack => next is Connected || next is NotConnected,
        ExchangeEvent::Connected => next is Allowed,
        ExchangeEvent::Allowed(true) => next is Answered || next is Failed,
        _ => false,
    }
}

/// Whether this is what happened in one exchange, up to some point.
pub open spec fn is_exchange(events: Seq<ExchangeEvent>) -> bool {
    &&& events.len() > 0
    &&& events[0] is Begun
    &&& forall|i: int, j: int|
        0 <= i && j == i + 1 && j < events.len() ==> comes_next(
            #[trigger] events[i],
            #[trigger] events[j],
        )
}

/// A request of which anything may have left is not sent again: whatever happens, it leaves once at
/// most, on the connection that is the last to be tried.
pub proof fn law_a_request_leaves_at_most_once(events: Seq<ExchangeEvent>, i: int, j: int)
    requires
        is_exchange(events),
        0 <= i < j < events.len(),
    ensures
        !may_have_left(events[i]),
{
    assert(comes_next(events[i], events[i + 1]));
}

// ---------------------------------------------------------------------------
// Request ids
// ---------------------------------------------------------------------------

/// Ids that tell requests apart in a log: a prefix for each run of the kernel, and a number. They
/// are no secret.
pub struct RequestIds {
    prefix: String,
    next: u64,
}

/// The id of a number.
pub open spec fn minted(prefix: Seq<char>, n: u64) -> Seq<char> {
    prefix + "-"@ + text::decimal(n as nat)
}

impl RequestIds {
    pub closed spec fn prefix(&self) -> Seq<char> {
        self.prefix@
    }

    pub closed spec fn next(&self) -> u64 {
        self.next
    }

    pub fn new(prefix: String) -> (r: RequestIds)
        ensures
            r.prefix() == prefix@,
            r.next() == 0,
    {
        RequestIds { prefix, next: 0 }
    }

    /// The next id. After the last number the first one comes again.
    pub fn mint(&mut self) -> (r: String)
        ensures
            r@ == minted(old(self).prefix(), old(self).next()),
            final(self).prefix() == old(self).prefix(),
            final(self).next() == (if old(self).next() == u64::MAX {
                0
            } else {
                old(self).next() + 1
            }),
    {
        let n: u64 = self.next;
        self.next = if n == u64::MAX {
            0
        } else {
            n + 1
        };
        text::concat3(self.prefix.as_str(), "-", text::decimal_string(n).as_str())
    }
}

/// Ids of different numbers are different.
pub proof fn law_ids_are_distinct(prefix: Seq<char>, a: u64, b: u64)
    requires
        minted(prefix, a) == minted(prefix, b),
    ensures
        a == b,
{
    let x = minted(prefix, a);
    let k = (prefix + "-"@).len() as int;
    assert(x.skip(k) =~= text::decimal(a as nat));
    assert(minted(prefix, b).skip(k) =~= text::decimal(b as nat));
    text::law_decimal_is_injective(a as nat, b as nat);
}

/// The four bytes of a number, the highest first.
pub open spec fn be_bytes(n: u32) -> Seq<u8> {
    seq![
        (n / 0x100_0000) as u8,
        (n / 0x1_0000 % 0x100) as u8,
        (n / 0x100 % 0x100) as u8,
        (n % 0x100) as u8,
    ]
}

/// Eight hexadecimal digits: of four random bytes if there are any, else of the time's nanoseconds,
/// which is enough to tell two logs apart.
pub fn short_prefix(random: Option<[u8; 4]>, nanos: u32) -> (r: String)
    ensures
        match random {
            Some(bytes) => r@ == text::hex(bytes@),
            None => r@ == text::hex(be_bytes(nanos)),
        },
{
    match random {
        Some(bytes) => text::hex_string(&bytes),
        None => {
            let mut bytes: Vec<u8> = Vec::new();
            bytes.push((nanos / 0x100_0000) as u8);
            bytes.push((nanos / 0x1_0000 % 0x100) as u8);
            bytes.push((nanos / 0x100 % 0x100) as u8);
            bytes.push((nanos % 0x100) as u8);
            assert(bytes@ =~= be_bytes(nanos));
            text::hex_string(bytes.as_slice())
        },
    }
}

// ---------------------------------------------------------------------------
// What forwarding promises
// ---------------------------------------------------------------------------

/// Whether a name is one of those that concern one hop alone, or that are worked out anew.
pub open spec fn ends_at_this_hop(name: Seq<char>) -> bool {
    let own = seq![
        "connection"@,
        "keep-alive"@,
        "te"@,
        "trailer"@,
        "transfer-encoding"@,
        "upgrade"@,
        "proxy-authenticate"@,
        "proxy-authorization"@,
        "proxy-connection"@,
        "content-length"@,
    ];
    exists|i: int| 0 <= i < 10 && #[trigger] own[i] == name
}

/// Whether some `Connection` header names a header.
pub open spec fn connection_names(fields: Map<Seq<char>, Seq<Seq<u8>>>, name: Seq<char>) -> bool {
    fields.contains_key("connection"@) && nominated(
        fields["connection"@],
        vstd::utf8::encode_utf8(name),
    )
}

proof fn lemma_ends_at_this_hop(name: Seq<char>)
    ensures
        ends_at_this_hop(name) == hop_by_hop(name),
{
    let own = seq![
        "connection"@,
        "keep-alive"@,
        "te"@,
        "trailer"@,
        "transfer-encoding"@,
        "upgrade"@,
        "proxy-authenticate"@,
        "proxy-authorization"@,
        "proxy-connection"@,
        "content-length"@,
    ];
    assert(own[0] == "connection"@ && own[1] == "keep-alive"@ && own[2] == "te"@ && own[3]
        == "trailer"@ && own[4] == "transfer-encoding"@ && own[5] == "upgrade"@ && own[6]
        == "proxy-authenticate"@ && own[7] == "proxy-authorization"@ && own[8]
        == "proxy-connection"@ && own[9] == "content-length"@);
    if hop_by_hop(name) {
        assert(exists|i: int| 0 <= i < 10 && #[trigger] own[i] == name);
    }
}

/// Which headers a client gets: every one that the module sent, with all its values, but for those
/// that end at this hop, those that a `Connection` header names, those of the kernel's own prefix,
/// cookies, what belongs to an authentication, and a refresh. `content-encoding` and `content-type`
/// for two reach the client.
pub proof fn law_which_headers_reach_a_client(fields: Map<Seq<char>, Seq<Seq<u8>>>, name: Seq<char>)
    ensures
        ({
            let got = filtered(Direction::ToClient, fields);
            let kept_back = {
                ||| ends_at_this_hop(name)
                ||| name.len() >= 6 && name.take(6) == "x-a24-"@
                ||| name == "set-cookie"@
                ||| name == "www-authenticate"@
                ||| name == "authorization"@
                ||| name == "authentication-info"@
                ||| name == "proxy-authentication-info"@
                ||| name == "refresh"@
            };
            &&& got.contains_key(name) <==> fields.contains_key(name) && !kept_back
                && !connection_names(fields, name)
            &&& got.contains_key(name) ==> got[name] == fields[name]
        }),
        ({
            let got = filtered(Direction::ToClient, fields);
            fields.contains_key("content-encoding"@) && !connection_names(
                fields,
                "content-encoding"@,
            ) ==> got.contains_key("content-encoding"@)
        }),
{
    lemma_ends_at_this_hop(name);
    reveal_strlit("x-a24-");
    assert("x-a24-"@.len() == 6);
    assert(!hop_by_hop("content-encoding"@) && !stripped_from_response("content-encoding"@)) by {
        lemma_content_encoding_passes();
    }
    if !fields.contains_key("connection"@) {
        assert(!nominated(Seq::empty(), vstd::utf8::encode_utf8(name)));
        assert(!nominated(Seq::empty(), vstd::utf8::encode_utf8("content-encoding"@)));
    }
}

proof fn lemma_content_encoding_passes()
    ensures
        !stripped_from_response("content-encoding"@),
        !hop_by_hop("content-encoding"@),
{
    reveal_strlit("content-encoding");
    reveal_strlit("connection");
    reveal_strlit("keep-alive");
    reveal_strlit("te");
    reveal_strlit("trailer");
    reveal_strlit("transfer-encoding");
    reveal_strlit("upgrade");
    reveal_strlit("proxy-authenticate");
    reveal_strlit("proxy-authorization");
    reveal_strlit("proxy-connection");
    reveal_strlit("content-length");
    reveal_strlit("set-cookie");
    reveal_strlit("www-authenticate");
    reveal_strlit("authorization");
    reveal_strlit("authentication-info");
    reveal_strlit("proxy-authentication-info");
    reveal_strlit("refresh");
    reveal_strlit("x-a24-");
    let s = "content-encoding"@;
    assert(s.len() == 16 && s[0] == 'c');
    assert("proxy-connection"@.len() == 16 && "proxy-connection"@[0] == 'p');
    assert("www-authenticate"@.len() == 16 && "www-authenticate"@[0] == 'w');
    assert(s.take(6)[0] == 'c');
    assert("x-a24-"@[0] == 'x');
}

/// Which headers a module gets from a client: every one, with all its values, but for those that end
/// at this hop, those that a `Connection` header names, those of the kernel's own prefix, what
/// identifies the client to the kernel or says where it came from, and what is worked out anew.
pub proof fn law_which_headers_reach_a_module(fields: Map<Seq<char>, Seq<Seq<u8>>>, name: Seq<char>)
    ensures
        ({
            let got = filtered(Direction::ToModule, fields);
            let kept_back = {
                ||| ends_at_this_hop(name)
                ||| name.len() >= 6 && name.take(6) == "x-a24-"@
                ||| name.len() >= 12 && name.take(12) == "x-forwarded-"@
                ||| name == "authorization"@
                ||| name == "cookie"@
                ||| name == "host"@
                ||| name == "expect"@
                ||| name == "forwarded"@
                ||| name == "x-real-ip"@
            };
            &&& got.contains_key(name) <==> fields.contains_key(name) && !kept_back
                && !connection_names(fields, name)
            &&& got.contains_key(name) ==> got[name] == fields[name]
        }),
{
    lemma_ends_at_this_hop(name);
    reveal_strlit("x-a24-");
    reveal_strlit("x-forwarded-");
    assert("x-a24-"@.len() == 6 && "x-forwarded-"@.len() == 12);
    if !fields.contains_key("connection"@) {
        assert(!nominated(Seq::empty(), vstd::utf8::encode_utf8(name)));
    }
}

/// What a module is told by the kernel: the request's own id, its token and the host, each as the one
/// value of its header, where it could be written. Everything else is what the client may say.
pub proof fn law_what_the_kernel_adds(
    fields: Map<Seq<char>, Seq<Seq<u8>>>,
    id: Option<Seq<char>>,
    token: Option<Seq<char>>,
    host: Option<Seq<char>>,
    name: Seq<char>,
)
    ensures
        ({
            let sent = outgoing(fields, id, token, host);
            let allowed = filtered(Direction::ToModule, fields);
            &&& id matches Some(s) ==> sent.contains_key("x-a24-request-id"@)
                && sent["x-a24-request-id"@] == seq![vstd::utf8::encode_utf8(s)]
            &&& token matches Some(s) ==> sent.contains_key("x-a24-approval-token"@)
                && sent["x-a24-approval-token"@] == seq![vstd::utf8::encode_utf8(s)]
            &&& host matches Some(s) ==> sent.contains_key("host"@) && sent["host"@] == seq![
                vstd::utf8::encode_utf8(s),
            ]
            &&& id is None ==> !sent.contains_key("x-a24-request-id"@)
            &&& token is None ==> !sent.contains_key("x-a24-approval-token"@)
            &&& host is None ==> !sent.contains_key("host"@)
            &&& name != "x-a24-request-id"@ && name != "x-a24-approval-token"@ && name != "host"@
                ==> {
                &&& sent.contains_key(name) == allowed.contains_key(name)
                &&& sent.contains_key(name) ==> sent[name] == allowed[name]
            }
        }),
{
    reveal_strlit("x-a24-request-id");
    reveal_strlit("x-a24-approval-token");
    reveal_strlit("host");
    reveal_strlit("x-a24-");
    assert("x-a24-request-id"@.len() == 16);
    assert("x-a24-approval-token"@.len() == 20);
    assert("host"@.len() == 4);
    assert("x-a24-request-id"@.take(6) =~= "x-a24-"@);
    assert("x-a24-approval-token"@.take(6) =~= "x-a24-"@);
    law_which_headers_reach_a_module(fields, "x-a24-request-id"@);
    law_which_headers_reach_a_module(fields, "x-a24-approval-token"@);
    law_which_headers_reach_a_module(fields, "host"@);
}

/// Whether these are spaces and the like, and nothing else.
pub open spec fn only_spaces(b: Seq<u8>) -> bool {
    forall|i: int|
        0 <= i < b.len() ==> {
            let c = #[trigger] b[i];
            c == 0x20 || c == 0x09 || c == 0x0a || c == 0x0c || c == 0x0d
        }
}

/// Whether a name has no space at either end.
pub open spec fn is_tight(b: Seq<u8>) -> bool {
    &&& b.len() > 0
    &&& !only_spaces(seq![b[0]])
    &&& !only_spaces(seq![b.last()])
}

/// Trimming takes away the spaces at both ends, and nothing else.
pub proof fn law_trimming_takes_the_spaces(before: Seq<u8>, name: Seq<u8>, after: Seq<u8>)
    requires
        only_spaces(before),
        only_spaces(after),
        is_tight(name),
    ensures
        trimmed(before + name + after) == name,
        trimmed(before) == Seq::<u8>::empty(),
{
    lemma_trimmed_start(before, name + after);
    assert(before + name + after =~= before + (name + after));
    assert((name + after)[0] == name[0]);
    assert(seq![name[0]][0] == name[0]);
    assert(!is_ascii_space(name[0]));
    assert(!is_ascii_space(name.last())) by {
        assert(seq![name.last()][0] == name.last());
    }
    lemma_trimmed_end(name, after);
    let empty = Seq::<u8>::empty();
    lemma_trimmed_start(before, empty);
    assert(before + empty =~= before);
}

proof fn lemma_trimmed_start(before: Seq<u8>, rest: Seq<u8>)
    requires
        only_spaces(before),
    ensures
        rest.len() == 0 || !is_ascii_space(rest[0]) ==> trimmed_start(before + rest) == rest,
    decreases before.len(),
{
    let all = before + rest;
    if before.len() == 0 {
        assert(all =~= rest);
    } else {
        assert(all[0] == before[0]);
        assert(all.drop_first() =~= before.drop_first() + rest);
        assert forall|i: int| 0 <= i < before.drop_first().len() implies ({
            let c = #[trigger] before.drop_first()[i];
            c == 0x20 || c == 0x09 || c == 0x0a || c == 0x0c || c == 0x0d
        }) by {
            assert(before.drop_first()[i] == before[i + 1]);
        }
        lemma_trimmed_start(before.drop_first(), rest);
    }
}

proof fn lemma_trimmed_end(name: Seq<u8>, after: Seq<u8>)
    requires
        only_spaces(after),
        name.len() > 0,
        !is_ascii_space(name.last()),
    ensures
        trimmed_end(name + after) == name,
    decreases after.len(),
{
    let all = name + after;
    if after.len() == 0 {
        assert(all =~= name);
    } else {
        assert(all.last() == after.last());
        assert(after.last() == after[after.len() - 1]);
        assert(all.drop_last() =~= name + after.drop_last());
        assert forall|i: int| 0 <= i < after.drop_last().len() implies ({
            let c = #[trigger] after.drop_last()[i];
            c == 0x20 || c == 0x09 || c == 0x0a || c == 0x0c || c == 0x0d
        }) by {
            assert(after.drop_last()[i] == after[i]);
        }
        lemma_trimmed_end(name, after.drop_last());
    }
}

/// A `Connection` value names a header wherever the header's name stands between commas, whatever
/// spaces are around it and however its letters are cased.
pub proof fn law_a_connection_value_names_what_stands_in_it(
    values: Seq<Seq<u8>>,
    i: int,
    left: Seq<u8>,
    before: Seq<u8>,
    word: Seq<u8>,
    after: Seq<u8>,
    right: Seq<u8>,
)
    requires
        0 <= i < values.len(),
        values[i] == left + (before + word + after) + right,
        left.len() == 0 || left.last() == 0x2c,
        right.len() == 0 || right[0] == 0x2c,
        only_spaces(before),
        only_spaces(after),
        is_tight(word),
        forall|k: int| 0 <= k < word.len() ==> #[trigger] word[k] < 0x80 && word[k] != 0x2c,
    ensures
        nominated(
            values,
            Seq::new(
                word.len(),
                |k: int|
                    if 0x41 <= word[k] <= 0x5a {
                        (word[k] + 0x20) as u8
                    } else {
                        word[k]
                    },
            ),
        ),
{
    let piece = before + word + after;
    law_trimming_takes_the_spaces(before, word, after);
    assert(!piece.contains(0x2c)) by {
        if piece.contains(0x2c) {
            let k = choose|k: int| 0 <= k < piece.len() && piece[k] == 0x2c;
            if k < before.len() {
                assert(before[k] == 0x2c);
            } else if k < before.len() + word.len() {
                assert(word[k - before.len()] == 0x2c);
            } else {
                assert(after[k - before.len() - word.len()] == 0x2c);
            }
        }
    }
    let at = lemma_piece_between(left, piece, right, 0x2c);
    let name = Seq::new(
        word.len(),
        |k: int|
            if 0x41 <= word[k] <= 0x5a {
                (word[k] + 0x20) as u8
            } else {
                word[k]
            },
    );
    assert(lowered(word) =~= name);
    assert(all_ascii(word));
    assert(names(text::pieces(values[i], 0x2c)[at], name));
}

/// What stands between separators, or between one and an end, is a piece.
proof fn lemma_piece_between(left: Seq<u8>, piece: Seq<u8>, right: Seq<u8>, separator: u8) -> (at:
    int)
    requires
        left.len() == 0 || left.last() == separator,
        right.len() == 0 || right[0] == separator,
        !piece.contains(separator),
    ensures
        ({
            let all = text::pieces(left + piece + right, separator);
            0 <= at < all.len() && all[at] == piece
        }),
{
    let empty = Seq::<u8>::empty();
    assert(!empty.contains(separator));
    text::lemma_one_piece(piece, separator);
    text::lemma_one_piece(empty, separator);
    text::lemma_mark_pieces(separator);
    // The last piece of what comes before is empty.
    let a = text::pieces(left, separator);
    text::lemma_pieces_concat(left, piece, separator);
    assert(a.last() =~= empty) by {
        if left.len() > 0 {
            let front = left.drop_last();
            assert(left =~= front + seq![separator]);
            text::lemma_pieces_concat(front, seq![separator], separator);
        }
    }
    let ab = text::pieces(left + piece, separator);
    assert(a.last() + piece =~= piece);
    assert(ab.last() =~= piece);
    // The first piece of what comes after is empty.
    text::lemma_pieces_concat(left + piece, right, separator);
    let b = text::pieces(right, separator);
    assert(b[0] =~= empty) by {
        if right.len() > 0 {
            let tail = right.drop_first();
            assert(right =~= seq![separator] + tail);
            text::lemma_pieces_concat(seq![separator], tail, separator);
            let two = seq![empty, empty];
            assert(two.drop_last() =~= seq![empty]);
        }
    }
    assert(piece + b[0] =~= piece);
    ab.len() - 1
}

/// Whether a byte is the same letter as another, in lower case, or the same byte.
pub open spec fn is_lower_of(c: u8, b: u8) -> bool {
    c == (if 0x41 <= b <= 0x5a {
        b + 0x20
    } else {
        b as int
    })
}

/// Whether a word of so many bytes stands at a place in a value, between commas or the ends of the
/// value, with nothing but spaces around it.
pub open spec fn stands_alone(value: Seq<u8>, at: int, len: int) -> bool {
    exists|p: int, q: int|
        {
            &&& 0 <= p <= at <= at + len <= q <= value.len()
            &&& p == 0 || value[p - 1] == 0x2c
            &&& q == value.len() || value[q] == 0x2c
            &&& only_spaces(#[trigger] value.subrange(p, at))
            &&& only_spaces(#[trigger] value.subrange(at + len, q))
        }
}

/// A header that a `Connection` value names stands in that value by itself, between commas, with its
/// letters cased somehow.
pub proof fn law_only_what_stands_in_a_connection_value_is_named(
    values: Seq<Seq<u8>>,
    name: Seq<u8>,
)
    requires
        nominated(values, name),
    ensures
        name.len() > 0,
        exists|i: int, a: int|
            {
                &&& 0 <= i < values.len()
                &&& #[trigger] stands_alone(values[i], a, name.len() as int)
                &&& forall|k: int|
                    0 <= k < name.len() ==> is_lower_of(#[trigger] name[k], values[i][a + k])
            },
{
    let (i, j) = choose|i: int, j: int|
        0 <= i < values.len() && 0 <= j < text::pieces(values[i], 0x2c).len() && names(
            #[trigger] text::pieces(values[i], 0x2c)[j],
            name,
        );
    let piece = text::pieces(values[i], 0x2c)[j];
    let p = lemma_piece_stands_in(values[i], 0x2c, j);
    let t = lemma_trimmed_stands_in(piece);
    let word = trimmed(piece);
    assert(lowered(word) == name);
    assert(word.len() == name.len());
    let v = values[i];
    let a = p + t;
    let n = name.len() as int;
    let q = p + piece.len();
    assert(only_spaces(v.subrange(p, a))) by {
        assert forall|k: int| 0 <= k < t implies ({
            let c = #[trigger] v.subrange(p, a)[k];
            c == 0x20 || c == 0x09 || c == 0x0a || c == 0x0c || c == 0x0d
        }) by {
            assert(piece[k] == v[p + k]);
        }
    }
    assert(only_spaces(v.subrange(a + n, q))) by {
        assert forall|k: int| 0 <= k < q - a - n implies ({
            let c = #[trigger] v.subrange(a + n, q)[k];
            c == 0x20 || c == 0x09 || c == 0x0a || c == 0x0c || c == 0x0d
        }) by {
            assert(piece[t + n + k] == v[p + (t + n + k)]);
        }
    }
    assert(stands_alone(v, a, n));
    assert forall|k: int| 0 <= k < n implies is_lower_of(#[trigger] name[k], v[a + k]) by {
        assert(name[k] == lowered(word)[k]);
        assert(word[k] == piece[t + k]);
        assert(piece[t + k] == v[p + (t + k)]);
    }
}

proof fn lemma_piece_stands_in(s: Seq<u8>, separator: u8, j: int) -> (at: int)
    requires
        0 <= j < text::pieces(s, separator).len(),
    ensures
        0 <= at,
        at + text::pieces(s, separator)[j].len() <= s.len(),
        at == 0 || s[at - 1] == separator,
        at + text::pieces(s, separator)[j].len() == s.len() || s[at + text::pieces(
            s,
            separator,
        )[j].len()] == separator,
        forall|k: int|
            0 <= k < text::pieces(s, separator)[j].len() ==> #[trigger] text::pieces(
                s,
                separator,
            )[j][k] == s[at + k],
    decreases s.len(),
{
    text::lemma_index_of_first(s, separator);
    let n = text::index_of_first(s, separator) as int;
    if n >= s.len() {
        0
    } else if j == 0 {
        0
    } else {
        let rest = s.skip(n + 1);
        let at = lemma_piece_stands_in(rest, separator, j - 1);
        assert(text::pieces(s, separator)[j] == text::pieces(rest, separator)[j - 1]);
        assert forall|k: int|
            0 <= k < text::pieces(s, separator)[j].len() implies #[trigger] text::pieces(
            s,
            separator,
        )[j][k] == s[at + n + 1 + k] by {
            assert(text::pieces(rest, separator)[j - 1][k] == rest[at + k]);
        }
        at + n + 1
    }
}

proof fn lemma_trimmed_stands_in(b: Seq<u8>) -> (at: int)
    ensures
        0 <= at,
        at + trimmed(b).len() <= b.len(),
        forall|k: int| 0 <= k < trimmed(b).len() ==> #[trigger] trimmed(b)[k] == b[at + k],
        forall|k: int| 0 <= k < at ==> is_ascii_space(#[trigger] b[k]),
        forall|k: int| at + trimmed(b).len() <= k < b.len() ==> is_ascii_space(#[trigger] b[k]),
{
    let at = lemma_trimmed_start_stands_in(b);
    let rest = trimmed_start(b);
    lemma_trimmed_end_stands_in(rest);
    assert forall|k: int| at + trimmed(b).len() <= k < b.len() implies is_ascii_space(
        #[trigger] b[k],
    ) by {
        assert(rest[k - at] == b[at + (k - at)]);
    }
    at
}

proof fn lemma_trimmed_start_stands_in(b: Seq<u8>) -> (at: int)
    ensures
        0 <= at,
        at + trimmed_start(b).len() == b.len(),
        forall|k: int|
            0 <= k < trimmed_start(b).len() ==> #[trigger] trimmed_start(b)[k] == b[at + k],
        forall|k: int| 0 <= k < at ==> is_ascii_space(#[trigger] b[k]),
    decreases b.len(),
{
    if b.len() > 0 && is_ascii_space(b[0]) {
        let rest = b.drop_first();
        let at = lemma_trimmed_start_stands_in(rest);
        assert forall|k: int| 0 <= k < at + 1 implies is_ascii_space(#[trigger] b[k]) by {
            if k > 0 {
                assert(rest[k - 1] == b[k]);
            }
        }
        at + 1
    } else {
        0
    }
}

proof fn lemma_trimmed_end_stands_in(b: Seq<u8>)
    ensures
        trimmed_end(b).len() <= b.len(),
        forall|k: int| 0 <= k < trimmed_end(b).len() ==> #[trigger] trimmed_end(b)[k] == b[k],
        forall|k: int| trimmed_end(b).len() <= k < b.len() ==> is_ascii_space(#[trigger] b[k]),
    decreases b.len(),
{
    if b.len() > 0 && is_ascii_space(b.last()) {
        let rest = b.drop_last();
        lemma_trimmed_end_stands_in(rest);
        assert forall|k: int| trimmed_end(b).len() <= k < b.len() implies is_ascii_space(
            #[trigger] b[k],
        ) by {
            if k < rest.len() {
                assert(rest[k] == b[k]);
            }
        }
    }
}

// ---------------------------------------------------------------------------
// What the judgement of a location promises
// ---------------------------------------------------------------------------

proof fn lemma_pieces_at_mark(a: Seq<char>, b: Seq<char>)
    ensures
        text::pieces(a + seq!['/'] + b, '/') == text::pieces(a, '/') + text::pieces(b, '/'),
{
    let mark = seq!['/'];
    let empty = Seq::<char>::empty();
    text::lemma_mark_pieces('/');
    text::lemma_pieces_concat(a, mark, '/');
    let x = text::pieces(a, '/');
    assert(x.last() + empty =~= x.last());
    assert(text::pieces(a + mark, '/') =~= x.push(empty));
    text::lemma_pieces_concat(a + mark, b, '/');
    let y = text::pieces(b, '/');
    assert(empty + y[0] =~= y[0]);
    assert(x.push(empty).drop_last() =~= x);
    assert(text::pieces(a + mark + b, '/') =~= x + y);
}

proof fn lemma_resolved_alike(a: Seq<Seq<char>>, b: Seq<Seq<char>>, more: Seq<Seq<char>>)
    requires
        resolved(a) == resolved(b),
    ensures
        resolved(a + more) == resolved(b + more),
    decreases more.len(),
{
    if more.len() == 0 {
        assert(a + more =~= a);
        assert(b + more =~= b);
    } else {
        lemma_resolved_alike(a, b, more.drop_last());
        assert((a + more).drop_last() =~= a + more.drop_last());
        assert((b + more).drop_last() =~= b + more.drop_last());
        assert((a + more).last() == more.last());
        assert((b + more).last() == more.last());
    }
}

/// Dots are followed as a browser follows them: a dot, or nothing, between two slashes stays where it
/// is; two dots undo the name before them; and two dots with nothing before them lead out.
pub proof fn law_dot_segments_are_followed(a: Seq<char>, name: Seq<char>, b: Seq<char>)
    requires
        name.len() > 0,
        name != seq!['.'],
        name != seq!['.', '.'],
        !name.contains('/'),
    ensures
        normalised(a + seq!['/'] + seq!['.'] + seq!['/'] + b) == normalised(a + seq!['/'] + b),
        normalised(a + seq!['/'] + seq!['/'] + b) == normalised(a + seq!['/'] + b),
        normalised(a + seq!['/'] + name + seq!['/'] + seq!['.', '.'] + seq!['/'] + b)
            == normalised(a + seq!['/'] + b),
        normalised(seq!['.', '.'] + seq!['/'] + b) is None,
        normalised(seq!['/'] + seq!['.', '.'] + seq!['/'] + b) is None,
        normalised(a + seq!['/']) == normalised(a),
{
    let slash = seq!['/'];
    let dot = seq!['.'];
    let up = seq!['.', '.'];
    let empty = Seq::<char>::empty();
    let x = text::pieces(a, '/');
    let y = text::pieces(b, '/');
    assert(!dot.contains('/'));
    assert(!up.contains('/'));
    assert(!empty.contains('/'));
    text::lemma_one_piece(dot, '/');
    text::lemma_one_piece(up, '/');
    text::lemma_one_piece(empty, '/');
    text::lemma_one_piece(name, '/');
    lemma_pieces_at_mark(a, b);
    // A dot.
    lemma_pieces_at_mark(a, dot);
    lemma_pieces_at_mark(a + slash + dot, b);
    assert((x + seq![dot]).drop_last() =~= x);
    lemma_resolved_alike(x + seq![dot], x, y);
    // Nothing.
    lemma_pieces_at_mark(a, empty);
    assert(a + slash + empty =~= a + slash);
    lemma_pieces_at_mark(a + slash, b);
    assert((x + seq![empty]).drop_last() =~= x);
    lemma_resolved_alike(x + seq![empty], x, y);
    // A name, and back.
    lemma_pieces_at_mark(a, name);
    lemma_pieces_at_mark(a + slash + name, up);
    lemma_pieces_at_mark(a + slash + name + slash + up, b);
    let there = x + seq![name];
    let back = there + seq![up];
    assert(there.drop_last() =~= x);
    assert(back.drop_last() =~= there);
    assert(up.len() == 2 && dot.len() == 1);
    if let Some(out) = resolved(x) {
        assert(resolved(there) == Some(out.push(name)));
        assert(out.push(name).drop_last() =~= out);
    }
    assert(resolved(back) == resolved(x));
    lemma_resolved_alike(back, x, y);
    // Out.
    lemma_pieces_at_mark(up, b);
    lemma_out_stays_out(seq![up], y);
    assert(seq![up].drop_last() =~= Seq::<Seq<char>>::empty());
    lemma_pieces_at_mark(empty, up);
    assert(empty + slash + up =~= slash + up);
    lemma_pieces_at_mark(slash + up, b);
    let two = seq![empty] + seq![up];
    assert(two.drop_last() =~= seq![empty]);
    assert(seq![empty].drop_last() =~= Seq::<Seq<char>>::empty());
    assert(resolved(seq![empty].drop_last()) == Some(Seq::<Seq<char>>::empty()));
    assert(resolved(seq![empty]) == Some(Seq::<Seq<char>>::empty()));
    lemma_out_stays_out(two, y);
}

proof fn lemma_out_stays_out(a: Seq<Seq<char>>, more: Seq<Seq<char>>)
    requires
        a.len() > 0,
        a.last() == seq!['.', '.'],
        resolved(a.drop_last()) == Some(Seq::<Seq<char>>::empty()),
    ensures
        resolved(a + more) is None,
    decreases more.len(),
{
    assert(seq!['.', '.'].len() == 2 && seq!['.'].len() == 1);
    if more.len() == 0 {
        assert(a + more =~= a);
    } else {
        lemma_out_stays_out(a, more.drop_last());
        assert((a + more).drop_last() =~= a + more.drop_last());
    }
}

/// A path of plain names is already what it leads to.
pub proof fn law_plain_paths_lead_to_themselves(segments: Seq<Seq<char>>)
    requires
        segments.len() > 0,
        forall|i: int| 0 <= i < segments.len() ==> is_plain(#[trigger] segments[i]),
    ensures
        normalised("/"@ + text::joined(segments, "/"@)) == Some(
            "/"@ + text::joined(segments, "/"@),
        ),
{
    reveal_strlit("/");
    assert("/"@ =~= seq!['/']);
    let j = text::joined(segments, "/"@);
    let empty = Seq::<char>::empty();
    assert forall|i: int| 0 <= i < segments.len() implies !(#[trigger] segments[i]).contains(
        '/',
    ) by {
        assert(is_plain(segments[i]));
    }
    text::lemma_joined_pieces(segments, '/');
    lemma_pieces_at_mark(empty, j);
    assert(empty + seq!['/'] + j =~= "/"@ + j);
    text::lemma_one_piece(empty, '/');
    lemma_plain_stays(segments);
}

/// An escaped dot is a dot, in either case of its letter, wherever it stands; and every other escape
/// is left as it is.
pub proof fn law_only_escaped_dots_are_decoded(a: Seq<char>, e: char, b: Seq<char>)
    requires
        e == 'e' || e == 'E',
    ensures
        dots_decoded(a + seq!['%', '2', e] + b) == dots_decoded(a) + seq!['.'] + dots_decoded(b),
        !has_escaped_dot(a) ==> dots_decoded(a) == a,
    decreases a.len(),
{
    let escape = seq!['%', '2', e];
    let all = a + escape + b;
    if a.len() == 0 {
        assert(all =~= escape + b);
        assert(all.skip(3) =~= b);
        assert(dots_decoded(a) =~= Seq::<char>::empty());
        assert(dots_decoded(all) =~= dots_decoded(a) + seq!['.'] + dots_decoded(b));
    } else if a.len() >= 3 && a[0] == '%' && a[1] == '2' && (a[2] == 'e' || a[2] == 'E') {
        law_only_escaped_dots_are_decoded(a.skip(3), e, b);
        assert(all.skip(3) =~= a.skip(3) + escape + b);
        assert(dots_decoded(all) =~= dots_decoded(a) + seq!['.'] + dots_decoded(b));
        assert(escaped_dot_at(a, 0));
    } else {
        let rest = a.drop_first();
        law_only_escaped_dots_are_decoded(rest, e, b);
        assert(all.drop_first() =~= rest + escape + b);
        assert(all[0] == a[0]);
        if a.len() == 1 {
            assert(all[1] == '%');
        } else if a.len() == 2 {
            assert(all[2] == '%');
        } else {
            assert(all[1] == a[1] && all[2] == a[2]);
        }
        assert(dots_decoded(all) =~= dots_decoded(a) + seq!['.'] + dots_decoded(b));
        if !has_escaped_dot(a) {
            assert(!has_escaped_dot(rest)) by {
                if has_escaped_dot(rest) {
                    let i = choose|i: int| #[trigger] escaped_dot_at(rest, i);
                    assert(escaped_dot_at(a, i + 1));
                }
            }
            assert(seq![a[0]] + rest =~= a);
        }
    }
}

/// Whether an escaped dot stands at a place.
pub open spec fn escaped_dot_at(s: Seq<char>, i: int) -> bool {
    0 <= i <= s.len() - 3 && s[i] == '%' && s[i + 1] == '2' && (s[i + 2] == 'e' || s[i + 2] == 'E')
}

/// Whether an escaped dot stands anywhere.
pub open spec fn has_escaped_dot(s: Seq<char>) -> bool {
    exists|i: int| #[trigger] escaped_dot_at(s, i)
}

/// Whether a character may stand in a location: it is no control character, no white space and no
/// backslash. Every other one may, the percent sign of an escape among them.
pub open spec fn may_stand_in_location(c: char) -> bool {
    let u = c as u32;
    &&& 0x21 <= u <= 0x7e || u >= 0xa1
    &&& u != 0x5c
    &&& u != 0x1680
    &&& !(0x2000 <= u <= 0x200a)
    &&& u != 0x2028 && u != 0x2029 && u != 0x202f && u != 0x205f && u != 0x3000
}

/// Whether a text begins with a scheme: a letter, more letters, digits, `+`, `-` and `.`, and a colon.
pub open spec fn begins_with_scheme(s: Seq<char>) -> bool {
    exists|k: int|
        {
            &&& 0 < k < s.len()
            &&& #[trigger] s[k] == ':'
            &&& 'a' <= s[0] <= 'z' || 'A' <= s[0] <= 'Z'
            &&& forall|j: int|
                0 <= j < k ==> {
                    let c = #[trigger] s[j];
                    'a' <= c <= 'z' || 'A' <= c <= 'Z' || '0' <= c <= '9' || c == '+' || c == '-'
                        || c == '.'
                }
        }
}

/// Whether a path leads to the namespace or under it.
pub open spec fn leads_into(namespace: Seq<char>, path: Seq<char>) -> bool {
    normalised(path) matches Some(p) && (p == namespace || (p.len() > namespace.len() && p.take(
        namespace.len() as int,
    ) == namespace && p[namespace.len() as int] == '/'))
}

proof fn lemma_may_stand(c: char)
    ensures
        may_stand_in_location(c) == is_url_material(c),
{
    let u = c as u32;
    assert(c == '\\' <==> u == 0x5c);
    assert(is_control(c) || is_white(c) <==> !(0x21 <= u <= 0x7e || u >= 0xa1) || u == 0x1680 || (
    0x2000 <= u <= 0x200a) || u == 0x2028 || u == 0x2029 || u == 0x202f || u == 0x205f || u
        == 0x3000);
}

proof fn lemma_with_scheme(s: Seq<char>)
    ensures
        with_scheme(s) == begins_with_scheme(s),
{
    text::lemma_index_of_first(s, ':');
    let colon = text::index_of_first(s, ':') as int;
    if with_scheme(s) {
        assert(s[colon] == ':');
        assert forall|j: int| 0 <= j < colon implies ({
            let c = #[trigger] s[j];
            'a' <= c <= 'z' || 'A' <= c <= 'Z' || '0' <= c <= '9' || c == '+' || c == '-' || c
                == '.'
        }) by {
            assert(in_scheme(s[j]));
        }
    }
    if begins_with_scheme(s) {
        let k = choose|k: int|
            {
                &&& 0 < k < s.len()
                &&& #[trigger] s[k] == ':'
                &&& 'a' <= s[0] <= 'z' || 'A' <= s[0] <= 'Z'
                &&& forall|j: int|
                    0 <= j < k ==> {
                        let c = #[trigger] s[j];
                        'a' <= c <= 'z' || 'A' <= c <= 'Z' || '0' <= c <= '9' || c == '+' || c
                            == '-' || c == '.'
                    }
            };
        assert forall|j: int| 0 <= j < k implies s[j] != ':' by {
            assert(s[j] != ':');
        }
        text::lemma_index_of_first_is(s, ':', k);
    }
}

proof fn lemma_directory(dir: Seq<char>, leaf: Seq<char>)
    requires
        dir.len() == 0 || dir.last() == '/',
        !leaf.contains('/'),
    ensures
        directory_len(dir + leaf) == dir.len(),
    decreases leaf.len(),
{
    let all = dir + leaf;
    if leaf.len() == 0 {
        assert(all =~= dir);
    } else {
        assert(all.last() == leaf.last());
        assert(leaf.contains(leaf.last()));
        assert(all.drop_last() =~= dir + leaf.drop_last());
        assert(!leaf.drop_last().contains('/')) by {
            if leaf.drop_last().contains('/') {
                let i = choose|i: int|
                    0 <= i < leaf.drop_last().len() && leaf.drop_last()[i] == '/';
                assert(leaf[i] == '/');
            }
        }
        lemma_directory(dir, leaf.drop_last());
    }
}

/// Exactly these locations pass: those of characters that may stand in one, without a host and
/// without a scheme, that have no path or a path that leads into the namespace. A path that starts
/// at the root is taken as it is, any other one from the directory of the request. What comes after
/// the path has no say but for its characters.
pub proof fn law_exactly_these_locations_pass(
    namespace: Seq<char>,
    dir: Seq<char>,
    leaf: Seq<char>,
    path: Seq<char>,
    tail: Seq<char>,
)
    requires
        dir.len() == 0 || dir.last() == '/',
        !leaf.contains('/'),
        forall|i: int| 0 <= i < path.len() ==> #[trigger] path[i] != '?' && path[i] != '#',
        tail.len() > 0 ==> tail[0] == '?' || tail[0] == '#',
    ensures
        ({
            let decoded = dots_decoded(path);
            let from = if decoded.len() > 0 && decoded[0] == '/' {
                Seq::empty()
            } else if dir.len() > 0 {
                dir
            } else {
                seq!['/']
            };
            within(namespace, dir + leaf, path + tail) <==> {
                &&& forall|i: int|
                    0 <= i < (path + tail).len() ==> may_stand_in_location(
                        #[trigger] (path + tail)[i],
                    )
                &&& !(path.len() >= 2 && path[0] == '/' && path[1] == '/')
                &&& !begins_with_scheme(path)
                &&& path.len() == 0 || leads_into(namespace, from + decoded)
            }
        }),
{
    let all = path + tail;
    let rp = dir + leaf;
    reveal_strlit("/");
    reveal_strlit("//");
    assert("/"@ =~= seq!['/']);
    assert("//"@ =~= seq!['/', '/']);
    lemma_directory(dir, leaf);
    lemma_with_scheme(path);
    lemma_path_len_of(path, tail);
    assert(all.take(path.len() as int) =~= path);
    if dir.len() > 0 {
        assert(rp.take(dir.len() as int) =~= dir);
    }
    let decoded = dots_decoded(path);
    assert(Seq::<char>::empty() + decoded =~= decoded);
    assert forall|i: int| 0 <= i < all.len() implies may_stand_in_location(#[trigger] all[i])
        == is_url_material(all[i]) by {
        lemma_may_stand(all[i]);
    }
    // The host.
    assert(text::starts_with(all, "//"@) == (path.len() >= 2 && path[0] == '/' && path[1] == '/'))
        by {
        if path.len() >= 2 {
            assert(all[0] == path[0] && all[1] == path[1]);
            if path[0] == '/' && path[1] == '/' {
                assert(all.take(2) =~= "//"@);
            }
        }
        if text::starts_with(all, "//"@) {
            assert(all.take(2)[0] == '/' && all.take(2)[1] == '/');
            if path.len() == 0 {
                assert(all[0] == tail[0]);
            } else if path.len() == 1 {
                assert(all[1] == tail[0]);
            }
        }
    }
    // The scheme.
    assert(with_scheme(all) == with_scheme(path)) by {
        lemma_scheme_in_path(path, tail);
    }
    // The place.
    if path.len() > 0 {
        if let Some(p) = target(rp, path) {
            let under = namespace + "/"@;
            assert(inside(namespace, p) == (p == namespace || (p.len() > namespace.len() && p.take(
                namespace.len() as int,
            ) == namespace && p[namespace.len() as int] == '/'))) by {
                if text::starts_with(p, under) {
                    assert(p.take(under.len() as int)[namespace.len() as int] == '/');
                    assert(p.take(namespace.len() as int) =~= p.take(under.len() as int).take(
                        namespace.len() as int,
                    ));
                    assert(under.take(namespace.len() as int) =~= namespace);
                }
                if p.len() > namespace.len() && p.take(namespace.len() as int) == namespace
                    && p[namespace.len() as int] == '/' {
                    assert(p.take(under.len() as int) =~= under);
                }
            }
        }
    }
}

proof fn lemma_scheme_in_path(path: Seq<char>, tail: Seq<char>)
    requires
        tail.len() > 0 ==> tail[0] == '?' || tail[0] == '#',
    ensures
        with_scheme(path + tail) == with_scheme(path),
{
    let all = path + tail;
    text::lemma_index_of_first(all, ':');
    text::lemma_index_of_first(path, ':');
    let m = text::index_of_first(path, ':') as int;
    let n = text::index_of_first(all, ':') as int;
    if m < path.len() {
        assert(all[m] == path[m]);
        assert forall|i: int| 0 <= i < m implies all[i] != ':' by {
            assert(all[i] == path[i]);
        }
        text::lemma_index_of_first_is(all, ':', m);
        assert(all[0] == path[0]);
        if with_scheme(all) {
            assert forall|i: int| 0 <= i < m implies in_scheme(#[trigger] path[i]) by {
                assert(in_scheme(all[i]));
            }
        }
        if with_scheme(path) {
            assert forall|i: int| 0 <= i < m implies in_scheme(#[trigger] all[i]) by {
                assert(in_scheme(path[i]));
            }
        }
    } else {
        assert(!with_scheme(path));
        if with_scheme(all) {
            if n < path.len() {
                assert(path[n] == all[n]);
            } else {
                let k = path.len() as int;
                assert(all[k] == tail[0]);
                assert(!in_scheme(all[k]));
                assert(all[n] == ':');
                assert(n != k);
            }
        }
    }
}

/// Whether a name is plain and may stand in the path of a location as it is: any escapes are those
/// of other characters than a dot.
pub open spec fn is_path_name(segment: Seq<char>) -> bool {
    &&& is_plain(segment)
    &&& forall|i: int|
        0 <= i < segment.len() ==> may_stand_in_location(#[trigger] segment[i]) && segment[i] != '?'
            && segment[i] != '#'
}

/// A location that starts at the root and has plain names in its path passes exactly where it is the
/// namespace or lies under it, whatever the request was, whatever the names are, and whatever query
/// or fragment it has.
pub proof fn law_a_plain_location_passes_exactly_inside(
    namespace: Seq<char>,
    request_path: Seq<char>,
    segments: Seq<Seq<char>>,
    tail: Seq<char>,
)
    requires
        segments.len() > 0,
        forall|i: int| 0 <= i < segments.len() ==> is_path_name(#[trigger] segments[i]),
        !has_escaped_dot(text::joined(segments, seq!['/'])),
        tail.len() > 0 ==> tail[0] == '?' || tail[0] == '#',
        forall|i: int| 0 <= i < tail.len() ==> may_stand_in_location(#[trigger] tail[i]),
    ensures
        ({
            let path = seq!['/'] + text::joined(segments, seq!['/']);
            within(namespace, request_path, path + tail) <==> path == namespace || (path.len()
                > namespace.len() && path.take(namespace.len() as int) == namespace
                && path[namespace.len() as int] == '/')
        }),
{
    let slash = seq!['/'];
    let joined = text::joined(segments, slash);
    let path = slash + joined;
    lemma_joined_names(segments);
    let (dir, leaf) = lemma_split_path(request_path);
    assert forall|i: int| 0 <= i < path.len() implies #[trigger] path[i] != '?' && path[i] != '#'
        && may_stand_in_location(path[i]) by {
        if i > 0 {
            assert(path[i] == joined[i - 1]);
        }
    }
    assert forall|i: int| 0 <= i < (path + tail).len() implies may_stand_in_location(
        #[trigger] (path + tail)[i],
    ) by {
        if i < path.len() {
            assert((path + tail)[i] == path[i]);
        } else {
            assert((path + tail)[i] == tail[i - path.len()]);
        }
    }
    law_exactly_these_locations_pass(namespace, dir, leaf, path, tail);
    assert(!has_escaped_dot(path)) by {
        if has_escaped_dot(path) {
            let i = choose|i: int| #[trigger] escaped_dot_at(path, i);
            assert(path[i] == '%');
            assert(i > 0);
            assert(escaped_dot_at(joined, i - 1));
        }
    }
    law_only_escaped_dots_are_decoded(path, 'e', Seq::empty());
    assert(!begins_with_scheme(path)) by {
        assert(path[0] == '/');
    }
    assert(path[1] == joined[0]);
    assert(joined[0] == segments[0][0]);
    assert(is_plain(segments[0]));
    assert(segments[0].contains(segments[0][0]));
    reveal_strlit("/");
    assert("/"@ =~= slash);
    assert forall|i: int| 0 <= i < segments.len() implies is_plain(#[trigger] segments[i]) by {
        assert(is_path_name(segments[i]));
    }
    law_plain_paths_lead_to_themselves(segments);
    assert(Seq::<char>::empty() + path =~= path);
}

proof fn lemma_split_path(path: Seq<char>) -> (r: (Seq<char>, Seq<char>))
    ensures
        path == r.0 + r.1,
        r.0.len() == 0 || r.0.last() == '/',
        !r.1.contains('/'),
    decreases path.len(),
{
    if path.len() == 0 {
        (path, path)
    } else if path.last() == '/' {
        assert(path + Seq::<char>::empty() =~= path);
        (path, Seq::empty())
    } else {
        let (dir, leaf) = lemma_split_path(path.drop_last());
        let more = leaf.push(path.last());
        assert(path =~= path.drop_last().push(path.last()));
        assert(path =~= dir + more);
        assert(!more.contains('/')) by {
            if more.contains('/') {
                let i = choose|i: int| 0 <= i < more.len() && more[i] == '/';
                if i < leaf.len() {
                    assert(leaf[i] == '/');
                }
            }
        }
        (dir, more)
    }
}

proof fn lemma_joined_names(segments: Seq<Seq<char>>)
    requires
        segments.len() > 0,
        forall|i: int| 0 <= i < segments.len() ==> is_path_name(#[trigger] segments[i]),
    ensures
        ({
            let joined = text::joined(segments, seq!['/']);
            &&& joined.len() >= segments[0].len()
            &&& joined[0] == segments[0][0]
            &&& forall|i: int|
                0 <= i < joined.len() ==> may_stand_in_location(#[trigger] joined[i]) && joined[i]
                    != '?' && joined[i] != '#'
        }),
    decreases segments.len(),
{
    let last = segments.last();
    assert(is_path_name(segments[segments.len() - 1]));
    assert(is_path_name(segments[0]));
    if segments.len() > 1 {
        let front = segments.drop_last();
        assert forall|i: int| 0 <= i < front.len() implies is_path_name(#[trigger] front[i]) by {
            assert(front[i] == segments[i]);
        }
        lemma_joined_names(front);
        let before = text::joined(front, seq!['/']);
        let joined = text::joined(segments, seq!['/']);
        assert(joined == before + seq!['/'] + last);
        assert forall|i: int| 0 <= i < joined.len() implies may_stand_in_location(
            #[trigger] joined[i],
        ) && joined[i] != '?' && joined[i] != '#' by {
            if i < before.len() {
                assert(joined[i] == before[i]);
            } else if i > before.len() {
                assert(joined[i] == last[i - before.len() - 1]);
            }
        }
    }
}

/// Whatever plain names come after the namespace, the location passes.
pub proof fn law_whatever_lies_under_the_namespace_passes(
    namespace: Seq<Seq<char>>,
    request_path: Seq<char>,
    names: Seq<Seq<char>>,
    tail: Seq<char>,
)
    requires
        namespace.len() > 0,
        names.len() > 0,
        forall|i: int| 0 <= i < namespace.len() ==> is_path_name(#[trigger] namespace[i]),
        forall|i: int| 0 <= i < names.len() ==> is_path_name(#[trigger] names[i]),
        !has_escaped_dot(text::joined(namespace + names, seq!['/'])),
        tail.len() > 0 ==> tail[0] == '?' || tail[0] == '#',
        forall|i: int| 0 <= i < tail.len() ==> may_stand_in_location(#[trigger] tail[i]),
    ensures
        ({
            let root = seq!['/'] + text::joined(namespace, seq!['/']);
            within(
                root,
                request_path,
                root + seq!['/'] + text::joined(names, seq!['/']) + tail,
            )
        }),
{
    let slash = seq!['/'];
    let root = slash + text::joined(namespace, slash);
    let all = namespace + names;
    assert forall|i: int| 0 <= i < all.len() implies is_path_name(#[trigger] all[i]) by {
        if i < namespace.len() {
            assert(all[i] == namespace[i]);
        } else {
            assert(all[i] == names[i - namespace.len()]);
        }
    }
    lemma_joined_both(namespace, names);
    law_a_plain_location_passes_exactly_inside(root, request_path, all, tail);
    let path = slash + text::joined(all, slash);
    let written = root + slash + text::joined(names, slash);
    assert(path =~= written);
    assert(path.take(root.len() as int) =~= root);
    assert(path[root.len() as int] == '/');
}

proof fn lemma_joined_both(a: Seq<Seq<char>>, b: Seq<Seq<char>>)
    requires
        a.len() > 0,
        b.len() > 0,
    ensures
        text::joined(a + b, seq!['/']) == text::joined(a, seq!['/']) + seq!['/'] + text::joined(
            b,
            seq!['/'],
        ),
    decreases b.len(),
{
    let slash = seq!['/'];
    let all = a + b;
    assert(all.last() == b.last());
    if b.len() == 1 {
        assert(all.drop_last() =~= a);
        assert(text::joined(b, slash) == b[0]);
    } else {
        assert(all.drop_last() =~= a + b.drop_last());
        lemma_joined_both(a, b.drop_last());
        assert(text::joined(all, slash) =~= text::joined(a, slash) + slash + text::joined(
            b,
            slash,
        ));
    }
}

// ---------------------------------------------------------------------------
// What answers promise
// ---------------------------------------------------------------------------

/// What a client gets once its request is done: the module's answer, if there is one and the
/// generation was not revoked. Else the kernel's own: that the module was stopped, or, where the
/// request had been sent, that nobody knows what became of it.
pub proof fn law_a_module_answers_unless_it_was_revoked(
    outcome: Result<(), Abandoned>,
    answered: bool,
)
    ensures
        ({
            let told = ending(outcome, answered);
            let sent = outcome matches Err(abandoned) && abandoned.dispatched;
            &&& told is None <==> outcome is Ok && answered
            &&& sent ==> told->Some_0.status == 503 && told->Some_0.code == "request_abandoned"@
                && told->Some_0.message
                == "the module was stopped while this request was in flight; whether it acted on the request is unknown"@
            &&& !(outcome is Ok && answered) && !sent ==> told->Some_0.status == 503
                && told->Some_0.code == "module_stopping"@ && told->Some_0.message
                == "the module has been stopped"@
        }),
{
}

/// A request in flight whose generation was not revoked ends with the module's answer.
pub proof fn law_an_answer_is_passed_on_unless_revoked(
    generation: drain::GenerationView,
    request: drain::RequestView,
)
    requires
        generation.in_flight.contains_key(request.id),
        generation.in_flight[request.id].serial == request.serial,
        generation.upstream == request.address,
    ensures
        ending(generation.outcome(request), true) is None <==> generation.state
            != drain::DrainState::Revoked,
{
    drain::law_only_a_revocation_takes_a_success_away(generation, request);
}

/// What a client is told that is not admitted: always that the service is not to be had now, under
/// the code of the reason.
pub proof fn law_refusals_say_their_reason(refused: RequestRefused)
    ensures
        ({
            let told = refused_answer(refused);
            &&& told.status == 503
            &&& match refused {
                RequestRefused::NotReady => told.code == "module_not_ready"@ && told.message
                    == "the module is starting and has not completed its handshake"@,
                RequestRefused::Draining => told.code == "module_draining"@ && told.message
                    == "the module is being stopped: it is finishing the requests it already has and takes no new ones"@,
                RequestRefused::Stopping => told.code == "module_stopping"@ && told.message
                    == "the module has been stopped"@,
                RequestRefused::DuplicateId => told.code == "duplicate_request_id"@
                    && told.message == "the kernel minted a request id that is already in flight"@,
            }
        }),
{
}

/// Whether a value is a media type's, whatever its parameters: the type stands first, with nothing but
/// spaces around it, up to the end or a semicolon.
pub proof fn law_a_media_type_is_what_stands_first(
    before: Seq<u8>,
    kind: Seq<u8>,
    after: Seq<u8>,
    parameters: Seq<u8>,
)
    requires
        only_spaces(before),
        only_spaces(after),
        is_tight(kind),
        !kind.contains(0x3b),
        parameters.len() > 0 ==> parameters[0] == 0x3b,
    ensures
        media_type(before + kind + after + parameters) == kind,
{
    let first = before + kind + after;
    let value = first + parameters;
    let n = first.len() as int;
    assert forall|i: int| 0 <= i < n implies value[i] != 0x3b by {
        if i < before.len() {
            assert(value[i] == before[i]);
        } else if i < before.len() + kind.len() {
            assert(value[i] == kind[i - before.len()]);
            assert(kind.contains(kind[i - before.len()]));
        } else {
            assert(value[i] == after[i - before.len() - kind.len()]);
        }
    }
    if parameters.len() > 0 {
        assert(value[n] == parameters[0]);
    }
    text::lemma_index_of_first_is(value, 0x3b, n);
    assert(value.take(n) =~= first);
    law_trimming_takes_the_spaces(before, kind, after);
}

/// Whether one of the types is that of a stream of events.
pub open spec fn begins_events(types: Seq<Seq<u8>>) -> bool {
    exists|i: int|
        0 <= i < types.len() && lowered(media_type(#[trigger] types[i]))
            == vstd::utf8::encode_utf8("text/event-stream"@)
}

/// Whether every byte is a character that can be seen, or a space.
pub open spec fn is_one_line_of_text(b: Seq<u8>) -> bool {
    forall|i: int| 0 <= i < b.len() ==> 0x20 <= #[trigger] b[i] <= 0x7e || b[i] == 0x09
}

proof fn lemma_streams(types: Seq<Seq<u8>>)
    ensures
        streams(types) == begins_events(types),
{
    if streams(types) {
        let i = choose|i: int|
            0 <= i < types.len() && lowered(media_type(#[trigger] types[i])) == event_stream();
        assert(lowered(media_type(types[i])) == vstd::utf8::encode_utf8("text/event-stream"@));
    }
}

/// Which heads are passed on: those that change no protocol, begin no stream of events, and send the
/// client nowhere or to one place inside, which is judged as it is `written`. Each of the others is refused, as the module's fault, under a
/// code that says which it was.
pub proof fn law_which_heads_are_passed_on(
    namespace: Seq<char>,
    request_path: Seq<char>,
    status: u16,
    fields: Map<Seq<char>, Seq<Seq<u8>>>,
    written: Seq<char>,
)
    requires
        fields.contains_key("location"@) && fields["location"@].len() == 1 ==> {
            let place = fields["location"@][0];
            &&& written.len() == place.len()
            &&& forall|i: int| 0 <= i < place.len() ==> #[trigger] written[i] == place[i] as char
        },
    ensures
        ({
            let told = head_judged(namespace, request_path, status, fields);
            let types = if fields.contains_key("content-type"@) {
                fields["content-type"@]
            } else {
                Seq::empty()
            };
            let places = if fields.contains_key("location"@) {
                fields["location"@]
            } else {
                Seq::empty()
            };
            let streaming = begins_events(types);
            let astray = places.len() > 1 || (places.len() == 1 && !(is_one_line_of_text(places[0])
                && within(namespace, request_path, written)));
            &&& told is None <==> status != 101 && !streaming && !astray
            &&& told matches Some(refused) ==> refused.status == 502
            &&& status == 101 || streaming ==> told->Some_0.code
                == "upstream_streaming_unsupported"@
            &&& status == 101 ==> told->Some_0.message
                == "protocol upgrades (WebSocket) are not proxied this round"@
            &&& status != 101 && streaming ==> told->Some_0.message
                == "server-sent events are not proxied this round"@
            &&& status != 101 && !streaming && astray ==> told->Some_0.code
                == "upstream_location_rejected"@
            &&& status != 101 && !streaming && places.len() > 1 ==> told->Some_0.message
                == "the module returned more than one Location header"@
            &&& status != 101 && !streaming && astray && places.len() == 1
                ==> told->Some_0.message == "the module redirected outside "@ + namespace
        }),
{
    let types = values_under(fields, "content-type"@);
    lemma_streams(types);
    let places = values_under(fields, "location"@);
    if places.len() == 1 {
        let place = places[0];
        assert forall|i: int| 0 <= i < place.len() implies ascii_text(place)[i] == written[i] by {
            assert(written[i] == place[i] as char);
        }
        assert(ascii_text(place) =~= written);
        assert(is_visible(place) == is_one_line_of_text(place));
    }
}

/// Letters are told apart by nothing but their case.
pub proof fn law_lower_case_changes_capitals_alone(b: Seq<u8>, i: int)
    requires
        0 <= i < b.len(),
    ensures
        lowered(b).len() == b.len(),
        is_lower_of(lowered(b)[i], b[i]),
{
}

/// What becomes of a module's head, and of its body. A head or a body that was read is judged by
/// itself; one that was not is answered for the module: that its time ran out, that it could not be
/// reached, that it broke off, or that it was too long.
pub proof fn law_what_is_answered_for_a_module(
    limits: Limits,
    budget: u64,
    read: HeadRead,
    namespace: Seq<char>,
    request_path: Seq<char>,
    collected: Collected,
)
    ensures
        match read {
            HeadRead::Head { status, headers } => head_answer(
                limits,
                budget,
                read,
                namespace,
                request_path,
            ) == head_judged(namespace, request_path, status, header_fields(headers)),
            HeadRead::TimedOut => {
                let told = head_answer(limits, budget, read, namespace, request_path)->Some_0;
                &&& head_answer(limits, budget, read, namespace, request_path) is Some
                &&& told.status == 504
                &&& told.code == "upstream_timeout"@
                &&& told.message == "the module did not begin answering within "@
                    + tenths::seconds_text(budget) + "s"@
            },
            HeadRead::Failed(e) => {
                let told = head_answer(limits, budget, read, namespace, request_path)->Some_0;
                &&& head_answer(limits, budget, read, namespace, request_path) is Some
                &&& told.status == 502
                &&& told.code == "upstream_unavailable"@
                &&& told.message == "the module could not be reached: "@ + e@
            },
        },
        ({
            let answer = body_answer(limits, collected);
            let told = answer->Some_0;
            &&& answer is None <==> (collected matches Collected::Whole { body } && body@.len()
                <= 1_048_576)
            &&& match collected {
                Collected::TimedOut => {
                    &&& told.status == 504
                    &&& told.code == "upstream_timeout"@
                    &&& told.message == "the module did not finish answering within "@
                        + text::decimal((limits.total / 1_000_000_000) as nat) + "s"@
                },
                Collected::Failed(e) => {
                    &&& told.status == 502
                    &&& told.code == "upstream_unavailable"@
                    &&& told.message == "the module's response ended early: "@ + e@
                },
                _ => answer is Some ==> {
                    &&& told.status == 502
                    &&& told.code == "upstream_response_too_large"@
                    &&& told.message == "the module's response exceeded "@ + text::decimal(
                        1_048_576,
                    ) + " bytes"@
                },
            }
        }),
        timed_out_message(limits, TimedOut::ClientBody)
            == "the request body was not received within "@ + text::decimal(
            (limits.total / 1_000_000_000) as nat,
        ) + "s"@,
{
}

/// The other answers of the kernel's own.
pub proof fn law_answers_where_nothing_is_sent(capacity: usize)
    ensures
        overloaded_answer(capacity).status == 503,
        overloaded_answer(capacity).code == "module_overloaded"@,
        overloaded_answer(capacity).message == "the module already has "@ + text::decimal(
            capacity as nat,
        ) + " requests in flight"@,
        no_address_answer().status == 502,
        no_address_answer().code == "upstream_unavailable"@,
        no_address_answer().message == "the module's run has no address to send the request to"@,
        UPSTREAM_DEADLINE == 30_000_000_000 && UPSTREAM_HEAD_DEADLINE == 10_000_000_000,
        MAX_INFLIGHT_PER_MODULE == 64 && MAX_BODY_BYTES == 1_048_576 && MAX_IDLE_CONNECTIONS == 8,
        IDLE_SETTLE == 50_000_000,
        BAD_GATEWAY == 502 && SERVICE_UNAVAILABLE == 503 && GATEWAY_TIMEOUT == 504,
{
}

/// A module may take its own time to begin to answer, or what is left of the whole, whichever ends
/// first; and is told as much as that was.
pub proof fn law_a_head_is_waited_for_until_the_first_deadline(now: u64, deadline: u64, head: u64)
    ensures
        ({
            let plan = send_plan(now, deadline, head);
            let own = if now + head <= 0xffff_ffff_ffff_ffff {
                now + head
            } else {
                0xffff_ffff_ffff_ffff
            };
            &&& plan.head_deadline == (if deadline <= own {
                deadline as int
            } else {
                own
            })
            &&& plan.head_deadline >= now ==> now + plan.head_budget == plan.head_deadline
            &&& plan.head_deadline < now ==> plan.head_budget == 0
            &&& later(now, head) == own
        }),
{
}

/// A connection carries another request only where it is open, ready, and of the very generation, and
/// that was not revoked. It is kept as long as it is open and its generation was not revoked.
pub proof fn law_a_connection_serves_its_own_generation(c: ConnStatus, generation: u64)
    ensures
        is_kept(c) <==> !c.closed && !c.revoked,
        can_carry(c, generation) <==> !c.closed && !c.revoked && c.ready && c.generation
            == generation,
{
}

/// Ids are a prefix, a dash and a number.
pub proof fn law_ids_are_counted_under_their_prefix(prefix: Seq<char>, n: u64)
    ensures
        minted(prefix, n) == prefix + seq!['-'] + text::decimal(n as nat),
{
    reveal_strlit("-");
    assert("-"@ =~= seq!['-']);
}

/// A number has four bytes, the first of which counts most.
pub proof fn law_the_highest_byte_comes_first(n: u32)
    ensures
        be_bytes(n).len() == 4,
        be_bytes(n)[0] * 0x100_0000 + be_bytes(n)[1] * 0x1_0000 + be_bytes(n)[2] * 0x100
            + be_bytes(n)[3] == n,
{
}

/// What can be the value of a header: no control character but a tab.
pub proof fn law_no_control_character_is_in_a_header(b: Seq<u8>)
    ensures
        is_header_value(b) <==> forall|i: int|
            0 <= i < b.len() ==> (0x20 <= #[trigger] b[i] && b[i] != 0x7f) || b[i] == 0x09,
{
}

/// A `Connection` value can name only what is ASCII.
pub proof fn law_only_ascii_is_named(values: Seq<Seq<u8>>, name: Seq<u8>)
    requires
        nominated(values, name),
    ensures
        name.len() > 0,
        forall|i: int| 0 <= i < name.len() ==> #[trigger] name[i] < 0x80,
{
    let (i, j) = choose|i: int, j: int|
        0 <= i < values.len() && 0 <= j < text::pieces(values[i], 0x2c).len() && names(
            #[trigger] text::pieces(values[i], 0x2c)[j],
            name,
        );
    let word = trimmed(text::pieces(values[i], 0x2c)[j]);
    assert forall|k: int| 0 <= k < name.len() implies #[trigger] name[k] < 0x80 by {
        assert(word[k] < 0x80);
        assert(lowered(word)[k] == lower(word[k]));
    }
}

/// In an exchange something of the request may have left exactly once a connection was given it and
/// did not hand it back.
pub proof fn law_what_was_given_to_a_connection_may_have_left(
    events: Seq<ExchangeEvent>,
    i: int,
)
    requires
        is_exchange(events),
        0 <= i,
        i + 1 < events.len(),
    ensures
        ({
            let given = events[i] == (ExchangeEvent::Begun { idle: true }) || events[i]
                == ExchangeEvent::Allowed(true);
            may_have_left(events[i + 1]) <==> given && !(events[i + 1] is HandedBack)
        }),
        !may_have_left(events[0]),
{
    assert(comes_next(events[i], events[i + 1]));
}

} // verus!
