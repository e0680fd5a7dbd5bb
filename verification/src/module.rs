//! The module's end of the callback connection: what it was started with, how it introduces itself,
//! and the calls that it makes.
//!
//! There is one connection for each run of a module, and no other after it: once it is judged dead
//! it stays so. Waiting, reading and writing are done elsewhere; here is what they mean.
use crate::frame::{self, FrameError, IoFault};
use crate::initialize::{self, Offer};
use crate::json::{self, Json, JsonView};
use crate::launch;
use crate::manifest;
use crate::repeats;
use crate::rpc;
use crate::text;
use crate::version::VersionRange;
use vstd::prelude::*;
use vstd::string::*;

verus! {

// ---------------------------------------------------------------------------
// What a module was started with
// ---------------------------------------------------------------------------

/// What is done when a connection is judged dead.
pub struct FatalHook<F: Fn()>(pub F);

impl<F: Fn()> FatalHook<F> {
    pub fn new(f: F) -> (r: Self)
        ensures
            r.0 == f,
    {
        FatalHook(f)
    }

    /// Does it.
    pub fn fire(&self)
        requires
            call_requires(self.0, ()),
        ensures
            call_ensures(self.0, (), ()),
    {
        (self.0)();
    }
}

/// The variables that a module which starts processes of its own keeps from them.
pub const SPAWN_ENV_VARS: [&'static str; 4] = [
    launch::ENV_LISTEN_FD,
    launch::ENV_CALLBACK_SOCK,
    launch::ENV_HANDSHAKE_TOKEN,
    launch::ENV_DATA_DIR,
];

/// What is wrong with the environment.
#[derive(Debug)]
pub enum EnvError {
    /// A variable is not there, or is no text where it has to be one.
    Missing(&'static str),
}

/// What a module was started with. Where it listens is not in here.
pub struct ModuleEnv {
    data_dir: Vec<u8>,
    callback_sock: Vec<u8>,
    handshake_token: String,
}

impl ModuleEnv {
    pub closed spec fn directory(&self) -> Seq<u8> {
        self.data_dir@
    }

    pub closed spec fn socket(&self) -> Seq<u8> {
        self.callback_sock@
    }

    pub closed spec fn token(&self) -> Seq<char> {
        self.handshake_token@
    }

    /// Reads the variables: the first that is missing is named. A token that is no text counts as
    /// missing.
    pub fn from_vars(
        data_dir: Option<Vec<u8>>,
        callback_sock: Option<Vec<u8>>,
        handshake_token: Option<String>,
    ) -> (r: Result<ModuleEnv, EnvError>)
        ensures
            match (data_dir, callback_sock, handshake_token) {
                (None, _, _) => r matches Err(EnvError::Missing(n)) && n@ == launch::ENV_DATA_DIR@,
                (_, None, _) => r matches Err(EnvError::Missing(n)) && n@
                    == launch::ENV_CALLBACK_SOCK@,
                (_, _, None) => r matches Err(EnvError::Missing(n)) && n@
                    == launch::ENV_HANDSHAKE_TOKEN@,
                (Some(d), Some(c), Some(t)) => r matches Ok(env) && env.directory() == d@
                    && env.socket() == c@ && env.token() == t@,
            },
    {
        let data_dir = match data_dir {
            Some(d) => d,
            None => {
                return Err(EnvError::Missing(launch::ENV_DATA_DIR));
            },
        };
        let callback_sock = match callback_sock {
            Some(c) => c,
            None => {
                return Err(EnvError::Missing(launch::ENV_CALLBACK_SOCK));
            },
        };
        let handshake_token = match handshake_token {
            Some(t) => t,
            None => {
                return Err(EnvError::Missing(launch::ENV_HANDSHAKE_TOKEN));
            },
        };
        Ok(ModuleEnv { data_dir, callback_sock, handshake_token })
    }

    /// The module's data directory.
    pub fn data_dir(&self) -> (r: &[u8])
        ensures
            r@ == self.directory(),
    {
        self.data_dir.as_slice()
    }

    /// Where the module connects.
    pub fn callback_sock(&self) -> (r: &[u8])
        ensures
            r@ == self.socket(),
    {
        self.callback_sock.as_slice()
    }
}

// ---------------------------------------------------------------------------
// Introducing itself
// ---------------------------------------------------------------------------

/// What the module says of itself.
#[derive(Debug, Clone)]
pub struct Hello<'a> {
    pub module: &'a str,
    pub manifest_bytes: &'a [u8],
    pub capabilities: &'a [&'a str],
    pub protocol_min: u32,
    pub protocol_max: u32,
}

/// The id of the one request of a handshake.
pub const HANDSHAKE_ID: &'static str = "1";

/// A range of versions, as JSON.
pub open spec fn range_value(range: Option<VersionRange>) -> JsonView {
    match range {
        None => JsonView::Null,
        Some(range) => JsonView::Object(
            seq![
                ("min"@, JsonView::Number(text::decimal(range.low() as nat))),
                ("max"@, JsonView::Number(text::decimal(range.high() as nat))),
            ],
        ),
    }
}

/// The range that two numbers make, if they make one.
pub open spec fn declared(min: u32, max: u32) -> Option<VersionRange> {
    if min <= max {
        Some(VersionRange::from_to(min, max))
    } else {
        None
    }
}

/// The params of a handshake, as JSON.
pub open spec fn params_value(params: initialize::ParamsView) -> JsonView {
    JsonView::Object(
        seq![
            ("protocol_versions"@, range_value(params.protocol_versions)),
            ("module"@, JsonView::Text(params.module)),
            ("manifest_digest"@, JsonView::Text(params.manifest_digest)),
            ("auth_token"@, JsonView::Text(params.auth_token)),
            ("capabilities"@, initialize::texts_json(params.capabilities)),
        ],
    )
}

/// The first frame, as JSON.
pub open spec fn request_value(request: initialize::InitializeRequest) -> JsonView {
    JsonView::Object(
        seq![
            ("jsonrpc"@, JsonView::Text(request.jsonrpc@)),
            ("method"@, JsonView::Text(request.method@)),
            ("id"@, JsonView::Text(request.id@)),
            ("params"@, params_value(request.params@)),
        ],
    )
}

/// The first frame of a module that says this, as JSON.
pub open spec fn hello_value(params: initialize::ParamsView) -> JsonView {
    JsonView::Object(
        seq![
            ("jsonrpc"@, JsonView::Text("2.0"@)),
            ("method"@, JsonView::Text(initialize::INITIALIZE_METHOD@)),
            ("id"@, JsonView::Text(HANDSHAKE_ID@)),
            ("params"@, params_value(params)),
        ],
    )
}

/// What the module says, given the digest of its manifest.
pub open spec fn introduction(
    hello: Hello,
    token: Seq<char>,
    digest: Seq<char>,
) -> initialize::ParamsView {
    initialize::ParamsView {
        protocol_versions: declared(hello.protocol_min, hello.protocol_max),
        module: hello.module@,
        manifest_digest: digest,
        auth_token: token,
        capabilities: text::slices(hello.capabilities@),
    }
}

fn range_json(range: &Option<VersionRange>) -> (r: Json)
    ensures
        r.view() == range_value(*range),
{
    match range {
        None => Json::Null,
        Some(range) => {
            let mut members: Vec<(String, Json)> = Vec::new();
            members.push(
                ("min".to_owned(), Json::Number(text::decimal_string(range.min() as u64))),
            );
            members.push(
                ("max".to_owned(), Json::Number(text::decimal_string(range.max() as u64))),
            );
            proof {
                json::lemma_object_view(members);
                assert(json::members_view(members@) =~= range_value(
                    Some(*range),
                )->Object_0);
            }
            Json::Object(members)
        },
    }
}

/// The line of a first frame.
pub fn request_line(request: &initialize::InitializeRequest) -> (r: Vec<u8>)
    ensures
        r@ == rpc::text_line(json::json_text(request_value(*request))),
{
    let said = &request.params;
    let mut params: Vec<(String, Json)> = Vec::new();
    params.push(("protocol_versions".to_owned(), range_json(&said.protocol_versions)));
    params.push(("module".to_owned(), Json::Text(said.module.clone())));
    params.push(("manifest_digest".to_owned(), Json::Text(said.manifest_digest.clone())));
    params.push(("auth_token".to_owned(), Json::Text(said.auth_token.clone())));
    params.push(("capabilities".to_owned(), initialize::texts_value(&said.capabilities)));
    proof {
        json::lemma_object_view(params);
        assert(json::members_view(params@) =~= params_value(said@)->Object_0);
    }
    let mut members: Vec<(String, Json)> = Vec::new();
    members.push(("jsonrpc".to_owned(), Json::Text(request.jsonrpc.clone())));
    members.push(("method".to_owned(), Json::Text(request.method.clone())));
    members.push(("id".to_owned(), Json::Text(request.id.clone())));
    members.push(("params".to_owned(), Json::Object(params)));
    proof {
        json::lemma_object_view(members);
        assert(json::members_view(members@) =~= request_value(*request)->Object_0);
    }
    rpc::line_of(Json::Object(members).to_text().as_str())
}

/// The line by which the module introduces itself, given the digest of its manifest.
pub fn hello_line_with(hello: &Hello, env: &ModuleEnv, digest: String) -> (r: Vec<u8>)
    ensures
        r@ == rpc::text_line(
            json::json_text(hello_value(introduction(*hello, env.token(), digest@))),
        ),
{
    let request = initialize::InitializeRequest {
        jsonrpc: "2.0".to_owned(),
        method: initialize::INITIALIZE_METHOD.to_owned(),
        id: HANDSHAKE_ID.to_owned(),
        params: initialize::InitializeParams {
            protocol_versions: VersionRange::new(hello.protocol_min, hello.protocol_max),
            module: hello.module.to_owned(),
            manifest_digest: digest,
            auth_token: env.handshake_token.clone(),
            capabilities: text::own_strings(hello.capabilities),
        },
    };
    proof {
        let said = introduction(*hello, env.token(), digest@);
        assert(request.params@ == said);
        assert(request_value(request)->Object_0 =~= hello_value(said)->Object_0);
    }
    request_line(&request)
}

/// The line by which the module introduces itself.
pub fn hello_line(hello: &Hello, env: &ModuleEnv) -> (r: Vec<u8>)
    ensures
        r@ == rpc::text_line(
            json::json_text(
                hello_value(
                    introduction(
                        *hello,
                        env.token(),
                        manifest::digest_text(
                            crate::drain::sha256_of(hello.manifest_bytes@),
                        ),
                    ),
                ),
            ),
        ),
{
    let digest = manifest::manifest_digest(hello.manifest_bytes);
    hello_line_with(hello, env, digest)
}

/// The members of an object arrive in the order of their keys: a range of versions, as it is read.
spec fn range_read(range: Option<VersionRange>) -> JsonView {
    match range {
        None => JsonView::Null,
        Some(range) => JsonView::Object(
            seq![
                ("max"@, JsonView::Number(text::decimal(range.high() as nat))),
                ("min"@, JsonView::Number(text::decimal(range.low() as nat))),
            ],
        ),
    }
}

/// The params of a handshake, as they are read.
spec fn params_read(params: initialize::ParamsView) -> JsonView {
    JsonView::Object(
        seq![
            ("auth_token"@, JsonView::Text(params.auth_token)),
            ("capabilities"@, initialize::texts_json(params.capabilities)),
            ("manifest_digest"@, JsonView::Text(params.manifest_digest)),
            ("module"@, JsonView::Text(params.module)),
            ("protocol_versions"@, range_read(params.protocol_versions)),
        ],
    )
}

proof fn lemma_range_arrives(range: Option<VersionRange>, read: JsonView)
    requires
        json::reads_as(range_value(range), read),
    ensures
        read == range_read(range),
{
    if let Some(r) = range {
        let members = range_value(range)->Object_0;
        let ordered = range_read(range)->Object_0;
        reveal_strlit("min");
        reveal_strlit("max");
        assert("max"@.take(1) =~= "min"@.take(1));
        text::lemma_first_difference("max"@, "min"@, 1);
        assert(members[0] == ordered[1] && members[1] == ordered[0]);
        json::lemma_members_are_read(members, ordered, read);
        assert(read->Object_0 =~= ordered);
    }
}

proof fn lemma_param_names_in_order()
    ensures
        text::before("auth_token"@, "capabilities"@),
        text::before("capabilities"@, "manifest_digest"@),
        text::before("manifest_digest"@, "module"@),
        text::before("module"@, "protocol_versions"@),
{
    reveal_strlit("protocol_versions");
    reveal_strlit("module");
    reveal_strlit("manifest_digest");
    reveal_strlit("auth_token");
    reveal_strlit("capabilities");
    assert("auth_token"@.take(0) =~= "capabilities"@.take(0));
    assert("capabilities"@.take(0) =~= "manifest_digest"@.take(0));
    assert("manifest_digest"@.take(1) =~= "module"@.take(1));
    assert("module"@.take(0) =~= "protocol_versions"@.take(0));
    text::lemma_first_difference("auth_token"@, "capabilities"@, 0);
    text::lemma_first_difference("capabilities"@, "manifest_digest"@, 0);
    text::lemma_first_difference("manifest_digest"@, "module"@, 1);
    text::lemma_first_difference("module"@, "protocol_versions"@, 0);
}

/// Members of which each comes before the next are in order.
proof fn lemma_chain(members: Seq<(Seq<char>, JsonView)>)
    requires
        forall|i: int, j: int|
            0 <= i < members.len() && j == i + 1 && j < members.len() ==> text::before(
                (#[trigger] members[i]).0,
                (#[trigger] members[j]).0,
            ),
    ensures
        json::keys_in_order(members),
{
    assert forall|i: int, j: int| 0 <= i < j < members.len() implies text::before(
        (#[trigger] members[i]).0,
        (#[trigger] members[j]).0,
    ) by {
        lemma_chain_between(members, i, j);
    }
}

proof fn lemma_chain_between(members: Seq<(Seq<char>, JsonView)>, i: int, j: int)
    requires
        0 <= i < j < members.len(),
        forall|i: int, j: int|
            0 <= i < members.len() && j == i + 1 && j < members.len() ==> text::before(
                (#[trigger] members[i]).0,
                (#[trigger] members[j]).0,
            ),
    ensures
        text::before(members[i].0, members[j].0),
    decreases j - i,
{
    if i + 1 < j {
        lemma_chain_between(members, i, j - 1);
        text::lemma_order_transitive(members[i].0, members[j - 1].0, members[j].0);
    }
}

proof fn lemma_texts_in_order(texts: Seq<Seq<char>>)
    ensures
        json::in_order(initialize::texts_json(texts)),
{
    reveal_with_fuel(json::in_order, 2);
}

proof fn lemma_params_arrive(params: initialize::ParamsView, read: JsonView)
    requires
        json::reads_as(params_value(params), read),
    ensures
        read == params_read(params),
{
    let members = params_value(params)->Object_0;
    let ordered = params_read(params)->Object_0;
    let written = ordered.update(4, ("protocol_versions"@, range_value(params.protocol_versions)));
    lemma_param_names_in_order();
    lemma_chain(written);
    assert(members[3] == written[0]);
    assert(members[4] == written[1]);
    assert(members[2] == written[2]);
    assert(members[1] == written[3]);
    assert(members[0] == written[4]);
    json::lemma_members_are_read(members, written, read);
    let got = read->Object_0;
    lemma_texts_in_order(params.capabilities);
    json::law_values_in_order_are_read_back(written[1].1, got[1].1);
    assert(json::reads_as(written[4].1, got[4].1));
    lemma_range_arrives(params.protocol_versions, got[4].1);
    assert(got =~= ordered);
}

/// The kernel reads in an introduction what the module said in it.
pub proof fn law_an_introduction_is_understood(params: initialize::ParamsView, read: JsonView)
    requires
        params.protocol_versions matches Some(range) ==> range.low() <= range.high(),
        json::reads_as(params_value(params), read),
    ensures
        initialize::decoded(read) == Ok::<initialize::ParamsView, Seq<char>>(params),
{
    lemma_params_arrive(params, read);
    let members = params_read(params)->Object_0;
    let nothing = initialize::nothing_read();
    lemma_names_differ();
    lemma_range_is_read(params.protocol_versions);
    lemma_texts_are_read(params.capabilities, Seq::empty());
    assert(Seq::<Seq<char>>::empty() + params.capabilities =~= params.capabilities);
    let m1 = members.drop_first();
    let m2 = m1.drop_first();
    let m3 = m2.drop_first();
    let m4 = m3.drop_first();
    let m5 = m4.drop_first();
    let r1 = initialize::PartialView { auth_token: Some(params.auth_token), ..nothing };
    let r2 = initialize::PartialView { capabilities: Some(params.capabilities), ..r1 };
    let r3 = initialize::PartialView { manifest_digest: Some(params.manifest_digest), ..r2 };
    let r4 = initialize::PartialView { module: Some(params.module), ..r3 };
    let r5 = initialize::PartialView { protocol_versions: params.protocol_versions, ..r4 };
    assert(initialize::with_members(r5, m5) == Ok::<initialize::PartialView, Seq<char>>(r5));
    assert(initialize::with_members(r4, m4) == Ok::<initialize::PartialView, Seq<char>>(r5));
    assert(initialize::with_members(r3, m3) == Ok::<initialize::PartialView, Seq<char>>(r5));
    assert(initialize::with_members(r2, m2) == Ok::<initialize::PartialView, Seq<char>>(r5));
    assert(initialize::with_members(r1, m1) == Ok::<initialize::PartialView, Seq<char>>(r5));
    assert(initialize::with_members(nothing, members) == Ok::<initialize::PartialView, Seq<char>>(
        r5,
    ));
}

pub(crate) proof fn lemma_names_differ()
    ensures
        "module"@ != "protocol_versions"@,
        "manifest_digest"@ != "protocol_versions"@,
        "manifest_digest"@ != "module"@,
        "auth_token"@ != "protocol_versions"@,
        "auth_token"@ != "module"@,
        "auth_token"@ != "manifest_digest"@,
        "capabilities"@ != "protocol_versions"@,
        "capabilities"@ != "module"@,
        "capabilities"@ != "manifest_digest"@,
        "capabilities"@ != "auth_token"@,
{
    reveal_strlit("protocol_versions");
    reveal_strlit("module");
    reveal_strlit("manifest_digest");
    reveal_strlit("auth_token");
    reveal_strlit("capabilities");
    assert("protocol_versions"@.len() == 17 && "module"@.len() == 6 && "manifest_digest"@.len()
        == 15 && "auth_token"@.len() == 10 && "capabilities"@.len() == 12);
}

proof fn lemma_range_is_read(range: Option<VersionRange>)
    requires
        range matches Some(r) ==> r.low() <= r.high(),
    ensures
        initialize::range_of(range_read(range)) == Ok::<Option<VersionRange>, Seq<char>>(range),
{
    if let Some(r) = range {
        let members = range_read(range)->Object_0;
        crate::version::lemma_from_to(r);
        reveal_strlit("min");
        reveal_strlit("max");
        assert("min"@[1] == 'i' && "max"@[1] == 'a');
        text::law_decimal_is_read_back(r.low() as nat);
        text::law_decimal_is_read_back(r.high() as nat);
        let rest = members.drop_first();
        let none = rest.drop_first();
        assert(initialize::range_from(none, Some(r.low()), Some(r.high())) == Ok::<
            VersionRange,
            Seq<char>,
        >(r));
        assert(initialize::range_from(rest, None, Some(r.high())) == Ok::<VersionRange, Seq<char>>(
            r,
        ));
        assert(initialize::range_from(members, None, None) == Ok::<VersionRange, Seq<char>>(r));
    }
}

proof fn lemma_texts_are_read(texts: Seq<Seq<char>>, before: Seq<Seq<char>>)
    ensures
        initialize::texts_from(initialize::texts_json(texts)->Array_0, before) == Ok::<
            Seq<Seq<char>>,
            Seq<char>,
        >(before + texts),
    decreases texts.len(),
{
    let items = initialize::texts_json(texts)->Array_0;
    if texts.len() == 0 {
        assert(before + texts =~= before);
    } else {
        let rest = texts.drop_first();
        lemma_texts_are_read(rest, before.push(texts[0]));
        assert(initialize::texts_json(rest)->Array_0 =~= items.drop_first());
        assert(before.push(texts[0]) + rest =~= before + texts);
    }
}

// ---------------------------------------------------------------------------
// The kernel's answer to it
// ---------------------------------------------------------------------------

/// An offer, from the members left.
pub open spec fn offer_from(members: Seq<(Seq<char>, JsonView)>, provides: Option<Seq<Seq<char>>>) -> Result<
    Seq<Seq<char>>,
    Seq<char>,
>
    decreases members.len(),
{
    if members.len() == 0 {
        match provides {
            Some(list) => Ok(list),
            None => Err("missing field `provides`"@),
        }
    } else if members[0].0 == "provides"@ {
        match initialize::texts_of(members[0].1) {
            Ok(list) => offer_from(members.drop_first(), Some(list)),
            Err(e) => Err(e),
        }
    } else {
        offer_from(members.drop_first(), provides)
    }
}

/// The message for a list that ends before the field at position `n`.
pub open spec fn too_short(n: nat, expected: Seq<char>) -> Seq<char> {
    "invalid length "@ + text::decimal(n) + ", expected "@ + expected
}

/// An offer: an object whose other members mean nothing, or a list of the one field.
pub open spec fn offer_of(v: JsonView) -> Result<Seq<Seq<char>>, Seq<char>> {
    match v {
        JsonView::Object(members) => offer_from(members, None),
        JsonView::Array(items) => if items.len() == 0 {
            Err(too_short(0, "struct Offer with 1 element"@))
        } else {
            match initialize::texts_of(items[0]) {
                Err(e) => Err(e),
                Ok(list) => if items.len() > 1 {
                    Err(too_short(items.len(), "fewer elements in array"@))
                } else {
                    Ok(list)
                },
            }
        },
        _ => Err(initialize::wrong_type(v, "struct Offer"@)),
    }
}

fn length_message(n: usize, expected: &str) -> (r: String)
    ensures
        r@ == too_short(n as nat, expected@),
{
    let mut out = text::concat3(
        "invalid length ",
        text::decimal_string(n as u64).as_str(),
        ", expected ",
    );
    out.append(expected);
    out
}

fn read_offer(v: &Json) -> (r: Result<Vec<String>, String>)
    ensures
        match (r, offer_of(v.view())) {
            (Ok(a), Ok(b)) => text::views(a@) == b,
            (Err(e), Err(f)) => e@ == f,
            _ => false,
        },
{
    match v {
        Json::Object(members) => {
            let ghost all = json::members_view(members@);
            proof {
                json::lemma_object_view(*members);
                assert(all.skip(0) =~= all);
            }
            let mut provides: Option<Vec<String>> = None;
            let mut i: usize = 0;
            while i < members.len()
                invariant
                    i <= members@.len(),
                    all == json::members_view(members@),
                    v.view() == JsonView::Object(all),
                    offer_from(all, None) == offer_from(
                        all.skip(i as int),
                        repeats::path_view(provides),
                    ),
                decreases members@.len() - i,
            {
                let ghost tail = all.skip(i as int);
                assert(tail[0] == (members@[i as int].0@, members@[i as int].1.view()));
                assert(tail.drop_first() =~= all.skip(i + 1));
                if text::same(members[i].0.as_str(), "provides") {
                    match initialize::read_strings(&members[i].1) {
                        Ok(list) => {
                            provides = Some(list);
                        },
                        Err(e) => {
                            return Err(e);
                        },
                    }
                }
                i = i + 1;
            }
            match provides {
                Some(list) => Ok(list),
                None => Err("missing field `provides`".to_owned()),
            }
        },
        Json::Array(items) => {
            proof {
                json::lemma_array_view(*items);
            }
            if items.len() == 0 {
                return Err(length_message(0, "struct Offer with 1 element"));
            }
            assert(v.view()->Array_0[0] == items@[0].view());
            match initialize::read_strings(&items[0]) {
                Err(e) => Err(e),
                Ok(list) => if items.len() > 1 {
                    Err(length_message(items.len(), "fewer elements in array"))
                } else {
                    Ok(list)
                },
            }
        },
        _ => Err(initialize::wrong_type_message(v, "struct Offer")),
    }
}

/// A reply to a handshake, as mathematics.
pub struct ReplyView {
    pub protocol_version: u32,
    pub provides: Seq<Seq<char>>,
}

/// A reply to a handshake, as a module reads it: members that it does not know mean nothing, so
/// that a kernel can say more than it did.
#[derive(Debug, Clone, PartialEq, Eq)]
pub struct InitializeReply {
    pub protocol_version: u32,
    pub offer: Offer,
}

impl View for InitializeReply {
    type V = ReplyView;

    open spec fn view(&self) -> ReplyView {
        ReplyView { protocol_version: self.protocol_version, provides: self.offer@ }
    }
}

/// A reply, from the members left, after those read before.
pub open spec fn reply_from(
    members: Seq<(Seq<char>, JsonView)>,
    version: Option<u32>,
    offer: Option<Seq<Seq<char>>>,
    strict: bool,
) -> Result<ReplyView, Seq<char>>
    decreases members.len(),
{
    if members.len() == 0 {
        match (version, offer) {
            (None, _) => Err("missing field `protocol_version`"@),
            (_, None) => Err("missing field `offer`"@),
            (Some(protocol_version), Some(provides)) => Ok(
                ReplyView { protocol_version, provides },
            ),
        }
    } else if members[0].0 == "protocol_version"@ {
        match initialize::version_of(members[0].1) {
            Ok(n) => reply_from(members.drop_first(), Some(n), offer, strict),
            Err(e) => Err(e),
        }
    } else if members[0].0 == "offer"@ {
        match offer_of(members[0].1) {
            Ok(list) => reply_from(members.drop_first(), version, Some(list), strict),
            Err(e) => Err(e),
        }
    } else if strict {
        Err("unknown field `"@ + members[0].0 + "`, expected `protocol_version` or `offer`"@)
    } else {
        reply_from(members.drop_first(), version, offer, strict)
    }
}

/// What is expected where a reply stands.
pub open spec fn reply_name(strict: bool) -> Seq<char> {
    if strict {
        "struct InitializeResult"@
    } else {
        "struct InitializeReply"@
    }
}

/// A reply: an object, or a list of the two fields. Where it is read strictly, it has no other
/// members.
pub open spec fn reply_of(v: JsonView, strict: bool) -> Result<ReplyView, Seq<char>> {
    match v {
        JsonView::Object(members) => reply_from(members, None, None, strict),
        JsonView::Array(items) => if items.len() == 0 {
            Err(too_short(0, reply_name(strict) + " with 2 elements"@))
        } else {
            match initialize::version_of(items[0]) {
                Err(e) => Err(e),
                Ok(protocol_version) => if items.len() == 1 {
                    Err(too_short(1, reply_name(strict) + " with 2 elements"@))
                } else {
                    match offer_of(items[1]) {
                        Err(e) => Err(e),
                        Ok(provides) => if items.len() > 2 {
                            Err(too_short(items.len(), "fewer elements in array"@))
                        } else {
                            Ok(ReplyView { protocol_version, provides })
                        },
                    }
                },
            }
        },
        _ => Err(initialize::wrong_type(v, reply_name(strict))),
    }
}

fn name_of_reply(strict: bool) -> (r: &'static str)
    ensures
        r@ == reply_name(strict),
{
    if strict {
        "struct InitializeResult"
    } else {
        "struct InitializeReply"
    }
}

fn short_reply(n: usize, strict: bool) -> (r: String)
    ensures
        r@ == too_short(n as nat, reply_name(strict) + " with 2 elements"@),
{
    let mut expected = name_of_reply(strict).to_owned();
    expected.append(" with 2 elements");
    length_message(n, expected.as_str())
}

fn read_reply_members(members: &Vec<(String, Json)>, strict: bool) -> (r: Result<
    InitializeReply,
    String,
>)
    ensures
        match (r, reply_from(json::members_view(members@), None, None, strict)) {
            (Ok(a), Ok(b)) => a@ == b,
            (Err(e), Err(f)) => e@ == f,
            _ => false,
        },
{
    let ghost all = json::members_view(members@);
    assert(all.skip(0) =~= all);
    let mut version: Option<u32> = None;
    let mut offer: Option<Vec<String>> = None;
    let mut i: usize = 0;
    while i < members.len()
        invariant
            i <= members@.len(),
            all == json::members_view(members@),
            reply_from(all, None, None, strict) == reply_from(
                all.skip(i as int),
                version,
                repeats::path_view(offer),
                strict,
            ),
        decreases members@.len() - i,
    {
        let ghost tail = all.skip(i as int);
        assert(tail[0] == (members@[i as int].0@, members@[i as int].1.view()));
        assert(tail.drop_first() =~= all.skip(i + 1));
        let key = members[i].0.as_str();
        if text::same(key, "protocol_version") {
            match initialize::read_version(&members[i].1) {
                Ok(n) => {
                    version = Some(n);
                },
                Err(e) => {
                    return Err(e);
                },
            }
        } else if text::same(key, "offer") {
            match read_offer(&members[i].1) {
                Ok(list) => {
                    offer = Some(list);
                },
                Err(e) => {
                    return Err(e);
                },
            }
        } else if strict {
            return Err(
                text::concat3("unknown field `", key, "`, expected `protocol_version` or `offer`"),
            );
        }
        i = i + 1;
    }
    match (version, offer) {
        (None, _) => Err("missing field `protocol_version`".to_owned()),
        (_, None) => Err("missing field `offer`".to_owned()),
        (Some(protocol_version), Some(provides)) => Ok(
            InitializeReply { protocol_version, offer: Offer { provides } },
        ),
    }
}

/// Reads a reply, strictly as the kernel means it or as a module does.
pub fn read_reply(v: &Json, strict: bool) -> (r: Result<InitializeReply, String>)
    ensures
        match (r, reply_of(v.view(), strict)) {
            (Ok(a), Ok(b)) => a@ == b,
            (Err(e), Err(f)) => e@ == f,
            _ => false,
        },
{
    match v {
        Json::Object(members) => {
            proof {
                json::lemma_object_view(*members);
            }
            read_reply_members(members, strict)
        },
        Json::Array(items) => {
            proof {
                json::lemma_array_view(*items);
            }
            let ghost all = v.view()->Array_0;
            if items.len() == 0 {
                return Err(short_reply(0, strict));
            }
            assert(all[0] == items@[0].view());
            match initialize::read_version(&items[0]) {
                Err(e) => Err(e),
                Ok(protocol_version) => {
                    if items.len() == 1 {
                        return Err(short_reply(1, strict));
                    }
                    assert(all[1] == items@[1].view());
                    match read_offer(&items[1]) {
                        Err(e) => Err(e),
                        Ok(provides) => if items.len() > 2 {
                            Err(length_message(items.len(), "fewer elements in array"))
                        } else {
                            Ok(InitializeReply { protocol_version, offer: Offer { provides } })
                        },
                    }
                },
            }
        },
        _ => Err(initialize::wrong_type_message(v, name_of_reply(strict))),
    }
}

/// A module reads in the kernel's reply what the kernel said in it.
pub proof fn law_a_reply_is_understood(accepted: initialize::AcceptedView, strict: bool)
    ensures
        reply_of(accepted.response().outcome->Ok_0, strict) == Ok::<ReplyView, Seq<char>>(
            ReplyView {
                protocol_version: accepted.protocol_version,
                provides: accepted.provides,
            },
        ),
{
    let v = accepted.response().outcome->Ok_0;
    let members = v->Object_0;
    let version = accepted.protocol_version;
    let provides = accepted.provides;
    reveal_strlit("offer");
    reveal_strlit("protocol_version");
    assert("offer"@.len() == 5 && "protocol_version"@.len() == 16);
    text::law_decimal_is_read_back(version as nat);
    lemma_texts_are_read(provides, Seq::empty());
    assert(Seq::<Seq<char>>::empty() + provides =~= provides);
    let inner = members[0].1->Object_0;
    let inner_rest = inner.drop_first();
    assert(offer_from(inner_rest, Some(provides)) == Ok::<Seq<Seq<char>>, Seq<char>>(provides));
    assert(offer_from(inner, None) == Ok::<Seq<Seq<char>>, Seq<char>>(provides));
    let want = ReplyView { protocol_version: version, provides };
    let m1 = members.drop_first();
    let m2 = m1.drop_first();
    assert(reply_from(m2, Some(version), Some(provides), strict) == Ok::<ReplyView, Seq<char>>(
        want,
    ));
    assert(reply_from(m1, None, Some(provides), strict) == Ok::<ReplyView, Seq<char>>(want));
    assert(reply_from(members, None, None, strict) == Ok::<ReplyView, Seq<char>>(want));
}

/// The first frame arrives as a request whose params are those of the module.
proof fn lemma_hello_arrives(said: initialize::ParamsView, read: JsonView)
    requires
        json::reads_as(hello_value(said), read),
    ensures
        read == call_value(HANDSHAKE_ID@, initialize::INITIALIZE_METHOD@, params_read(said)),
{
    let members = hello_value(said)->Object_0;
    let ordered = call_value(
        HANDSHAKE_ID@,
        initialize::INITIALIZE_METHOD@,
        params_value(said),
    )->Object_0;
    lemma_envelope_in_order();
    lemma_chain(ordered);
    assert(members[2] == ordered[0]);
    assert(members[0] == ordered[1]);
    assert(members[1] == ordered[2]);
    assert(members[3] == ordered[3]);
    json::lemma_members_are_read(members, ordered, read);
    let got = read->Object_0;
    assert(json::reads_as(ordered[3].1, got[3].1));
    lemma_params_arrive(said, got[3].1);
    assert(got =~= call_value(
        HANDSHAKE_ID@,
        initialize::INITIALIZE_METHOD@,
        params_read(said),
    )->Object_0);
}

proof fn lemma_envelope_in_order()
    ensures
        text::before("error"@, "id"@),
        text::before("id"@, "jsonrpc"@),
        text::before("jsonrpc"@, "method"@),
        text::before("jsonrpc"@, "result"@),
        text::before("method"@, "params"@),
{
    reveal_strlit("error");
    reveal_strlit("id");
    reveal_strlit("jsonrpc");
    reveal_strlit("method");
    reveal_strlit("params");
    reveal_strlit("result");
    assert("error"@.take(0) =~= "id"@.take(0));
    assert("id"@.take(0) =~= "jsonrpc"@.take(0));
    assert("jsonrpc"@.take(0) =~= "method"@.take(0));
    assert("jsonrpc"@.take(0) =~= "result"@.take(0));
    assert("method"@.take(0) =~= "params"@.take(0));
    text::lemma_first_difference("error"@, "id"@, 0);
    text::lemma_first_difference("id"@, "jsonrpc"@, 0);
    text::lemma_first_difference("jsonrpc"@, "method"@, 0);
    text::lemma_first_difference("jsonrpc"@, "result"@, 0);
    text::lemma_first_difference("method"@, "params"@, 0);
}

/// The kernel's reply to a handshake that passed has its members in order, so that it arrives as
/// it was written.
proof fn lemma_reply_in_order(accepted: initialize::AcceptedView)
    ensures
        json::in_order(accepted.response().json()),
{
    let v = accepted.response().json();
    let result = accepted.response().outcome->Ok_0;
    lemma_envelope_in_order();
    lemma_chain(v->Object_0);
    reveal_strlit("offer");
    reveal_strlit("protocol_version");
    assert("offer"@.take(0) =~= "protocol_version"@.take(0));
    text::lemma_first_difference("offer"@, "protocol_version"@, 0);
    lemma_chain(result->Object_0);
    lemma_texts_in_order(accepted.provides);
    let provides = initialize::texts_json(accepted.provides);
    reveal_with_fuel(json::in_order, 2);
    assert(json::in_order(JsonView::Object(seq![("provides"@, provides)])));
    assert(json::in_order(result));
}

/// Whether what is known of an error is what the kernel said of it. Beside the kind, `data` holds
/// whatever else it holds.
pub open spec fn tells(info: ErrorInfoView, error: rpc::RpcErrorView) -> bool {
    let data = error.data_members();
    &&& info.code == error.code
    &&& info.message == error.message
    &&& match info.data {
        Some(d) => data.len() > 0 && json::reads_as(JsonView::Object(data), d),
        None => data.len() == 0,
    }
    &&& (error.data matches Some(others) ==> json::keys_in_order(others)) ==> (
    error.kind matches Some(kind) ==> info.kind == Some(kind.wire()))
}

/// A member of an object whose keys are in order is found where the object is read.
proof fn lemma_member_arrives(
    members: Seq<(Seq<char>, JsonView)>,
    got: Seq<(Seq<char>, JsonView)>,
    key: Seq<char>,
)
    requires
        members.len() == got.len(),
        forall|i: int|
            0 <= i < members.len() ==> (#[trigger] got[i]).0 == members[i].0 && json::reads_as(
                members[i].1,
                got[i].1,
            ),
    ensures
        match (json::member(members, key), json::member(got, key)) {
            (Some(v), Some(read)) => json::reads_as(v, read),
            (None, None) => true,
            _ => false,
        },
    decreases members.len(),
{
    if members.len() > 0 {
        assert(got[0].0 == members[0].0);
        let rest = members.drop_first();
        let got_rest = got.drop_first();
        assert forall|i: int| 0 <= i < rest.len() implies (#[trigger] got_rest[i]).0 == rest[i].0
            && json::reads_as(rest[i].1, got_rest[i].1) by {
            assert(got_rest[i] == got[i + 1]);
        }
        lemma_member_arrives(rest, got_rest, key);
    }
}

proof fn lemma_error_names_in_order()
    ensures
        text::before("code"@, "data"@),
        text::before("code"@, "message"@),
        text::before("data"@, "message"@),
        "code"@ != "data"@,
        "code"@ != "message"@,
        "data"@ != "message"@,
{
    reveal_strlit("code");
    reveal_strlit("data");
    reveal_strlit("message");
    assert("code"@.take(0) =~= "data"@.take(0));
    assert("code"@.take(0) =~= "message"@.take(0));
    assert("data"@.take(0) =~= "message"@.take(0));
    text::lemma_first_difference("code"@, "data"@, 0);
    text::lemma_first_difference("code"@, "message"@, 0);
    text::lemma_first_difference("data"@, "message"@, 0);
    text::lemma_order("code"@, "code"@);
    text::lemma_order("data"@, "data"@);
}

/// A module reads in an error of the kernel's what the kernel said in it.
pub proof fn law_an_error_is_understood(error: rpc::RpcErrorView, read: JsonView)
    requires
        json::reads_as(error.json(), read),
    ensures
        tells(error_info(read), error),
{
    let members = error.json()->Object_0;
    let data = error.data_members();
    lemma_error_names_in_order();
    lemma_chain(members);
    json::lemma_members_are_read(members, members, read);
    let got = read->Object_0;
    lemma_member_arrives(members, got, "code"@);
    lemma_member_arrives(members, got, "message"@);
    lemma_member_arrives(members, got, "data"@);
    reveal_with_fuel(json::member, 4);
    assert(members.drop_first()[0] == members[1]);
    text::law_signed_decimal_is_read_back(error.code as int);
    if data.len() > 0 {
        assert(members.drop_first().drop_first()[0] == members[2]);
        assert(json::member(members, "message"@) == Some(JsonView::Text(error.message)));
        let d = json::member(got, "data"@)->Some_0;
        assert(json::reads_as(JsonView::Object(data), d));
        if error.data matches Some(others) ==> json::keys_in_order(others) {
            if let Some(kind) = error.kind {
                let others = match error.data {
                    Some(others) => others,
                    None => Seq::empty(),
                };
                json::law_inserting_keeps_the_order(others, "kind"@, JsonView::Text(kind.wire()));
                json::law_inserted_member_is_found(
                    others,
                    "kind"@,
                    JsonView::Text(kind.wire()),
                    "kind"@,
                );
                json::lemma_members_are_read(data, data, d);
                lemma_member_arrives(data, d->Object_0, "kind"@);
            }
        }
    } else {
        assert(members.drop_first().drop_first().len() == 0);
        assert(json::member(members, "data"@) is None);
        assert(json::member(members, "message"@) == Some(JsonView::Text(error.message)));
        if let Some(kind) = error.kind {
            let others = match error.data {
                Some(others) => others,
                None => Seq::empty(),
            };
            json::law_inserted_member_is_found(
                others,
                "kind"@,
                JsonView::Text(kind.wire()),
                "kind"@,
            );
        }
    }
}

/// A response arrives with its id, and with its result or its error.
proof fn lemma_response_arrives(response: rpc::ResponseView, read: JsonView)
    requires
        json::reads_as(response.json(), read),
    ensures
        text_member_of(read, "id"@) == response.id,
        match response.outcome {
            Ok(v) => member_of(read, "error"@) is None && (member_of(read, "result"@) matches Some(
                got,
            ) && json::reads_as(v, got)),
            Err(e) => member_of(read, "error"@) matches Some(got) && json::reads_as(e.json(), got),
        },
{
    let members = response.json()->Object_0;
    lemma_envelope_in_order();
    lemma_envelope_names();
    lemma_chain(members);
    json::lemma_members_are_read(members, members, read);
    let got = read->Object_0;
    lemma_member_arrives(members, got, "id"@);
    lemma_member_arrives(members, got, "error"@);
    lemma_member_arrives(members, got, "result"@);
    reveal_with_fuel(json::member, 4);
    assert(members.drop_first()[0] == members[1]);
    assert(members.drop_first().drop_first()[0] == members[2]);
    assert(members.drop_first().drop_first().drop_first().len() == 0);
    assert(json::member(members, "id"@) == Some(rpc::id_json(response.id)));
    match response.outcome {
        Ok(v) => {
            assert(json::member(members, "error"@) is None);
            assert(json::member(members, "result"@) == Some(v));
        },
        Err(e) => {
            assert(json::member(members, "error"@) == Some(e.json()));
        },
    }
}

/// A module that is refused reads why: the code, the kind and the message that the kernel gave.
pub proof fn law_a_refusal_is_understood(
    error: initialize::HandshakeErrorView,
    message: Seq<char>,
    read: JsonView,
    min: u32,
    max: u32,
    extra: bool,
)
    requires
        json::reads_as(
            rpc::error_response(Some(HANDSHAKE_ID@), initialize::refusal(error, message)).json(),
            read,
        ),
    ensures
        reply_judged(Ok(read), min, max, extra) == Err::<Seq<Seq<char>>, ConnectErrorView>(
            ConnectErrorView::Refused {
                code: error.code() as int,
                kind: match error.kind() {
                    Some(kind) => Some(kind.wire()),
                    None => None,
                },
                message,
            },
        ),
{
    let said = initialize::refusal(error, message);
    lemma_response_arrives(rpc::error_response(Some(HANDSHAKE_ID@), said), read);
    let got = member_of(read, "error"@)->Some_0;
    law_an_error_is_understood(said, got);
    if let Some(data) = said.data {
        let module = match error {
            initialize::HandshakeErrorView::VersionMismatch(
                crate::version::VersionMismatch::NoOverlap { module, kernel },
            ) => initialize::range_json(module),
            _ => JsonView::Null,
        };
        let kernel = match error {
            initialize::HandshakeErrorView::VersionMismatch(
                crate::version::VersionMismatch::NoOverlap { module, kernel },
            ) => initialize::range_json(kernel),
            initialize::HandshakeErrorView::VersionMismatch(
                crate::version::VersionMismatch::NotDeclared { kernel },
            ) => initialize::range_json(kernel),
            _ => JsonView::Null,
        };
        json::law_inserting_keeps_the_order(Seq::empty(), "module"@, module);
        json::law_inserting_keeps_the_order(
            json::inserted(Seq::empty(), "module"@, module),
            "kernel"@,
            kernel,
        );
        assert(json::keys_in_order(data));
    }
}

/// Whether a frame is the introduction of a module that says this.
pub open spec fn introduced(frame: Seq<u8>, said: initialize::ParamsView) -> bool {
    &&& frame == json::written(hello_value(said))
    &&& said.protocol_versions matches Some(range) ==> range.low() <= range.high()
}

proof fn lemma_number_is_whole(n: nat)
    requires
        n <= u32::MAX,
    ensures
        json::is_whole(text::decimal(n)),
{
    assert(text::signed_decimal(n as int) == text::decimal(n));
}

/// None of the names that an object of this protocol can begin with is kept by the JSON crate.
proof fn lemma_first_names_are_plain()
    ensures
        "jsonrpc"@ != json::RAW_VALUE_KEY@,
        "id"@ != json::RAW_VALUE_KEY@,
        "error"@ != json::RAW_VALUE_KEY@,
        "code"@ != json::RAW_VALUE_KEY@,
        "protocol_versions"@ != json::RAW_VALUE_KEY@,
        "min"@ != json::RAW_VALUE_KEY@,
        "max"@ != json::RAW_VALUE_KEY@,
        "offer"@ != json::RAW_VALUE_KEY@,
        "provides"@ != json::RAW_VALUE_KEY@,
        "module"@ != json::RAW_VALUE_KEY@,
        "kernel"@ != json::RAW_VALUE_KEY@,
        "kind"@ != json::RAW_VALUE_KEY@,
{
    reveal_strlit("jsonrpc");
    reveal_strlit("id");
    reveal_strlit("error");
    reveal_strlit("code");
    reveal_strlit("protocol_versions");
    reveal_strlit("min");
    reveal_strlit("max");
    reveal_strlit("offer");
    reveal_strlit("provides");
    reveal_strlit("module");
    reveal_strlit("kernel");
    reveal_strlit("kind");
    json::lemma_plain_key("jsonrpc"@);
    json::lemma_plain_key("id"@);
    json::lemma_plain_key("error"@);
    json::lemma_plain_key("code"@);
    json::lemma_plain_key("protocol_versions"@);
    json::lemma_plain_key("min"@);
    json::lemma_plain_key("max"@);
    json::lemma_plain_key("offer"@);
    json::lemma_plain_key("provides"@);
    json::lemma_plain_key("module"@);
    json::lemma_plain_key("kernel"@);
    json::lemma_plain_key("kind"@);
}

/// An introduction can be read back.
pub(crate) proof fn lemma_introduction_readable(said: initialize::ParamsView)
    ensures
        json::readable(hello_value(said), json::MAX_NESTING as nat),
{
    lemma_names_differ();
    lemma_envelope_names();
    lemma_first_names_are_plain();
    reveal_with_fuel(json::readable, 4);
    if let Some(range) = said.protocol_versions {
        lemma_number_is_whole(range.low() as nat);
        lemma_number_is_whole(range.high() as nat);
        reveal_strlit("min");
        reveal_strlit("max");
        assert("min"@[1] == 'i' && "max"@[1] == 'a');
    }
    assert(json::readable(range_value(said.protocol_versions), 125));
    assert(json::readable(initialize::texts_json(said.capabilities), 125));
    assert(json::readable(params_value(said), 126));
}

/// Where the kernel judges what a module said of itself, it judges just that, whatever it is.
pub proof fn law_an_introduction_is_judged_as_it_was_said(
    said: initialize::ParamsView,
    read: JsonView,
    expect: initialize::ExpectationView,
)
    requires
        said.protocol_versions matches Some(range) ==> range.low() <= range.high(),
        json::reads_as(hello_value(said), read),
    ensures
        initialize::judged(Ok(read), None, expect) == initialize::judged_params(
            HANDSHAKE_ID@,
            said,
            expect,
        ),
{
    lemma_hello_arrives(said, read);
    assert(json::reads_as(params_value(said), params_read(said))) by {
        let members = hello_value(said)->Object_0;
        let got = read->Object_0;
        assert(members[3].0 == "params"@);
        let j = choose|j: int|
            0 <= j < got.len() && (#[trigger] got[j]).0 == members[3].0 && json::reads_as(
                members[3].1,
                got[j].1,
            );
        lemma_envelope_names();
        assert(got[j].1 == params_read(said));
    }
    law_an_introduction_is_understood(said, params_read(said));
    lemma_request_members(HANDSHAKE_ID@, initialize::INITIALIZE_METHOD@, params_read(said));
    reveal_strlit("1");
    vstd::utf8::is_ascii_chars_encode_utf8(HANDSHAKE_ID@);
    assert(text::byte_len(HANDSHAKE_ID@) == 1);
}

/// A handshake completes where the two sides agree: what the module says is accepted, and what the
/// kernel answers is too. Both then go by the same version and the same offer.
pub proof fn law_a_handshake_completes(
    said: initialize::ParamsView,
    min: u32,
    max: u32,
    expect: initialize::ExpectationView,
    read: JsonView,
    reply: JsonView,
)
    requires
        min <= max,
        said.protocol_versions == declared(min, max),
        said.module == expect.module,
        said.manifest_digest == expect.manifest_digest,
        said.auth_token == expect.auth_token,
        crate::version::settled(declared(min, max), expect.kernel_versions) is Ok,
        json::reads_as(hello_value(said), read),
        json::reads_as(accepted_as(min, max, expect).response().json(), reply),
    ensures
        initialize::judged(Ok(read), None, expect) == Ok::<
            initialize::AcceptedView,
            initialize::HandshakeErrorView,
        >(accepted_as(min, max, expect)),
        reply_judged(Ok(reply), min, max, false) == Ok::<Seq<Seq<char>>, ConnectErrorView>(
            expect.provides,
        ),
{
    let range = VersionRange::from_to(min, max);
    crate::version::lemma_ends(min, max);
    crate::version::law_the_settled_version_is_shared(range, expect.kernel_versions);
    law_an_introduction_is_judged_as_it_was_said(said, read, expect);
    lemma_welcome_is_judged(accepted_as(min, max, expect), reply, min, max);
}

/// What a handshake is accepted with, where the versions have one in common.
pub open spec fn accepted_as(
    min: u32,
    max: u32,
    expect: initialize::ExpectationView,
) -> initialize::AcceptedView {
    initialize::AcceptedView {
        id: HANDSHAKE_ID@,
        protocol_version: crate::version::settled(
            declared(min, max),
            expect.kernel_versions,
        )->Ok_0,
        provides: expect.provides,
    }
}

proof fn lemma_envelope_names()
    ensures
        "id"@.len() == 2,
        "jsonrpc"@.len() == 7,
        "method"@.len() == 6,
        "params"@.len() == 6,
        "method"@ != "params"@,
        "error"@.len() == 5,
        "result"@.len() == 6,
{
    reveal_strlit("id");
    reveal_strlit("jsonrpc");
    reveal_strlit("method");
    reveal_strlit("params");
    reveal_strlit("error");
    reveal_strlit("result");
    assert("method"@[0] == 'm' && "params"@[0] == 'p');
}

/// What is known of an error of the kernel's, as mathematics.
pub struct ErrorInfoView {
    pub code: int,
    pub kind: Option<Seq<char>>,
    pub message: Seq<char>,
    pub data: Option<JsonView>,
}

/// A member of a value, if the value is an object that has it.
pub open spec fn member_of(v: JsonView, key: Seq<char>) -> Option<JsonView> {
    match v {
        JsonView::Object(members) => json::member(members, key),
        _ => None,
    }
}

/// A member that is a text.
pub open spec fn text_member_of(v: JsonView, key: Seq<char>) -> Option<Seq<char>> {
    match member_of(v, key) {
        Some(JsonView::Text(s)) => Some(s),
        _ => None,
    }
}

fn get<'a>(v: &'a Json, key: &str) -> (r: Option<&'a Json>)
    ensures
        match r {
            Some(m) => member_of(v.view(), key@) == Some(m.view()),
            None => member_of(v.view(), key@) is None,
        },
{
    match v {
        Json::Object(members) => {
            proof {
                json::lemma_object_view(*members);
            }
            json::lookup(members, key)
        },
        _ => None,
    }
}

fn get_text(v: &Json, key: &str) -> (r: Option<String>)
    ensures
        rpc::id_view(r) == text_member_of(v.view(), key@),
{
    match get(v, key) {
        Some(Json::Text(s)) => Some(s.clone()),
        _ => None,
    }
}

/// What is known of an error of the kernel's.
pub open spec fn error_info(err: JsonView) -> ErrorInfoView {
    ErrorInfoView {
        code: match member_of(err, "code"@) {
            Some(JsonView::Number(n)) => match text::i64_value(n) {
                Some(code) => code,
                None => 0,
            },
            _ => 0,
        },
        kind: match member_of(err, "data"@) {
            Some(data) => text_member_of(data, "kind"@),
            None => None,
        },
        message: match text_member_of(err, "message"@) {
            Some(s) => s,
            None => Seq::empty(),
        },
        data: member_of(err, "data"@),
    }
}

/// An error of the kernel's.
#[derive(Debug, PartialEq)]
pub struct RpcErrorInfo {
    pub code: i64,
    pub kind: Option<String>,
    pub message: String,
    pub data: Option<Json>,
}

impl View for RpcErrorInfo {
    type V = ErrorInfoView;

    open spec fn view(&self) -> ErrorInfoView {
        ErrorInfoView {
            code: self.code as int,
            kind: rpc::id_view(self.kind),
            message: self.message@,
            data: match self.data {
                Some(data) => Some(data.view()),
                None => None,
            },
        }
    }
}

impl ErrorInfoView {
    pub open spec fn text(self) -> Seq<char> {
        match self.kind {
            Some(kind) => kind + " ("@ + text::signed_decimal(self.code) + "): "@ + self.message,
            None => "("@ + text::signed_decimal(self.code) + "): "@ + self.message,
        }
    }
}

impl RpcErrorInfo {
    /// Reads an error. Whatever is missing, or is of another type, counts as nothing.
    pub fn from_json(err: &Json) -> (r: RpcErrorInfo)
        ensures
            r@ == error_info(err.view()),
    {
        let code: i64 = match get(err, "code") {
            Some(Json::Number(n)) => match text::parse_i64(n.as_str()) {
                Some(code) => code,
                None => 0,
            },
            _ => 0,
        };
        let (kind, data) = match get(err, "data") {
            Some(data) => (get_text(data, "kind"), Some(data.copy())),
            None => (None, None),
        };
        let message = match get_text(err, "message") {
            Some(s) => s,
            None => {
                let none = String::new();
                assert(none@ =~= Seq::<char>::empty());
                none
            },
        };
        RpcErrorInfo { code, kind, message, data }
    }

    /// The error in words.
    pub fn to_text(&self) -> (r: String)
        ensures
            r@ == self@.text(),
    {
        let code = text::signed_decimal_string64(self.code);
        let mut out = match &self.kind {
            Some(kind) => text::concat3(kind.as_str(), " (", code.as_str()),
            None => {
                let mut out = "(".to_owned();
                out.append(code.as_str());
                out
            },
        };
        out.append("): ");
        out.append(self.message.as_str());
        out
    }
}

/// Why there is no connection, as mathematics.
pub enum ConnectErrorView {
    Io(Seq<char>),
    Refused { code: int, kind: Option<Seq<char>>, message: Seq<char> },
    Protocol(Seq<char>),
}

/// Why there is no connection.
#[derive(Debug)]
pub enum ConnectError {
    Io(IoFault),
    /// The kernel refused.
    Refused { code: i64, kind: Option<String>, message: String },
    /// The kernel said what it may not.
    Protocol(String),
}

impl View for ConnectError {
    type V = ConnectErrorView;

    open spec fn view(&self) -> ConnectErrorView {
        match self {
            ConnectError::Io(e) => ConnectErrorView::Io(e.text@),
            ConnectError::Refused { code, kind, message } => ConnectErrorView::Refused {
                code: *code as int,
                kind: rpc::id_view(*kind),
                message: message@,
            },
            ConnectError::Protocol(m) => ConnectErrorView::Protocol(m@),
        }
    }
}

/// An optional text, as a developer is shown it.
pub open spec fn optional_text(s: Option<Seq<char>>) -> Seq<char> {
    match s {
        Some(s) => "Some("@ + text::debug_text(s) + ")"@,
        None => "None"@,
    }
}

impl ConnectErrorView {
    pub open spec fn text(self) -> Seq<char> {
        match self {
            ConnectErrorView::Io(e) => "i/o error: "@ + e,
            ConnectErrorView::Refused { code, kind, message } => "handshake refused ("@
                + text::signed_decimal(code) + " "@ + optional_text(kind) + "): "@ + message,
            ConnectErrorView::Protocol(m) => "protocol error: "@ + m,
        }
    }
}

impl ConnectError {
    /// The failure in words.
    pub fn to_text(&self) -> (r: String)
        ensures
            r@ == self@.text(),
    {
        match self {
            ConnectError::Io(e) => {
                let mut out = "i/o error: ".to_owned();
                out.append(e.text.as_str());
                out
            },
            ConnectError::Refused { code, kind, message } => {
                let mut out = text::concat3(
                    "handshake refused (",
                    text::signed_decimal_string64(*code).as_str(),
                    " ",
                );
                match kind {
                    Some(kind) => {
                        out.append(
                            text::concat3(
                                "Some(",
                                text::debug_string(kind.as_str()).as_str(),
                                ")",
                            ).as_str(),
                        );
                    },
                    None => {
                        out.append("None");
                    },
                }
                out.append("): ");
                out.append(message.as_str());
                out
            },
            ConnectError::Protocol(m) => {
                let mut out = "protocol error: ".to_owned();
                out.append(m.as_str());
                out
            },
        }
    }
}

/// What comes of the kernel's answer to a handshake: its JSON, the versions that were declared, and
/// whether more bytes came right after it.
pub open spec fn reply_judged(
    parsed: Result<JsonView, Seq<char>>,
    min: u32,
    max: u32,
    extra: bool,
) -> Result<Seq<Seq<char>>, ConnectErrorView> {
    match parsed {
        Err(e) => Err(ConnectErrorView::Protocol(e)),
        Ok(v) => {
            let id = match text_member_of(v, "id"@) {
                Some(id) => id,
                None => Seq::empty(),
            };
            if id != HANDSHAKE_ID@ {
                Err(
                    ConnectErrorView::Protocol(
                        "handshake response id mismatch: sent "@ + HANDSHAKE_ID@ + ", got "@ + id,
                    ),
                )
            } else {
                match member_of(v, "error"@) {
                    Some(err) => {
                        let info = error_info(err);
                        Err(
                            ConnectErrorView::Refused {
                                code: info.code,
                                kind: info.kind,
                                message: info.message,
                            },
                        )
                    },
                    None => match reply_of(
                        match member_of(v, "result"@) {
                            Some(result) => result,
                            None => JsonView::Null,
                        },
                        false,
                    ) {
                        Err(e) => Err(ConnectErrorView::Protocol(e)),
                        Ok(reply) => if !(min <= reply.protocol_version <= max) {
                            Err(
                                ConnectErrorView::Protocol(
                                    outside_range(reply.protocol_version, min, max),
                                ),
                            )
                        } else if extra {
                            Err(
                                ConnectErrorView::Protocol(
                                    "kernel sent unexpected extra bytes immediately after the initialize response"@,
                                ),
                            )
                        } else {
                            Ok(reply.provides)
                        },
                    },
                }
            }
        },
    }
}

/// The message for a version that was not declared.
pub open spec fn outside_range(version: u32, min: u32, max: u32) -> Seq<char> {
    "kernel chose protocol version "@ + text::decimal(version as nat)
        + " outside of the declared range ["@ + text::decimal(min as nat) + ", "@ + text::decimal(
        max as nat,
    ) + "]"@
}

fn outside_message(version: u32, min: u32, max: u32) -> (r: String)
    ensures
        r@ == outside_range(version, min, max),
{
    let mut out = text::concat3(
        "kernel chose protocol version ",
        text::decimal_string(version as u64).as_str(),
        " outside of the declared range [",
    );
    out.append(text::decimal_string(min as u64).as_str());
    out.append(", ");
    out.append(text::decimal_string(max as u64).as_str());
    out.append("]");
    out
}

/// Judges the kernel's answer, once it was parsed.
pub fn judge_reply(parsed: Result<Json, String>, min: u32, max: u32, extra: bool) -> (r: Result<
    Offer,
    ConnectError,
>)
    ensures
        match (r, reply_judged(json::parsed_view(parsed), min, max, extra)) {
            (Ok(a), Ok(b)) => a@ == b,
            (Err(e), Err(f)) => e@ == f,
            _ => false,
        },
{
    let v = match parsed {
        Ok(v) => v,
        Err(e) => {
            return Err(ConnectError::Protocol(e));
        },
    };
    let id = match get_text(&v, "id") {
        Some(id) => id,
        None => {
            let none = String::new();
            assert(none@ =~= Seq::<char>::empty());
            none
        },
    };
    if !text::same(id.as_str(), HANDSHAKE_ID) {
        let mut message = text::concat3(
            "handshake response id mismatch: sent ",
            HANDSHAKE_ID,
            ", got ",
        );
        message.append(id.as_str());
        return Err(ConnectError::Protocol(message));
    }
    if let Some(err) = get(&v, "error") {
        let RpcErrorInfo { code, kind, message, data: _ } = RpcErrorInfo::from_json(err);
        return Err(ConnectError::Refused { code, kind, message });
    }
    let read = match get(&v, "result") {
        Some(result) => read_reply(result, false),
        None => read_reply(&Json::Null, false),
    };
    let reply = match read {
        Ok(reply) => reply,
        Err(e) => {
            return Err(ConnectError::Protocol(e));
        },
    };
    if reply.protocol_version < min || reply.protocol_version > max {
        return Err(ConnectError::Protocol(outside_message(reply.protocol_version, min, max)));
    }
    if extra {
        return Err(
            ConnectError::Protocol(
                "kernel sent unexpected extra bytes immediately after the initialize response".to_owned(),
            ),
        );
    }
    Ok(reply.offer)
}

/// Judges the line that the kernel answered a handshake with. `extra` says whether more bytes were
/// read with it.
pub fn handshake(read: Result<Vec<u8>, FrameError>, hello: &Hello, extra: bool) -> (r: Result<
    Offer,
    ConnectError,
>)
    ensures
        match read {
            Err(e) => r matches Err(c) && c@ == ConnectErrorView::Protocol(e.text()),
            Ok(line) => match (
                r,
                reply_judged(
                    json::parsed_json(line@),
                    hello.protocol_min,
                    hello.protocol_max,
                    extra,
                ),
            ) {
                (Ok(a), Ok(b)) => a@ == b,
                (Err(e), Err(f)) => e@ == f,
                _ => false,
            },
        },
        read matches Ok(line) ==> forall|accepted: initialize::AcceptedView| #[trigger]
            welcomed(line@, accepted) && hello.protocol_min <= accepted.protocol_version
                <= hello.protocol_max && !extra ==> (r matches Ok(offer) && offer@
                == accepted.provides),
        read matches Ok(line) ==> forall|error: initialize::HandshakeErrorView, message: Seq<char>|
            #[trigger]
            refused(line@, error, message) ==> (r matches Err(e) && e@ == (
            ConnectErrorView::Refused {
                code: error.code() as int,
                kind: match error.kind() {
                    Some(kind) => Some(kind.wire()),
                    None => None,
                },
                message,
            })),
{
    match read {
        Err(e) => Err(ConnectError::Protocol(e.to_text())),
        Ok(line) => {
            let parsed = json::parse(line.as_slice());
            proof {
                let got = json::parsed_json(line@)->Ok_0;
                let min = hello.protocol_min;
                let max = hello.protocol_max;
                assert forall|accepted: initialize::AcceptedView| #[trigger]
                    welcomed(line@, accepted) && min <= accepted.protocol_version <= max
                        && !extra implies reply_judged(Ok(got), min, max, extra) == Ok::<
                    Seq<Seq<char>>,
                    ConnectErrorView,
                >(accepted.provides) && json::parsed_json(line@) is Ok by {
                    lemma_reply_readable(accepted);
                    assert(json::written(accepted.response().json()) == line@);
                    lemma_welcome_is_judged(accepted, got, min, max);
                }
                assert forall|error: initialize::HandshakeErrorView, message: Seq<char>| #[trigger]
                    refused(line@, error, message) implies reply_judged(Ok(got), min, max, extra)
                    is Err && json::parsed_json(line@) is Ok && reply_judged(
                    Ok(got),
                    min,
                    max,
                    extra,
                )->Err_0 == (ConnectErrorView::Refused {
                    code: error.code() as int,
                    kind: match error.kind() {
                        Some(kind) => Some(kind.wire()),
                        None => None,
                    },
                    message,
                }) by {
                    let v = rpc::error_response(
                        Some(HANDSHAKE_ID@),
                        initialize::refusal(error, message),
                    ).json();
                    lemma_refusal_readable(error, message);
                    assert(json::written(v) == line@);
                    law_a_refusal_is_understood(error, message, got, min, max, extra);
                }
            }
            judge_reply(parsed, hello.protocol_min, hello.protocol_max, extra)
        },
    }
}

/// Whether a line, without its newline, is the kernel's answer to a handshake that passed.
pub open spec fn welcomed(line: Seq<u8>, accepted: initialize::AcceptedView) -> bool {
    &&& accepted.id == HANDSHAKE_ID@
    &&& line == json::written(accepted.response().json())
}

/// Whether a line, without its newline, is the kernel's answer to a handshake that it refused.
pub open spec fn refused(
    line: Seq<u8>,
    error: initialize::HandshakeErrorView,
    message: Seq<char>,
) -> bool {
    line == json::written(
        rpc::error_response(Some(HANDSHAKE_ID@), initialize::refusal(error, message)).json(),
    )
}

proof fn lemma_reply_readable(accepted: initialize::AcceptedView)
    ensures
        json::readable(accepted.response().json(), json::MAX_NESTING as nat),
{
    let provides = initialize::texts_json(accepted.provides);
    lemma_envelope_names();
    lemma_first_names_are_plain();
    reveal_with_fuel(json::readable, 2);
    reveal_strlit("offer");
    reveal_strlit("protocol_version");
    assert("offer"@.len() == 5 && "protocol_version"@.len() == 16);
    lemma_number_is_whole(accepted.protocol_version as nat);
    assert(json::readable(provides, 124));
    assert(json::readable(JsonView::Object(seq![("provides"@, provides)]), 125));
    assert(json::readable(accepted.response().outcome->Ok_0, 126));
}

proof fn lemma_range_readable(range: VersionRange, depth: nat)
    requires
        depth > 0,
    ensures
        json::readable(initialize::range_json(range), depth),
{
    reveal_with_fuel(json::readable, 2);
    lemma_first_names_are_plain();
    lemma_number_is_whole(range.low() as nat);
    lemma_number_is_whole(range.high() as nat);
    reveal_strlit("min");
    reveal_strlit("max");
    assert("min"@[1] == 'i' && "max"@[1] == 'a');
}

/// Members in order that can be read back, with one more that can.
proof fn lemma_inserted_readable(
    members: Seq<(Seq<char>, JsonView)>,
    key: Seq<char>,
    value: JsonView,
    depth: nat,
)
    requires
        depth > 0,
        key != json::RAW_VALUE_KEY@,
        json::keys_in_order(members),
        json::readable(JsonView::Object(members), depth),
        json::readable(value, (depth - 1) as nat),
    ensures
        json::keys_in_order(json::inserted(members, key, value)),
        json::readable(JsonView::Object(json::inserted(members, key, value)), depth),
{
    let now = json::inserted(members, key, value);
    json::law_inserting_keeps_the_order(members, key, value);
    assert(forall|k: int|
        0 <= k < members.len() ==> json::readable(
            (#[trigger] members[k]).1,
            (depth - 1) as nat,
        )) by {
        let v = JsonView::Object(members);
        assert forall|k: int| 0 <= k < members.len() implies json::readable(
            (#[trigger] members[k]).1,
            (depth - 1) as nat,
        ) by {
            assert(json::readable(v->Object_0[k].1, (depth - 1) as nat));
        }
    }
    assert forall|i: int, j: int| 0 <= i < j < now.len() implies (#[trigger] now[i]).0 != (
    #[trigger] now[j]).0 by {
        text::lemma_order(now[i].0, now[j].0);
    }
    assert forall|i: int| 0 <= i < now.len() implies json::readable(
        (#[trigger] now[i]).1,
        (depth - 1) as nat,
    ) by {
        json::lemma_inserted_keys(members, key, value, i);
        if members.contains(now[i]) {
            let j = choose|j: int| 0 <= j < members.len() && members[j] == now[i];
            assert(json::readable(members[j].1, (depth - 1) as nat));
        }
    }
}

proof fn lemma_refusal_readable(error: initialize::HandshakeErrorView, message: Seq<char>)
    ensures
        json::readable(
            rpc::error_response(
                Some(HANDSHAKE_ID@),
                initialize::refusal(error, message),
            ).json(),
            json::MAX_NESTING as nat,
        ),
{
    let said = initialize::refusal(error, message);
    let none = Seq::<(Seq<char>, JsonView)>::empty();
    lemma_first_names_are_plain();
    assert(json::readable(JsonView::Object(none), 125));
    if let initialize::HandshakeErrorView::VersionMismatch(e) = error {
        let (module, kernel) = match e {
            crate::version::VersionMismatch::NotDeclared { kernel } => (JsonView::Null, kernel),
            crate::version::VersionMismatch::NoOverlap { module, kernel } => (
                initialize::range_json(module),
                kernel,
            ),
        };
        if let crate::version::VersionMismatch::NoOverlap { module, kernel } = e {
            lemma_range_readable(module, 124);
        }
        lemma_range_readable(kernel, 124);
        lemma_inserted_readable(none, "module"@, module, 125);
        let one = json::inserted(none, "module"@, module);
        lemma_inserted_readable(one, "kernel"@, initialize::range_json(kernel), 125);
    }
    let others = match said.data {
        Some(others) => others,
        None => none,
    };
    if let Some(kind) = said.kind {
        lemma_inserted_readable(others, "kind"@, JsonView::Text(kind.wire()), 125);
    }
    assert(json::readable(JsonView::Object(said.data_members()), 125));
    lemma_error_names_in_order();
    lemma_envelope_names();
    reveal_with_fuel(json::readable, 2);
    assert(json::is_whole(text::signed_decimal(said.code as int)));
    assert(json::readable(said.json(), 126));
}

#[verifier::rlimit(40)]
proof fn lemma_welcome_is_judged(
    accepted: initialize::AcceptedView,
    reply: JsonView,
    min: u32,
    max: u32,
)
    requires
        accepted.id == HANDSHAKE_ID@,
        min <= accepted.protocol_version <= max,
        json::reads_as(accepted.response().json(), reply),
    ensures
        reply_judged(Ok(reply), min, max, false) == Ok::<Seq<Seq<char>>, ConnectErrorView>(
            accepted.provides,
        ),
{
    lemma_reply_in_order(accepted);
    json::law_values_in_order_are_read_back(accepted.response().json(), reply);
    law_a_reply_is_understood(accepted, false);
    lemma_response_arrives(accepted.response(), reply);
    lemma_envelope_names();
    reveal_with_fuel(json::member, 5);
    let answer = accepted.response().json()->Object_0;
    assert(answer.drop_first()[0] == answer[1]);
    assert(answer.drop_first().drop_first()[0] == answer[2]);
    assert(json::member(answer, "result"@) == Some(accepted.response().outcome->Ok_0));
}

/// A module never goes on with a version that it did not declare, nor with bytes lost.
pub proof fn law_only_a_declared_version_connects(
    parsed: Result<JsonView, Seq<char>>,
    min: u32,
    max: u32,
    extra: bool,
)
    requires
        reply_judged(parsed, min, max, extra) is Ok,
    ensures
        !extra,
        parsed is Ok,
        reply_of(member_of(parsed->Ok_0, "result"@)->Some_0, false) is Ok,
        min <= reply_of(member_of(parsed->Ok_0, "result"@)->Some_0, false)->Ok_0.protocol_version
            <= max,
{
}

// ---------------------------------------------------------------------------
// Calls
// ---------------------------------------------------------------------------

/// Why a call has no result, as mathematics.
pub enum CallErrorView {
    NotSent,
    ConnectionLost,
    Busy,
    FrameTooLarge,
    Timeout,
    IdCollision,
    Rpc(ErrorInfoView),
}

/// Why a call has no result.
#[derive(Debug, PartialEq)]
pub enum CallError {
    /// It never left this process.
    NotSent,
    /// What became of it is not known.
    ConnectionLost,
    /// All slots are taken.
    Busy,
    /// It would not fit a frame.
    FrameTooLarge,
    Timeout,
    /// Its id is taken.
    IdCollision,
    /// The kernel rejected it.
    Rpc(RpcErrorInfo),
}

impl View for CallError {
    type V = CallErrorView;

    open spec fn view(&self) -> CallErrorView {
        match self {
            CallError::NotSent => CallErrorView::NotSent,
            CallError::ConnectionLost => CallErrorView::ConnectionLost,
            CallError::Busy => CallErrorView::Busy,
            CallError::FrameTooLarge => CallErrorView::FrameTooLarge,
            CallError::Timeout => CallErrorView::Timeout,
            CallError::IdCollision => CallErrorView::IdCollision,
            CallError::Rpc(e) => CallErrorView::Rpc(e@),
        }
    }
}

impl CallErrorView {
    pub open spec fn text(self) -> Seq<char> {
        match self {
            CallErrorView::NotSent => {
                "callback connection is closed; the call was never sent"@
            },
            CallErrorView::ConnectionLost => {
                "callback connection was lost while this call was in flight; its outcome is unknown"@
            },
            CallErrorView::Busy => text::decimal(rpc::MAX_IN_FLIGHT_PER_CONNECTION as nat)
                + " calls already in flight on this connection"@,
            CallErrorView::FrameTooLarge => "params would serialize to more than "@
                + text::decimal(frame::MAX_FRAME_BYTES as nat) + " bytes"@,
            CallErrorView::Timeout => "no response within the fallback deadline"@,
            CallErrorView::IdCollision => {
                "internal bug: call id already in flight on this connection"@
            },
            CallErrorView::Rpc(e) => "kernel rejected the call: "@ + e.text(),
        }
    }
}

impl CallError {
    /// The failure in words.
    pub fn to_text(&self) -> (r: String)
        ensures
            r@ == self@.text(),
    {
        match self {
            CallError::NotSent => {
                "callback connection is closed; the call was never sent".to_owned()
            },
            CallError::ConnectionLost => {
                "callback connection was lost while this call was in flight; its outcome is unknown".to_owned()
            },
            CallError::Busy => {
                let mut out = text::decimal_string(rpc::MAX_IN_FLIGHT_PER_CONNECTION as u64);
                out.append(" calls already in flight on this connection");
                out
            },
            CallError::FrameTooLarge => text::concat3(
                "params would serialize to more than ",
                text::decimal_string(frame::MAX_FRAME_BYTES as u64).as_str(),
                " bytes",
            ),
            CallError::Timeout => "no response within the fallback deadline".to_owned(),
            CallError::IdCollision => {
                "internal bug: call id already in flight on this connection".to_owned()
            },
            CallError::Rpc(e) => {
                let mut out = "kernel rejected the call: ".to_owned();
                out.append(e.to_text().as_str());
                out
            },
        }
    }
}

/// How long a call waits for its answer: longer than the kernel takes to give up on it, so that
/// the kernel's own answer comes first.
pub const DEFAULT_RESPONSE_TIMEOUT: u64 = 35_000_000_000;

/// How many lines may wait to be written: a request for every slot, and as many cancels.
pub const WRITER_QUEUE_CAPACITY: usize = 136;

/// What a caller can choose.
#[derive(Debug, Clone, Copy, PartialEq, Eq, Structural)]
pub struct CallOptions {
    pub response_timeout: u64,
    /// How long to wait for a slot; nothing to fail at once.
    pub slot_wait: Option<u64>,
}

impl Default for CallOptions {
    fn default() -> (r: CallOptions)
        ensures
            r.response_timeout == DEFAULT_RESPONSE_TIMEOUT,
            r.response_timeout > rpc::CALL_TIMEOUT,
            r.slot_wait is None,
    {
        CallOptions { response_timeout: DEFAULT_RESPONSE_TIMEOUT, slot_wait: None }
    }
}

/// The id of a number.
pub open spec fn call_id(n: u64) -> Seq<char> {
    "c-"@ + text::decimal(n as nat)
}

/// A request, as JSON.
pub open spec fn call_value(id: Seq<char>, method: Seq<char>, params: JsonView) -> JsonView {
    JsonView::Object(
        seq![
            ("id"@, JsonView::Text(id)),
            ("jsonrpc"@, JsonView::Text("2.0"@)),
            ("method"@, JsonView::Text(method)),
            ("params"@, params),
        ],
    )
}

/// A notice that a call is given up, as JSON.
pub open spec fn cancel_value(id: Seq<char>) -> JsonView {
    JsonView::Object(
        seq![
            ("jsonrpc"@, JsonView::Text("2.0"@)),
            ("method"@, JsonView::Text(rpc::CANCEL_METHOD@)),
            ("params"@, JsonView::Object(seq![("id"@, JsonView::Text(id))])),
        ],
    )
}

fn cancel_line(id: &str) -> (r: Vec<u8>)
    ensures
        r@ == rpc::text_line(json::json_text(cancel_value(id@))),
{
    let mut params: Vec<(String, Json)> = Vec::new();
    params.push(("id".to_owned(), Json::Text(id.to_owned())));
    let ghost inner = json::members_view(params@);
    proof {
        json::lemma_object_view(params);
        assert(inner =~= seq![("id"@, JsonView::Text(id@))]);
    }
    let mut members: Vec<(String, Json)> = Vec::new();
    members.push(("jsonrpc".to_owned(), Json::Text("2.0".to_owned())));
    members.push(("method".to_owned(), Json::Text(rpc::CANCEL_METHOD.to_owned())));
    members.push(("params".to_owned(), Json::Object(params)));
    proof {
        json::lemma_object_view(members);
        assert(json::members_view(members@) =~= cancel_value(id@)->Object_0);
    }
    rpc::line_of(Json::Object(members).to_text().as_str())
}

/// The calls of a connection that hold a slot: their ids, and whether each still waits for its
/// answer.
pub open spec fn call_at(calls: Seq<(Seq<char>, bool)>, id: Seq<char>) -> int
    decreases calls.len(),
{
    if calls.len() == 0 || calls[0].0 == id {
        0
    } else {
        1 + call_at(calls.drop_first(), id)
    }
}

/// Whether a call holds a slot.
pub open spec fn holds_slot(calls: Seq<(Seq<char>, bool)>, id: Seq<char>) -> bool {
    call_at(calls, id) < calls.len()
}

/// Whether a call still waits for its answer.
pub open spec fn waits(calls: Seq<(Seq<char>, bool)>, id: Seq<char>) -> bool {
    holds_slot(calls, id) && calls[call_at(calls, id)].1
}

/// The calls once one has its answer.
pub open spec fn answered(calls: Seq<(Seq<char>, bool)>, id: Seq<char>) -> Seq<(Seq<char>, bool)> {
    if holds_slot(calls, id) {
        calls.update(call_at(calls, id), (id, false))
    } else {
        calls
    }
}

/// The calls once none waits any more.
pub open spec fn none_waits(calls: Seq<(Seq<char>, bool)>) -> Seq<(Seq<char>, bool)> {
    Seq::new(calls.len(), |i: int| (calls[i].0, false))
}

/// The ids of the calls that wait.
pub open spec fn waiting(calls: Seq<(Seq<char>, bool)>) -> Seq<Seq<char>>
    decreases calls.len(),
{
    if calls.len() == 0 {
        Seq::empty()
    } else if calls.last().1 {
        waiting(calls.drop_last()).push(calls.last().0)
    } else {
        waiting(calls.drop_last())
    }
}

proof fn lemma_call_at(calls: Seq<(Seq<char>, bool)>, id: Seq<char>)
    ensures
        0 <= call_at(calls, id) <= calls.len(),
        call_at(calls, id) < calls.len() ==> calls[call_at(calls, id)].0 == id,
        forall|i: int| 0 <= i < call_at(calls, id) ==> (#[trigger] calls[i]).0 != id,
    decreases calls.len(),
{
    if calls.len() > 0 && calls[0].0 != id {
        let rest = calls.drop_first();
        lemma_call_at(rest, id);
        assert forall|i: int| 0 <= i < call_at(calls, id) implies (#[trigger] calls[i]).0 != id by {
            if i > 0 {
                assert(rest[i - 1] == calls[i]);
            }
        }
    }
}

proof fn lemma_call_at_is(calls: Seq<(Seq<char>, bool)>, id: Seq<char>, n: int)
    requires
        0 <= n <= calls.len(),
        n < calls.len() ==> calls[n].0 == id,
        forall|i: int| 0 <= i < n ==> (#[trigger] calls[i]).0 != id,
    ensures
        call_at(calls, id) == n,
{
    lemma_call_at(calls, id);
    let k = call_at(calls, id);
    if k < n {
        assert(calls[k].0 != id);
    } else if n < k {
        assert(calls[n].0 != id);
    }
}

/// A connection, as mathematics.
#[verifier::ext_equal]
pub struct ConnectionView {
    pub dead: bool,
    pub calls: Seq<(Seq<char>, bool)>,
    /// Slots that were given out to calls which are not registered yet.
    pub reserved: nat,
    pub next_id: u64,
}

impl ConnectionView {
    /// The slots that are taken.
    pub open spec fn used(self) -> nat {
        self.calls.len() + self.reserved
    }

    /// No more slots are taken than there are, no id is held twice, and nothing waits on a dead
    /// connection.
    pub open spec fn wf(self) -> bool {
        &&& self.used() <= rpc::MAX_IN_FLIGHT_PER_CONNECTION
        &&& forall|i: int, j: int|
            0 <= i < j < self.calls.len() ==> (#[trigger] self.calls[i]).0 != (
            #[trigger] self.calls[j]).0
        &&& self.dead ==> self.calls == none_waits(self.calls)
    }

    /// The connection once it was judged dead.
    pub open spec fn after_death(self) -> ConnectionView {
        ConnectionView { dead: true, calls: none_waits(self.calls), ..self }
    }
}

/// What a response means to a connection.
pub enum ResponseView {
    /// The result of a call that waited for it.
    Deliver { id: Seq<char>, result: Result<JsonView, ErrorInfoView> },
    /// Nobody waits for it.
    Dropped,
}

/// What a response means.
pub open spec fn response_of(resp: JsonView, calls: Seq<(Seq<char>, bool)>) -> ResponseView {
    match text_member_of(resp, "id"@) {
        Some(id) if waits(calls, id) => ResponseView::Deliver {
            id,
            result: match member_of(resp, "error"@) {
                Some(err) => Err(error_info(err)),
                None => Ok(
                    match member_of(resp, "result"@) {
                        Some(result) => result,
                        None => JsonView::Null,
                    },
                ),
            },
        },
        _ => ResponseView::Dropped,
    }
}

/// What came of something that was read or written.
#[derive(Debug)]
pub enum Incoming {
    /// The result of a call that waited for it.
    Deliver { id: String, result: Result<Json, CallError> },
    /// Nothing to do.
    Dropped,
    /// The connection is dead. If it was not before, these are the calls that are lost, and the
    /// hook is to be fired.
    Dead { lost: Option<Vec<String>> },
}

/// What came of writing a line.
#[derive(Debug)]
pub enum LineWritten {
    Done,
    Failed(IoFault),
    TimedOut,
}

/// What came of waiting for an answer.
#[derive(Debug)]
pub enum Answer {
    Came(Result<Json, CallError>),
    /// It can no longer come.
    Gone,
    TimedOut,
}

/// The module's end of a connection past its handshake.
pub struct Connection {
    offer: Offer,
    dead: bool,
    calls: Vec<(String, bool)>,
    reserved: usize,
    next_id: u64,
}

spec fn calls_view(calls: Seq<(String, bool)>) -> Seq<(Seq<char>, bool)> {
    Seq::new(calls.len(), |i: int| (calls[i].0@, calls[i].1))
}

impl View for Connection {
    type V = ConnectionView;

    closed spec fn view(&self) -> ConnectionView {
        ConnectionView {
            dead: self.dead,
            calls: calls_view(self.calls@),
            reserved: self.reserved as nat,
            next_id: self.next_id,
        }
    }
}

impl Connection {
    pub closed spec fn offered(&self) -> Seq<Seq<char>> {
        self.offer@
    }

    pub fn new(offer: Offer) -> (r: Connection)
        ensures
            r@.wf(),
            r.offered() == offer@,
            r@ == (ConnectionView {
                dead: false,
                calls: Seq::empty(),
                reserved: 0,
                next_id: 1,
            }),
    {
        let r = Connection { offer, dead: false, calls: Vec::new(), reserved: 0, next_id: 1 };
        assert(r@.calls =~= Seq::empty());
        r
    }

    /// What the kernel answers on this connection.
    pub fn offer(&self) -> (r: &Offer)
        ensures
            r@ == self.offered(),
    {
        &self.offer
    }

    pub fn is_alive(&self) -> (r: bool)
        ensures
            r == !self@.dead,
    {
        !self.dead
    }

    /// How many slots are free.
    pub fn available_permits(&self) -> (r: usize)
        requires
            self@.wf(),
        ensures
            r == rpc::MAX_IN_FLIGHT_PER_CONNECTION - self@.used(),
    {
        rpc::MAX_IN_FLIGHT_PER_CONNECTION - self.calls.len() - self.reserved
    }

    /// A request under the next id: the id and the line. One that does not fit a frame is refused
    /// before it takes a slot.
    pub fn encode_request(&mut self, method: &str, params: Json) -> (r: Result<
        (String, Vec<u8>),
        CallError,
    >)
        requires
            old(self)@.wf(),
        ensures
            final(self)@.wf(),
            final(self).offered() == old(self).offered(),
            final(self)@ == (ConnectionView {
                next_id: if old(self)@.next_id == u64::MAX {
                    0
                } else {
                    (old(self)@.next_id + 1) as u64
                },
                ..old(self)@
            }),
            ({
                let id = call_id(old(self)@.next_id);
                let request = json::json_text(call_value(id, method@, params.view()));
                if text::byte_len(request) <= frame::MAX_FRAME_BYTES {
                    r matches Ok(sent) && sent.0@ == id && sent.1@ == rpc::text_line(request)
                } else {
                    r matches Err(e) && e@ == CallErrorView::FrameTooLarge
                }
            }),
    {
        let n: u64 = self.next_id;
        self.next_id = if n == u64::MAX {
            0
        } else {
            n + 1
        };
        let mut id = "c-".to_owned();
        id.append(text::decimal_string(n).as_str());
        let ghost asked = call_value(id@, method@, params.view());
        let mut members: Vec<(String, Json)> = Vec::new();
        members.push(("id".to_owned(), Json::Text(id.clone())));
        members.push(("jsonrpc".to_owned(), Json::Text("2.0".to_owned())));
        members.push(("method".to_owned(), Json::Text(method.to_owned())));
        members.push(("params".to_owned(), params));
        proof {
            json::lemma_object_view(members);
            assert(json::members_view(members@) =~= asked->Object_0);
            assert(calls_view(self.calls@) == old(self)@.calls);
        }
        let request = Json::Object(members).to_text();
        if request.as_str().as_bytes().len() > frame::MAX_FRAME_BYTES {
            return Err(CallError::FrameTooLarge);
        }
        let line = rpc::line_of(request.as_str());
        Ok((id, line))
    }

    /// Asks for a slot: whether there is one. If not, the caller waits, unless its wait is over. A
    /// dead connection has none to wait for.
    pub fn take_slot(&mut self, wait_over: bool) -> (r: Result<bool, CallError>)
        requires
            old(self)@.wf(),
        ensures
            final(self)@.wf(),
            final(self).offered() == old(self).offered(),
            if old(self)@.dead {
                r matches Err(e) && e@ == CallErrorView::NotSent && final(self)@ == old(self)@
            } else if old(self)@.used() < rpc::MAX_IN_FLIGHT_PER_CONNECTION {
                r == Ok::<bool, CallError>(true) && final(self)@ == (ConnectionView {
                    reserved: old(self)@.reserved + 1,
                    ..old(self)@
                })
            } else if wait_over {
                r matches Err(e) && e@ == CallErrorView::Busy && final(self)@ == old(self)@
            } else {
                r == Ok::<bool, CallError>(false) && final(self)@ == old(self)@
            },
    {
        if self.dead {
            return Err(CallError::NotSent);
        }
        if self.calls.len() + self.reserved < rpc::MAX_IN_FLIGHT_PER_CONNECTION {
            self.reserved = self.reserved + 1;
            return Ok(true);
        }
        if wait_over {
            Err(CallError::Busy)
        } else {
            Ok(false)
        }
    }

    fn find(&self, id: &str) -> (r: Option<usize>)
        ensures
            match r {
                Some(i) => i == call_at(self@.calls, id@) && i < self@.calls.len(),
                None => !holds_slot(self@.calls, id@),
            },
    {
        let ghost all = self@.calls;
        let mut i: usize = 0;
        while i < self.calls.len()
            invariant
                i <= self.calls@.len(),
                all == calls_view(self.calls@),
                all == self@.calls,
                forall|j: int| 0 <= j < i ==> (#[trigger] all[j]).0 != id@,
            decreases self.calls@.len() - i,
        {
            assert(all[i as int].0 == self.calls@[i as int].0@);
            if text::same(self.calls[i].0.as_str(), id) {
                proof {
                    lemma_call_at_is(all, id@, i as int);
                }
                return Some(i);
            }
            i = i + 1;
        }
        proof {
            lemma_call_at_is(all, id@, i as int);
        }
        None
    }

    /// Registers a call that got a slot, before its line is written. If that fails the slot is
    /// free again.
    pub fn register(&mut self, id: &str) -> (r: Result<(), CallError>)
        requires
            old(self)@.wf(),
            old(self)@.reserved > 0,
        ensures
            final(self)@.wf(),
            final(self).offered() == old(self).offered(),
            ({
                let before = ConnectionView {
                    reserved: (old(self)@.reserved - 1) as nat,
                    ..old(self)@
                };
                if old(self)@.dead {
                    r matches Err(e) && e@ == CallErrorView::NotSent && final(self)@ == before
                } else if holds_slot(old(self)@.calls, id@) {
                    r matches Err(e) && e@ == CallErrorView::IdCollision && final(self)@ == before
                } else {
                    r is Ok && final(self)@ == (ConnectionView {
                        calls: old(self)@.calls.push((id@, true)),
                        ..before
                    })
                }
            }),
    {
        self.reserved = self.reserved - 1;
        if self.dead {
            return Err(CallError::NotSent);
        }
        if self.find(id).is_some() {
            return Err(CallError::IdCollision);
        }
        let ghost before = self@.calls;
        proof {
            lemma_call_at(before, id@);
        }
        self.calls.push((id.to_owned(), true));
        assert(self@.calls =~= before.push((id@, true)));
        Ok(())
    }

    /// A call is over, however it ended: its slot is free, and if it still waited for its answer
    /// the kernel is told to stop working on it, by this line.
    pub fn end_call(&mut self, id: &str) -> (r: Option<Vec<u8>>)
        requires
            old(self)@.wf(),
            holds_slot(old(self)@.calls, id@),
        ensures
            final(self)@.wf(),
            final(self).offered() == old(self).offered(),
            final(self)@ == (ConnectionView {
                calls: old(self)@.calls.remove(call_at(old(self)@.calls, id@)),
                ..old(self)@
            }),
            match r {
                Some(line) => waits(old(self)@.calls, id@) && line@ == rpc::text_line(
                    json::json_text(cancel_value(id@)),
                ),
                None => !waits(old(self)@.calls, id@),
            },
    {
        let ghost before = self@.calls;
        let ghost raw = self.calls@;
        match self.find(id) {
            Some(i) => {
                let (_, waited) = self.calls.remove(i);
                proof {
                    assert(self.calls@ =~= raw.remove(i as int));
                    assert(self@.calls =~= before.remove(i as int));
                    assert forall|a: int, b: int| 0 <= a < b < self@.calls.len() implies (
                    #[trigger] self@.calls[a]).0 != (#[trigger] self@.calls[b]).0 by {
                        let x = if a < i {
                            a
                        } else {
                            a + 1
                        };
                        let y = if b < i {
                            b
                        } else {
                            b + 1
                        };
                        assert(before[x].0 != before[y].0);
                    }
                    if old(self)@.dead {
                        assert forall|a: int| 0 <= a < self@.calls.len() implies !(
                        #[trigger] self@.calls[a]).1 by {
                            let x = if a < i {
                                a
                            } else {
                                a + 1
                            };
                            assert(before[x] == none_waits(before)[x]);
                        }
                        assert(self@.calls =~= none_waits(self@.calls));
                    }
                }
                if waited {
                    Some(cancel_line(id))
                } else {
                    None
                }
            },
            None => None,
        }
    }

    /// Judges the connection dead. The first time, this says which calls are lost; after that it
    /// says nothing, so that what is done about it is done once.
    pub fn declare_dead(&mut self) -> (r: Option<Vec<String>>)
        requires
            old(self)@.wf(),
        ensures
            final(self)@.wf(),
            final(self).offered() == old(self).offered(),
            final(self)@ == old(self)@.after_death(),
            match r {
                Some(lost) => !old(self)@.dead && text::views(lost@) == waiting(old(self)@.calls),
                None => old(self)@.dead,
            },
    {
        let ghost before = self@.calls;
        if self.dead {
            return None;
        }
        self.dead = true;
        let mut lost: Vec<String> = Vec::new();
        assert(text::views(lost@) =~= Seq::<Seq<char>>::empty());
        assert(before.take(0) =~= Seq::<(Seq<char>, bool)>::empty());
        let ghost raw = self.calls@;
        let mut i: usize = 0;
        while i < self.calls.len()
            invariant
                i <= self.calls@.len(),
                self.calls@.len() == raw.len(),
                before == calls_view(raw),
                self.dead,
                self.offer == old(self).offer,
                self.reserved == old(self).reserved,
                self.next_id == old(self).next_id,
                forall|j: int|
                    0 <= j < raw.len() ==> (#[trigger] self.calls@[j]).0 == raw[j].0,
                forall|j: int| 0 <= j < i ==> !(#[trigger] self.calls@[j]).1,
                forall|j: int| i <= j < raw.len() ==> (#[trigger] self.calls@[j]).1 == raw[j].1,
                text::views(lost@) == waiting(before.take(i as int)),
            decreases self.calls@.len() - i,
        {
            let ghost next = before.take(i + 1);
            let ghost told = text::views(lost@);
            assert(next.drop_last() =~= before.take(i as int));
            assert(next.last() == (raw[i as int].0@, raw[i as int].1));
            assert(self.calls@[i as int].1 == raw[i as int].1);
            if self.calls[i].1 {
                let id = self.calls[i].0.clone();
                lost.push(id);
                assert(text::views(lost@) =~= told.push(raw[i as int].0@));
                self.calls[i].1 = false;
            }
            i = i + 1;
        }
        assert(before.take(before.len() as int) =~= before);
        assert(self@.calls =~= none_waits(before));
        assert(none_waits(none_waits(before)) =~= none_waits(before));
        Some(lost)
    }

    /// A response came.
    pub fn dispatch_response(&mut self, resp: &Json) -> (r: Incoming)
        requires
            old(self)@.wf(),
        ensures
            final(self)@.wf(),
            final(self).offered() == old(self).offered(),
            match response_of(resp.view(), old(self)@.calls) {
                ResponseView::Dropped => r is Dropped && final(self)@ == old(self)@,
                ResponseView::Deliver { id, result } => {
                    &&& r matches Incoming::Deliver { id: i, result: got }
                    &&& i@ == id
                    &&& match (got, result) {
                        (Ok(a), Ok(b)) => a.view() == b,
                        (Err(e), Err(f)) => e@ == CallErrorView::Rpc(f),
                        _ => false,
                    }
                    &&& final(self)@ == (ConnectionView {
                        calls: answered(old(self)@.calls, id),
                        ..old(self)@
                    })
                },
            },
    {
        let id = match get_text(resp, "id") {
            Some(id) => id,
            None => {
                return Incoming::Dropped;
            },
        };
        let i: usize = match self.find(id.as_str()) {
            Some(i) => i,
            None => {
                return Incoming::Dropped;
            },
        };
        let ghost before = self@.calls;
        assert(before[i as int] == (self.calls@[i as int].0@, self.calls@[i as int].1));
        if !self.calls[i].1 {
            return Incoming::Dropped;
        }
        proof {
            lemma_call_at(before, id@);
            if self@.dead {
                assert(before[i as int] == none_waits(before)[i as int]);
            }
        }
        self.calls[i].1 = false;
        proof {
            assert(self@.calls =~= before.update(i as int, (id@, false)));
            assert forall|a: int, b: int| 0 <= a < b < self@.calls.len() implies (
            #[trigger] self@.calls[a]).0 != (#[trigger] self@.calls[b]).0 by {
                assert(before[a].0 != before[b].0);
            }
        }
        let result = match get(resp, "error") {
            Some(err) => Err(CallError::Rpc(RpcErrorInfo::from_json(err))),
            None => match get(resp, "result") {
                Some(result) => Ok(result.copy()),
                None => Ok(Json::Null),
            },
        };
        Incoming::Deliver { id, result }
    }

    /// A line was read and parsed, or could not be parsed.
    pub fn on_parsed(&mut self, parsed: Result<Json, String>) -> (r: Incoming)
        requires
            old(self)@.wf(),
        ensures
            final(self)@.wf(),
            final(self).offered() == old(self).offered(),
            came_to(old(self)@, json::parsed_view(parsed), final(self)@, r),
    {
        match parsed {
            Ok(resp) => self.dispatch_response(&resp),
            Err(_) => Incoming::Dead { lost: self.declare_dead() },
        }
    }

    /// A line was read, or could not be read.
    pub fn on_read(&mut self, read: Result<Vec<u8>, FrameError>) -> (r: Incoming)
        requires
            old(self)@.wf(),
        ensures
            final(self)@.wf(),
            final(self).offered() == old(self).offered(),
            match read {
                Ok(line) => came_to(
                    old(self)@,
                    json::parsed_json(line@),
                    final(self)@,
                    r,
                ),
                Err(_) => died(old(self)@, final(self)@, r),
            },
            read matches Ok(line) ==> forall|response: rpc::ResponseView| #[trigger]
                repeats::is_written(line@, response.json()) ==> delivered(
                    response,
                    old(self)@.calls,
                    r,
                ),
    {
        match read {
            Ok(line) => {
                let parsed = json::parse(line.as_slice());
                proof {
                    assert forall|response: rpc::ResponseView| #[trigger]
                        repeats::is_written(line@, response.json()) implies json::parsed_json(line@)
                        is Ok && json::reads_as(
                        response.json(),
                        json::parsed_json(line@)->Ok_0,
                    ) by {
                        assert(json::written(response.json()) == line@);
                    }
                }
                let ghost calls = self@.calls;
                let r = self.on_parsed(parsed);
                proof {
                    let read = json::parsed_json(line@)->Ok_0;
                    assert forall|response: rpc::ResponseView| #[trigger]
                        repeats::is_written(line@, response.json()) implies delivered(
                        response,
                        calls,
                        r,
                    ) by {
                        lemma_response_arrives(response, read);
                        if let Err(e) = response.outcome {
                            law_an_error_is_understood(e, member_of(read, "error"@)->Some_0);
                        }
                    }
                }
                r
            },
            Err(_) => Incoming::Dead { lost: self.declare_dead() },
        }
    }

    /// A line was written, or could not be written in time.
    pub fn on_written(&mut self, written: LineWritten) -> (r: Incoming)
        requires
            old(self)@.wf(),
        ensures
            final(self)@.wf(),
            final(self).offered() == old(self).offered(),
            match written {
                LineWritten::Done => r is Dropped && final(self)@ == old(self)@,
                _ => died(old(self)@, final(self)@, r),
            },
    {
        match written {
            LineWritten::Done => Incoming::Dropped,
            _ => Incoming::Dead { lost: self.declare_dead() },
        }
    }
}

/// What a response of the kernel's comes to: the call that waits for it has its result or its
/// error, and no other call has anything.
pub open spec fn delivered(
    response: rpc::ResponseView,
    calls: Seq<(Seq<char>, bool)>,
    r: Incoming,
) -> bool {
    match response.id {
        Some(id) if waits(calls, id) => {
            &&& r matches Incoming::Deliver { id: to, result: got }
            &&& to@ == id
            &&& match (got, response.outcome) {
                (Ok(a), Ok(b)) => json::reads_as(b, a.view()),
                (Err(e), Err(f)) => e@ matches CallErrorView::Rpc(info) && tells(info, f),
                _ => false,
            }
        },
        _ => r is Dropped,
    }
}

/// The connection was judged dead.
pub open spec fn died(before: ConnectionView, after: ConnectionView, r: Incoming) -> bool {
    &&& after == before.after_death()
    &&& r matches Incoming::Dead { lost }
    &&& match lost {
        Some(lost) => !before.dead && text::views(lost@) == waiting(before.calls),
        None => before.dead,
    }
}

/// What a line came to, once it was parsed.
pub open spec fn came_to(
    before: ConnectionView,
    parsed: Result<JsonView, Seq<char>>,
    after: ConnectionView,
    r: Incoming,
) -> bool {
    match parsed {
        Err(_) => died(before, after, r),
        Ok(resp) => match response_of(resp, before.calls) {
            ResponseView::Dropped => r is Dropped && after == before,
            ResponseView::Deliver { id, result } => {
                &&& r matches Incoming::Deliver { id: i, result: got }
                &&& i@ == id
                &&& match (got, result) {
                    (Ok(a), Ok(b)) => a.view() == b,
                    (Err(e), Err(f)) => e@ == CallErrorView::Rpc(f),
                    _ => false,
                }
                &&& after == (ConnectionView { calls: answered(before.calls, id), ..before })
            },
        },
    }
}

/// What a call comes to.
pub fn call_outcome(answer: Answer) -> (r: Result<Json, CallError>)
    ensures
        match answer {
            Answer::Came(result) => r == result,
            Answer::Gone => r matches Err(e) && e@ == CallErrorView::ConnectionLost,
            Answer::TimedOut => r matches Err(e) && e@ == CallErrorView::Timeout,
        },
{
    match answer {
        Answer::Came(result) => result,
        Answer::Gone => Err(CallError::ConnectionLost),
        Answer::TimedOut => Err(CallError::Timeout),
    }
}

// ---------------------------------------------------------------------------
// What holds of calls
// ---------------------------------------------------------------------------

/// Calls of different numbers have different ids.
pub proof fn law_call_ids_are_distinct(a: u64, b: u64)
    requires
        call_id(a) == call_id(b),
    ensures
        a == b,
{
    let k = "c-"@.len() as int;
    assert(call_id(a).skip(k) =~= text::decimal(a as nat));
    assert(call_id(b).skip(k) =~= text::decimal(b as nat));
    text::law_decimal_is_injective(a as nat, b as nat);
}

/// A call is answered once: a second response to it is dropped.
pub proof fn law_a_call_is_answered_once(
    resp: JsonView,
    again: JsonView,
    calls: Seq<(Seq<char>, bool)>,
)
    requires
        response_of(resp, calls) is Deliver,
        text_member_of(again, "id"@) == text_member_of(resp, "id"@),
    ensures
        response_of(
            again,
            answered(calls, text_member_of(resp, "id"@)->Some_0),
        ) == ResponseView::Dropped,
{
    let id = text_member_of(resp, "id"@)->Some_0;
    lemma_call_at(calls, id);
    let k = call_at(calls, id);
    let then = answered(calls, id);
    assert forall|i: int| 0 <= i < k implies (#[trigger] then[i]).0 != id by {
        assert(calls[i].0 != id);
    }
    lemma_call_at_is(then, id, k);
}

/// An answer to one call leaves every other waiting as it was.
pub proof fn law_an_answer_reaches_one_call(
    calls: Seq<(Seq<char>, bool)>,
    id: Seq<char>,
    other: Seq<char>,
)
    requires
        other != id,
    ensures
        waits(answered(calls, id), other) == waits(calls, other),
{
    lemma_call_at(calls, id);
    lemma_call_at(calls, other);
    let then = answered(calls, id);
    let k = call_at(calls, other);
    assert forall|i: int| 0 <= i < k implies (#[trigger] then[i]).0 != other by {
        assert(calls[i].0 != other);
    }
    lemma_call_at_is(then, other, k);
}

/// On a dead connection no response is delivered, and dying again changes nothing.
pub proof fn law_a_dead_connection_stays_dead(c: ConnectionView, resp: JsonView)
    requires
        c.wf(),
        c.dead,
    ensures
        response_of(resp, c.calls) is Dropped,
        c.after_death() == c,
{
    if let Some(id) = text_member_of(resp, "id"@) {
        lemma_call_at(c.calls, id);
        if holds_slot(c.calls, id) {
            assert(c.calls[call_at(c.calls, id)] == none_waits(c.calls)[call_at(c.calls, id)]);
        }
    }
    assert(c.after_death() =~= c);
}

/// When a connection dies, every call that waited is told so, and no other; after that none waits.
pub proof fn law_death_reaches_every_waiting_call(calls: Seq<(Seq<char>, bool)>)
    ensures
        forall|id: Seq<char>| #[trigger]
            waiting(calls).contains(id) == calls.contains((id, true)),
        waiting(none_waits(calls)) == Seq::<Seq<char>>::empty(),
    decreases calls.len(),
{
    lemma_none_waiting(none_waits(calls));
    if calls.len() > 0 {
        let before = calls.drop_last();
        law_death_reaches_every_waiting_call(before);
        assert forall|id: Seq<char>| #[trigger]
            waiting(calls).contains(id) == calls.contains((id, true)) by {
            if before.contains((id, true)) {
                let i = choose|i: int| 0 <= i < before.len() && before[i] == (id, true);
                assert(calls[i] == (id, true));
            }
            if calls.contains((id, true)) && calls.last() != (id, true) {
                let i = choose|i: int| 0 <= i < calls.len() && calls[i] == (id, true);
                assert(before[i] == (id, true));
            }
            if waiting(before).contains(id) {
                let k = choose|k: int| 0 <= k < waiting(before).len() && waiting(before)[k] == id;
                assert(waiting(calls)[k] == id);
            }
            if calls.last() == (id, true) {
                assert(waiting(calls)[waiting(before).len() as int] == id);
            }
            if waiting(calls).contains(id) && !waiting(before).contains(id) {
                let k = choose|k: int| 0 <= k < waiting(calls).len() && waiting(calls)[k] == id;
                if k < waiting(before).len() {
                    assert(waiting(before)[k] == id);
                }
                assert(calls[calls.len() - 1] == (id, true));
            }
        }
    }
}

proof fn lemma_none_waiting(calls: Seq<(Seq<char>, bool)>)
    requires
        forall|i: int| 0 <= i < calls.len() ==> !(#[trigger] calls[i]).1,
    ensures
        waiting(calls) == Seq::<Seq<char>>::empty(),
    decreases calls.len(),
{
    if calls.len() > 0 {
        lemma_none_waiting(calls.drop_last());
    }
}

proof fn lemma_request_members(id: Seq<char>, method: Seq<char>, params: JsonView)
    ensures
        ({
            let members = call_value(id, method, params)->Object_0;
            &&& json::member(members, "id"@) == Some(JsonView::Text(id))
            &&& json::member(members, "jsonrpc"@) == Some(JsonView::Text("2.0"@))
            &&& json::member(members, "method"@) == Some(JsonView::Text(method))
            &&& json::member(members, "params"@) == Some(params)
            &&& rpc::unknown_member(members) is None
        }),
{
    let members = call_value(id, method, params)->Object_0;
    lemma_envelope_names();
    reveal_with_fuel(json::member, 5);
    reveal_with_fuel(rpc::unknown_member, 6);
    assert(members.drop_first().drop_first().drop_first()[0] == members[3]);
    assert(members.drop_first().drop_first()[0] == members[2]);
    assert(members.drop_first()[0] == members[1]);
    assert(members.drop_first().drop_first().drop_first().drop_first().len() == 0);
}

/// A request arrives as it was written, its params as they are read.
#[verifier::rlimit(40)]
pub(crate) proof fn lemma_request_arrives(
    id: Seq<char>,
    method: Seq<char>,
    params: JsonView,
    read: JsonView,
)
    requires
        json::reads_as(call_value(id, method, params), read),
    ensures
        read is Object,
        read == call_value(id, method, read->Object_0[3].1),
        json::reads_as(params, read->Object_0[3].1),
{
    let members = call_value(id, method, params)->Object_0;
    lemma_envelope_in_order();
    lemma_chain(members);
    json::lemma_members_are_read(members, members, read);
    let got = read->Object_0;
    assert(got[0] == members[0]) by {
        assert(json::reads_as(JsonView::Text(id), got[0].1));
    }
    assert(got[1] == members[1]) by {
        assert(json::reads_as(JsonView::Text("2.0"@), got[1].1));
    }
    assert(got[2] == members[2]) by {
        assert(json::reads_as(JsonView::Text(method), got[2].1));
    }
    assert(got[3].0 == members[3].0);
    assert(json::reads_as(params, got[3].1));
    assert(got =~= call_value(id, method, got[3].1)->Object_0);
}

/// A notice that a call is given up can be read back, and arrives as it was written.
pub(crate) proof fn lemma_cancel_arrives(id: Seq<char>)
    ensures
        json::readable(cancel_value(id), json::MAX_NESTING as nat),
        forall|read: JsonView| #[trigger]
            json::reads_as(cancel_value(id), read) ==> read == cancel_value(id),
{
    let v = cancel_value(id);
    let params = JsonView::Object(seq![("id"@, JsonView::Text(id))]);
    lemma_envelope_names();
    lemma_first_names_are_plain();
    lemma_envelope_in_order();
    assert(json::readable(params, 126)) by {
        reveal_with_fuel(json::readable, 2);
    }
    assert(json::readable(v, 127)) by {
        reveal_with_fuel(json::readable, 2);
    }
    lemma_chain(v->Object_0);
    assert(json::in_order(params)) by {
        reveal_with_fuel(json::in_order, 2);
    }
    assert(json::in_order(v)) by {
        reveal_with_fuel(json::in_order, 2);
    }
    assert forall|read: JsonView| #[trigger] json::reads_as(v, read) implies read == v by {
        json::law_values_in_order_are_read_back(v, read);
    }
}

/// The kernel understands a request of a module's: if the method is served, its id is usable and
/// not in flight, and nothing in it is repeated, it comes to a check of the very params that were
/// handed over.
pub proof fn law_a_request_is_understood(
    id: Seq<char>,
    method: Seq<char>,
    params: Seq<(Seq<char>, JsonView)>,
    names: Seq<Seq<char>>,
    in_flight: Set<Seq<char>>,
)
    requires
        text::byte_len(id) <= rpc::MAX_ID_BYTES,
        !in_flight.contains(id),
        method != rpc::INITIALIZE_METHOD@,
        method != rpc::CANCEL_METHOD@,
        rpc::position(names, method) is Some,
    ensures
        rpc::classified(
            Ok(call_value(id, method, JsonView::Object(params))),
            None,
            names,
            in_flight,
        ) == (rpc::StepView::Check {
            id,
            params: JsonView::Object(params),
            handler: rpc::position(names, method)->Some_0,
        }),
{
    lemma_request_members(id, method, JsonView::Object(params));
}

/// The kernel understands a module's notice that it gives a call up.
pub proof fn law_a_cancel_is_understood(
    id: Seq<char>,
    names: Seq<Seq<char>>,
    in_flight: Set<Seq<char>>,
)
    ensures
        rpc::classified(Ok(cancel_value(id)), None, names, in_flight) == rpc::StepView::Settled(
            rpc::DispatchView::Cancel { id },
        ),
{
    let members = cancel_value(id)->Object_0;
    let params = seq![("id"@, JsonView::Text(id))];
    lemma_envelope_names();
    reveal_with_fuel(json::member, 4);
    reveal_with_fuel(rpc::unknown_member, 5);
    assert(members.drop_first().drop_first()[0] == members[2]);
    assert(members.drop_first()[0] == members[1]);
    assert(members.drop_first().drop_first().drop_first().len() == 0);
    assert(json::member(params, "id"@) == Some(JsonView::Text(id)));
    json::lemma_member(members, "id"@);
}

// ---------------------------------------------------------------------------
// What a module says and is told
// ---------------------------------------------------------------------------

/// Whether no two calls have one id.
pub open spec fn ids_differ(calls: Seq<(Seq<char>, bool)>) -> bool {
    forall|i: int, j: int|
        0 <= i < j < calls.len() ==> (#[trigger] calls[i]).0 != (#[trigger] calls[j]).0
}

proof fn lemma_call_is_at(calls: Seq<(Seq<char>, bool)>, id: Seq<char>)
    ensures
        0 <= call_at(calls, id) <= calls.len(),
        holds_slot(calls, id) ==> calls[call_at(calls, id)].0 == id,
        !holds_slot(calls, id) ==> forall|i: int|
            0 <= i < calls.len() ==> (#[trigger] calls[i]).0 != id,
    decreases calls.len(),
{
    if calls.len() > 0 && calls[0].0 != id {
        let rest = calls.drop_first();
        lemma_call_is_at(rest, id);
        if !holds_slot(calls, id) {
            assert forall|i: int| 0 <= i < calls.len() implies (#[trigger] calls[i]).0 != id by {
                if i > 0 {
                    assert(rest[i - 1] == calls[i]);
                }
            }
        }
    }
}

/// A call holds a slot from its registration to its end, and waits until it is answered.
pub proof fn law_a_call_is_found_by_its_id(calls: Seq<(Seq<char>, bool)>, id: Seq<char>)
    requires
        ids_differ(calls),
    ensures
        holds_slot(calls, id) <==> calls.contains((id, true)) || calls.contains((id, false)),
        waits(calls, id) <==> calls.contains((id, true)),
        holds_slot(calls, id) ==> calls[call_at(calls, id)].0 == id,
{
    lemma_call_is_at(calls, id);
    let at = call_at(calls, id);
    if holds_slot(calls, id) {
        assert(calls.contains(calls[at]));
        assert(calls[at] == (id, calls[at].1));
    }
    if calls.contains((id, true)) {
        let i = choose|i: int| 0 <= i < calls.len() && calls[i] == (id, true);
        assert(calls[i].0 == id);
        if i < at {
            assert(calls[i].0 != calls[at].0);
        } else if at < i {
            assert(calls[at].0 != calls[i].0);
        }
    }
    if calls.contains((id, false)) {
        let i = choose|i: int| 0 <= i < calls.len() && calls[i] == (id, false);
        assert(calls[i].0 == id);
    }
}

/// A response is handed to a caller exactly if it is an object whose id is that of a call which waits.
/// The caller gets what the response says: its error, where it has one, and else its result.
pub proof fn law_a_response_reaches_its_caller(resp: JsonView, calls: Seq<(Seq<char>, bool)>)
    requires
        ids_differ(calls),
    ensures
        response_of(resp, calls) is Deliver <==> {
            &&& resp is Object
            &&& json::member(resp->Object_0, "id"@) matches Some(JsonView::Text(id))
                && calls.contains((id, true))
        },
        response_of(resp, calls) matches ResponseView::Deliver { id, result } ==> {
            &&& json::member(resp->Object_0, "id"@) == Some(JsonView::Text(id))
            &&& match json::member(resp->Object_0, "error"@) {
                Some(e) => result == Err::<JsonView, ErrorInfoView>(error_info(e)),
                None => result == Ok::<JsonView, ErrorInfoView>(
                    match json::member(resp->Object_0, "result"@) {
                        Some(v) => v,
                        None => JsonView::Null,
                    },
                ),
            }
        },
{
    if let JsonView::Object(members) = resp {
        if let Some(JsonView::Text(id)) = json::member(members, "id"@) {
            law_a_call_is_found_by_its_id(calls, id);
        }
    }
}

/// What a line from the kernel does: it is handed to its caller, who waits no more; or nobody waited
/// for it, and nothing changes; or it is no JSON, and the connection is dead, once.
pub proof fn law_a_line_answers_or_ends(
    before: ConnectionView,
    parsed: Result<JsonView, Seq<char>>,
    after: ConnectionView,
    r: Incoming,
)
    requires
        before.wf(),
        came_to(before, parsed, after, r),
    ensures
        r is Dead <==> parsed is Err,
        r is Deliver <==> {
            &&& parsed matches Ok(JsonView::Object(members)) && json::member(
                members,
                "id"@,
            ) matches Some(JsonView::Text(id)) && before.calls.contains((id, true))
        },
        after.dead <==> before.dead || r is Dead,
        after.reserved == before.reserved,
        after.next_id == before.next_id,
        after.calls.len() == before.calls.len(),
        forall|i: int|
            0 <= i < before.calls.len() ==> (#[trigger] after.calls[i]).0 == before.calls[i].0,
        forall|i: int|
            0 <= i < before.calls.len() ==> (#[trigger] after.calls[i]).1 == (before.calls[i].1
                && !(r is Dead) && !(r matches Incoming::Deliver { id, result }
                && id@ == before.calls[i].0)),
        r matches Incoming::Deliver { id, result } ==> {
            let members = parsed->Ok_0->Object_0;
            &&& json::member(members, "id"@) == Some(JsonView::Text(id@))
            &&& match json::member(members, "error"@) {
                Some(e) => result matches Err(told) && told@ == CallErrorView::Rpc(error_info(e)),
                None => result matches Ok(v) && v.view() == (match json::member(
                    members,
                    "result"@,
                ) {
                    Some(v) => v,
                    None => JsonView::Null,
                }),
            }
        },
{
    if let Ok(resp) = parsed {
        law_a_response_reaches_its_caller(resp, before.calls);
        if let ResponseView::Deliver { id, result } = response_of(resp, before.calls) {
            law_a_call_is_found_by_its_id(before.calls, id);
            let at = call_at(before.calls, id);
            lemma_call_is_at(before.calls, id);
            assert forall|i: int| 0 <= i < before.calls.len() implies (
            #[trigger] after.calls[i]).1 == (before.calls[i].1 && id != before.calls[i].0) by {
                if i < at {
                    assert(before.calls[i].0 != before.calls[at].0);
                } else if at < i {
                    assert(before.calls[at].0 != before.calls[i].0);
                }
            }
        } else if before.dead {
            assert forall|i: int| 0 <= i < before.calls.len() implies !(
            #[trigger] before.calls[i]).1 by {
                assert(none_waits(before.calls)[i].1 == false);
            }
        }
    }
}

/// A connection that dies says which calls it loses: each one that waited, and none if it was dead
/// already. The slots stay with the calls until these end.
pub proof fn law_a_death_loses_what_waited(
    before: ConnectionView,
    after: ConnectionView,
    r: Incoming,
)
    requires
        before.wf(),
        died(before, after, r),
    ensures
        after.dead,
        r is Dead,
        r->lost is Some <==> !before.dead,
        r->lost matches Some(lost) ==> forall|id: Seq<char>|
            #[trigger] text::views(lost@).contains(id) <==> before.calls.contains((id, true)),
        forall|id: Seq<char>| !#[trigger] waits(after.calls, id),
        forall|id: Seq<char>| #[trigger]
            holds_slot(after.calls, id) <==> holds_slot(before.calls, id),
        after.used() == before.used(),
        after.next_id == before.next_id,
{
    law_death_reaches_every_waiting_call(before.calls);
    assert forall|id: Seq<char>| !#[trigger] waits(after.calls, id) by {
        lemma_call_is_at(after.calls, id);
    }
    assert forall|id: Seq<char>| #[trigger]
        holds_slot(after.calls, id) <==> holds_slot(before.calls, id) by {
        lemma_call_is_at(after.calls, id);
        lemma_call_is_at(before.calls, id);
        if holds_slot(after.calls, id) {
            let i = call_at(after.calls, id);
            assert(after.calls[i].0 == before.calls[i].0);
        }
        if holds_slot(before.calls, id) {
            let i = call_at(before.calls, id);
            assert(after.calls[i].0 == before.calls[i].0);
        }
    }
}

/// A connection has 64 slots, and no more than that are ever taken.
pub proof fn law_slots_are_counted(c: ConnectionView)
    requires
        c.wf(),
    ensures
        c.used() == c.calls.len() + c.reserved,
        c.used() <= 64,
        ids_differ(c.calls),
        c.dead ==> forall|i: int| 0 <= i < c.calls.len() ==> !(#[trigger] c.calls[i]).1,
{
    if c.dead {
        assert forall|i: int| 0 <= i < c.calls.len() implies !(#[trigger] c.calls[i]).1 by {
            assert(none_waits(c.calls)[i].1 == false);
        }
    }
}

/// What is known of an error: its code, or zero where it has none that fits; its message, or nothing;
/// and its data, with the kind in it.
pub proof fn law_an_error_is_read_member_by_member(members: Seq<(Seq<char>, JsonView)>)
    ensures
        ({
            let info = error_info(JsonView::Object(members));
            let data = json::member(members, "data"@);
            &&& forall|code: int|
                -0x8000_0000_0000_0000 <= code < 0x8000_0000_0000_0000 && json::member(
                    members,
                    "code"@,
                ) == Some(JsonView::Number(#[trigger] text::signed_decimal(code))) ==> info.code
                    == code
            &&& !(json::member(members, "code"@) matches Some(JsonView::Number(_))) ==> info.code
                == 0
            &&& match json::member(members, "message"@) {
                Some(JsonView::Text(message)) => info.message == message,
                _ => info.message.len() == 0,
            }
            &&& info.data == data
            &&& match info.kind {
                Some(kind) => data matches Some(JsonView::Object(others)) && json::member(
                    others,
                    "kind"@,
                ) == Some(JsonView::Text(kind)),
                None => !(data matches Some(JsonView::Object(others)) && json::member(
                    others,
                    "kind"@,
                ) matches Some(JsonView::Text(_))),
            }
        }),
{
    assert forall|code: int|
        -0x8000_0000_0000_0000 <= code < 0x8000_0000_0000_0000 && json::member(members, "code"@)
            == Some(JsonView::Number(#[trigger] text::signed_decimal(code))) implies error_info(
        JsonView::Object(members),
    ).code == code by {
        text::law_signed_decimal_is_read_back(code);
    }
}

/// An error that is no object tells nothing.
pub proof fn law_an_error_that_is_no_object_tells_nothing(v: JsonView)
    requires
        !(v is Object),
    ensures
        error_info(v).code == 0,
        error_info(v).kind is None,
        error_info(v).message.len() == 0,
        error_info(v).data is None,
{
}

/// A module is connected exactly if the kernel answered under the id of the handshake, without an
/// error, with a result that can be read and a version that the module declared, and sent nothing
/// more. It then has what the kernel offers. An error of the kernel's is handed on as it was told.
pub proof fn law_exactly_a_good_answer_connects(
    v: JsonView,
    min: u32,
    max: u32,
    extra: bool,
)
    ensures
        ({
            let judgement = reply_judged(Ok(v), min, max, extra);
            let members = v->Object_0;
            let named = v is Object && json::member(members, "id"@) == Some(JsonView::Text("1"@));
            let error = json::member(members, "error"@);
            let result = match json::member(members, "result"@) {
                Some(result) => result,
                None => JsonView::Null,
            };
            let reply = reply_of(result, false);
            &&& judgement is Ok <==> {
                &&& named
                &&& error is None
                &&& reply is Ok
                &&& min <= reply->Ok_0.protocol_version
                &&& reply->Ok_0.protocol_version <= max
                &&& !extra
            }
            &&& judgement matches Ok(provides) ==> provides == reply->Ok_0.provides
            &&& (judgement matches Err(ConnectErrorView::Refused { .. })) <==> named && error
                is Some
            &&& judgement matches Err(ConnectErrorView::Refused { code, kind, message }) ==> {
                &&& code == error_info(error->Some_0).code
                &&& kind == error_info(error->Some_0).kind
                &&& message == error_info(error->Some_0).message
            }
            &&& !(judgement matches Err(ConnectErrorView::Io(_)))
        }),
{
    reveal_strlit("1");
    assert("1"@.len() == 1);
}

/// What a module is told of an answer that does not connect it.
pub proof fn law_why_a_module_is_not_connected(
    v: JsonView,
    min: u32,
    max: u32,
    extra: bool,
    reason: Seq<char>,
)
    ensures
        reply_judged(Err(reason), min, max, extra) == Err::<Seq<Seq<char>>, ConnectErrorView>(
            ConnectErrorView::Protocol(reason),
        ),
        reply_judged(Ok(v), min, max, extra) matches Err(ConnectErrorView::Protocol(told)) ==> {
            let members = v->Object_0;
            let given = if v is Object && json::member(members, "id"@) matches Some(
                JsonView::Text(_),
            ) {
                json::member(members, "id"@)->Some_0->Text_0
            } else {
                Seq::empty()
            };
            let result = if v is Object && json::member(members, "result"@) is Some {
                json::member(members, "result"@)->Some_0
            } else {
                JsonView::Null
            };
            if given != "1"@ {
                told == "handshake response id mismatch: sent "@ + "1"@ + ", got "@ + given
            } else {
                match reply_of(result, false) {
                    Err(e) => told == e,
                    Ok(reply) => if min <= reply.protocol_version && reply.protocol_version
                        <= max {
                        told
                            == "kernel sent unexpected extra bytes immediately after the initialize response"@
                    } else {
                        told == "kernel chose protocol version "@ + text::decimal(
                            reply.protocol_version as nat,
                        ) + " outside of the declared range ["@ + text::decimal(min as nat)
                            + ", "@ + text::decimal(max as nat) + "]"@
                    },
                }
            }
        },
{
}

/// Ending a call takes away that call alone: its id holds no slot any more, and every other call is
/// as it was.
pub proof fn law_an_end_frees_one_slot(calls: Seq<(Seq<char>, bool)>, id: Seq<char>)
    requires
        ids_differ(calls),
        holds_slot(calls, id),
    ensures
        ({
            let after = calls.remove(call_at(calls, id));
            &&& after.len() == calls.len() - 1
            &&& !after.contains((id, true)) && !after.contains((id, false))
            &&& forall|other: Seq<char>, waiting: bool|
                other != id ==> (#[trigger] after.contains((other, waiting)) <==> calls.contains(
                    (other, waiting),
                ))
        }),
{
    lemma_call_is_at(calls, id);
    let at = call_at(calls, id);
    let after = calls.remove(at);
    assert forall|i: int| 0 <= i < after.len() implies (#[trigger] after[i]).0 != id by {
        if i < at {
            assert(after[i] == calls[i] && calls[i].0 != calls[at].0);
        } else {
            assert(after[i] == calls[i + 1] && calls[at].0 != calls[i + 1].0);
        }
    }
    assert forall|other: Seq<char>, waiting: bool| other != id implies (#[trigger] after.contains(
        (other, waiting),
    ) <==> calls.contains((other, waiting))) by {
        if after.contains((other, waiting)) {
            let i = choose|i: int| 0 <= i < after.len() && after[i] == (other, waiting);
            assert(calls[if i < at {
                i
            } else {
                i + 1
            }] == (other, waiting));
        }
        if calls.contains((other, waiting)) {
            let i = choose|i: int| 0 <= i < calls.len() && calls[i] == (other, waiting);
            assert(i != at);
            assert(after[if i < at {
                i
            } else {
                i - 1
            }] == (other, waiting));
        }
    }
}

proof fn lemma_offer_from(
    members: Seq<(Seq<char>, JsonView)>,
    provides: Option<Seq<Seq<char>>>,
)
    requires
        initialize::keys_differ(members),
    ensures
        ({
            let found = json::member(members, "provides"@);
            let read = offer_from(members, provides);
            &&& read is Ok <==> match found {
                Some(v) => initialize::texts_of(v) is Ok,
                None => provides is Some,
            }
            &&& read matches Ok(list) ==> list == match found {
                Some(v) => initialize::texts_of(v)->Ok_0,
                None => provides->Some_0,
            }
        }),
    decreases members.len(),
{
    if members.len() > 0 {
        initialize::lemma_first_of_its_key(members);
        if members[0].0 == "provides"@ {
            if let Ok(list) = initialize::texts_of(members[0].1) {
                lemma_offer_from(members.drop_first(), Some(list));
            }
        } else {
            lemma_offer_from(members.drop_first(), provides);
        }
    }
}

/// What the kernel offers is a list of texts under `provides`, or the one item of an array.
pub proof fn law_an_offer_is_read_as_it_says(v: JsonView)
    requires
        v matches JsonView::Object(members) ==> initialize::keys_differ(members),
    ensures
        ({
            let said = match v {
                JsonView::Object(members) => json::member(members, "provides"@),
                JsonView::Array(items) => if items.len() == 1 {
                    Some(items[0])
                } else {
                    None
                },
                _ => None,
            };
            &&& offer_of(v) is Ok <==> (said matches Some(list) && initialize::texts_of(list)
                is Ok)
            &&& offer_of(v) matches Ok(provides) ==> initialize::texts_of(said->Some_0) == Ok::<
                Seq<Seq<char>>,
                Seq<char>,
            >(provides)
        }),
{
    if let JsonView::Object(members) = v {
        lemma_offer_from(members, None);
    }
}

/// Whether each key is one that the kernel's answer has.
pub open spec fn only_reply_members(members: Seq<(Seq<char>, JsonView)>) -> bool {
    forall|i: int|
        0 <= i < members.len() ==> (#[trigger] members[i]).0 == "protocol_version"@
            || members[i].0 == "offer"@
}

proof fn lemma_reply_from(
    members: Seq<(Seq<char>, JsonView)>,
    version: Option<u32>,
    offer: Option<Seq<Seq<char>>>,
    strict: bool,
)
    requires
        initialize::keys_differ(members),
    ensures
        ({
            let number = json::member(members, "protocol_version"@);
            let offered = json::member(members, "offer"@);
            let read = reply_from(members, version, offer, strict);
            &&& read is Ok <==> {
                &&& match number {
                    Some(v) => initialize::version_of(v) is Ok,
                    None => version is Some,
                }
                &&& match offered {
                    Some(v) => offer_of(v) is Ok,
                    None => offer is Some,
                }
                &&& strict ==> only_reply_members(members)
            }
            &&& read matches Ok(reply) ==> {
                &&& reply.protocol_version == match number {
                    Some(v) => initialize::version_of(v)->Ok_0,
                    None => version->Some_0,
                }
                &&& reply.provides == match offered {
                    Some(v) => offer_of(v)->Ok_0,
                    None => offer->Some_0,
                }
            }
        }),
    decreases members.len(),
{
    reveal_strlit("protocol_version");
    reveal_strlit("offer");
    assert("protocol_version"@.len() == 16 && "offer"@.len() == 5);
    if members.len() > 0 {
        let rest = members.drop_first();
        initialize::lemma_first_of_its_key(members);
        if only_reply_members(members) {
            assert forall|i: int| 0 <= i < rest.len() implies (#[trigger] rest[i]).0
                == "protocol_version"@ || rest[i].0 == "offer"@ by {
                assert(rest[i] == members[i + 1]);
            }
        }
        if only_reply_members(rest) && (members[0].0 == "protocol_version"@ || members[0].0
            == "offer"@) {
            assert forall|i: int| 0 <= i < members.len() implies (#[trigger] members[i]).0
                == "protocol_version"@ || members[i].0 == "offer"@ by {
                if i > 0 {
                    assert(rest[i - 1] == members[i]);
                }
            }
        }
        if members[0].0 == "protocol_version"@ {
            if let Ok(n) = initialize::version_of(members[0].1) {
                lemma_reply_from(rest, Some(n), offer, strict);
            }
        } else if members[0].0 == "offer"@ {
            if let Ok(list) = offer_of(members[0].1) {
                lemma_reply_from(rest, version, Some(list), strict);
            }
        } else if !strict {
            lemma_reply_from(rest, version, offer, strict);
        }
    }
}

/// The kernel's answer is read exactly if it has a version and an offer that can be read; other
/// members are passed over, unless there may be none. As an array it is these two, in this order.
pub proof fn law_a_reply_is_read_as_it_says(v: JsonView, strict: bool)
    requires
        v matches JsonView::Object(members) ==> initialize::keys_differ(members),
    ensures
        ({
            let number = match v {
                JsonView::Object(members) => json::member(members, "protocol_version"@),
                JsonView::Array(items) => if items.len() == 2 {
                    Some(items[0])
                } else {
                    None
                },
                _ => None,
            };
            let offered = match v {
                JsonView::Object(members) => json::member(members, "offer"@),
                JsonView::Array(items) => if items.len() == 2 {
                    Some(items[1])
                } else {
                    None
                },
                _ => None,
            };
            let read = reply_of(v, strict);
            &&& read is Ok <==> {
                &&& number matches Some(n) && initialize::version_of(n) is Ok
                &&& offered matches Some(o) && offer_of(o) is Ok
                &&& strict && v is Object ==> only_reply_members(v->Object_0)
            }
            &&& read matches Ok(reply) ==> {
                &&& number == Some(
                    JsonView::Number(text::decimal(reply.protocol_version as nat)),
                )
                &&& offer_of(offered->Some_0) == Ok::<Seq<Seq<char>>, Seq<char>>(reply.provides)
            }
        }),
{
    if let JsonView::Object(members) = v {
        lemma_reply_from(members, None, None, strict);
    }
    if let Ok(reply) = reply_of(v, strict) {
        let n = match v {
            JsonView::Object(members) => json::member(members, "protocol_version"@)->Some_0,
            _ => v->Array_0[0],
        };
        initialize::law_a_version_is_a_number_that_fits(n, reply.protocol_version);
    }
}

/// A module introduces itself by its name, its digest, its secret and what it asks for, and declares
/// the versions from the lowest to the highest that it speaks, or none where these are the wrong way
/// round.
pub proof fn law_an_introduction_says_what_the_module_is(
    hello: Hello,
    token: Seq<char>,
    digest: Seq<char>,
)
    ensures
        ({
            let said = introduction(hello, token, digest);
            &&& said.module == hello.module@
            &&& said.manifest_digest == digest
            &&& said.auth_token == token
            &&& said.capabilities.len() == hello.capabilities@.len()
            &&& forall|i: int|
                0 <= i < said.capabilities.len() ==> #[trigger] said.capabilities[i]
                    == hello.capabilities@[i]@
            &&& match said.protocol_versions {
                Some(range) => range.low() == hello.protocol_min && range.high()
                    == hello.protocol_max && hello.protocol_min <= hello.protocol_max,
                None => hello.protocol_min > hello.protocol_max,
            }
        }),
{
    crate::version::law_a_range_holds_its_ends(hello.protocol_min, hello.protocol_max, 0);
    let said = introduction(hello, token, digest);
    assert(said.capabilities.len() == hello.capabilities@.len());
}

/// The members of what a module sends: a request under an id, a cancel of it under none.
pub proof fn law_the_members_of_what_is_sent(
    id: Seq<char>,
    method: Seq<char>,
    params: JsonView,
    said: initialize::ParamsView,
)
    ensures
        rpc::is_well_made(call_value(id, method, params)->Object_0),
        json::member(call_value(id, method, params)->Object_0, "id"@) == Some(JsonView::Text(id)),
        json::member(call_value(id, method, params)->Object_0, "method"@) == Some(
            JsonView::Text(method),
        ),
        json::member(call_value(id, method, params)->Object_0, "params"@) == Some(params),
        rpc::is_well_made(cancel_value(id)->Object_0),
        json::member(cancel_value(id)->Object_0, "id"@) is None,
        json::member(cancel_value(id)->Object_0, "method"@) == Some(
            JsonView::Text("$/cancelRequest"@),
        ),
        json::member(cancel_value(id)->Object_0, "params"@) matches Some(JsonView::Object(target))
            && target.len() == 1 && json::member(target, "id"@) == Some(JsonView::Text(id)),
        rpc::is_well_made(hello_value(said)->Object_0),
        json::member(hello_value(said)->Object_0, "id"@) == Some(JsonView::Text("1"@)),
        json::member(hello_value(said)->Object_0, "method"@) == Some(
            JsonView::Text("initialize"@),
        ),
        json::member(hello_value(said)->Object_0, "params"@) matches Some(JsonView::Object(_)),
{
    reveal_strlit("jsonrpc");
    reveal_strlit("id");
    reveal_strlit("method");
    reveal_strlit("params");
    assert("jsonrpc"@.len() == 7 && "id"@.len() == 2 && "method"@[0] == 'm' && "params"@[0]
        == 'p' && "method"@.len() == 6 && "params"@.len() == 6);
    lemma_four_members(call_value(id, method, params)->Object_0);
    lemma_four_members(hello_value(said)->Object_0);
    let cancel = cancel_value(id)->Object_0;
    let one = cancel.drop_first();
    let two = one.drop_first();
    assert(two.drop_first().len() == 0);
    assert(json::member(two.drop_first(), "id"@) is None);
    assert(two[0] == cancel[2] && one[0] == cancel[1]);
    assert(json::member(two, "params"@) == Some(cancel[2].1));
    assert(json::member(two, "id"@) is None);
    assert(json::member(one, "params"@) == Some(cancel[2].1));
    assert(json::member(one, "method"@) == Some(cancel[1].1));
    assert(json::member(one, "id"@) is None);
}

proof fn lemma_four_members(members: Seq<(Seq<char>, JsonView)>)
    requires
        members.len() == 4,
        initialize::keys_differ(members),
    ensures
        forall|i: int|
            0 <= i < 4 ==> json::member(members, (#[trigger] members[i]).0) == Some(members[i].1),
{
    assert forall|i: int| 0 <= i < 4 implies json::member(members, (#[trigger] members[i]).0)
        == Some(members[i].1) by {
        initialize::lemma_only_under(members, i);
    }
}

/// Calls are counted by their ids.
pub proof fn law_a_call_id_is_its_number(n: u64)
    ensures
        call_id(n) == seq!['c', '-'] + text::decimal(n as nat),
{
    reveal_strlit("c-");
    assert("c-"@ =~= seq!['c', '-']);
}

/// What failures say in words.
pub proof fn law_the_words_of_failed_calls(
    code: int,
    kind: Seq<char>,
    message: Seq<char>,
    data: Option<JsonView>,
)
    ensures
        ({
            let plain = ErrorInfoView { code, kind: None, message, data };
            let named = ErrorInfoView { code, kind: Some(kind), message, data };
            &&& plain.text() == "("@ + text::signed_decimal(code) + "): "@ + message
            &&& named.text() == kind + " ("@ + text::signed_decimal(code) + "): "@ + message
            &&& CallErrorView::Rpc(named).text() == "kernel rejected the call: "@ + named.text()
            &&& CallErrorView::NotSent.text()
                == "callback connection is closed; the call was never sent"@
            &&& CallErrorView::ConnectionLost.text()
                == "callback connection was lost while this call was in flight; its outcome is unknown"@
            &&& CallErrorView::Busy.text() == text::decimal(64)
                + " calls already in flight on this connection"@
            &&& CallErrorView::FrameTooLarge.text() == "params would serialize to more than "@
                + text::decimal(1_048_576) + " bytes"@
            &&& CallErrorView::Timeout.text() == "no response within the fallback deadline"@
            &&& CallErrorView::IdCollision.text()
                == "internal bug: call id already in flight on this connection"@
            &&& ConnectErrorView::Io(message).text() == "i/o error: "@ + message
            &&& ConnectErrorView::Protocol(message).text() == "protocol error: "@ + message
            &&& (ConnectErrorView::Refused { code, kind: None, message }).text()
                == "handshake refused ("@ + text::signed_decimal(code) + " "@ + "None"@ + "): "@
                + message
            &&& (ConnectErrorView::Refused { code, kind: Some(kind), message }).text()
                == "handshake refused ("@ + text::signed_decimal(code) + " "@ + ("Some("@
                + text::debug_text(kind) + ")"@) + "): "@ + message
        }),
{
}

/// An answer is waited for a little longer than any call may take, and what is queued to be written is
/// bounded by what can be in flight.
pub proof fn law_what_calls_wait_for()
    ensures
        DEFAULT_RESPONSE_TIMEOUT == 35_000_000_000,
        WRITER_QUEUE_CAPACITY == 2 * rpc::MAX_IN_FLIGHT_PER_CONNECTION + 8,
        HANDSHAKE_ID@ == "1"@,
        SPAWN_ENV_VARS@.len() == 4,
{
}

/// What is said of an answer that cannot be read.
pub proof fn law_what_an_unreadable_answer_is_told(
    v: JsonView,
    key: Seq<char>,
    version: Option<u32>,
    offer: Option<Seq<Seq<char>>>,
)
    ensures
        ({
            let nothing = Seq::<(Seq<char>, JsonView)>::empty();
            let one = seq![(key, v)];
            let items = v->Array_0;
            &&& offer_from(nothing, None) == Err::<Seq<Seq<char>>, Seq<char>>(
                "missing field `provides`"@,
            )
            &&& !(v is Object) && !(v is Array) ==> {
                &&& offer_of(v) == Err::<Seq<Seq<char>>, Seq<char>>(
                    initialize::wrong_type(v, "struct Offer"@),
                )
                &&& reply_of(v, true) == Err::<ReplyView, Seq<char>>(
                    initialize::wrong_type(v, "struct InitializeResult"@),
                )
                &&& reply_of(v, false) == Err::<ReplyView, Seq<char>>(
                    initialize::wrong_type(v, "struct InitializeReply"@),
                )
            }
            &&& reply_from(nothing, None, offer, true) == Err::<ReplyView, Seq<char>>(
                "missing field `protocol_version`"@,
            )
            &&& version is Some ==> reply_from(nothing, version, None, true) == Err::<
                ReplyView,
                Seq<char>,
            >("missing field `offer`"@)
            &&& key != "protocol_version"@ && key != "offer"@ ==> reply_of(
                JsonView::Object(one),
                true,
            ) == Err::<ReplyView, Seq<char>>(
                "unknown field `"@ + key + "`, expected `protocol_version` or `offer`"@,
            )
            &&& v is Array && items.len() > 1 && initialize::texts_of(items[0]) is Ok ==> offer_of(
                v,
            ) == Err::<Seq<Seq<char>>, Seq<char>>(
                "invalid length "@ + text::decimal(items.len()) + ", expected "@
                    + "fewer elements in array"@,
            )
            &&& v is Array && items.len() == 0 ==> offer_of(v) == Err::<
                Seq<Seq<char>>,
                Seq<char>,
            >(
                "invalid length "@ + text::decimal(0) + ", expected "@
                    + "struct Offer with 1 element"@,
            )
        }),
{
}

} // verus!
