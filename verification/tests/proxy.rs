use agent24_os_proto::drain::{Abandoned, Generation, RequestRefused};
use agent24_os_proto::proxy::{
    exchange_step, has_scheme, head_refusal, keep_idle, keeps, location_within,
    normalise_dot_segments, not_rebuilt, outgoing_headers, outgoing_request, pick_idle,
    proxy_ending, refused_response, sanitize_request_headers, sanitize_response_headers,
    short_prefix, strips_from_request, strips_from_response, timed_out, BodyRead, ClientRequest,
    Collected, ConnStatus, ExchangeError, ExchangeEvent, ExchangeStep, Forward, HeadRead, Limits,
    NotRebuilt, RequestIds, TimedOut, MAX_BODY_BYTES, MAX_IDLE_CONNECTIONS, NAMES_THAT_FIT,
    UPSTREAM_DEADLINE,
};
use axum::http::header;
use axum::http::{HeaderMap, HeaderName, HeaderValue};

const NS: &str = "/api/v1/zzmock";
const SECOND: u64 = 1_000_000_000;

fn headers(pairs: &[(&str, &str)]) -> HeaderMap {
    let mut h = HeaderMap::new();
    for (k, v) in pairs {
        h.append(
            HeaderName::from_bytes(k.as_bytes()).unwrap(),
            HeaderValue::from_str(v).unwrap(),
        );
    }
    h
}

#[test]
fn kernel_credentials_and_forged_a24_headers_never_reach_the_module() {
    let out = sanitize_request_headers(&headers(&[
        ("authorization", "Bearer kernel-secret"),
        ("cookie", "session=1"),
        ("host", "kernel.example"),
        ("expect", "100-continue"),
        ("transfer-encoding", "chunked"),
        ("content-length", "7"),
        ("x-a24-request-id", "forged"),
        ("x-a24-request-lease", "forged"),
        ("x-a24-approval-token", "forged"),
        ("content-type", "application/json"),
        ("accept", "application/json"),
        ("x-module-own-header", "kept"),
    ]));

    for gone in [
        "authorization",
        "cookie",
        "host",
        "expect",
        "transfer-encoding",
        "content-length",
        "x-a24-request-id",
        "x-a24-request-lease",
        "x-a24-approval-token",
    ] {
        assert!(!out.contains_key(gone), "{gone} reached the module");
    }
    assert_eq!(out.get("content-type").unwrap(), "application/json");
    assert_eq!(out.get("accept").unwrap(), "application/json");
    assert_eq!(out.get("x-module-own-header").unwrap(), "kept");
}

#[test]
fn a_header_nominated_by_connection_is_stripped_too() {
    let out = sanitize_request_headers(&headers(&[
        ("connection", "keep-alive, x-smuggled"),
        ("x-smuggled", "value"),
        ("x-not-smuggled", "value"),
    ]));
    assert!(!out.contains_key("x-smuggled"));
    assert!(!out.contains_key("connection"));
    assert_eq!(out.get("x-not-smuggled").unwrap(), "value");
}

#[test]
fn a_module_cannot_echo_kernel_headers_or_set_cookies() {
    let out = sanitize_response_headers(&headers(&[
        ("x-a24-approval-token", "stolen"),
        ("x-a24-request-lease", "stolen"),
        ("x-a24-anything-at-all", "stolen"),
        ("set-cookie", "a=1"),
        ("www-authenticate", "Bearer"),
        ("connection", "close"),
        ("content-length", "3"),
        ("content-type", "text/plain"),
        ("etag", "\"abc\""),
    ]));
    for gone in [
        "x-a24-approval-token",
        "x-a24-request-lease",
        "x-a24-anything-at-all",
        "set-cookie",
        "www-authenticate",
        "connection",
        "content-length",
    ] {
        assert!(!out.contains_key(gone), "{gone} reached the client");
    }
    assert_eq!(out.get("content-type").unwrap(), "text/plain");
    assert_eq!(out.get("etag").unwrap(), "\"abc\"");
}

#[test]
fn location_is_confined_to_the_module_namespace() {
    let req = "/api/v1/zzmock/things/1";
    let allowed = [
        "/api/v1/zzmock/things/2",
        "/api/v1/zzmock",
        "/api/v1/zzmock/",
        "2",
        "./2",
        "../things/2",
        "/api/v1/zzmock/x?q=1",
        "/api/v1/zzmock/x#frag",
    ];
    for l in allowed {
        assert!(location_within(NS, req, l), "{l} should be allowed");
    }

    let refused = [
        "https://evil.example/",
        "http://127.0.0.1:8080/api/v1/runs",
        "//evil.example/x",
        "/api/v1/runs",
        "/api/v1/zzmockery/x",
        "/api/v1/zzmock/../runs",
        "../../runs",
        "/api/v1/zzmock/%2e%2e/%2e%2e/runs",
        "/../../..",
        "/",
        "\\\\evil.example\\x",
        "mailto:x@example.com",
    ];
    for l in refused {
        assert!(!location_within(NS, req, l), "{l} should be refused");
    }
}

#[test]
fn one_invalid_byte_in_connection_does_not_disable_the_rest_of_it() {
    let mut h = HeaderMap::new();
    h.append(
        header::CONNECTION,
        HeaderValue::from_bytes(b"x-hop, \x80").unwrap(),
    );
    h.append("x-hop", HeaderValue::from_static("private"));
    h.append("x-kept", HeaderValue::from_static("fine"));
    let out = sanitize_request_headers(&h);
    assert!(!out.contains_key("x-hop"));
    assert_eq!(out.get("x-kept").unwrap(), "fine");
}

#[test]
fn proxy_connection_is_hop_by_hop_in_both_directions() {
    let pair = [("proxy-connection", "keep-alive"), ("x-kept", "fine")];
    for out in [
        sanitize_request_headers(&headers(&pair)),
        sanitize_response_headers(&headers(&pair)),
    ] {
        assert!(!out.contains_key("proxy-connection"));
        assert_eq!(out.get("x-kept").unwrap(), "fine");
    }
}

#[test]
fn a_module_cannot_continue_an_authentication_exchange_with_the_client() {
    let out = sanitize_response_headers(&headers(&[
        ("authentication-info", "nextnonce=\"module-controlled\""),
        ("proxy-authentication-info", "nextnonce=\"x\""),
        ("x-kept", "fine"),
    ]));
    assert!(!out.contains_key("authentication-info"));
    assert!(!out.contains_key("proxy-authentication-info"));
    assert_eq!(out.get("x-kept").unwrap(), "fine");
}

#[test]
fn a_location_a_browser_would_rewrite_is_refused() {
    let req = "/api/v1/zzmock/things/1";
    for l in [
        "/api/v1/zzmock/\t..\t/runs",
        "h\tttp://evil.example/",
        "/api/v1/zzmock/ x",
        "\u{0000}/api/v1/zzmock/x",
    ] {
        assert!(!location_within(NS, req, l), "{l:?} should be refused");
    }
    assert!(location_within(NS, req, "/api/v1/zzmock/x"));
}

#[test]
fn a_media_type_that_merely_starts_the_same_is_not_an_event_stream() {
    for (ct, refused) in [
        ("text/event-stream", true),
        ("text/event-stream; charset=utf-8", true),
        ("Text/Event-Stream", true),
        ("text/event-streaming", false),
        ("application/json", false),
    ] {
        let mut h = HeaderMap::new();
        h.insert(header::CONTENT_TYPE, HeaderValue::from_str(ct).unwrap());
        let got = head_refusal(NS, "/api/v1/zzmock/x", 200, &h).is_some();
        assert_eq!(got, refused, "{ct}");
    }
}

#[test]
fn a_query_only_redirect_on_the_namespace_root_stays_inside_it() {
    assert!(location_within(NS, NS, "?page=2"));
    assert!(location_within(NS, NS, "#section"));
    assert!(
        location_within(NS, NS, ""),
        "the empty reference is the base"
    );
    assert!(location_within(NS, "/api/v1/zzmock/things/1", "?page=2"));
    assert!(!location_within(NS, NS, "/api/v1/runs?page=2"));
}

#[test]
fn a_non_ascii_content_type_parameter_does_not_hide_a_stream() {
    let mut h = HeaderMap::new();
    h.insert(
        header::CONTENT_TYPE,
        HeaderValue::from_bytes(b"text/event-stream; x=\xff\xfe").unwrap(),
    );
    assert!(head_refusal(NS, "/api/v1/zzmock/x", 200, &h).is_some());
}

#[test]
fn a_head_is_refused_for_what_it_says() {
    let code = |status: u16, h: &HeaderMap| {
        head_refusal(NS, "/api/v1/zzmock/x", status, h).map(|r| (r.status, r.code))
    };
    assert_eq!(code(200, &HeaderMap::new()), None);
    assert_eq!(
        code(101, &HeaderMap::new()),
        Some((502, "upstream_streaming_unsupported"))
    );
    assert_eq!(
        code(302, &headers(&[("location", "/api/v1/runs")])).map(|r| r.0),
        Some(502)
    );
    assert_eq!(code(302, &headers(&[("location", "/api/v1/zzmock/y")])), None);
    let two = headers(&[("location", "/api/v1/zzmock/y"), ("location", "https://evil.example/")]);
    assert!(code(302, &two).is_some());
    assert!(sanitize_response_headers(&headers(&[("refresh", "0; url=https://evil.example/")])).is_empty());
}

#[test]
fn every_value_of_a_header_that_passes_is_kept() {
    let out = sanitize_request_headers(&headers(&[("accept", "a"), ("accept", "b"), ("te", "x")]));
    let values: Vec<_> = out.get_all("accept").iter().map(|v| v.as_bytes().to_vec()).collect();
    assert_eq!(values, vec![b"a".to_vec(), b"b".to_vec()]);
    assert_eq!(out.len(), 2);
}

#[test]
fn the_kernel_writes_its_own_id_and_host() {
    let (out, own) = outgoing_headers(
        &headers(&[
            ("x-a24-request-id", "forged"),
            ("x-a24-approval-token", "forged"),
            ("host", "client"),
            ("accept", "x"),
        ]),
        "abcd-0",
        Some("secret"),
        "agent24-module.invalid",
    );
    assert!(own.id && own.token && own.host);
    assert_eq!(out.get("x-a24-approval-token").unwrap(), "secret");
    assert_eq!(out.get("x-a24-request-id").unwrap(), "abcd-0");
    assert_eq!(out.get("host").unwrap(), "agent24-module.invalid");
    assert_eq!(out.get("accept").unwrap(), "x");
    let (out, own) = outgoing_headers(&HeaderMap::new(), "bad\nid", None, "h");
    assert!(!own.id && !own.token && own.host);
    assert!(!out.contains_key("x-a24-request-id"));
    assert_eq!(
        not_rebuilt(NotRebuilt::Path("bad".to_owned())).message,
        "the proxied path could not be reconstructed: bad"
    );
    let refused = not_rebuilt(NotRebuilt::Request("bad".to_owned()));
    assert_eq!((refused.status, refused.code), (502, "upstream_unavailable"));
    assert_eq!(refused.message, "the proxied request could not be rebuilt: bad");
}

#[test]
fn header_rules_are_by_name() {
    for name in ["authorization", "x-forwarded-for", "forwarded", "x-a24-x", "te"] {
        assert!(strips_from_request(name), "{name}");
    }
    assert!(!strips_from_request("accept"));
    for name in ["set-cookie", "x-a24-x", "refresh", "connection"] {
        assert!(strips_from_response(name), "{name}");
    }
    assert!(!strips_from_response("etag"));
}

#[test]
fn dot_segments_are_resolved_or_refused() {
    assert_eq!(normalise_dot_segments("/a/./b/../c").as_deref(), Some("/a/c"));
    assert_eq!(normalise_dot_segments("/a/%2E%2e/b").as_deref(), Some("/a/%2E%2e/b"));
    assert!(!location_within("/a", "/a/x", "/a/%2E%2e/b"));
    assert_eq!(normalise_dot_segments("/a/../.."), None);
    assert!(has_scheme("mailto:x"));
    assert!(!has_scheme("a/b:c"));
    assert!(!has_scheme(":x"));
}

#[test]
fn refusals_and_endings_have_codes() {
    let r = refused_response(RequestRefused::Draining);
    assert_eq!((r.status, r.code), (503, "module_draining"));
    let r = proxy_ending(Err(Abandoned { dispatched: true }), true).unwrap();
    assert_eq!((r.status, r.code), (503, "request_abandoned"));
    assert!(proxy_ending(Ok(()), true).is_none());
    let limits = Limits { total: 30 * SECOND, head: 10 * SECOND };
    assert_eq!(timed_out(limits, TimedOut::UpstreamBody).status, 504);
    for (budget, told) in [
        (10 * SECOND, "10.0s"),
        (2_340_000_000, "2.3s"),
        (2_350_000_001, "2.3s"),
        (50_000_000, "0.1s"),
        (49_999_999, "0.1s"),
        (49_900_000, "0.0s"),
        (250_000_000, "0.2s"),
        (350_000_000, "0.3s"),
        (750_000_000, "0.8s"),
        (999_999_999, "1.0s"),
        (0, "0.0s"),
    ] {
        let message = timed_out(limits, TimedOut::UpstreamHead(budget)).message;
        assert!(message.contains(told), "{message}");
        assert!(!message.contains("ss"), "{message}");
    }
    assert!(timed_out(limits, TimedOut::ClientBody)
        .message
        .contains("request body was not received"));
}

#[test]
fn one_request_is_forwarded_step_by_step() {
    let limits = Limits::default();
    assert_eq!(limits.total, UPSTREAM_DEADLINE);
    let refused = Forward::begin(0, limits, false, 64).err().unwrap();
    assert_eq!((refused.status, refused.code), (503, "module_overloaded"));
    let mut f = Forward::begin(0, limits, true, 64).ok().unwrap();
    assert_eq!(f.until(), UPSTREAM_DEADLINE);
    assert!(f.on_body(BodyRead::Whole { bytes: 0 }).is_none());
    let mut g = Generation::serving_at(b"/s".to_vec());
    assert!(g.ready());
    let request = g.admit_request("r".to_owned(), [0u8; 32], 0, limits.total).ok().unwrap();
    let plan = f.before_send(&request, &mut g, SECOND).ok().unwrap();
    assert_eq!((plan.head_deadline, plan.head_budget), (11 * SECOND, 10 * SECOND));
    let late = f.before_send(&request, &mut g, 25 * SECOND).ok().unwrap();
    assert_eq!((late.head_deadline, late.head_budget), (30 * SECOND, 5 * SECOND));
    let path = "/api/v1/zzmock/x";
    let ok = || HeadRead::Head { status: 200, headers: HeaderMap::new() };
    let head = || f.on_head(ok(), NS, path).ok().unwrap();
    let failed = f.on_head(HeadRead::Failed("refused".to_owned()), NS, path).err().unwrap();
    assert_eq!((failed.status, failed.code), (502, "upstream_unavailable"));
    let slow = f.on_head(HeadRead::TimedOut, NS, path).err().unwrap();
    assert_eq!(slow.status, 504);
    assert!(slow.message.contains("5.0s"), "{}", slow.message);
    let answer = f.on_collected(head(), Collected::Whole { body: b"hello".to_vec() }).ok().unwrap();
    assert_eq!((answer.status, answer.reusable), (200, true));
    assert_eq!(answer.body, b"hello");
    let large = f.on_collected(head(), Collected::TooLarge).err().unwrap();
    assert_eq!((large.status, large.code), (502, "upstream_response_too_large"));
    let body = vec![0u8; MAX_BODY_BYTES + 1];
    let larger = f.on_collected(head(), Collected::Whole { body }).err().unwrap();
    assert_eq!(larger.code, "upstream_response_too_large");
    assert!(f.on_collected(head(), Collected::Failed("reset".to_owned())).is_err());
    assert_eq!(f.on_collected(head(), Collected::TimedOut).err().unwrap().status, 504);
    let mut with_body = Forward::begin(0, limits, true, 64).ok().unwrap();
    assert!(with_body.on_body(BodyRead::Whole { bytes: 3 }).is_none());
    let whole = Collected::Whole { body: Vec::new() };
    let answer = with_body.on_collected(head(), whole).ok().unwrap();
    assert!(!answer.reusable);
    assert_eq!(with_body.on_body(BodyRead::TimedOut).unwrap().status, 504);
    let _ = g.revoke();
    assert!(f.before_send(&request, &mut g, SECOND).is_err());
}

#[test]
fn a_module_is_sent_what_the_client_asked_at_its_own_address() {
    let mut g = Generation::serving_at(b"/run/\xff/1.sock".to_vec());
    assert!(g.ready());
    let request = g.admit_request("id-1".to_owned(), [0u8; 32], 0, SECOND).ok().unwrap();
    let client = |path_and_query: Option<&str>| ClientRequest {
        method: "PROPFIND".to_owned(),
        path_and_query: path_and_query.map(|p| p.to_owned()),
        headers: headers(&[("cookie", "secret"), ("x-own", "kept"), ("x-a24-request-id", "no")]),
        body: b"\x00\xffbody".to_vec(),
    };
    let sent = outgoing_request(&request, client(Some("/a%20b?x=1&y=%2f")), Some("tok"), "host.x")
        .ok()
        .unwrap();
    assert_eq!(sent.address, b"/run/\xff/1.sock");
    assert_eq!(sent.method, "PROPFIND");
    assert_eq!(sent.path_and_query, "/a%20b?x=1&y=%2f");
    assert_eq!(sent.body, b"\x00\xffbody");
    assert_eq!(sent.headers.get("x-own").unwrap(), "kept");
    assert_eq!(sent.headers.get("x-a24-request-id").unwrap(), "id-1");
    assert_eq!(sent.headers.get("x-a24-approval-token").unwrap(), "tok");
    assert_eq!(sent.headers.get("host").unwrap(), "host.x");
    assert!(!sent.headers.contains_key("cookie"));
    let bare = outgoing_request(&request, client(None), None, "host.x").ok().unwrap();
    assert_eq!(bare.path_and_query, "/");
}

#[test]
fn a_client_gets_the_modules_own_status_headers_and_body() {
    let f = Forward::begin(0, Limits::default(), true, 64).ok().unwrap();
    let said = headers(&[
        ("etag", "\"1\""),
        ("set-cookie", "a=1"),
        ("location", "/api/v1/zzmock/y"),
        ("refresh", "0; url=https://evil.example/"),
    ]);
    let head = f
        .on_head(HeadRead::Head { status: 418, headers: said }, NS, "/api/v1/zzmock/x")
        .ok()
        .unwrap();
    let body = b"\x00\x01\xfe".to_vec();
    let answer = f.on_collected(head, Collected::Whole { body: body.clone() }).ok().unwrap();
    assert_eq!(answer.status, 418);
    assert_eq!(answer.body, body);
    assert_eq!(answer.headers.get("etag").unwrap(), "\"1\"");
    assert_eq!(answer.headers.get("location").unwrap(), "/api/v1/zzmock/y");
    assert!(!answer.headers.contains_key("set-cookie"));
    assert!(!answer.headers.contains_key("refresh"));
}

#[test]
fn the_query_and_the_fragment_decide_nothing() {
    for tail in ["", "?x=//evil.example/", "#https://evil.example", "?a:b#/../..", "#?"] {
        let inside = "/api/v1/zzmock/y".to_owned() + tail;
        assert!(location_within(NS, "/api/v1/zzmock/x", &inside), "{inside}");
        let outside = "/api/v1/runs".to_owned() + tail;
        assert!(!location_within(NS, "/api/v1/zzmock/x", &outside), "{outside}");
    }
}

#[test]
fn normalising_twice_changes_nothing() {
    for path in ["/a/./b/../c", "/", "", "//a///b", "/a/..", "a/b", "/a/b/"] {
        let once = normalise_dot_segments(path).unwrap();
        assert_eq!(normalise_dot_segments(&once).as_deref(), Some(once.as_str()), "{path}");
    }
    // Leading above the root is refused, even where the path comes back.
    for path in ["/..", "/a/../..", "/../a", "..", "/a/../../a"] {
        assert_eq!(normalise_dot_segments(path), None, "{path}");
    }
}

#[test]
fn idle_connections_are_few_and_of_this_generation() {
    assert!(keep_idle(MAX_IDLE_CONNECTIONS - 1, false));
    assert!(!keep_idle(MAX_IDLE_CONNECTIONS, false));
    assert!(!keep_idle(0, true));
    let conn = |generation: u64, closed: bool, ready: bool| ConnStatus {
        generation,
        closed,
        ready,
        revoked: false,
    };
    assert_eq!(pick_idle(&vec![], 1), None);
    assert_eq!(pick_idle(&vec![conn(2, false, true)], 1), None);
    assert_eq!(pick_idle(&vec![conn(1, true, true), conn(1, false, false)], 1), None);
    assert!(pick_idle(&vec![conn(2, false, true), conn(1, false, true)], 1) == Some(1));
}

#[test]
fn request_ids_count_up_under_a_prefix() {
    let mut ids = RequestIds::new(short_prefix(Some([0, 0xab, 1, 0xff]), 0));
    assert_eq!(ids.mint(), "00ab01ff-0");
    assert_eq!(ids.mint(), "00ab01ff-1");
    assert_eq!(short_prefix(None, 0x0102_0304), "01020304");
}

#[test]
fn a_request_handed_back_goes_once_more_and_one_that_left_does_not() {
    let step = exchange_step;
    assert!(matches!(step(ExchangeEvent::Begun { idle: true }), ExchangeStep::Reuse));
    assert!(matches!(step(ExchangeEvent::Begun { idle: false }), ExchangeStep::Connect));
    assert!(matches!(step(ExchangeEvent::HandedBack), ExchangeStep::Connect));
    assert!(matches!(step(ExchangeEvent::Connected), ExchangeStep::Ask));
    assert!(matches!(step(ExchangeEvent::Allowed(true)), ExchangeStep::Send));
    assert!(matches!(step(ExchangeEvent::Reused), ExchangeStep::Done));
    assert!(matches!(step(ExchangeEvent::Answered), ExchangeStep::Done));
    for (event, told) in [
        (ExchangeEvent::ReuseFailed("reset".to_owned()), "reset"),
        (ExchangeEvent::Failed("reset".to_owned()), "reset"),
    ] {
        assert!(
            matches!(step(event), ExchangeStep::Fail(ExchangeError::MaybeSent(e)) if e == told)
        );
    }
    for (event, told) in [
        (ExchangeEvent::NotConnected("no".to_owned()), "no"),
        (ExchangeEvent::Allowed(false), "the send was withdrawn before it reached the wire"),
    ] {
        assert!(matches!(step(event), ExchangeStep::Fail(ExchangeError::NotSent(e)) if e == told));
    }
}

#[test]
fn connections_that_closed_or_were_revoked_are_not_kept() {
    let c = ConnStatus { generation: 1, closed: false, ready: false, revoked: false };
    assert!(keeps(c));
    assert!(!keeps(ConnStatus { closed: true, ..c }));
    assert!(!keeps(ConnStatus { revoked: true, ..c }));
}

#[test]
fn a_large_map_still_takes_the_kernels_headers() {
    let mut h = HeaderMap::new();
    for i in 0..NAMES_THAT_FIT - 2 {
        h.insert(
            HeaderName::from_bytes(format!("x-n{i}").as_bytes()).unwrap(),
            HeaderValue::from_static("v"),
        );
    }
    let (out, own) = outgoing_headers(&h, "id", Some("token"), "host");
    assert!(own.id && own.token && own.host);
    assert_eq!(out.len(), NAMES_THAT_FIT + 1);
}

#[test]
fn a_budget_is_told_as_a_single_precision_number_shows_it() {
    let limits = Limits::default();
    let mut budgets: Vec<u64> = vec![u64::MAX, u64::MAX - 1, 1, 16_777_217 * SECOND];
    for tenths in 0..700 {
        for beside in [0, 1, 3, 50_000_000] {
            budgets.push(tenths * 100_000_000 + beside);
            budgets.push((tenths * 100_000_000).saturating_sub(beside));
        }
    }
    let mut n: u64 = 1;
    for i in 0..4000 {
        n = n.wrapping_mul(6_364_136_223_846_793_005).wrapping_add(1_442_695_040_888_963_407);
        budgets.push(n >> (i % 64));
    }
    for budget in budgets {
        let shown = std::time::Duration::from_nanos(budget).as_secs_f32();
        assert_eq!(
            timed_out(limits, TimedOut::UpstreamHead(budget)).message,
            format!("the module did not begin answering within {shown:.1}s"),
            "{budget}"
        );
    }
}
