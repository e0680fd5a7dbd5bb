use agent24_os_proto::frame::{FrameError, IoFault, MAX_FRAME_BYTES};
use agent24_os_proto::initialize::{HandshakeError, Offer};
use agent24_os_proto::json::Json;
use agent24_os_proto::repeats::{find_duplicate_key, scan_duplicates};
use agent24_os_proto::rpc::{
    clip, conn_end, dispatch, response_line, write_timeout_fault, Act, Checked, Conn, Dispatch,
    Effect, Ended, ErrorKind, Handler, Limits, Methods, Outcome, Response, RpcError, Running,
    Serve, Wait, CALL_TIMEOUT, CANCEL_METHOD, FRAMES_BEFORE_REAPING, INVALID_PARAMS,
    INVALID_REQUEST, MAX_IN_FLIGHT_PER_CONNECTION, METHOD_NOT_FOUND, PARSE_ERROR, WRITE_TIMEOUT,
};
use agent24_os_proto::version::VersionMismatch;
use std::collections::HashSet;
use std::time::Duration;

const SECOND: u64 = 1_000_000_000;

const TEST_LIMITS: Limits = Limits {
    max_in_flight: 8,
    call_timeout: 10 * SECOND,
    write_timeout: 10 * SECOND,
};

enum Fixture {
    Echo,
    Strict,
    Broken,
}

impl Handler for Fixture {
    fn check_params(&self, params: &Json) -> Checked {
        match self {
            Fixture::Echo => Checked::Passed,
            Fixture::Strict => match params {
                Json::Object(members) if members.iter().any(|m| m.0 == "n") => Checked::Passed,
                _ => Checked::Refused("`n` must be a number".to_owned()),
            },
            Fixture::Broken => Checked::Failed,
        }
    }
}

fn methods() -> Methods<Fixture> {
    Methods::none()
        .with("t/echo", Fixture::Echo)
        .with("t/strict", Fixture::Strict)
        .with("t/broken", Fixture::Broken)
}

fn sent(frame: &str) -> Dispatch {
    dispatch(frame.as_bytes(), &methods(), &Running::new())
}

fn answered(frame: &str) -> serde_json::Value {
    match sent(frame) {
        Dispatch::Respond(r) => serde_json::from_slice(&r.to_line()).unwrap(),
        other => panic!("{other:?}"),
    }
}

fn code(v: &serde_json::Value) -> i64 {
    v["error"]["code"].as_i64().unwrap_or(0)
}

#[test]
fn the_error_kinds_are_exactly_specs_closed_set() {
    const SPEC: &str = "kind 是闭集：`forbidden` / `busy` / `cancelled` / `timeout` / `quota_exceeded` / `invalid_lease` / `unknown_capability` / `version_mismatch` / **`auth_failed`** / **`manifest_mismatch`**";
    let quoted: HashSet<&str> = SPEC.split('`').skip(1).step_by(2).collect();
    let ours: HashSet<&str> = ErrorKind::ALL.iter().map(|k| k.as_str()).collect();
    assert_eq!(ours, quoted);
    assert_eq!(
        ours.len(),
        ErrorKind::ALL.len(),
        "two kinds share a wire string"
    );
    for k in ["auth_failed", "manifest_mismatch", "version_mismatch"] {
        assert!(
            ours.contains(k),
            "handshake kind {k} is not in the closed set"
        );
    }
}

#[test]
fn the_default_limits_are_the_documented_constants() {
    assert_eq!(
        Limits::default(),
        Limits {
            max_in_flight: MAX_IN_FLIGHT_PER_CONNECTION,
            call_timeout: CALL_TIMEOUT,
            write_timeout: WRITE_TIMEOUT,
        }
    );
    assert_eq!(MAX_IN_FLIGHT_PER_CONNECTION, 64);
    assert_eq!(Duration::from_nanos(CALL_TIMEOUT), Duration::from_secs(30));
}

#[test]
fn the_handshakes_error_kinds_are_members_of_the_closed_set() {
    let ours: HashSet<&str> = ErrorKind::ALL.iter().map(|k| k.as_str()).collect();
    let theirs = [
        HandshakeError::AuthFailed.kind(),
        HandshakeError::ManifestMismatch {
            expected: String::new(),
            got: String::new(),
        }
        .kind(),
        Some(VersionMismatch::KIND),
    ];
    for k in theirs {
        let k = k.expect("a handshake kind is missing");
        assert!(ours.contains(k), "handshake kind `{k}` is not in the closed set");
    }
}

#[test]
fn the_offer_and_the_served_methods_are_both_empty() {
    let offer = Offer::none();
    for m in [
        "_a24/memory/private/remember",
        "_a24/memory/scoped/remember",
        "_a24/events/emit",
        "_a24/approval/request",
    ] {
        assert!(!offer.provides(m), "{m} is offered");
        assert!(Methods::<Fixture>::none().get(m).is_none());
    }
}

#[test]
fn many_repeated_keys_under_a_long_path_are_classified_cheaply() {
    let depth = 20;
    let key = "k".repeat(1000);
    let mut frame = String::from(r#"{"jsonrpc":"2.0","id":"a","method":"t/echo","params":"#);
    for _ in 0..depth {
        frame.push_str(&format!(r#"{{"{key}":"#));
    }
    frame.push('{');
    let leaves: Vec<String> = (0..20_000).map(|i| format!(r#""d":{i}"#)).collect();
    frame.push_str(&leaves.join(","));
    frame.push('}');
    for _ in 0..depth {
        frame.push('}');
    }
    frame.push('}');
    assert!(frame.len() < MAX_FRAME_BYTES);
    let (found, copies) = scan_duplicates(frame.as_bytes());
    assert!(found.is_some());
    assert!(copies <= 2, "{copies} paths were copied for one frame");
    let started = std::time::Instant::now();
    let d = dispatch(frame.as_bytes(), &methods(), &Running::new());
    assert!(
        started.elapsed() < Duration::from_secs(1),
        "took {:?}",
        started.elapsed()
    );
    let Dispatch::Respond(r) = d else {
        panic!("a repeated key must be refused")
    };
    assert_eq!(r.outcome.unwrap_err().code, INVALID_PARAMS);
}

#[test]
fn a_request_runs_its_handler_with_its_params() {
    match sent(r#"{"jsonrpc":"2.0","id":"a","method":"t/echo","params":{"x":[1,null,true,"s"]}}"#) {
        Dispatch::Call { id, params, handler } => {
            assert_eq!((id.as_str(), handler), ("a", 0));
            assert_eq!(params.to_text(), r#"{"x":[1,null,true,"s"]}"#);
        }
        other => panic!("{other:?}"),
    }
    match sent(r#"{"jsonrpc":"2.0","id":"a","method":"t/echo"}"#) {
        Dispatch::Call { params, .. } => assert_eq!(params.to_text(), "{}"),
        other => panic!("{other:?}"),
    }
}

#[test]
fn what_is_no_usable_request_is_answered_with_its_code() {
    let null = serde_json::Value::Null;
    let cases = [
        ("{not json", i64::from(PARSE_ERROR), null.clone()),
        ("[]", i64::from(INVALID_REQUEST), null.clone()),
        ("7", i64::from(INVALID_REQUEST), null.clone()),
        (r#"{"jsonrpc":"2.0","id":1,"method":"t/echo"}"#, i64::from(INVALID_REQUEST), null.clone()),
        (r#"{"jsonrpc":"2.0","id":"a","id":"b","method":"t/echo"}"#, i64::from(INVALID_REQUEST), null),
        (r#"{"jsonrpc":"1.0","id":"a","method":"t/echo"}"#, i64::from(INVALID_REQUEST), "a".into()),
        (r#"{"jsonrpc":"2.0","id":"a","method":7}"#, i64::from(INVALID_REQUEST), "a".into()),
        (r#"{"jsonrpc":"2.0","id":"a","method":"t/echo","x":1}"#, i64::from(INVALID_REQUEST), "a".into()),
        (r#"{"jsonrpc":"2.0","id":"a","method":"initialize"}"#, i64::from(INVALID_REQUEST), "a".into()),
        (r#"{"jsonrpc":"2.0","id":"a","method":"$/cancelRequest"}"#, i64::from(INVALID_REQUEST), "a".into()),
        (r#"{"jsonrpc":"2.0","id":"a","method":"t/none"}"#, i64::from(METHOD_NOT_FOUND), "a".into()),
        (r#"{"jsonrpc":"2.0","id":"a","method":"t/echo","params":[]}"#, i64::from(INVALID_PARAMS), "a".into()),
        (r#"{"jsonrpc":"2.0","id":"a","method":"t/strict","params":{}}"#, i64::from(INVALID_PARAMS), "a".into()),
        (r#"{"jsonrpc":"2.0","id":"a","method":"t/echo","params":{"k":1,"k":2}}"#, i64::from(INVALID_PARAMS), "a".into()),
        (r#"{"jsonrpc":"2.0","id":"a","method":"t/broken"}"#, -32603, "a".into()),
    ];
    for (frame, want, id) in cases {
        let v = answered(frame);
        assert_eq!((code(&v), v["id"].clone()), (want, id), "{frame}");
    }
    let long = format!(r#"{{"jsonrpc":"2.0","id":"{}","method":"t/echo"}}"#, "i".repeat(257));
    assert_eq!(answered(&long)["id"], serde_json::Value::Null);
}

#[test]
fn an_envelope_repeat_outranks_an_earlier_repeat_in_params() {
    let frame = r#"{"jsonrpc":"2.0","id":"a","params":{"x":1,"x":2},"id":"b","method":"t/echo"}"#;
    let v = answered(frame);
    assert_eq!(v["id"], serde_json::Value::Null);
    assert_eq!(code(&v), i64::from(INVALID_REQUEST));
    assert_eq!(find_duplicate_key(frame.as_bytes()), Some(vec!["id".to_owned()]));
    assert_eq!(
        find_duplicate_key(br#"{"p":{"a":1,"a":2}}"#),
        Some(vec!["p".to_owned(), "a".to_owned()])
    );
    assert_eq!(find_duplicate_key(br#"{"p":[{"a":1},{"a":2}]}"#), None);
}

#[test]
fn notifications_are_never_answered() {
    assert!(matches!(sent(r#"{"jsonrpc":"2.0","method":"t/echo"}"#), Dispatch::Ignore));
    assert!(matches!(sent(r#"{"jsonrpc":"1.0","method":"t/none"}"#), Dispatch::Ignore));
    let cancel = format!(r#"{{"jsonrpc":"2.0","method":"{CANCEL_METHOD}","params":{{"id":"h"}}}}"#);
    assert!(matches!(sent(&cancel), Dispatch::Cancel { id } if id == "h"));
    let more = cancel.replace(r#""id":"h""#, r#""id":"h","x":1"#);
    assert!(matches!(sent(&more), Dispatch::Ignore));
}

#[test]
fn a_reused_id_is_answered_null_even_when_the_request_is_also_malformed() {
    let mut running = Running::new();
    running.insert("a".to_owned(), 1);
    for frame in [
        r#"{"jsonrpc":"2.0","id":"a","method":"t/echo"}"#,
        r#"{"jsonrpc":"9","id":"a","method":7}"#,
    ] {
        let d = dispatch(frame.as_bytes(), &methods(), &running);
        let Dispatch::Respond(r) = d else { panic!("{frame}") };
        let v: serde_json::Value = serde_json::from_slice(&r.to_line()).unwrap();
        assert_eq!(v["id"], serde_json::Value::Null);
        assert_eq!(v["error"]["data"]["duplicate_id"], "a");
    }
}

#[test]
fn a_connection_runs_cancels_and_answers() {
    let mut conn = Conn::new(Limits { max_in_flight: 1, ..TEST_LIMITS });
    let run = |id: &str| format!(r#"{{"jsonrpc":"2.0","id":"{id}","method":"t/echo"}}"#);
    match conn.on_frame(run("a").as_bytes(), &methods()) {
        Act::Run { id, .. } => conn.started(id, 7),
        other => panic!("{other:?}"),
    }
    assert_eq!(conn.in_flight(), 1);
    match conn.on_frame(run("b").as_bytes(), &methods()) {
        Act::Respond(r) => {
            let v: serde_json::Value = serde_json::from_slice(&r.to_line()).unwrap();
            assert_eq!(v["error"]["data"]["kind"], "busy");
        }
        other => panic!("{other:?}"),
    }
    let cancel = |id: &str| {
        format!(r#"{{"jsonrpc":"2.0","method":"{CANCEL_METHOD}","params":{{"id":"{id}"}}}}"#)
    };
    assert!(matches!(conn.on_frame(cancel("x").as_bytes(), &methods()), Act::Nothing));
    assert!(matches!(conn.on_frame(cancel("a").as_bytes(), &methods()), Act::Abort { task: 7 }));
    let r = conn.finished(7, Outcome::Cancelled).unwrap();
    let v: serde_json::Value = serde_json::from_slice(&r.to_line()).unwrap();
    assert_eq!((v["id"].clone(), v["error"]["data"]["kind"].clone()), ("a".into(), "cancelled".into()));
    assert_eq!(conn.in_flight(), 0);
    assert!(conn.finished(7, Outcome::Cancelled).is_none());
    conn.started("t".to_owned(), 8);
    let r = conn.finished(8, Outcome::TimedOut).unwrap();
    assert!(String::from_utf8(r.to_line()).unwrap().contains("10000ms"));
}

#[test]
fn a_peer_that_never_stops_sending_lets_ended_calls_be_answered() {
    let mut serve = Serve::new(TEST_LIMITS);
    let mut queued = 0;
    for _ in 0..FRAMES_BEFORE_REAPING {
        assert_eq!(serve.next(), Wait::Next { read: true });
        match serve.on_frame(b"{not json", &methods()) {
            Effect::Send(line) => queued += line.len(),
            other => panic!("{other:?}"),
        }
    }
    assert_eq!(serve.next(), Wait::ReapFirst);
    serve.on_written(queued);
    assert!(matches!(serve.on_frame(b"{\"jsonrpc\":\"2.0\",\"method\":\"x\"}", &methods()), Effect::Nothing));
    assert_eq!(serve.next(), Wait::Next { read: true });
}

#[test]
fn a_full_queue_stops_reading_until_it_is_drained() {
    let mut serve = Serve::new(TEST_LIMITS);
    for task in 0..3u64 {
        assert_eq!(serve.next(), Wait::Next { read: true });
        let frame = format!(r#"{{"jsonrpc":"2.0","id":"{task}","method":"t/echo"}}"#);
        match serve.on_read(Some(Ok(frame.into_bytes())), &methods()) {
            Ok(Effect::Run { id, .. }) => assert_eq!(id, task.to_string()),
            other => panic!("{other:?}"),
        }
        serve.started(task);
    }
    let mut lines = Vec::new();
    for task in 0..3u64 {
        let large = Json::Text("x".repeat(MAX_FRAME_BYTES - 100));
        match serve.on_finished(task, Outcome::Answered(Ok(large))) {
            Effect::Send(line) => lines.push(line.len()),
            other => panic!("{other:?}"),
        }
    }
    assert!(matches!(serve.on_finished(0, Outcome::Failed), Effect::Nothing));
    assert_eq!(serve.next(), Wait::Next { read: false });
    serve.on_written(lines[0]);
    assert_eq!(serve.next(), Wait::Next { read: true });
    assert!(matches!(serve.on_read(Some(Err(FrameError::Eof)), &methods()), Err(Ended::PeerClosed)));
    assert!(matches!(serve.on_read(None, &methods()), Err(Ended::PeerClosed)));
}

#[test]
fn a_response_over_the_frame_limit_is_replaced() {
    let big = Response {
        id: Some("a".to_owned()),
        outcome: Ok(Json::Text("x".repeat(MAX_FRAME_BYTES + 10))),
    };
    let line = response_line(big);
    assert!(line.len() <= MAX_FRAME_BYTES + 1);
    let v: serde_json::Value = serde_json::from_slice(&line).unwrap();
    assert_eq!((v["id"].clone(), code(&v)), ("a".into(), -32603));
}

#[test]
fn errors_carry_their_kind_and_data() {
    let e = RpcError::application(ErrorKind::Forbidden, "no \"entry\"\n".to_owned())
        .with_data("limit", Json::Number("3".to_owned()));
    assert_eq!(
        e.to_json().to_text(),
        r#"{"code":-32000,"data":{"kind":"forbidden","limit":3},"message":"no \"entry\"\n"}"#
    );
    assert_eq!(RpcError::parse_error("x".to_owned()).code, -32700);
    assert_eq!(RpcError::invalid_request("x".to_owned()).code, -32600);
    assert_eq!(RpcError::method_not_found("m").code, -32601);
    assert_eq!(RpcError::invalid_params("x".to_owned()).code, -32602);
    assert_eq!(RpcError::internal("x".to_owned()).code, -32603);
    assert_eq!(clip(&"é".repeat(200)), "é".repeat(64) + "…");
}

#[test]
fn a_connection_ends_as_its_stream_did() {
    assert!(matches!(conn_end(FrameError::Eof), Ended::PeerClosed));
    assert!(matches!(conn_end(FrameError::TooLong { limit: 1 }), Ended::TooLong));
    assert!(matches!(
        conn_end(FrameError::Io(IoFault::new("read boom", "x"))),
        Ended::ReadFailed(e) if e.text == "read boom"
    ));
    let late = write_timeout_fault(TEST_LIMITS);
    assert_eq!(late.text, "a response took longer than 10000ms to write");
    assert_eq!(
        late.shown,
        "Custom { kind: TimedOut, error: \"a response took longer than 10000ms to write\" }"
    );
}

#[test]
fn an_unknown_method_is_echoed_only_in_part() {
    let long = "m".repeat(200);
    let v = answered(&("{\"jsonrpc\":\"2.0\",\"id\":\"a\",\"method\":\"".to_owned() + &long + "\"}"));
    assert_eq!(v["id"], "a");
    assert_eq!(code(&v), i64::from(METHOD_NOT_FOUND));
    let message = v["error"]["message"].as_str().unwrap();
    assert!(message.contains(&"m".repeat(100)), "{message}");
    assert!(!message.contains(&"m".repeat(129)), "{message}");
    assert!(answered("{\"jsonrpc\":\"2.0\",\"id\":\"a\",\"method\":\"t/none\"}")["error"]["message"]
        .as_str()
        .unwrap()
        .contains("t/none"));
}

#[test]
fn a_repeated_key_of_the_envelope_is_echoed_only_in_part() {
    let key = "k".repeat(200);
    let frame = "{\"".to_owned() + &key + "\":1,\"" + &key + "\":2,\"id\":\"a\"}";
    let v = answered(&frame);
    assert!(v["id"].is_null());
    assert_eq!(code(&v), i64::from(INVALID_REQUEST));
    let message = v["error"]["message"].as_str().unwrap();
    assert!(message.contains(&"k".repeat(100)), "{message}");
    assert!(!message.contains(&"k".repeat(129)), "{message}");
}

#[test]
fn a_task_runs_one_call() {
    let mut conn = Conn::new(TEST_LIMITS);
    conn.started("a".to_owned(), 1);
    conn.started("b".to_owned(), 2);
    let ended = conn.finished(1, Outcome::Failed).unwrap();
    assert_eq!(ended.id.as_deref(), Some("a"));
    assert!(conn.finished(1, Outcome::Failed).is_none());
    assert_eq!(conn.in_flight(), 1);
    let ended = conn.finished(2, Outcome::Failed).unwrap();
    assert_eq!(ended.id.as_deref(), Some("b"));
}
