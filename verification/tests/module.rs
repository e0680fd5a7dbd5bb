use agent24_os_proto::endpoint::{check_first, reply_to, FirstRead, Reply};
use agent24_os_proto::frame::{FrameError, IoFault, MAX_FRAME_BYTES};
use agent24_os_proto::initialize::{
    error_line, success_line, Accepted, Expectation, HandshakeError, InitializeResult, Offer,
};
use agent24_os_proto::json::{parse, Json};
use agent24_os_proto::launch;
use agent24_os_proto::manifest::manifest_digest;
use agent24_os_proto::module::{
    call_outcome, handshake, hello_line, judge_reply, read_reply, Answer, CallError, CallOptions,
    ConnectError, Connection, EnvError, FatalHook, Hello, Incoming, LineWritten, ModuleEnv,
    RpcErrorInfo, DEFAULT_RESPONSE_TIMEOUT, SPAWN_ENV_VARS,
};
use agent24_os_proto::rpc::{
    response_line, Checked, Dispatch, ErrorKind, Handler, Methods, Response, RpcError, Running,
    CALL_TIMEOUT,
};
use agent24_os_proto::version::{VersionMismatch, VersionRange};

fn json(text: &str) -> Json {
    parse(text.as_bytes()).unwrap()
}

fn value(line: &[u8]) -> serde_json::Value {
    serde_json::from_slice(line).unwrap()
}

fn env() -> ModuleEnv {
    ModuleEnv::from_vars(
        Some(b"/data".to_vec()),
        Some(b"/cb.sock".to_vec()),
        Some("s3cret".to_owned()),
    )
    .ok()
    .unwrap()
}

fn conn() -> Connection {
    Connection::new(Offer { provides: vec!["_a24/events/".to_owned()] })
}

/// Takes a slot, registers the next call and gives its id and its line.
fn send(c: &mut Connection, method: &str) -> (String, Vec<u8>) {
    let (id, line) = c.encode_request(method, json("{}")).ok().unwrap();
    assert!(c.take_slot(true).ok().unwrap());
    assert!(c.register(&id).is_ok());
    (id, line)
}

#[test]
fn initialize_reply_is_lenient_where_the_kernel_type_is_strict() {
    let with_extra = json(
        r#"{"protocol_version": 1,
            "offer": {"provides": ["_a24/events/"], "x": "unexpected"},
            "future": "field"}"#,
    );
    assert!(
        read_reply(&with_extra, true).is_err(),
        "the kernel's own type must still reject unknown fields"
    );
    let reply = read_reply(&with_extra, false).unwrap();
    assert_eq!(reply.protocol_version, 1);
    assert_eq!(reply.offer.provides, vec!["_a24/events/".to_string()]);

    let strict = Accepted {
        id: "1".to_owned(),
        result: InitializeResult {
            protocol_version: 1,
            offer: Offer {
                provides: vec!["_a24/memory/private/".to_string()],
            },
        },
    };
    let Json::Object(members) = parse(&success_line(&strict)).unwrap() else {
        panic!("a response is an object")
    };
    let result = members.iter().find(|m| m.0 == "result").unwrap();
    let roundtrip = read_reply(&result.1, false).unwrap();
    assert_eq!(roundtrip.protocol_version, strict.result.protocol_version);
    assert_eq!(roundtrip.offer, strict.result.offer);
}

#[test]
fn a_reply_is_read_field_by_field() {
    let read = |text: &str| read_reply(&json(text), false);
    assert_eq!(read("{}").unwrap_err(), "missing field `protocol_version`");
    assert_eq!(read(r#"{"protocol_version":1}"#).unwrap_err(), "missing field `offer`");
    assert_eq!(
        read(r#"{"protocol_version":1,"offer":{}}"#).unwrap_err(),
        "missing field `provides`"
    );
    assert_eq!(read(r#"[1,[["a"]]]"#).unwrap().offer.provides, vec!["a".to_owned()]);
    assert_eq!(
        read("[1]").unwrap_err(),
        "invalid length 1, expected struct InitializeReply with 2 elements"
    );
    assert_eq!(
        read("null").unwrap_err(),
        "invalid type: null, expected struct InitializeReply"
    );
    assert_eq!(
        read_reply(&json(r#"{"x":1}"#), true).unwrap_err(),
        "unknown field `x`, expected `protocol_version` or `offer`"
    );
}

#[test]
fn the_first_variable_that_is_missing_is_named() {
    let missing = |d: Option<Vec<u8>>, c: Option<Vec<u8>>, t: Option<String>| match ModuleEnv::from_vars(d, c, t) {
        Err(EnvError::Missing(n)) => n,
        Ok(_) => "",
    };
    assert_eq!(missing(None, None, None), launch::ENV_DATA_DIR);
    assert_eq!(missing(Some(vec![]), None, None), launch::ENV_CALLBACK_SOCK);
    assert_eq!(missing(Some(vec![]), Some(vec![]), None), launch::ENV_HANDSHAKE_TOKEN);
    assert_eq!(env().data_dir(), b"/data");
    assert_eq!(env().callback_sock(), b"/cb.sock");
    assert_eq!(
        SPAWN_ENV_VARS,
        ["A24_LISTEN_FD", "A24_CALLBACK_SOCK", "A24_HANDSHAKE_TOKEN", "A24_DATA_DIR"]
    );
}

#[test]
fn a_hook_does_what_it_was_made_of() {
    let count = std::cell::Cell::new(0);
    let hook = FatalHook::new(|| count.set(count.get() + 1));
    hook.fire();
    assert_eq!(count.get(), 1);
}

#[test]
fn a_module_and_a_kernel_that_agree_complete_the_handshake() {
    let capabilities = ["events"];
    let hello = Hello {
        module: "sin90",
        manifest_bytes: b"name: sin90\n",
        capabilities: &capabilities,
        protocol_min: 1,
        protocol_max: 2,
    };
    let line = hello_line(&hello, &env());
    let v = value(&line);
    assert_eq!(v["params"]["manifest_digest"], manifest_digest(b"name: sin90\n"));
    assert_eq!(v["params"]["auth_token"], "s3cret");
    let expect = Expectation {
        module: "sin90".to_owned(),
        manifest_digest: manifest_digest(b"name: sin90\n"),
        auth_token: "s3cret".to_owned(),
        kernel_versions: VersionRange::new(1, 1).unwrap(),
        offer: Offer { provides: vec!["_a24/events/".to_owned()] },
    };
    let frame = line[..line.len() - 1].to_vec();
    let checked = check_first(FirstRead::Frame(frame), &expect).unwrap();
    let Reply::Welcome { line, .. } = reply_to(checked, 10, 0).unwrap() else {
        panic!("refused")
    };
    let offer = handshake(Ok(line[..line.len() - 1].to_vec()), &hello, false).unwrap();
    assert_eq!(offer.provides, vec!["_a24/events/".to_owned()]);
    let extra = handshake(Ok(line[..line.len() - 1].to_vec()), &hello, true).unwrap_err();
    assert_eq!(
        extra.to_text(),
        "protocol error: kernel sent unexpected extra bytes immediately after the initialize response"
    );
}

#[test]
fn a_kernel_that_answers_otherwise_is_refused() {
    let judged = |text: &str| judge_reply(parse(text.as_bytes()), 1, 2, false);
    let told = |text: &str| judged(text).unwrap_err().to_text();
    assert_eq!(
        told(r#"{"id":"2"}"#),
        "protocol error: handshake response id mismatch: sent 1, got 2"
    );
    assert_eq!(
        told(r#"{"id":"1","error":{"code":-32000,"message":"no","data":{"kind":"auth_failed"}}}"#),
        "handshake refused (-32000 Some(\"auth_failed\")): no"
    );
    assert_eq!(told(r#"{"id":"1","error":7}"#), "handshake refused (0 None): ");
    assert_eq!(
        told(r#"{"id":"1","result":{"protocol_version":3,"offer":{"provides":[]}}}"#),
        "protocol error: kernel chose protocol version 3 outside of the declared range [1, 2]"
    );
    assert_eq!(
        told(r#"{"id":"1"}"#),
        "protocol error: invalid type: null, expected struct InitializeReply"
    );
    assert!(judged(r#"{"id":"1","result":{"protocol_version":2,"offer":{"provides":[]}}}"#).is_ok());
    assert!(matches!(judged("{"), Err(ConnectError::Protocol(_))));
    let hello = Hello {
        module: "m",
        manifest_bytes: b"",
        capabilities: &[],
        protocol_min: 2,
        protocol_max: 1,
    };
    assert_eq!(
        handshake(Err(FrameError::Eof), &hello, false).unwrap_err().to_text(),
        "protocol error: the stream ended before a newline"
    );
    assert_eq!(
        value(&hello_line(&hello, &env()))["params"]["protocol_versions"],
        serde_json::Value::Null
    );
    assert_eq!(
        ConnectError::Io(IoFault::new("gone", "g")).to_text(),
        "i/o error: gone"
    );
}

#[test]
fn responses_out_of_order_reach_their_own_calls() {
    let mut c = conn();
    let (a, line) = send(&mut c, "_a24/events/emit");
    let v = value(&line);
    assert_eq!((a.as_str(), v["id"].clone()), ("c-1", "c-1".into()));
    assert_eq!(v["method"], "_a24/events/emit");
    let (b, _) = send(&mut c, "_a24/events/emit");
    match c.on_read(Ok(format!(r#"{{"id":"{b}","result":{{"n":2}}}}"#).into_bytes())) {
        Incoming::Deliver { id, result } => {
            assert_eq!(id, b);
            assert_eq!(result.ok().unwrap().to_text(), r#"{"n":2}"#);
        }
        other => panic!("{other:?}"),
    }
    match c.on_read(Ok(format!(r#"{{"id":"{a}","error":{{"code":-32602,"message":"bad"}}}}"#).into_bytes())) {
        Incoming::Deliver { id, result } => {
            assert_eq!(id, a);
            assert_eq!(
                result.err().unwrap().to_text(),
                "kernel rejected the call: (-32602): bad"
            );
        }
        other => panic!("{other:?}"),
    }
    assert!(c.end_call(&a).is_none());
    assert!(c.end_call(&b).is_none());
    assert_eq!(c.available_permits(), 64);
}

#[test]
fn the_65th_in_flight_call_is_busy() {
    let mut c = conn();
    let mut last = String::new();
    for _ in 0..64 {
        last = send(&mut c, "m").0;
    }
    assert_eq!(c.available_permits(), 0);
    assert_eq!(c.take_slot(false).ok(), Some(false));
    let busy = c.take_slot(true).err().unwrap();
    assert_eq!(busy.to_text(), "64 calls already in flight on this connection");
    assert!(c.end_call(&last).is_some());
    assert_eq!(c.take_slot(true).ok(), Some(true));
    assert_eq!(c.available_permits(), 0);
    c.declare_dead();
    assert_eq!(c.register("late").err().unwrap().to_text(), "callback connection is closed; the call was never sent");
    assert_eq!(c.available_permits(), 1);
}

#[test]
fn a_call_given_up_sends_the_exact_cancel_and_frees_its_slot() {
    let mut c = conn();
    let (id, _) = send(&mut c, "m");
    assert_eq!(
        c.end_call(&id).unwrap(),
        b"{\"jsonrpc\":\"2.0\",\"method\":\"$/cancelRequest\",\"params\":{\"id\":\"c-1\"}}\n"
    );
    assert_eq!(c.available_permits(), 64);
    let late = c.on_read(Ok(br#"{"id":"c-1","result":1}"#.to_vec()));
    assert!(matches!(late, Incoming::Dropped));
    assert!(matches!(c.on_read(Ok(br#"{"result":1}"#.to_vec())), Incoming::Dropped));
    assert!(c.is_alive());
    let (next, _) = send(&mut c, "m");
    assert_eq!(next, "c-2");
}

#[test]
fn a_call_is_answered_once() {
    let mut c = conn();
    let (id, _) = send(&mut c, "m");
    let answer = format!(r#"{{"id":"{id}"}}"#).into_bytes();
    match c.on_read(Ok(answer.clone())) {
        Incoming::Deliver { result, .. } => assert_eq!(result.ok().unwrap().to_text(), "null"),
        other => panic!("{other:?}"),
    }
    assert!(matches!(c.on_read(Ok(answer)), Incoming::Dropped));
}

#[test]
fn a_dead_connection_fails_what_waits_and_everything_after() {
    for death in [
        |c: &mut Connection| c.on_read(Ok(b"not json".to_vec())),
        |c: &mut Connection| c.on_read(Err(FrameError::TooLong { limit: 1 })),
        |c: &mut Connection| c.on_written(LineWritten::TimedOut),
        |c: &mut Connection| c.on_written(LineWritten::Failed(IoFault::new("x", "x"))),
    ] {
        let mut c = conn();
        let (a, _) = send(&mut c, "m");
        let (b, _) = send(&mut c, "m");
        let _ = c.on_read(Ok(format!(r#"{{"id":"{a}","result":1}}"#).into_bytes()));
        match death(&mut c) {
            Incoming::Dead { lost } => assert_eq!(lost, Some(vec![b.clone()])),
            other => panic!("{other:?}"),
        }
        assert!(!c.is_alive());
        assert!(matches!(death(&mut c), Incoming::Dead { lost: None }));
        assert!(c.declare_dead().is_none());
        assert!(c.end_call(&b).is_none());
        let refused = c.take_slot(false).err().unwrap();
        assert_eq!(
            refused.to_text(),
            "callback connection is closed; the call was never sent"
        );
    }
    let mut c = conn();
    assert!(c.take_slot(true).is_ok());
    assert!(c.declare_dead().is_some());
    assert!(matches!(c.register("c-9"), Err(CallError::NotSent)));
    assert_eq!(c.available_permits(), 64);
    assert!(matches!(c.on_written(LineWritten::Done), Incoming::Dropped));
    assert_eq!(c.offer().provides.len(), 1);
}

#[test]
fn an_id_that_is_held_is_not_used_again() {
    let mut c = conn();
    let (id, _) = send(&mut c, "m");
    assert!(c.take_slot(true).is_ok());
    let e = c.register(&id).err().unwrap();
    assert_eq!(
        e.to_text(),
        "internal bug: call id already in flight on this connection"
    );
    assert_eq!(c.available_permits(), 63);
}

#[test]
fn a_frame_of_exactly_the_limit_is_accepted_and_one_more_is_not() {
    let empty = r#"{"id":"c-1","jsonrpc":"2.0","method":"m","params":""}"#.len();
    let mut c = conn();
    let fits = Json::Text("x".repeat(MAX_FRAME_BYTES - empty));
    let (_, line) = c.encode_request("m", fits).ok().unwrap();
    assert_eq!(line.len(), MAX_FRAME_BYTES + 1);
    let mut c = conn();
    let over = Json::Text("x".repeat(MAX_FRAME_BYTES - empty + 1));
    let e = c.encode_request("m", over).err().unwrap();
    assert_eq!(e.to_text(), "params would serialize to more than 1048576 bytes");
    assert_eq!(c.available_permits(), 64);
}

#[test]
fn what_waiting_came_to() {
    assert_eq!(
        call_outcome(Answer::TimedOut).err().unwrap().to_text(),
        "no response within the fallback deadline"
    );
    assert_eq!(
        call_outcome(Answer::Gone).err().unwrap().to_text(),
        "callback connection was lost while this call was in flight; its outcome is unknown"
    );
    assert!(call_outcome(Answer::Came(Ok(Json::Null))).is_ok());
    let defaults = CallOptions::default();
    assert_eq!(defaults.response_timeout, DEFAULT_RESPONSE_TIMEOUT);
    assert!(defaults.response_timeout > CALL_TIMEOUT);
    assert_eq!(defaults.slot_wait, None);
}

#[test]
fn an_error_is_read_whatever_it_lacks() {
    let e = RpcErrorInfo::from_json(&json(
        r#"{"code":-9223372036854775808,"message":"m","data":{"kind":"busy","x":1}}"#,
    ));
    assert_eq!(e.code, i64::MIN);
    assert_eq!(e.kind.as_deref(), Some("busy"));
    assert_eq!(e.data.as_ref().unwrap().to_text(), r#"{"kind":"busy","x":1}"#);
    assert_eq!(e.to_text(), "busy (-9223372036854775808): m");
    for odd in ["null", "{}", r#"{"code":1.5}"#, r#"{"code":9223372036854775808}"#] {
        assert_eq!(RpcErrorInfo::from_json(&json(odd)).to_text(), "(0): ", "{odd}");
    }
}

struct Any;

impl Handler for Any {
    fn check_params(&self, _: &Json) -> Checked {
        Checked::Passed
    }
}

#[test]
fn the_kernel_understands_what_a_module_sends() {
    let methods = Methods::none().with("m", Any);
    let mut c = conn();
    let (id, line) = send(&mut c, "m");
    match agent24_os_proto::rpc::dispatch(&line[..line.len() - 1], &methods, &Running::new()) {
        Dispatch::Call { id: asked, params, .. } => {
            assert_eq!(asked, id);
            assert_eq!(params.to_text(), "{}");
        }
        other => panic!("{other:?}"),
    }
    let cancel = c.end_call(&id).unwrap();
    let d = agent24_os_proto::rpc::dispatch(&cancel[..cancel.len() - 1], &methods, &Running::new());
    assert!(matches!(d, Dispatch::Cancel { id: gone } if gone == id));
}

#[test]
fn a_module_that_is_refused_reads_why() {
    let hello = Hello {
        module: "m",
        manifest_bytes: b"",
        capabilities: &[],
        protocol_min: 5,
        protocol_max: 6,
    };
    let range = |min, max| VersionRange::new(min, max).unwrap();
    for (error, code, kind) in [
        (HandshakeError::Parse("eof \"é\"".to_owned()), -32700, None),
        (HandshakeError::NotInitialize("a frame".to_owned()), -32600, None),
        (HandshakeError::BadParams("no `params`".to_owned()), -32602, None),
        (HandshakeError::AuthFailed, -32000, Some("auth_failed")),
        (
            HandshakeError::ManifestMismatch { expected: "a@1".to_owned(), got: "b@2".to_owned() },
            -32000,
            Some("manifest_mismatch"),
        ),
        (
            HandshakeError::VersionMismatch(VersionMismatch::NoOverlap {
                module: range(5, 6),
                kernel: range(1, 2),
            }),
            -32000,
            Some("version_mismatch"),
        ),
        (
            HandshakeError::VersionMismatch(VersionMismatch::NotDeclared { kernel: range(1, 2) }),
            -32000,
            Some("version_mismatch"),
        ),
    ] {
        let line = error_line(Some("1"), &error);
        match handshake(Ok(line[..line.len() - 1].to_vec()), &hello, false).unwrap_err() {
            ConnectError::Refused { code: told, kind: of, message } => {
                assert_eq!(told, code, "{error:?}");
                assert_eq!(of.as_deref(), kind, "{error:?}");
                assert_eq!(message, error.to_text());
            }
            other => panic!("{other:?}"),
        }
    }
}

#[test]
fn an_answer_of_the_kernels_reaches_its_call() {
    let mut c = conn();
    let (first, _) = send(&mut c, "m");
    let (second, _) = send(&mut c, "m");
    let line = response_line(Response {
        id: Some(first.clone()),
        outcome: Ok(Json::Object(vec![
            ("b".to_owned(), Json::Bool(true)),
            ("a".to_owned(), Json::Null),
        ])),
    });
    match c.on_read(Ok(line[..line.len() - 1].to_vec())) {
        Incoming::Deliver { id, result } => {
            assert_eq!(id, first);
            assert_eq!(result.unwrap().to_text(), r#"{"a":null,"b":true}"#);
        }
        other => panic!("{other:?}"),
    }
    let error = RpcError::application(ErrorKind::Busy, "later".to_owned())
        .with_data("after", Json::Number("3".to_owned()));
    let line = response_line(Response { id: Some(second.clone()), outcome: Err(error) });
    match c.on_read(Ok(line[..line.len() - 1].to_vec())) {
        Incoming::Deliver { id, result: Err(CallError::Rpc(info)) } => {
            assert_eq!(id, second);
            assert_eq!(info.code, -32000);
            assert_eq!(info.kind.as_deref(), Some("busy"));
            assert_eq!(info.message, "later");
            assert_eq!(info.data.unwrap().to_text(), r#"{"after":3,"kind":"busy"}"#);
        }
        other => panic!("{other:?}"),
    }
}
