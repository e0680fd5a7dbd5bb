use agent24_os_proto::frame::MAX_FRAME_BYTES;
use agent24_os_proto::initialize::{
    accept, error_line, id_of, read_params, success_line, Expectation, HandshakeError,
    InitializeParams, InitializeRequest, Offer, INITIALIZE_METHOD,
};
use agent24_os_proto::json::{parse, Json};
use agent24_os_proto::module::request_line;
use agent24_os_proto::rpc::MAX_ID_BYTES;
use agent24_os_proto::version::{VersionMismatch, VersionRange};

fn expectation() -> Expectation {
    Expectation {
        module: "cos72".to_owned(),
        manifest_digest: "sha256:abc".to_owned(),
        auth_token: "s3cret".to_owned(),
        kernel_versions: VersionRange::new(1, 1).unwrap(),
        offer: Offer::none(),
    }
}

fn good_frame() -> String {
    r#"{"jsonrpc":"2.0","method":"initialize","id":"1","params":{
        "protocol_versions":{"min":1,"max":1},
        "module":"cos72","manifest_digest":"sha256:abc",
        "auth_token":"s3cret","capabilities":["events"]}}"#
        .to_owned()
}

fn value(line: &[u8]) -> serde_json::Value {
    serde_json::from_slice(line).unwrap()
}

#[test]
fn the_handshake_id_is_a_string() {
    let numeric = good_frame().replace(r#""id":"1""#, r#""id":1"#);
    let err = accept(numeric.as_bytes(), &expectation()).unwrap_err();
    assert_eq!(err.code(), -32600, "{}", err.to_text());
    let long = good_frame().replace(
        r#""id":"1""#,
        &format!(r#""id":"{}""#, "x".repeat(MAX_ID_BYTES + 1)),
    );
    let err = accept(long.as_bytes(), &expectation()).unwrap_err();
    assert_eq!(err.code(), -32600, "{}", err.to_text());
    accept(good_frame().as_bytes(), &expectation()).unwrap();
}

#[test]
fn a_correct_handshake_is_accepted_and_answers_with_one_version() {
    let out = accept(good_frame().as_bytes(), &expectation()).expect("valid handshake");
    assert_eq!(out.result.protocol_version, 1);
    assert_eq!(out.result.offer, Offer::none());
    assert_eq!(out.id, "1", "the id comes back, to answer under");
}

#[test]
fn the_spec_error_codes() {
    let e = expectation();
    let case = |frame: &str| accept(frame.as_bytes(), &e).expect_err("must refuse");

    let parse = case("{not json");
    assert_eq!(parse.code(), -32700, "{}", parse.to_text());
    assert_eq!(parse.kind(), None);

    let wrong_method =
        case(r#"{"jsonrpc":"2.0","method":"ping","id":"1","params":{"module":"cos72"}}"#);
    assert_eq!(wrong_method.code(), -32600, "{}", wrong_method.to_text());
    let wrong_method_complete = case(&good_frame().replace("\"initialize\"", "\"ping\""));
    assert_eq!(wrong_method_complete.code(), -32600);

    let missing_field =
        case(r#"{"jsonrpc":"2.0","method":"initialize","id":"1","params":{"module":"cos72"}}"#);
    assert_eq!(missing_field.code(), -32602, "{}", missing_field.to_text());

    let bad_token = case(&good_frame().replace("s3cret", "wrong"));
    assert_eq!(bad_token.code(), -32000);
    assert_eq!(bad_token.kind(), Some("auth_failed"));

    let bad_digest = case(&good_frame().replace("sha256:abc", "sha256:zzz"));
    assert_eq!(bad_digest.code(), -32000);
    assert_eq!(bad_digest.kind(), Some("manifest_mismatch"));

    let no_overlap = case(&good_frame().replace(r#""min":1,"max":1"#, r#""min":7,"max":9"#));
    assert_eq!(no_overlap.code(), -32000);
    assert_eq!(no_overlap.kind(), Some("version_mismatch"));
    let undeclared = case(&good_frame().replace(r#""protocol_versions":{"min":1,"max":1},"#, ""));
    assert_eq!(undeclared.kind(), Some("version_mismatch"));

    let codes = [
        parse.code(),
        wrong_method.code(),
        missing_field.code(),
        bad_token.code(),
    ];
    assert_eq!(codes.len(), 4);
    assert!(codes.iter().collect::<std::collections::BTreeSet<_>>().len() == 4);
}

#[test]
fn a_duplicate_key_is_refused_rather_than_last_one_wins() {
    let dup = good_frame().replace(
        r#""auth_token":"s3cret""#,
        r#""auth_token":"decoy","auth_token":"s3cret""#,
    );
    let err = accept(dup.as_bytes(), &expectation()).unwrap_err();
    assert_eq!(err.code(), -32602, "{}", err.to_text());
    assert!(accept(good_frame().as_bytes(), &expectation()).is_ok());
}

#[test]
fn an_unknown_field_is_refused_not_ignored() {
    let extra = good_frame().replace(r#""capabilities""#, r#""future_field":1,"capabilities""#);
    let err = accept(extra.as_bytes(), &expectation()).expect_err("unknown field");
    assert_eq!(err.code(), -32602, "{}", err.to_text());
}

#[test]
fn the_shape_is_checked_before_the_token() {
    let both_wrong = r#"{"jsonrpc":"2.0","method":"ping","id":"1","params":{"module":"x"}}"#;
    let err = accept(both_wrong.as_bytes(), &expectation()).unwrap_err();
    assert_eq!(err.code(), -32600, "the token was consulted first: {}", err.to_text());
}

#[test]
fn the_auth_failure_is_not_an_oracle() {
    let err = accept(
        good_frame().replace("s3cret", "wrong").as_bytes(),
        &expectation(),
    )
    .unwrap_err();
    let text = err.to_text();
    for leak in ["s3cret", "wrong", "6", "length"] {
        assert!(!text.contains(leak), "{text} leaks {leak:?}");
    }
}

#[test]
fn an_unoffered_method_family_is_simply_absent() {
    let empty = Offer::none();
    assert!(!empty.provides("_a24/memory/scoped/get"));
    assert!(!empty.provides("_a24/memory/private/get"));
    let later = Offer {
        provides: vec!["_a24/memory/private".to_owned()],
    };
    assert!(later.provides("_a24/memory/private/get"));
    assert!(
        !later.provides("_a24/memory/scoped/get"),
        "offering private must not imply scoped"
    );
}

#[test]
fn the_largest_possible_initialize_fits_in_one_frame() {
    let params = InitializeParams {
        protocol_versions: VersionRange::new(1, u32::MAX),
        module: "m".repeat(64),
        manifest_digest: format!("sha512:{}", "f".repeat(128)),
        auth_token: "t".repeat(4096),
        capabilities: vec![
            "memory.private".to_owned(),
            "memory.scoped".to_owned(),
            "events".to_owned(),
            "approval".to_owned(),
        ],
    };
    let req = InitializeRequest {
        jsonrpc: "2.0".to_owned(),
        method: INITIALIZE_METHOD.to_owned(),
        id: "x".repeat(MAX_ID_BYTES),
        params,
    };
    let encoded = request_line(&req);
    assert!(encoded.len() - 1 < MAX_FRAME_BYTES, "{}", encoded.len());
    let oversized = vec![b'x'; MAX_FRAME_BYTES + 1];
    assert!(oversized.len() > MAX_FRAME_BYTES);
    let v = value(&encoded);
    assert_eq!(v["params"]["protocol_versions"]["max"], u32::MAX);
    assert_eq!(v["params"]["capabilities"][3], "approval");
}

#[test]
fn envelope_faults_are_invalid_requests_not_bad_params() {
    let g = good_frame();
    let cases = [
        (
            "jsonrpc a number",
            g.replace(r#""jsonrpc":"2.0""#, r#""jsonrpc":2"#),
        ),
        ("no id", g.replace(r#""id":"1","#, "")),
        (
            "an unknown member",
            g.replace(r#""id":"1","#, r#""id":"1","extra":true,"#),
        ),
        (
            "a repeated id",
            g.replace(r#""id":"1","#, r#""id":"1","id":"2","#),
        ),
        (
            "a repeated method",
            g.replace(
                r#""method":"initialize","#,
                r#""method":"ping","method":"initialize","#,
            ),
        ),
    ];
    for (what, frame) in cases {
        let err = accept(frame.as_bytes(), &expectation()).expect_err(what);
        assert_eq!(err.code(), -32600, "{what}: {}", err.to_text());
    }
    let repeated_token = g.replace(
        r#""auth_token":"s3cret""#,
        r#""auth_token":"x","auth_token":"s3cret""#,
    );
    assert_eq!(
        accept(repeated_token.as_bytes(), &expectation())
            .unwrap_err()
            .code(),
        -32602,
        "a repeat inside params is bad params"
    );
    accept(g.as_bytes(), &expectation()).expect("control");
}

#[test]
fn a_refusal_is_answered_under_null_when_the_id_is_ambiguous() {
    let g = good_frame();
    assert_eq!(id_of(g.as_bytes()).as_deref(), Some("1"));
    let repeated = g.replace(r#""id":"1","#, r#""id":"1","id":"2","#);
    assert_eq!(id_of(repeated.as_bytes()), None);
}

#[test]
fn a_refusal_that_quotes_the_module_stays_small() {
    let long = "m".repeat(MAX_FRAME_BYTES - 1000);
    let frame = good_frame().replace(r#""module":"cos72""#, &format!(r#""module":"{long}""#));
    assert!(frame.len() < MAX_FRAME_BYTES);
    let err = accept(frame.as_bytes(), &expectation()).expect_err("a different name");
    assert!(matches!(err, HandshakeError::ManifestMismatch { .. }));
    let line = error_line(id_of(frame.as_bytes()).as_deref(), &err);
    assert!(line.len() < 2048, "{} bytes", line.len());
    let v = value(&line);
    assert_eq!(v["error"]["data"]["kind"], "manifest_mismatch");
}

#[test]
fn a_repeat_inside_a_non_params_member_is_an_envelope_fault() {
    let g = good_frame();
    let cases = [
        (
            "method",
            g.replace(r#""method":"initialize""#, r#""method":{"x":1,"x":2}"#),
        ),
        ("id", g.replace(r#""id":"1""#, r#""id":{"x":1,"x":2}"#)),
        (
            "unknown member",
            g.replace(r#""id":"1","#, r#""id":"1","extra":{"x":1,"x":2},"#),
        ),
    ];
    for (what, frame) in cases {
        let err = accept(frame.as_bytes(), &expectation()).expect_err(what);
        assert_eq!(err.code(), -32600, "{what}: {}", err.to_text());
    }
}

#[test]
fn an_overlong_id_is_not_echoed_by_error_line() {
    let huge = "i".repeat(MAX_FRAME_BYTES);
    let line = error_line(Some(&huge), &HandshakeError::AuthFailed);
    assert!(line.len() < 1024, "{} bytes", line.len());
    let v = value(&line);
    assert_eq!(v["id"], serde_json::Value::Null);
    let v = value(&error_line(Some("ok"), &HandshakeError::AuthFailed));
    assert_eq!(v["id"], "ok");
}

#[test]
fn a_version_refusal_carries_both_ranges() {
    let err = HandshakeError::VersionMismatch(VersionMismatch::NoOverlap {
        module: VersionRange::new(3, 4).unwrap(),
        kernel: VersionRange::new(1, 1).unwrap(),
    });
    let v = value(&error_line(Some("v"), &err));
    assert_eq!(v["error"]["data"]["kind"], "version_mismatch");
    assert_eq!(v["error"]["data"]["module"], value(br#"{"min": 3, "max": 4}"#));
    assert_eq!(v["error"]["data"]["kernel"], value(br#"{"min": 1, "max": 1}"#));
}

#[test]
fn a_success_is_answered_on_one_line_under_the_id() {
    let mut expect = expectation();
    expect.offer.provides.push("_a24/events/".to_owned());
    let accepted = accept(good_frame().as_bytes(), &expect).unwrap();
    assert_eq!(
        String::from_utf8(success_line(&accepted)).unwrap(),
        "{\"id\":\"1\",\"jsonrpc\":\"2.0\",\"result\":{\"offer\":{\"provides\":[\"_a24/events/\"]},\
         \"protocol_version\":1}}\n"
    );
}

#[test]
fn an_undeclared_version_is_answered_with_null_for_the_modules_range() {
    let frame = good_frame().replace(r#""protocol_versions":{"min":1,"max":1},"#, "");
    let err = accept(frame.as_bytes(), &expectation()).unwrap_err();
    let v = value(&error_line(Some("1"), &err));
    assert_eq!(v["error"]["data"]["module"], serde_json::Value::Null);
    assert_eq!(v["error"]["data"]["kernel"]["min"], 1);
}

#[test]
fn params_may_be_a_list_of_the_fields_in_order() {
    let read = |text: &str| read_params(&parse(text.as_bytes()).unwrap());
    let listed = read(r#"[{"min":1,"max":2},"m","d","t",["c"]]"#).unwrap();
    assert_eq!(listed.module, "m");
    assert_eq!(listed.protocol_versions, VersionRange::new(1, 2));
    assert_eq!(listed.capabilities, vec!["c".to_owned()]);
    assert!(read(r#"[null,"m","d"]"#).unwrap_err().contains("invalid length 3"));
    assert!(read(r#"[null,"m","d","t",[],1]"#)
        .unwrap_err()
        .contains("fewer elements in array"));
    assert_eq!(
        read("7").unwrap_err(),
        "invalid type: integer `7`, expected struct InitializeParams"
    );
    assert_eq!(
        read(r#"{"module":1}"#).unwrap_err(),
        "invalid type: integer `1`, expected a string"
    );
    assert!(matches!(parse(b"[1"), Err(_)));
    assert!(matches!(parse(b"[]"), Ok(Json::Array(items)) if items.is_empty()));
}
