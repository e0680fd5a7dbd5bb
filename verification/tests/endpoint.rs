use agent24_os_proto::endpoint::{
    accept_one, answer_until, answered, check_first, check_private, is_own_node, is_stale,
    judge_bound, needs_mode, pid_to_ask, reply_to, CallbackDir, EndpointError, FirstRead,
    HandshakeFailed, Node, Reply, TakenOver, Waited, Written, MAX_SOCKET_PATH,
};
use agent24_os_proto::frame::{FrameError, IoFault};
use agent24_os_proto::initialize::{Expectation, HandshakeError, Offer};
use agent24_os_proto::version::VersionRange;

fn fault() -> IoFault {
    IoFault::new("denied", "Os { code: 13 }")
}

fn expectation() -> Expectation {
    Expectation {
        module: "cos72".to_owned(),
        manifest_digest: "sha256:abc".to_owned(),
        auth_token: "s3cret".to_owned(),
        kernel_versions: VersionRange::new(1, 1).unwrap(),
        offer: Offer::none(),
    }
}

fn initialize_frame(id: &str, token: &str) -> Vec<u8> {
    format!(
        r#"{{"jsonrpc":"2.0","method":"initialize","id":"{id}","params":{{"protocol_versions":{{"min":1,"max":1}},"module":"cos72","manifest_digest":"sha256:abc","auth_token":"{token}","capabilities":[]}}}}"#
    )
    .into_bytes()
}

fn value(line: &[u8]) -> serde_json::Value {
    serde_json::from_slice(line).unwrap()
}

const OURS: Node = Node { is_dir: true, uid: 7, mode: 0o40700 };

#[test]
fn a_correct_first_frame_is_welcomed_in_time() {
    let read = FirstRead::Frame(initialize_frame("hello", "s3cret"));
    let checked = check_first(read, &expectation()).unwrap();
    match reply_to(checked, 100, 99).unwrap() {
        Reply::Welcome { line, accepted } => {
            let v = value(&line);
            assert_eq!(v["id"], "hello");
            assert_eq!(v["result"]["protocol_version"], 1);
            assert_eq!(accepted.id, "hello");
        }
        other => panic!("{other:?}"),
    }
}

#[test]
fn a_wrong_token_is_refused_by_kind() {
    let read = FirstRead::Frame(initialize_frame("x", "wrong"));
    let checked = check_first(read, &expectation()).unwrap();
    match reply_to(checked, 100, 0).unwrap() {
        Reply::Refusal { line, refusal } => {
            assert_eq!(refusal, HandshakeError::AuthFailed);
            let v = value(&line);
            assert_eq!(v["id"], "x");
            assert_eq!(v["error"]["data"]["kind"], "auth_failed");
        }
        other => panic!("{other:?}"),
    }
}

#[test]
fn a_passed_deadline_wins_over_a_good_frame() {
    let read = FirstRead::Frame(initialize_frame("hello", "s3cret"));
    let checked = check_first(read, &expectation()).unwrap();
    assert!(matches!(reply_to(checked, 100, 100), Err(HandshakeFailed::Timeout)));
    assert!(matches!(
        check_first(FirstRead::TimedOut, &expectation()),
        Err(HandshakeFailed::Timeout)
    ));
    let failed = check_first(FirstRead::Failed(FrameError::Eof), &expectation()).unwrap_err();
    assert_eq!(failed.to_text(), "the handshake could not be read: Eof");
    assert_eq!(
        HandshakeFailed::Frame(FrameError::TooLong { limit: 9 }).to_text(),
        "the handshake could not be read: TooLong { limit: 9 }"
    );
}

#[test]
fn an_answer_counts_only_if_the_clock_agrees() {
    let until = answer_until(100, 50, 10);
    assert_eq!(until, 60);
    assert_eq!(answer_until(100, 95, 10), 100);
    assert_eq!(answer_until(100, 200, u64::MAX), 100);
    assert!(answered(Written::Done, 100, until, 59).is_ok());
    match answered(Written::Done, 100, until, 60).unwrap_err() {
        HandshakeFailed::Write(e) => {
            assert_eq!(e.text, "the handshake answer was not taken");
            assert_eq!(
                e.shown,
                "Custom { kind: TimedOut, error: \"the handshake answer was not taken\" }"
            );
        }
        other => panic!("{other:?}"),
    }
    assert!(matches!(
        answered(Written::Done, 100, 100, 100),
        Err(HandshakeFailed::Timeout)
    ));
    assert!(matches!(
        answered(Written::TimedOut, 100, 100, 0),
        Err(HandshakeFailed::Timeout)
    ));
    assert_eq!(
        answered(Written::Failed(fault()), 100, 100, 0).unwrap_err().to_text(),
        "the handshake could not be answered: denied"
    );
}

#[test]
fn a_directory_is_private_only_with_exactly_its_mode() {
    assert!(check_private(b"/d", Ok(OURS), 7).is_ok());
    let why = |node: Node| check_private(b"/d", Ok(node), 7).unwrap_err().to_text();
    assert_eq!(
        why(Node { is_dir: false, ..OURS }),
        "/d cannot hold callback sockets: not a directory (or a symlink to one)"
    );
    assert_eq!(
        why(Node { uid: 8, ..OURS }),
        "/d cannot hold callback sockets: owned by uid 8, not 7"
    );
    assert_eq!(
        why(Node { mode: 0o755, ..OURS }),
        "/d cannot hold callback sockets: mode 0755, not 0700"
    );
    assert_eq!(
        why(Node { mode: 0o1700, ..OURS }),
        "/d cannot hold callback sockets: mode 1700, not 0700"
    );
    assert!(matches!(check_private(b"/d", Err(fault()), 7), Err(EndpointError::Io(_))));
    assert!(needs_mode(Node { mode: 0o600, ..OURS }, 7));
    assert!(!needs_mode(OURS, 7));
    assert!(!needs_mode(Node { uid: 8, mode: 0o755, is_dir: true }, 7));
}

#[test]
fn a_directory_is_held_once_at_a_time() {
    let mut taken = TakenOver::new();
    assert!(taken.take_over(b"/run/1").is_ok());
    assert!(taken.take_over(b"/run/2").is_ok());
    assert!(matches!(
        taken.take_over(b"/run/1"),
        Err(EndpointError::AlreadyCreated(p)) if p == b"/run/1"
    ));
    taken.release(b"/run/1");
    assert!(taken.take_over(b"/run/1").is_ok());
    assert!(taken.take_over(b"/run/2").is_err());
    taken.release(b"/run/none");
}

#[test]
fn every_listener_gets_a_path_never_used_before() {
    let mut dir = CallbackDir::create(b"/run/42");
    assert_eq!(dir.path(), b"/run/42");
    assert!(dir.has_next());
    assert_eq!(dir.listen_next().unwrap(), b"/run/42/1.sock");
    assert_eq!(dir.listen_next().unwrap(), b"/run/42/2.sock");
}

#[test]
fn a_socket_path_too_long_for_an_address_is_refused() {
    let fits = "/".to_owned() + &"d".repeat(MAX_SOCKET_PATH - 8);
    assert_eq!(CallbackDir::create(fits.as_bytes()).listen_next().unwrap().len(), MAX_SOCKET_PATH);
    let long = "/".to_owned() + &"d".repeat(MAX_SOCKET_PATH - 7);
    let err = CallbackDir::create(long.as_bytes()).listen_next().unwrap_err();
    assert!(matches!(&err, EndpointError::PathTooLong(p) if p.ends_with(b"/1.sock")));
    assert!(err.to_text().ends_with("is longer than 103 bytes"));
    let odd = CallbackDir::create(b"/run/\xff").listen_next().unwrap();
    assert_eq!(odd, b"/run/\xff/1.sock");
    assert!(EndpointError::PathTooLong(odd)
        .to_text()
        .starts_with("the callback socket path /run/\u{fffd}/1.sock is longer"));
}

#[test]
fn a_bound_path_is_a_socket_of_this_listener() {
    assert!(judge_bound(b"/s", true).is_ok());
    assert!(judge_bound(b"/s", false).is_err());
    assert!(is_own_node((1, 2), Some((1, 2))));
    assert!(!is_own_node((1, 2), Some((1, 3))));
    assert!(!is_own_node((1, 2), None));
}

#[test]
fn only_directories_of_processes_that_are_gone_are_removed() {
    assert_eq!(pid_to_ask("123", 5), Some(123));
    assert_eq!(pid_to_ask("0123", 5), Some(123));
    assert_eq!(pid_to_ask("5", 5), None);
    for name in ["0", "-3", "x1", "", "2147483648", "1.sock"] {
        assert_eq!(pid_to_ask(name, 5), None, "{name}");
    }
    assert!(is_stale(true, Some(OURS), 7));
    assert!(!is_stale(false, Some(OURS), 7));
    assert!(!is_stale(true, Some(Node { uid: 8, ..OURS }), 7));
    assert!(!is_stale(true, Some(Node { is_dir: false, ..OURS }), 7));
    assert!(!is_stale(true, None, 7));
}

#[test]
fn the_connection_taken_is_this_users() {
    assert!(accept_one(Waited::Connected { uid: 7 }, 7).is_ok());
    assert!(matches!(
        accept_one(Waited::Connected { uid: 8 }, 7),
        Err(EndpointError::ForeignPeer { uid: 8 })
    ));
    assert!(matches!(accept_one(Waited::TimedOut, 7), Err(EndpointError::Timeout)));
    assert_eq!(
        accept_one(Waited::Failed(fault()), 7).unwrap_err().to_text(),
        "callback endpoint: denied"
    );
    assert!(EndpointError::AlreadyCreated("/d".into())
        .to_text()
        .starts_with("/d is still taken over by this process"));
}
