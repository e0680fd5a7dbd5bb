use agent24_os_proto::endpoint::{EndpointError, HandshakeFailed};
use agent24_os_proto::failure::{
    accept, exit, handshake, launch, listen, serve, FailureKind, RunFailure, MAX_DETAIL_BYTES,
};
use agent24_os_proto::frame::{FrameError, IoFault};
use agent24_os_proto::initialize::HandshakeError;
use agent24_os_proto::launch::LaunchError;
use agent24_os_proto::rpc::Ended;
use agent24_os_proto::supervise::{Exit, Stopped};
use agent24_os_proto::version::{kernel_range, VersionMismatch};
use FailureKind::{Exited, Io, Refused, Setup, Timeout};

fn io_err() -> IoFault {
    IoFault::new("x", "Custom { kind: Other, error: \"x\" }")
}

fn endpoint_errors() -> Vec<EndpointError> {
    vec![
        EndpointError::UnsafeDirectory {
            path: "/d".into(),
            why: "w".into(),
        },
        EndpointError::PathTooLong("/p".into()),
        EndpointError::Timeout,
        EndpointError::ForeignPeer { uid: 1 },
        EndpointError::AlreadyCreated("/d".into()),
        EndpointError::Io(io_err()),
    ]
}

#[test]
fn an_endpoint_error_is_classified_by_the_stage_it_came_from() {
    let listened: Vec<_> = endpoint_errors().iter().map(|e| listen(e).kind).collect();
    assert_eq!(listened, [Setup; 6]);
    let accepted: Vec<_> = endpoint_errors().iter().map(|e| accept(e).kind).collect();
    assert_eq!(accepted, [Io, Io, Timeout, Refused, Io, Io]);
}

#[test]
fn listen_failures_say_neither_callback_nor_listener_for_shared_variants() {
    let shared = [
        EndpointError::UnsafeDirectory {
            path: "/d".into(),
            why: "w".into(),
        },
        EndpointError::PathTooLong("/p".into()),
        EndpointError::AlreadyCreated("/d".into()),
        EndpointError::Io(io_err()),
    ];
    for e in &shared {
        let text = listen(e).to_text();
        assert!(!text.contains("callback"), "{text}");
    }
}

#[test]
fn every_launch_error_is_setup() {
    let all = [
        LaunchError::Unresolved("x".into()),
        LaunchError::EscapesPackage {
            resolved: "/a".into(),
            package: "/b".into(),
        },
        LaunchError::Spawn(io_err()),
        LaunchError::NoEntropy(io_err()),
        LaunchError::UnsafeOwnership("/a".into()),
        LaunchError::Inspect {
            path: "/a".into(),
            error: io_err(),
        },
        LaunchError::TooLarge {
            package: "/a".into(),
        },
    ];
    for e in &all {
        assert_eq!(launch(e).kind, Setup, "{}", e.to_text());
    }
}

#[test]
fn every_handshake_failure_has_its_kind() {
    let refusals = [
        HandshakeError::Parse("x".into()),
        HandshakeError::NotInitialize("x".into()),
        HandshakeError::BadParams("x".into()),
        HandshakeError::AuthFailed,
        HandshakeError::ManifestMismatch {
            expected: "a".into(),
            got: "b".into(),
        },
        HandshakeError::VersionMismatch(VersionMismatch::NotDeclared {
            kernel: kernel_range(),
        }),
    ];
    for r in refusals {
        assert_eq!(handshake(&HandshakeFailed::Refused(r)).kind, Refused);
    }
    let rest = [
        (HandshakeFailed::Timeout, Timeout),
        (
            HandshakeFailed::Frame(FrameError::TooLong { limit: 1 }),
            Refused,
        ),
        (HandshakeFailed::Frame(FrameError::Eof), Io),
        (HandshakeFailed::Frame(FrameError::Io(io_err())), Io),
        (HandshakeFailed::Write(io_err()), Io),
    ];
    for (e, kind) in rest {
        assert_eq!(handshake(&e).kind, kind, "{}", e.to_text());
    }
}

#[test]
fn every_end_of_a_served_connection_has_its_kind() {
    let all = [
        (Ended::PeerClosed, Io),
        (Ended::TooLong, Refused),
        (Ended::ReadFailed(io_err()), Io),
        (Ended::WriteFailed(io_err()), Io),
        (Ended::Stopped, Io),
    ];
    for (e, kind) in all {
        assert_eq!(serve(&e).kind, kind, "{e:?}");
    }
}

#[test]
fn only_an_exit_seen_is_exited() {
    let seen = exit(&Ok(Exit {
        code: Some(3),
        signal: None,
    }));
    assert_eq!(seen.kind, Exited);
    assert!(seen.detail.contains("code 3"), "{}", seen.detail);
    assert_eq!(exit(&Err(io_err())).kind, Io);
}

#[test]
fn a_long_detail_is_cut_at_a_char_boundary() {
    let f = RunFailure::new(Io, &"é".repeat(MAX_DETAIL_BYTES));
    assert!(f.detail.len() <= MAX_DETAIL_BYTES);
    assert!(f.detail.ends_with('…'));
    let short = RunFailure::new(Io, "short");
    assert_eq!(short.detail, "short");
}

#[test]
fn the_policy_signal_keeps_timeouts_apart() {
    assert_eq!(Timeout.legacy(), Stopped::StartupTimeout);
    for k in [Setup, Refused, Io, Exited] {
        assert_eq!(k.legacy(), Stopped::Exited);
    }
}

#[test]
fn a_detail_of_exactly_the_limit_is_kept_whole() {
    let whole = "a".repeat(MAX_DETAIL_BYTES);
    assert_eq!(RunFailure::new(Io, &whole).detail, whole);
    let cut = RunFailure::new(Io, &"a".repeat(MAX_DETAIL_BYTES + 1)).detail;
    assert_eq!(cut, "a".repeat(MAX_DETAIL_BYTES - 3) + "…");
}

#[test]
fn failures_are_told_with_what_was_said() {
    assert_eq!(
        listen(&EndpointError::Timeout).to_text(),
        "setup (could not open the module's sockets: no callback connection before the deadline)"
    );
    assert_eq!(
        launch(&LaunchError::TooLarge { package: "/p".into() }).to_text(),
        "setup (could not start the module: the package at /p has more than 200000 entries; \
         too many to check at every start)"
    );
    assert_eq!(
        accept(&EndpointError::ForeignPeer { uid: 7 }).to_text(),
        "refused (the module did not connect: the callback connection came from uid 7, not this user)"
    );
    assert_eq!(
        handshake(&HandshakeFailed::Frame(FrameError::Io(io_err()))).to_text(),
        "io (the module did not complete its handshake: the handshake could not be read: \
         Io(Custom { kind: Other, error: \"x\" }))"
    );
    assert_eq!(
        serve(&Ended::WriteFailed(io_err())).to_text(),
        "io (the callback connection ended: WriteFailed(Custom { kind: Other, error: \"x\" }))"
    );
    assert_eq!(
        serve(&Ended::Stopped).to_text(),
        "io (the callback connection was stopped by a revocation (not expected))"
    );
    assert_eq!(
        exit(&Err(io_err())).to_text(),
        "io (could not find out whether the module exited: x)"
    );
    assert_eq!(
        exit(&Ok(Exit { code: None, signal: Some(9) })).to_text(),
        "exited (the module was killed by signal 9)"
    );
    assert_eq!(
        exit(&Ok(Exit { code: None, signal: None })).detail,
        "the module exited"
    );
}

#[test]
fn every_kind_has_a_name() {
    let names: Vec<_> = [Setup, Refused, Timeout, Io, Exited]
        .into_iter()
        .map(FailureKind::as_str)
        .collect();
    assert_eq!(names, ["setup", "refused", "timeout", "io", "exited"]);
}

#[test]
fn only_opening_the_sockets_leaves_open_which_of_them_failed() {
    let errors = [
        (
            EndpointError::UnsafeDirectory { path: "/d".into(), why: "w".into() },
            "/d cannot hold sockets: w",
            "/d cannot hold callback sockets: w",
        ),
        (
            EndpointError::PathTooLong("/p".into()),
            "the socket path /p is longer than 103 bytes",
            "the callback socket path /p is longer than 103 bytes",
        ),
        (EndpointError::Io(io_err()), "endpoint: x", "callback endpoint: x"),
        (
            EndpointError::Timeout,
            "no callback connection before the deadline",
            "no callback connection before the deadline",
        ),
    ];
    for (e, neutral, own) in &errors {
        assert_eq!(listen(e).detail, format!("could not open the module's sockets: {neutral}"));
        assert_eq!(accept(e).detail, format!("the module did not connect: {own}"));
        assert_eq!(e.to_text(), *own);
    }
}
