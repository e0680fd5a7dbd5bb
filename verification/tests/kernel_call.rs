use agent24_os_proto::drain::{Abandoned, CallbackRefused, Generation, RequestRefused};
use agent24_os_proto::kernel_call::{
    answer, exchange_failed, Drained, FiredBody, KernelCall, KernelCallError,
    KernelLimits, KernelRequest, KernelRequestIds, KernelResponse, FIRE_ID_HEADER,
    SCHEDULE_KEY_HEADER, UPSTREAM_HOST,
};
use agent24_os_proto::proxy::ExchangeError;

const SECOND: u64 = 1_000_000_000;

fn limits() -> KernelLimits {
    KernelLimits { total: 5 * SECOND, max_response_bytes: 64 * 1024 }
}

fn ids() -> KernelRequestIds {
    KernelRequestIds::new("aaaaaaaa".to_owned())
}

fn running() -> Generation {
    let mut g = Generation::serving_at(b"/tmp/a24.sock".to_vec());
    assert!(g.ready());
    g
}

fn fired_request() -> KernelRequest {
    KernelRequest {
        path: "/api/v1/zz/_a24/scheduler/fired".to_owned(),
        extra_headers: vec![
            (SCHEDULE_KEY_HEADER.to_owned(), b"k".to_vec()),
            (FIRE_ID_HEADER.to_owned(), b"fire_test".to_vec()),
        ],
        body: b"{\"key\":\"k\"}".to_vec(),
    }
}

fn begin(g: &mut Generation) -> KernelCall {
    KernelCall::begin(g, &mut ids(), Some("tok".to_owned()), 0, limits())
        .ok()
        .unwrap()
}

#[test]
fn the_request_carries_the_fired_headers_and_the_kernels_own() {
    let mut g = running();
    let call = begin(&mut g);
    assert_eq!(call.upstream(), Some(&b"/tmp/a24.sock".to_vec()));
    let headers = call.prepare(&fired_request()).unwrap();
    assert_eq!(headers.len(), 6);
    assert_eq!(headers.get("x-a24-schedule-key").unwrap(), "k");
    assert_eq!(headers.get("x-a24-fire-id").unwrap(), "fire_test");
    assert_eq!(headers.get("x-a24-request-id").unwrap(), "sch-aaaaaaaa-0");
    assert_eq!(headers.get("x-a24-approval-token").unwrap(), "tok");
    assert_eq!(headers.get("host").unwrap(), UPSTREAM_HOST);
    assert_eq!(headers.get("content-type").unwrap(), "application/json");
}

#[test]
fn extra_headers_cannot_replace_the_id() {
    let mut g = running();
    let call = begin(&mut g);
    let mut request = fired_request();
    request.extra_headers.push(("x-a24-request-id".to_owned(), b"forged".to_vec()));
    let headers = call.prepare(&request).unwrap();
    assert_eq!(headers.get("x-a24-request-id").unwrap(), "sch-aaaaaaaa-0");
}

#[test]
fn a_path_that_is_no_uri_is_not_sent() {
    let mut g = running();
    let call = begin(&mut g);
    let mut request = fired_request();
    request.path = "/a b".to_owned();
    match call.prepare(&request) {
        Err(KernelCallError::NotSent(e)) => assert!(e.starts_with("bad kernel path: "), "{e}"),
        other => panic!("{other:?}"),
    }
    match call.prepare_with(&fired_request(), Some("why".to_owned())) {
        Err(KernelCallError::NotSent(e)) => assert_eq!(e, "bad kernel path: why"),
        other => panic!("{other:?}"),
    }
    let odd = KernelCall::begin(&mut g, &mut ids(), Some("t\n".to_owned()), 0, limits());
    assert!(matches!(
        odd,
        Err(KernelCallError::Refused(RequestRefused::DuplicateId))
    ));
    let mut other = running();
    let odd = KernelCall::begin(&mut other, &mut ids(), Some("t\n".to_owned()), 0, limits())
        .ok()
        .unwrap();
    assert!(matches!(
        odd.prepare(&fired_request()),
        Err(KernelCallError::NotSent(e)) if e == "failed to parse header value"
    ));
}

#[test]
fn admission_is_refused_once_revoked_and_without_entropy() {
    let mut g = running();
    let mut ids = ids();
    assert!(matches!(
        KernelCall::begin(&mut g, &mut ids, None, 0, limits()),
        Err(KernelCallError::EntropyUnavailable)
    ));
    assert_eq!(g.in_flight(), 0);
    assert!(g.revoke().is_some());
    assert!(matches!(
        KernelCall::begin(&mut g, &mut ids, Some("t".to_owned()), 0, limits()),
        Err(KernelCallError::Refused(RequestRefused::Stopping))
    ));
    assert_eq!(ids.mint(), "sch-aaaaaaaa-2");
}

#[test]
fn revoked_before_the_first_dispatch_nothing_is_sent() {
    let mut g = running();
    let call = begin(&mut g);
    assert!(g.revoke().is_some());
    assert_eq!(call.dispatch(&mut g), Err(KernelCallError::NotDispatched));
    assert_eq!(
        call.finish(&mut g, Some(Err(KernelCallError::NotDispatched))),
        Err(KernelCallError::Abandoned(Abandoned { dispatched: false }))
    );
}

#[test]
fn revoked_between_connection_and_guard_nothing_has_left() {
    let mut g = running();
    let mut call = begin(&mut g);
    assert_eq!(call.dispatch(&mut g), Ok(()));
    assert!(g.revoke().is_some());
    assert!(!call.send_guard(&mut g));
    assert_eq!(
        call.finish(&mut g, None),
        Err(KernelCallError::Abandoned(Abandoned { dispatched: false }))
    );
}

#[test]
fn revoked_after_the_guard_it_may_have_left() {
    let mut g = running();
    let mut call = begin(&mut g);
    assert_eq!(call.dispatch(&mut g), Ok(()));
    assert!(call.send_guard(&mut g));
    assert!(g.revoke().is_some());
    assert_eq!(
        call.finish(&mut g, None),
        Err(KernelCallError::Abandoned(Abandoned { dispatched: true }))
    );
    assert_eq!(g.in_flight(), 0);
}

#[test]
fn the_id_is_bound_while_draining_and_unbound_once_it_ends() {
    let mut g = running();
    let call = begin(&mut g);
    assert!(g.begin_drain(0, SECOND));
    assert_eq!(g.admit_callback(Some("sch-aaaaaaaa-0")), Ok(()));
    assert_eq!(g.admit_approval_callback("sch-aaaaaaaa-0", "tok"), Ok(()));
    let _ = call.finish(&mut g, Some(Err(KernelCallError::Timeout)));
    assert_eq!(
        g.admit_callback(Some("sch-aaaaaaaa-0")),
        Err(CallbackRefused::DrainingUnknownRequest)
    );
}

#[test]
fn a_success_head_stands_whatever_comes_after() {
    let mut g = running();
    let mut call = begin(&mut g);
    call.on_head(204);
    call.on_head(500);
    assert!(g.revoke().is_some());
    assert_eq!(
        call.finish(&mut g, Some(Err(KernelCallError::Timeout))),
        Ok(KernelResponse { status: 204 })
    );
}

#[test]
fn other_heads_are_told_with_their_body() {
    assert_eq!(answer(200, Drained::TooLong), Ok(KernelResponse { status: 200 }));
    assert_eq!(answer(500, Drained::All), Ok(KernelResponse { status: 500 }));
    assert_eq!(answer(500, Drained::TooLong), Err(KernelCallError::ResponseTooLarge));
    assert_eq!(
        answer(500, Drained::Failed("reset".to_owned())),
        Err(KernelCallError::ResponseBodyError("reset".to_owned()))
    );
    let mut g = running();
    let mut call = begin(&mut g);
    call.on_head(500);
    assert_eq!(
        call.finish(&mut g, Some(answer(500, Drained::All))),
        Ok(KernelResponse { status: 500 })
    );
    assert_eq!(
        exchange_failed(ExchangeError::NotSent("n".to_owned())),
        KernelCallError::NotSent("n".to_owned())
    );
    assert_eq!(
        exchange_failed(ExchangeError::MaybeSent("m".to_owned())),
        KernelCallError::MaybeSent("m".to_owned())
    );
}

#[test]
fn a_placeholder_has_nowhere_to_send_to() {
    let mut g = Generation::starting();
    assert!(matches!(
        KernelCall::begin(&mut g, &mut ids(), Some("t".to_owned()), 0, limits()),
        Err(KernelCallError::Refused(RequestRefused::NotReady))
    ));
}

#[test]
fn random_ids_have_eight_digits() {
    let mut ids = KernelRequestIds::new_random(Some([1, 2, 3, 255]), 0);
    assert_eq!(ids.mint(), "sch-010203ff-0");
    let mut ids = KernelRequestIds::new_random(None, 255);
    assert_eq!(ids.mint(), "sch-000000ff-0");
    let body = FiredBody {
        key: "k".to_owned(),
        trigger: "tick".to_owned(),
        scheduled_for: "s".to_owned(),
        fired_at: "f".to_owned(),
    };
    assert_eq!(body.trigger, "tick");
}

#[test]
fn a_module_is_sent_the_kernels_request_as_it_is() {
    let mut g = running();
    let call = begin(&mut g);
    let sent = call.outgoing(fired_request()).ok().unwrap();
    assert_eq!(sent.address, b"/tmp/a24.sock");
    assert_eq!(sent.method, "POST");
    assert_eq!(sent.path, "/api/v1/zz/_a24/scheduler/fired");
    assert_eq!(sent.body, b"{\"key\":\"k\"}");
    assert_eq!(sent.headers.get("x-a24-schedule-key").unwrap(), "k");
    assert_eq!(sent.headers.get("x-a24-request-id").unwrap(), "sch-aaaaaaaa-0");
    let mut odd = fired_request();
    odd.path = "/a b".to_owned();
    assert!(matches!(call.outgoing(odd), Err(KernelCallError::NotSent(_))));
}

#[test]
fn extra_headers_are_counted_by_name() {
    let mut g = running();
    let call = begin(&mut g);
    let mut request = fired_request();
    for i in 0..10_000u32 {
        request
            .extra_headers
            .push(("x-a24-again".to_owned(), i.to_string().into_bytes()));
    }
    let headers = call.prepare(&request).unwrap();
    assert_eq!(headers.get("x-a24-again").unwrap(), "9999");
    assert_eq!(headers.len(), 7);
}
