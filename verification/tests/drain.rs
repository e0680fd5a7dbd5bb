use agent24_os_proto::drain::{
    bind_to_lifecycle, constant_time_eq, token_hash, Abandoned, ApprovalCallbackRefused, CallbackRefused,
    Current, DrainProgress, DrainState, Generation, InFlight, LifecycleTimeout, RequestRefused,
};
use std::cell::RefCell;
use std::collections::HashSet;
use std::rc::Rc;

const SECOND: u64 = 1_000_000_000;
const GRACE: u64 = 10 * SECOND;
const T0: u64 = 1_000 * SECOND;

fn sha256(bytes: &[u8]) -> [u8; 32] {
    <sha2::Sha256 as sha2::Digest>::digest(bytes).into()
}

fn spawned() -> Generation {
    Generation::serving_at(b"/tmp/a24-test.sock".to_vec())
}

fn running() -> Generation {
    let mut g = spawned();
    assert!(g.ready());
    g
}

fn admit_plain(g: &mut Generation, id: &str) -> Result<InFlight, RequestRefused> {
    g.admit_request(id.to_owned(), [0u8; 32], T0, 30 * SECOND)
}

fn refused(g: &mut Generation, id: &str) -> RequestRefused {
    match admit_plain(g, id) {
        Ok(_) => panic!("{id} was admitted"),
        Err(refused) => refused,
    }
}

fn admit_with(g: &mut Generation, id: &str, token: &str) -> InFlight {
    match g.admit_request(id.to_owned(), sha256(token.as_bytes()), T0, 30 * SECOND) {
        Ok(request) => request,
        Err(refused) => panic!("{refused:?}"),
    }
}

#[test]
fn draining_refuses_new_requests_but_not_the_ones_in_flight() {
    let mut g = running();
    let a = admit_plain(&mut g, "a").ok().unwrap();
    assert!(g.begin_drain(T0, GRACE));
    assert_eq!(refused(&mut g, "b"), RequestRefused::Draining);
    assert_eq!(RequestRefused::Draining.code(), "module_draining");
    assert_eq!(g.admit_callback(Some("a")), Ok(()));
    assert_eq!(a.finish(&mut g), Ok(()));
}

#[test]
fn draining_admits_only_callbacks_that_name_a_live_request() {
    let mut g = running();
    let a = admit_plain(&mut g, "a").ok().unwrap();
    let done = admit_plain(&mut g, "done").ok().unwrap();
    done.finish(&mut g).unwrap();

    assert_eq!(g.admit_callback(Some("a")), Ok(()));
    assert_eq!(g.admit_callback(None), Ok(()));
    assert_eq!(g.admit_callback(Some("done")), Ok(()));

    assert!(g.begin_drain(T0, GRACE));
    assert_eq!(g.admit_callback(Some("a")), Ok(()));
    assert_eq!(
        g.admit_callback(None),
        Err(CallbackRefused::DrainingWithoutRequest)
    );
    assert_eq!(
        g.admit_callback(Some("done")),
        Err(CallbackRefused::DrainingUnknownRequest)
    );
    a.abandon(&mut g);
}

#[test]
fn revoking_refuses_every_callback_including_in_flight_ones() {
    let mut g = running();
    let a = admit_plain(&mut g, "a").ok().unwrap();
    assert!(g.begin_drain(T0, GRACE));
    assert_eq!(g.admit_callback(Some("a")), Ok(()));

    let r = g.revoke().unwrap();
    assert!(r.abandoned.is_empty());
    assert_eq!(r.never_sent, vec!["a".to_owned()]);
    assert_eq!(g.admit_callback(Some("a")), Err(CallbackRefused::Revoked));
    assert_eq!(g.admit_callback(None), Err(CallbackRefused::Revoked));
    assert_eq!(refused(&mut g, "b"), RequestRefused::Stopping);
    assert_eq!(a.finish(&mut g), Err(Abandoned { dispatched: false }));
}

#[test]
fn a_drain_ends_when_idle_or_when_the_grace_runs_out() {
    let t = T0;

    let mut g = running();
    let a = admit_plain(&mut g, "a").ok().unwrap();
    assert!(g.begin_drain(t, GRACE));
    assert_eq!(
        g.progress(t + 3 * SECOND),
        DrainProgress::Waiting {
            in_flight: 1,
            remaining: 7 * SECOND
        }
    );
    a.finish(&mut g).unwrap();
    assert_eq!(g.progress(t + 3 * SECOND), DrainProgress::Idle);

    let mut g = running();
    let _b = admit_plain(&mut g, "b").ok().unwrap();
    assert!(g.begin_drain(t, GRACE));
    assert_eq!(
        g.progress(t + GRACE),
        DrainProgress::Expired { in_flight: 1 }
    );
}

#[test]
fn a_dropped_request_leaves_the_in_flight_set() {
    let mut g = running();
    let a = admit_plain(&mut g, "a").ok().unwrap();
    assert_eq!(g.in_flight(), 1);
    a.abandon(&mut g);
    assert_eq!(g.in_flight(), 0);
    assert!(g.begin_drain(T0, GRACE));
    assert_eq!(g.progress(T0), DrainProgress::Idle);
}

#[test]
fn progress_outside_a_drain_is_not_draining() {
    let mut g = running();
    let _a = admit_plain(&mut g, "a").ok().unwrap();
    assert_eq!(g.progress(T0), DrainProgress::NotDraining);
    assert!(g.begin_drain(T0, GRACE));
    let _ = g.revoke();
    assert_eq!(g.progress(T0), DrainProgress::NotDraining);
}

#[test]
fn a_late_handshake_cannot_reopen_a_draining_module() {
    let mut g = running();
    assert!(!g.ready());
    assert!(g.begin_drain(T0, GRACE));
    assert!(!g.ready());
    assert_eq!(g.state(), DrainState::Draining);
    assert_eq!(refused(&mut g, "b"), RequestRefused::Draining);
}

#[test]
fn a_second_drain_does_not_extend_the_grace() {
    let t = T0;
    let mut g = running();
    let _a = admit_plain(&mut g, "a").ok().unwrap();
    assert!(g.begin_drain(t, GRACE));
    assert!(!g.begin_drain(t + 5 * SECOND, GRACE));
    assert_eq!(
        g.progress(t + GRACE),
        DrainProgress::Expired { in_flight: 1 }
    );
}

#[test]
fn a_placeholder_can_never_become_running() {
    let mut g = Generation::starting();
    assert!(!g.ready());
    assert_eq!(g.state(), DrainState::Starting);
    assert_eq!(g.upstream(), None);
    let mut s = spawned();
    assert!(s.ready());
    assert!(s.upstream().is_some());
}

#[test]
fn a_module_that_is_not_ready_admits_nothing_and_goes_straight_to_revoked() {
    let mut g = Generation::starting();
    assert_eq!(refused(&mut g, "a"), RequestRefused::NotReady);
    assert_eq!(g.admit_callback(None), Err(CallbackRefused::NotReady));
    assert!(!g.begin_drain(T0, GRACE));
    let r = g.revoke().unwrap();
    assert!(r.abandoned.is_empty() && r.never_sent.is_empty());
    assert!(!g.ready());
    assert_eq!(g.state(), DrainState::Revoked);
}

#[test]
fn after_revocation_nothing_more_is_sent_and_what_was_sent_is_reported() {
    let mut g = running();
    let sent = admit_plain(&mut g, "sent").ok().unwrap();
    let unsent = admit_plain(&mut g, "unsent").ok().unwrap();
    assert!(sent.dispatch(&mut g));

    let r = g.revoke().unwrap();
    assert_eq!(r.abandoned, vec!["sent".to_owned()]);
    assert_eq!(r.never_sent, vec!["unsent".to_owned()]);
    assert!(!unsent.dispatch(&mut g));

    assert_eq!(sent.finish(&mut g), Err(Abandoned { dispatched: true }));
    assert_eq!(unsent.finish(&mut g), Err(Abandoned { dispatched: false }));
}

#[test]
fn revoking_twice_yields_one_permit() {
    let mut g = running();
    assert!(g.revoke().is_some());
    assert!(g.revoke().is_none());
    assert_eq!(g.state(), DrainState::Revoked);
}

#[test]
fn an_unrepresentable_grace_is_refused_without_half_starting_a_drain() {
    let mut g = running();
    assert!(!g.begin_drain(T0, u64::MAX));
    assert_eq!(g.state(), DrainState::Running);
    assert!(g.begin_drain(T0, GRACE));
}

#[test]
fn a_duplicate_id_is_refused_rather_than_aliased() {
    let mut g = running();
    let _a = admit_plain(&mut g, "a").ok().unwrap();
    assert_eq!(refused(&mut g, "a"), RequestRefused::DuplicateId);
}

#[test]
fn every_refusal_has_its_own_code() {
    let codes: HashSet<_> = [
        RequestRefused::NotReady,
        RequestRefused::Draining,
        RequestRefused::Stopping,
        RequestRefused::DuplicateId,
    ]
    .map(RequestRefused::code)
    .into_iter()
    .collect();
    assert_eq!(codes.len(), 4);
}

#[test]
fn a_fresh_token_admits_exactly_once_then_is_invalid() {
    let mut g = running();
    let _in_flight = admit_with(&mut g, "r1", "secret-1");
    assert_eq!(g.admit_approval_callback("r1", "secret-1"), Ok(()));
    assert_eq!(
        g.admit_approval_callback("r1", "secret-1"),
        Err(ApprovalCallbackRefused::TokenInvalid)
    );
}

#[test]
fn mismatched_id_and_token_pairs_are_both_refused() {
    let mut g = running();
    let _a = admit_with(&mut g, "a", "token-a");
    let _b = admit_with(&mut g, "b", "token-b");
    assert_eq!(
        g.admit_approval_callback("a", "token-b"),
        Err(ApprovalCallbackRefused::TokenInvalid)
    );
    assert_eq!(
        g.admit_approval_callback("b", "token-a"),
        Err(ApprovalCallbackRefused::TokenInvalid)
    );
    assert_eq!(g.admit_approval_callback("a", "token-a"), Ok(()));
    assert_eq!(g.admit_approval_callback("b", "token-b"), Ok(()));
}

#[test]
fn a_token_from_a_different_generation_is_refused() {
    let mut old_gen = running();
    let _a = admit_with(&mut old_gen, "r1", "secret-1");
    assert_eq!(old_gen.admit_approval_callback("r1", "secret-1"), Ok(()));

    let mut new_gen = running();
    assert_eq!(
        new_gen.admit_approval_callback("r1", "secret-1"),
        Err(ApprovalCallbackRefused::TokenInvalid)
    );
}

#[test]
fn a_finished_requests_token_is_refused() {
    let mut g = running();
    let in_flight = admit_with(&mut g, "r1", "secret-1");
    in_flight.finish(&mut g).unwrap();
    assert_eq!(
        g.admit_approval_callback("r1", "secret-1"),
        Err(ApprovalCallbackRefused::TokenInvalid)
    );
}

#[test]
fn admit_approval_callback_follows_the_designed_error_matrix() {
    let mut starting = Generation::starting();
    assert_eq!(
        starting.admit_approval_callback("r1", "secret-1"),
        Err(ApprovalCallbackRefused::NotReady)
    );

    let mut g = running();
    let _a = admit_with(&mut g, "r1", "secret-1");
    let _ = g.revoke();
    assert_eq!(
        g.admit_approval_callback("r1", "secret-1"),
        Err(ApprovalCallbackRefused::Revoked)
    );
}

#[test]
fn draining_still_admits_a_still_in_flight_requests_token() {
    let mut g = running();
    let in_flight = admit_with(&mut g, "r1", "secret-1");
    assert!(g.begin_drain(T0, GRACE));
    assert_eq!(g.admit_approval_callback("r1", "secret-1"), Ok(()));
    in_flight.abandon(&mut g);
}

#[test]
fn remaining_reflects_the_query_time_not_a_fixed_value() {
    let mut g = running();
    let _in_flight = g
        .admit_request("r1".to_owned(), [0u8; 32], T0, 30 * SECOND)
        .ok()
        .unwrap();
    let lifecycle = g.request_lifecycle("r1").unwrap();
    assert_eq!(lifecycle.remaining(T0 + 29 * SECOND), SECOND);
    assert_eq!(lifecycle.remaining(T0 + SECOND), 29 * SECOND);
}

#[test]
fn an_unknown_id_reports_none_without_cross_request_interference() {
    let mut g = running();
    let _about_to_expire = g
        .admit_request("about-to-expire".to_owned(), [0u8; 32], T0, 1_000_000)
        .ok()
        .unwrap();
    assert!(g.request_lifecycle("ghost").is_none());
    let another_gen = running();
    assert!(another_gen.request_lifecycle("about-to-expire").is_none());

    let lifecycle = g.request_lifecycle("about-to-expire").unwrap();
    assert_eq!(lifecycle.remaining(T0), 1_000_000);
}

#[test]
fn an_overflowing_deadline_admits_with_zero_remaining_rather_than_refusing() {
    let mut g = running();
    let in_flight = g
        .admit_request("a".to_owned(), [0u8; 32], T0, u64::MAX)
        .ok()
        .unwrap();
    let lifecycle = g.request_lifecycle("a").unwrap();
    assert_eq!(lifecycle.remaining(T0), 0);
    assert_eq!(lifecycle.remaining(T0 + SECOND), 0);
    in_flight.abandon(&mut g);
}

#[test]
fn a_request_goes_to_the_process_it_was_admitted_for() {
    let mut g = running();
    let a = admit_plain(&mut g, "a").ok().unwrap();
    assert_eq!(a.id(), "a");
    assert_eq!(a.upstream(), Some(&b"/tmp/a24-test.sock".to_vec()));
}

#[test]
fn a_revoked_request_keeps_its_budget_until_it_finishes() {
    let mut g = running();
    let a = admit_plain(&mut g, "a").ok().unwrap();
    let _ = g.revoke();
    assert!(g.request_lifecycle("a").is_some());
    assert_eq!(a.finish(&mut g), Err(Abandoned { dispatched: false }));
    assert!(g.request_lifecycle("a").is_none());
}

#[test]
fn digests_are_equal_only_if_every_byte_is() {
    assert!(constant_time_eq(b"abc", b"abc"));
    assert!(!constant_time_eq(b"abc", b"abd"));
    assert!(!constant_time_eq(b"abc", b"ab"));
    assert!(constant_time_eq(b"", b""));
}

#[test]
fn a_restart_does_not_carry_a_request_in_flight_into_the_next_run() {

    let mut current: Current<Rc<RefCell<Generation>>, ()> =
        Current::new(Rc::new(RefCell::new(running())));
    let old = Rc::clone(current.get());
    let a = admit_plain(&mut old.borrow_mut(), "a").ok().unwrap();

    let next = Rc::new(RefCell::new(running()));
    let replaced = current.replace(Rc::clone(&next));
    assert!(Rc::ptr_eq(&replaced, &old));
    assert_eq!(replaced.borrow().state(), DrainState::Running);
    let _ = replaced.borrow_mut().revoke();

    assert_eq!(
        a.finish(&mut old.borrow_mut()),
        Err(Abandoned { dispatched: false })
    );
    assert!(admit_plain(&mut current.get().borrow_mut(), "b").is_ok());
    assert!(Rc::ptr_eq(current.get(), &next));
}

#[test]
fn a_slot_has_one_supervisor_at_a_time() {
    let mut current: Current<u32, &str> = Current::new(1);
    assert_eq!(current.status(), None);
    assert!(current.claim(2));
    assert_eq!(*current.get(), 2);
    assert!(!current.claim(3));
    assert_eq!(*current.get(), 2);
    current.attach_status("up");
    assert_eq!(current.status(), Some(&"up"));
    current.release();
    assert!(current.claim(4));
    assert_eq!(*current.get(), 4);
}

#[test]
fn bound_work_that_is_done_wins() {
    assert_eq!(bind_to_lifecycle(true, true, true), Some(Ok(())));
    assert_eq!(
        bind_to_lifecycle(false, true, true),
        Some(Err(LifecycleTimeout::BudgetExhausted))
    );
    assert_eq!(
        bind_to_lifecycle(false, false, true),
        Some(Err(LifecycleTimeout::RequestEnded))
    );
    assert_eq!(bind_to_lifecycle(false, false, false), None);
}

#[test]
fn an_abandoned_request_has_a_code_of_its_own() {
    assert_eq!(Abandoned::CODE, "request_abandoned");
}

#[test]
fn a_token_is_hashed_alike_where_it_is_made_and_where_it_is_shown() {
    assert_eq!(token_hash("tok"), sha256(b"tok"));
    let mut g = running();
    let made = token_hash("tok");
    assert!(g.admit_request("r".to_owned(), made, T0, SECOND).is_ok());
    assert_eq!(g.admit_approval_callback("r", "other"), Err(ApprovalCallbackRefused::TokenInvalid));
    assert_eq!(g.admit_approval_callback("x", "tok"), Err(ApprovalCallbackRefused::TokenInvalid));
    assert_eq!(g.admit_approval_callback("r", "tok"), Ok(()));
    assert_eq!(g.admit_approval_callback("r", "tok"), Err(ApprovalCallbackRefused::TokenInvalid));
}

#[test]
fn ended_resolves_promptly_after_finish() {
    let mut g = running();
    let a = admit_plain(&mut g, "a").ok().unwrap();
    let b = admit_plain(&mut g, "b").ok().unwrap();
    let lifecycle_a = g.request_lifecycle("a").unwrap();
    let lifecycle_b = g.request_lifecycle("b").unwrap();
    assert!(!lifecycle_a.has_ended(&g));
    a.finish(&mut g).unwrap();
    assert!(lifecycle_a.has_ended(&g));
    assert!(!lifecycle_b.has_ended(&g));
    b.abandon(&mut g);
}

#[test]
fn ended_resolves_promptly_after_drop() {
    let mut g = running();
    let a = admit_plain(&mut g, "a").ok().unwrap();
    let lifecycle = g.request_lifecycle("a").unwrap();
    a.abandon(&mut g);
    assert!(lifecycle.has_ended(&g));
}

#[test]
fn revoke_does_not_prematurely_end_a_still_in_flight_request() {
    let mut g = running();
    let a = admit_plain(&mut g, "a").ok().unwrap();
    let lifecycle = g.request_lifecycle("a").unwrap();
    let _ = g.revoke();
    assert!(g.request_lifecycle("a").is_some());
    assert!(!lifecycle.has_ended(&g));
    assert_eq!(a.finish(&mut g), Err(Abandoned { dispatched: false }));
    assert!(lifecycle.has_ended(&g));
}

#[test]
fn a_lifecycle_that_ended_is_not_revived_by_another_request_of_its_name() {
    let mut g = running();
    let first = admit_plain(&mut g, "a").ok().unwrap();
    let lifecycle = g.request_lifecycle("a").unwrap();
    first.finish(&mut g).unwrap();
    let second = admit_plain(&mut g, "a").ok().unwrap();
    assert!(lifecycle.has_ended(&g));
    assert!(!g.request_lifecycle("a").unwrap().has_ended(&g));
    assert_eq!(second.finish(&mut g), Ok(()));
}

#[test]
fn a_request_of_another_generation_is_neither_sent_nor_ended_here() {
    let mut here = running();
    let mut there = running();
    let mine = admit_plain(&mut here, "a").ok().unwrap();
    let mut theirs = admit_plain(&mut there, "b").ok().unwrap();
    assert!(!theirs.dispatch(&mut here));
    assert_eq!(theirs.finish(&mut here), Err(Abandoned { dispatched: false }));
    assert_eq!(here.admit_callback(Some("a")), Ok(()));
    assert!(here.request_lifecycle("a").is_some());
    assert!(there.request_lifecycle("b").is_some());
    assert_eq!(mine.finish(&mut here), Ok(()));
}

#[test]
fn a_token_admits_once_whatever_happens_in_between() {
    let mut g = running();
    let a = admit_with(&mut g, "a", "token");
    assert_eq!(g.admit_approval_callback("a", "token"), Ok(()));
    assert!(g.begin_drain(T0, GRACE));
    assert!(g.admit_approval_callback("a", "token").is_err());
    a.finish(&mut g).unwrap();
    assert!(g.admit_approval_callback("a", "token").is_err());
}
