//! Stopping a module in two phases.
//!
//! A [`Generation`] is one run of one module process: made when the process is started, and
//! revoked once before the process is killed. A restart is a new generation, so nothing that a
//! dead run was allowed to do carries over.
//!
//! | | new request | callback with a live request id | callback without one |
//! |---|---|---|---|
//! | `Starting` | refused | refused | refused |
//! | `Running`  | admitted | admitted | admitted |
//! | `Draining` | refused | admitted | refused |
//! | `Revoked`  | refused | refused | refused |
//!
//! A generation holds no clock: times are in nanoseconds of the caller's clock.
use crate::text;
use vstd::prelude::*;
use vstd::string::*;

verus! {

/// Where one generation is in its life.
#[derive(Debug, Clone, Copy, PartialEq, Eq, Structural)]
pub enum DrainState {
    /// Started; the handshake has not been completed.
    Starting,
    /// Requests and callbacks are admitted.
    Running,
    /// New requests are refused; those in flight may finish, with their callbacks.
    Draining,
    /// Nothing is admitted any more. The process may now be killed.
    Revoked,
}

/// Why a new request was not admitted.
#[derive(Debug, Clone, Copy, PartialEq, Eq, Structural)]
pub enum RequestRefused {
    NotReady,
    Draining,
    Stopping,
    /// The id is in flight already. Two requests that share an id would make the check for a live
    /// request answer for the wrong one.
    DuplicateId,
}

impl RequestRefused {
    pub open spec fn wire(self) -> Seq<char> {
        match self {
            RequestRefused::NotReady => "module_not_ready"@,
            RequestRefused::Draining => "module_draining"@,
            RequestRefused::Stopping => "module_stopping"@,
            RequestRefused::DuplicateId => "duplicate_request_id"@,
        }
    }

    /// The code of the answer.
    pub fn code(self) -> (r: &'static str)
        ensures
            r@ == self.wire(),
    {
        match self {
            RequestRefused::NotReady => "module_not_ready",
            RequestRefused::Draining => "module_draining",
            RequestRefused::Stopping => "module_stopping",
            RequestRefused::DuplicateId => "duplicate_request_id",
        }
    }
}

/// Every refusal has a code of its own.
pub proof fn law_every_refusal_has_its_own_code(a: RequestRefused, b: RequestRefused)
    requires
        a.wire() == b.wire(),
    ensures
        a == b,
{
    reveal_strlit("module_not_ready");
    reveal_strlit("module_draining");
    reveal_strlit("module_stopping");
    reveal_strlit("duplicate_request_id");
    assert("module_not_ready"@.len() == 16);
    assert("module_draining"@.len() == 15 && "module_draining"@[7] == 'd');
    assert("module_stopping"@.len() == 15 && "module_stopping"@[7] == 's');
    assert("duplicate_request_id"@.len() == 20);
}

/// Why a callback was refused.
#[derive(Debug, Clone, Copy, PartialEq, Eq, Structural)]
pub enum CallbackRefused {
    NotReady,
    /// Draining, and the callback names no request: background work.
    DrainingWithoutRequest,
    /// Draining, and the request that it names is not in flight.
    DrainingUnknownRequest,
    Revoked,
}

/// Why an approval was refused. Whoever asks cannot tell a wrong id from a wrong or spent token.
#[derive(Debug, Clone, Copy, PartialEq, Eq, Structural)]
pub enum ApprovalCallbackRefused {
    NotReady,
    Revoked,
    TokenInvalid,
}

/// What allows a module's process to be killed. Only [`Generation::revoke`] makes one.
#[derive(Debug)]
pub struct KillPermit {
    private: (),
}

/// What [`Generation::revoke`] hands out.
#[derive(Debug)]
pub struct Revocation {
    pub permit: KillPermit,
    /// Requests in flight that were sent to the module. What became of them is not known.
    pub abandoned: Vec<String>,
    /// Requests in flight that were never sent. Nothing ran, and nothing will.
    pub never_sent: Vec<String>,
}

/// Where a drain stands.
#[derive(Debug, Clone, Copy, PartialEq, Eq, Structural)]
pub enum DrainProgress {
    NotDraining,
    /// Nothing is in flight: revoke now.
    Idle,
    /// `in_flight` requests are waited for, at most `remaining` longer.
    Waiting { in_flight: usize, remaining: u64 },
    /// The grace ran out: revoke now, and those requests are abandoned.
    Expired { in_flight: usize },
}

/// A request was in flight when its generation was revoked. Whatever the module answered, it is
/// not passed on as a success.
#[derive(Debug, Clone, Copy, PartialEq, Eq, Structural)]
pub struct Abandoned {
    /// Whether it was sent to the module. If so, what became of it is not known; if not, nothing
    /// ran.
    pub dispatched: bool,
}

impl Abandoned {
    /// The code of the answer.
    pub const CODE: &'static str = "request_abandoned";
}

// ---------------------------------------------------------------------------
// The model
// ---------------------------------------------------------------------------

/// One request in flight, as mathematics.
pub struct EntryView {
    /// The digest of its approval token.
    pub hash: Seq<u8>,
    /// Whether the token was used.
    pub used: bool,
    pub deadline: u64,
    /// Whether the request was sent to the module.
    pub sent: bool,
    /// The number of its admission.
    pub serial: u64,
}

/// A request that was admitted somewhere, as mathematics.
pub struct RequestView {
    pub id: Seq<char>,
    /// The number of its admission.
    pub serial: u64,
    /// Where the process listens that it was admitted for.
    pub address: Option<Seq<u8>>,
}

/// A generation, as mathematics.
#[verifier::ext_equal]
pub struct GenerationView {
    pub state: DrainState,
    pub in_flight: Map<Seq<char>, EntryView>,
    pub drain_deadline: Option<u64>,
    /// Where the process listens; none for a placeholder.
    pub upstream: Option<Seq<u8>>,
    /// The number of the next admission.
    pub next: u64,
}

/// The number after a number. After the last one comes the first.
pub open spec fn following(n: u64) -> u64 {
    if n == u64::MAX {
        0
    } else {
        (n + 1) as u64
    }
}

impl GenerationView {
    /// A generation that admits has a process behind it, and one that drains has a deadline.
    pub open spec fn wf(self) -> bool {
        &&& self.state == DrainState::Running || self.state == DrainState::Draining
            ==> self.upstream is Some
        &&& self.state == DrainState::Draining ==> self.drain_deadline is Some
        &&& self.state == DrainState::Starting ==> self.in_flight == Map::<
            Seq<char>,
            EntryView,
        >::empty()
        &&& self.in_flight.dom().finite()
    }

    /// A generation that was made just now.
    pub open spec fn fresh(upstream: Option<Seq<u8>>) -> GenerationView {
        GenerationView {
            state: DrainState::Starting,
            in_flight: Map::empty(),
            drain_deadline: None,
            upstream,
            next: 0,
        }
    }

    /// Whether the handshake's end makes it admit.
    pub open spec fn can_be_ready(self) -> bool {
        self.upstream is Some && self.state == DrainState::Starting
    }

    pub open spec fn after_ready(self) -> GenerationView {
        if self.can_be_ready() {
            GenerationView { state: DrainState::Running, ..self }
        } else {
            self
        }
    }

    /// Why a new request of that id is refused, if it is.
    pub open spec fn refusal(self, id: Seq<char>) -> Option<RequestRefused> {
        match self.state {
            DrainState::Starting => Some(RequestRefused::NotReady),
            DrainState::Draining => Some(RequestRefused::Draining),
            DrainState::Revoked => Some(RequestRefused::Stopping),
            DrainState::Running => if self.in_flight.contains_key(id) {
                Some(RequestRefused::DuplicateId)
            } else {
                None
            },
        }
    }

    pub open spec fn after_admit(
        self,
        id: Seq<char>,
        hash: Seq<u8>,
        now: u64,
        budget: u64,
    ) -> GenerationView {
        if self.refusal(id) is Some {
            self
        } else {
            GenerationView {
                in_flight: self.in_flight.insert(
                    id,
                    EntryView {
                        hash,
                        used: false,
                        deadline: deadline(now, budget),
                        sent: false,
                        serial: self.next,
                    },
                ),
                next: following(self.next),
                ..self
            }
        }
    }

    /// Whether a callback is admitted.
    pub open spec fn callback(self, request_id: Option<Seq<char>>) -> Result<(), CallbackRefused> {
        match self.state {
            DrainState::Starting => Err(CallbackRefused::NotReady),
            DrainState::Running => Ok(()),
            DrainState::Revoked => Err(CallbackRefused::Revoked),
            DrainState::Draining => match request_id {
                None => Err(CallbackRefused::DrainingWithoutRequest),
                Some(id) => if self.in_flight.contains_key(id) {
                    Ok(())
                } else {
                    Err(CallbackRefused::DrainingUnknownRequest)
                },
            },
        }
    }

    /// Whether an approval is admitted that shows a token of that digest.
    pub open spec fn approval(self, request_id: Seq<char>, presented: Seq<u8>) -> Result<
        (),
        ApprovalCallbackRefused,
    > {
        match self.state {
            DrainState::Starting => Err(ApprovalCallbackRefused::NotReady),
            DrainState::Revoked => Err(ApprovalCallbackRefused::Revoked),
            _ => if self.in_flight.contains_key(request_id) && !self.in_flight[request_id].used
                && self.in_flight[request_id].hash == presented {
                Ok(())
            } else {
                Err(ApprovalCallbackRefused::TokenInvalid)
            },
        }
    }

    /// An approval that is admitted uses the token up.
    pub open spec fn after_approval(self, request_id: Seq<char>, presented: Seq<u8>) -> GenerationView {
        if self.approval(request_id, presented) is Ok {
            GenerationView {
                in_flight: self.in_flight.insert(
                    request_id,
                    EntryView { used: true, ..self.in_flight[request_id] },
                ),
                ..self
            }
        } else {
            self
        }
    }

    /// Whether a drain begins. A grace that reaches past the end of time is refused.
    pub open spec fn can_drain(self, now: u64, grace: u64) -> bool {
        self.state == DrainState::Running && now + grace <= u64::MAX
    }

    pub open spec fn after_begin_drain(self, now: u64, grace: u64) -> GenerationView {
        if self.can_drain(now, grace) {
            GenerationView {
                state: DrainState::Draining,
                drain_deadline: Some((now + grace) as u64),
                ..self
            }
        } else {
            self
        }
    }

    /// Where the drain stands.
    pub open spec fn progress(self, now: u64) -> DrainProgress {
        if self.state == DrainState::Draining && self.drain_deadline is Some {
            let deadline = self.drain_deadline->Some_0;
            if self.in_flight.len() == 0 {
                DrainProgress::Idle
            } else if now >= deadline {
                DrainProgress::Expired { in_flight: self.in_flight.len() as usize }
            } else {
                DrainProgress::Waiting {
                    in_flight: self.in_flight.len() as usize,
                    remaining: (deadline - now) as u64,
                }
            }
        } else {
            DrainProgress::NotDraining
        }
    }

    pub open spec fn after_revoke(self) -> GenerationView {
        GenerationView { state: DrainState::Revoked, ..self }
    }

    /// The requests in flight that were sent to the module, or that were not.
    pub open spec fn ids_sent(self, sent: bool) -> Set<Seq<char>> {
        self.in_flight.dom().filter(|id: Seq<char>| self.in_flight[id].sent == sent)
    }

    /// Whether the admission of that number is in flight under that id.
    pub open spec fn has(self, id: Seq<char>, serial: u64) -> bool {
        self.in_flight.contains_key(id) && self.in_flight[id].serial == serial
    }

    /// Whether a request was admitted into this generation and has not ended.
    pub open spec fn carries(self, request: RequestView) -> bool {
        self.has(request.id, request.serial) && self.upstream == request.address
    }

    /// Whether a request may be sent to the module.
    pub open spec fn can_dispatch(self, request: RequestView) -> bool {
        self.state != DrainState::Revoked && self.carries(request)
    }

    pub open spec fn after_dispatch(self, request: RequestView) -> GenerationView {
        if self.can_dispatch(request) {
            GenerationView {
                in_flight: self.in_flight.insert(
                    request.id,
                    EntryView { sent: true, ..self.in_flight[request.id] },
                ),
                ..self
            }
        } else {
            self
        }
    }

    /// What a request that is done comes to. One that is not in flight here was never sent here,
    /// and nothing is passed on for it.
    pub open spec fn outcome(self, request: RequestView) -> Result<(), Abandoned> {
        if self.state == DrainState::Revoked || !self.carries(request) {
            Err(
                Abandoned {
                    dispatched: self.carries(request) && self.in_flight[request.id].sent,
                },
            )
        } else {
            Ok(())
        }
    }

    /// A request leaves the generation that it was admitted into, and no other.
    pub open spec fn after_finish(self, request: RequestView) -> GenerationView {
        if self.carries(request) {
            GenerationView { in_flight: self.in_flight.remove(request.id), ..self }
        } else {
            self
        }
    }
}

/// When a request's budget ends. One that reaches past the end of time ends at once.
pub open spec fn deadline(now: u64, budget: u64) -> u64 {
    if now + budget <= u64::MAX {
        (now + budget) as u64
    } else {
        now
    }
}

// ---------------------------------------------------------------------------
// Generations
// ---------------------------------------------------------------------------

#[derive(Debug)]
struct Entry {
    id: String,
    hash: [u8; 32],
    used: bool,
    deadline: u64,
    sent: bool,
    serial: u64,
}

impl Entry {
    spec fn view(&self) -> EntryView {
        EntryView {
            hash: self.hash@,
            used: self.used,
            deadline: self.deadline,
            sent: self.sent,
            serial: self.serial,
        }
    }
}

spec fn distinct(entries: Seq<Entry>) -> bool {
    forall|i: int, j: int|
        0 <= i < j < entries.len() ==> (#[trigger] entries[i]).id@ != (#[trigger] entries[j]).id@
}

spec fn holds(entries: Seq<Entry>, id: Seq<char>) -> bool {
    exists|i: int| 0 <= i < entries.len() && (#[trigger] entries[i]).id@ == id
}

spec fn place(entries: Seq<Entry>, id: Seq<char>) -> int {
    choose|i: int| 0 <= i < entries.len() && (#[trigger] entries[i]).id@ == id
}

spec fn table(entries: Seq<Entry>) -> Map<Seq<char>, EntryView>
    decreases entries.len(),
{
    if entries.len() == 0 {
        Map::empty()
    } else {
        table(entries.drop_last()).insert(entries.last().id@, entries.last().view())
    }
}

proof fn lemma_table(entries: Seq<Entry>)
    requires
        distinct(entries),
    ensures
        table(entries).dom().finite(),
        table(entries).len() == entries.len(),
        forall|id: Seq<char>| #[trigger] table(entries).contains_key(id) <==> holds(entries, id),
        forall|i: int|
            0 <= i < entries.len() ==> table(entries).contains_key((#[trigger] entries[i]).id@)
                && table(entries)[entries[i].id@] == entries[i].view(),
    decreases entries.len(),
{
    if entries.len() > 0 {
        let rest = entries.drop_last();
        let last = entries.last();
        assert(distinct(rest));
        lemma_table(rest);
        assert(!holds(rest, last.id@)) by {
            if holds(rest, last.id@) {
                let i = place(rest, last.id@);
                assert(entries[i].id@ == entries[entries.len() - 1].id@);
            }
        }
        assert forall|id: Seq<char>| #[trigger] table(entries).contains_key(id) <==> holds(
            entries,
            id,
        ) by {
            if holds(entries, id) {
                let i = place(entries, id);
                if i < rest.len() {
                    assert(rest[i].id@ == id);
                }
            }
            if holds(rest, id) {
                let i = place(rest, id);
                assert(entries[i].id@ == id);
            }
            if id == last.id@ {
                assert(entries[entries.len() - 1].id@ == id);
            }
        }
        assert forall|i: int| 0 <= i < entries.len() implies table(entries).contains_key(
            (#[trigger] entries[i]).id@,
        ) && table(entries)[entries[i].id@] == entries[i].view() by {
            if i < rest.len() {
                assert(rest[i] == entries[i]);
                assert(entries[i].id@ != entries[entries.len() - 1].id@);
            }
        }
    }
}

proof fn lemma_table_update(entries: Seq<Entry>, i: int, e: Entry)
    requires
        distinct(entries),
        0 <= i < entries.len(),
        e.id@ == entries[i].id@,
    ensures
        distinct(entries.update(i, e)),
        table(entries.update(i, e)) == table(entries).insert(e.id@, e.view()),
{
    let now = entries.update(i, e);
    assert(distinct(now));
    lemma_table(entries);
    lemma_table(now);
    assert(table(now) =~= table(entries).insert(e.id@, e.view())) by {
        assert forall|id: Seq<char>| #[trigger]
            table(now).contains_key(id) <==> table(entries).insert(e.id@, e.view()).contains_key(
                id,
            ) by {
            if holds(now, id) {
                let k = place(now, id);
                assert(entries[k].id@ == id);
            }
            if holds(entries, id) {
                let k = place(entries, id);
                assert(now[k].id@ == id);
            }
        }
        assert forall|id: Seq<char>| #[trigger] table(now).contains_key(id) implies table(now)[id]
            == table(entries).insert(e.id@, e.view())[id] by {
            let k = place(now, id);
            assert(now[k].id@ == id);
            if k != i {
                assert(entries[k] == now[k]);
                assert(now[i].id@ != now[k].id@) by {
                    if i < k {
                        assert(now[i].id@ != now[k].id@);
                    } else {
                        assert(now[k].id@ != now[i].id@);
                    }
                }
            }
        }
    }
}

proof fn lemma_table_remove(entries: Seq<Entry>, i: int)
    requires
        distinct(entries),
        0 <= i < entries.len(),
    ensures
        distinct(entries.remove(i)),
        table(entries.remove(i)) == table(entries).remove(entries[i].id@),
{
    let now = entries.remove(i);
    assert forall|a: int, b: int| 0 <= a < b < now.len() implies (#[trigger] now[a]).id@ != (
    #[trigger] now[b]).id@ by {
        let x = if a < i { a } else { a + 1 };
        let y = if b < i { b } else { b + 1 };
        assert(now[a] == entries[x]);
        assert(now[b] == entries[y]);
    }
    lemma_table(entries);
    lemma_table(now);
    let gone = entries[i].id@;
    assert(table(now) =~= table(entries).remove(gone)) by {
        assert forall|id: Seq<char>| #[trigger]
            table(now).contains_key(id) <==> table(entries).remove(gone).contains_key(id) by {
            if holds(now, id) {
                let k = place(now, id);
                let x = if k < i { k } else { k + 1 };
                assert(entries[x].id@ == id);
                assert(x != i);
                if x < i {
                    assert(entries[x].id@ != entries[i].id@);
                } else {
                    assert(entries[i].id@ != entries[x].id@);
                }
            }
            if holds(entries, id) && id != gone {
                let k = place(entries, id);
                assert(k != i);
                let x = if k < i { k } else { k - 1 };
                assert(now[x].id@ == id);
            }
        }
        assert forall|id: Seq<char>| #[trigger] table(now).contains_key(id) implies table(now)[id]
            == table(entries).remove(gone)[id] by {
            let k = place(now, id);
            let x = if k < i { k } else { k + 1 };
            assert(now[k] == entries[x]);
        }
    }
}

/// One run of one module process.
#[derive(Debug)]
pub struct Generation {
    state: DrainState,
    entries: Vec<Entry>,
    drain_deadline: Option<u64>,
    upstream: Option<Vec<u8>>,
    next: u64,
}

/// A request admitted into a generation. It leaves the generation with [`InFlight::finish`], or
/// with [`InFlight::abandon`] where it is given up.
#[derive(Debug)]
pub struct InFlight {
    id: String,
    serial: u64,
    upstream: Option<Vec<u8>>,
}

impl View for Generation {
    type V = GenerationView;

    closed spec fn view(&self) -> GenerationView {
        GenerationView {
            state: self.state,
            in_flight: table(self.entries@),
            drain_deadline: self.drain_deadline,
            upstream: optional(self.upstream),
            next: self.next,
        }
    }
}

impl View for InFlight {
    type V = RequestView;

    closed spec fn view(&self) -> RequestView {
        RequestView { id: self.id@, serial: self.serial, address: optional(self.upstream) }
    }
}

/// The bytes of an optional path.
pub open spec fn optional(path: Option<Vec<u8>>) -> Option<Seq<u8>> {
    match path {
        Some(path) => Some(path@),
        None => None,
    }
}

/// Whether two optional paths are the same.
fn same_path(a: &Option<Vec<u8>>, b: &Option<Vec<u8>>) -> (r: bool)
    ensures
        r == (optional(*a) == optional(*b)),
{
    match (a, b) {
        (Some(a), Some(b)) => text::same_bytes(a, b),
        (None, None) => true,
        _ => false,
    }
}

fn copy_path(path: &Option<Vec<u8>>) -> (r: Option<Vec<u8>>)
    ensures
        optional(r) == optional(*path),
{
    match path {
        Some(path) => Some(text::copy_bytes(path)),
        None => None,
    }
}

/// The text of an optional string slice.
pub open spec fn optional_str(s: Option<&str>) -> Option<Seq<char>> {
    match s {
        Some(s) => Some(s@),
        None => None,
    }
}

impl Generation {
    pub closed spec fn wf(&self) -> bool {
        distinct(self.entries@) && self@.wf()
    }

    /// What is well-formed satisfies the invariant of its model.
    pub proof fn lemma_wf(&self)
        requires
            self.wf(),
        ensures
            self@.wf(),
    {
    }

    /// A placeholder, while no process serves. It refuses everything, and never admits.
    pub fn starting() -> (r: Generation)
        ensures
            r.wf(),
            r@ == GenerationView::fresh(None),
    {
        Generation::new(None)
    }

    /// A process that was started just now and listens at `upstream`.
    pub fn serving_at(upstream: Vec<u8>) -> (r: Generation)
        ensures
            r.wf(),
            r@ == GenerationView::fresh(Some(upstream@)),
    {
        Generation::new(Some(upstream))
    }

    fn new(upstream: Option<Vec<u8>>) -> (r: Generation)
        ensures
            r.wf(),
            r@ == GenerationView::fresh(optional(upstream)),
    {
        let r = Generation {
            state: DrainState::Starting,
            entries: Vec::new(),
            drain_deadline: None,
            upstream,
            next: 0,
        };
        proof {
            lemma_table(r.entries@);
        }
        r
    }

    /// Where this run's process listens; none for a placeholder.
    pub fn upstream(&self) -> (r: Option<&Vec<u8>>)
        ensures
            match r {
                Some(s) => self@.upstream == Some(s@),
                None => self@.upstream is None,
            },
    {
        match &self.upstream {
            Some(s) => Some(s),
            None => None,
        }
    }

    pub fn state(&self) -> (r: DrainState)
        ensures
            r == self@.state,
    {
        self.state
    }

    /// How many admitted requests have not finished.
    pub fn in_flight(&self) -> (r: usize)
        requires
            self.wf(),
        ensures
            r == self@.in_flight.len(),
    {
        proof {
            lemma_table(self.entries@);
        }
        self.entries.len()
    }

    /// The handshake was completed. Only a generation that is starting, with a process behind it,
    /// then admits.
    pub fn ready(&mut self) -> (r: bool)
        requires
            old(self).wf(),
        ensures
            final(self).wf(),
            r == old(self)@.can_be_ready(),
            final(self)@ == old(self)@.after_ready(),
    {
        if self.upstream.is_none() {
            return false;
        }
        if self.state == DrainState::Starting {
            self.state = DrainState::Running;
            true
        } else {
            false
        }
    }

    fn find(&self, id: &str) -> (r: Option<usize>)
        requires
            self.wf(),
        ensures
            match r {
                Some(i) => i < self.entries@.len() && self.entries@[i as int].id@ == id@
                    && self@.in_flight.contains_key(id@) && self@.in_flight[id@]
                    == self.entries@[i as int].view(),
                None => !self@.in_flight.contains_key(id@),
            },
    {
        proof {
            lemma_table(self.entries@);
        }
        let mut i: usize = 0;
        while i < self.entries.len()
            invariant
                i <= self.entries@.len(),
                forall|j: int| 0 <= j < i ==> (#[trigger] self.entries@[j]).id@ != id@,
                forall|k: int|
                    0 <= k < self.entries@.len() ==> table(self.entries@).contains_key(
                        (#[trigger] self.entries@[k]).id@,
                    ) && table(self.entries@)[self.entries@[k].id@] == self.entries@[k].view(),
            decreases self.entries@.len() - i,
        {
            if text::same(self.entries[i].id.as_str(), id) {
                return Some(i);
            }
            i = i + 1;
        }
        None
    }

    /// Admits a new request, with the digest of its approval token: there is no time at which the
    /// request is in flight and has no token. `budget` is counted from `now`.
    pub fn admit_request(&mut self, id: String, token_hash: [u8; 32], now: u64, budget: u64) -> (r:
        Result<InFlight, RequestRefused>)
        requires
            old(self).wf(),
        ensures
            final(self).wf(),
            final(self)@ == old(self)@.after_admit(id@, token_hash@, now, budget),
            match r {
                Ok(request) => old(self)@.refusal(id@) is None && request@ == (RequestView {
                    id: id@,
                    serial: old(self)@.next,
                    address: old(self)@.upstream,
                }) && final(self)@.carries(request@),
                Err(refused) => old(self)@.refusal(id@) == Some(refused),
            },
    {
        match self.state {
            DrainState::Starting => {
                return Err(RequestRefused::NotReady);
            },
            DrainState::Draining => {
                return Err(RequestRefused::Draining);
            },
            DrainState::Revoked => {
                return Err(RequestRefused::Stopping);
            },
            DrainState::Running => {},
        }
        if self.find(id.as_str()).is_some() {
            return Err(RequestRefused::DuplicateId);
        }
        let deadline: u64 = match now.checked_add(budget) {
            Some(t) => t,
            None => now,
        };
        let upstream = copy_path(&self.upstream);
        let ghost was = self.entries@;
        let serial: u64 = self.next;
        let entry = Entry {
            id: id.clone(),
            hash: token_hash,
            used: false,
            deadline,
            sent: false,
            serial,
        };
        proof {
            lemma_table(was);
            let now_entries = was.push(entry);
            assert(now_entries.drop_last() =~= was);
            assert forall|i: int, j: int| 0 <= i < j < now_entries.len() implies (
            #[trigger] now_entries[i]).id@ != (#[trigger] now_entries[j]).id@ by {
                if j == was.len() {
                    assert(holds(was, was[i].id@));
                    assert(was[i] == now_entries[i]);
                }
            }
        }
        self.entries.push(entry);
        self.next = if serial == u64::MAX {
            0
        } else {
            serial + 1
        };
        proof {
            lemma_table(self.entries@);
        }
        Ok(InFlight { id, serial, upstream })
    }

    /// Whether a callback may proceed that names a request, or none.
    pub fn admit_callback(&self, request_id: Option<&str>) -> (r: Result<(), CallbackRefused>)
        requires
            self.wf(),
        ensures
            r == self@.callback(optional_str(request_id)),
    {
        match self.state {
            DrainState::Starting => Err(CallbackRefused::NotReady),
            DrainState::Running => Ok(()),
            DrainState::Revoked => Err(CallbackRefused::Revoked),
            DrainState::Draining => match request_id {
                None => Err(CallbackRefused::DrainingWithoutRequest),
                Some(id) => if self.find(id).is_some() {
                    Ok(())
                } else {
                    Err(CallbackRefused::DrainingUnknownRequest)
                },
            },
        }
    }

    /// Whether an approval may proceed that shows a token of that digest. If so, the token is used
    /// up in the same step.
    pub fn admit_approval_digest(&mut self, request_id: &str, presented: &[u8; 32]) -> (r: Result<
        (),
        ApprovalCallbackRefused,
    >)
        requires
            old(self).wf(),
        ensures
            final(self).wf(),
            r == old(self)@.approval(request_id@, presented@),
            final(self)@ == old(self)@.after_approval(request_id@, presented@),
    {
        match self.state {
            DrainState::Starting => {
                return Err(ApprovalCallbackRefused::NotReady);
            },
            DrainState::Revoked => {
                return Err(ApprovalCallbackRefused::Revoked);
            },
            _ => {},
        }
        let i: usize = match self.find(request_id) {
            Some(i) => i,
            None => {
                return Err(ApprovalCallbackRefused::TokenInvalid);
            },
        };
        if self.entries[i].used || !constant_time_eq(&self.entries[i].hash, presented) {
            return Err(ApprovalCallbackRefused::TokenInvalid);
        }
        let ghost was = self.entries@;
        self.entries[i].used = true;
        proof {
            lemma_table_update(was, i as int, self.entries@[i as int]);
            assert(self.entries@ =~= was.update(i as int, self.entries@[i as int]));
            lemma_table(self.entries@);
        }
        Ok(())
    }

    /// Whether an approval may proceed that shows that token. If so, the token is used up.
    pub fn admit_approval_callback(&mut self, request_id: &str, token: &str) -> (r: Result<
        (),
        ApprovalCallbackRefused,
    >)
        requires
            old(self).wf(),
        ensures
            final(self).wf(),
            r == old(self)@.approval(
                request_id@,
                sha256_of(vstd::utf8::encode_utf8(token@)),
            ),
            final(self)@ == old(self)@.after_approval(
                request_id@,
                sha256_of(vstd::utf8::encode_utf8(token@)),
            ),
    {
        let presented = token_hash(token);
        self.admit_approval_digest(request_id, &presented)
    }

    /// The lifecycle of a request, if it is in flight here. None for one that was never admitted
    /// and for one that has ended.
    pub fn request_lifecycle(&self, id: &str) -> (r: Option<RequestLifecycle>)
        requires
            self.wf(),
        ensures
            match r {
                Some(lifecycle) => {
                    &&& self@.in_flight.contains_key(id@)
                    &&& lifecycle.request_id() == id@
                    &&& lifecycle.serial() == self@.in_flight[id@].serial
                    &&& lifecycle.deadline() == self@.in_flight[id@].deadline
                },
                None => !self@.in_flight.contains_key(id@),
            },
    {
        match self.find(id) {
            Some(i) => Some(
                RequestLifecycle {
                    id: self.entries[i].id.clone(),
                    serial: self.entries[i].serial,
                    deadline: self.entries[i].deadline,
                },
            ),
            None => None,
        }
    }

    /// Stops admitting new requests; those in flight may run for `grace`. Only a running
    /// generation begins to drain: one that drains keeps its first deadline.
    pub fn begin_drain(&mut self, now: u64, grace: u64) -> (r: bool)
        requires
            old(self).wf(),
        ensures
            final(self).wf(),
            r == old(self)@.can_drain(now, grace),
            final(self)@ == old(self)@.after_begin_drain(now, grace),
    {
        let deadline: u64 = match now.checked_add(grace) {
            Some(t) => t,
            None => {
                return false;
            },
        };
        if self.state == DrainState::Running {
            self.drain_deadline = Some(deadline);
            self.state = DrainState::Draining;
            true
        } else {
            false
        }
    }

    /// Where the drain stands at `now`.
    pub fn progress(&self, now: u64) -> (r: DrainProgress)
        requires
            self.wf(),
        ensures
            r == self@.progress(now),
    {
        proof {
            lemma_table(self.entries@);
        }
        if self.state != DrainState::Draining {
            return DrainProgress::NotDraining;
        }
        match self.drain_deadline {
            None => DrainProgress::NotDraining,
            Some(deadline) => {
                let in_flight: usize = self.entries.len();
                if in_flight == 0 {
                    DrainProgress::Idle
                } else if now >= deadline {
                    DrainProgress::Expired { in_flight }
                } else {
                    DrainProgress::Waiting { in_flight, remaining: deadline - now }
                }
            },
        }
    }

    /// Lists the requests in flight that were sent, or those that were not.
    fn listing(&self, sent: bool) -> (r: Vec<String>)
        requires
            self.wf(),
        ensures
            text::lists(text::views(r@), self@.ids_sent(sent)),
    {
        proof {
            lemma_table(self.entries@);
        }
        let mut out: Vec<String> = Vec::new();
        let mut i: usize = 0;
        while i < self.entries.len()
            invariant
                self.wf(),
                i <= self.entries@.len(),
                text::sorted(text::views(out@)),
                forall|s: Seq<char>| #[trigger]
                    text::views(out@).contains(s) <==> exists|k: int|
                        0 <= k < i && (#[trigger] self.entries@[k]).id@ == s
                            && self.entries@[k].sent == sent,
            decreases self.entries@.len() - i,
        {
            if self.entries[i].sent == sent {
                let id = self.entries[i].id.clone();
                proof {
                    if text::views(out@).contains(id@) {
                        let k = choose|k: int|
                            0 <= k < i && (#[trigger] self.entries@[k]).id@ == id@
                                && self.entries@[k].sent == sent;
                        assert(self.entries@[k].id@ != self.entries@[i as int].id@);
                    }
                }
                let ghost before = text::views(out@);
                text::insert_sorted(&mut out, id);
                proof {
                    assert forall|s: Seq<char>| #[trigger]
                        text::views(out@).contains(s) <==> exists|k: int|
                            0 <= k < i + 1 && (#[trigger] self.entries@[k]).id@ == s
                                && self.entries@[k].sent == sent by {
                        if s == id@ {
                            assert(self.entries@[i as int].id@ == s);
                        }
                        if before.contains(s) {
                            let k = choose|k: int|
                                0 <= k < i && (#[trigger] self.entries@[k]).id@ == s
                                    && self.entries@[k].sent == sent;
                            assert(self.entries@[k].id@ == s);
                        }
                    }
                }
            }
            i = i + 1;
        }
        proof {
            let set = self@.ids_sent(sent);
            assert forall|s: Seq<char>| #[trigger]
                text::views(out@).contains(s) <==> set.contains(s) by {
                if set.contains(s) {
                    assert(holds(self.entries@, s));
                    let k = place(self.entries@, s);
                    assert(table(self.entries@)[self.entries@[k].id@]
                        == self.entries@[k].view());
                }
                if text::views(out@).contains(s) {
                    let k = choose|k: int|
                        0 <= k < self.entries@.len() && (#[trigger] self.entries@[k]).id@ == s
                            && self.entries@[k].sent == sent;
                    assert(table(self.entries@)[self.entries@[k].id@]
                        == self.entries@[k].view());
                }
            }
        }
        out
    }

    /// Revokes the generation: from here on nothing is admitted, in flight or not, and nothing
    /// more is sent to the module. The first call hands out the one permit there will ever be;
    /// every later call hands out nothing. The requests in flight are kept: each learns that it
    /// was abandoned when it finishes.
    pub fn revoke(&mut self) -> (r: Option<Revocation>)
        requires
            old(self).wf(),
        ensures
            final(self).wf(),
            final(self)@ == old(self)@.after_revoke(),
            match r {
                Some(revocation) => {
                    &&& old(self)@.state != DrainState::Revoked
                    &&& text::lists(
                        text::views(revocation.abandoned@),
                        old(self)@.ids_sent(true),
                    )
                    &&& text::lists(
                        text::views(revocation.never_sent@),
                        old(self)@.ids_sent(false),
                    )
                },
                None => old(self)@.state == DrainState::Revoked,
            },
    {
        if self.state == DrainState::Revoked {
            return None;
        }
        let abandoned = self.listing(true);
        let never_sent = self.listing(false);
        self.state = DrainState::Revoked;
        Some(Revocation { permit: KillPermit { private: () }, abandoned, never_sent })
    }
}

impl InFlight {
    /// The id of the request.
    pub fn id(&self) -> (r: &str)
        ensures
            r@ == self@.id,
    {
        self.id.as_str()
    }

    /// Where the request goes: to the process that it was admitted for, not to the one that serves
    /// by the time it is sent.
    pub fn upstream(&self) -> (r: Option<&Vec<u8>>)
        ensures
            match r {
                Some(s) => self@.address == Some(s@),
                None => self@.address is None,
            },
    {
        match &self.upstream {
            Some(s) => Some(s),
            None => None,
        }
    }

    /// Where the request stands in a generation, if it was admitted there and has not ended.
    fn place_in(&self, generation: &Generation) -> (r: Option<usize>)
        requires
            generation.wf(),
        ensures
            match r {
                Some(i) => {
                    &&& generation@.carries(self@)
                    &&& i < generation.entries@.len()
                    &&& generation.entries@[i as int].id@ == self@.id
                    &&& generation@.in_flight[self@.id] == generation.entries@[i as int].view()
                },
                None => !generation@.carries(self@),
            },
    {
        if !same_path(&generation.upstream, &self.upstream) {
            return None;
        }
        match generation.find(self.id.as_str()) {
            Some(i) => if generation.entries[i].serial == self.serial {
                Some(i)
            } else {
                None
            },
            None => None,
        }
    }

    /// Marks the request as about to be sent. If this says no, it must not be sent: its generation
    /// is revoked, or this is not its generation.
    pub fn dispatch(&self, generation: &mut Generation) -> (r: bool)
        requires
            old(generation).wf(),
        ensures
            final(generation).wf(),
            r == old(generation)@.can_dispatch(self@),
            r ==> old(generation)@.in_flight.contains_key(self@.id),
            final(generation)@ == old(generation)@.after_dispatch(self@),
    {
        if generation.state == DrainState::Revoked {
            return false;
        }
        match self.place_in(generation) {
            Some(i) => {
                let ghost was = generation.entries@;
                generation.entries[i].sent = true;
                proof {
                    lemma_table_update(was, i as int, generation.entries@[i as int]);
                    assert(generation.entries@ =~= was.update(
                        i as int,
                        generation.entries@[i as int],
                    ));
                    lemma_table(generation.entries@);
                }
                true
            },
            None => false,
        }
    }

    /// The request is done. If this is a success, the module's answer is passed on, and a later
    /// revocation does not reach back to it.
    pub fn finish(self, generation: &mut Generation) -> (r: Result<(), Abandoned>)
        requires
            old(generation).wf(),
        ensures
            final(generation).wf(),
            r == old(generation)@.outcome(self@),
            final(generation)@ == old(generation)@.after_finish(self@),
            !final(generation)@.carries(self@),
    {
        let revoked = generation.state == DrainState::Revoked;
        match self.leave(generation) {
            Some(dispatched) => if revoked {
                Err(Abandoned { dispatched })
            } else {
                Ok(())
            },
            None => Err(Abandoned { dispatched: false }),
        }
    }

    /// The request is given up.
    pub fn abandon(self, generation: &mut Generation)
        requires
            old(generation).wf(),
        ensures
            final(generation).wf(),
            final(generation)@ == old(generation)@.after_finish(self@),
            !final(generation)@.carries(self@),
    {
        let _ = self.leave(generation);
    }

    /// Takes the request out of its generation, and says whether it was sent.
    fn leave(&self, generation: &mut Generation) -> (r: Option<bool>)
        requires
            old(generation).wf(),
        ensures
            final(generation).wf(),
            r == (if old(generation)@.carries(self@) {
                Some(old(generation)@.in_flight[self@.id].sent)
            } else {
                None
            }),
            final(generation)@ == old(generation)@.after_finish(self@),
    {
        match self.place_in(generation) {
            Some(i) => {
                let sent = generation.entries[i].sent;
                let ghost was = generation.entries@;
                proof {
                    lemma_table_remove(was, i as int);
                }
                let _ = generation.entries.remove(i);
                proof {
                    lemma_table(generation.entries@);
                }
                Some(sent)
            },
            None => None,
        }
    }
}

// ---------------------------------------------------------------------------
// Lifecycles
// ---------------------------------------------------------------------------

/// How long a request has left, and which one it is.
#[derive(Debug, Clone)]
pub struct RequestLifecycle {
    id: String,
    serial: u64,
    deadline: u64,
}

impl RequestLifecycle {
    pub closed spec fn request_id(&self) -> Seq<char> {
        self.id@
    }

    /// The number of the request's admission.
    pub closed spec fn serial(&self) -> u64 {
        self.serial
    }

    /// Whether the request has ended in its generation: it is in flight there no more, whether or
    /// not another one of its id is.
    pub fn has_ended(&self, generation: &Generation) -> (r: bool)
        requires
            generation.wf(),
        ensures
            r == !generation@.has(self.request_id(), self.serial()),
    {
        match generation.find(self.id.as_str()) {
            Some(i) => generation.entries[i].serial != self.serial,
            None => true,
        }
    }

    pub closed spec fn deadline(&self) -> u64 {
        self.deadline
    }

    /// What is left of the request's budget at `now`: nothing once its deadline is reached.
    pub fn remaining(&self, now: u64) -> (r: u64)
        ensures
            r == (if now < self.deadline() {
                self.deadline() - now
            } else {
                0
            }),
    {
        if now < self.deadline {
            self.deadline - now
        } else {
            0
        }
    }
}

/// Why some work was given up.
#[derive(Debug, Clone, Copy, PartialEq, Eq, Structural)]
pub enum LifecycleTimeout {
    /// The request's budget ran out before the work was done.
    BudgetExhausted,
    /// The request ended before the work was done.
    RequestEnded,
}

/// How some work that is bound to a request ends, when it is looked at: work that is done wins,
/// whatever else is true, since its effect has already landed; a budget that ran out is told
/// before an end of the request. Nothing while the work goes on.
pub fn bind_to_lifecycle(done: bool, budget_spent: bool, ended: bool) -> (r: Option<
    Result<(), LifecycleTimeout>,
>)
    ensures
        done ==> r == Some(Ok::<(), LifecycleTimeout>(())),
        !done && budget_spent ==> r == Some(
            Err::<(), LifecycleTimeout>(LifecycleTimeout::BudgetExhausted),
        ),
        !done && !budget_spent && ended ==> r == Some(
            Err::<(), LifecycleTimeout>(LifecycleTimeout::RequestEnded),
        ),
        !done && !budget_spent && !ended ==> r is None,
{
    if done {
        Some(Ok(()))
    } else if budget_spent {
        Some(Err(LifecycleTimeout::BudgetExhausted))
    } else if ended {
        Some(Err(LifecycleTimeout::RequestEnded))
    } else {
        None
    }
}

// ---------------------------------------------------------------------------
// The slot
// ---------------------------------------------------------------------------

/// The generation that serves right now. A restart puts another one there; a request keeps the one
/// that it was admitted into.
#[derive(Debug)]
pub struct Current<G, S> {
    slot: G,
    held: bool,
    status: Option<S>,
}

impl<G, S> Current<G, S> {
    pub closed spec fn slot(&self) -> G {
        self.slot
    }

    /// Whether a supervisor holds the slot.
    pub closed spec fn held(&self) -> bool {
        self.held
    }

    pub closed spec fn last_status(&self) -> Option<S> {
        self.status
    }

    pub fn new(generation: G) -> (r: Current<G, S>)
        ensures
            r.slot() == generation,
            !r.held(),
            r.last_status() is None,
    {
        Current { slot: generation, held: false, status: None }
    }

    /// Attaches the status of the supervisor that holds the slot.
    pub fn attach_status(&mut self, status: S)
        ensures
            final(self).slot() == old(self).slot(),
            final(self).held() == old(self).held(),
            final(self).last_status() == Some(status),
    {
        self.status = Some(status);
    }

    /// The status last attached.
    pub fn status(&self) -> (r: Option<&S>)
        ensures
            match r {
                Some(s) => self.last_status() == Some(*s),
                None => self.last_status() is None,
            },
    {
        match &self.status {
            Some(s) => Some(s),
            None => None,
        }
    }

    /// Becomes the one supervisor of the slot and puts `placeholder` there, unless there is one.
    pub fn claim(&mut self, placeholder: G) -> (r: bool)
        ensures
            r == !old(self).held(),
            final(self).held(),
            final(self).slot() == (if old(self).held() {
                old(self).slot()
            } else {
                placeholder
            }),
            final(self).last_status() == old(self).last_status(),
    {
        if self.held {
            return false;
        }
        self.held = true;
        self.slot = placeholder;
        true
    }

    /// Gives the slot up.
    pub fn release(&mut self)
        ensures
            !final(self).held(),
            final(self).slot() == old(self).slot(),
            final(self).last_status() == old(self).last_status(),
    {
        self.held = false;
    }

    pub fn get(&self) -> (r: &G)
        ensures
            *r == self.slot(),
    {
        &self.slot
    }

    /// Puts the next run's generation there and hands out the one that was. Does not revoke it:
    /// whoever stops a run does that.
    pub fn replace(&mut self, next: G) -> (r: G)
        ensures
            r == old(self).slot(),
            final(self).slot() == next,
            final(self).held() == old(self).held(),
            final(self).last_status() == old(self).last_status(),
    {
        let mut out = next;
        std::mem::swap(&mut self.slot, &mut out);
        out
    }
}

// ---------------------------------------------------------------------------
// Digests
// ---------------------------------------------------------------------------

/// The SHA-256 digest of some bytes.
pub uninterp spec fn sha256_of(bytes: Seq<u8>) -> Seq<u8>;

/// Calls `sha2::Sha256::digest`: the digest, which is a function of the bytes alone.
#[verifier::external_body]
pub(crate) fn sha256(bytes: &[u8]) -> (r: [u8; 32])
    ensures
        r@ == sha256_of(bytes@),
{
    <sha2::Sha256 as sha2::Digest>::digest(bytes).into()
}

/// The digest of an approval token: the same where a token is made and where it is shown.
pub fn token_hash(token: &str) -> (r: [u8; 32])
    ensures
        r@ == sha256_of(vstd::utf8::encode_utf8(token@)),
{
    sha256(token.as_bytes())
}

proof fn lemma_differs(acc: u8, x: u8, y: u8)
    ensures
        (acc | (x ^ y)) == 0 <==> acc == 0 && x == y,
{
    assert((acc | (x ^ y)) == 0 <==> acc == 0 && x == y) by (bit_vector);
}

/// Whether two byte strings are the same, looking at every byte of them whatever the first ones
/// are.
pub fn constant_time_eq(a: &[u8], b: &[u8]) -> (r: bool)
    ensures
        r == (a@ == b@),
{
    if a.len() != b.len() {
        return false;
    }
    let mut acc: u8 = 0;
    let mut i: usize = 0;
    while i < a.len()
        invariant
            a@.len() == b@.len(),
            i <= a@.len(),
            acc == 0 <==> forall|j: int| 0 <= j < i ==> a@[j] == b@[j],
        decreases a@.len() - i,
    {
        proof {
            lemma_differs(acc, a@[i as int], b@[i as int]);
        }
        let ghost before = acc;
        acc = acc | (a[i] ^ b[i]);
        proof {
            if acc == 0 {
                assert forall|j: int| 0 <= j < i + 1 implies a@[j] == b@[j] by {}
            } else if before == 0 {
                assert(a@[i as int] != b@[i as int]);
            } else {
                let j = choose|j: int| 0 <= j < i && a@[j] != b@[j];
                assert(a@[j] != b@[j]);
            }
        }
        i = i + 1;
    }
    proof {
        if acc == 0 {
            assert(a@ =~= b@);
        }
    }
    acc == 0
}

// ---------------------------------------------------------------------------
// What a generation promises
// ---------------------------------------------------------------------------

/// Anything that can be done to a generation.
pub enum Step {
    Ready,
    Admit { id: Seq<char>, hash: Seq<u8>, now: u64, budget: u64 },
    Approve { id: Seq<char>, presented: Seq<u8> },
    BeginDrain { now: u64, grace: u64 },
    Revoke,
    Dispatch { request: RequestView },
    Finish { request: RequestView },
}

impl GenerationView {
    /// The generation after something was done to it.
    pub open spec fn after(self, step: Step) -> GenerationView {
        match step {
            Step::Ready => self.after_ready(),
            Step::Admit { id, hash, now, budget } => self.after_admit(id, hash, now, budget),
            Step::Approve { id, presented } => self.after_approval(id, presented),
            Step::BeginDrain { now, grace } => self.after_begin_drain(now, grace),
            Step::Revoke => self.after_revoke(),
            Step::Dispatch { request } => self.after_dispatch(request),
            Step::Finish { request } => self.after_finish(request),
        }
    }

    /// The generation after several things were done to it.
    pub open spec fn after_all(self, steps: Seq<Step>) -> GenerationView
        decreases steps.len(),
    {
        if steps.len() == 0 {
            self
        } else {
            self.after_all(steps.drop_last()).after(steps.last())
        }
    }
}

/// Whatever is done, a generation that admits has a process behind it, and one that drains has a
/// deadline. In particular a placeholder never admits.
pub proof fn law_the_invariant_is_kept(generation: GenerationView, step: Step)
    requires
        generation.wf(),
    ensures
        generation.after(step).wf(),
        generation.after(step).upstream == generation.upstream,
{
    let next = generation.after(step);
    if generation.state == DrainState::Starting {
        assert(next.in_flight =~= Map::empty() || next.state != DrainState::Starting
            || next.in_flight =~= generation.in_flight);
        assert(step is Finish ==> next.in_flight =~= Map::<Seq<char>, EntryView>::empty());
    }
}

/// A placeholder never admits a request, whatever is done.
pub proof fn law_a_placeholder_never_admits(
    generation: GenerationView,
    steps: Seq<Step>,
    id: Seq<char>,
)
    requires
        generation.wf(),
        generation.upstream is None,
    ensures
        generation.after_all(steps).refusal(id) is Some,
        generation.after_all(steps).wf(),
        generation.after_all(steps).upstream is None,
    decreases steps.len(),
{
    if steps.len() > 0 {
        law_a_placeholder_never_admits(generation, steps.drop_last(), id);
        law_the_invariant_is_kept(generation.after_all(steps.drop_last()), steps.last());
    }
}

/// Once revoked, a generation stays revoked, whatever is done.
pub proof fn law_revocation_is_final(generation: GenerationView, steps: Seq<Step>)
    requires
        generation.state == DrainState::Revoked,
    ensures
        generation.after_all(steps).state == DrainState::Revoked,
    decreases steps.len(),
{
    if steps.len() > 0 {
        law_revocation_is_final(generation, steps.drop_last());
    }
}

/// A revoked generation admits no request and no callback, in flight or not, and sends nothing
/// more to its module.
pub proof fn law_a_revoked_generation_admits_nothing(
    generation: GenerationView,
    id: Seq<char>,
    request_id: Option<Seq<char>>,
    presented: Seq<u8>,
    request: RequestView,
)
    requires
        generation.state == DrainState::Revoked,
    ensures
        generation.refusal(id) == Some(RequestRefused::Stopping),
        generation.callback(request_id) == Err::<(), CallbackRefused>(CallbackRefused::Revoked),
        generation.approval(id, presented) == Err::<(), ApprovalCallbackRefused>(
            ApprovalCallbackRefused::Revoked,
        ),
        !generation.can_dispatch(request),
        !generation.can_be_ready(),
        generation.outcome(request) is Err,
{
}

/// A generation only ever moves forward: from starting to running to draining to revoked.
pub open spec fn rank(state: DrainState) -> int {
    match state {
        DrainState::Starting => 0,
        DrainState::Running => 1,
        DrainState::Draining => 2,
        DrainState::Revoked => 3,
    }
}

/// Nothing brings an earlier state back: a late handshake does not reopen a module that drains.
pub proof fn law_states_only_move_forward(generation: GenerationView, step: Step)
    ensures
        rank(generation.state) <= rank(generation.after(step).state),
{
}

/// A drain refuses new requests, and keeps the callbacks of those in flight.
pub proof fn law_a_drain_keeps_the_callbacks_in_flight(
    generation: GenerationView,
    now: u64,
    grace: u64,
    id: Seq<char>,
)
    requires
        generation.can_drain(now, grace),
    ensures
        ({
            let draining = generation.after_begin_drain(now, grace);
            &&& draining.refusal(id) == Some(RequestRefused::Draining)
            &&& draining.in_flight == generation.in_flight
            &&& draining.callback(Some(id)) is Ok <==> generation.in_flight.contains_key(id)
            &&& draining.callback(None) is Err
        }),
{
}

/// A second drain changes nothing: it does not extend the grace.
pub proof fn law_a_second_drain_changes_nothing(
    generation: GenerationView,
    now: u64,
    grace: u64,
    again: u64,
    longer: u64,
)
    requires
        generation.can_drain(now, grace),
    ensures
        ({
            let draining = generation.after_begin_drain(now, grace);
            draining.after_begin_drain(again, longer) == draining
        }),
{
}

/// A token admits once: whoever shows any token again for that request is refused, as long as the
/// request is in flight, and whoever shows that one again is refused whatever is done, unless a
/// request of that id is admitted with the same digest.
pub proof fn law_a_token_admits_once(
    generation: GenerationView,
    id: Seq<char>,
    presented: Seq<u8>,
    again: Seq<u8>,
    steps: Seq<Step>,
)
    requires
        generation.approval(id, presented) is Ok,
        forall|i: int|
            0 <= i < steps.len() ==> !(#[trigger] steps[i] matches Step::Admit {
                id: other,
                hash,
                now,
                budget,
            } && other == id && hash == presented),
    ensures
        generation.after_approval(id, presented).approval(id, again) == Err::<
            (),
            ApprovalCallbackRefused,
        >(ApprovalCallbackRefused::TokenInvalid),
        generation.after_approval(id, presented).after_all(steps).approval(id, presented) is Err,
{
    lemma_spent(generation.after_approval(id, presented), id, presented, steps);
}

/// Whether a token of that digest is good for nothing under that id.
spec fn spent(generation: GenerationView, id: Seq<char>, presented: Seq<u8>) -> bool {
    generation.in_flight.contains_key(id) ==> generation.in_flight[id].used
        || generation.in_flight[id].hash != presented
}

proof fn lemma_spent(
    generation: GenerationView,
    id: Seq<char>,
    presented: Seq<u8>,
    steps: Seq<Step>,
)
    requires
        spent(generation, id, presented),
        forall|i: int|
            0 <= i < steps.len() ==> !(#[trigger] steps[i] matches Step::Admit {
                id: other,
                hash,
                now,
                budget,
            } && other == id && hash == presented),
    ensures
        spent(generation.after_all(steps), id, presented),
    decreases steps.len(),
{
    if steps.len() > 0 {
        let earlier = steps.drop_last();
        assert forall|i: int| 0 <= i < earlier.len() implies !(#[trigger] earlier[i] matches
            Step::Admit { id: other, hash, now, budget } && other == id && hash == presented) by {
            assert(earlier[i] == steps[i]);
        }
        lemma_spent(generation, id, presented, earlier);
        assert(steps.last() == steps[steps.len() - 1]);
    }
}

/// A token is good for its own request only: for another request in flight it is refused, unless
/// that one has the same digest.
pub proof fn law_a_token_is_good_for_its_own_request(
    generation: GenerationView,
    id: Seq<char>,
    presented: Seq<u8>,
)
    requires
        generation.in_flight.contains_key(id) ==> generation.in_flight[id].hash != presented,
    ensures
        generation.approval(id, presented) is Err,
        generation.after_approval(id, presented) == generation,
{
}

/// A fresh request's own token is admitted, while running and while draining.
pub proof fn law_a_fresh_token_is_admitted(
    generation: GenerationView,
    id: Seq<char>,
    hash: Seq<u8>,
    now: u64,
    budget: u64,
    grace: u64,
)
    requires
        generation.refusal(id) is None,
    ensures
        generation.after_admit(id, hash, now, budget).approval(id, hash) is Ok,
        generation.after_admit(id, hash, now, budget).after_begin_drain(now, grace).approval(
            id,
            hash,
        ) is Ok,
{
}

/// While approvals are admitted at all, every refusal looks alike: whoever is refused cannot tell an
/// id that is not in flight from a token that is wrong or was used.
pub proof fn law_refused_approvals_look_alike(
    generation: GenerationView,
    id: Seq<char>,
    presented: Seq<u8>,
)
    requires
        generation.state == DrainState::Running || generation.state == DrainState::Draining,
        generation.approval(id, presented) is Err,
    ensures
        generation.approval(id, presented) == Err::<(), ApprovalCallbackRefused>(
            ApprovalCallbackRefused::TokenInvalid,
        ),
        generation.after_approval(id, presented) == generation,
{
}

/// A request stays in flight until it finishes, whatever else is done. Its deadline and its token
/// are those of its admission; a token once used stays used, and what was sent stays sent.
pub proof fn law_an_admission_stands_until_its_end(
    generation: GenerationView,
    id: Seq<char>,
    step: Step,
)
    requires
        generation.in_flight.contains_key(id),
        !(step matches Step::Finish { request } && generation.carries(request) && request.id
            == id),
    ensures
        ({
            let before = generation.in_flight[id];
            let now = generation.after(step).in_flight[id];
            &&& generation.after(step).in_flight.contains_key(id)
            &&& now.deadline == before.deadline
            &&& now.serial == before.serial
            &&& now.hash == before.hash
            &&& before.used ==> now.used
            &&& before.sent ==> now.sent
        }),
{
}

/// A request that has finished is forgotten: its token is refused, and its lifecycle, whoever has
/// it, has ended. Nothing else changes.
pub proof fn law_a_finished_request_is_forgotten(
    generation: GenerationView,
    request: RequestView,
    presented: Seq<u8>,
    other: Seq<char>,
)
    requires
        generation.carries(request),
    ensures
        ({
            let after = generation.after_finish(request);
            &&& after.approval(request.id, presented) is Err
            &&& !after.in_flight.contains_key(request.id)
            &&& !after.has(request.id, request.serial)
            &&& after.state == generation.state
            &&& other != request.id ==> after.in_flight.contains_key(other)
                == generation.in_flight.contains_key(other)
            &&& other != request.id && generation.in_flight.contains_key(other)
                ==> after.in_flight[other] == generation.in_flight[other]
        }),
{
}

/// A request that is not in flight in a generation is not sent there, and nothing is passed on for
/// it: a request keeps to the generation that it was admitted into.
pub proof fn law_a_request_keeps_to_its_generation(
    generation: GenerationView,
    request: RequestView,
)
    requires
        !generation.carries(request),
    ensures
        !generation.can_dispatch(request),
        generation.after_dispatch(request) == generation,
        generation.outcome(request) == Err::<(), Abandoned>(Abandoned { dispatched: false }),
        generation.after_finish(request) == generation,
{
}

/// A lifecycle that has ended stays ended, whatever is done then, though a request of the same id
/// be admitted again. (Admissions are told apart by 64-bit numbers: within that many steps.)
pub proof fn law_a_lifecycle_that_ended_stays_ended(
    generation: GenerationView,
    id: Seq<char>,
    hash: Seq<u8>,
    now: u64,
    budget: u64,
    steps: Seq<Step>,
    more: Seq<Step>,
)
    requires
        generation.refusal(id) is None,
        steps.len() + more.len() < u64::MAX,
        !generation.after_admit(id, hash, now, budget).after_all(steps).has(id, generation.next),
    ensures
        !generation.after_admit(id, hash, now, budget).after_all(steps).after_all(more).has(
            id,
            generation.next,
        ),
{
    let admitted = generation.after_admit(id, hash, now, budget);
    let c = lemma_numbers_advance(admitted, generation.next, 1, steps);
    lemma_stays_ended(admitted.after_all(steps), id, generation.next, c, more);
}

/// Whether a number comes that many after another.
spec fn comes_after(first: u64, count: int, n: u64) -> bool {
    n == (if first + count <= u64::MAX {
        first + count
    } else {
        first + count - u64::MAX - 1
    })
}

proof fn lemma_numbers_advance(
    generation: GenerationView,
    first: u64,
    count: int,
    steps: Seq<Step>,
) -> (c: int)
    requires
        1 <= count,
        count + steps.len() <= u64::MAX,
        comes_after(first, count, generation.next),
    ensures
        count <= c <= count + steps.len(),
        comes_after(first, c, generation.after_all(steps).next),
    decreases steps.len(),
{
    if steps.len() == 0 {
        count
    } else {
        let c = lemma_numbers_advance(generation, first, count, steps.drop_last());
        let before = generation.after_all(steps.drop_last());
        if before.after(steps.last()).next == before.next {
            c
        } else {
            c + 1
        }
    }
}

proof fn lemma_stays_ended(
    generation: GenerationView,
    id: Seq<char>,
    serial: u64,
    count: int,
    steps: Seq<Step>,
)
    requires
        1 <= count,
        count + steps.len() <= u64::MAX,
        comes_after(serial, count, generation.next),
        !generation.has(id, serial),
    ensures
        !generation.after_all(steps).has(id, serial),
    decreases steps.len(),
{
    if steps.len() > 0 {
        let earlier = steps.drop_last();
        lemma_stays_ended(generation, id, serial, count, earlier);
        let c = lemma_numbers_advance(generation, serial, count, earlier);
        assert(generation.after_all(earlier).next != serial);
    }
}

/// Every request in flight at a revocation is told the same by the revocation and by its own end:
/// it is listed as abandoned exactly when its end says that it was sent, and never both ways.
pub proof fn law_a_revocation_and_its_requests_agree(
    generation: GenerationView,
    request: RequestView,
)
    requires
        generation.carries(request),
    ensures
        ({
            let id = request.id;
            let revoked = generation.after_revoke();
            &&& revoked.outcome(request) == Err::<(), Abandoned>(
                Abandoned { dispatched: generation.ids_sent(true).contains(id) },
            )
            &&& generation.ids_sent(true).contains(id) != generation.ids_sent(false).contains(id)
            &&& revoked.after_dispatch(request) == revoked
        }),
{
}

/// An unrepresentable grace is refused without half starting a drain.
pub proof fn law_an_unrepresentable_grace_changes_nothing(
    generation: GenerationView,
    now: u64,
    grace: u64,
)
    requires
        now + grace > u64::MAX,
    ensures
        !generation.can_drain(now, grace),
        generation.after_begin_drain(now, grace) == generation,
{
}

/// A request that was admitted and has not ended is a success when it is done, sent or not, unless
/// its generation was revoked; then it is told whether it was sent. Any other request is no success.
pub proof fn law_only_a_revocation_takes_a_success_away(
    generation: GenerationView,
    request: RequestView,
)
    ensures
        ({
            let entry = generation.in_flight[request.id];
            let here = generation.in_flight.contains_key(request.id) && entry.serial
                == request.serial && generation.upstream == request.address;
            &&& generation.outcome(request) == Ok::<(), Abandoned>(()) <==> here
                && generation.state != DrainState::Revoked
            &&& here && generation.state == DrainState::Revoked ==> generation.outcome(request)
                == Err::<(), Abandoned>(Abandoned { dispatched: entry.sent })
            &&& !here ==> generation.outcome(request) == Err::<(), Abandoned>(
                Abandoned { dispatched: false },
            )
        }),
{
}

/// Whether a step revokes the generation, or ends that request.
pub open spec fn ends(step: Step, request: RequestView) -> bool {
    step is Revoke || (step matches Step::Finish { request: other } && other == request)
}

/// Whether a step sends that request.
pub open spec fn sends(step: Step, request: RequestView) -> bool {
    step matches Step::Dispatch { request: other } && other == request
}

/// What becomes of a request, from its admission to its end. Whatever is done in between, as long as
/// nothing revokes the generation: it can be sent, it is a success when it is done, and its callbacks
/// are admitted. After a revocation it is abandoned, and told truly whether it was sent before.
pub proof fn law_a_request_from_its_admission_to_its_end(
    generation: GenerationView,
    id: Seq<char>,
    hash: Seq<u8>,
    now: u64,
    budget: u64,
    steps: Seq<Step>,
    later: Seq<Step>,
)
    requires
        generation.state == DrainState::Running,
        !generation.in_flight.contains_key(id),
        ({
            let request = RequestView {
                id,
                serial: generation.next,
                address: generation.upstream,
            };
            &&& forall|i: int| 0 <= i < steps.len() ==> !ends(#[trigger] steps[i], request)
            &&& forall|i: int|
                0 <= i < later.len() ==> !(#[trigger] later[i] matches Step::Finish {
                    request: other,
                } && other == request)
        }),
    ensures
        ({
            let request = RequestView {
                id,
                serial: generation.next,
                address: generation.upstream,
            };
            let reached = generation.after(Step::Admit { id, hash, now, budget }).after_all(steps);
            let sent = exists|i: int| 0 <= i < steps.len() && sends(#[trigger] steps[i], request);
            &&& reached.can_dispatch(request)
            &&& reached.callback(Some(id)) == Ok::<(), CallbackRefused>(())
            &&& reached.outcome(request) == Ok::<(), Abandoned>(())
            &&& reached.after(Step::Dispatch { request }).outcome(request) == Ok::<(), Abandoned>(
                (),
            )
            &&& reached.after(Step::Revoke).after_all(later).outcome(request) == Err::<
                (),
                Abandoned,
            >(Abandoned { dispatched: sent })
        }),
{
    let request = RequestView { id, serial: generation.next, address: generation.upstream };
    let admitted = generation.after(Step::Admit { id, hash, now, budget });
    lemma_life(admitted, request, steps);
    let reached = admitted.after_all(steps);
    lemma_after_revocation(reached.after(Step::Revoke), request, later);
}

/// Whether a request is in flight in a generation that admits its callbacks, and was sent or not.
spec fn lives(generation: GenerationView, request: RequestView, sent: bool) -> bool {
    &&& generation.state == DrainState::Running || generation.state == DrainState::Draining
    &&& generation.in_flight.contains_key(request.id)
    &&& generation.in_flight[request.id].serial == request.serial
    &&& generation.in_flight[request.id].sent == sent
    &&& generation.upstream == request.address
}

proof fn lemma_life(generation: GenerationView, request: RequestView, steps: Seq<Step>)
    requires
        lives(generation, request, false),
        forall|i: int| 0 <= i < steps.len() ==> !ends(#[trigger] steps[i], request),
    ensures
        lives(
            generation.after_all(steps),
            request,
            exists|i: int| 0 <= i < steps.len() && sends(#[trigger] steps[i], request),
        ),
    decreases steps.len(),
{
    if steps.len() > 0 {
        let earlier = steps.drop_last();
        let step = steps.last();
        assert forall|i: int| 0 <= i < earlier.len() implies !ends(
            #[trigger] earlier[i],
            request,
        ) by {
            assert(earlier[i] == steps[i]);
        }
        lemma_life(generation, request, earlier);
        let before = exists|i: int|
            0 <= i < earlier.len() && sends(#[trigger] earlier[i], request);
        let now = exists|i: int| 0 <= i < steps.len() && sends(#[trigger] steps[i], request);
        assert(step == steps[steps.len() - 1]);
        assert(!ends(step, request));
        assert(now == (before || sends(step, request))) by {
            if before {
                let i = choose|i: int|
                    0 <= i < earlier.len() && sends(#[trigger] earlier[i], request);
                assert(sends(steps[i], request));
            }
            if now {
                let i = choose|i: int| 0 <= i < steps.len() && sends(#[trigger] steps[i], request);
                if i < earlier.len() {
                    assert(sends(earlier[i], request));
                }
            }
        }
        let was = generation.after_all(earlier);
        match step {
            Step::Dispatch { request: other } => {
                if other.id == request.id && was.can_dispatch(other) {
                    assert(other == request);
                }
            },
            Step::Finish { request: other } => {
                if other.id == request.id && was.carries(other) {
                    assert(other == request);
                }
            },
            _ => {},
        }
    }
}

proof fn lemma_after_revocation(generation: GenerationView, request: RequestView, steps: Seq<Step>)
    requires
        generation.state == DrainState::Revoked,
        generation.in_flight.contains_key(request.id),
        generation.in_flight[request.id].serial == request.serial,
        generation.upstream == request.address,
        forall|i: int|
            0 <= i < steps.len() ==> !(#[trigger] steps[i] matches Step::Finish {
                request: other,
            } && other == request),
    ensures
        ({
            let reached = generation.after_all(steps);
            &&& reached.state == DrainState::Revoked
            &&& reached.in_flight.contains_key(request.id)
            &&& reached.in_flight[request.id].serial == request.serial
            &&& reached.in_flight[request.id].sent == generation.in_flight[request.id].sent
            &&& reached.upstream == request.address
        }),
    decreases steps.len(),
{
    if steps.len() > 0 {
        let earlier = steps.drop_last();
        let step = steps.last();
        assert forall|i: int| 0 <= i < earlier.len() implies !(#[trigger] earlier[i] matches
            Step::Finish { request: other } && other == request) by {
            assert(earlier[i] == steps[i]);
        }
        lemma_after_revocation(generation, request, earlier);
        assert(step == steps[steps.len() - 1]);
        let was = generation.after_all(earlier);
        if let Step::Finish { request: other } = step {
            if other.id == request.id && was.carries(other) {
                assert(other == request);
            }
        }
    }
}

/// What is admitted in each state. A new request: while running, under an id that is not in flight,
/// and never else. A callback: while running, and while draining if it names a request in flight. An
/// approval: while running or draining, with the unused token of a request in flight.
pub proof fn law_what_each_state_admits(
    generation: GenerationView,
    id: Seq<char>,
    presented: Seq<u8>,
)
    ensures
        ({
            let live = generation.in_flight.contains_key(id);
            let good = live && !generation.in_flight[id].used && generation.in_flight[id].hash
                == presented;
            let new = generation.refusal(id);
            let named = generation.callback(Some(id));
            let unnamed = generation.callback(None);
            let approved = generation.approval(id, presented);
            match generation.state {
                DrainState::Starting => {
                    &&& new == Some(RequestRefused::NotReady)
                    &&& named == Err::<(), CallbackRefused>(CallbackRefused::NotReady)
                    &&& unnamed == Err::<(), CallbackRefused>(CallbackRefused::NotReady)
                    &&& approved == Err::<(), ApprovalCallbackRefused>(
                        ApprovalCallbackRefused::NotReady,
                    )
                },
                DrainState::Running => {
                    &&& live ==> new == Some(RequestRefused::DuplicateId)
                    &&& !live ==> new is None
                    &&& named is Ok
                    &&& unnamed is Ok
                    &&& good ==> approved is Ok
                    &&& !good ==> approved == Err::<(), ApprovalCallbackRefused>(
                        ApprovalCallbackRefused::TokenInvalid,
                    )
                },
                DrainState::Draining => {
                    &&& new == Some(RequestRefused::Draining)
                    &&& live ==> named is Ok
                    &&& !live ==> named == Err::<(), CallbackRefused>(
                        CallbackRefused::DrainingUnknownRequest,
                    )
                    &&& unnamed == Err::<(), CallbackRefused>(
                        CallbackRefused::DrainingWithoutRequest,
                    )
                    &&& good ==> approved is Ok
                    &&& !good ==> approved == Err::<(), ApprovalCallbackRefused>(
                        ApprovalCallbackRefused::TokenInvalid,
                    )
                },
                DrainState::Revoked => {
                    &&& new == Some(RequestRefused::Stopping)
                    &&& named == Err::<(), CallbackRefused>(CallbackRefused::Revoked)
                    &&& unnamed == Err::<(), CallbackRefused>(CallbackRefused::Revoked)
                    &&& approved == Err::<(), ApprovalCallbackRefused>(
                        ApprovalCallbackRefused::Revoked,
                    )
                },
            }
        }),
{
}

/// What each step changes, and that it changes nothing else. An admission adds the one request, unused
/// and unsent, with its own token and its own deadline. An approval uses one token up. Sending marks
/// one request. Ending takes one out. The rest moves the state alone.
pub proof fn law_a_step_changes_its_own_part(
    generation: GenerationView,
    step: Step,
    other: Seq<char>,
)
    ensures
        ({
            let next = generation.after(step);
            let same_other = next.in_flight.contains_key(other)
                == generation.in_flight.contains_key(other) && (generation.in_flight.contains_key(
                other,
            ) ==> next.in_flight[other] == generation.in_flight[other]);
            &&& next.upstream == generation.upstream
            &&& match step {
                Step::Ready => {
                    &&& same_other
                    &&& next.drain_deadline == generation.drain_deadline
                    &&& next.state == (if generation.state == DrainState::Starting
                        && generation.upstream is Some {
                        DrainState::Running
                    } else {
                        generation.state
                    })
                },
                Step::Admit { id, hash, now, budget } => {
                    &&& next.state == generation.state
                    &&& next.drain_deadline == generation.drain_deadline
                    &&& other != id ==> same_other
                    &&& generation.state != DrainState::Running
                        || generation.in_flight.contains_key(id) ==> next == generation
                    &&& generation.state == DrainState::Running
                        && !generation.in_flight.contains_key(id) ==> {
                        let entry = next.in_flight[id];
                        &&& next.in_flight.contains_key(id)
                        &&& entry.hash == hash
                        &&& !entry.used
                        &&& !entry.sent
                        &&& entry.serial == generation.next
                        &&& entry.deadline == (if now + budget <= 0xffff_ffff_ffff_ffff {
                            now + budget
                        } else {
                            now as int
                        })
                    }
                },
                Step::Approve { id, presented } => {
                    let entry = generation.in_flight[id];
                    &&& next.state == generation.state
                    &&& next.drain_deadline == generation.drain_deadline
                    &&& other != id ==> same_other
                    &&& if (generation.state == DrainState::Running || generation.state
                        == DrainState::Draining) && generation.in_flight.contains_key(id)
                        && !entry.used && entry.hash == presented {
                        &&& next.in_flight.contains_key(id)
                        &&& next.in_flight[id] == (EntryView { used: true, ..entry })
                    } else {
                        next == generation
                    }
                },
                Step::BeginDrain { now, grace } => {
                    &&& same_other
                    &&& if generation.state == DrainState::Running && now + grace
                        <= 0xffff_ffff_ffff_ffff {
                        &&& next.state == DrainState::Draining
                        &&& next.drain_deadline matches Some(deadline) && deadline == now + grace
                    } else {
                        next == generation
                    }
                },
                Step::Revoke => {
                    &&& same_other
                    &&& next.state == DrainState::Revoked
                },
                Step::Dispatch { request } => {
                    let entry = generation.in_flight[request.id];
                    &&& next.state == generation.state
                    &&& next.drain_deadline == generation.drain_deadline
                    &&& other != request.id ==> same_other
                    &&& if generation.state != DrainState::Revoked
                        && generation.in_flight.contains_key(request.id) && entry.serial
                        == request.serial && generation.upstream == request.address {
                        &&& generation.can_dispatch(request)
                        &&& next.in_flight.contains_key(request.id)
                        &&& next.in_flight[request.id] == (EntryView { sent: true, ..entry })
                    } else {
                        !generation.can_dispatch(request) && next == generation
                    }
                },
                Step::Finish { request } => {
                    &&& next.state == generation.state
                    &&& next.drain_deadline == generation.drain_deadline
                    &&& other != request.id ==> same_other
                    &&& if generation.in_flight.contains_key(request.id)
                        && generation.in_flight[request.id].serial == request.serial
                        && generation.upstream == request.address {
                        !next.in_flight.contains_key(request.id)
                    } else {
                        next == generation
                    }
                },
            }
        }),
{
}

/// What the calls that answer yes or no say is what then happens: the handshake's end and the
/// beginning of a drain are reported as done exactly when they are.
pub proof fn law_what_is_reported_happens(generation: GenerationView, now: u64, grace: u64)
    ensures
        generation.can_be_ready() <==> generation.state == DrainState::Starting
            && generation.upstream is Some,
        generation.can_be_ready() ==> generation.after_ready().state == DrainState::Running,
        generation.can_drain(now, grace) <==> generation.state == DrainState::Running && now + grace
            <= 0xffff_ffff_ffff_ffff,
        generation.can_drain(now, grace) ==> generation.after_begin_drain(now, grace).state
            == DrainState::Draining,
        GenerationView::fresh(generation.upstream).state == DrainState::Starting,
        GenerationView::fresh(generation.upstream).upstream == generation.upstream,
        GenerationView::fresh(generation.upstream).in_flight.len() == 0,
{
    assert(GenerationView::fresh(generation.upstream).in_flight =~= Map::empty());
}

/// A drain is waited for while something is in flight and its time has not come, and for just as
/// long as is left of that. It is over as soon as nothing is in flight, in time or not.
pub proof fn law_a_drain_is_waited_for_until_its_deadline(generation: GenerationView, now: u64)
    requires
        generation.wf(),
        generation.in_flight.len() <= usize::MAX,
    ensures
        ({
            let progress = generation.progress(now);
            let deadline = generation.drain_deadline->Some_0;
            let draining = generation.state == DrainState::Draining;
            let count = generation.in_flight.len();
            &&& progress == DrainProgress::NotDraining <==> !draining
            &&& progress == DrainProgress::Idle <==> draining && count == 0
            &&& progress is Expired <==> draining && count > 0 && now >= deadline
            &&& progress is Waiting <==> draining && count > 0 && now < deadline
            &&& progress matches DrainProgress::Expired { in_flight } ==> in_flight == count
            &&& progress matches DrainProgress::Waiting { in_flight, remaining } ==> in_flight
                == count && now + remaining == deadline
        }),
{
}

/// At a revocation each request in flight is told apart by whether it was sent, and by nothing else.
pub proof fn law_a_revocation_tells_what_was_sent(generation: GenerationView, id: Seq<char>)
    ensures
        generation.ids_sent(true).contains(id) <==> generation.in_flight.contains_key(id)
            && generation.in_flight[id].sent,
        generation.ids_sent(false).contains(id) <==> generation.in_flight.contains_key(id)
            && !generation.in_flight[id].sent,
{
}

/// The codes by which a client tells the refusals apart.
pub proof fn law_the_codes_of_refusals()
    ensures
        RequestRefused::NotReady.wire() == "module_not_ready"@,
        RequestRefused::Draining.wire() == "module_draining"@,
        RequestRefused::Stopping.wire() == "module_stopping"@,
        RequestRefused::DuplicateId.wire() == "duplicate_request_id"@,
        Abandoned::CODE@ == "request_abandoned"@,
{
}

/// A generation begins without requests and without a deadline, and admits nothing until it is ready.
pub proof fn law_a_generation_begins_empty(upstream: Option<Seq<u8>>)
    ensures
        ({
            let generation = GenerationView::fresh(upstream);
            &&& generation.state == DrainState::Starting
            &&& generation.upstream == upstream
            &&& generation.drain_deadline is None
            &&& forall|id: Seq<char>| !#[trigger] generation.in_flight.contains_key(id)
            &&& generation.wf()
        }),
{
}

} // verus!
