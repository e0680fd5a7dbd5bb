//! The kernel's end of a module's callback connection: where the socket lives, whose connection is
//! taken from it, and the handshake on that connection.
//!
//! Nothing here waits or touches a file. The system is asked elsewhere; here its answers are
//! judged. Times are nanoseconds on one clock.
use crate::frame::{FrameError, IoFault};
use crate::initialize::{self, Accepted, Expectation, HandshakeError};
use crate::json;
use crate::repeats;
use crate::rpc;
use crate::text;
use vstd::prelude::*;
use vstd::string::*;

verus! {

/// The longest path that a socket may have, in bytes: what every system can hold.
pub const MAX_SOCKET_PATH: usize = 103;

/// How long a refusal may take to be written. It is a courtesy: a module that does not read holds
/// nothing open.
pub const REFUSAL_WRITE_TIMEOUT: u64 = 1_000_000_000;

// ---------------------------------------------------------------------------
// Errors
// ---------------------------------------------------------------------------

/// Why an endpoint could not be set up or used.
#[derive(Debug)]
pub enum EndpointError {
    /// The directory is not this user's alone.
    UnsafeDirectory { path: Vec<u8>, why: String },
    /// A socket's path would be longer than [`MAX_SOCKET_PATH`].
    PathTooLong(Vec<u8>),
    /// No connection came before the deadline.
    Timeout,
    /// The process that connected is another user's.
    ForeignPeer { uid: u32 },
    /// This process holds the directory already.
    AlreadyCreated(Vec<u8>),
    /// The system refused.
    Io(IoFault),
}

impl EndpointError {
    pub open spec fn text(self) -> Seq<char> {
        match self {
            EndpointError::UnsafeDirectory { path, why } => text::lossy_text(path@)
                + " cannot hold callback sockets: "@ + why@,
            EndpointError::PathTooLong(p) => "the callback socket path "@ + text::lossy_text(p@)
                + " is longer than "@ + text::decimal(MAX_SOCKET_PATH as nat) + " bytes"@,
            EndpointError::Timeout => "no callback connection before the deadline"@,
            EndpointError::ForeignPeer { uid } => "the callback connection came from uid "@
                + text::decimal(uid as nat) + ", not this user"@,
            EndpointError::AlreadyCreated(p) => text::lossy_text(p@)
                + " is still taken over by this process; drop that directory and its listeners first"@,
            EndpointError::Io(e) => "callback endpoint: "@ + e.text@,
        }
    }

    /// The failure in words.
    pub fn to_text(&self) -> (r: String)
        ensures
            r@ == self.text(),
    {
        match self {
            EndpointError::UnsafeDirectory { path, why } => text::concat3(
                text::shown(path).as_str(),
                " cannot hold callback sockets: ",
                why.as_str(),
            ),
            EndpointError::PathTooLong(p) => {
                let mut out = text::concat3(
                    "the callback socket path ",
                    text::shown(p).as_str(),
                    " is longer than ",
                );
                out.append(text::decimal_string(MAX_SOCKET_PATH as u64).as_str());
                out.append(" bytes");
                out
            },
            EndpointError::Timeout => "no callback connection before the deadline".to_owned(),
            EndpointError::ForeignPeer { uid } => text::concat3(
                "the callback connection came from uid ",
                text::decimal_string(*uid as u64).as_str(),
                ", not this user",
            ),
            EndpointError::AlreadyCreated(p) => {
                let mut out = text::shown(p);
                out.append(
                    " is still taken over by this process; drop that directory and its listeners first",
                );
                out
            },
            EndpointError::Io(e) => {
                let mut out = "callback endpoint: ".to_owned();
                out.append(e.text.as_str());
                out
            },
        }
    }

    /// The failure where a module's sockets are opened together. Which of them failed cannot be
    /// told there, so what any of them can come to names none.
    pub open spec fn neutral_text(self) -> Seq<char> {
        match self {
            EndpointError::UnsafeDirectory { path, why } => text::lossy_text(path@)
                + " cannot hold sockets: "@ + why@,
            EndpointError::PathTooLong(p) => "the socket path "@ + text::lossy_text(p@)
                + " is longer than "@ + text::decimal(MAX_SOCKET_PATH as nat) + " bytes"@,
            EndpointError::Io(e) => "endpoint: "@ + e.text@,
            _ => self.text(),
        }
    }

    /// The failure in words that name none of a module's sockets, where it could be any.
    pub fn to_neutral_text(&self) -> (r: String)
        ensures
            r@ == self.neutral_text(),
    {
        match self {
            EndpointError::UnsafeDirectory { path, why } => text::concat3(
                text::shown(path).as_str(),
                " cannot hold sockets: ",
                why.as_str(),
            ),
            EndpointError::PathTooLong(p) => {
                let mut out = text::concat3(
                    "the socket path ",
                    text::shown(p).as_str(),
                    " is longer than ",
                );
                out.append(text::decimal_string(MAX_SOCKET_PATH as u64).as_str());
                out.append(" bytes");
                out
            },
            EndpointError::Io(e) => {
                let mut out = "endpoint: ".to_owned();
                out.append(e.text.as_str());
                out
            },
            _ => self.to_text(),
        }
    }
}

// ---------------------------------------------------------------------------
// Directories
// ---------------------------------------------------------------------------

/// What is known of an entry of the file system. Links are not followed.
#[derive(Debug, Clone, Copy, PartialEq, Eq, Structural)]
pub struct Node {
    pub is_dir: bool,
    pub uid: u32,
    pub mode: u32,
}

/// All twelve bits of a mode.
pub open spec fn mode_bits(mode: u32) -> u32 {
    mode & 0o7777
}

/// Why an entry is no directory of this user alone; nothing if it is one.
pub open spec fn unsafe_because(node: Node, me: u32) -> Option<Seq<char>> {
    if !node.is_dir {
        Some("not a directory (or a symlink to one)"@)
    } else if node.uid != me {
        Some(
            "owned by uid "@ + text::decimal(node.uid as nat) + ", not "@ + text::decimal(
                me as nat,
            ),
        )
    } else if mode_bits(node.mode) != 0o700 {
        Some("mode "@ + text::octal4(mode_bits(node.mode) as nat) + ", not 0700"@)
    } else {
        None
    }
}

/// Passes a real directory that is this user's and has mode `0700`, no bit more and no bit less.
pub fn check_private(path: &[u8], node: Result<Node, IoFault>, me: u32) -> (r: Result<
    (),
    EndpointError,
>)
    ensures
        match node {
            Err(e) => r == Err::<(), EndpointError>(EndpointError::Io(e)),
            Ok(node) => match unsafe_because(node, me) {
                None => r is Ok,
                Some(reason) => r matches Err(EndpointError::UnsafeDirectory { path: p, why })
                    && p@ == path@ && why@ == reason,
            },
        },
{
    match node {
        Err(e) => Err(EndpointError::Io(e)),
        Ok(node) => {
            let why = if !node.is_dir {
                "not a directory (or a symlink to one)".to_owned()
            } else if node.uid != me {
                let mut why = text::concat3(
                    "owned by uid ",
                    text::decimal_string(node.uid as u64).as_str(),
                    ", not ",
                );
                why.append(text::decimal_string(me as u64).as_str());
                why
            } else if node.mode & 0o7777 != 0o700 {
                text::concat3(
                    "mode ",
                    text::octal4_string(node.mode & 0o7777).as_str(),
                    ", not 0700",
                )
            } else {
                return Ok(());
            };
            Err(EndpointError::UnsafeDirectory { path: text::copy_bytes(path), why })
        },
    }
}

/// Whether an entry is to be given mode `0700` before it is checked: a directory of this user
/// with any other mode.
pub fn needs_mode(node: Node, me: u32) -> (r: bool)
    ensures
        r == (node.is_dir && node.uid == me && mode_bits(node.mode) != 0o700),
{
    node.is_dir && node.uid == me && node.mode & 0o7777 != 0o700
}

/// Once a directory of this user has the mode it is given, it passes.
pub proof fn law_a_normalised_directory_passes(node: Node, me: u32)
    requires
        node.is_dir,
        node.uid == me,
    ensures
        unsafe_because((Node { mode: 0o700, ..node }), me) is None,
{
    assert(0o700u32 & 0o7777 == 0o700) by (bit_vector);
}

/// The directories that this process holds. Taking one over empties it, so none is taken over
/// twice at a time.
#[derive(Debug)]
pub struct TakenOver {
    paths: Vec<Vec<u8>>,
}

impl TakenOver {
    /// The directories.
    pub closed spec fn paths(&self) -> Seq<Seq<u8>> {
        text::contents(self.paths@)
    }

    /// No directory is held twice.
    pub open spec fn wf(&self) -> bool {
        self.paths().no_duplicates()
    }

    pub fn new() -> (r: TakenOver)
        ensures
            r.wf(),
            r.paths() == Seq::<Seq<u8>>::empty(),
    {
        let r = TakenOver { paths: Vec::new() };
        assert(r.paths() =~= Seq::<Seq<u8>>::empty());
        r
    }

    /// Takes a directory over, unless it is held. It is held then, in any case.
    pub fn take_over(&mut self, path: &[u8]) -> (r: Result<(), EndpointError>)
        requires
            old(self).wf(),
        ensures
            final(self).wf(),
            final(self).paths().contains(path@),
            if old(self).paths().contains(path@) {
                &&& r matches Err(EndpointError::AlreadyCreated(p))
                &&& p@ == path@
                &&& final(self).paths() == old(self).paths()
            } else {
                &&& r is Ok
                &&& final(self).paths() == old(self).paths().push(path@)
            },
    {
        let ghost before = self.paths();
        let mut i: usize = 0;
        while i < self.paths.len()
            invariant
                i <= self.paths@.len(),
                self.paths() == before,
                self.wf(),
                *self == *old(self),
                forall|j: int| 0 <= j < i ==> before[j] != path@,
            decreases self.paths@.len() - i,
        {
            assert(before[i as int] == self.paths@[i as int]@);
            if text::same_bytes(self.paths[i].as_slice(), path) {
                return Err(EndpointError::AlreadyCreated(text::copy_bytes(path)));
            }
            i = i + 1;
        }
        self.paths.push(text::copy_bytes(path));
        assert(self.paths() =~= before.push(path@));
        assert(self.paths()[before.len() as int] == path@);
        Ok(())
    }

    /// Lets go of a directory.
    pub fn release(&mut self, path: &[u8])
        requires
            old(self).wf(),
        ensures
            final(self).wf(),
            !final(self).paths().contains(path@),
            forall|p: Seq<u8>|
                p != path@ ==> (#[trigger] final(self).paths().contains(p) == old(
                    self,
                ).paths().contains(p)),
    {
        let ghost before = self.paths();
        let mut i: usize = 0;
        while i < self.paths.len()
            invariant
                i <= self.paths@.len(),
                self.paths() == before,
                self.wf(),
                *self == *old(self),
                forall|j: int| 0 <= j < i ==> before[j] != path@,
            decreases self.paths@.len() - i,
        {
            assert(before[i as int] == self.paths@[i as int]@);
            if text::same_bytes(self.paths[i].as_slice(), path) {
                let _ = self.paths.remove(i);
                proof {
                    let after = self.paths();
                    assert(after =~= before.remove(i as int));
                    assert forall|k: int| 0 <= k < after.len() implies #[trigger] after[k]
                        != path@ by {
                        if k >= i {
                            assert(after[k] == before[k + 1]);
                        }
                    }
                    assert forall|p: Seq<u8>| p != path@ implies #[trigger] after.contains(p)
                        == before.contains(p) by {
                        if before.contains(p) {
                            let k = choose|k: int| 0 <= k < before.len() && before[k] == p;
                            if k < i {
                                assert(after[k] == p);
                            } else {
                                assert(after[k - 1] == p);
                            }
                        }
                    }
                }
                return ;
            }
            i = i + 1;
        }
    }
}

/// The path of a generation's socket.
pub open spec fn socket_path(dir: Seq<u8>, n: nat) -> Seq<u8> {
    crate::launch::path_join(dir, vstd::utf8::encode_utf8(text::decimal(n) + ".sock"@))
}

/// A daemon's directory of callback sockets.
#[derive(Debug)]
pub struct CallbackDir {
    path: Vec<u8>,
    last: u64,
}

impl CallbackDir {
    pub closed spec fn dir(&self) -> Seq<u8> {
        self.path@
    }

    /// The last number that was handed out.
    pub closed spec fn last(&self) -> u64 {
        self.last
    }

    /// A directory that was taken over; no number was handed out yet.
    pub fn create(path: &[u8]) -> (r: CallbackDir)
        ensures
            r.dir() == path@,
            r.last() == 0,
    {
        CallbackDir { path: text::copy_bytes(path), last: 0 }
    }

    pub fn path(&self) -> (r: &[u8])
        ensures
            r@ == self.dir(),
    {
        self.path.as_slice()
    }

    /// Whether a number is left.
    pub fn has_next(&self) -> (r: bool)
        ensures
            r == (self.last() < u64::MAX),
    {
        self.last < u64::MAX
    }

    /// Where the next generation's socket is bound, with a number that this directory never handed
    /// out. The number is chosen here and not by the caller: that no number comes twice is what
    /// keeps each generation to one connection.
    pub fn listen_next(&mut self) -> (r: Result<Vec<u8>, EndpointError>)
        requires
            old(self).last() < u64::MAX,
        ensures
            final(self).dir() == old(self).dir(),
            final(self).last() == old(self).last() + 1,
            ({
                let place = socket_path(old(self).dir(), (old(self).last() + 1) as nat);
                if place.len() <= MAX_SOCKET_PATH {
                    r matches Ok(p) && p@ == place
                } else {
                    r matches Err(EndpointError::PathTooLong(p)) && p@ == place
                }
            }),
    {
        self.last = self.last + 1;
        let mut name = text::decimal_string(self.last);
        name.append(".sock");
        let place = crate::launch::join_path(self.path.as_slice(), name.as_str().as_bytes());
        if place.len() > MAX_SOCKET_PATH {
            Err(EndpointError::PathTooLong(place))
        } else {
            Ok(place)
        }
    }
}

/// Two generations of a directory never share a socket.
pub proof fn law_sockets_are_distinct(dir: Seq<u8>, a: nat, b: nat)
    requires
        a != b,
    ensures
        socket_path(dir, a) != socket_path(dir, b),
{
    let x = text::decimal(a) + ".sock"@;
    let y = text::decimal(b) + ".sock"@;
    let p = vstd::utf8::encode_utf8(x);
    let q = vstd::utf8::encode_utf8(y);
    assert(p != q) by {
        if p == q {
            text::lemma_encode_injective(x, y);
            reveal_strlit(".sock");
            assert(x.take(x.len() - 5) =~= text::decimal(a));
            assert(y.take(y.len() - 5) =~= text::decimal(b));
            text::law_decimal_is_injective(a, b);
        }
    }
    lemma_number_is_relative(a);
    lemma_number_is_relative(b);
    if socket_path(dir, a) == socket_path(dir, b) {
        if dir.len() == 0 || dir.last() == 0x2f {
            assert((dir + p).skip(dir.len() as int) =~= p);
            assert((dir + q).skip(dir.len() as int) =~= q);
        } else {
            let d = dir.push(0x2f);
            assert((d + p).skip(d.len() as int) =~= p);
            assert((d + q).skip(d.len() as int) =~= q);
        }
    }
}

proof fn lemma_number_is_relative(n: nat)
    ensures
        !crate::launch::is_absolute(vstd::utf8::encode_utf8(text::decimal(n) + ".sock"@)),
{
    text::lemma_decimal_ascii(n);
    let x = text::decimal(n) + ".sock"@;
    text::lemma_decimal_len(n);
    reveal_strlit(".sock");
    assert(x[0] == text::decimal(n)[0]);
    vstd::utf8::is_ascii_chars_encode_utf8(x);
}

/// Judges what stands at a path where a socket was just bound.
pub fn judge_bound(path: &[u8], is_socket: bool) -> (r: Result<(), EndpointError>)
    ensures
        if is_socket {
            r is Ok
        } else {
            r matches Err(EndpointError::UnsafeDirectory { path: p, why }) && p@ == path@ && why@
                == "the bound path is not a socket"@
        },
{
    if is_socket {
        Ok(())
    } else {
        Err(
            EndpointError::UnsafeDirectory {
                path: text::copy_bytes(path),
                why: "the bound path is not a socket".to_owned(),
            },
        )
    }
}

/// Whether a path still names the node that a listener bound: only then is it removed.
pub fn is_own_node(bound: (u64, u64), found: Option<(u64, u64)>) -> (r: bool)
    ensures
        r == (found == Some(bound)),
{
    match found {
        Some(node) => node.0 == bound.0 && node.1 == bound.1,
        None => false,
    }
}

// ---------------------------------------------------------------------------
// What daemons that are gone left behind
// ---------------------------------------------------------------------------

/// The process whose directory an entry is, if it is another's.
pub open spec fn other_pid(name: Seq<char>, own: u32) -> Option<int> {
    match text::i32_value(name) {
        Some(pid) if pid > 0 && pid != own => Some(pid),
        _ => None,
    }
}

/// The process to ask about before an entry is removed: whoever its name names, unless that is no
/// process, or this one.
pub fn pid_to_ask(name: &str, own: u32) -> (r: Option<i32>)
    ensures
        match r {
            Some(pid) => other_pid(name@, own) == Some(pid as int),
            None => other_pid(name@, own) is None,
        },
{
    match text::parse_i32(name) {
        Some(pid) => if pid > 0 && pid as u32 != own {
            Some(pid)
        } else {
            None
        },
        None => None,
    }
}

/// Whether an entry is removed: the process is known to be gone, and the entry is a real directory
/// of this user.
pub fn is_stale(gone: bool, node: Option<Node>, me: u32) -> (r: bool)
    ensures
        r == (gone && (node matches Some(n) && n.is_dir && n.uid == me)),
{
    match node {
        Some(n) => gone && n.is_dir && n.uid == me,
        None => false,
    }
}

/// The own directory is never asked about, and so never removed.
pub proof fn law_the_own_directory_is_kept(name: Seq<char>, own: u32)
    requires
        text::i32_value(name) == Some(own as int),
    ensures
        other_pid(name, own) is None,
{
}

// ---------------------------------------------------------------------------
// The connection
// ---------------------------------------------------------------------------

/// What came of waiting for a connection.
#[derive(Debug)]
pub enum Waited {
    /// None came before the deadline.
    TimedOut,
    /// Taking it failed, or asking who it is did.
    Failed(IoFault),
    /// One came, from a process of that user.
    Connected { uid: u32 },
}

/// Judges the one connection that was taken.
pub fn accept_one(waited: Waited, me: u32) -> (r: Result<(), EndpointError>)
    ensures
        match waited {
            Waited::TimedOut => r == Err::<(), EndpointError>(EndpointError::Timeout),
            Waited::Failed(e) => r == Err::<(), EndpointError>(EndpointError::Io(e)),
            Waited::Connected { uid } => if uid == me {
                r is Ok
            } else {
                r == Err::<(), EndpointError>(EndpointError::ForeignPeer { uid })
            },
        },
{
    match waited {
        Waited::TimedOut => Err(EndpointError::Timeout),
        Waited::Failed(e) => Err(EndpointError::Io(e)),
        Waited::Connected { uid } => if uid == me {
            Ok(())
        } else {
            Err(EndpointError::ForeignPeer { uid })
        },
    }
}

/// Why a handshake did not succeed. Each of these ends the connection.
#[derive(Debug)]
pub enum HandshakeFailed {
    /// It was not done before the deadline.
    Timeout,
    /// No first frame could be read. It is not answered.
    Frame(FrameError),
    /// The first frame was read and refused.
    Refused(HandshakeError),
    /// The answer could not be written.
    Write(IoFault),
}

impl HandshakeFailed {
    pub open spec fn text(self) -> Seq<char> {
        match self {
            HandshakeFailed::Timeout => "no handshake before the startup deadline"@,
            HandshakeFailed::Frame(e) => "the handshake could not be read: "@ + e.shown(),
            HandshakeFailed::Refused(e) => "the handshake was refused: "@ + e@.text(),
            HandshakeFailed::Write(e) => "the handshake could not be answered: "@ + e.text@,
        }
    }

    /// The failure in words.
    pub fn to_text(&self) -> (r: String)
        ensures
            r@ == self.text(),
    {
        match self {
            HandshakeFailed::Timeout => "no handshake before the startup deadline".to_owned(),
            HandshakeFailed::Frame(e) => {
                let mut out = "the handshake could not be read: ".to_owned();
                out.append(e.to_shown().as_str());
                out
            },
            HandshakeFailed::Refused(e) => {
                let mut out = "the handshake was refused: ".to_owned();
                out.append(e.to_text().as_str());
                out
            },
            HandshakeFailed::Write(e) => {
                let mut out = "the handshake could not be answered: ".to_owned();
                out.append(e.text.as_str());
                out
            },
        }
    }
}

/// What came of reading the first frame.
#[derive(Debug)]
pub enum FirstRead {
    /// Nothing, before the deadline.
    TimedOut,
    Failed(FrameError),
    Frame(Vec<u8>),
}

/// A first frame that was checked.
#[derive(Debug)]
pub struct Checked {
    pub frame: Vec<u8>,
    pub verdict: Result<Accepted, HandshakeError>,
}

/// Checks the first frame of a connection.
pub fn check_first(read: FirstRead, expect: &Expectation) -> (r: Result<Checked, HandshakeFailed>)
    ensures
        match read {
            FirstRead::TimedOut => r matches Err(HandshakeFailed::Timeout),
            FirstRead::Failed(e) => r matches Err(HandshakeFailed::Frame(f)) && f == e,
            FirstRead::Frame(frame) => {
                &&& r matches Ok(checked)
                &&& checked.frame@ == frame@
                &&& match (
                    checked.verdict,
                    initialize::judged(
                        json::parsed_json(frame@),
                        repeats::document_repeat(frame@),
                        expect@,
                    ),
                ) {
                    (Ok(a), Ok(b)) => a@ == b,
                    (Err(e), Err(f)) => e@ == f,
                    _ => false,
                }
            },
        },
{
    match read {
        FirstRead::TimedOut => Err(HandshakeFailed::Timeout),
        FirstRead::Failed(e) => Err(HandshakeFailed::Frame(e)),
        FirstRead::Frame(frame) => {
            let verdict = initialize::accept(frame.as_slice(), expect);
            Ok(Checked { frame, verdict })
        },
    }
}

/// What is written in answer to a first frame.
#[derive(Debug)]
pub enum Reply {
    /// The module is welcome, once this was written in time.
    Welcome { line: Vec<u8>, accepted: Accepted },
    /// It is not; this is written as a courtesy.
    Refusal { line: Vec<u8>, refusal: HandshakeError },
}

/// The answer to a first frame that was checked by `now`. Checking is work, and it carries no
/// handshake past its deadline.
pub fn reply_to(checked: Checked, deadline: u64, now: u64) -> (r: Result<Reply, HandshakeFailed>)
    ensures
        if now >= deadline {
            r matches Err(HandshakeFailed::Timeout)
        } else {
            match checked.verdict {
                Ok(a) => r matches Ok(Reply::Welcome { line, accepted }) && accepted == a && line@
                    == a@.response().line(),
                Err(e) => r matches Ok(Reply::Refusal { line, refusal }) && refusal == e && line@
                    == initialize::refusal_line(
                    initialize::answerable_id(
                        json::parsed_json(checked.frame@),
                        repeats::document_repeat(checked.frame@),
                    ),
                    e@,
                ),
            }
        },
{
    if now >= deadline {
        return Err(HandshakeFailed::Timeout);
    }
    match checked.verdict {
        Ok(accepted) => {
            let line = initialize::success_line(&accepted);
            Ok(Reply::Welcome { line, accepted })
        },
        Err(refusal) => {
            let id = initialize::id_of(checked.frame.as_slice());
            let line = match &id {
                Some(id) => initialize::error_line(Some(id.as_str()), &refusal),
                None => initialize::error_line(None, &refusal),
            };
            Ok(Reply::Refusal { line, refusal })
        },
    }
}

/// Until when an answer may be written that is begun at `now`: for as long as it is given, and not
/// past the deadline.
pub open spec fn bounded(deadline: u64, now: u64, bound: u64) -> u64 {
    if now + bound < deadline {
        (now + bound) as u64
    } else {
        deadline
    }
}

/// Until when an answer may be written.
pub fn answer_until(deadline: u64, now: u64, bound: u64) -> (r: u64)
    ensures
        r == bounded(deadline, now, bound),
{
    if now < deadline && bound < deadline - now {
        now + bound
    } else {
        deadline
    }
}

/// What came of writing the answer.
#[derive(Debug)]
pub enum Written {
    /// It was not done by the bound.
    TimedOut,
    Failed(IoFault),
    Done,
}

/// Whether an answer was written in time, if the clock says `now` once the write is done.
pub open spec fn in_time(written: Written, until: u64, now: u64) -> bool {
    written is Done && now < until
}

/// Whether the answer was written in time. `now` is read once the write is done: a write that
/// finished while nobody looked at the clock still counts as late.
pub fn answered(written: Written, deadline: u64, until: u64, now: u64) -> (r: Result<
    (),
    HandshakeFailed,
>)
    ensures
        match written {
            Written::Failed(e) => r == Err::<(), HandshakeFailed>(HandshakeFailed::Write(e)),
            _ if in_time(written, until, now) => r is Ok,
            _ => if until >= deadline {
                r matches Err(HandshakeFailed::Timeout)
            } else {
                &&& r matches Err(HandshakeFailed::Write(e))
                &&& e.text@ == "the handshake answer was not taken"@
                &&& e.shown@ == "Custom { kind: TimedOut, error: "@ + text::debug_text(e.text@)
                    + " }"@
            },
        },
{
    match written {
        Written::Failed(e) => Err(HandshakeFailed::Write(e)),
        Written::Done if now < until => Ok(()),
        _ => if until >= deadline {
            Err(HandshakeFailed::Timeout)
        } else {
            Err(HandshakeFailed::Write(IoFault::timed_out("the handshake answer was not taken")))
        },
    }
}

/// No handshake succeeds past its deadline, however long its answer was given and whenever it was
/// begun.
pub proof fn law_no_handshake_succeeds_late(
    written: Written,
    deadline: u64,
    begun: u64,
    bound: u64,
    now: u64,
)
    requires
        in_time(written, bounded(deadline, begun, bound), now),
    ensures
        now < deadline,
{
}

/// A directory may hold sockets exactly if it is one, is this user's, and lets nobody else in. Of what
/// is wrong with it the first thing is told.
pub proof fn law_exactly_a_private_directory_is_safe(node: Node, me: u32)
    ensures
        unsafe_because(node, me) is None <==> node.is_dir && node.uid == me && node.mode & 0o7777
            == 0o700,
        unsafe_because(node, me) matches Some(why) ==> {
            &&& !node.is_dir ==> why == "not a directory (or a symlink to one)"@
            &&& node.is_dir && node.uid != me ==> why == "owned by uid "@ + text::decimal(
                node.uid as nat,
            ) + ", not "@ + text::decimal(me as nat)
            &&& node.is_dir && node.uid == me ==> why == "mode "@ + text::octal4(
                (node.mode & 0o7777) as nat,
            ) + ", not 0700"@
        },
{
}

/// A socket is a numbered file in the directory.
pub proof fn law_a_socket_is_a_file_of_its_directory(dir: Seq<u8>, n: nat)
    requires
        dir.len() > 0,
        dir.last() != 0x2f,
    ensures
        socket_path(dir, n) == dir + seq![0x2fu8] + vstd::utf8::encode_utf8(
            text::decimal(n) + ".sock"@,
        ),
        MAX_SOCKET_PATH == 103,
{
    let name = text::decimal(n) + ".sock"@;
    lemma_number_is_relative(n);
    assert(dir.push(0x2f) + vstd::utf8::encode_utf8(name) =~= dir + seq![0x2fu8]
        + vstd::utf8::encode_utf8(name));
}

/// A name is that of another process exactly if it is a number that is positive and not this
/// process's.
pub proof fn law_which_processes_are_asked(name: Seq<char>, own: u32, pid: int)
    ensures
        other_pid(name, own) == Some(pid) <==> text::i32_value(name) == Some(pid) && pid > 0 && pid
            != own,
        0 < pid <= i32::MAX && pid != own ==> other_pid(text::decimal(pid as nat), own) == Some(
            pid,
        ),
{
    if 0 < pid <= i32::MAX {
        text::law_a_number_that_fits_is_read_back(pid as nat);
    }
}

/// An answer is written until the sooner of its own bound and the deadline, and counts only if it was
/// done before that.
pub proof fn law_an_answer_counts_until_the_sooner(
    written: Written,
    deadline: u64,
    begun: u64,
    bound: u64,
    now: u64,
)
    ensures
        bounded(deadline, begun, bound) <= deadline,
        bounded(deadline, begun, bound) <= begun + bound,
        bounded(deadline, begun, bound) == deadline || bounded(deadline, begun, bound) == begun
            + bound,
        in_time(written, bounded(deadline, begun, bound), now) <==> written is Done && now
            < deadline && now < begun + bound,
        REFUSAL_WRITE_TIMEOUT == 1_000_000_000,
{
}

/// What errors of endpoints say in words.
pub proof fn law_the_words_of_endpoints(
    path: Vec<u8>,
    why: String,
    uid: u32,
    fault: IoFault,
    frame: FrameError,
    refusal: HandshakeError,
)
    ensures
        ({
            let place = text::lossy_text(path@);
            let unsafe_one = EndpointError::UnsafeDirectory { path, why };
            let long = EndpointError::PathTooLong(path);
            &&& unsafe_one.text() == place + " cannot hold callback sockets: "@ + why@
            &&& unsafe_one.neutral_text() == place + " cannot hold sockets: "@ + why@
            &&& long.text() == "the callback socket path "@ + place + " is longer than "@
                + text::decimal(103) + " bytes"@
            &&& long.neutral_text() == "the socket path "@ + place + " is longer than "@
                + text::decimal(103) + " bytes"@
            &&& EndpointError::Timeout.text() == "no callback connection before the deadline"@
            &&& (EndpointError::ForeignPeer { uid }).text()
                == "the callback connection came from uid "@ + text::decimal(uid as nat)
                + ", not this user"@
            &&& EndpointError::AlreadyCreated(path).text() == place
                + " is still taken over by this process; drop that directory and its listeners first"@
            &&& EndpointError::Io(fault).text() == "callback endpoint: "@ + fault.text@
            &&& EndpointError::Io(fault).neutral_text() == "endpoint: "@ + fault.text@
            &&& HandshakeFailed::Timeout.text() == "no handshake before the startup deadline"@
            &&& HandshakeFailed::Frame(frame).text() == "the handshake could not be read: "@
                + frame.shown()
            &&& HandshakeFailed::Refused(refusal).text() == "the handshake was refused: "@
                + refusal@.text()
            &&& HandshakeFailed::Write(fault).text()
                == "the handshake could not be answered: "@ + fault.text@
        }),
{
}

} // verus!
