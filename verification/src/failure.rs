//! Why a supervised run failed, in one of five kinds.
//!
//! A kind names the step that was seen to fail first. It is no diagnosis: what was said always
//! travels with it. The step decides and not the error: the same failure of the system is the
//! kernel's own when the socket is prepared and the channel's when the module is waited for.
use crate::endpoint::{EndpointError, HandshakeFailed};
use crate::frame::{FrameError, IoFault};
use crate::initialize::HandshakeError;
use crate::launch::LaunchError;
use crate::rpc::Ended;
use crate::supervise::{Exit, Stopped};
use crate::text;
use vstd::prelude::*;
use vstd::string::*;

verus! {

/// The most bytes of what was said that are kept.
pub const MAX_DETAIL_BYTES: usize = 512;

/// Which step of a run failed.
#[derive(Debug, Clone, Copy, PartialEq, Eq, Structural)]
pub enum FailureKind {
    /// The process was never born: the kernel's own preparation failed.
    Setup,
    /// Module and kernel disagree about the protocol.
    Refused,
    /// No handshake before the deadline.
    Timeout,
    /// The callback channel broke or ended while the process had not been seen to exit.
    Io,
    /// The process exited by itself.
    Exited,
}

impl FailureKind {
    pub open spec fn name(self) -> Seq<char> {
        match self {
            FailureKind::Setup => "setup"@,
            FailureKind::Refused => "refused"@,
            FailureKind::Timeout => "timeout"@,
            FailureKind::Io => "io"@,
            FailureKind::Exited => "exited"@,
        }
    }

    pub fn as_str(self) -> (r: &'static str)
        ensures
            r@ == self.name(),
    {
        match self {
            FailureKind::Setup => "setup",
            FailureKind::Refused => "refused",
            FailureKind::Timeout => "timeout",
            FailureKind::Io => "io",
            FailureKind::Exited => "exited",
        }
    }

    /// The coarse signal that a restart policy takes.
    pub fn legacy(self) -> (r: Stopped)
        ensures
            r == (if self == FailureKind::Timeout {
                Stopped::StartupTimeout
            } else {
                Stopped::Exited
            }),
    {
        match self {
            FailureKind::Timeout => Stopped::StartupTimeout,
            FailureKind::Setup | FailureKind::Refused | FailureKind::Io | FailureKind::Exited => {
                Stopped::Exited
            },
        }
    }
}

/// No two kinds share a name.
pub proof fn law_kinds_have_names_of_their_own(a: FailureKind, b: FailureKind)
    requires
        a != b,
    ensures
        a.name() != b.name(),
{
    reveal_strlit("setup");
    reveal_strlit("refused");
    reveal_strlit("timeout");
    reveal_strlit("io");
    reveal_strlit("exited");
    assert("setup"@[0] == 's' && "refused"@[0] == 'r' && "timeout"@[0] == 't' && "io"@[0] == 'i'
        && "exited"@[0] == 'e');
}

/// What is kept of what was said: all of it if it fits, else its beginning and an ellipsis, which
/// fit together.
pub open spec fn kept_detail(detail: Seq<char>) -> Seq<char> {
    if text::byte_len(detail) <= MAX_DETAIL_BYTES {
        detail
    } else {
        text::cut_at(detail, MAX_DETAIL_BYTES - 3) + "…"@
    }
}

/// No more is kept than may be, whatever was said.
pub proof fn law_details_are_bounded(detail: Seq<char>)
    ensures
        text::byte_len(kept_detail(detail)) <= MAX_DETAIL_BYTES,
{
    if text::byte_len(detail) > MAX_DETAIL_BYTES {
        text::law_clipped_is_bounded(detail, MAX_DETAIL_BYTES - 3);
        text::lemma_ellipsis();
    }
}

/// One failed run: its kind, and what was said.
#[derive(Debug, Clone, PartialEq, Eq)]
pub struct RunFailure {
    pub kind: FailureKind,
    /// At most [`MAX_DETAIL_BYTES`].
    pub detail: String,
}

impl RunFailure {
    pub fn new(kind: FailureKind, detail: &str) -> (r: RunFailure)
        ensures
            r.kind == kind,
            r.detail@ == kept_detail(detail@),
    {
        let detail = if detail.as_bytes().len() <= MAX_DETAIL_BYTES {
            detail.to_owned()
        } else {
            text::clip_to(detail, MAX_DETAIL_BYTES - 3)
        };
        RunFailure { kind, detail }
    }

    /// The failure in words.
    pub fn to_text(&self) -> (r: String)
        ensures
            r@ == self.kind.name() + " ("@ + self.detail@ + ")"@,
    {
        let mut out = text::concat3(self.kind.as_str(), " (", self.detail.as_str());
        out.append(")");
        out
    }
}

fn prefixed(kind: FailureKind, before: &str, what: String) -> (r: RunFailure)
    ensures
        r.kind == kind,
        r.detail@ == kept_detail(before@ + what@),
{
    let mut detail = before.to_owned();
    detail.append(what.as_str());
    RunFailure::new(kind, detail.as_str())
}

/// A generation's sockets could not be opened. Which of them it was cannot be told, so none is
/// named.
pub fn listen(e: &EndpointError) -> (r: RunFailure)
    ensures
        r.kind == FailureKind::Setup,
        r.detail@ == kept_detail("could not open the module's sockets: "@ + e.neutral_text()),
{
    let kind = match e {
        EndpointError::UnsafeDirectory { .. } => FailureKind::Setup,
        EndpointError::PathTooLong(_) => FailureKind::Setup,
        EndpointError::Io(_) => FailureKind::Setup,
        EndpointError::Timeout => FailureKind::Setup,
        EndpointError::ForeignPeer { .. } => FailureKind::Setup,
        EndpointError::AlreadyCreated(_) => FailureKind::Setup,
    };
    prefixed(kind, "could not open the module's sockets: ", e.to_neutral_text())
}

/// The module's process could not be started.
pub fn launch(e: &LaunchError) -> (r: RunFailure)
    ensures
        r.kind == FailureKind::Setup,
        r.detail@ == kept_detail("could not start the module: "@ + e.text()),
{
    let kind = match e {
        LaunchError::Unresolved(_) => FailureKind::Setup,
        LaunchError::EscapesPackage { .. } => FailureKind::Setup,
        LaunchError::Spawn(_) => FailureKind::Setup,
        LaunchError::NoEntropy(_) => FailureKind::Setup,
        LaunchError::UnsafeOwnership(_) => FailureKind::Setup,
        LaunchError::Inspect { .. } => FailureKind::Setup,
        LaunchError::TooLarge { .. } => FailureKind::Setup,
    };
    prefixed(kind, "could not start the module: ", e.to_text())
}

/// The module did not connect.
pub fn accept(e: &EndpointError) -> (r: RunFailure)
    ensures
        r.kind == (match e {
            EndpointError::Timeout => FailureKind::Timeout,
            EndpointError::ForeignPeer { .. } => FailureKind::Refused,
            _ => FailureKind::Io,
        }),
        r.detail@ == kept_detail("the module did not connect: "@ + e.text()),
{
    let kind = match e {
        EndpointError::Timeout => FailureKind::Timeout,
        EndpointError::ForeignPeer { .. } => FailureKind::Refused,
        EndpointError::Io(_) => FailureKind::Io,
        EndpointError::UnsafeDirectory { .. } => FailureKind::Io,
        EndpointError::PathTooLong(_) => FailureKind::Io,
        EndpointError::AlreadyCreated(_) => FailureKind::Io,
    };
    prefixed(kind, "the module did not connect: ", e.to_text())
}

/// The handshake did not succeed.
pub fn handshake(e: &HandshakeFailed) -> (r: RunFailure)
    ensures
        r.kind == (match e {
            HandshakeFailed::Timeout => FailureKind::Timeout,
            HandshakeFailed::Refused(_) => FailureKind::Refused,
            HandshakeFailed::Frame(FrameError::TooLong { .. }) => FailureKind::Refused,
            HandshakeFailed::Frame(_) => FailureKind::Io,
            HandshakeFailed::Write(_) => FailureKind::Io,
        }),
        r.detail@ == kept_detail("the module did not complete its handshake: "@ + e.text()),
{
    let kind = match e {
        HandshakeFailed::Timeout => FailureKind::Timeout,
        HandshakeFailed::Refused(refusal) => match refusal {
            HandshakeError::Parse(_) => FailureKind::Refused,
            HandshakeError::NotInitialize(_) => FailureKind::Refused,
            HandshakeError::BadParams(_) => FailureKind::Refused,
            HandshakeError::AuthFailed => FailureKind::Refused,
            HandshakeError::ManifestMismatch { .. } => FailureKind::Refused,
            HandshakeError::VersionMismatch(_) => FailureKind::Refused,
        },
        HandshakeFailed::Frame(frame) => match frame {
            FrameError::TooLong { .. } => FailureKind::Refused,
            FrameError::Eof => FailureKind::Io,
            FrameError::Io(_) => FailureKind::Io,
        },
        HandshakeFailed::Write(_) => FailureKind::Io,
    };
    prefixed(kind, "the module did not complete its handshake: ", e.to_text())
}

/// The callback connection of a running module ended.
pub fn serve(ended: &Ended) -> (r: RunFailure)
    ensures
        r.kind == (match ended {
            Ended::TooLong => FailureKind::Refused,
            _ => FailureKind::Io,
        }),
        r.detail@ == (match ended {
            Ended::Stopped => kept_detail(
                "the callback connection was stopped by a revocation (not expected)"@,
            ),
            _ => kept_detail("the callback connection ended: "@ + ended.shown()),
        }),
{
    let kind = match ended {
        Ended::TooLong => FailureKind::Refused,
        Ended::PeerClosed => FailureKind::Io,
        Ended::ReadFailed(_) => FailureKind::Io,
        Ended::WriteFailed(_) => FailureKind::Io,
        Ended::Stopped => {
            return RunFailure::new(
                FailureKind::Io,
                "the callback connection was stopped by a revocation (not expected)",
            );
        },
    };
    prefixed(kind, "the callback connection ended: ", ended.to_shown())
}

/// The process was seen to end, or asking whether it had failed.
pub fn exit(exited: &Result<Exit, IoFault>) -> (r: RunFailure)
    ensures
        match exited {
            Ok(exit) => r.kind == FailureKind::Exited && r.detail@ == kept_detail(
                "the module "@ + exit.text(),
            ),
            Err(e) => r.kind == FailureKind::Io && r.detail@ == kept_detail(
                "could not find out whether the module exited: "@ + e.text@,
            ),
        },
{
    match exited {
        Ok(exit) => prefixed(FailureKind::Exited, "the module ", exit.to_text()),
        Err(e) => prefixed(
            FailureKind::Io,
            "could not find out whether the module exited: ",
            e.text.clone(),
        ),
    }
}

/// The names that kinds of failure go by.
pub proof fn law_the_names_of_failures()
    ensures
        FailureKind::Setup.name() == "setup"@,
        FailureKind::Refused.name() == "refused"@,
        FailureKind::Timeout.name() == "timeout"@,
        FailureKind::Io.name() == "io"@,
        FailureKind::Exited.name() == "exited"@,
        MAX_DETAIL_BYTES == 512,
{
}

/// What was said is kept whole wherever it fits; where it does not, its beginning is kept, as much of
/// it as leaves room for an ellipsis.
pub proof fn law_a_detail_that_fits_is_kept_whole(detail: Seq<char>)
    ensures
        vstd::utf8::encode_utf8(detail).len() <= 512 ==> kept_detail(detail) == detail,
        vstd::utf8::encode_utf8(detail).len() > 512 ==> exists|k: int|
            {
                &&& 0 <= k < detail.len()
                &&& kept_detail(detail) == #[trigger] detail.take(k) + seq!['\u{2026}']
                &&& vstd::utf8::encode_utf8(detail.take(k)).len() <= 509
                &&& vstd::utf8::encode_utf8(detail.take(k + 1)).len() > 509
            },
{
    if vstd::utf8::encode_utf8(detail).len() > 512 {
        text::law_only_what_does_not_fit_is_cut(detail, 509);
        assert(kept_detail(detail) == text::clipped(detail, 509));
    }
}

} // verus!
