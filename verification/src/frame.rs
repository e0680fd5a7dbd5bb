//! Frames: one line of the callback channel each, ended by a newline.
//!
//! A line may hold at most [`MAX_FRAME_BYTES`]. At most one byte more is ever held while looking
//! for the newline, and the rest of a longer line is not drained: the stream is then in the middle
//! of a line, and whoever reads it disconnects.
use crate::text;
use vstd::prelude::*;
use vstd::string::*;

verus! {

/// The longest frame, without its newline.
pub const MAX_FRAME_BYTES: usize = 1_048_576;

/// The byte that ends a frame.
pub const NEWLINE: u8 = 0x0a;

/// A failure of the system, told in two forms.
#[derive(Debug)]
pub struct IoFault {
    /// What a reader is told.
    pub text: String,
    /// What a developer is shown.
    pub shown: String,
}

impl IoFault {
    pub fn new(text: &str, shown: &str) -> (r: IoFault)
        ensures
            r.text@ == text@,
            r.shown@ == shown@,
    {
        IoFault { text: text.to_owned(), shown: shown.to_owned() }
    }

    /// Something took too long.
    pub fn timed_out(text: &str) -> (r: IoFault)
        ensures
            r.text@ == text@,
            r.shown@ == "Custom { kind: TimedOut, error: "@ + text::debug_text(text@) + " }"@,
    {
        let shown = text::concat3(
            "Custom { kind: TimedOut, error: ",
            text::debug_string(text).as_str(),
            " }",
        );
        IoFault { text: text.to_owned(), shown }
    }
}

/// Why no frame was read.
#[derive(Debug)]
pub enum FrameError {
    /// A line is longer than the limit.
    TooLong { limit: usize },
    /// The stream ended before a newline.
    Eof,
    /// Reading failed.
    Io(IoFault),
}

impl FrameError {
    pub open spec fn shown(self) -> Seq<char> {
        match self {
            FrameError::TooLong { limit } => "TooLong { limit: "@ + text::decimal(limit as nat)
                + " }"@,
            FrameError::Eof => "Eof"@,
            FrameError::Io(e) => "Io("@ + e.shown@ + ")"@,
        }
    }

    pub open spec fn text(self) -> Seq<char> {
        match self {
            FrameError::TooLong { limit } => "a frame is longer than "@ + text::decimal(
                limit as nat,
            ) + " bytes"@,
            FrameError::Eof => "the stream ended before a newline"@,
            FrameError::Io(e) => e.text@,
        }
    }

    /// The failure in words.
    pub fn to_text(&self) -> (r: String)
        ensures
            r@ == self.text(),
    {
        match self {
            FrameError::TooLong { limit } => text::concat3(
                "a frame is longer than ",
                text::decimal_string(*limit as u64).as_str(),
                " bytes",
            ),
            FrameError::Eof => "the stream ended before a newline".to_owned(),
            FrameError::Io(e) => e.text.clone(),
        }
    }

    /// What a developer is shown.
    pub fn to_shown(&self) -> (r: String)
        ensures
            r@ == self.shown(),
    {
        match self {
            FrameError::TooLong { limit } => text::concat3(
                "TooLong { limit: ",
                text::decimal_string(*limit as u64).as_str(),
                " }",
            ),
            FrameError::Eof => "Eof".to_owned(),
            FrameError::Io(e) => text::concat3("Io(", e.shown.as_str(), ")"),
        }
    }
}

/// What a stream holds at its start.
pub enum FirstFrame {
    /// A frame, and what comes after its newline.
    Frame { frame: Seq<u8>, rest: Seq<u8> },
    /// More bytes than a frame may have, and no newline among them.
    TooLong,
    /// No newline.
    Unfinished,
}

/// Where the first newline stands: the number of bytes before it, or of all bytes if there is none.
pub open spec fn line_len(stream: Seq<u8>) -> nat
    decreases stream.len(),
{
    if stream.len() == 0 || stream[0] == NEWLINE {
        0
    } else {
        1 + line_len(stream.drop_first())
    }
}

/// The first frame of a stream.
pub open spec fn first_frame(stream: Seq<u8>) -> FirstFrame {
    let n = line_len(stream) as int;
    if n > MAX_FRAME_BYTES {
        FirstFrame::TooLong
    } else if n < stream.len() {
        FirstFrame::Frame { frame: stream.take(n), rest: stream.skip(n + 1) }
    } else {
        FirstFrame::Unfinished
    }
}

proof fn lemma_line_len(stream: Seq<u8>)
    ensures
        line_len(stream) <= stream.len(),
        line_len(stream) < stream.len() ==> stream[line_len(stream) as int] == NEWLINE,
        forall|i: int| 0 <= i < line_len(stream) ==> stream[i] != NEWLINE,
    decreases stream.len(),
{
    if stream.len() > 0 && stream[0] != NEWLINE {
        let tail = stream.drop_first();
        lemma_line_len(tail);
        assert forall|i: int| 0 <= i < line_len(stream) implies stream[i] != NEWLINE by {
            if i > 0 {
                assert(stream[i] == tail[i - 1]);
            }
        }
    }
}

/// The first newline is the one that no newline comes before.
proof fn lemma_line_len_is(stream: Seq<u8>, n: int)
    requires
        0 <= n <= stream.len(),
        forall|i: int| 0 <= i < n ==> stream[i] != NEWLINE,
        n < stream.len() ==> stream[n] == NEWLINE,
    ensures
        line_len(stream) == n,
{
    lemma_line_len(stream);
}

/// A frame that was written comes back, with whatever comes after it left alone.
pub proof fn law_a_written_frame_is_read_back(frame: Seq<u8>, rest: Seq<u8>)
    requires
        frame.len() <= MAX_FRAME_BYTES,
        !frame.contains(NEWLINE),
    ensures
        first_frame(frame.push(NEWLINE) + rest) == (FirstFrame::Frame { frame, rest }),
{
    let stream = frame.push(NEWLINE) + rest;
    assert forall|i: int| 0 <= i < frame.len() implies stream[i] != NEWLINE by {
        assert(stream[i] == frame[i]);
        assert(frame.contains(frame[i]));
    }
    assert(stream[frame.len() as int] == NEWLINE);
    lemma_line_len_is(stream, frame.len() as int);
    assert(stream.take(frame.len() as int) =~= frame);
    assert(stream.skip((frame.len() + 1) as int) =~= rest);
}

/// A frame never holds a newline, nor more bytes than the limit.
pub proof fn law_frames_are_bounded(stream: Seq<u8>)
    ensures
        first_frame(stream) matches FirstFrame::Frame { frame, rest } ==> frame.len()
            <= MAX_FRAME_BYTES && !frame.contains(NEWLINE) && stream == frame.push(NEWLINE) + rest,
{
    lemma_line_len(stream);
    let n = line_len(stream) as int;
    if n < stream.len() {
        assert(stream =~= stream.take(n).push(NEWLINE) + stream.skip(n + 1));
    }
}

/// What looking at a piece of a stream comes to.
pub enum PieceRead {
    /// The frame is whole with the first bytes of the piece, its newline among them.
    Frame { frame: Seq<u8>, consumed: nat },
    /// The first bytes of the piece belong to the frame, and it goes on.
    More { held: Seq<u8>, consumed: nat },
}

/// What looking at a piece comes to, if so much is held of the frame. No more is looked at than a
/// frame may have, and one byte.
pub open spec fn piece_read(held: Seq<u8>, piece: Seq<u8>) -> PieceRead {
    let room = MAX_FRAME_BYTES + 1 - held.len();
    let n = line_len(piece) as int;
    if n < piece.len() && n < room {
        PieceRead::Frame { frame: held + piece.take(n), consumed: (n + 1) as nat }
    } else {
        let consumed = if piece.len() < room {
            piece.len() as int
        } else {
            room
        };
        PieceRead::More { held: held + piece.take(consumed), consumed: consumed as nat }
    }
}

/// The pieces, one after the other.
pub open spec fn whole(pieces: Seq<Seq<u8>>) -> Seq<u8>
    decreases pieces.len(),
{
    if pieces.len() == 0 {
        Seq::empty()
    } else {
        pieces[0] + whole(pieces.drop_first())
    }
}

/// The first frame of a stream that comes in pieces, if so much is held of it before the first of
/// them.
pub open spec fn read_in_pieces(held: Seq<u8>, pieces: Seq<Seq<u8>>) -> FirstFrame
    decreases pieces.len(),
{
    if held.len() > MAX_FRAME_BYTES {
        FirstFrame::TooLong
    } else if pieces.len() == 0 {
        FirstFrame::Unfinished
    } else {
        match piece_read(held, pieces[0]) {
            PieceRead::Frame { frame, consumed } => FirstFrame::Frame {
                frame,
                rest: pieces[0].skip(consumed as int) + whole(pieces.drop_first()),
            },
            PieceRead::More { held, consumed } => read_in_pieces(held, pieces.drop_first()),
        }
    }
}

/// How a stream is cut into pieces never shows in the frame that is read from it.
pub proof fn law_cuts_make_no_difference(pieces: Seq<Seq<u8>>)
    ensures
        read_in_pieces(Seq::empty(), pieces) == first_frame(whole(pieces)),
{
    lemma_read_in_pieces(Seq::empty(), pieces);
    assert(Seq::<u8>::empty() + whole(pieces) =~= whole(pieces));
}

proof fn lemma_read_in_pieces(held: Seq<u8>, pieces: Seq<Seq<u8>>)
    requires
        held.len() <= MAX_FRAME_BYTES + 1,
        !held.contains(NEWLINE),
    ensures
        read_in_pieces(held, pieces) == first_frame(held + whole(pieces)),
    decreases pieces.len(),
{
    let stream = held + whole(pieces);
    if held.len() > MAX_FRAME_BYTES {
        lemma_full_is_too_long(held, whole(pieces));
    } else if pieces.len() == 0 {
        assert(stream =~= held);
        lemma_line_len_is_all(held);
    } else {
        let piece = pieces[0];
        let later = whole(pieces.drop_first());
        let n = line_len(piece) as int;
        let room = MAX_FRAME_BYTES + 1 - held.len();
        lemma_line_len(piece);
        assert(stream =~= held + piece + later);
        assert forall|k: int| 0 <= k < held.len() implies held[k] != NEWLINE by {
            assert(held.contains(held[k]));
        }
        if n < piece.len() && n < room {
            let m = held.len() + n;
            assert forall|k: int| 0 <= k < m implies stream[k] != NEWLINE by {
                if k >= held.len() {
                    assert(stream[k] == piece[k - held.len()]);
                }
            }
            assert(stream[m] == piece[n]);
            lemma_line_len_is(stream, m);
            assert(stream.take(m) =~= held + piece.take(n));
            assert(stream.skip(m + 1) =~= piece.skip(n + 1) + later);
        } else {
            let c = if piece.len() < room {
                piece.len() as int
            } else {
                room
            };
            let next = held + piece.take(c);
            assert(!next.contains(NEWLINE)) by {
                if next.contains(NEWLINE) {
                    let k = choose|k: int| 0 <= k < next.len() && next[k] == NEWLINE;
                    if k >= held.len() {
                        assert(next[k] == piece[k - held.len()]);
                    }
                }
            }
            lemma_read_in_pieces(next, pieces.drop_first());
            if c < piece.len() {
                lemma_full_is_too_long(next, later);
                lemma_full_is_too_long(next, piece.skip(c) + later);
                assert(stream =~= next + (piece.skip(c) + later));
            } else {
                assert(stream =~= next + later);
            }
        }
    }
}

proof fn lemma_full_is_too_long(held: Seq<u8>, later: Seq<u8>)
    requires
        held.len() > MAX_FRAME_BYTES,
        !held.contains(NEWLINE),
    ensures
        first_frame(held + later) is TooLong,
{
    let stream = held + later;
    lemma_line_len(stream);
    if line_len(stream) <= MAX_FRAME_BYTES {
        let n = line_len(stream) as int;
        assert(stream[n] == held[n]);
        assert(held.contains(stream[n]));
    }
}

/// What to do after some bytes of a stream were looked at.
#[derive(Debug)]
pub enum Progress {
    /// The frame is whole. `consumed` bytes of what was looked at belong to it.
    Frame { frame: Vec<u8>, consumed: usize },
    /// `consumed` bytes belong to the frame, and it goes on.
    More { consumed: usize },
}

/// A frame that is being read, a piece of the stream at a time.
pub struct FrameReader {
    held: Vec<u8>,
}

impl FrameReader {
    /// What is held of the frame so far.
    pub closed spec fn held(&self) -> Seq<u8> {
        self.held@
    }

    /// What is held is at most one byte over the limit, and has no newline.
    pub closed spec fn wf(&self) -> bool {
        &&& self.held@.len() <= MAX_FRAME_BYTES + 1
        &&& !self.held@.contains(NEWLINE)
    }

    pub fn new() -> (r: FrameReader)
        ensures
            r.wf(),
            r.held() == Seq::<u8>::empty(),
    {
        FrameReader { held: Vec::new() }
    }

    /// How many bytes may still be looked at; none means that the line is too long.
    pub fn room(&self) -> (r: usize)
        requires
            self.wf(),
        ensures
            r == MAX_FRAME_BYTES + 1 - self.held().len(),
            r == 0 ==> forall|later: Seq<u8>|
                first_frame(#[trigger] (self.held() + later)) is TooLong,
    {
        let r: usize = MAX_FRAME_BYTES + 1 - self.held.len();
        proof {
            if r == 0 {
                assert forall|later: Seq<u8>|
                    first_frame(#[trigger] (self.held() + later)) is TooLong by {
                    lemma_full_is_too_long(self.held(), later);
                }
            }
        }
        r
    }

    /// Looks at the next bytes of the stream, as many of them as there is room for. Whatever comes
    /// later in the stream, its first frame is the one found here, or the one that goes on from
    /// what is held then.
    pub fn feed(&mut self, available: &[u8]) -> (r: Progress)
        requires
            old(self).wf(),
            old(self).held().len() <= MAX_FRAME_BYTES,
        ensures
            final(self).wf(),
            match (r, piece_read(old(self).held(), available@)) {
                (
                    Progress::Frame { frame, consumed },
                    PieceRead::Frame { frame: f, consumed: c },
                ) => frame@ == f && consumed == c && final(self).held() == f,
                (Progress::More { consumed }, PieceRead::More { held, consumed: c }) => consumed
                    == c && final(self).held() == held,
                _ => false,
            },
            match r {
                Progress::Frame { frame, consumed } => {
                    &&& consumed <= available@.len()
                    &&& forall|later: Seq<u8>|
                        first_frame(#[trigger] (old(self).held() + available@ + later)) == (
                        FirstFrame::Frame {
                            frame: frame@,
                            rest: available@.skip(consumed as int) + later,
                        })
                },
                Progress::More { consumed } => {
                    &&& consumed <= available@.len()
                    &&& available@.len() > 0 ==> consumed > 0
                    &&& final(self).held() == old(self).held() + available@.take(consumed as int)
                    &&& consumed < available@.len() ==> final(self).held().len() == MAX_FRAME_BYTES
                        + 1
                },
            },
    {
        let ghost was = self.held@;
        let room: usize = MAX_FRAME_BYTES + 1 - self.held.len();
        let window: usize = if available.len() < room {
            available.len()
        } else {
            room
        };
        let mut i: usize = 0;
        while i < window && available[i] != NEWLINE
            invariant
                i <= window <= available@.len(),
                window <= MAX_FRAME_BYTES + 1 - was.len(),
                self.held@ == was + available@.take(i as int),
                forall|j: int| 0 <= j < i ==> available@[j] != NEWLINE,
            decreases window - i,
        {
            self.held.push(available[i]);
            assert(self.held@ =~= was + available@.take(i + 1));
            i = i + 1;
        }
        proof {
            assert forall|k: int| 0 <= k < self.held@.len() implies self.held@[k] != NEWLINE by {
                if k < was.len() {
                    assert(was.contains(was[k]));
                }
            }
        }
        proof {
            lemma_line_len(available@);
        }
        if i < window {
            let frame = self.held.clone();
            proof {
                lemma_line_len_is(available@, i as int);
                assert(frame@ =~= self.held@);
                let consumed = i + 1;
                assert forall|later: Seq<u8>|
                    first_frame(#[trigger] (was + available@ + later)) == (FirstFrame::Frame {
                        frame: frame@,
                        rest: available@.skip(consumed) + later,
                    }) by {
                    let stream = was + available@ + later;
                    let n = was.len() + i;
                    assert(stream.take(n) =~= frame@);
                    assert forall|k: int| 0 <= k < n implies stream[k] != NEWLINE by {
                        assert(stream.take(n)[k] == frame@[k]);
                    }
                    assert(stream[n] == available@[i as int]);
                    lemma_line_len_is(stream, n);
                    assert(stream.skip(n + 1) =~= available@.skip(consumed) + later);
                }
            }
            Progress::Frame { frame, consumed: i + 1 }
        } else {
            Progress::More { consumed: i }
        }
    }
}

/// Reads the first frame of bytes that are all there.
pub fn read_frame(stream: &[u8]) -> (r: Result<Vec<u8>, FrameError>)
    ensures
        match (r, first_frame(stream@)) {
            (Ok(f), FirstFrame::Frame { frame, rest }) => f@ == frame,
            (Err(FrameError::TooLong { limit }), FirstFrame::TooLong) => limit == MAX_FRAME_BYTES,
            (Err(FrameError::Eof), FirstFrame::Unfinished) => true,
            _ => false,
        },
{
    let mut reader = FrameReader::new();
    assert(reader.held() + stream@ =~= stream@);
    assert(reader.held() + stream@ + Seq::<u8>::empty() =~= stream@);
    match reader.feed(stream) {
        Progress::Frame { frame, consumed } => Ok(frame),
        Progress::More { consumed } => {
            let room: usize = reader.room();
            assert(stream@ =~= reader.held() + stream@.skip(consumed as int));
            if room == 0 {
                return Err(FrameError::TooLong { limit: MAX_FRAME_BYTES });
            }
            proof {
                assert(reader.held() =~= stream@);
                lemma_line_len_is_all(stream@);
            }
            Err(FrameError::Eof)
        },
    }
}

proof fn lemma_line_len_is_all(stream: Seq<u8>)
    requires
        !stream.contains(NEWLINE),
    ensures
        line_len(stream) == stream.len(),
{
    lemma_line_len(stream);
    if line_len(stream) < stream.len() {
        assert(stream.contains(stream[line_len(stream) as int]));
    }
}

/// A stream begins with a frame exactly if it begins with no more than 1 MiB of bytes that are no
/// newlines, and then a newline. It is too long exactly if more than that many bytes come without one.
pub proof fn law_a_frame_ends_at_the_first_newline(stream: Seq<u8>, frame: Seq<u8>, rest: Seq<u8>)
    ensures
        first_frame(stream) == (FirstFrame::Frame { frame, rest }) <==> {
            &&& stream == frame + seq![0x0au8] + rest
            &&& frame.len() <= 1_048_576
            &&& forall|i: int| 0 <= i < frame.len() ==> #[trigger] frame[i] != 0x0a
        },
        first_frame(stream) is TooLong <==> {
            &&& stream.len() > 1_048_576
            &&& forall|i: int| 0 <= i <= 1_048_576 ==> #[trigger] stream[i] != 0x0a
        },
        first_frame(stream) is Unfinished <==> {
            &&& stream.len() <= 1_048_576
            &&& forall|i: int| 0 <= i < stream.len() ==> #[trigger] stream[i] != 0x0a
        },
{
    law_frames_are_bounded(stream);
    lemma_line_ends(stream);
    let n = line_len(stream) as int;
    if first_frame(stream) == (FirstFrame::Frame { frame, rest }) {
        assert(frame.push(NEWLINE) + rest =~= frame + seq![0x0au8] + rest);
        assert forall|i: int| 0 <= i < frame.len() implies #[trigger] frame[i] != 0x0a by {
            assert(frame.contains(frame[i]));
        }
        assert(n <= 1_048_576 && stream[n] == 0x0a);
    }
    if stream == frame + seq![0x0au8] + rest && frame.len() <= 1_048_576 && forall|i: int|
        0 <= i < frame.len() ==> #[trigger] frame[i] != 0x0a {
        assert(stream =~= frame.push(NEWLINE) + rest);
        law_a_written_frame_is_read_back(frame, rest);
    }
    if n < stream.len() && n <= 1_048_576 {
        assert(stream[n] == 0x0a);
    }
}

proof fn lemma_line_ends(stream: Seq<u8>)
    ensures
        line_len(stream) <= stream.len(),
        line_len(stream) < stream.len() ==> stream[line_len(stream) as int] == 0x0a,
        forall|i: int| 0 <= i < line_len(stream) ==> #[trigger] stream[i] != 0x0a,
    decreases stream.len(),
{
    if stream.len() > 0 && stream[0] != NEWLINE {
        let rest = stream.drop_first();
        lemma_line_ends(rest);
        assert forall|i: int| 0 <= i < line_len(stream) implies #[trigger] stream[i] != 0x0a by {
            if i > 0 {
                assert(rest[i - 1] == stream[i]);
            }
        }
    }
}

/// A piece is taken up to its newline, if that comes in time, and else as far as there is room: a
/// frame may have 1 MiB, and one byte more shows that it is too long. Nothing of it is changed.
pub proof fn law_a_piece_is_taken_as_far_as_there_is_room(held: Seq<u8>, piece: Seq<u8>)
    requires
        held.len() <= 1_048_576,
    ensures
        match piece_read(held, piece) {
            PieceRead::Frame { frame, consumed } => {
                &&& 0 < consumed <= piece.len()
                &&& frame == held + piece.take(consumed - 1)
                &&& piece[consumed - 1] == 0x0a
                &&& forall|i: int| 0 <= i < consumed - 1 ==> #[trigger] piece[i] != 0x0a
                &&& frame.len() <= 1_048_576
            },
            PieceRead::More { held: now, consumed } => {
                &&& consumed <= piece.len()
                &&& now == held + piece.take(consumed as int)
                &&& forall|i: int| 0 <= i < consumed ==> #[trigger] piece[i] != 0x0a
                &&& consumed == piece.len() || now.len() == 1_048_577
                &&& now.len() <= 1_048_577
            },
        },
{
    lemma_line_ends(piece);
}

/// What errors of frames say, in words and to a developer.
pub proof fn law_the_words_of_frames(limit: usize, fault: IoFault)
    ensures
        (FrameError::TooLong { limit }).text() == "a frame is longer than "@ + text::decimal(
            limit as nat,
        ) + " bytes"@,
        FrameError::Eof.text() == "the stream ended before a newline"@,
        FrameError::Io(fault).text() == fault.text@,
        (FrameError::TooLong { limit }).shown() == "TooLong { limit: "@ + text::decimal(
            limit as nat,
        ) + " }"@,
        FrameError::Eof.shown() == "Eof"@,
        FrameError::Io(fault).shown() == "Io("@ + fault.shown@ + ")"@,
{
}

} // verus!
