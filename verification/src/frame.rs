//! Finding packets in a raw byte stream.
//!
//! The reader never touches the byte source itself. It is a small machine:
//! its state says how many bytes to ask the source for, `step` takes what the
//! source returned and says what follows. `next_packet` runs the machine over
//! bytes that are already in memory.
use crate::header::fields_of;
use crate::header::header_of;
use crate::header::is_sync_at;
use crate::header::parse_fields;
use crate::header::sync_byte;
use crate::header::sync_pattern;
use crate::header::Data;
use vstd::prelude::*;
use vstd::slice::slice_subrange;
use vstd::slice::slice_to_vec;

verus! {

/// Why no packet came out of the stream.
#[derive(Clone, Copy, Debug, PartialEq, Eq, Structural)]
pub enum FrameError {
    /// The source ran dry before a sync pattern was complete.
    SyncNotFound,
    /// The source gave fewer bytes than a header or payload needs; the packet
    /// is dropped.
    ShortRead,
    /// The source itself failed.
    SourceIoError,
}

impl FrameError {
    /// Whether the error ends the whole stream. Only a failure of the source
    /// does; after any other error the search for the next sync pattern goes
    /// on.
    pub open spec fn spec_is_fatal(self) -> bool {
        self == FrameError::SourceIoError
    }

    /// Whether the error ends the whole stream.
    pub fn is_fatal(&self) -> (fatal: bool)
        ensures
            fatal == self.spec_is_fatal(),
    {
        match self {
            FrameError::SourceIoError => true,
            _ => false,
        }
    }
}

/// Where the reader stands between two reads.
#[derive(Clone, Copy, Debug, PartialEq, Eq, Structural)]
pub enum ReaderState {
    /// Looking for the sync pattern; its first `matched` bytes were the last
    /// bytes read.
    Scanning { matched: usize },
    /// The sync pattern is complete; the 32 bytes of header fields are due.
    Header,
    /// The header is read; its payload is due.
    Payload { header: Data },
}

/// One packet: its header and the payload bytes that the header declared.
#[derive(Debug)]
pub struct Packet {
    pub header: Data,
    pub payload: Vec<u8>,
}

impl View for Packet {
    type V = (Data, Seq<u8>);

    open spec fn view(&self) -> (Data, Seq<u8>) {
        (self.header, self.payload@)
    }
}

/// What a read of the byte source gave.
pub enum Event<'a> {
    /// The bytes that the source yielded within its bounded wait; empty when
    /// it timed out.
    Read(&'a [u8]),
    /// The source reported an error.
    SourceFailed,
}

impl<'a> View for Event<'a> {
    type V = Option<Seq<u8>>;

    open spec fn view(&self) -> Option<Seq<u8>> {
        match *self {
            Event::Read(bytes) => Some(bytes@),
            Event::SourceFailed => None,
        }
    }
}

/// What one step of the reader decided.
pub struct Step {
    /// The state to continue from.
    pub state: ReaderState,
    /// How many of the offered bytes were used up.
    pub consumed: usize,
    /// The packet or the error that this step ends with, if it ends the
    /// search.
    pub outcome: Option<Result<Packet, FrameError>>,
}

/// The mathematical content of a `Step`.
pub struct StepModel {
    pub state: ReaderState,
    pub consumed: nat,
    pub outcome: Option<Result<(Data, Seq<u8>), FrameError>>,
}

impl View for Step {
    type V = StepModel;

    open spec fn view(&self) -> StepModel {
        StepModel {
            state: self.state,
            consumed: self.consumed as nat,
            outcome: match self.outcome {
                None => None,
                Some(Ok(packet)) => Some(Ok(packet@)),
                Some(Err(e)) => Some(Err(e)),
            },
        }
    }
}

/// The state in which every search for a packet starts.
pub open spec fn start_state() -> ReaderState {
    ReaderState::Scanning { matched: 0 }
}

/// How many sync bytes are matched once `byte` follows `matched` matched
/// ones. No byte occurs twice in the pattern, so a byte that breaks a partial
/// match can only start a new one.
pub open spec fn advance(matched: int, byte: u8) -> int {
    if byte == sync_pattern()[matched] {
        matched + 1
    } else if byte == sync_pattern()[0] {
        1
    } else {
        0
    }
}

impl ReaderState {
    /// Whether the state can occur: a partial match is shorter than the
    /// pattern, and a header whose payload is awaited is well formed.
    pub open spec fn valid(self) -> bool {
        match self {
            ReaderState::Scanning { matched } => matched < 8,
            ReaderState::Header => true,
            ReaderState::Payload { header } => header.well_formed(),
        }
    }

    /// How many bytes the next read should ask the source for.
    pub open spec fn spec_wanted(self) -> nat {
        match self {
            ReaderState::Scanning { matched } => 1,
            ReaderState::Header => 32,
            ReaderState::Payload { header } => header.spec_payload_len(),
        }
    }

    /// Whether the state can occur.
    pub fn is_valid(&self) -> (ok: bool)
        ensures
            ok == self.valid(),
    {
        match *self {
            ReaderState::Scanning { matched } => matched < 8,
            ReaderState::Header => true,
            ReaderState::Payload { header } => header.total_packet_len >= 40,
        }
    }

    /// The state in which every search for a packet starts.
    pub fn start() -> (state: ReaderState)
        ensures
            state == start_state(),
            state.valid(),
    {
        ReaderState::Scanning { matched: 0 }
    }

    /// How many bytes the next read should ask the source for.
    pub fn wanted(&self) -> (n: usize)
        requires
            self.valid(),
        ensures
            n == self.spec_wanted(),
    {
        match *self {
            ReaderState::Scanning { matched } => 1,
            ReaderState::Header => 32,
            ReaderState::Payload { header } => (header.total_packet_len - 40) as usize,
        }
    }
}

/// What the reader decides in `state` when the source answers with `event`.
///
/// While scanning, one byte is taken at a time; an empty read ends the search
/// with `SyncNotFound`. Header fields and payload are taken whole or not at
/// all: a read that is too short ends the search with `ShortRead`. A header
/// that declares fewer than 40 bytes is discarded and the scan resumes. Every
/// end of a search, and every failure, leaves the reader in the start state.
pub open spec fn step_spec(state: ReaderState, event: Option<Seq<u8>>) -> StepModel {
    match event {
        None => StepModel {
            state: start_state(),
            consumed: 0,
            outcome: Some(Err(FrameError::SourceIoError)),
        },
        Some(input) => match state {
            ReaderState::Scanning { matched } => if input.len() == 0 {
                StepModel {
                    state: start_state(),
                    consumed: 0,
                    outcome: Some(Err(FrameError::SyncNotFound)),
                }
            } else if advance(matched as int, input[0]) == 8 {
                StepModel { state: ReaderState::Header, consumed: 1, outcome: None }
            } else {
                StepModel {
                    state: ReaderState::Scanning {
                        matched: advance(matched as int, input[0]) as usize,
                    },
                    consumed: 1,
                    outcome: None,
                }
            },
            ReaderState::Header => if input.len() < 32 {
                StepModel {
                    state: start_state(),
                    consumed: input.len(),
                    outcome: Some(Err(FrameError::ShortRead)),
                }
            } else if !fields_of(input).well_formed() {
                StepModel { state: start_state(), consumed: 32, outcome: None }
            } else {
                StepModel {
                    state: ReaderState::Payload { header: fields_of(input) },
                    consumed: 32,
                    outcome: None,
                }
            },
            ReaderState::Payload { header } => if input.len() < header.spec_payload_len() {
                StepModel {
                    state: start_state(),
                    consumed: input.len(),
                    outcome: Some(Err(FrameError::ShortRead)),
                }
            } else {
                StepModel {
                    state: start_state(),
                    consumed: header.spec_payload_len(),
                    outcome: Some(Ok((header, input.subrange(0, header.spec_payload_len() as int)))),
                }
            },
        },
    }
}

/// Advances a partial match of the sync pattern by one byte.
pub fn advance_sync(matched: usize, byte: u8) -> (next: usize)
    requires
        matched < 8,
    ensures
        next == advance(matched as int, byte),
        next <= 8,
{
    if byte == sync_byte(matched) {
        matched + 1
    } else if byte == sync_byte(0) {
        1
    } else {
        0
    }
}

/// Takes what the source returned and decides how the search goes on.
pub fn step(state: ReaderState, event: Event<'_>) -> (next: Step)
    requires
        state.valid(),
    ensures
        next@ == step_spec(state, event@),
        next.state.valid(),
        next.consumed <= state.spec_wanted(),
        event@ matches Some(input) ==> next.consumed <= input.len(),
{
    let input: &[u8] = match event {
        Event::SourceFailed => {
            return Step {
                state: ReaderState::start(),
                consumed: 0,
                outcome: Some(Err(FrameError::SourceIoError)),
            };
        },
        Event::Read(bytes) => bytes,
    };
    match state {
        ReaderState::Scanning { matched } => {
            if input.len() == 0 {
                return Step {
                    state: ReaderState::start(),
                    consumed: 0,
                    outcome: Some(Err(FrameError::SyncNotFound)),
                };
            }
            let now: usize = advance_sync(matched, input[0]);
            if now == 8 {
                Step { state: ReaderState::Header, consumed: 1, outcome: None }
            } else {
                Step { state: ReaderState::Scanning { matched: now }, consumed: 1, outcome: None }
            }
        },
        ReaderState::Header => {
            if input.len() < 32 {
                return Step {
                    state: ReaderState::start(),
                    consumed: input.len(),
                    outcome: Some(Err(FrameError::ShortRead)),
                };
            }
            let header: Data = parse_fields(input);
            match header.payload_len() {
                None => Step { state: ReaderState::start(), consumed: 32, outcome: None },
                Some(_) => Step {
                    state: ReaderState::Payload { header },
                    consumed: 32,
                    outcome: None,
                },
            }
        },
        ReaderState::Payload { header } => {
            let want: usize = (header.total_packet_len - 40) as usize;
            if input.len() < want {
                return Step {
                    state: ReaderState::start(),
                    consumed: input.len(),
                    outcome: Some(Err(FrameError::ShortRead)),
                };
            }
            let payload: Vec<u8> = slice_to_vec(slice_subrange(input, 0, want));
            Step {
                state: ReaderState::start(),
                consumed: want,
                outcome: Some(Ok(Packet { header, payload })),
            }
        },
    }
}

/// The end of one search for a packet: what was found and how many bytes of
/// the stream are used up.
pub struct Framed {
    pub result: Result<(Data, Seq<u8>), FrameError>,
    pub consumed: nat,
}

/// The search for a packet in `s` from offset `from` on.
///
/// The packet starts at the first sync pattern at or after `from`. A header
/// that declares fewer than 40 bytes is passed over, and the search goes on
/// behind it. A stream that ends before the pattern, the header or the payload
/// is complete is used up.
pub open spec fn next_frame(s: Seq<u8>, from: int) -> Framed
    decreases s.len() - from,
{
    if from < 0 || from + 8 > s.len() {
        Framed { result: Err(FrameError::SyncNotFound), consumed: s.len() }
    } else if !is_sync_at(s, from) {
        next_frame(s, from + 1)
    } else if from + 40 > s.len() {
        Framed { result: Err(FrameError::ShortRead), consumed: s.len() }
    } else {
        let header = header_of(s.skip(from));
        if !header.well_formed() {
            next_frame(s, from + 40)
        } else if from + header.total_packet_len > s.len() {
            Framed { result: Err(FrameError::ShortRead), consumed: s.len() }
        } else {
            Framed {
                result: Ok((header, s.subrange(from + 40, from + header.total_packet_len))),
                consumed: (from + header.total_packet_len) as nat,
            }
        }
    }
}

/// The bytes of the sync pattern, one by one.
pub proof fn lemma_sync_bytes()
    ensures
        sync_pattern().len() == 8,
        sync_pattern()[0] == 0x02,
        sync_pattern()[1] == 0x01,
        sync_pattern()[2] == 0x04,
        sync_pattern()[3] == 0x03,
        sync_pattern()[4] == 0x06,
        sync_pattern()[5] == 0x05,
        sync_pattern()[6] == 0x08,
        sync_pattern()[7] == 0x07,
{
}

/// Whether every byte read so far from offset `p` on agrees with the sync
/// pattern, `pos` bytes of `s` having been read.
pub open spec fn viable(s: Seq<u8>, p: int, pos: int) -> bool {
    forall|j: int| 0 <= j < 8 && p + j < pos ==> s[p + j] == #[trigger] sync_pattern()[j]
}

/// What a scan that started at `origin` knows after reading `pos` bytes with
/// `matched` sync bytes matched: the last `matched` bytes open the pattern,
/// and no earlier offset can still be the start of one.
pub open spec fn scanned(s: Seq<u8>, origin: int, pos: int, matched: int) -> bool {
    &&& 0 <= matched <= 8
    &&& 0 <= origin <= pos - matched
    &&& pos <= s.len()
    &&& viable(s, pos - matched, pos)
    &&& forall|p: int| origin <= p < pos - matched ==> !#[trigger] viable(s, p, pos)
}

/// Offsets at which no sync pattern starts can be passed over.
pub proof fn lemma_noise_skipped(s: Seq<u8>, a: int, b: int)
    requires
        0 <= a <= b,
        forall|p: int| a <= p < b ==> !is_sync_at(s, p),
    ensures
        next_frame(s, a) == next_frame(s, b),
    decreases b - a,
{
    if a < b && a + 8 <= s.len() {
        lemma_noise_skipped(s, a + 1, b);
    }
}

/// One more byte keeps what the scan knows.
proof fn lemma_scan_advances(s: Seq<u8>, origin: int, pos: int, matched: int)
    requires
        scanned(s, origin, pos, matched),
        matched < 8,
        pos < s.len(),
    ensures
        scanned(s, origin, pos + 1, advance(matched, s[pos])),
{
    lemma_sync_bytes();
    let now = advance(matched, s[pos]);
    let start = pos - matched;
    assert(viable(s, pos + 1 - now, pos + 1)) by {
        if now == matched + 1 {
            assert forall|j: int| 0 <= j < 8 && start + j < pos + 1 implies s[start + j]
                == #[trigger] sync_pattern()[j] by {}
        }
    }
    assert forall|p: int| origin <= p < pos + 1 - now implies !#[trigger] viable(
        s,
        p,
        pos + 1,
    ) by {
        if p < start {
            assert(!viable(s, p, pos));
        } else if p == start {
            assert(s[p + matched] != sync_pattern()[matched]);
        } else if p < pos {
            let d = p - start;
            assert(s[start + d] == sync_pattern()[d]);
            assert(s[p + 0] != sync_pattern()[0]);
        } else {
            assert(s[p + 0] != sync_pattern()[0]);
        }
    }
}

/// A complete match is the first sync pattern since the scan began.
proof fn lemma_scan_found(s: Seq<u8>, origin: int, pos: int)
    requires
        scanned(s, origin, pos, 8),
    ensures
        is_sync_at(s, pos - 8),
        next_frame(s, origin) == next_frame(s, pos - 8),
{
    assert forall|p: int| origin <= p < pos - 8 implies !is_sync_at(s, p) by {
        assert(!viable(s, p, pos));
    }
    lemma_noise_skipped(s, origin, pos - 8);
}

/// A scan that reaches the end of the stream has passed no sync pattern.
proof fn lemma_scan_exhausted(s: Seq<u8>, origin: int, matched: int)
    requires
        scanned(s, origin, s.len() as int, matched),
        matched < 8,
    ensures
        next_frame(s, origin) == (Framed {
            result: Err(FrameError::SyncNotFound),
            consumed: s.len(),
        }),
{
    assert forall|p: int| origin <= p < s.len() implies !is_sync_at(s, p) by {
        if p < s.len() - matched {
            assert(!viable(s, p, s.len() as int));
        }
    }
    lemma_noise_skipped(s, origin, s.len() as int);
}

/// How the reader's state, after `pos` bytes of `s`, relates to the search
/// that began at `origin`.
pub open spec fn tracks(s: Seq<u8>, state: ReaderState, pos: int, origin: int) -> bool {
    match state {
        ReaderState::Scanning { matched } => matched < 8 && scanned(s, origin, pos, matched as int),
        ReaderState::Header => {
            &&& 0 <= origin
            &&& origin + 8 == pos
            &&& is_sync_at(s, origin)
        },
        ReaderState::Payload { header } => {
            &&& 0 <= origin
            &&& origin + 40 == pos
            &&& pos <= s.len()
            &&& is_sync_at(s, origin)
            &&& header == header_of(s.skip(origin))
            &&& header.well_formed()
        },
    }
}

/// One step of the reader on the rest of the stream goes the way of the
/// search: it ends with the search's result, or it moves on within the stream
/// and the search is unchanged. Returns the offset at which the search stands
/// after the step.
pub proof fn lemma_step_follows_search(s: Seq<u8>, state: ReaderState, pos: int, origin: int) -> (next_origin:
    int)
    requires
        tracks(s, state, pos, origin),
        0 <= pos <= s.len(),
    ensures
        ({
            let taken = step_spec(state, Some(s.skip(pos)));
            match taken.outcome {
                Some(result) => next_frame(s, origin) == (Framed {
                    result,
                    consumed: (pos + taken.consumed) as nat,
                }),
                None => {
                    &&& taken.consumed > 0
                    &&& pos + taken.consumed <= s.len()
                    &&& tracks(s, taken.state, pos + taken.consumed, next_origin)
                    &&& next_frame(s, origin) == next_frame(s, next_origin)
                },
            }
        }),
{
    let input = s.skip(pos);
    match state {
        ReaderState::Scanning { matched } => {
            if input.len() == 0 {
                lemma_scan_exhausted(s, origin, matched as int);
                origin
            } else {
                lemma_scan_advances(s, origin, pos, matched as int);
                let now = advance(matched as int, input[0]);
                if now == 8 {
                    lemma_scan_found(s, origin, pos + 1);
                    pos + 1 - 8
                } else {
                    origin
                }
            }
        },
        ReaderState::Header => {
            if input.len() >= 32 {
                assert(s.skip(origin).skip(8) =~= input);
                if !fields_of(input).well_formed() {
                    assert(scanned(s, origin + 40, origin + 40, 0));
                    origin + 40
                } else {
                    origin
                }
            } else {
                origin
            }
        },
        ReaderState::Payload { header } => {
            if input.len() >= header.spec_payload_len() {
                assert(input.subrange(0, header.spec_payload_len() as int) =~= s.subrange(
                    origin + 40,
                    origin + header.total_packet_len,
                ));
            }
            origin
        },
    }
}

/// Finds the next packet in `stream`.
///
/// Returns the packet, or why there is none, and the number of bytes of
/// `stream` that the search used up; a later search starts behind them.
pub fn next_packet(stream: &[u8]) -> (found: (Result<Packet, FrameError>, usize))
    ensures
        found.1 == next_frame(stream@, 0).consumed,
        found.1 <= stream.len(),
        match found.0 {
            Ok(packet) => next_frame(stream@, 0).result == Ok::<(Data, Seq<u8>), FrameError>(
                packet@,
            ),
            Err(e) => next_frame(stream@, 0).result == Err::<(Data, Seq<u8>), FrameError>(e),
        },
{
    let mut state: ReaderState = ReaderState::start();
    let mut pos: usize = 0;
    let ghost mut origin: int = 0;
    proof {
        lemma_sync_bytes();
    }
    loop
        invariant
            pos <= stream.len(),
            state.valid(),
            tracks(stream@, state, pos as int, origin),
            next_frame(stream@, 0) == next_frame(stream@, origin),
        decreases stream.len() - pos,
    {
        let input = slice_subrange(stream, pos, stream.len());
        assert(input@ =~= stream@.skip(pos as int));
        let taken = step(state, Event::Read(input));
        proof {
            origin = lemma_step_follows_search(stream@, state, pos as int, origin);
        }
        pos = pos + taken.consumed;
        state = taken.state;
        match taken.outcome {
            Some(result) => {
                return (result, pos);
            },
            None => {},
        }
    }
}

/// A header that declares fewer than 40 bytes is never followed by a payload
/// read: the search passes over its 40 bytes and goes on scanning.
pub proof fn lemma_corrupt_header_rejected(s: Seq<u8>, p: int)
    requires
        is_sync_at(s, p),
        p + 40 <= s.len(),
        header_of(s.skip(p)).total_packet_len < 40,
    ensures
        next_frame(s, p) == next_frame(s, p + 40),
{
}

/// The header at the front of a stream depends on its first 40 bytes only.
proof fn lemma_header_of_front(a: Seq<u8>, b: Seq<u8>)
    requires
        a.len() >= 40,
        b.len() >= 40,
        a.subrange(0, 40) == b.subrange(0, 40),
    ensures
        header_of(a) == header_of(b),
{
    let x = a.skip(8);
    let y = b.skip(8);
    assert forall|i: int| 0 <= i < 32 implies x[i] == y[i] by {
        assert(x[i] == a.subrange(0, 40)[i + 8]);
        assert(y[i] == b.subrange(0, 40)[i + 8]);
    }
    assert(x.subrange(0, 4) =~= y.subrange(0, 4));
    assert(x.subrange(4, 8) =~= y.subrange(4, 8));
    assert(x.subrange(8, 12) =~= y.subrange(8, 12));
    assert(x.subrange(12, 16) =~= y.subrange(12, 16));
    assert(x.subrange(16, 20) =~= y.subrange(16, 20));
    assert(x.subrange(20, 24) =~= y.subrange(20, 24));
    assert(x.subrange(24, 28) =~= y.subrange(24, 28));
    assert(x.subrange(28, 32) =~= y.subrange(28, 32));
}

/// No sync pattern starts inside bytes that hold none, even when a sync
/// pattern follows them: no byte occurs twice in the pattern, so it cannot
/// overlap a copy of itself.
proof fn lemma_no_sync_before(garbage: Seq<u8>, rest: Seq<u8>, p: int)
    requires
        forall|q: int| !is_sync_at(garbage, q),
        is_sync_at(rest, 0),
        0 <= p < garbage.len(),
    ensures
        !is_sync_at(garbage + rest, p),
{
    lemma_sync_bytes();
    let s = garbage + rest;
    let at = garbage.len() as int;
    if is_sync_at(s, p) {
        if p + 8 <= at {
            assert forall|j: int| 0 <= j < 8 implies garbage[p + j]
                == #[trigger] sync_pattern()[j] by {
                assert(s[p + j] == garbage[p + j]);
            }
            assert(is_sync_at(garbage, p));
        } else {
            let d = at - p;
            assert(s[p + d] == sync_pattern()[d]);
            assert(s[at] == rest[0]);
            assert(rest[0int + 0] == sync_pattern()[0]);
        }
    }
}

/// Resynchronisation: whatever bytes precede a valid packet, the search finds
/// that packet, as long as those bytes hold no complete sync pattern of their
/// own. They may end in any part of one. What follows the packet plays no
/// role.
pub proof fn lemma_resync(garbage: Seq<u8>, packet: Seq<u8>, tail: Seq<u8>)
    requires
        forall|p: int| !is_sync_at(garbage, p),
        packet.len() >= 40,
        is_sync_at(packet, 0),
        header_of(packet).total_packet_len == packet.len(),
    ensures
        next_frame(garbage + packet + tail, 0) == (Framed {
            result: Ok((header_of(packet), packet.skip(40))),
            consumed: garbage.len() + packet.len(),
        }),
{
    let s = garbage + packet + tail;
    let rest = packet + tail;
    let at = garbage.len() as int;
    assert(s =~= garbage + rest);
    assert(is_sync_at(rest, 0)) by {
        assert forall|j: int| 0 <= j < 8 implies rest[0 + j] == #[trigger] sync_pattern()[j] by {
            assert(rest[0 + j] == packet[0 + j]);
        }
    }
    assert(is_sync_at(s, at)) by {
        assert forall|j: int| 0 <= j < 8 implies s[at + j] == #[trigger] sync_pattern()[j] by {
            assert(s[at + j] == rest[0 + j]);
        }
    }
    assert forall|p: int| 0 <= p < at implies !is_sync_at(s, p) by {
        lemma_no_sync_before(garbage, rest, p);
    }
    lemma_noise_skipped(s, 0, at);
    assert(header_of(s.skip(at)) == header_of(packet)) by {
        assert(s.skip(at).subrange(0, 40) =~= packet.subrange(0, 40));
        lemma_header_of_front(s.skip(at), packet);
    }
    assert(s.subrange(at + 40, at + packet.len()) =~= packet.skip(40));
}

} // verus!
