//! Reading NUT with no I/O under it: bytes go in as they arrive, events come
//! out as they complete.
//!
//! This is the whole demuxer. [`Demuxer`](crate::Demuxer), the reader of one
//! media stream, is a loop around it, so a stream reads the same whichever end
//! a consumer holds.
//!
//! Nothing here is allocated from a length the wire gave until that length
//! has been checked against [`Limits`], nothing that a wire value goes into
//! is allowed to wrap, and a packet this crate does not read is stepped over
//! by its own length rather than held.

use vstd::prelude::*;

use crate::clock::{decode_dts, landed, lemma_landed, ClockV};
use crate::error::{Error, ErrorV, Halt, Part, Problem};
use crate::event::{Event, EventV};
use crate::flags;
use crate::frame::{flagged, frame_head, lemma_frame_head, read_frame_head, FrameHead};
use crate::info::{tags_view, TagsV};
use crate::known::{lemma_after_packet, stream_view, streams_view, Known, KnownV};
use crate::packet::{lemma_packet_extends, packet_at, read_front, Front, FrontV};
use crate::stream::{Packet, Stream};
use crate::tables::STARTCODE_BYTE;
use crate::text::{copy_bytes, same_bytes};
use crate::FILE_ID;

verus! {

/// How long the identifier is that every NUT stream opens with.
pub const FILE_ID_LEN: usize = 25;

/// How much the demuxer will hold or hand over, for a stream whose lengths
/// something else chose. Every one of these is a ceiling on an allocation the
/// wire asks for, so a hostile length is refused by name instead of tried.
#[derive(Debug, Clone, Copy, PartialEq, Eq, Structural)]
pub struct Limits {
    /// The largest frame, in bytes. The default is what uncompressed 8K RGBA
    /// fits inside ten times over; a consumer that knows its geometry should
    /// say so, and [`PushDemuxer::set_stream_limit`] narrows it per stream.
    pub max_frame: u64,
    /// The largest packet body held whole to parse: the main header, a stream
    /// header, a syncpoint, an info packet. These are tens of bytes in
    /// practice. An info packet past this is stepped over rather than read,
    /// since an info packet is advisory; a header past it is refused.
    pub max_header: u64,
    /// The most unparsed bytes that may sit waiting for one packet to
    /// complete. A frame's payload does not count: it is written straight
    /// into the frame as it arrives.
    pub max_buffered: usize,
    /// The most streams a main header may declare.
    pub max_streams: usize,
}

impl Default for Limits {
    fn default() -> (limits: Limits)
        ensures
            limits == (Limits {
                max_frame: 2147483648,
                max_header: 1048576,
                max_buffered: 2097152,
                max_streams: 16,
            }),
    {
        Limits {
            max_frame: 2147483648,
            max_header: 1048576,
            max_buffered: 2097152,
            max_streams: 16,
        }
    }
}

/// What the parser is in the middle of.
#[derive(Debug, Clone, Copy, PartialEq, Eq, Structural)]
pub enum State {
    /// The 25 bytes every NUT stream opens with.
    Identifier,
    /// At a packet boundary.
    Unit,
    /// Stepping over a body this crate does not read.
    Skip { remaining: u64, what: Part },
    /// Filling a frame's payload.
    Payload {
        stream: usize,
        packet: Packet,
        /// How much of the frame is on the wire, past any elided prefix.
        want: usize,
        filled: usize,
    },
    /// The input ended at a packet boundary.
    Ended,
}

/// A demuxer as a value.
#[verifier::ext_equal]
pub struct DemuxV {
    pub limits: Limits,
    /// The bytes that wait to be parsed.
    pub buf: Seq<u8>,
    /// Where the first of them sits in the stream.
    pub pos: int,
    pub state: State,
    /// Whether there are no more bytes coming.
    pub eof: bool,
    pub known: KnownV,
    /// The frame ceilings a caller set.
    pub ceilings: Seq<Option<u64>>,
    /// The frame being filled, and the last frame handed over.
    pub payload: Seq<u8>,
}

/// What a call for the next event answers.
pub type Outcome = Result<Option<EventV>, ErrorV>;

/// What one step of the parser comes to.
#[verifier::ext_equal]
pub enum Step {
    /// It goes on.
    Go(DemuxV),
    /// It has an answer.
    Stop(DemuxV, Outcome),
}

impl DemuxV {
    /// A demuxer that has been handed nothing yet.
    pub open spec fn fresh(limits: Limits) -> DemuxV {
        DemuxV {
            limits,
            buf: Seq::empty(),
            pos: 0,
            state: State::Identifier,
            eof: false,
            known: KnownV::nothing(),
            ceilings: Seq::empty(),
            payload: Seq::empty(),
        }
    }

    /// Every place in the stream can be named, and a frame being filled has
    /// room for what is still to come.
    pub open spec fn wf(self) -> bool {
        &&& self.known.wf()
        &&& 0 <= self.pos
        &&& self.pos + self.buf.len() <= u64::MAX
        &&& self.state matches State::Payload { stream, want, filled, .. } ==> {
            &&& filled <= want <= self.payload.len() <= usize::MAX
            &&& stream < self.known.streams.len()
        }
    }

    /// With more bytes waiting.
    pub open spec fn fed(self, bytes: Seq<u8>) -> DemuxV {
        DemuxV { buf: self.buf + bytes, ..self }
    }

    /// With no more bytes coming.
    pub open spec fn finished(self) -> DemuxV {
        DemuxV { eof: true, ..self }
    }

    /// Past the first `count` of the bytes that wait.
    pub open spec fn advanced(self, count: int) -> DemuxV {
        DemuxV { buf: self.buf.skip(count), pos: self.pos + count, ..self }
    }

    /// More bytes are needed. Where none are coming, `ended` says what the
    /// stream stopped in the middle of.
    pub open spec fn more(self, ended: Problem) -> Outcome {
        if self.eof {
            Err(ErrorV::of(ended))
        } else if self.buf.len() > self.limits.max_buffered {
            Err(
                ErrorV::of(
                    Problem::Buffered {
                        held: self.buf.len() as u64,
                        max: self.limits.max_buffered as u64,
                    },
                ),
            )
        } else {
            Ok(None)
        }
    }

    /// Where in the frame being filled the next byte goes.
    pub open spec fn fill_from(self) -> int {
        match self.state {
            State::Payload { want, filled, .. } => self.payload.len() - want + filled,
            _ => 0,
        }
    }

    /// The frame being filled, with some more of it in place.
    pub open spec fn filled_with(self, bytes: Seq<u8>) -> Seq<u8> {
        overlaid(self.payload, self.fill_from(), bytes)
    }
}

/// Some bytes with others written over them.
pub open spec fn overlaid(under: Seq<u8>, from: int, over: Seq<u8>) -> Seq<u8> {
    under.take(from) + over + under.skip(from + over.len())
}

/// The smaller of two numbers.
pub open spec fn smaller(a: int, b: int) -> int {
    if a < b {
        a
    } else {
        b
    }
}

/// A run of zeros.
pub open spec fn zeros(count: nat) -> Seq<u8> {
    Seq::new(count, |i: int| 0u8)
}

/// Stepping over a body.
pub open spec fn skip_step(d: DemuxV, remaining: u64, what: Part) -> Step {
    let took = smaller(remaining as int, d.buf.len() as int);
    let after = d.advanced(took);
    if took < remaining {
        let short = (remaining - took) as u64;
        let waiting = DemuxV { state: State::Skip { remaining: short, what }, ..after };
        Step::Stop(waiting, waiting.more(Problem::SkipEnds { what, short }))
    } else {
        Step::Go(DemuxV { state: State::Unit, ..after })
    }
}

/// Filling a frame's payload.
pub open spec fn payload_step(
    d: DemuxV,
    stream: usize,
    packet: Packet,
    want: usize,
    filled: usize,
) -> Step {
    let room = if filled < want {
        want - filled
    } else {
        0
    };
    let take = smaller(room, d.buf.len() as int);
    let after = DemuxV { payload: d.filled_with(d.buf.take(take)), ..d.advanced(take) };
    let got = (filled + take) as usize;
    if got < want {
        let waiting = DemuxV {
            state: State::Payload { stream, packet, want, filled: got },
            ..after
        };
        Step::Stop(waiting, waiting.more(Problem::FrameEnds { got: got as u64, want: want as u64 }))
    } else {
        Step::Stop(
            DemuxV { state: State::Unit, ..after },
            Ok(Some(EventV::Frame { stream, packet })),
        )
    }
}

/// The identifier every NUT stream opens with.
pub open spec fn identifier_step(d: DemuxV) -> Step {
    if d.buf.len() < FILE_ID_LEN {
        Step::Stop(d, d.more(Problem::IdentifierEnds { got: d.buf.len() as u64 }))
    } else if d.buf.take(FILE_ID_LEN as int) != FILE_ID@ {
        Step::Stop(d, Err(ErrorV::of(Problem::NotNut)))
    } else {
        Step::Go(DemuxV { state: State::Unit, ..d.advanced(FILE_ID_LEN as int) })
    }
}

/// One packet, introduced by a startcode.
pub open spec fn packet_step(d: DemuxV) -> Step {
    match packet_at(d.buf, d.pos, d.limits.max_header) {
        Err(Halt::Bad(problem)) => Step::Stop(d, Err(ErrorV::of(problem))),
        Err(Halt::Need(need)) => Step::Stop(d, d.more(need.spec_ended())),
        Ok((FrontV::Passed { what, len }, at)) => Step::Go(
            DemuxV { state: State::Skip { remaining: len, what }, ..d.advanced(at) },
        ),
        Ok((FrontV::Body { startcode, body }, at)) => match d.known.after_packet(
            startcode,
            body,
            d.limits.max_streams,
        ) {
            Err(error) => Step::Stop(d, Err(error)),
            Ok((known, None)) => Step::Go(DemuxV { known, ..d.advanced(at) }),
            Ok((known, Some(event))) => Step::Stop(
                DemuxV { known, ..d.advanced(at) },
                Ok(Some(event)),
            ),
        },
    }
}

/// What is known once a frame's header has been read: the clock of its stream
/// has moved, and the reorder buffer with it where the frame is one to show.
pub open spec fn known_after_frame(known: KnownV, head: FrameHead) -> KnownV {
    let clock = known.clocks[head.stream as int];
    let buffer = if flagged(head.flags, flags::EOR) {
        clock.pts_buffer
    } else {
        landed(clock.pts_buffer, head.pts)
    };
    KnownV {
        clocks: known.clocks.update(
            head.stream as int,
            ClockV { last_pts: head.pts, pts_buffer: buffer },
        ),
        ..known
    }
}

/// A frame whose header has been read, its payload still to come.
pub open spec fn after_head(d: DemuxV, head: FrameHead, len: int) -> DemuxV {
    let prefix = d.known.main->Some_0.elision[head.header_idx as int];
    let on_wire = head.size - prefix.len();
    let known = known_after_frame(d.known, head);
    if flagged(head.flags, flags::EOR) {
        DemuxV {
            known,
            state: State::Skip { remaining: on_wire as u64, what: Part::EndOfRelevance },
            ..d.advanced(len)
        }
    } else {
        DemuxV {
            known,
            state: State::Payload {
                stream: head.stream,
                packet: Packet {
                    pts: head.pts,
                    dts: known.clocks[head.stream as int].pts_buffer[0],
                    keyframe: flagged(head.flags, flags::KEY),
                },
                want: on_wire as usize,
                filled: 0,
            },
            payload: prefix + zeros(on_wire as nat),
            ..d.advanced(len)
        }
    }
}

/// One frame: its header here, its payload as it arrives.
pub open spec fn frame_step(d: DemuxV) -> Step {
    if !d.known.complete() {
        Step::Stop(d, Err(ErrorV::of(Problem::FrameBeforeHeaders)))
    } else {
        match frame_head(d.buf, d.pos, d.known, d.ceilings, d.limits.max_frame) {
            Err(Halt::Bad(problem)) => Step::Stop(d, Err(ErrorV::of(problem))),
            Err(Halt::Need(need)) => Step::Stop(d, d.more(need.spec_ended())),
            Ok((head, len)) => Step::Go(after_head(d, head, len)),
        }
    }
}

/// At a packet boundary. The header section ends where the frames start,
/// which is the first byte that opens no packet.
#[verifier::opaque]
pub open spec fn unit_step(d: DemuxV) -> Step {
    if d.buf.len() == 0 {
        if !d.eof {
            Step::Stop(d, Ok(None))
        } else if d.known.ends() {
            Step::Stop(
                DemuxV { state: State::Ended, known: d.known.ended(), ..d },
                Ok(Some(EventV::EndOfHeaders)),
            )
        } else {
            Step::Stop(DemuxV { state: State::Ended, ..d }, Ok(Some(EventV::EndOfInput)))
        }
    } else if d.buf[0] == STARTCODE_BYTE {
        packet_step(d)
    } else if d.known.ends() {
        Step::Stop(DemuxV { known: d.known.ended(), ..d }, Ok(Some(EventV::EndOfHeaders)))
    } else {
        frame_step(d)
    }
}

/// One step of the parser.
pub open spec fn step(d: DemuxV) -> Step {
    match d.state {
        State::Ended => Step::Stop(d, Ok(Some(EventV::EndOfInput))),
        State::Skip { remaining, what } => skip_step(d, remaining, what),
        State::Payload { stream, packet, want, filled } => payload_step(
            d,
            stream,
            packet,
            want,
            filled,
        ),
        State::Identifier => identifier_step(d),
        State::Unit => unit_step(d),
    }
}

/// How many states a parser may still go through without taking a byte.
pub open spec fn rank(state: State) -> nat {
    if state is Skip {
        1
    } else {
        0
    }
}

/// A parser that goes on has taken a byte, or has finished stepping over a
/// body.
pub proof fn lemma_step_goes_down(d: DemuxV)
    ensures
        step(d) matches Step::Go(after) ==> after.buf.len() < d.buf.len() || (after.buf.len()
            == d.buf.len() && rank(after.state) < rank(d.state)),
{
    reveal(unit_step);
    if d.state is Unit && d.buf.len() > 0 {
        lemma_packet_extends(d.buf, Seq::empty(), d.pos, d.limits.max_header);
        lemma_frame_head(d.buf, d.pos, d.known, d.ceilings, d.limits.max_frame);
    }
}

/// The next event, or none where what has arrived does not make one yet, and
/// the demuxer after it: the parser run until it has an answer.
pub open spec fn next(d: DemuxV) -> (DemuxV, Outcome)
    decreases d.buf.len(), rank(d.state),
{
    proof {
        lemma_step_goes_down(d);
    }
    match step(d) {
        Step::Go(after) => next(after),
        Step::Stop(after, outcome) => (after, outcome),
    }
}

/// One step keeps a demuxer well formed.
pub proof fn lemma_step_wf(d: DemuxV)
    requires
        d.wf(),
    ensures
        match step(d) {
            Step::Go(after) => after.wf(),
            Step::Stop(after, _) => after.wf(),
        },
        ({
            let after = match step(d) {
                Step::Go(after) => after,
                Step::Stop(after, _) => after,
            };
            &&& after.limits == d.limits
            &&& after.ceilings == d.ceilings
            &&& after.eof == d.eof
            &&& after.pos + after.buf.len() == d.pos + d.buf.len()
            &&& after.buf.len() <= d.buf.len()
        }),
{
    reveal(unit_step);
    if d.state is Unit && d.buf.len() > 0 {
        lemma_packet_extends(d.buf, Seq::empty(), d.pos, d.limits.max_header);
        if d.buf[0] == STARTCODE_BYTE {
            if let Ok((FrontV::Body { startcode, body }, at)) = packet_at(
                d.buf,
                d.pos,
                d.limits.max_header,
            ) {
                lemma_after_packet(d.known, startcode, body, d.limits.max_streams);
            }
        } else if !d.known.ends() && d.known.complete() {
            lemma_frame_head(d.buf, d.pos, d.known, d.ceilings, d.limits.max_frame);
            if let Ok((head, len)) = frame_head(
                d.buf,
                d.pos,
                d.known,
                d.ceilings,
                d.limits.max_frame,
            ) {
                lemma_known_after_frame(d.known, head);
            }
        }
    }
}

/// A frame keeps what is known well formed.
pub proof fn lemma_known_after_frame(known: KnownV, head: FrameHead)
    requires
        known.wf(),
        head.stream < known.streams.len(),
    ensures
        known_after_frame(known, head).wf(),
{
    let index = head.stream as int;
    assert(known.clocks[index].wf());
    lemma_landed(known.clocks[index].pts_buffer, head.pts);
    let after = known_after_frame(known, head);
    assert forall|i: int| 0 <= i < after.clocks.len() implies (#[trigger] after.clocks[i]).wf() by {
        assert(known.clocks[i].wf());
    }
    assert forall|i: int| 0 <= i < after.streams.len() implies (
    #[trigger] after.streams[i] matches Some(s) ==> s.wf() && after.clocks[i].pts_buffer.len()
        == s.decode_delay + 1) by {
        assert(known.streams[i] matches Some(s) ==> s.wf());
    }
}

/// Taking an event keeps a demuxer well formed, and leaves the bytes it has
/// not read where they are.
pub proof fn lemma_next_wf(d: DemuxV)
    requires
        d.wf(),
    ensures
        next(d).0.wf(),
        next(d).0.limits == d.limits,
        next(d).0.ceilings == d.ceilings,
        next(d).0.eof == d.eof,
        next(d).0.pos + next(d).0.buf.len() == d.pos + d.buf.len(),
        next(d).0.buf.len() <= d.buf.len(),
    decreases d.buf.len(), rank(d.state),
{
    lemma_step_wf(d);
    lemma_step_goes_down(d);
    if let Step::Go(after) = step(d) {
        lemma_next_wf(after);
    }
}

/// A NUT demuxer that is handed bytes rather than reading them.
///
/// Feed it whatever arrives, in pieces of any size, and take events until it
/// asks for more. It never blocks, never reads, never seeks and never panics
/// on any input.
pub struct PushDemuxer {
    limits: Limits,
    /// Unparsed bytes, `at` of which are behind the parser.
    buf: Vec<u8>,
    at: usize,
    /// Where `buf[at]` sits in the stream, for a message that names a place.
    pos: u64,
    state: State,
    eof: bool,
    known: Known,
    /// The per-stream frame ceilings a caller set, which may arrive before
    /// the streams do.
    ceilings: Vec<Option<u64>>,
    /// The frame being filled, and the last frame handed over.
    payload: Vec<u8>,
}

impl View for PushDemuxer {
    type V = DemuxV;

    closed spec fn view(&self) -> DemuxV {
        DemuxV {
            limits: self.limits,
            buf: self.buf@.skip(self.at as int),
            pos: self.pos as int,
            state: self.state,
            eof: self.eof,
            known: self.known@,
            ceilings: self.ceilings@,
            payload: self.payload@,
        }
    }
}

/// What one step of the parser comes to.
enum Stepped {
    Go,
    Stop(Result<Option<Event>, Error>),
}

/// What an answer of the parser says.
pub open spec fn outcome_view(outcome: Result<Option<Event>, Error>) -> Outcome {
    match outcome {
        Ok(Some(event)) => Ok(Some(event@)),
        Ok(None) => Ok(None),
        Err(error) => Err(error@),
    }
}

impl PushDemuxer {
    /// The parser is on its bytes, and what it holds is well formed.
    pub closed spec fn wf(self) -> bool {
        self.at <= self.buf@.len() && self@.wf()
    }

    /// Whether enough of what is held has been read to be worth moving the
    /// rest: all of it, half of it, or 64 KiB.
    spec fn worth_dropping(self) -> bool {
        self.at > 0 && (self.at >= 65536 || 2 * self.at >= self.buf@.len())
    }

    /// A demuxer that has been handed nothing yet.
    pub fn new(limits: Limits) -> (demuxer: PushDemuxer)
        ensures
            demuxer.wf(),
            demuxer@ == DemuxV::fresh(limits),
    {
        let demuxer = PushDemuxer {
            limits,
            buf: Vec::new(),
            at: 0,
            pos: 0,
            state: State::Identifier,
            eof: false,
            known: Known::nothing(),
            ceilings: Vec::new(),
            payload: Vec::new(),
        };
        assert(demuxer@ =~= DemuxV::fresh(limits));
        demuxer
    }

    /// The limits this was built with.
    pub fn limits(&self) -> (limits: &Limits)
        ensures
            *limits == self@.limits,
    {
        &self.limits
    }

    /// Narrows [`Limits::max_frame`] for one stream, for a consumer that
    /// knows what that stream carries: a frame past the ceiling is refused
    /// before anything is allocated for it. It may be set before the stream's
    /// header arrives.
    pub fn set_stream_limit(&mut self, stream: usize, max_frame: u64)
        requires
            old(self).wf(),
            stream < usize::MAX,
        ensures
            final(self).wf(),
            final(self)@ == (DemuxV {
                ceilings: with_ceiling(old(self)@.ceilings, stream as int, max_frame),
                ..old(self)@
            }),
    {
        let ghost before = self.ceilings@;
        while self.ceilings.len() <= stream
            invariant
                stream < usize::MAX,
                self.at <= self.buf@.len(),
                self@ == (DemuxV { ceilings: self.ceilings@, ..old(self)@ }),
                self.ceilings@.len() >= before.len(),
                self.ceilings@.len() <= stream + 1 || self.ceilings@ == before,
                forall|i: int|
                    0 <= i < self.ceilings@.len() ==> #[trigger] self.ceilings@[i] == if i
                        < before.len() {
                        before[i]
                    } else {
                        None
                    },
            decreases stream + 1 - self.ceilings@.len(),
        {
            self.ceilings.push(None);
        }
        self.ceilings.set(stream, Some(max_frame));
        assert(self.ceilings@ =~= with_ceiling(before, stream as int, max_frame));
    }

    /// Bytes off the wire, in pieces of any size. They are parsed by
    /// [`PushDemuxer::next_event`], not here.
    pub fn feed(&mut self, bytes: &[u8])
        requires
            old(self).wf(),
            old(self)@.pos + old(self)@.buf.len() + bytes@.len() <= u64::MAX,
        ensures
            final(self).wf(),
            final(self)@ == old(self)@.fed(bytes@),
    {
        if bytes.len() == 0 {
            assert(self@.buf =~= self@.buf + bytes@);
            return;
        }
        self.compact();
        let ghost held = self.buf@;
        self.buf.extend_from_slice(bytes);
        assert(self.buf@ =~= held + bytes@);
        assert(self@.buf =~= old(self)@.buf + bytes@);
    }

    /// There are no more bytes coming. After this, the parser either ends
    /// cleanly with [`Event::EndOfInput`] or says what it was in the middle
    /// of.
    pub fn finish(&mut self)
        requires
            old(self).wf(),
        ensures
            final(self).wf(),
            final(self)@ == old(self)@.finished(),
    {
        self.eof = true;
    }

    /// How many bytes are waiting to be parsed. A frame's payload is not
    /// among them: it is written into the frame as it arrives.
    pub fn buffered(&self) -> (count: usize)
        requires
            self.wf(),
        ensures
            count == self@.buf.len(),
    {
        self.buf.len() - self.at
    }

    /// How far into the stream the parser has read.
    pub fn position(&self) -> (pos: u64)
        ensures
            pos == self@.pos,
    {
        self.pos
    }

    /// The streams whose headers have arrived, in their own order. An entry
    /// is None until that stream's header does.
    pub fn streams(&self) -> (streams: &[Option<Stream>])
        ensures
            streams_view(streams@) == self@.known.streams,
    {
        self.known.streams.as_slice()
    }

    /// One stream's header, once it has arrived.
    pub fn stream(&self, index: usize) -> (stream: Option<&Stream>)
        ensures
            match stream {
                Some(stream) => index < self@.known.streams.len()
                    && self@.known.streams[index as int] == Some(stream@),
                None => index >= self@.known.streams.len()
                    || self@.known.streams[index as int] is None,
            },
    {
        if index < self.known.streams.len() {
            assert(self@.known.streams[index as int] == stream_view(
                self.known.streams@[index as int],
            ));
            self.known.streams[index].as_ref()
        } else {
            None
        }
    }

    /// The metadata info packets stated, of one stream or of the whole file:
    /// names and their values, in the order the names first arrived. All of it
    /// is there by [`Event::EndOfHeaders`]. Empty for a stream the main header
    /// does not declare.
    pub fn tags(&self, stream: Option<usize>) -> (tags: &[(String, String)])
        requires
            self.wf(),
        ensures
            tags_view(tags@) == self@.tags(stream),
    {
        match stream {
            Some(index) => if index < self.known.stream_tags.len() {
                assert(self@.known.stream_tags[index as int] == tags_view(
                    self.known.stream_tags@[index as int]@,
                ));
                self.known.stream_tags[index].as_slice()
            } else {
                let none: &[(String, String)] = &[];
                assert(tags_view(none@) =~= Seq::empty());
                none
            },
            None => self.known.file_tags.as_slice(),
        }
    }

    /// The payload of the frame [`Event::Frame`] just announced. It stands
    /// until the next call to [`PushDemuxer::next_event`].
    pub fn payload(&self) -> (payload: &[u8])
        ensures
            payload@ == self@.payload,
    {
        self.payload.as_slice()
    }

    /// The same payload, swapped out into `into` rather than copied. What was
    /// in `into` becomes the buffer the next frame is read into, so a
    /// consumer that hands the same vector back pays for one allocation
    /// rather than one a frame.
    pub fn take_payload(&mut self, into: &mut Vec<u8>)
        requires
            old(self).wf(),
            !(old(self)@.state is Payload),
        ensures
            final(self).wf(),
            final(into)@ == old(self)@.payload,
            final(self)@ == (DemuxV { payload: Seq::empty(), ..old(self)@ }),
    {
        std::mem::swap(&mut self.payload, into);
        self.payload.clear();
    }

    /// Where the frame being read still has room, for a reader that fills it
    /// directly instead of copying through [`PushDemuxer::feed`]. None unless
    /// the parser is waiting on a frame's payload with nothing else buffered.
    /// Whatever is written there is announced with
    /// [`PushDemuxer::payload_filled`]. The room is given back as long as it
    /// was lent, which is what keeps the frame's other bytes in their places.
    pub fn payload_space(&mut self) -> (space: Option<&mut [u8]>)
        requires
            old(self).wf(),
        ensures
            match space {
                Some(space) => {
                    let from = old(self)@.fill_from();
                    &&& old(self)@.state is Payload
                    &&& old(self)@.buf.len() == 0
                    &&& space@ == old(self)@.payload.skip(from)
                    &&& final(self)@ == (DemuxV {
                        payload: old(self)@.payload.take(from) + final(space)@,
                        ..old(self)@
                    })
                    &&& final(space)@.len() == space@.len() ==> final(self).wf()
                },
                None => {
                    &&& !(old(self)@.state is Payload) || old(self)@.buf.len() > 0
                    &&& final(self)@ == old(self)@
                    &&& final(self).wf()
                },
            },
    {
        match self.state {
            State::Payload { want, filled, .. } => {
                if self.at != self.buf.len() {
                    return None;
                }
                let from = self.payload.len() - want + filled;
                Some(self.payload.as_mut_slice().split_at_mut(from).1)
            },
            _ => None,
        }
    }

    /// How much of [`PushDemuxer::payload_space`] was filled.
    pub fn payload_filled(&mut self, count: usize)
        requires
            old(self).wf(),
            old(self)@.state matches State::Payload { want, filled, .. } ==> old(self)@.pos
                + old(self)@.buf.len() + smaller(count as int, want - filled) <= u64::MAX,
        ensures
            final(self).wf(),
            final(self)@ == match old(self)@.state {
                State::Payload { stream, packet, want, filled } => {
                    let more = smaller(count as int, want - filled);
                    DemuxV {
                        pos: old(self)@.pos + more,
                        state: State::Payload {
                            stream,
                            packet,
                            want,
                            filled: (filled + more) as usize,
                        },
                        ..old(self)@
                    }
                },
                _ => old(self)@,
            },
    {
        if let State::Payload { stream, packet, want, filled } = self.state {
            let room = want - filled;
            let more = if count < room {
                count
            } else {
                room
            };
            self.state = State::Payload { stream, packet, want, filled: filled + more };
            self.pos = self.pos + more as u64;
        }
    }

    /// The next event, or None where what has arrived does not make one yet.
    ///
    /// An error means the stream is not what it claims to be. There is no
    /// resynchronizing: a caller closes the connection or drops the file.
    pub fn next_event(&mut self) -> (outcome: Result<Option<Event>, Error>)
        requires
            old(self).wf(),
        ensures
            final(self).wf(),
            final(self)@ == next(old(self)@).0,
            outcome_view(outcome) == next(old(self)@).1,
    {
        loop
            invariant
                self.wf(),
                next(self@) == next(old(self)@),
            decreases self@.buf.len(), rank(self@.state),
        {
            let ghost before = self@;
            proof {
                lemma_step_goes_down(before);
                lemma_step_wf(before);
            }
            match self.step() {
                Stepped::Go => {},
                Stepped::Stop(outcome) => {
                    return outcome;
                },
            }
        }
    }

    /// One step of the parser.
    fn step(&mut self) -> (stepped: Stepped)
        requires
            old(self).wf(),
        ensures
            final(self).wf(),
            match step(old(self)@) {
                Step::Go(after) => stepped is Go && final(self)@ == after,
                Step::Stop(after, outcome) => {
                    &&& stepped matches Stepped::Stop(got)
                    &&& outcome_view(got) == outcome
                    &&& final(self)@ == after
                },
            },
    {
        match self.state {
            State::Ended => Stepped::Stop(Ok(Some(Event::EndOfInput))),
            State::Skip { remaining, what } => self.step_over(remaining, what),
            State::Payload { stream, packet, want, filled } => self.fill(
                stream,
                packet,
                want,
                filled,
            ),
            State::Identifier => self.identify(),
            State::Unit => self.unit(),
        }
    }

    /// Steps over a body.
    fn step_over(&mut self, remaining: u64, what: Part) -> (stepped: Stepped)
        requires
            old(self).wf(),
            old(self)@.state == (State::Skip { remaining, what }),
        ensures
            final(self).wf(),
            match skip_step(old(self)@, remaining, what) {
                Step::Go(after) => stepped is Go && final(self)@ == after,
                Step::Stop(after, outcome) => {
                    &&& stepped matches Stepped::Stop(got)
                    &&& outcome_view(got) == outcome
                    &&& final(self)@ == after
                },
            },
    {
        let waiting = self.buffered();
        if remaining > waiting as u64 {
            self.advance(waiting);
            let short = remaining - waiting as u64;
            self.state = State::Skip { remaining: short, what };
            Stepped::Stop(self.more(Problem::SkipEnds { what, short }))
        } else {
            self.advance(remaining as usize);
            self.state = State::Unit;
            Stepped::Go
        }
    }

    /// Fills a frame's payload.
    fn fill(&mut self, stream: usize, packet: Packet, want: usize, filled: usize) -> (stepped: Stepped)
        requires
            old(self).wf(),
            old(self)@.state == (State::Payload { stream, packet, want, filled }),
        ensures
            final(self).wf(),
            match payload_step(old(self)@, stream, packet, want, filled) {
                Step::Go(after) => stepped is Go && final(self)@ == after,
                Step::Stop(after, outcome) => {
                    &&& stepped matches Stepped::Stop(got)
                    &&& outcome_view(got) == outcome
                    &&& final(self)@ == after
                },
            },
    {
        let ghost before = self@;
        let from = self.payload.len() - want + filled;
        let waiting = self.buffered();
        let take = if want - filled < waiting {
            want - filled
        } else {
            waiting
        };
        let ghost whole = self.payload@;
        assert(self.buf.len() == self.buf@.len());
        let mut i: usize = 0;
        while i < take
            invariant
                i <= take,
                from + take <= whole.len() <= usize::MAX,
                self.payload@.len() == whole.len(),
                self.at + take <= self.buf@.len() <= usize::MAX,
                self@ == (DemuxV { payload: self.payload@, ..before }),
                before.buf == self.buf@.skip(self.at as int),
                forall|j: int|
                    0 <= j < whole.len() ==> #[trigger] self.payload@[j] == if from <= j < from + i {
                        before.buf[j - from]
                    } else {
                        whole[j]
                    },
            decreases take - i,
        {
            let byte = self.buf[self.at + i];
            self.payload.set(from + i, byte);
            i += 1;
        }
        assert(self.payload@ =~= before.filled_with(before.buf.take(take as int)));
        self.advance(take);
        let filled = filled + take;
        if filled < want {
            self.state = State::Payload { stream, packet, want, filled };
            return Stepped::Stop(
                self.more(Problem::FrameEnds { got: filled as u64, want: want as u64 }),
            );
        }
        self.state = State::Unit;
        Stepped::Stop(Ok(Some(Event::Frame { stream, packet })))
    }

    /// The identifier every NUT stream opens with.
    fn identify(&mut self) -> (stepped: Stepped)
        requires
            old(self).wf(),
            old(self)@.state is Identifier,
        ensures
            final(self).wf(),
            match identifier_step(old(self)@) {
                Step::Go(after) => stepped is Go && final(self)@ == after,
                Step::Stop(after, outcome) => {
                    &&& stepped matches Stepped::Stop(got)
                    &&& outcome_view(got) == outcome
                    &&& final(self)@ == after
                },
            },
    {
        let waiting = self.buffered();
        if waiting < FILE_ID_LEN {
            return Stepped::Stop(self.more(Problem::IdentifierEnds { got: waiting as u64 }));
        }
        let bytes = self.buf.as_slice();
        assert(bytes@.len() == bytes.len());
        let opening = &bytes[self.at..self.at + FILE_ID_LEN];
        assert(opening@ =~= self@.buf.take(FILE_ID_LEN as int));
        if !same_bytes(opening, FILE_ID.as_slice()) {
            return Stepped::Stop(Err(Error::of(Problem::NotNut)));
        }
        self.advance(FILE_ID_LEN);
        self.state = State::Unit;
        Stepped::Go
    }

    /// At a packet boundary.
    fn unit(&mut self) -> (stepped: Stepped)
        requires
            old(self).wf(),
            old(self)@.state is Unit,
        ensures
            final(self).wf(),
            match unit_step(old(self)@) {
                Step::Go(after) => stepped is Go && final(self)@ == after,
                Step::Stop(after, outcome) => {
                    &&& stepped matches Stepped::Stop(got)
                    &&& outcome_view(got) == outcome
                    &&& final(self)@ == after
                },
            },
    {
        proof {
            reveal(unit_step);
        }
        if self.buffered() == 0 {
            if self.eof {
                self.state = State::Ended;
                if self.known.end_of_headers() {
                    return Stepped::Stop(Ok(Some(Event::EndOfHeaders)));
                }
                return Stepped::Stop(Ok(Some(Event::EndOfInput)));
            }
            return Stepped::Stop(Ok(None));
        }
        assert(self@.buf[0] == self.buf@[self.at as int]);
        if self.buf[self.at] == STARTCODE_BYTE {
            return self.packet();
        }
        // The header section ends where the frames start, which is the first
        // byte that opens no packet.
        if self.known.end_of_headers() {
            return Stepped::Stop(Ok(Some(Event::EndOfHeaders)));
        }
        self.frame()
    }

    /// One packet, introduced by a startcode.
    fn packet(&mut self) -> (stepped: Stepped)
        requires
            old(self).wf(),
            old(self)@.state is Unit,
            old(self)@.buf.len() > 0,
        ensures
            final(self).wf(),
            match packet_step(old(self)@) {
                Step::Go(after) => stepped is Go && final(self)@ == after,
                Step::Stop(after, outcome) => {
                    &&& stepped matches Stepped::Stop(got)
                    &&& outcome_view(got) == outcome
                    &&& final(self)@ == after
                },
            },
    {
        let ghost before = self@;
        proof {
            lemma_packet_extends(before.buf, Seq::empty(), before.pos, before.limits.max_header);
        }
        let bytes = self.buf.as_slice();
        let waiting = &bytes[self.at..self.buf.len()];
        assert(waiting@ =~= before.buf);
        let (front, at) = match read_front(waiting, self.pos, self.limits.max_header) {
            Ok(read) => read,
            Err(Halt::Bad(problem)) => {
                return Stepped::Stop(Err(Error::of(problem)));
            },
            Err(Halt::Need(need)) => {
                return Stepped::Stop(self.more(need.ended()));
            },
        };
        let (startcode, body) = match front {
            Front::Passed { what, len } => {
                self.advance(at);
                self.state = State::Skip { remaining: len, what };
                return Stepped::Go;
            },
            Front::Body { startcode, body } => (startcode, body),
        };
        let event = match self.known.read_packet(
            startcode,
            body.as_slice(),
            self.limits.max_streams,
        ) {
            Ok(event) => event,
            Err(error) => {
                return Stepped::Stop(Err(error));
            },
        };
        self.advance(at);
        match event {
            Some(event) => Stepped::Stop(Ok(Some(event))),
            None => Stepped::Go,
        }
    }

    /// One frame: its header here, its payload as it arrives.
    fn frame(&mut self) -> (stepped: Stepped)
        requires
            old(self).wf(),
            old(self)@.state is Unit,
            old(self)@.buf.len() > 0,
        ensures
            final(self).wf(),
            match frame_step(old(self)@) {
                Step::Go(after) => stepped is Go && final(self)@ == after,
                Step::Stop(after, outcome) => {
                    &&& stepped matches Stepped::Stop(got)
                    &&& outcome_view(got) == outcome
                    &&& final(self)@ == after
                },
            },
    {
        let ghost before = self@;
        if !self.known.headers_complete() {
            return Stepped::Stop(Err(Error::of(Problem::FrameBeforeHeaders)));
        }
        let bytes = self.buf.as_slice();
        let waiting = &bytes[self.at..self.buf.len()];
        assert(waiting@ =~= before.buf);
        let (head, len) = match read_frame_head(
            waiting,
            self.pos,
            &self.known,
            &self.ceilings,
            self.limits.max_frame,
        ) {
            Ok(read) => read,
            Err(Halt::Bad(problem)) => {
                return Stepped::Stop(Err(Error::of(problem)));
            },
            Err(Halt::Need(need)) => {
                return Stepped::Stop(self.more(need.ended()));
            },
        };
        proof {
            lemma_frame_head(
                before.buf,
                before.pos,
                before.known,
                before.ceilings,
                before.limits.max_frame,
            );
            lemma_known_after_frame(before.known, head);
        }
        // Past here the frame is read, so the clock moves with the cursor.
        self.begin(head, len);
        Stepped::Go
    }

    /// Moves past a frame's header, and gets ready for its payload.
    fn begin(&mut self, head: FrameHead, len: usize)
        requires
            old(self).wf(),
            old(self)@.known.main is Some,
            old(self)@.state is Unit,
            len <= old(self)@.buf.len(),
            head.stream < old(self)@.known.streams.len(),
            head.header_idx < old(self)@.known.main->Some_0.elision.len(),
            old(self)@.known.main->Some_0.elision[head.header_idx as int].len() <= head.size,
            head.size <= usize::MAX,
            known_after_frame(old(self)@.known, head).wf(),
        ensures
            final(self).wf(),
            final(self)@ == after_head(old(self)@, head, len as int),
    {
        let ghost before = self@;
        let ghost known = known_after_frame(before.known, head);
        let prefix = match &self.known.main {
            Some(tables) => copy_bytes(tables.elision[head.header_idx as usize].as_slice()),
            None => Vec::new(),
        };
        assert(prefix@ == before.known.main->Some_0.elision[head.header_idx as int]);
        let on_wire = head.size - prefix.len() as u64;
        self.advance(len);
        let stream = head.stream;
        let ghost clocks = self.known.clocks@;
        assert(before.known.clocks[stream as int].wf());
        self.known.clocks[stream].last_pts = head.pts;
        if head.flags & flags::EOR != 0 {
            assert(self.known@.clocks =~= known.clocks);
            assert(self.known@ =~= known);
            self.state = State::Skip { remaining: on_wire, what: Part::EndOfRelevance };
            assert(self@ =~= after_head(before, head, len as int));
            return;
        }
        let dts = decode_dts(&mut self.known.clocks[stream].pts_buffer, head.pts);
        assert(self.known@.clocks =~= known.clocks);
        assert(self.known@ =~= known);
        let packet = Packet { pts: head.pts, dts, keyframe: head.flags & flags::KEY != 0 };
        self.payload.clear();
        self.payload.extend_from_slice(prefix.as_slice());
        assert(self.payload@ =~= prefix@);
        self.payload.resize(head.size as usize, 0);
        assert(self.payload@ =~= before.known.main->Some_0.elision[head.header_idx as int] + zeros(
            on_wire as nat,
        ));
        self.state = State::Payload { stream, packet, want: on_wire as usize, filled: 0 };
        assert(self@ =~= after_head(before, head, len as int));
    }

    /// Moves past bytes that have been read.
    fn advance(&mut self, count: usize)
        requires
            old(self).at <= old(self).buf@.len(),
            count <= old(self)@.buf.len(),
            old(self)@.pos + old(self)@.buf.len() <= u64::MAX,
        ensures
            final(self).at <= final(self).buf@.len(),
            final(self)@ == old(self)@.advanced(count as int),
            final(self).state == old(self).state,
            final(self).known == old(self).known,
            final(self).payload == old(self).payload,
            final(self).limits == old(self).limits,
            final(self).ceilings == old(self).ceilings,
            final(self).eof == old(self).eof,
    {
        assert(self.buf.len() == self.buf@.len());
        self.at = self.at + count;
        self.pos = self.pos + count as u64;
        assert(self@.buf =~= old(self)@.buf.skip(count as int));
    }

    /// Drops what has been read, when there is enough of it to be worth
    /// moving the rest.
    fn compact(&mut self)
        requires
            old(self).wf(),
        ensures
            final(self).wf(),
            final(self)@ == old(self)@,
            old(self).worth_dropping() ==> final(self).at == 0 && final(self).buf@
                == old(self).buf@.skip(old(self).at as int),
            !old(self).worth_dropping() ==> *final(self) == *old(self),
    {
        if self.at == 0 {
            return;
        }
        if self.at == self.buf.len() {
            self.buf.clear();
            self.at = 0;
            assert(self@.buf =~= old(self)@.buf);
            return;
        }
        if self.at >= 65536 || self.at >= self.buf.len() - self.at {
            let rest = self.buf.split_off(self.at);
            self.buf = rest;
            self.at = 0;
            assert(self@.buf =~= old(self)@.buf);
        }
    }

    /// More bytes are needed. Where none are coming, `ended` says what the
    /// stream stopped in the middle of.
    fn more(&self, ended: Problem) -> (outcome: Result<Option<Event>, Error>)
        requires
            self.at <= self.buf@.len(),
        ensures
            outcome_view(outcome) == self@.more(ended),
    {
        if self.eof {
            return Err(Error::of(ended));
        }
        let held = self.buf.len() - self.at;
        if held > self.limits.max_buffered {
            return Err(
                Error::of(
                    Problem::Buffered { held: held as u64, max: self.limits.max_buffered as u64 },
                ),
            );
        }
        Ok(None)
    }
}

/// A demuxer that is well formed is so as a value, which is what its laws are
/// stated over.
pub proof fn lemma_demuxer_wf(demuxer: PushDemuxer)
    requires
        demuxer.wf(),
    ensures
        demuxer@.wf(),
{
}

/// The frame ceilings, once one has been set.
pub open spec fn with_ceiling(ceilings: Seq<Option<u64>>, stream: int, max_frame: u64) -> Seq<
    Option<u64>,
> {
    Seq::new(
        if ceilings.len() <= stream {
            (stream + 1) as nat
        } else {
            ceilings.len()
        },
        |i: int|
            if i == stream {
                Some(max_frame)
            } else if i < ceilings.len() {
                ceilings[i]
            } else {
                None
            },
    )
}

impl DemuxV {
    /// The metadata of one stream or of the whole file.
    pub open spec fn tags(self, stream: Option<usize>) -> TagsV {
        match stream {
            Some(index) => if index < self.known.stream_tags.len() {
                self.known.stream_tags[index as int]
            } else {
                Seq::empty()
            },
            None => self.known.file_tags,
        }
    }
}

} // verus!
