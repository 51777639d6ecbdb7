//! What a read gives back of a write: a wire the muxer wrote is read as the
//! stream, the frames and the rows it was written from.

use vstd::prelude::*;

use crate::arrival::lemma_next_goes_down;
use crate::clock::{landed, rescaled, ClockV};
use crate::demux::{
    after_head, known_after_frame, lemma_known_after_frame, next, overlaid, packet_step, step,
    unit_step, zeros, DemuxV, State, Step,
};
use crate::error::ErrorV;
use crate::event::EventV;
use crate::flags;
use crate::frame::{ceiling_for, FrameHead};
use crate::known::{lemma_after_packet, KnownV};
use crate::mux::{frame_bytes, frame_head_bytes, packet_bytes, syncpoint_body, FRAME_CODE};
use crate::packet::is_header;
use crate::read::{annotation_taken, frame_read, ReaderV};
use crate::stream::{Packet, StreamV, TimeBase};
use crate::written::{
    lemma_frame_head_reads, lemma_own_base, lemma_packet_reads, lemma_read_flags,
    lemma_syncpoint_reads, read_flags, reads_frames,
};
use crate::{ANNOTATION_STREAM_ID, INFO_STARTCODE, SYNCPOINT_STARTCODE};

verus! {

// One packet, one frame.

/// A packet the muxer wrote is the next event.
pub proof fn lemma_next_packet(
    d: DemuxV,
    startcode: u64,
    body: Seq<u8>,
    rest: Seq<u8>,
    known: KnownV,
    event: EventV,
)
    requires
        d.state is Unit,
        d.buf == packet_bytes(startcode, body) + rest,
        is_header(startcode) || startcode == INFO_STARTCODE,
        body.len() + 4 <= d.limits.max_header,
        d.known.after_packet(startcode, body, d.limits.max_streams) == Ok::<
            (KnownV, Option<EventV>),
            ErrorV,
        >((known, Some(event))),
    ensures
        next(d) == (
            DemuxV {
                buf: rest,
                pos: d.pos + packet_bytes(startcode, body).len(),
                known,
                ..d
            },
            Ok::<Option<EventV>, ErrorV>(Some(event)),
        ),
{
    reveal(unit_step);
    lemma_packet_reads(startcode, body, rest, d.pos, d.limits.max_header);
    let at = packet_bytes(startcode, body).len() as int;
    assert(d.buf.skip(at) =~= rest);
    assert(step(d) == packet_step(d));
}

/// What is known once a frame the muxer wrote has been read.
pub open spec fn known_with_frame(known: KnownV, id: usize, pts: i64) -> KnownV {
    let clock = known.clocks[id as int];
    KnownV {
        clocks: known.clocks.update(
            id as int,
            ClockV { last_pts: pts, pts_buffer: landed(clock.pts_buffer, pts) },
        ),
        ..known
    }
}

/// A frame the muxer wrote is the next event, with its payload.
proof fn lemma_next_frame(
    d: DemuxV,
    id: usize,
    shift: u32,
    pts: i64,
    keyframe: bool,
    data: Seq<u8>,
    rest: Seq<u8>,
)
    requires
        d.state is Unit,
        reads_frames(d.known),
        d.known.headers_done,
        id < d.known.streams.len(),
        d.known.streams[id as int]->Some_0.msb_pts_shift == shift,
        pts >= 0,
        data.len() <= ceiling_for(d.ceilings, d.limits.max_frame, id as int),
        d.buf == frame_bytes(id as nat, shift, pts, keyframe, data) + rest,
    ensures
        next(d) == (
            DemuxV {
                buf: rest,
                pos: d.pos + frame_bytes(id as nat, shift, pts, keyframe, data).len(),
                known: known_with_frame(d.known, id, pts),
                payload: data,
                ..d
            },
            Ok::<Option<EventV>, ErrorV>(
                Some(
                    EventV::Frame {
                        stream: id,
                        packet: Packet {
                            pts,
                            dts: landed(d.known.clocks[id as int].pts_buffer, pts)[0],
                            keyframe,
                        },
                    },
                ),
            ),
        ),
{
    let whole = frame_bytes(id as nat, shift, pts, keyframe, data);
    let head_bytes = frame_head_bytes(id as nat, shift, pts, keyframe, data.len());
    let len = head_bytes.len() as int + 4;
    let head = FrameHead {
        flags: read_flags(keyframe),
        stream: id,
        pts,
        size: data.len() as u64,
        header_idx: 0,
    };
    lemma_frame_head_reads(
        id,
        shift,
        pts,
        keyframe,
        data,
        rest,
        d.pos,
        d.known,
        d.ceilings,
        d.limits.max_frame,
    );
    lemma_read_flags(keyframe);
    crate::bytes::lemma_be_len(crate::bytes::spec_crc32(head_bytes) as nat, 4);
    assert(whole.len() == len + data.len());
    assert(d.buf.skip(len) =~= data + rest);
    let mid = after_head(d, head, len);
    assert(step(d) == Step::Go(mid)) by {
        reveal(unit_step);
        assert(d.buf[0] == FRAME_CODE);
    }
    assert(mid.buf == data + rest);
    assert(mid.known =~= known_with_frame(d.known, id, pts));
    assert(mid.payload =~= zeros(data.len()));
    let n = data.len() as int;
    assert(mid.buf.take(n) =~= data);
    assert(mid.buf.skip(n) =~= rest);
    assert(overlaid(mid.payload, 0, data) =~= data);
    let last = next(d).0;
    assert(next(d) == next(mid));
    assert(next(mid) == (
        DemuxV { state: State::Unit, payload: data, ..mid.advanced(n) },
        Ok::<Option<EventV>, ErrorV>(
            Some(
                EventV::Frame {
                    stream: id,
                    packet: Packet {
                        pts,
                        dts: landed(d.known.clocks[id as int].pts_buffer, pts)[0],
                        keyframe,
                    },
                },
            ),
        ),
    ));
}

/// Reading a frame leaves what frames are read through.
proof fn lemma_reads_on(known: KnownV, id: usize, pts: i64)
    requires
        reads_frames(known),
        id < known.streams.len(),
    ensures
        reads_frames(known_with_frame(known, id, pts)),
        known_with_frame(known, id, pts).streams == known.streams,
        known_with_frame(known, id, pts).headers_done == known.headers_done,
        known_with_frame(known, id, pts).main == known.main,
{
    let head = FrameHead {
        flags: read_flags(true),
        stream: id,
        pts,
        size: 0,
        header_idx: 0,
    };
    lemma_read_flags(true);
    lemma_known_after_frame(known, head);
    assert(known_after_frame(known, head) =~= known_with_frame(known, id, pts));
}

/// Whether every stream that is described counts in one time base.
pub open spec fn one_base(known: KnownV, base: TimeBase) -> bool {
    &&& base.num > 0
    &&& base.den > 0
    &&& known.main is Some
    &&& known.main->Some_0.time_bases == seq![base]
    &&& forall|i: int|
        0 <= i < known.streams.len() ==> (#[trigger] known.streams[i] matches Some(stream)
            ==> stream.time_base == base)
}

/// A syncpoint the muxer wrote sets every clock to its own place.
pub open spec fn known_at(known: KnownV, pts: i64) -> KnownV {
    KnownV {
        clocks: Seq::new(
            known.clocks.len(),
            |i: int|
                if known.streams[i] is Some {
                    ClockV { last_pts: pts, ..known.clocks[i] }
                } else {
                    known.clocks[i]
                },
        ),
        ..known
    }
}

/// A syncpoint the muxer wrote is the next event.
pub proof fn lemma_next_syncpoint(d: DemuxV, base: TimeBase, pts: i64, rest: Seq<u8>)
    requires
        d.state is Unit,
        d.known.wf(),
        one_base(d.known, base),
        pts >= 0,
        d.buf == packet_bytes(SYNCPOINT_STARTCODE, syncpoint_body(pts)) + rest,
        d.limits.max_header >= 24,
    ensures
        next(d) == (
            DemuxV {
                buf: rest,
                pos: d.pos + packet_bytes(SYNCPOINT_STARTCODE, syncpoint_body(pts)).len(),
                known: known_at(d.known, pts),
                ..d
            },
            Ok::<Option<EventV>, ErrorV>(Some(EventV::Syncpoint)),
        ),
        known_at(d.known, pts).wf(),
{
    broadcast use crate::bytes::lemma_v_len;

    let body = syncpoint_body(pts);
    lemma_syncpoint_reads(pts, base);
    lemma_own_base(pts as int, base);
    let known = d.known.at_syncpoint(pts as int, base);
    assert(!d.known.out_of_range(pts as int, base)) by {
        if d.known.out_of_range(pts as int, base) {
            let i = choose|i: int|
                0 <= i < d.known.streams.len() && (#[trigger] d.known.streams[i] matches Some(stream)
                    && !crate::clock::fits(rescaled(pts as int, base, stream.time_base)));
            assert(d.known.streams[i]->Some_0.time_base == base);
        }
    }
    assert forall|i: int| 0 <= i < known.clocks.len() implies #[trigger] known.clocks[i] == known_at(
        d.known,
        pts,
    ).clocks[i] by {
        if d.known.streams[i] is Some {
            assert(d.known.streams[i]->Some_0.time_base == base);
        }
    }
    assert(known =~= known_at(d.known, pts));
    lemma_after_packet(d.known, SYNCPOINT_STARTCODE, body, d.limits.max_streams);
    lemma_next_packet(d, SYNCPOINT_STARTCODE, body, rest, known, EventV::Syncpoint);
}

// A run of frames.

/// One frame on the wire, of the media stream or of the annotation stream.
#[verifier::ext_equal]
pub struct Piece {
    pub id: usize,
    pub pts: i64,
    pub keyframe: bool,
    pub data: Seq<u8>,
}

/// Frames on the wire, each with a syncpoint ahead of it or none.
pub open spec fn lined(shift: u32, leads: Seq<bool>, pieces: Seq<Piece>) -> Seq<u8>
    decreases pieces.len(),
{
    if pieces.len() == 0 {
        Seq::empty()
    } else {
        let p = pieces[0];
        let frame = frame_bytes(p.id as nat, shift, p.pts, p.keyframe, p.data);
        let rest = lined(shift, leads.skip(1), pieces.skip(1));
        if leads[0] {
            packet_bytes(SYNCPOINT_STARTCODE, syncpoint_body(p.pts)) + (frame + rest)
        } else {
            frame + rest
        }
    }
}

/// Whether a demuxer is past the headers the muxer wrote of a stream, and at
/// a packet boundary with all of the wire fed.
pub open spec fn past_headers(d: DemuxV, stream: StreamV, annotated: bool) -> bool {
    &&& d.state is Unit
    &&& d.eof
    &&& reads_frames(d.known)
    &&& d.known.headers_done
    &&& one_base(d.known, stream.time_base)
    &&& d.known.streams.len() == if annotated {
        2nat
    } else {
        1nat
    }
    &&& forall|i: int|
        0 <= i < d.known.streams.len() ==> (#[trigger] d.known.streams[i])->Some_0.msb_pts_shift
            == stream.msb_pts_shift
    &&& d.limits.max_header >= 24
}

/// Whether a frame may be read at all: its stream is declared and its size is
/// within that stream's ceiling.
pub open spec fn may_read(d: DemuxV, p: Piece) -> bool {
    &&& p.id < d.known.streams.len()
    &&& p.pts >= 0
    &&& p.data.len() <= ceiling_for(d.ceilings, d.limits.max_frame, p.id as int)
}

/// A demuxer past one frame.
pub open spec fn past_piece(d: DemuxV, lead: bool, shift: u32, p: Piece, rest: Seq<u8>) -> DemuxV {
    let frame = frame_bytes(p.id as nat, shift, p.pts, p.keyframe, p.data);
    let sync = packet_bytes(SYNCPOINT_STARTCODE, syncpoint_body(p.pts));
    let known = if lead {
        known_at(d.known, p.pts)
    } else {
        d.known
    };
    DemuxV {
        buf: rest,
        pos: if lead {
            d.pos + sync.len() + frame.len()
        } else {
            d.pos + frame.len()
        },
        known: known_with_frame(known, p.id, p.pts),
        payload: p.data,
        ..d
    }
}

/// What a frame the muxer wrote says of itself.
pub open spec fn packet_of(buffer: Seq<Option<i64>>, p: Piece) -> Packet {
    Packet { pts: p.pts, dts: landed(buffer, p.pts)[0], keyframe: p.keyframe }
}

/// One frame read: the demuxer is past it, and what its reader makes of it is
/// what the reader makes of the frame.
pub proof fn lemma_piece_read(
    r: ReaderV,
    d: DemuxV,
    stream: StreamV,
    annotated: bool,
    leads: Seq<bool>,
    pieces: Seq<Piece>,
)
    requires
        past_headers(d, stream, annotated),
        pieces.len() > 0,
        may_read(d, pieces[0]),
        d.buf == lined(stream.msb_pts_shift, leads, pieces),
    ensures
        ({
            let shift = stream.msb_pts_shift;
            let p = pieces[0];
            let rest = lined(shift, leads.skip(1), pieces.skip(1));
            let after = past_piece(d, leads[0], shift, p, rest);
            let packet = packet_of(d.known.clocks[p.id as int].pts_buffer, p);
            &&& past_headers(after, stream, annotated)
            &&& after.known.streams == d.known.streams
            &&& after.known.clocks.len() == d.known.clocks.len()
            &&& forall|i: int|
                0 <= i < d.known.clocks.len() ==> #[trigger] after.known.clocks[i].pts_buffer
                    == if i == p.id {
                    landed(d.known.clocks[i].pts_buffer, p.pts)
                } else {
                    d.known.clocks[i].pts_buffer
                }
            &&& p.id != ANNOTATION_STREAM_ID ==> frame_read(r, d, Seq::empty()) == (
                r,
                after,
                Seq::<u8>::empty(),
                Ok::<Option<Packet>, ErrorV>(Some(packet)),
            )
            &&& p.id == ANNOTATION_STREAM_ID ==> (annotation_taken(r, p.pts, p.data) matches Ok(taken)
                ==> frame_read(r, d, Seq::empty()) == frame_read(taken, after, Seq::empty()))
        }),
{
    let shift = stream.msb_pts_shift;
    let p = pieces[0];
    let rest = lined(shift, leads.skip(1), pieces.skip(1));
    let frame = frame_bytes(p.id as nat, shift, p.pts, p.keyframe, p.data);
    let sync = packet_bytes(SYNCPOINT_STARTCODE, syncpoint_body(p.pts));
    let after = past_piece(d, leads[0], shift, p, rest);
    let mid = if leads[0] {
        DemuxV {
            buf: frame + rest,
            pos: d.pos + sync.len(),
            known: known_at(d.known, p.pts),
            ..d
        }
    } else {
        d
    };
    if leads[0] {
        lemma_next_syncpoint(d, stream.time_base, p.pts, frame + rest);
        lemma_known_at(d.known, p.pts);
        assert(next(d) == (mid, Ok::<Option<EventV>, ErrorV>(Some(EventV::Syncpoint))));
        lemma_next_goes_down(d);
        assert(frame_read(r, d, Seq::empty()) == frame_read(r, mid, Seq::empty()));
    }
    assert(reads_frames(mid.known));
    lemma_next_frame(mid, p.id, shift, p.pts, p.keyframe, p.data, rest);
    lemma_reads_on(mid.known, p.id, p.pts);
    assert(next(mid).0 =~= after);
    lemma_next_goes_down(mid);
    assert(mid.known.clocks[p.id as int].pts_buffer == d.known.clocks[p.id as int].pts_buffer);
}

/// A syncpoint moves the clocks and nothing else.
pub proof fn lemma_known_at(known: KnownV, pts: i64)
    requires
        known.wf(),
    ensures
        known_at(known, pts).wf(),
        known_at(known, pts).ends() == known.ends(),
        known_at(known, pts).complete() == known.complete(),
        known_at(known, pts).streams == known.streams,
        known_at(known, pts).main == known.main,
        known_at(known, pts).clocks.len() == known.clocks.len(),
        forall|i: int|
            0 <= i < known.clocks.len() ==> #[trigger] known_at(known, pts).clocks[i].pts_buffer
                == known.clocks[i].pts_buffer,
{
    let after = known_at(known, pts);
    assert forall|i: int| 0 <= i < after.clocks.len() implies (#[trigger] after.clocks[i]).wf() by {
        assert(known.clocks[i].wf());
    }
    assert forall|i: int| 0 <= i < after.streams.len() implies (
    #[trigger] after.streams[i] matches Some(s) ==> s.wf() && after.clocks[i].pts_buffer.len()
        == s.decode_delay + 1) by {
        assert(known.streams[i] matches Some(s) ==> s.wf());
    }
}

} // verus!
