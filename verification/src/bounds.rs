//! What a wire cannot make the parser hold or hand over.

use vstd::prelude::*;

use crate::bytes::{
    be_bytes, lemma_be_len, lemma_holds_between, lemma_u64_round_trip, lemma_v_extends, lemma_v_len,
    lemma_v_round_trip, spec_crc32, spec_u32, v_bytes,
};
use crate::demux::{
    lemma_step_goes_down, lemma_step_wf, next, rank, step, unit_step, DemuxV, State, Step,
};
use crate::error::Halt;
use crate::event::EventV;
use crate::frame::{ceiling_for, lemma_frame_head};
use crate::mux::packet_bytes;
use crate::packet::{is_header, opening, packet_at, part_of, FrontV};
use crate::tables::STARTCODE_BYTE;
use crate::INFO_STARTCODE;

verus! {

/// Whether a frame being filled is within its stream's ceiling.
pub open spec fn within_ceiling(d: DemuxV) -> bool {
    d.state matches State::Payload { stream, .. } ==> d.payload.len() <= ceiling_for(
        d.ceilings,
        d.limits.max_frame,
        stream as int,
    )
}

/// No frame is handed over, nor room made for one, that is larger than its
/// stream's ceiling.
pub proof fn lemma_frame_within_ceiling(d: DemuxV)
    requires
        d.wf(),
        within_ceiling(d),
    ensures
        within_ceiling(next(d).0),
        next(d).1 matches Ok(Some(EventV::Frame { stream, .. })) ==> next(d).0.payload.len()
            <= ceiling_for(d.ceilings, d.limits.max_frame, stream as int),
    decreases d.buf.len(), rank(d.state),
{
    reveal(unit_step);
    lemma_step_goes_down(d);
    lemma_step_wf(d);
    if d.state is Unit && d.buf.len() > 0 && d.known.complete() {
        lemma_frame_head(d.buf, d.pos, d.known, d.ceilings, d.limits.max_frame);
    }
    if let Step::Go(after) = step(d) {
        lemma_frame_within_ceiling(after);
    }
}

/// A parser that asks for more bytes holds no more of them than may wait, and
/// none at all where it fills a frame or steps over a packet.
pub proof fn lemma_waits_within_limits(d: DemuxV)
    requires
        next(d).1 matches Ok(None),
    ensures
        next(d).0.buf.len() <= d.limits.max_buffered,
        next(d).0.state is Payload || next(d).0.state is Skip ==> next(d).0.buf.len() == 0,
    decreases d.buf.len(), rank(d.state),
{
    reveal(unit_step);
    lemma_step_goes_down(d);
    if let Step::Go(after) = step(d) {
        lemma_waits_within_limits(after);
    }
}

/// No packet is held whole that is wider than may be.
pub proof fn lemma_body_within_limit(bytes: Seq<u8>, base: int, max_header: u64)
    ensures
        packet_at(bytes, base, max_header) matches Ok((FrontV::Body { body, .. }, _)) ==> body.len()
            + 4 <= max_header,
{
    if bytes.len() >= 8 {
        lemma_v_extends(bytes, Seq::empty(), 8, base);
    }
}

/// A packet of a startcode this crate does not know, and an info packet too
/// wide to hold, are stepped over by their own length: what is read behind one
/// is what would have been read without it. What is in it is not looked at.
pub proof fn lemma_stepped_over(d: DemuxV, startcode: u64, body: Seq<u8>, rest: Seq<u8>)
    requires
        d.state is Unit,
        be_bytes(startcode as nat, 8)[0] == STARTCODE_BYTE,
        !is_header(startcode),
        startcode == INFO_STARTCODE ==> body.len() + 4 > d.limits.max_header,
        body.len() + 4 <= u64::MAX,
        d.buf == packet_bytes(startcode, body) + rest,
    ensures
        next(d) == next(
            DemuxV { buf: rest, pos: d.pos + packet_bytes(startcode, body).len(), ..d },
        ),
{
    broadcast use {lemma_be_len, lemma_v_len};

    let bytes = d.buf;
    let code = be_bytes(startcode as nat, 8);
    let len = (body.len() + 4) as u64;
    let length = v_bytes(len as nat);
    let head = code + length;
    let sealed = body + be_bytes(spec_crc32(body) as nat, 4);
    lemma_u64_round_trip(startcode);
    assert(bytes.subrange(0, 8) =~= code);
    assert(bytes[0] == code[0]);
    let middle = if len > 4096 {
        be_bytes(spec_crc32(head) as nat, 4)
    } else {
        Seq::empty()
    };
    assert(bytes =~= code + length + (middle + sealed + rest));
    lemma_holds_between(code, length, middle + sealed + rest);
    lemma_v_round_trip(bytes, 8, d.pos, len);
    let at = 8 + length.len() as int;
    let body_at = at + middle.len();
    if len > 4096 {
        assert(spec_u32(bytes, at).0 is Ok);
        assert(spec_u32(bytes, at).1 == at + 4);
    }
    assert(opening(bytes, d.pos) == Ok::<((u64, u64), int), Halt>(((startcode, len), body_at)));
    let what = part_of(startcode);
    let mid = DemuxV {
        state: State::Skip { remaining: len, what },
        ..d.advanced(body_at)
    };
    assert(step(d) == Step::Go(mid)) by {
        reveal(unit_step);
    }
    let after = DemuxV { buf: rest, pos: d.pos + packet_bytes(startcode, body).len(), ..d };
    assert(mid.buf =~= sealed + rest);
    assert(mid.buf.skip(len as int) =~= rest);
    assert(step(mid) == Step::Go(after));
    assert(next(d) == next(mid));
    assert(next(mid) == next(after));
}

} // verus!
