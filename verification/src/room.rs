//! How much may wait: a parser that asks for more bytes is never holding more
//! than one packet's worth of them.

use vstd::prelude::*;

use crate::arrival::{
    drain, drain_pieces, lemma_drain_wf, lemma_next_goes_down, lemma_pieces, lemma_truncation_waits,
    overfull, together, weight, Rest,
};
use crate::bytes::{
    lemma_s_if_extends, lemma_v_extends, lemma_v_if_extends, spec_s, spec_s_if, spec_v, spec_v_if,
    spec_vb, unread, v_rest, MAX_V_BYTES, MAX_V_PREFIX,
};
use crate::demux::{
    lemma_next_wf, lemma_step_goes_down, lemma_step_wf, next, rank, step, unit_step, DemuxV, Limits,
    Outcome, Step,
};
use crate::error::{ErrorV, Halt, Parse, Part, Problem};
use crate::event::EventV;
use crate::flags;
use crate::frame::{
    elision_stage, flagged, flags_stage, frame_head, frame_parts, pts_stage, reserved_stage,
    size_stage, stream_stage,
};
use crate::headers::stream_fields;
use crate::known::KnownV;
use crate::packet::{packet_at, FrontV};
use crate::read::default_limits;
use crate::stream::TimeBase;
use crate::tables::{
    body_v, carried_at_first, codes_from, elision_from, group_at, main_fields, time_bases_from,
    with_group, Carried, FrameCode, FRAME_CODES,
};

verus! {

/// The longest a frame header can be.
pub const MAX_FRAME_HEADER: usize = 4096;

/// Limits under which a packet that may be held whole always fits in what may
/// wait.
pub open spec fn roomy(limits: Limits) -> bool {
    limits.max_header + MAX_FRAME_HEADER <= limits.max_buffered
}

/// The limits a demuxer has where a caller sets none are such.
pub proof fn lemma_default_is_roomy()
    ensures
        roomy(default_limits()),
{
}

/// Whether a parse stopped for want of bytes.
pub open spec fn short<T>(parse: Parse<T>) -> bool {
    parse matches Err(Halt::Need(_))
}

/// A `v` field is at most ten bytes, and one that is cut short has fewer than
/// that behind it.
proof fn lemma_v_reach(bytes: Seq<u8>, at: int, base: int)
    requires
        0 <= at <= bytes.len(),
    ensures
        spec_v(bytes, at, base).1 <= at + MAX_V_BYTES,
        short(spec_v(bytes, at, base).0) ==> bytes.len() < at + MAX_V_BYTES,
{
    lemma_v_rest_reach(bytes, at, base, 0, 0);
}

proof fn lemma_v_rest_reach(bytes: Seq<u8>, at: int, base: int, value: u64, read: nat)
    requires
        0 <= at <= bytes.len(),
        read <= MAX_V_BYTES,
    ensures
        v_rest(bytes, at, base, value, read).1 <= at + MAX_V_BYTES - read,
        short(v_rest(bytes, at, base, value, read).0) ==> bytes.len() < at + MAX_V_BYTES - read,
    decreases MAX_V_BYTES - read,
{
    if read < MAX_V_BYTES && at < bytes.len() && value <= MAX_V_PREFIX && bytes[at] >= 128 {
        let next = (value * 128 + bytes[at] % 128) as u64;
        lemma_v_rest_reach(bytes, at + 1, base, next, read + 1);
    }
}

proof fn lemma_unread_reach(bytes: Seq<u8>, at: int, base: int, count: nat)
    requires
        0 <= at <= bytes.len(),
    ensures
        unread(bytes, at, base, count) matches Ok(next) ==> next <= at + MAX_V_BYTES * count,
        short(unread(bytes, at, base, count)) ==> bytes.len() < at + MAX_V_BYTES * count,
    decreases count,
{
    if count > 0 {
        lemma_v_reach(bytes, at, base);
        lemma_v_extends(bytes, Seq::empty(), at, base);
        if spec_v(bytes, at, base).0 is Ok {
            lemma_unread_reach(bytes, spec_v(bytes, at, base).1, base, (count - 1) as nat);
        }
    }
}

/// A frame header that is cut short is no longer than a frame header can be.
proof fn lemma_frame_reach(
    bytes: Seq<u8>,
    base: int,
    known: KnownV,
    ceilings: Seq<Option<u64>>,
    max_frame: u64,
)
    requires
        bytes.len() >= 1,
    ensures
        short(frame_head(bytes, base, known, ceilings, max_frame)) ==> bytes.len()
            <= MAX_FRAME_HEADER,
{
    lemma_parts_reach(bytes, base, known);
}

proof fn lemma_parts_reach(bytes: Seq<u8>, base: int, known: KnownV)
    requires
        bytes.len() >= 1,
    ensures
        short(frame_parts(bytes, base, known)) ==> bytes.len() <= 3000,
        frame_parts(bytes, base, known) matches Ok((_, at)) ==> at <= 3000,
{
    let none = Seq::<u8>::empty();
    let tables = known.main->Some_0;
    let code = tables.frame_codes[bytes[0] as int];
    lemma_v_reach(bytes, 1, base);
    lemma_v_extends(bytes, none, 1, base);
    if let Ok((flags, at)) = flags_stage(bytes, base, code) {
        lemma_v_reach(bytes, at, base);
        lemma_v_extends(bytes, none, at, base);
        if let Ok((stream, at)) = stream_stage(bytes, at, base, code, flags, known.streams.len()) {
            lemma_v_reach(bytes, at, base);
            lemma_v_extends(bytes, none, at, base);
            let last = known.clocks[stream as int].last_pts;
            let shift = known.streams[stream as int]->Some_0.msb_pts_shift;
            if let Ok((pts, at)) = pts_stage(bytes, at, base, code, flags, last, shift) {
                lemma_v_reach(bytes, at, base);
                lemma_v_extends(bytes, none, at, base);
                if let Ok((size, at)) = size_stage(bytes, at, base, code, flags) {
                    let count = tables.elision.len();
                    lemma_elision_reach(bytes, at, base, code, flags, count);
                    if let Ok((index, at)) = elision_stage(bytes, at, base, code, flags, count) {
                        lemma_reserved_reach(bytes, at, base, code, flags);
                    }
                }
            }
        }
    }
}

proof fn lemma_elision_reach(
    bytes: Seq<u8>,
    at: int,
    base: int,
    code: FrameCode,
    flags: u64,
    count: nat,
)
    requires
        0 <= at <= bytes.len(),
    ensures
        short(elision_stage(bytes, at, base, code, flags, count)) ==> bytes.len() <= at + 20,
        elision_stage(bytes, at, base, code, flags, count) matches Ok((_, next)) ==> at <= next <= at
            + 20 && next <= bytes.len(),
{
    let none = Seq::<u8>::empty();
    lemma_v_reach(bytes, at, base);
    let there = flagged(flags, flags::MATCH_TIME);
    lemma_s_if_extends(there, bytes, none, at, base, 0);
    let next = spec_s_if(there, bytes, at, base, 0).1;
    lemma_v_reach(bytes, next, base);
    lemma_v_extends(bytes, none, next, base);
}

proof fn lemma_reserved_reach(bytes: Seq<u8>, at: int, base: int, code: FrameCode, flags: u64)
    requires
        0 <= at <= bytes.len(),
    ensures
        short(reserved_stage(bytes, at, base, code, flags)) ==> bytes.len() <= at + 2570,
        reserved_stage(bytes, at, base, code, flags) matches Ok((_, next)) ==> next <= at + 2570,
{
    let none = Seq::<u8>::empty();
    lemma_v_reach(bytes, at, base);
    let there = flagged(flags, flags::RESERVED);
    lemma_v_if_extends(there, bytes, none, at, base, code.reserved_count);
    let count = spec_v_if(there, bytes, at, base, code.reserved_count);
    lemma_unread_reach(bytes, count.1, base, count.0->Ok_0 as nat);
}

/// A packet that is cut short is no longer than one that may be held.
proof fn lemma_packet_reach(bytes: Seq<u8>, base: int, max_header: u64)
    requires
        bytes.len() >= 1,
    ensures
        short(packet_at(bytes, base, max_header)) ==> bytes.len() <= max_header + 22,
{
    if bytes.len() >= 8 {
        lemma_v_reach(bytes, 8, base);
        lemma_v_extends(bytes, Seq::empty(), 8, base);
    }
}

/// Whether a parse was refused for something other than what is waiting.
spec fn plain<T>(parse: Parse<T>) -> bool {
    parse matches Err(Halt::Bad(problem)) ==> !(problem is Buffered)
}

proof fn lemma_v_plain(bytes: Seq<u8>, at: int, base: int)
    ensures
        plain(spec_v(bytes, at, base).0),
{
    lemma_v_rest_plain(bytes, at, base, 0, 0);
}

proof fn lemma_v_rest_plain(bytes: Seq<u8>, at: int, base: int, value: u64, read: nat)
    ensures
        plain(v_rest(bytes, at, base, value, read).0),
    decreases MAX_V_BYTES - read,
{
    if read < MAX_V_BYTES && at < bytes.len() && value <= MAX_V_PREFIX && bytes[at] >= 128 {
        let next = (value * 128 + bytes[at] % 128) as u64;
        lemma_v_rest_plain(bytes, at + 1, base, next, read + 1);
    }
}

/// No field is ever refused for what is waiting.
proof fn lemma_fields_plain()
    ensures
        forall|bytes: Seq<u8>, at: int, base: int| plain(#[trigger] spec_v(bytes, at, base).0),
        forall|bytes: Seq<u8>, at: int, base: int| plain(#[trigger] spec_s(bytes, at, base).0),
        forall|bytes: Seq<u8>, at: int, base: int, what: Part|
            plain(#[trigger] spec_vb(bytes, at, base, what).0),
        forall|bytes: Seq<u8>, at: int, base: int, count: nat|
            plain(#[trigger] unread(bytes, at, base, count)),
{
    assert forall|bytes: Seq<u8>, at: int, base: int| plain(#[trigger] spec_v(bytes, at, base).0) by {
        lemma_v_plain(bytes, at, base);
    }
    assert forall|bytes: Seq<u8>, at: int, base: int, count: nat| plain(
        #[trigger] unread(bytes, at, base, count),
    ) by {
        lemma_unread_plain(bytes, at, base, count);
    }
}

proof fn lemma_unread_plain(bytes: Seq<u8>, at: int, base: int, count: nat)
    ensures
        plain(unread(bytes, at, base, count)),
    decreases count,
{
    if count > 0 {
        lemma_v_plain(bytes, at, base);
        lemma_unread_plain(bytes, spec_v(bytes, at, base).1, base, (count - 1) as nat);
    }
}

proof fn lemma_time_bases_plain(body: Seq<u8>, at: int, left: nat, read: Seq<TimeBase>)
    ensures
        plain(time_bases_from(body, at, left, read)),
    decreases left,
{
    if left > 0 {
        let num = body_v(body, at);
        let den = body_v(body, num.1);
        lemma_v_plain(body, at, 0);
        lemma_v_plain(body, num.1, 0);
        lemma_time_bases_plain(
            body,
            den.1,
            (left - 1) as nat,
            read.push(TimeBase { num: num.0->Ok_0, den: den.0->Ok_0 }),
        );
    }
}

proof fn lemma_elision_plain(body: Seq<u8>, at: int, left: nat, read: Seq<Seq<u8>>)
    ensures
        plain(elision_from(body, at, left, read)),
    decreases left,
{
    if left > 0 {
        lemma_fields_plain();
        let header = spec_vb(body, at, 0, Part::ElisionHeader);
        lemma_elision_plain(body, header.1, (left - 1) as nat, read.push(header.0->Ok_0));
    }
}

proof fn lemma_group_plain(body: Seq<u8>, at: int, carried: Carried)
    ensures
        plain(group_at(body, at, 0, carried)),
{
    lemma_fields_plain();
}

proof fn lemma_codes_plain(
    body: Seq<u8>,
    at: int,
    codes: Seq<FrameCode>,
    carried: Carried,
    groups: nat,
)
    ensures
        plain(codes_from(body, at, 0, codes, carried, groups)),
    decreases FRAME_CODES - groups,
{
    if codes.len() < FRAME_CODES && groups < FRAME_CODES {
        lemma_group_plain(body, at, carried);
        if let Ok((group, next)) = group_at(body, at, 0, carried) {
            lemma_codes_plain(body, next, with_group(codes, group, 0), group.carried, groups + 1);
        }
    }
}

proof fn lemma_main_plain(body: Seq<u8>, max_streams: usize)
    ensures
        plain(main_fields(body, max_streams)),
{
    lemma_fields_plain();
    let version = body_v(body, 0);
    let streams = body_v(body, version.1);
    let distance = body_v(body, streams.1);
    let bases = body_v(body, distance.1);
    let time_bases = time_bases_from(body, bases.1, bases.0->Ok_0 as nat, Seq::empty());
    let codes = codes_from(body, time_bases->Ok_0.1, 0, Seq::empty(), carried_at_first(), 0);
    let headers = body_v(body, codes->Ok_0.1);
    lemma_time_bases_plain(body, bases.1, bases.0->Ok_0 as nat, Seq::empty());
    lemma_codes_plain(body, time_bases->Ok_0.1, Seq::empty(), carried_at_first(), 0);
    lemma_elision_plain(body, headers.1, headers.0->Ok_0 as nat, seq![Seq::<u8>::empty()]);
}

proof fn lemma_stream_plain(body: Seq<u8>, time_bases: Seq<TimeBase>, count: nat)
    ensures
        stream_fields(body, time_bases, count) matches Err(error) ==> !overfull(error),
{
    lemma_fields_plain();
}

proof fn lemma_packet_plain(known: KnownV, startcode: u64, body: Seq<u8>, max_streams: usize)
    ensures
        known.after_packet(startcode, body, max_streams) matches Err(error) ==> !overfull(error),
{
    lemma_main_plain(body, max_streams);
    if let Some(tables) = known.main {
        lemma_stream_plain(body, tables.time_bases, known.streams.len());
        lemma_fields_plain();
    }
}

proof fn lemma_frame_plain(
    bytes: Seq<u8>,
    base: int,
    known: KnownV,
    ceilings: Seq<Option<u64>>,
    max_frame: u64,
)
    ensures
        plain(frame_head(bytes, base, known, ceilings, max_frame)),
{
    lemma_fields_plain();
}

proof fn lemma_front_plain(bytes: Seq<u8>, base: int, max_header: u64)
    ensures
        plain(packet_at(bytes, base, max_header)),
{
    lemma_fields_plain();
}

/// Where there is room for any packet that may be held, the parser never
/// refuses a stream for what is waiting: when it asks for more, no more than
/// one packet is.
pub proof fn lemma_never_overfull(d: DemuxV)
    requires
        d.wf(),
        roomy(d.limits),
    ensures
        next(d).1 matches Err(error) ==> !overfull(error),
        next(d).1 matches Ok(None) ==> next(d).0.buf.len() <= d.limits.max_buffered,
    decreases d.buf.len(), rank(d.state),
{
    lemma_step_goes_down(d);
    lemma_step_wf(d);
    if d.state is Unit {
        lemma_unit_never_overfull(d);
    }
    if let Step::Go(after) = step(d) {
        lemma_never_overfull(after);
    }
}

proof fn lemma_unit_never_overfull(d: DemuxV)
    requires
        d.wf(),
        roomy(d.limits),
    ensures
        unit_step(d) matches Step::Stop(after, outcome) ==> {
            &&& outcome matches Err(error) ==> !overfull(error)
            &&& outcome matches Ok(None) ==> after.buf.len() <= d.limits.max_buffered
        },
{
    reveal(unit_step);
    if d.buf.len() > 0 {
        lemma_packet_reach(d.buf, d.pos, d.limits.max_header);
        lemma_frame_reach(d.buf, d.pos, d.known, d.ceilings, d.limits.max_frame);
        lemma_front_plain(d.buf, d.pos, d.limits.max_header);
        lemma_frame_plain(d.buf, d.pos, d.known, d.ceilings, d.limits.max_frame);
        if let Ok((FrontV::Body { startcode, body }, _)) = packet_at(
            d.buf,
            d.pos,
            d.limits.max_header,
        ) {
            lemma_packet_plain(d.known, startcode, body, d.limits.max_streams);
        }
    }
}

proof fn lemma_drain_never_overfull(d: DemuxV)
    requires
        d.wf(),
        roomy(d.limits),
    ensures
        drain(d).2 matches Rest::Failed(error) ==> !overfull(error),
    decreases d.buf.len(), weight(d),
{
    lemma_next_goes_down(d);
    lemma_next_wf(d);
    lemma_never_overfull(d);
    if let (after, Ok(Some(event))) = next(d) {
        if event != EventV::EndOfInput {
            lemma_drain_never_overfull(after);
        }
    }
}

proof fn lemma_pieces_never_overfull(d: DemuxV, pieces: Seq<Seq<u8>>)
    requires
        d.wf(),
        roomy(d.limits),
        d.pos + d.buf.len() + together(pieces).len() <= u64::MAX,
    ensures
        drain_pieces(d, pieces).2 matches Rest::Failed(error) ==> !overfull(error),
    decreases pieces.len(),
{
    if pieces.len() == 0 {
        lemma_drain_never_overfull(d);
    } else {
        let first = d.fed(pieces[0]);
        lemma_drain_never_overfull(first);
        lemma_drain_wf(first);
        if drain(first).2 is Waiting {
            lemma_pieces_never_overfull(drain(first).1, pieces.skip(1));
        }
    }
}

/// How the bytes arrive changes nothing, where there is room for any packet
/// that may be held: two ways of cutting one wire into pieces see the same
/// events, come to the same end, and where they wait for more, wait in the
/// same place.
pub proof fn lemma_any_pieces(d: DemuxV, some: Seq<Seq<u8>>, others: Seq<Seq<u8>>)
    requires
        d.wf(),
        !d.eof,
        roomy(d.limits),
        together(some) == together(others),
        d.pos + d.buf.len() + together(some).len() <= u64::MAX,
    ensures
        drain_pieces(d, some).0 == drain_pieces(d, others).0,
        drain_pieces(d, some).2 == drain_pieces(d, others).2,
        drain_pieces(d, some).2 is Waiting ==> drain_pieces(d, some).1 == drain_pieces(d, others).1,
{
    lemma_pieces_never_overfull(d, some);
    lemma_pieces_never_overfull(d, others);
    lemma_pieces(d, some);
    lemma_pieces(d, others);
}

/// A stream a demuxer is handed whole, and one it is handed in any pieces, are
/// read the same way to the end.
pub proof fn lemma_whole_or_in_pieces(limits: Limits, pieces: Seq<Seq<u8>>)
    requires
        roomy(limits),
        together(pieces).len() <= u64::MAX,
    ensures
        ({
            let fresh = DemuxV::fresh(limits);
            let whole = drain(fresh.fed(together(pieces)));
            let parts = drain_pieces(fresh, pieces);
            &&& whole.0 == parts.0
            &&& whole.2 == parts.2
            &&& whole.2 is Waiting ==> drain(whole.1.finished()) == drain(parts.1.finished())
        }),
{
    let fresh = DemuxV::fresh(limits);
    lemma_pieces_never_overfull(fresh, pieces);
    lemma_pieces(fresh, pieces);
}

/// No cut of a wire that is read is an error for having been cut: every one of
/// them waits for more.
pub proof fn lemma_every_truncation_waits(limits: Limits, wire: Seq<u8>, cut: int)
    requires
        roomy(limits),
        wire.len() <= u64::MAX,
        0 <= cut <= wire.len(),
        drain(DemuxV::fresh(limits).fed(wire)).2 is Waiting,
    ensures
        drain(DemuxV::fresh(limits).fed(wire.take(cut))).2 is Waiting,
{
    let fresh = DemuxV::fresh(limits);
    assert(fresh.known.wf());
    lemma_truncation_waits(fresh, wire, cut);
    lemma_drain_never_overfull(fresh.fed(wire.take(cut)));
}

// Where the input is closed.

/// Whether a problem is that the input ended in the middle of something, and
/// says what.
pub open spec fn cut_short(problem: Problem) -> bool {
    problem is IdentifierEnds || problem is EndsMidField || problem is EndsInside
        || problem is SkipEnds || problem is FrameEnds
}

/// Whether an answer is what closing the input makes of a parser that waited.
pub open spec fn closing(outcome: Outcome) -> bool {
    match outcome {
        Ok(Some(event)) => event is EndOfHeaders || event is EndOfInput,
        Ok(None) => false,
        Err(error) => cut_short(error.problem),
    }
}

proof fn lemma_step_closed(d: DemuxV)
    requires
        !d.eof,
    ensures
        match step(d) {
            Step::Go(after) => step(d.finished()) == Step::Go(after.finished()),
            Step::Stop(after, Ok(None)) => step(d.finished()) matches Step::Stop(closed, outcome)
                && closing(outcome) && (outcome is Ok ==> closed.state is Ended),
            Step::Stop(after, Ok(Some(event))) => step(d.finished()) == Step::Stop(
                after.finished(),
                Ok(Some(event)),
            ),
            Step::Stop(_, Err(_)) => true,
        },
{
    reveal(unit_step);
}

proof fn lemma_next_closed(d: DemuxV)
    requires
        !d.eof,
    ensures
        match next(d).1 {
            Ok(None) => {
                let (closed, outcome) = next(d.finished());
                &&& closing(outcome)
                &&& outcome is Ok ==> closed.state is Ended
            },
            Ok(Some(_)) => next(d.finished()) == (next(d).0.finished(), next(d).1),
            Err(_) => true,
        },
        next(d).1 is Ok ==> !next(d).0.eof,
    decreases d.buf.len(), rank(d.state),
{
    lemma_step_goes_down(d);
    lemma_step_goes_down(d.finished());
    lemma_step_closed(d);
    reveal(unit_step);
    if let Step::Go(after) = step(d) {
        lemma_next_closed(after);
    }
}

/// Closing the input under a parser that would wait makes it end, or say what
/// it was in the middle of.
proof fn lemma_drain_closed(d: DemuxV)
    requires
        !d.eof,
        drain(d).2 is Waiting,
    ensures
        match drain(d.finished()).2 {
            Rest::Waiting => false,
            Rest::Ended => true,
            Rest::Failed(error) => cut_short(error.problem),
        },
    decreases d.buf.len(), weight(d),
{
    lemma_next_goes_down(d);
    let closed = d.finished();
    lemma_next_closed(d);
    match next(d) {
        (after, Ok(Some(event))) => {
            lemma_drain_closed(after);
        },
        (_, Ok(None)) => {
            let (ended, outcome) = next(closed);
            if outcome is Ok {
                assert(next(ended) == (
                    ended,
                    Ok::<Option<EventV>, ErrorV>(Some(EventV::EndOfInput)),
                ));
                assert(drain(ended).2 is Ended);
            }
        },
        _ => {},
    }
}

/// Every cut of a wire that is read, with the input closed behind it, either
/// fell where the stream may end or is refused by what it stopped in the
/// middle of.
pub proof fn lemma_every_truncation_ends(limits: Limits, wire: Seq<u8>, cut: int)
    requires
        roomy(limits),
        wire.len() <= u64::MAX,
        0 <= cut <= wire.len(),
        drain(DemuxV::fresh(limits).fed(wire)).2 is Waiting,
    ensures
        match drain(DemuxV::fresh(limits).fed(wire.take(cut)).finished()).2 {
            Rest::Waiting => false,
            Rest::Ended => true,
            Rest::Failed(error) => cut_short(error.problem),
        },
{
    lemma_every_truncation_waits(limits, wire, cut);
    lemma_drain_closed(DemuxV::fresh(limits).fed(wire.take(cut)));
}

} // verus!
