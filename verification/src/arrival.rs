//! How the bytes arrive changes nothing: what a wire makes of them, whole, a
//! byte at a time or in any pieces between.

use vstd::prelude::*;

use crate::demux::{
    after_head, known_after_frame, lemma_next_wf, lemma_step_goes_down, lemma_step_wf, next,
    overlaid, rank, skip_step, smaller, step, unit_step, DemuxV, Outcome, State, Step,
};
use crate::error::{ErrorV, Halt};
use crate::event::EventV;
use crate::flags;
use crate::frame::{flagged, frame_head, lemma_frame_head, lemma_frame_head_extends, FrameHead};
use crate::packet::{lemma_packet_extends, packet_at};
use crate::stream::Packet;
use crate::tables::STARTCODE_BYTE;

verus! {

/// An error that says no more than that too much is waiting, which is not the
/// wire's doing alone: it depends on how much was fed before anything was
/// taken.
pub open spec fn overfull(error: ErrorV) -> bool {
    error.problem is Buffered
}

/// Whether the parser has stopped for want of bytes.
pub open spec fn stuck(outcome: Outcome) -> bool {
    match outcome {
        Ok(Some(_)) => false,
        Ok(None) => true,
        Err(error) => overfull(error),
    }
}

/// Feeding nothing changes nothing.
proof fn lemma_fed_nothing(d: DemuxV)
    ensures
        d.fed(Seq::empty()) == d,
{
    assert(d.fed(Seq::empty()).buf =~= d.buf);
}

/// Feeding twice is feeding once.
proof fn lemma_fed_twice(d: DemuxV, first: Seq<u8>, second: Seq<u8>)
    ensures
        d.fed(first).fed(second) == d.fed(first + second),
{
    assert(d.fed(first).fed(second).buf =~= d.fed(first + second).buf);
}

/// Bytes that are still to be fed are behind those that are passed.
proof fn lemma_advanced_fed(d: DemuxV, more: Seq<u8>, count: int)
    requires
        0 <= count <= d.buf.len(),
    ensures
        d.fed(more).advanced(count) == d.advanced(count).fed(more),
{
    assert((d.buf + more).skip(count) =~= d.buf.skip(count) + more);
}

/// A body half stepped over, and the rest of it fed.
proof fn lemma_skip_split(d: DemuxV, more: Seq<u8>, remaining: u64)
    requires
        d.state is Skip,
        d.state->remaining == remaining,
        d.buf.len() < remaining,
    ensures
        skip_step(d, remaining, d.state->Skip_what) matches Step::Stop(waiting, _) && step(
            waiting.fed(more),
        ) == step(d.fed(more)),
{
    let what = d.state->Skip_what;
    let short = (remaining - d.buf.len()) as u64;
    let waiting = DemuxV {
        state: State::Skip { remaining: short, what },
        ..d.advanced(d.buf.len() as int)
    };
    let whole = d.fed(more);
    let part = waiting.fed(more);
    assert(d.buf.skip(d.buf.len() as int) =~= Seq::empty());
    let took = smaller(short as int, more.len() as int);
    assert(part.buf.skip(took) =~= whole.buf.skip(d.buf.len() + took));
}

/// Writing over some bytes in two goes is writing over them in one.
proof fn lemma_overlaid_twice(under: Seq<u8>, from: int, first: Seq<u8>, second: Seq<u8>)
    requires
        0 <= from,
        from + first.len() + second.len() <= under.len(),
    ensures
        overlaid(overlaid(under, from, first), from + first.len(), second) == overlaid(
            under,
            from,
            first + second,
        ),
        overlaid(under, from, first).len() == under.len(),
{
    assert(overlaid(overlaid(under, from, first), from + first.len(), second) =~= overlaid(
        under,
        from,
        first + second,
    ));
}

/// A frame half filled, and the rest of it fed.
proof fn lemma_payload_split(d: DemuxV, more: Seq<u8>)
    requires
        d.state matches State::Payload { want, filled, .. } && filled <= want <= d.payload.len()
            && d.payload.len() <= usize::MAX && d.buf.len() < want - filled,
    ensures
        step(d) matches Step::Stop(waiting, _) && step(waiting.fed(more)) == step(d.fed(more)),
{
    if let State::Payload { stream, packet, want, filled } = d.state {
        let n = d.buf.len() as int;
        let whole = d.fed(more);
        let from = d.fill_from();
        let take = smaller(want - filled - n, more.len() as int);
        assert(d.buf.take(n) =~= d.buf);
        assert(d.buf.skip(n) =~= Seq::empty());
        lemma_overlaid_twice(d.payload, from, d.buf, more.take(take));
        if let Step::Stop(waiting, _) = step(d) {
            let part = waiting.fed(more);
            assert(waiting.buf =~= Seq::empty());
            assert(part.buf =~= more);
            assert(whole.buf.take(n + take) =~= d.buf + more.take(take));
            assert(part.buf.skip(take) =~= whole.buf.skip(n + take));
            assert(part.fill_from() == from + n);
            assert(part.filled_with(more.take(take)) == whole.filled_with(
                d.buf + more.take(take),
            ));
            let done_part = DemuxV {
                payload: part.filled_with(part.buf.take(take)),
                ..part.advanced(take)
            };
            let done_whole = DemuxV {
                payload: whole.filled_with(whole.buf.take(n + take)),
                ..whole.advanced(n + take)
            };
            assert(DemuxV { state: State::Unit, ..done_part } == DemuxV {
                state: State::Unit,
                ..done_whole
            });
        }
    }
}

/// One step with more bytes behind: where the parser did not stop for want of
/// bytes it does the same, and where it did, what it then does is what it
/// would have done with all of them.
pub proof fn lemma_step_extends(d: DemuxV, more: Seq<u8>)
    requires
        d.wf(),
        !d.eof,
    ensures
        match step(d) {
            Step::Go(after) => step(d.fed(more)) == Step::Go(after.fed(more)),
            Step::Stop(after, outcome) => if stuck(outcome) {
                step(after.fed(more)) == step(d.fed(more))
            } else {
                step(d.fed(more)) == Step::Stop(after.fed(more), outcome)
            },
        },
{
    let whole = d.fed(more);
    match d.state {
        State::Ended => {},
        State::Skip { remaining, what } => {
            if d.buf.len() < remaining {
                lemma_skip_split(d, more, remaining);
            } else {
                lemma_advanced_fed(d, more, remaining as int);
            }
        },
        State::Payload { stream, packet, want, filled } => {
            let room = want - filled;
            if d.buf.len() < room {
                lemma_payload_split(d, more);
            } else {
                lemma_advanced_fed(d, more, room);
                assert(whole.buf.take(room) =~= d.buf.take(room));
            }
        },
        State::Identifier => {
            if d.buf.len() >= 25 {
                lemma_advanced_fed(d, more, 25);
                assert(whole.buf.take(25) =~= d.buf.take(25));
            }
        },
        State::Unit => {
            if d.buf.len() > 0 {
                lemma_unit_extends(d, more);
            } else {
                reveal(unit_step);
            }
        },
    }
}

proof fn lemma_unit_extends(d: DemuxV, more: Seq<u8>)
    requires
        d.wf(),
        !d.eof,
        d.state is Unit,
        d.buf.len() > 0,
    ensures
        match step(d) {
            Step::Go(after) => step(d.fed(more)) == Step::Go(after.fed(more)),
            Step::Stop(after, outcome) => if stuck(outcome) {
                step(after.fed(more)) == step(d.fed(more))
            } else {
                step(d.fed(more)) == Step::Stop(after.fed(more), outcome)
            },
        },
{
    reveal(unit_step);
    let whole = d.fed(more);
    assert(whole.buf[0] == d.buf[0]);
    if d.buf[0] == STARTCODE_BYTE {
        lemma_packet_extends(d.buf, more, d.pos, d.limits.max_header);
        if let Ok((_, at)) = packet_at(d.buf, d.pos, d.limits.max_header) {
            lemma_advanced_fed(d, more, at);
        }
    } else if !d.known.ends() && d.known.complete() {
        lemma_frame_head_extends(d.buf, more, d.pos, d.known, d.ceilings, d.limits.max_frame);
        lemma_frame_head(d.buf, d.pos, d.known, d.ceilings, d.limits.max_frame);
        if let Ok((_, len)) = frame_head(d.buf, d.pos, d.known, d.ceilings, d.limits.max_frame) {
            lemma_advanced_fed(d, more, len);
        }
    }
}

/// Taking an event with more bytes behind: where there was an event or an
/// error there is the same one, and where there was neither, what comes next
/// is what would have come from all the bytes at once.
pub proof fn lemma_next_extends(d: DemuxV, more: Seq<u8>)
    requires
        d.wf(),
        !d.eof,
    ensures
        ({
            let (after, outcome) = next(d);
            if stuck(outcome) {
                next(after.fed(more)) == next(d.fed(more))
            } else {
                next(d.fed(more)) == (after.fed(more), outcome)
            }
        }),
    decreases d.buf.len(), rank(d.state),
{
    lemma_step_extends(d, more);
    lemma_step_wf(d);
    lemma_step_goes_down(d);
    if let Step::Go(after) = step(d) {
        lemma_next_extends(after, more);
    }
}

// Every event that is ready.

/// One event, and the payload that came with it where it is a frame.
#[verifier::ext_equal]
pub struct Seen {
    pub event: EventV,
    pub payload: Seq<u8>,
}

/// Where a consumer is once it has taken every event that is ready.
#[verifier::ext_equal]
pub enum Rest {
    /// More bytes are needed.
    Waiting,
    /// The input has ended.
    Ended,
    /// The stream is not what it claims to be.
    Failed(ErrorV),
}

/// What a consumer sees of an event.
pub open spec fn seen(d: DemuxV, event: EventV) -> Seen {
    Seen {
        event,
        payload: if event is Frame {
            d.payload
        } else {
            Seq::empty()
        },
    }
}

/// How many events a demuxer may still give without taking a byte.
pub open spec fn weight(d: DemuxV) -> nat {
    let to_end: nat = if d.known.headers_done {
        0
    } else {
        2
    };
    let inside: nat = match d.state {
        State::Skip { .. } => 3,
        State::Payload { .. } => 2,
        State::Ended => 0,
        _ => 1,
    };
    to_end + inside
}

/// Every event but the last brings the end of the bytes nearer.
pub proof fn lemma_next_goes_down(d: DemuxV)
    ensures
        next(d).1 matches Ok(Some(event)) && event != EventV::EndOfInput ==> next(d).0.buf.len()
            < d.buf.len() || (next(d).0.buf.len() == d.buf.len() && weight(next(d).0) < weight(d)),
    decreases d.buf.len(), rank(d.state),
{
    lemma_step_goes_down(d);
    match step(d) {
        Step::Go(after) => {
            if d.state is Unit {
                lemma_unit_goes(d);
            }
            lemma_next_goes_down(after);
        },
        Step::Stop(after, outcome) => {
            if d.state is Unit {
                lemma_unit_stops(d);
            }
        },
    }
}

/// A parser that asks for more is no further from the end of the bytes.
pub proof fn lemma_waiting_goes_down(d: DemuxV)
    ensures
        next(d).1 matches Ok(None) ==> next(d).0.buf.len() < d.buf.len() || (next(d).0.buf.len()
            == d.buf.len() && weight(next(d).0) <= weight(d)),
    decreases d.buf.len(), rank(d.state),
{
    lemma_step_goes_down(d);
    if let Step::Go(after) = step(d) {
        if d.state is Unit {
            lemma_unit_goes(d);
        }
        lemma_waiting_goes_down(after);
    } else if d.state is Unit {
        reveal(unit_step);
    }
}

/// A parser that goes on from a packet boundary has taken a byte.
proof fn lemma_unit_goes(d: DemuxV)
    requires
        d.state is Unit,
    ensures
        unit_step(d) matches Step::Go(after) ==> after.buf.len() < d.buf.len(),
{
    reveal(unit_step);
    lemma_step_goes_down(d);
}

/// A parser that has an event at a packet boundary has taken a byte, or has
/// ended the header section or the input.
proof fn lemma_unit_stops(d: DemuxV)
    requires
        d.state is Unit,
    ensures
        unit_step(d) matches Step::Stop(after, Ok(Some(event))) ==> {
            ||| event == EventV::EndOfInput
            ||| after.buf.len() < d.buf.len()
            ||| after.buf.len() == d.buf.len() && !d.known.headers_done
                && after.known.headers_done && (after.state is Unit || after.state is Ended)
        },
{
    reveal(unit_step);
    if d.buf.len() > 0 {
        lemma_packet_extends(d.buf, Seq::empty(), d.pos, d.limits.max_header);
    }
}

/// Every event that is ready, the demuxer once they are taken, and where that
/// leaves its consumer.
pub open spec fn drain(d: DemuxV) -> (Seq<Seen>, DemuxV, Rest)
    decreases d.buf.len(), weight(d),
{
    proof {
        lemma_next_goes_down(d);
    }
    match next(d) {
        (after, Ok(None)) => (Seq::empty(), after, Rest::Waiting),
        (after, Err(error)) => (Seq::empty(), after, Rest::Failed(error)),
        (after, Ok(Some(event))) => if event == EventV::EndOfInput {
            (seq![seen(after, event)], after, Rest::Ended)
        } else {
            let (events, last, rest) = drain(after);
            (seq![seen(after, event)] + events, last, rest)
        },
    }
}

/// Draining keeps a demuxer well formed.
pub proof fn lemma_drain_wf(d: DemuxV)
    requires
        d.wf(),
    ensures
        drain(d).1.wf(),
        drain(d).1.limits == d.limits,
        drain(d).1.eof == d.eof,
        drain(d).1.pos + drain(d).1.buf.len() == d.pos + d.buf.len(),
    decreases d.buf.len(), weight(d),
{
    lemma_next_goes_down(d);
    lemma_next_wf(d);
    if let (after, Ok(Some(event))) = next(d) {
        if event != EventV::EndOfInput {
            lemma_drain_wf(after);
        }
    }
}

/// Draining, feeding the rest and draining again sees what feeding all of it
/// and draining once sees.
pub proof fn lemma_drain_extends(d: DemuxV, more: Seq<u8>)
    requires
        d.wf(),
        !d.eof,
    ensures
        ({
            let (events, after, rest) = drain(d);
            match rest {
                Rest::Waiting => {
                    let later = drain(after.fed(more));
                    drain(d.fed(more)) == (events + later.0, later.1, later.2)
                },
                Rest::Failed(error) => !overfull(error) ==> drain(d.fed(more)) == (
                    events,
                    after.fed(more),
                    rest,
                ),
                Rest::Ended => drain(d.fed(more)) == (events, after.fed(more), rest),
            }
        }),
    decreases d.buf.len(), weight(d),
{
    lemma_next_extends(d, more);
    lemma_next_goes_down(d);
    lemma_next_wf(d);
    let (after, outcome) = next(d);
    match outcome {
        Ok(Some(event)) => {
            assert(seen(after.fed(more), event) == seen(after, event));
            if event != EventV::EndOfInput {
                lemma_drain_extends(after, more);
                let (events, last, rest) = drain(after);
                assert(drain(d).0 == seq![seen(after, event)] + events);
                if rest is Waiting {
                    let later = drain(last.fed(more));
                    assert(seq![seen(after, event)] + (events + later.0) =~= (seq![
                        seen(after, event),
                    ] + events) + later.0);
                }
            }
        },
        Ok(None) => {
            lemma_drain_by_next(after.fed(more), d.fed(more));
            assert(Seq::<Seen>::empty() + drain(after.fed(more)).0 =~= drain(after.fed(more)).0);
        },
        Err(_) => {},
    }
}

/// Two demuxers whose next event is the same one drain the same way.
proof fn lemma_drain_by_next(a: DemuxV, b: DemuxV)
    requires
        next(a) == next(b),
    ensures
        drain(a) == drain(b),
{
    lemma_next_goes_down(a);
    lemma_next_goes_down(b);
}

/// A consumer that has been told to wait is told so again until more arrives.
pub proof fn lemma_waiting_waits(d: DemuxV)
    requires
        d.wf(),
        !d.eof,
        next(d).1 == Ok::<Option<EventV>, ErrorV>(None),
    ensures
        next(next(d).0) == next(d),
{
    lemma_next_extends(d, Seq::empty());
    lemma_fed_nothing(d);
    lemma_fed_nothing(next(d).0);
}

/// Every event some pieces of a wire make, each drained before the next is
/// fed, up to the first that is refused.
pub open spec fn drain_pieces(d: DemuxV, pieces: Seq<Seq<u8>>) -> (Seq<Seen>, DemuxV, Rest)
    decreases pieces.len(),
{
    if pieces.len() == 0 {
        drain(d)
    } else {
        let (events, after, rest) = drain(d.fed(pieces[0]));
        if rest is Waiting {
            let later = drain_pieces(after, pieces.skip(1));
            (events + later.0, later.1, later.2)
        } else {
            (events, after, rest)
        }
    }
}

/// A wire's pieces put together again.
pub open spec fn together(pieces: Seq<Seq<u8>>) -> Seq<u8>
    decreases pieces.len(),
{
    if pieces.len() == 0 {
        Seq::empty()
    } else {
        pieces[0] + together(pieces.skip(1))
    }
}

/// Once everything ready has been taken there is nothing more to take.
proof fn lemma_drained(d: DemuxV)
    requires
        d.wf(),
        !d.eof,
        drain(d).2 is Waiting,
    ensures
        drain(drain(d).1) == (Seq::<Seen>::empty(), drain(d).1, Rest::Waiting),
    decreases d.buf.len(), weight(d),
{
    lemma_next_goes_down(d);
    lemma_next_wf(d);
    match next(d) {
        (after, Ok(Some(event))) => {
            lemma_drained(after);
        },
        (after, _) => {
            lemma_waiting_waits(d);
        },
    }
}

/// How the bytes arrive changes nothing: the same stream fed whole, a byte at
/// a time or in any pieces sees the same events in the same order, and ends
/// the same way, unless a piece left more waiting than may wait.
pub proof fn lemma_pieces(d: DemuxV, pieces: Seq<Seq<u8>>)
    requires
        d.wf(),
        !d.eof,
        d.pos + d.buf.len() + together(pieces).len() <= u64::MAX,
        !(drain_pieces(d, pieces).2 matches Rest::Failed(error) && overfull(error)),
    ensures
        drain(d.fed(together(pieces))).0 == drain_pieces(d, pieces).0,
        drain(d.fed(together(pieces))).2 == drain_pieces(d, pieces).2,
        drain_pieces(d, pieces).2 is Waiting ==> drain(d.fed(together(pieces))).1 == drain_pieces(
            d,
            pieces,
        ).1,
    decreases pieces.len(),
{
    if pieces.len() == 0 {
        lemma_fed_nothing(d);
    } else {
        let first = pieces[0];
        let others = together(pieces.skip(1));
        let (events, after, rest) = drain(d.fed(first));
        lemma_fed_twice(d, first, others);
        lemma_drain_extends(d.fed(first), others);
        lemma_drain_wf(d.fed(first));
        if rest is Waiting {
            lemma_pieces(after, pieces.skip(1));
        }
    }
}

/// A wire that is read never errors for having been cut short: every cut of
/// it waits for more, unless what it left waiting is more than may wait.
pub proof fn lemma_truncation_waits(d: DemuxV, wire: Seq<u8>, cut: int)
    requires
        d.wf(),
        !d.eof,
        d.pos + d.buf.len() + wire.len() <= u64::MAX,
        0 <= cut <= wire.len(),
        drain(d.fed(wire)).2 is Waiting,
    ensures
        match drain(d.fed(wire.take(cut))).2 {
            Rest::Waiting => true,
            Rest::Ended => false,
            Rest::Failed(error) => overfull(error),
        },
{
    assert(wire.take(cut) + wire.skip(cut) =~= wire);
    lemma_fed_twice(d, wire.take(cut), wire.skip(cut));
    lemma_drain_extends(d.fed(wire.take(cut)), wire.skip(cut));
}

/// Filling a frame where it lies is feeding the same bytes: a reader that
/// writes some bytes at the front of the room a frame has left, and says how
/// many, is answered as one that fed them.
pub proof fn lemma_filled_is_fed(d: DemuxV, bytes: Seq<u8>)
    requires
        d.wf(),
        d.buf.len() == 0,
        d.state matches State::Payload { want, filled, .. } && bytes.len() <= want - filled,
    ensures
        ({
            let filled_by_hand = match d.state {
                State::Payload { stream, packet, want, filled } => DemuxV {
                    payload: d.filled_with(bytes),
                    pos: d.pos + bytes.len(),
                    state: State::Payload {
                        stream,
                        packet,
                        want,
                        filled: (filled + bytes.len()) as usize,
                    },
                    ..d
                },
                _ => d,
            };
            next(filled_by_hand) == next(d.fed(bytes))
        }),
{
    if let State::Payload { stream, packet, want, filled } = d.state {
        let by_hand = DemuxV {
            payload: d.filled_with(bytes),
            pos: d.pos + bytes.len(),
            state: State::Payload {
                stream,
                packet,
                want,
                filled: (filled + bytes.len()) as usize,
            },
            ..d
        };
        let fed = d.fed(bytes);
        let n = bytes.len() as int;
        assert(fed.buf =~= bytes);
        assert(fed.buf.take(n) =~= bytes);
        assert(fed.buf.skip(n) =~= Seq::empty());
        assert(by_hand.buf.skip(0) =~= Seq::empty());
        assert(by_hand.buf.take(0) =~= Seq::empty());
        assert(overlaid(by_hand.payload, by_hand.fill_from(), Seq::empty()) =~= by_hand.payload);
        assert(step(by_hand) == step(fed));
    }
}

// What ends, and what stays ended.

/// Once the input has ended every call answers that it has.
pub proof fn lemma_end_is_sticky(d: DemuxV)
    requires
        next(d).1 == Ok::<Option<EventV>, ErrorV>(Some(EventV::EndOfInput)),
        d.wf(),
    ensures
        next(d).0.state is Ended,
        next(next(d).0) == (next(d).0, Ok::<Option<EventV>, ErrorV>(Some(EventV::EndOfInput))),
    decreases d.buf.len(), rank(d.state),
{
    reveal(unit_step);
    lemma_step_goes_down(d);
    lemma_step_wf(d);
    if let Step::Go(after) = step(d) {
        lemma_end_is_sticky(after);
    }
}

/// Once there are no more bytes coming the parser never waits for some: it
/// says what is there, that the input has ended, or what it stopped in the
/// middle of.
pub proof fn lemma_finished_never_waits(d: DemuxV)
    requires
        d.eof,
    ensures
        !(next(d).1 matches Ok(None)),
        next(d).0.eof,
    decreases d.buf.len(), rank(d.state),
{
    reveal(unit_step);
    lemma_step_goes_down(d);
    if let Step::Go(after) = step(d) {
        lemma_finished_never_waits(after);
    }
}

/// A stream that was refused is refused again, for the same reason: nothing
/// here hunts for a place to carry on from.
pub proof fn lemma_refusal_is_sticky(d: DemuxV)
    requires
        d.wf(),
        next(d).1 is Err,
    ensures
        next(next(d).0) == next(d),
    decreases d.buf.len(), rank(d.state),
{
    lemma_step_goes_down(d);
    lemma_step_wf(d);
    match step(d) {
        Step::Go(after) => {
            lemma_refusal_is_sticky(after);
        },
        Step::Stop(after, outcome) => {
            match d.state {
                State::Unit => {
                    lemma_unit_refused(d);
                },
                State::Skip { .. } => {
                    assert(after.buf =~= Seq::empty());
                    assert(after.buf.skip(0) =~= after.buf);
                    assert(step(after) == step(d));
                },
                State::Payload { .. } => {
                    assert(after.buf =~= Seq::empty());
                    assert(after.buf.skip(0) =~= after.buf);
                    assert(after.buf.take(0) =~= Seq::empty());
                    assert(overlaid(after.payload, after.fill_from(), Seq::empty())
                        =~= after.payload);
                    assert(step(after) == step(d));
                },
                _ => {},
            }
        },
    }
}

/// A parser that refuses a packet or a frame has not moved.
proof fn lemma_unit_refused(d: DemuxV)
    ensures
        unit_step(d) matches Step::Stop(after, Err(_)) ==> after == d,
{
    reveal(unit_step);
}

/// A frame is announced once all of it is there: the parser is at a packet
/// boundary behind it.
pub proof fn lemma_frame_is_whole(d: DemuxV)
    ensures
        next(d).1 matches Ok(Some(EventV::Frame { .. })) ==> next(d).0.state is Unit,
    decreases d.buf.len(), rank(d.state),
{
    lemma_step_goes_down(d);
    if d.state is Unit {
        lemma_unit_makes_no_frame(d);
    }
    if let Step::Go(after) = step(d) {
        lemma_frame_is_whole(after);
    }
}

proof fn lemma_unit_makes_no_frame(d: DemuxV)
    ensures
        !(unit_step(d) matches Step::Stop(_, Ok(Some(EventV::Frame { .. })))),
{
    reveal(unit_step);
}

/// What is announced of a frame is what is on the wire: where a frame's header
/// is read and all of its payload is there, it is the next event, of the stream
/// and with the timestamps its header gives, and the payload is the elided
/// prefix its header names and then its bytes off the wire. The parser is at
/// the packet boundary behind it.
pub proof fn lemma_payload_is_the_frame(d: DemuxV, head: FrameHead, len: int)
    requires
        d.wf(),
        d.state is Unit,
        d.known.headers_done,
        d.buf.len() > 0,
        d.buf[0] != STARTCODE_BYTE,
        frame_head(d.buf, d.pos, d.known, d.ceilings, d.limits.max_frame) == Ok::<
            (FrameHead, int),
            Halt,
        >((head, len)),
        !flagged(head.flags, flags::EOR),
        ({
            let prefix = d.known.main->Some_0.elision[head.header_idx as int];
            len + head.size - prefix.len() <= d.buf.len()
        }),
    ensures
        ({
            let prefix = d.known.main->Some_0.elision[head.header_idx as int];
            let end = len + head.size - prefix.len();
            let known = known_after_frame(d.known, head);
            next(d) == (
                DemuxV {
                    buf: d.buf.skip(end),
                    pos: d.pos + end,
                    known,
                    payload: prefix + d.buf.subrange(len, end),
                    ..d
                },
                Ok::<Option<EventV>, ErrorV>(
                    Some(
                        EventV::Frame {
                            stream: head.stream,
                            packet: Packet {
                                pts: head.pts,
                                dts: known.clocks[head.stream as int].pts_buffer[0],
                                keyframe: flagged(head.flags, flags::KEY),
                            },
                        },
                    ),
                ),
            )
        }),
{
    reveal(unit_step);
    lemma_frame_head(d.buf, d.pos, d.known, d.ceilings, d.limits.max_frame);
    let prefix = d.known.main->Some_0.elision[head.header_idx as int];
    let on_wire = head.size - prefix.len();
    let end = len + on_wire;
    let begun = after_head(d, head, len);
    assert(step(d) == Step::Go(begun));
    assert(begun.buf.take(on_wire) =~= d.buf.subrange(len, end));
    assert(begun.buf.skip(on_wire) =~= d.buf.skip(end));
    assert(begun.filled_with(begun.buf.take(on_wire)) =~= prefix + d.buf.subrange(len, end));
    assert(next(d) == next(begun));
}

/// At every frame the header section is over, and every declared stream has
/// its header.
pub proof fn lemma_frames_follow_headers(d: DemuxV)
    requires
        d.wf(),
        d.state is Payload ==> d.known.headers_done,
    ensures
        next(d).1 matches Ok(Some(EventV::Frame { .. })) ==> next(d).0.known.headers_done
            && next(d).0.known.complete(),
        next(d).0.state is Payload ==> next(d).0.known.headers_done,
{
    lemma_next_wf(d);
    lemma_frames_headed(d);
}

proof fn lemma_frames_headed(d: DemuxV)
    requires
        d.wf(),
        d.state is Payload ==> d.known.headers_done,
    ensures
        next(d).1 matches Ok(Some(EventV::Frame { .. })) ==> next(d).0.known.headers_done,
        next(d).0.state is Payload ==> next(d).0.known.headers_done,
    decreases d.buf.len(), rank(d.state),
{
    reveal(unit_step);
    lemma_step_goes_down(d);
    lemma_step_wf(d);
    if let Step::Go(after) = step(d) {
        lemma_frames_headed(after);
    }
}

/// The end of the header section is announced once: only where it had not
/// been, and it stands announced after.
pub proof fn lemma_headers_end_once(d: DemuxV)
    requires
        d.wf(),
        next(d).1 == Ok::<Option<EventV>, ErrorV>(Some(EventV::EndOfHeaders)),
    ensures
        !d.known.headers_done,
        next(d).0.known.headers_done,
    decreases d.buf.len(), rank(d.state),
{
    reveal(unit_step);
    lemma_step_goes_down(d);
    lemma_step_wf(d);
    if let Step::Go(after) = step(d) {
        lemma_headers_end_once(after);
    }
}

} // verus!
