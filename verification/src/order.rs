//! The order events come in: headers, the end of the headers, and only then
//! frames.

use vstd::prelude::*;

use crate::arrival::{drain, lemma_headers_end_once, lemma_next_goes_down, seen, weight, Seen};
use crate::demux::{
    lemma_next_wf, lemma_step_goes_down, lemma_step_wf, next, rank, step, unit_step, DemuxV, Limits,
    Step,
};
use crate::error::ErrorV;
use crate::event::EventV;
use crate::tables::STARTCODE_BYTE;

verus! {

/// No frame is announced until the end of the header section has been.
pub proof fn lemma_next_unannounced(d: DemuxV)
    requires
        d.wf(),
        !d.known.headers_done,
        !(d.state is Payload),
    ensures
        next(d).1 matches Ok(Some(event)) ==> {
            &&& !(event is Frame)
            &&& event is EndOfHeaders || !next(d).0.known.headers_done
            &&& !(next(d).0.state is Payload)
        },
    decreases d.buf.len(), rank(d.state),
{
    reveal(unit_step);
    lemma_step_goes_down(d);
    lemma_step_wf(d);
    if let Step::Go(after) = step(d) {
        lemma_next_unannounced(after);
    }
}

/// Where the end of the header section is announced, what follows is frames:
/// the next byte opens no packet, or there is none to come.
pub proof fn lemma_headers_end_at_frames(d: DemuxV)
    requires
        next(d).1 == Ok::<Option<EventV>, ErrorV>(Some(EventV::EndOfHeaders)),
    ensures
        next(d).0.buf.len() > 0 ==> next(d).0.state is Unit && next(d).0.buf[0] != STARTCODE_BYTE,
        next(d).0.buf.len() == 0 ==> next(d).0.state is Ended,
    decreases d.buf.len(), rank(d.state),
{
    reveal(unit_step);
    lemma_step_goes_down(d);
    if let Step::Go(after) = step(d) {
        lemma_headers_end_at_frames(after);
    }
}

/// How many streams are declared once an event has come.
pub open spec fn declared_after(count: nat, event: EventV) -> nat {
    match event {
        EventV::MainHeader(header) => header.stream_count as nat,
        _ => count,
    }
}

/// Whether an event is the header of a stream.
pub open spec fn is_header_of(event: EventV, index: int) -> bool {
    event matches EventV::StreamHeader { index: i, .. } && i == index
}

/// What one event does to what is declared: a main header that declares
/// another number of streams forgets their headers, a stream header is known
/// from then on, and nothing else changes which are.
pub proof fn lemma_next_declares(d: DemuxV)
    requires
        d.wf(),
    ensures
        next(d).1 matches Ok(Some(event)) ==> {
            let count = d.known.streams.len();
            let known = next(d).0.known;
            &&& known.streams.len() == declared_after(count, event)
            &&& d.known.headers_done && declared_after(count, event) == count
                ==> known.headers_done
            &&& event is EndOfHeaders ==> known.complete()
            &&& forall|i: int|
                0 <= i < known.streams.len() && #[trigger] known.streams[i] is Some ==> {
                    ||| is_header_of(event, i)
                    ||| declared_after(count, event) == count && d.known.streams[i] is Some
                }
        },
    decreases d.buf.len(), rank(d.state),
{
    reveal(unit_step);
    lemma_step_goes_down(d);
    lemma_step_wf(d);
    if let Step::Go(after) = step(d) {
        assert(after.known.streams == d.known.streams);
        assert(after.known.headers_done == d.known.headers_done);
        lemma_next_declares(after);
    }
}

/// How many streams are declared ahead of a place among some events.
pub open spec fn declared_before(count: nat, events: Seq<Seen>, to: int) -> nat
    decreases to,
{
    if to <= 0 {
        count
    } else {
        declared_after(declared_before(count, events, to - 1), events[to - 1].event)
    }
}

/// Whether, between two places among some events, a main header declares
/// another number of streams than were declared.
pub open spec fn declared_anew(count: nat, events: Seq<Seen>, from: int, to: int) -> bool {
    exists|k: int|
        from <= k < to && {
            let before = declared_before(count, events, k);
            (#[trigger] events[k]).event is MainHeader && declared_after(before, events[k].event)
                != before
        }
}

/// Whether one of some events, ahead of a place, is the end of the headers.
pub open spec fn ended_before(events: Seq<Seen>, to: int) -> bool {
    exists|k: int| 0 <= k < to && (#[trigger] events[k]).event is EndOfHeaders
}

/// What is declared is counted the same from one event further on.
proof fn lemma_declared_shift(count: nat, events: Seq<Seen>, more: Seq<Seen>, to: int)
    requires
        events.len() == more.len() + 1,
        forall|i: int| 0 <= i < more.len() ==> events[i + 1] == #[trigger] more[i],
        0 <= to <= more.len(),
    ensures
        declared_before(count, events, to + 1) == declared_before(
            declared_after(count, events[0].event),
            more,
            to,
        ),
    decreases to,
{
    reveal_with_fuel(declared_before, 2);
    if to > 0 {
        lemma_declared_shift(count, events, more, to - 1);
        assert(events[to] == more[to - 1]);
    }
}

/// A header section that starts again behind the first of some events starts
/// again among all of them.
proof fn lemma_anew_shift(count: nat, events: Seq<Seen>, more: Seq<Seen>, from: int, to: int)
    requires
        events.len() == more.len() + 1,
        forall|i: int| 0 <= i < more.len() ==> events[i + 1] == #[trigger] more[i],
        0 <= from,
        to <= more.len(),
        declared_anew(declared_after(count, events[0].event), more, from, to),
    ensures
        declared_anew(count, events, from + 1, to + 1),
{
    let next_count = declared_after(count, events[0].event);
    let k = choose|k: int|
        from <= k < to && {
            let before = declared_before(next_count, more, k);
            (#[trigger] more[k]).event is MainHeader && declared_after(before, more[k].event)
                != before
        };
    lemma_declared_shift(count, events, more, k);
    assert(events[k + 1] == more[k]);
}

/// The other way round.
proof fn lemma_anew_unshift(count: nat, events: Seq<Seen>, more: Seq<Seen>, from: int, to: int)
    requires
        events.len() == more.len() + 1,
        forall|i: int| 0 <= i < more.len() ==> events[i + 1] == #[trigger] more[i],
        0 <= from,
        to <= more.len(),
        declared_anew(count, events, from + 1, to + 1),
    ensures
        declared_anew(declared_after(count, events[0].event), more, from, to),
{
    let k = choose|k: int|
        from + 1 <= k < to + 1 && {
            let before = declared_before(count, events, k);
            (#[trigger] events[k]).event is MainHeader && declared_after(before, events[k].event)
                != before
        };
    lemma_declared_shift(count, events, more, k - 1);
    assert(events[k] == more[k - 1]);
}

/// Once it has been announced, the end of the headers is announced again only
/// behind a main header that declares another number of streams.
proof fn lemma_no_second_end(d: DemuxV, j: int)
    requires
        d.wf(),
        d.known.headers_done,
        0 <= j < drain(d).0.len(),
        drain(d).0[j].event is EndOfHeaders,
    ensures
        declared_anew(d.known.streams.len(), drain(d).0, 0, j),
    decreases d.buf.len(), weight(d),
{
    lemma_next_goes_down(d);
    lemma_next_wf(d);
    lemma_next_declares(d);
    let events = drain(d).0;
    let count = d.known.streams.len();
    if let (after, Ok(Some(event))) = next(d) {
        assert(events[0].event == event);
        if event is EndOfHeaders {
            lemma_headers_end_once(d);
        } else if event != EventV::EndOfInput {
            let more = drain(after).0;
            assert(events[j] == more[j - 1]);
            if declared_after(count, event) != count {
                assert(declared_before(count, events, 0) == count);
                assert(events[0].event is MainHeader);
            } else {
                lemma_no_second_end(after, j - 1);
                lemma_anew_shift(count, events, more, 0, j - 1);
                let k = choose|k: int|
                    1 <= k < j && {
                        let before = declared_before(count, events, k);
                        (#[trigger] events[k]).event is MainHeader && declared_after(
                            before,
                            events[k].event,
                        ) != before
                    };
                assert(0 <= k < j && events[k].event is MainHeader);
            }
        }
    }
}

/// The header section ends once, unless a restated main header declares
/// another number of streams, which starts it again: between two announcements
/// that it has ended, there is such a main header.
pub proof fn lemma_headers_end_once_each(d: DemuxV, i: int, j: int)
    requires
        d.wf(),
        0 <= i < j < drain(d).0.len(),
        drain(d).0[i].event is EndOfHeaders,
        drain(d).0[j].event is EndOfHeaders,
    ensures
        declared_anew(d.known.streams.len(), drain(d).0, i + 1, j),
    decreases d.buf.len(), weight(d),
{
    lemma_next_goes_down(d);
    lemma_next_wf(d);
    let events = drain(d).0;
    let count = d.known.streams.len();
    if let (after, Ok(Some(event))) = next(d) {
        if event != EventV::EndOfInput {
            let more = drain(after).0;
            assert(events[0].event == event);
            assert(events[j] == more[j - 1]);
            lemma_next_declares(d);
            assert(after.known.streams.len() == declared_after(count, event));
            if i == 0 {
                lemma_headers_end_once(d);
                lemma_no_second_end(after, j - 1);
                lemma_anew_shift(count, events, more, 0, j - 1);
            } else {
                assert(events[i] == more[i - 1]);
                lemma_headers_end_once_each(after, i - 1, j - 1);
                lemma_anew_shift(count, events, more, i, j - 1);
            }
        }
    }
}

/// No frame comes before the end of the header section has been announced.
proof fn lemma_frame_behind_end(d: DemuxV, j: int)
    requires
        d.wf(),
        !d.known.headers_done,
        !(d.state is Payload),
        0 <= j < drain(d).0.len(),
        drain(d).0[j].event is Frame,
    ensures
        ended_before(drain(d).0, j),
    decreases d.buf.len(), weight(d),
{
    lemma_next_goes_down(d);
    lemma_next_wf(d);
    lemma_next_unannounced(d);
    let events = drain(d).0;
    if let (after, Ok(Some(event))) = next(d) {
        assert(events[0] == seen(after, event));
        if event is EndOfHeaders {
            assert(j > 0);
        } else if event != EventV::EndOfInput {
            let more = drain(after).0;
            assert(events[j] == more[j - 1]);
            lemma_frame_behind_end(after, j - 1);
            let k = choose|k: int| 0 <= k < j - 1 && (#[trigger] more[k]).event is EndOfHeaders;
            assert(events[k + 1] == more[k]);
        }
    }
}

/// A fresh demuxer with a wire fed, and the input closed behind it or not.
pub open spec fn started(limits: Limits, wire: Seq<u8>, closed: bool) -> DemuxV {
    let fed = DemuxV::fresh(limits).fed(wire);
    if closed {
        fed.finished()
    } else {
        fed
    }
}

/// Whatever a wire holds, no frame of it is announced before the end of its
/// header section is.
pub proof fn lemma_headers_end_before_frames(limits: Limits, wire: Seq<u8>, closed: bool, j: int)
    requires
        wire.len() <= u64::MAX,
        0 <= j < drain(started(limits, wire, closed)).0.len(),
        drain(started(limits, wire, closed)).0[j].event is Frame,
    ensures
        ended_before(drain(started(limits, wire, closed)).0, j),
{
    let d = started(limits, wire, closed);
    assert(d.known.wf());
    lemma_frame_behind_end(d, j);
}

/// Whether one of some events, ahead of a place and behind the last change in
/// how many streams are declared, is the header of a stream.
pub open spec fn header_before(count: nat, events: Seq<Seen>, index: int, to: int) -> bool {
    exists|k: int|
        0 <= k < to && is_header_of((#[trigger] events[k]).event, index) && !declared_anew(
            count,
            events,
            k + 1,
            to,
        )
}

/// At the end of the headers every declared stream has had its header, among
/// these events or ahead of them.
proof fn lemma_headers_ahead(d: DemuxV, j: int, index: int)
    requires
        d.wf(),
        0 <= j < drain(d).0.len(),
        drain(d).0[j].event is EndOfHeaders,
        0 <= index < declared_before(d.known.streams.len(), drain(d).0, j),
    ensures
        ({
            let count = d.known.streams.len();
            let events = drain(d).0;
            ||| header_before(count, events, index, j)
            ||| index < count && d.known.streams[index] is Some && !declared_anew(
                count,
                events,
                0,
                j,
            )
        }),
    decreases d.buf.len(), weight(d),
{
    lemma_next_goes_down(d);
    lemma_next_wf(d);
    lemma_next_declares(d);
    let events = drain(d).0;
    let count = d.known.streams.len();
    if let (after, Ok(Some(event))) = next(d) {
        assert(events[0] == seen(after, event));
        let now = declared_after(count, event);
        if j == 0 {
            assert(after.known.streams[index] is Some);
        } else if event != EventV::EndOfInput {
            let more = drain(after).0;
            assert(events[j] == more[j - 1]);
            lemma_declared_shift(count, events, more, j - 1);
            lemma_headers_ahead(after, j - 1, index);
            if header_before(now, more, index, j - 1) {
                let k = choose|k: int|
                    0 <= k < j - 1 && is_header_of((#[trigger] more[k]).event, index)
                        && !declared_anew(now, more, k + 1, j - 1);
                assert(events[k + 1] == more[k]);
                if declared_anew(count, events, k + 2, j) {
                    lemma_anew_unshift(count, events, more, k + 1, j - 1);
                }
            } else {
                assert(after.known.streams[index] is Some);
                if declared_anew(count, events, 1, j) {
                    lemma_anew_unshift(count, events, more, 0, j - 1);
                }
                if is_header_of(event, index) {
                    assert(is_header_of(events[0].event, index));
                } else if declared_anew(count, events, 0, j) {
                    let k = choose|k: int|
                        0 <= k < j && {
                            let before = declared_before(count, events, k);
                            (#[trigger] events[k]).event is MainHeader && declared_after(
                                before,
                                events[k].event,
                            ) != before
                        };
                    assert(k == 0);
                    assert(declared_before(count, events, 0) == count);
                }
            }
        }
    }
}

/// Whatever a wire holds, the end of its header section comes behind a header
/// for every stream that is declared there, each since the number of streams
/// was last declared anew.
pub proof fn lemma_streams_before_end(limits: Limits, wire: Seq<u8>, closed: bool, j: int, index: int)
    requires
        wire.len() <= u64::MAX,
        0 <= j < drain(started(limits, wire, closed)).0.len(),
        drain(started(limits, wire, closed)).0[j].event is EndOfHeaders,
        0 <= index < declared_before(0, drain(started(limits, wire, closed)).0, j),
    ensures
        header_before(0, drain(started(limits, wire, closed)).0, index, j),
{
    let d = started(limits, wire, closed);
    assert(d.known.wf());
    lemma_headers_ahead(d, j, index);
}

/// Whether an event is one that only a wire with a main header has.
pub open spec fn needs_main(event: EventV) -> bool {
    event is StreamHeader || event is Syncpoint || event is EndOfHeaders || event is Frame
}

/// Whether one of some events, ahead of a place, is a main header.
pub open spec fn main_before(events: Seq<Seen>, to: int) -> bool {
    exists|k: int| 0 <= k < to && (#[trigger] events[k]).event is MainHeader
}

/// Until there has been a main header none of those events comes.
pub proof fn lemma_next_without_main(d: DemuxV)
    requires
        d.wf(),
        d.known.main is None,
        !(d.state is Payload),
    ensures
        next(d).1 matches Ok(Some(event)) ==> {
            &&& !needs_main(event)
            &&& event is MainHeader || next(d).0.known.main is None
            &&& !(next(d).0.state is Payload)
        },
    decreases d.buf.len(), rank(d.state),
{
    reveal(unit_step);
    lemma_step_goes_down(d);
    lemma_step_wf(d);
    if let Step::Go(after) = step(d) {
        lemma_next_without_main(after);
    }
}

proof fn lemma_main_ahead(d: DemuxV, j: int)
    requires
        d.wf(),
        d.known.main is None,
        !(d.state is Payload),
        0 <= j < drain(d).0.len(),
        needs_main(drain(d).0[j].event),
    ensures
        main_before(drain(d).0, j),
    decreases d.buf.len(), weight(d),
{
    lemma_next_goes_down(d);
    lemma_next_wf(d);
    lemma_next_without_main(d);
    let events = drain(d).0;
    if let (after, Ok(Some(event))) = next(d) {
        assert(events[0] == seen(after, event));
        if event != EventV::EndOfInput && !(event is MainHeader) {
            let more = drain(after).0;
            assert(events[j] == more[j - 1]);
            lemma_main_ahead(after, j - 1);
            let k = choose|k: int| 0 <= k < j - 1 && (#[trigger] more[k]).event is MainHeader;
            assert(events[k + 1] == more[k]);
        }
    }
}

/// Whatever a wire holds, no stream header, syncpoint, end of the headers or
/// frame of it comes before its first main header.
pub proof fn lemma_main_header_first(limits: Limits, wire: Seq<u8>, closed: bool, j: int)
    requires
        wire.len() <= u64::MAX,
        0 <= j < drain(started(limits, wire, closed)).0.len(),
        needs_main(drain(started(limits, wire, closed)).0[j].event),
    ensures
        main_before(drain(started(limits, wire, closed)).0, j),
{
    let d = started(limits, wire, closed);
    assert(d.known.wf());
    lemma_main_ahead(d, j);
}

/// Once a main header has come, as many streams are declared as every main
/// header states, where they all state as many.
pub proof fn lemma_declared_alike(events: Seq<Seen>, count: nat, to: int)
    requires
        0 <= to <= events.len(),
        forall|k: int|
            0 <= k < events.len() ==> ((#[trigger] events[k]).event matches EventV::MainHeader(header)
                ==> header.stream_count == count),
        main_before(events, to),
    ensures
        declared_before(0, events, to) == count,
    decreases to,
{
    let k = choose|k: int| 0 <= k < to && (#[trigger] events[k]).event is MainHeader;
    if k < to - 1 {
        assert(main_before(events, to - 1));
        lemma_declared_alike(events, count, to - 1);
    }
    assert(events[to - 1].event matches EventV::MainHeader(header) ==> header.stream_count == count);
}

/// Where every main header of a wire states as many streams, the end of its
/// header section comes once at most.
pub proof fn lemma_one_end(limits: Limits, wire: Seq<u8>, closed: bool, count: nat, i: int, j: int)
    requires
        wire.len() <= u64::MAX,
        forall|k: int|
            0 <= k < drain(started(limits, wire, closed)).0.len() ==> ((
            #[trigger] drain(started(limits, wire, closed)).0[k]).event matches EventV::MainHeader(
                header,
            ) ==> header.stream_count == count),
        0 <= i < drain(started(limits, wire, closed)).0.len(),
        0 <= j < drain(started(limits, wire, closed)).0.len(),
        drain(started(limits, wire, closed)).0[i].event is EndOfHeaders,
        drain(started(limits, wire, closed)).0[j].event is EndOfHeaders,
    ensures
        i == j,
    decreases
            if i > j {
                1nat
            } else {
                0nat
            },
{
    if i > j {
        lemma_one_end(limits, wire, closed, count, j, i);
    } else if i < j {
        let d = started(limits, wire, closed);
        let events = drain(d).0;
        assert(d.known.wf());
        lemma_main_header_first(limits, wire, closed, i);
        lemma_headers_end_once_each(d, i, j);
        let m = choose|m: int| 0 <= m < i && (#[trigger] events[m]).event is MainHeader;
        let k = choose|k: int|
            i + 1 <= k < j && {
                let before = declared_before(0, events, k);
                (#[trigger] events[k]).event is MainHeader && declared_after(before, events[k].event)
                    != before
            };
        assert(0 <= m < k && events[m].event is MainHeader);
        lemma_declared_alike(events, count, k);
        assert(events[k].event matches EventV::MainHeader(header) ==> header.stream_count == count);
    }
}

} // verus!
