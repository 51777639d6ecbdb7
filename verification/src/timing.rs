//! The timestamps the frames of one stream come with.

use vstd::prelude::*;

use crate::arrival::{drain, lemma_next_goes_down, seen, weight, Seen};
use crate::clock::{after_frames, landed, lemma_first_frame, lemma_landed, seed};
use crate::demux::{
    lemma_next_wf, lemma_step_goes_down, lemma_step_wf, next, rank, step, unit_step, DemuxV, State,
    Step,
};
use crate::event::EventV;

verus! {

/// Whether an event leaves the reorder buffer of a stream to its frames: no
/// main header that declares another number of streams than `count`, and no
/// header of the stream that changes how deep it reorders.
pub open spec fn leaves_order(event: EventV, count: nat, index: int, depth: nat) -> bool {
    match event {
        EventV::MainHeader(header) => header.stream_count == count,
        EventV::StreamHeader { index: i, stream } => i == index ==> stream.decode_delay + 1 == depth,
        _ => true,
    }
}

/// The reorder buffer of a stream once an event has come.
pub open spec fn order_after(buffer: Seq<Option<i64>>, index: int, event: EventV) -> Seq<
    Option<i64>,
> {
    match event {
        EventV::Frame { stream, packet } => if stream == index {
            landed(buffer, packet.pts)
        } else {
            buffer
        },
        _ => buffer,
    }
}

/// A frame being filled is announced as it is.
proof fn lemma_filling(d: DemuxV)
    requires
        d.wf(),
        d.state is Payload,
    ensures
        next(d).1 matches Ok(Some(event)) ==> {
            &&& d.state matches State::Payload { stream, packet, .. } && event == (EventV::Frame {
                stream,
                packet,
            })
            &&& next(d).0.known == d.known
            &&& next(d).0.state is Unit
        },
{
}

/// Each frame of a stream lands its PTS in the stream's reorder buffer and has
/// its DTS from there, and nothing else that leaves the buffer alone moves it.
pub proof fn lemma_next_lands(d: DemuxV, index: int)
    requires
        d.wf(),
        !(d.state is Payload),
        0 <= index < d.known.streams.len(),
    ensures
        next(d).1 matches Ok(Some(event)) ==> {
            let buffer = d.known.clocks[index].pts_buffer;
            let known = next(d).0.known;
            &&& !(next(d).0.state is Payload)
            &&& leaves_order(event, d.known.streams.len(), index, buffer.len()) ==> {
                &&& known.streams.len() == d.known.streams.len()
                &&& known.clocks[index].pts_buffer == order_after(buffer, index, event)
                &&& event matches EventV::Frame { stream, packet } ==> stream == index
                    ==> packet.dts == known.clocks[index].pts_buffer[0]
            }
        },
    decreases d.buf.len(), rank(d.state),
{
    reveal(unit_step);
    lemma_step_goes_down(d);
    lemma_step_wf(d);
    if let Step::Go(after) = step(d) {
        if after.state is Payload {
            lemma_filling(after);
        } else {
            lemma_next_lands(after, index);
        }
    }
}

/// The PTS values the frames of a stream come with, among some events.
pub open spec fn times_on(events: Seq<Seen>, index: int) -> Seq<i64>
    decreases events.len(),
{
    if events.len() == 0 {
        Seq::empty()
    } else {
        let rest = times_on(events.skip(1), index);
        match events[0].event {
            EventV::Frame { stream, packet } => if stream == index {
                seq![packet.pts] + rest
            } else {
                rest
            },
            _ => rest,
        }
    }
}

/// The DTS of every frame of a stream is what the reorder buffer settles on out
/// of the PTS values of the stream's frames up to its own, in the order they
/// came, whatever comes between them, as long as no header on the way changes
/// the streams or how deep this one reorders.
pub proof fn lemma_dts_of_each(d: DemuxV, index: int, j: int)
    requires
        d.wf(),
        !(d.state is Payload),
        0 <= index < d.known.streams.len(),
        0 <= j < drain(d).0.len(),
        drain(d).0[j].event matches EventV::Frame { stream, .. } && stream == index,
        forall|k: int|
            0 <= k < j ==> leaves_order(
                (#[trigger] drain(d).0[k]).event,
                d.known.streams.len(),
                index,
                d.known.clocks[index].pts_buffer.len(),
            ),
    ensures
        drain(d).0[j].event matches EventV::Frame { packet, .. } && packet.dts == after_frames(
            d.known.clocks[index].pts_buffer,
            times_on(drain(d).0.take(j + 1), index),
        )[0],
    decreases d.buf.len(), weight(d),
{
    lemma_next_goes_down(d);
    lemma_next_wf(d);
    lemma_next_lands(d, index);
    let events = drain(d).0;
    let buffer = d.known.clocks[index].pts_buffer;
    if let (after, Ok(Some(event))) = next(d) {
        assert(events[0] == seen(after, event));
        let upto = events.take(j + 1);
        assert(upto[0] == events[0]);
        if j == 0 {
            assert(upto.skip(1) =~= Seq::empty());
            let pts = event->Frame_packet.pts;
            assert(times_on(upto.skip(1), index) =~= Seq::empty());
            assert(times_on(upto, index) =~= seq![pts] + Seq::<i64>::empty());
            lemma_first_frame(buffer, pts, Seq::empty());
        } else if event != EventV::EndOfInput {
            let more = drain(after).0;
            assert(events[j] == more[j - 1]);
            assert(leaves_order(events[0].event, d.known.streams.len(), index, buffer.len()));
            let left = after.known.clocks[index].pts_buffer;
            assert(left.len() == buffer.len()) by {
                assert(d.known.clocks[index].wf());
                if event is Frame {
                    lemma_landed(buffer, event->Frame_packet.pts);
                }
            }
            assert forall|k: int| 0 <= k < j - 1 implies leaves_order(
                (#[trigger] more[k]).event,
                after.known.streams.len(),
                index,
                left.len(),
            ) by {
                assert(events[k + 1] == more[k]);
            }
            lemma_dts_of_each(after, index, j - 1);
            assert(upto.skip(1) =~= more.take(j));
            if let EventV::Frame { stream, packet } = event {
                if stream == index {
                    lemma_first_frame(buffer, packet.pts, times_on(more.take(j), index));
                }
            }
        }
    }
}

/// The header of a stream no frame of which has come seeds its reorder buffer,
/// as deep as it reorders.
pub proof fn lemma_first_header_seeds(d: DemuxV, index: usize)
    requires
        d.wf(),
        index < d.known.streams.len(),
        d.known.clocks[index as int].pts_buffer == seed(1),
        next(d).1 matches Ok(Some(EventV::StreamHeader { index: i, .. })) && i == index,
        !(d.state is Payload),
    ensures
        next(d).1 matches Ok(Some(EventV::StreamHeader { stream, .. }))
            && next(d).0.known.clocks[index as int].pts_buffer == seed(
            (stream.decode_delay + 1) as nat,
        ),
    decreases d.buf.len(), rank(d.state),
{
    reveal(unit_step);
    lemma_step_goes_down(d);
    lemma_step_wf(d);
    if let Step::Go(after) = step(d) {
        if after.state is Payload {
            lemma_filling(after);
        } else {
            lemma_first_header_seeds(after, index);
        }
    }
}

} // verus!
