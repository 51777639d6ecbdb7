//! The two front ends over one parser: what a reader of one media stream hands
//! over is what the parser announces.

use vstd::prelude::*;

use crate::arrival::{
    drain, lemma_end_is_sticky, lemma_finished_never_waits, lemma_frame_is_whole,
    lemma_next_goes_down, seen, weight, Rest, Seen,
};
use crate::demux::{
    lemma_next_wf, lemma_step_goes_down, next, rank, step, unit_step, DemuxV, Limits, Step,
};
use crate::error::ErrorV;
use crate::event::EventV;
use crate::order::lemma_next_unannounced;
use crate::portions::{
    lemma_opened_whole, lemma_packet_whole, lemma_reads_whole, placed, spared_throughout, whole,
};
use crate::read::{
    begun, frame_read, headers_read, loaded, may_hide_config, opened, opening_event, packet_read,
    primed, DemuxerV, Opening, ReaderV,
};
use crate::session::{past_read, past_reads};
use crate::stream::Packet;
use crate::ANNOTATION_STREAM_ID;

verus! {

// What is in the frame a consumer has had does not matter.

/// Whether two demuxers are one but for the frame a consumer has had.
spec fn alike(a: DemuxV, b: DemuxV) -> bool {
    &&& (DemuxV { payload: b.payload, ..a }) == b
    &&& a.state is Payload ==> a == b
}

proof fn lemma_step_alike(a: DemuxV, b: DemuxV)
    requires
        alike(a, b),
    ensures
        match step(a) {
            Step::Go(after) => step(b) matches Step::Go(other) && alike(after, other),
            Step::Stop(after, outcome) => step(b) matches Step::Stop(other, same) && same == outcome
                && alike(after, other) && (outcome matches Ok(Some(EventV::Frame { .. })) ==> after
                == other),
        },
{
    reveal(unit_step);
    if let Step::Go(after) = step(a) {
        if let Step::Go(other) = step(b) {
            assert((DemuxV { payload: other.payload, ..after }) =~= other);
        }
    }
    if let Step::Stop(after, _) = step(a) {
        if let Step::Stop(other, _) = step(b) {
            assert((DemuxV { payload: other.payload, ..after }) =~= other);
        }
    }
}

proof fn lemma_next_alike(a: DemuxV, b: DemuxV)
    requires
        alike(a, b),
    ensures
        next(a).1 == next(b).1,
        alike(next(a).0, next(b).0),
        next(a).1 matches Ok(Some(EventV::Frame { .. })) ==> next(a).0 == next(b).0,
    decreases a.buf.len(), rank(a.state),
{
    lemma_step_alike(a, b);
    lemma_step_goes_down(a);
    lemma_step_goes_down(b);
    if let Step::Go(after) = step(a) {
        if let Step::Go(other) = step(b) {
            lemma_next_alike(after, other);
        }
    }
}

proof fn lemma_drain_alike(a: DemuxV, b: DemuxV)
    requires
        alike(a, b),
    ensures
        drain(a).0 == drain(b).0,
        drain(a).2 == drain(b).2,
    decreases a.buf.len(), weight(a),
{
    lemma_next_alike(a, b);
    lemma_next_goes_down(a);
    if let (after, Ok(Some(event))) = next(a) {
        assert(seen(after, event) =~= seen(next(b).0, event));
        if event != EventV::EndOfInput {
            lemma_drain_alike(after, next(b).0);
        }
    }
}

// One frame.

/// The frames among some events, each with its payload.
pub open spec fn frames_of(events: Seq<Seen>) -> Seq<(Packet, Seq<u8>)>
    decreases events.len(),
{
    if events.len() == 0 {
        Seq::empty()
    } else {
        let rest = frames_of(events.skip(1));
        match events[0].event {
            EventV::Frame { packet, .. } => seq![(packet, events[0].payload)] + rest,
            _ => rest,
        }
    }
}

/// Whether an event is one a reader of one media stream goes on from: no
/// header, and no rows.
pub open spec fn plain(event: EventV) -> bool {
    match event {
        EventV::MainHeader(_) => false,
        EventV::StreamHeader { .. } => false,
        EventV::Frame { stream, .. } => stream != ANNOTATION_STREAM_ID,
        _ => true,
    }
}

/// Whether all of some events are such.
pub open spec fn all_plain(events: Seq<Seen>) -> bool {
    forall|i: int| 0 <= i < events.len() ==> plain((#[trigger] events[i]).event)
}

/// What a reader is answered once there are no more frames.
pub open spec fn answer(rest: Rest) -> Result<Option<Packet>, ErrorV> {
    match rest {
        Rest::Failed(error) => Err(error),
        _ => Ok(None),
    }
}

/// A reader hands over the next frame the parser announces, or its end.
proof fn lemma_next_frame_is_read(r: ReaderV, d: DemuxV)
    requires
        d.wf(),
        d.eof,
        all_plain(drain(d).0),
    ensures
        ({
            let (events, _, rest) = drain(d);
            let frames = frames_of(events);
            let (reader, core, ahead, outcome) = frame_read(r, d, Seq::empty());
            &&& ahead.len() == 0
            &&& reader == r
            &&& core.wf()
            &&& core.eof
            &&& outcome == Ok::<Option<Packet>, ErrorV>(None) ==> core.state is Ended
            &&& frames.len() == 0 ==> outcome == answer(rest)
            &&& frames.len() > 0 ==> {
                &&& outcome == Ok::<Option<Packet>, ErrorV>(Some(frames[0].0))
                &&& core.payload == frames[0].1
                &&& !(core.state is Payload)
                &&& all_plain(drain(core).0)
                &&& frames_of(drain(core).0) == frames.skip(1)
                &&& drain(core).2 == rest
            }
        }),
    decreases d.buf.len(), weight(d),
{
    lemma_next_goes_down(d);
    lemma_next_wf(d);
    lemma_frame_is_whole(d);
    lemma_finished_never_waits(d);
    let events = drain(d).0;
    if let (after, Ok(Some(event))) = next(d) {
        assert(events[0] == seen(after, event));
        assert(plain(events[0].event));
        if event == EventV::EndOfInput {
            lemma_end_is_sticky(d);
            assert(events.skip(1) =~= Seq::empty());
            assert(frames_of(events.skip(1)) =~= Seq::empty());
        } else {
            let more = drain(after).0;
            assert(events.skip(1) =~= more);
            assert forall|i: int| 0 <= i < more.len() implies plain((#[trigger] more[i]).event) by {
                assert(events[i + 1] == more[i]);
            }
            if event is Frame {
                assert(frames_of(events).skip(1) =~= frames_of(more));
            } else {
                lemma_next_frame_is_read(r, after);
            }
        }
    }
}

// All of them.

/// Whether reads give some frames and then an answer.
pub open spec fn reads_give(d: DemuxerV, frames: Seq<(Packet, Seq<u8>)>, last: Result<
    Option<Packet>,
    ErrorV,
>) -> bool {
    &&& forall|n: int|
        0 <= n < frames.len() ==> {
            let (_, bytes, outcome) = packet_read(
                #[trigger] past_reads(d, n as nat),
                Seq::empty(),
            );
            outcome == Ok::<Option<Packet>, ErrorV>(Some(frames[n].0)) && bytes == frames[n].1
        }
    &&& packet_read(past_reads(d, frames.len()), Seq::empty()).2 == last
}

proof fn lemma_frames_are_read(d: DemuxerV)
    requires
        d.first is None,
        d.ahead == Seq::<u8>::empty(),
        !d.reader.strip,
        d.core.wf(),
        d.core.eof,
        all_plain(drain(d.core).0),
    ensures
        reads_give(d, frames_of(drain(d.core).0), answer(drain(d.core).2)),
    decreases frames_of(drain(d.core).0).len(),
{
    let frames = frames_of(drain(d.core).0);
    let last = answer(drain(d.core).2);
    lemma_next_frame_is_read(d.reader, d.core);
    if frames.len() > 0 {
        let core = frame_read(d.reader, d.core, d.ahead).1;
        let after = past_read(d);
        assert(after.core == (DemuxV { payload: Seq::empty(), ..core }));
        assert(after.ahead =~= Seq::empty());
        assert((DemuxV { payload: core.payload, ..after.core }) =~= core);
        lemma_drain_alike(after.core, core);
        lemma_frames_are_read(after);
        let rest = frames.skip(1);
        assert forall|n: int| 0 <= n < frames.len() implies {
            let (_, bytes, outcome) = packet_read(
                #[trigger] past_reads(d, n as nat),
                Seq::empty(),
            );
            outcome == Ok::<Option<Packet>, ErrorV>(Some(frames[n].0)) && bytes == frames[n].1
        } by {
            if n > 0 {
                assert(past_reads(d, n as nat) == past_reads(after, (n - 1) as nat));
                assert(rest[n - 1] == frames[n]);
            }
        }
        assert(past_reads(d, frames.len()) == past_reads(after, rest.len()));
    }
}

// From the first byte.

/// Whether no header comes behind the end of the header section, and no rows
/// come at all.
pub open spec fn one_media_stream(events: Seq<Seen>) -> bool {
    forall|i: int, j: int|
        0 <= i < j < events.len() && (#[trigger] events[i]).event is EndOfHeaders ==> plain(
            (#[trigger] events[j]).event,
        )
}

/// What opening a wire consumed of its events holds no frame.
proof fn lemma_headers_hold_no_frame(o: Opening, d: DemuxV)
    requires
        d.wf(),
        !d.known.headers_done,
        !(d.state is Payload),
        d.eof,
        headers_read(o, d, Seq::empty()).3 is Ok,
        one_media_stream(drain(d).0),
    ensures
        ({
            let (_, core, ahead, _) = headers_read(o, d, Seq::empty());
            &&& ahead.len() == 0
            &&& all_plain(drain(core).0)
            &&& frames_of(drain(core).0) == frames_of(drain(d).0)
            &&& drain(core).2 == drain(d).2
            &&& core.wf()
            &&& core.eof
        }),
    decreases d.buf.len(), weight(d),
{
    lemma_next_goes_down(d);
    lemma_next_wf(d);
    lemma_next_unannounced(d);
    lemma_finished_never_waits(d);
    let events = drain(d).0;
    if let (after, Ok(Some(event))) = next(d) {
        assert(events[0] == seen(after, event));
        if event == EventV::EndOfInput {
            lemma_end_is_sticky(d);
            let again = drain(after).0;
            assert(again =~= events);
            assert(events.skip(1) =~= Seq::empty());
            assert(frames_of(events.skip(1)) =~= Seq::empty());
        } else {
            let more = drain(after).0;
            assert(events.skip(1) =~= more);
            if event is EndOfHeaders {
                assert forall|i: int| 0 <= i < more.len() implies plain(
                    (#[trigger] more[i]).event,
                ) by {
                    assert(events[i + 1] == more[i]);
                    assert(events[0].event is EndOfHeaders);
                }
            } else {
                assert forall|i: int, j: int|
                    0 <= i < j < more.len() && (#[trigger] more[i]).event is EndOfHeaders implies plain(
                    (#[trigger] more[j]).event,
                ) by {
                    assert(events[i + 1] == more[i]);
                    assert(events[j + 1] == more[j]);
                }
                if let Ok((seen, over)) = opening_event(o, event) {
                    assert(!over);
                    lemma_headers_hold_no_frame(seen, after);
                }
            }
        }
    }
}

/// Looking at the first packet changes nothing that is read, unless a config
/// is found there.
proof fn lemma_primed_reads(d: DemuxerV)
    requires
        d.first is None,
        d.ahead == Seq::<u8>::empty(),
        !d.reader.strip,
        d.core.wf(),
        d.core.eof,
        all_plain(drain(d.core).0),
        primed(d) matches Ok(after) && !after.reader.strip,
    ensures
        reads_give(primed(d)->Ok_0, frames_of(drain(d.core).0), answer(drain(d.core).2)),
{
    let frames = frames_of(drain(d.core).0);
    let last = answer(drain(d.core).2);
    let after = primed(d)->Ok_0;
    lemma_frames_are_read(d);
    lemma_next_frame_is_read(d.reader, d.core);
    assert(past_reads(d, 0) == d);
    if may_hide_config(d.reader.stream) {
        if frames.len() == 0 {
            assert(last == Ok::<Option<Packet>, ErrorV>(None));
            assert(next(after.core).1 == Ok::<Option<EventV>, ErrorV>(Some(EventV::EndOfInput)));
        } else {
            assert(packet_read(after, Seq::empty()) == packet_read(d, Seq::empty()));
            assert forall|n: int| 0 <= n < frames.len() implies {
                let (_, bytes, outcome) = packet_read(
                    #[trigger] past_reads(after, n as nat),
                    Seq::empty(),
                );
                outcome == Ok::<Option<Packet>, ErrorV>(Some(frames[n].0)) && bytes == frames[n].1
            } by {
                let other = past_reads(d, n as nat);
                if n > 0 {
                    assert(past_reads(after, n as nat) == other);
                }
            }
            assert(past_reads(after, frames.len()) == past_reads(d, frames.len()));
        }
    }
}

/// What reads give of a wire held whole they give of one that is fed in
/// portions, unless one of them found more waiting than may wait.
proof fn lemma_reads_give_in_portions(
    d: DemuxerV,
    frames: Seq<(Packet, Seq<u8>)>,
    last: Result<Option<Packet>, ErrorV>,
)
    requires
        placed(d),
        spared_throughout(d),
        reads_give(whole(d), frames, last),
    ensures
        reads_give(d, frames, last),
{
    assert forall|n: int| 0 <= n < frames.len() implies {
        let (_, bytes, outcome) = packet_read(#[trigger] past_reads(d, n as nat), Seq::empty());
        outcome == Ok::<Option<Packet>, ErrorV>(Some(frames[n].0)) && bytes == frames[n].1
    } by {
        let after = past_reads(d, n as nat);
        lemma_reads_whole(d, n as nat);
        lemma_packet_whole(after, Seq::empty());
        let _ = past_reads(whole(d), n as nat);
    }
    let after = past_reads(d, frames.len());
    lemma_reads_whole(d, frames.len());
    lemma_packet_whole(after, Seq::empty());
}

/// The two front ends read the same packets: a wire of one media stream that
/// opens hands over, one to a read, every frame the parser announces of it,
/// with the parser's bytes and the parser's timestamps, and then ends or fails
/// as the parser does. A wire that restates its headers or carries rows is
/// another matter, and so is one whose config was found in its packets, and one
/// a read of which finds more waiting than may wait: the parser alone is never
/// left waiting with a wire it holds whole.
pub proof fn lemma_front_ends_agree(wire: Seq<u8>, asked: bool, limits: Limits)
    requires
        wire.len() <= u64::MAX,
        opened(wire, asked, limits) matches Ok(d) && !d.reader.strip && spared_throughout(d),
        one_media_stream(drain(loaded(wire, asked, limits)).0),
    ensures
        ({
            let (events, _, rest) = drain(loaded(wire, asked, limits));
            opened(wire, asked, limits) matches Ok(d) && reads_give(
                d,
                frames_of(events),
                answer(rest),
            )
        }),
{
    let start = loaded(wire, asked, limits);
    assert(start.buf =~= wire);
    lemma_opened_whole(wire, asked, limits);
    let (o, core, ahead, outcome) = headers_read(Opening::spec_new(asked), start, Seq::empty());
    assert(start.known.wf());
    lemma_headers_hold_no_frame(Opening::spec_new(asked), start);
    assert(ahead =~= Seq::empty());
    let d = DemuxerV {
        core,
        ahead: Seq::empty(),
        reader: ReaderV::fresh(core.known.streams[0]->Some_0, o.annotations),
        first: None,
    };
    assert(begun(asked, start, Seq::empty()) == primed(d));
    lemma_primed_reads(d);
    let (events, _, rest) = drain(start);
    lemma_reads_give_in_portions(
        opened(wire, asked, limits)->Ok_0,
        frames_of(events),
        answer(rest),
    );
}

} // verus!
