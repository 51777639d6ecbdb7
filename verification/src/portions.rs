//! A wire fed in portions, each when the parser asks for more, reads as the
//! same wire fed whole.

use vstd::prelude::*;

use crate::arrival::{lemma_finished_never_waits, lemma_step_extends, overfull, stuck, weight};
use crate::demux::{
    lemma_next_wf, lemma_step_goes_down, lemma_step_wf, next, overlaid, rank, step, unit_step,
    DemuxV, Limits, State, Step,
};
use crate::error::ErrorV;
use crate::event::EventV;
use crate::read::{
    begun, capped, frame_read, headers_read, lemma_pumped_frame_is_whole, lemma_pumped_goes_down,
    loaded, opened, opening_event, packet_read, portion, primed, pumped, reader_event, DemuxerV,
    Opening, ReaderV, Taken,
};
use crate::room::{lemma_never_overfull, roomy};
use crate::session::{past_read, past_reads};

verus! {

// The parser.

/// A parser with all that is left of its wire fed, and no more coming.
pub open spec fn settled(d: DemuxV, ahead: Seq<u8>) -> DemuxV {
    d.fed(ahead).finished()
}

/// Whether a parser is well formed with what is left of its wire: every place
/// in it can be named, and nothing is left once no more is coming.
pub open spec fn fed_from(d: DemuxV, ahead: Seq<u8>) -> bool {
    &&& d.wf()
    &&& d.eof ==> ahead.len() == 0
    &&& d.pos + d.buf.len() + ahead.len() <= u64::MAX
}

/// Whether nothing was refused for what was waiting.
pub open spec fn spared<T>(limits: Limits, outcome: Result<T, ErrorV>) -> bool {
    roomy(limits) || !(outcome matches Err(error) && overfull(error))
}

/// One step with no more bytes coming.
proof fn lemma_step_closes(d: DemuxV)
    requires
        d.wf(),
        !d.eof,
    ensures
        match step(d) {
            Step::Go(after) => step(d.finished()) == Step::Go(after.finished()) && !after.eof,
            Step::Stop(after, Ok(None)) => step(d.finished()) == step(after.finished())
                && !after.eof,
            Step::Stop(after, Ok(Some(event))) => step(d.finished()) == Step::Stop(
                after.finished(),
                Ok(Some(event)),
            ),
            Step::Stop(after, Err(error)) => !overfull(error) ==> step(d.finished()) == Step::Stop(
                after.finished(),
                Err(error),
            ),
        },
{
    reveal(unit_step);
    if let Step::Stop(after, Ok(None)) = step(d) {
        match d.state {
            State::Skip { .. } => {
                assert(after.buf =~= Seq::empty());
                assert(after.buf.skip(0) =~= after.buf);
            },
            State::Payload { .. } => {
                assert(after.buf =~= Seq::empty());
                assert(after.buf.skip(0) =~= after.buf);
                assert(after.buf.take(0) =~= Seq::empty());
                assert(overlaid(after.payload, after.fill_from(), Seq::empty()) =~= after.payload);
            },
            _ => {},
        }
    }
}

/// One step with all that is left fed and no more coming.
proof fn lemma_step_settles(d: DemuxV, more: Seq<u8>)
    requires
        fed_from(d, more),
        !d.eof,
    ensures
        match step(d) {
            Step::Go(after) => step(settled(d, more)) == Step::Go(settled(after, more)),
            Step::Stop(after, outcome) => if outcome matches Ok(None) {
                step(settled(after, more)) == step(settled(d, more))
            } else {
                !stuck(outcome) ==> step(settled(d, more)) == Step::Stop(
                    settled(after, more),
                    outcome,
                )
            },
        },
{
    lemma_step_extends(d, more);
    lemma_step_wf(d);
    lemma_step_closes(d.fed(more));
    if let Step::Stop(after, Ok(None)) = step(d) {
        match d.state {
            State::Unit => {
                reveal(unit_step);
            },
            _ => {
                lemma_step_closes(d);
                lemma_step_closes(after.fed(more));
            },
        }
    }
}

/// The next event with all that is left fed and no more coming: the same event
/// or error, and where the parser waited, what a parser that waits then has.
proof fn lemma_next_settles(d: DemuxV, more: Seq<u8>)
    requires
        fed_from(d, more),
        !d.eof,
    ensures
        match next(d) {
            (after, Ok(None)) => next(settled(after, more)) == next(settled(d, more)),
            (after, outcome) => !stuck(outcome) ==> next(settled(d, more)) == (
                settled(after, more),
                outcome,
            ),
        },
    decreases d.buf.len(), rank(d.state),
{
    lemma_step_goes_down(d);
    lemma_step_goes_down(settled(d, more));
    lemma_step_wf(d);
    lemma_step_settles(d, more);
    match step(d) {
        Step::Go(after) => {
            lemma_next_settles(after, more);
        },
        Step::Stop(after, _) => {
            lemma_step_goes_down(settled(after, more));
        },
    }
}

/// An event pumped out of a wire is the one all of the wire gives.
pub proof fn lemma_pumped_settles(d: DemuxV, ahead: Seq<u8>)
    requires
        fed_from(d, ahead),
    ensures
        ({
            let (after, left, outcome) = pumped(d, ahead);
            &&& fed_from(after, left)
            &&& after.limits == d.limits
            &&& spared(d.limits, outcome) ==> pumped(settled(d, ahead), Seq::empty()) == (
                settled(after, left),
                Seq::<u8>::empty(),
                outcome,
            )
        }),
    decreases
            ahead.len(),
            if d.eof {
                0nat
            } else {
                1nat
            },
{
    if d.eof {
        lemma_finished_never_waits(d);
    }
    lemma_finished_never_waits(settled(d, ahead));
    lemma_next_wf(d);
    let (after, outcome) = next(d);
    if roomy(d.limits) {
        lemma_never_overfull(d);
    }
    if d.eof {
        assert(settled(d, ahead) =~= d);
        assert(settled(after, ahead) =~= after);
    } else {
        lemma_next_settles(d, ahead);
        if outcome matches Ok(None) {
            lemma_finished_never_waits(settled(after, ahead));
            if ahead.len() == 0 {
                assert(settled(after.finished(), ahead) =~= settled(after, ahead));
                lemma_pumped_settles(after.finished(), ahead);
            } else {
                let count = portion(after, ahead);
                let more = after.fed(ahead.take(count));
                assert(settled(more, ahead.skip(count)) =~= settled(after, ahead)) by {
                    assert(after.buf + ahead.take(count) + ahead.skip(count) =~= after.buf + ahead);
                }
                lemma_pumped_settles(more, ahead.skip(count));
            }
        }
    }
}

// The reader.

/// The header section of a wire fed in portions is that of the wire fed whole.
proof fn lemma_headers_settle(o: Opening, d: DemuxV, ahead: Seq<u8>)
    requires
        fed_from(d, ahead),
    ensures
        ({
            let (seen, core, left, outcome) = headers_read(o, d, ahead);
            &&& fed_from(core, left)
            &&& core.limits == d.limits
            &&& spared(d.limits, outcome) ==> headers_read(o, settled(d, ahead), Seq::empty()) == (
                seen,
                settled(core, left),
                Seq::<u8>::empty(),
                outcome,
            )
        }),
    decreases d.buf.len() + ahead.len(), weight(d),
{
    lemma_pumped_goes_down(d, ahead);
    lemma_pumped_goes_down(settled(d, ahead), Seq::empty());
    lemma_pumped_settles(d, ahead);
    let (after, left, outcome) = pumped(d, ahead);
    if let Ok(event) = outcome {
        if let Ok((seen, over)) = opening_event(o, event) {
            if !over && event != EventV::EndOfInput {
                lemma_headers_settle(seen, after, left);
            }
        }
    }
}

/// The next frame of a wire fed in portions is that of the wire fed whole.
proof fn lemma_frame_settles(r: ReaderV, d: DemuxV, ahead: Seq<u8>)
    requires
        fed_from(d, ahead),
    ensures
        ({
            let (reader, core, left, outcome) = frame_read(r, d, ahead);
            &&& fed_from(core, left)
            &&& core.limits == d.limits
            &&& outcome matches Ok(Some(_)) ==> core.state is Unit
            &&& spared(d.limits, outcome) ==> frame_read(r, settled(d, ahead), Seq::empty()) == (
                reader,
                settled(core, left),
                Seq::<u8>::empty(),
                outcome,
            )
        }),
    decreases d.buf.len() + ahead.len(), weight(d),
{
    lemma_pumped_goes_down(d, ahead);
    lemma_pumped_goes_down(settled(d, ahead), Seq::empty());
    lemma_pumped_settles(d, ahead);
    lemma_pumped_frame_is_whole(d, ahead);
    let (after, left, outcome) = pumped(d, ahead);
    if let Ok(event) = outcome {
        if let Ok((taken, Taken::Nothing)) = reader_event(r, event, after.payload) {
            if event != EventV::EndOfInput {
                lemma_frame_settles(taken, after, left);
            }
        }
    }
}

/// A demuxer with all that is left of its wire fed.
pub open spec fn whole(d: DemuxerV) -> DemuxerV {
    DemuxerV { core: settled(d.core, d.ahead), ahead: Seq::empty(), ..d }
}

/// Whether a demuxer is well formed with what is left of its wire.
pub open spec fn placed(d: DemuxerV) -> bool {
    fed_from(d.core, d.ahead)
}

/// A packet read from a wire fed in portions is the one read from it whole.
pub proof fn lemma_packet_whole(d: DemuxerV, data: Seq<u8>)
    requires
        placed(d),
    ensures
        ({
            let (after, bytes, outcome) = packet_read(d, data);
            &&& placed(after)
            &&& after.core.limits == d.core.limits
            &&& spared(d.core.limits, outcome) ==> packet_read(whole(d), data) == (
                whole(after),
                bytes,
                outcome,
            )
        }),
{
    if d.first is None {
        lemma_frame_settles(d.reader, d.core, d.ahead);
        let (reader, core, left, outcome) = frame_read(d.reader, d.core, d.ahead);
        if outcome matches Ok(Some(_)) {
            let after = DemuxV { payload: Seq::empty(), ..core };
            assert(settled(after, left) == DemuxV { payload: Seq::empty(), ..settled(core, left) });
        }
    }
}

/// Looking at the first packet of a wire fed in portions is looking at that of
/// the wire fed whole.
proof fn lemma_primed_whole(d: DemuxerV)
    requires
        placed(d),
    ensures
        match primed(d) {
            Ok(after) => {
                &&& placed(after)
                &&& after.core.limits == d.core.limits
                &&& primed(whole(d)) == Ok::<DemuxerV, ErrorV>(whole(after))
            },
            Err(error) => spared(d.core.limits, primed(d)) ==> primed(whole(d)) == Err::<
                DemuxerV,
                ErrorV,
            >(error),
        },
{
    lemma_packet_whole(d, Seq::empty());
}

/// A wire opens in portions as it opens whole, unless it was refused for what
/// was waiting.
pub proof fn lemma_opened_whole(wire: Seq<u8>, asked: bool, limits: Limits)
    requires
        wire.len() <= u64::MAX,
    ensures
        match opened(wire, asked, limits) {
            Ok(d) => {
                &&& placed(d)
                &&& d.core.limits == limits
                &&& begun(asked, loaded(wire, asked, limits), Seq::empty()) == Ok::<
                    DemuxerV,
                    ErrorV,
                >(whole(d))
            },
            Err(error) => spared(limits, opened(wire, asked, limits)) ==> begun(
                asked,
                loaded(wire, asked, limits),
                Seq::empty(),
            ) == Err::<DemuxerV, ErrorV>(error),
        },
{
    let start = capped(asked, limits);
    assert(start.known.wf());
    lemma_headers_settle(Opening::spec_new(asked), start, wire);
    let (o, core, ahead, outcome) = headers_read(Opening::spec_new(asked), start, wire);
    if outcome is Ok && core.known.streams.len() > 0 && core.known.streams[0] is Some {
        lemma_primed_whole(
            DemuxerV {
                core,
                ahead,
                reader: ReaderV::fresh(core.known.streams[0]->Some_0, o.annotations),
                first: None,
            },
        );
    }
}

/// Whether no read of a demuxer is refused for what was waiting.
pub open spec fn spared_throughout(d: DemuxerV) -> bool {
    forall|n: nat|
        spared(d.core.limits, packet_read(#[trigger] past_reads(d, n), Seq::empty()).2)
}

/// Reads of a wire fed in portions leave what reads of it whole leave.
pub proof fn lemma_reads_whole(d: DemuxerV, n: nat)
    requires
        placed(d),
        spared_throughout(d),
    ensures
        placed(past_reads(d, n)),
        past_reads(d, n).core.limits == d.core.limits,
        past_reads(whole(d), n) == whole(past_reads(d, n)),
    decreases n,
{
    if n > 0 {
        assert(past_reads(d, 0) == d);
        lemma_packet_whole(d, Seq::empty());
        let after = past_read(d);
        assert(past_read(whole(d)) == whole(after));
        assert forall|m: nat| spared(
            after.core.limits,
            packet_read(#[trigger] past_reads(after, m), Seq::empty()).2,
        ) by {
            assert(past_reads(d, m + 1) == past_reads(after, m));
        }
        lemma_reads_whole(after, (n - 1) as nat);
    }
}

} // verus!
