//! What holds over any run of calls a consumer makes of the parser: bytes fed,
//! frames filled where they lie, limits set, events taken and the input
//! closed, in any order.

use vstd::prelude::*;

use crate::arrival::{
    lemma_frame_is_whole, lemma_frames_follow_headers, lemma_headers_end_once, seen, Seen,
};
use crate::demux::{
    lemma_next_wf, lemma_step_goes_down, lemma_step_wf, next, rank, smaller, step, unit_step,
    with_ceiling, DemuxV, Limits, State, Step,
};
use crate::event::EventV;
use crate::order::{
    declared_after, declared_anew, declared_before, ended_before, header_before, is_header_of,
    lemma_declared_alike, lemma_next_declares, lemma_next_unannounced, lemma_next_without_main,
    main_before, needs_main,
};

verus! {

/// One call of the parser that changes it.
pub enum Call {
    /// Some bytes off the wire.
    Feed(Seq<u8>),
    /// There are no more bytes coming.
    Finish,
    /// A ceiling on one stream's frames.
    Limit { stream: usize, max_frame: u64 },
    /// The room a frame being read has left, written over.
    Write(Seq<u8>),
    /// How much of that room was filled.
    Filled(usize),
    /// The payload of a frame taken.
    Take,
    /// The next event.
    Next,
}

/// Whether a call may be made.
pub open spec fn may_call(d: DemuxV, call: Call) -> bool {
    match call {
        Call::Feed(bytes) => d.pos + d.buf.len() + bytes.len() <= u64::MAX,
        Call::Finish => true,
        Call::Limit { stream, .. } => stream < usize::MAX,
        Call::Write(bytes) => d.state is Payload && d.buf.len() == 0 ==> bytes.len()
            == d.payload.len() - d.fill_from(),
        Call::Filled(count) => match d.state {
            State::Payload { want, filled, .. } => d.pos + d.buf.len() + smaller(
                count as int,
                want - filled,
            ) <= u64::MAX,
            _ => true,
        },
        Call::Take => !(d.state is Payload),
        Call::Next => true,
    }
}

/// The parser once a call has been made.
pub open spec fn called(d: DemuxV, call: Call) -> DemuxV {
    match call {
        Call::Feed(bytes) => d.fed(bytes),
        Call::Finish => d.finished(),
        Call::Limit { stream, max_frame } => DemuxV {
            ceilings: with_ceiling(d.ceilings, stream as int, max_frame),
            ..d
        },
        Call::Write(bytes) => if d.state is Payload && d.buf.len() == 0 {
            DemuxV { payload: d.payload.take(d.fill_from()) + bytes, ..d }
        } else {
            d
        },
        Call::Filled(count) => match d.state {
            State::Payload { stream, packet, want, filled } => {
                let more = smaller(count as int, want - filled);
                DemuxV {
                    pos: d.pos + more,
                    state: State::Payload { stream, packet, want, filled: (filled + more) as usize },
                    ..d
                }
            },
            _ => d,
        },
        Call::Take => DemuxV { payload: Seq::empty(), ..d },
        Call::Next => next(d).0,
    }
}

/// The parser once some calls have been made.
pub open spec fn after_calls(d: DemuxV, calls: Seq<Call>) -> DemuxV
    decreases calls.len(),
{
    if calls.len() == 0 {
        d
    } else {
        called(after_calls(d, calls.drop_last()), calls.last())
    }
}

/// Whether some calls may be made, each where those ahead of it have left the
/// parser.
pub open spec fn may_make(d: DemuxV, calls: Seq<Call>) -> bool
    decreases calls.len(),
{
    calls.len() > 0 ==> {
        &&& may_make(d, calls.drop_last())
        &&& may_call(after_calls(d, calls.drop_last()), calls.last())
    }
}

/// All the events some calls give, in the order they come.
pub open spec fn events_of(d: DemuxV, calls: Seq<Call>) -> Seq<Seen>
    decreases calls.len(),
{
    if calls.len() == 0 {
        Seq::empty()
    } else {
        let prior = events_of(d, calls.drop_last());
        match (calls.last(), next(after_calls(d, calls.drop_last()))) {
            (Call::Next, (after, Ok(Some(event)))) => prior.push(seen(after, event)),
            _ => prior,
        }
    }
}

/// A call that may be made keeps a demuxer well formed.
pub proof fn lemma_called_wf(d: DemuxV, call: Call)
    requires
        d.wf(),
        may_call(d, call),
    ensures
        called(d, call).wf(),
{
    if call is Next {
        lemma_next_wf(d);
    }
}

/// So do any number of them.
pub proof fn lemma_calls_wf(d: DemuxV, calls: Seq<Call>)
    requires
        d.wf(),
        may_make(d, calls),
    ensures
        after_calls(d, calls).wf(),
    decreases calls.len(),
{
    if calls.len() > 0 {
        lemma_calls_wf(d, calls.drop_last());
        lemma_called_wf(after_calls(d, calls.drop_last()), calls.last());
    }
}

// The order events come in.

/// Whether some events come in order: no stream header, syncpoint, end of the
/// headers or frame before the first main header; the end of the headers
/// behind a header for every stream declared there, each since the number of
/// streams was last declared anew; a second end only behind a main header that
/// declares them anew; and no frame before the end of the headers.
pub open spec fn in_order(events: Seq<Seen>) -> bool {
    &&& forall|j: int|
        0 <= j < events.len() && needs_main((#[trigger] events[j]).event) ==> main_before(events, j)
    &&& forall|j: int, index: int|
        0 <= j < events.len() && (#[trigger] events[j]).event is EndOfHeaders && 0 <= index
            < declared_before(0, events, j) ==> #[trigger] header_before(0, events, index, j)
    &&& forall|i: int, j: int|
        0 <= i < j < events.len() && (#[trigger] events[i]).event is EndOfHeaders && (
        #[trigger] events[j]).event is EndOfHeaders ==> declared_anew(0, events, i + 1, j)
    &&& forall|j: int|
        0 <= j < events.len() && (#[trigger] events[j]).event is Frame ==> ended_before(events, j)
}

/// What a parser knows of the events it has given.
spec fn tied(events: Seq<Seen>, d: DemuxV) -> bool {
    let n = events.len() as int;
    &&& d.known.streams.len() == declared_before(0, events, n)
    &&& forall|i: int|
        0 <= i < d.known.streams.len() && #[trigger] d.known.streams[i] is Some ==> header_before(
            0,
            events,
            i,
            n,
        )
    &&& d.known.main is Some ==> main_before(events, n)
    &&& d.known.headers_done ==> ended_before(events, n)
    &&& !d.known.headers_done ==> forall|k: int|
        0 <= k < n && (#[trigger] events[k]).event is EndOfHeaders ==> declared_anew(
            0,
            events,
            k + 1,
            n,
        )
    &&& d.state is Payload ==> d.known.headers_done
}

/// What is declared ahead of a place is a matter of the events ahead of it.
proof fn lemma_declared_prefix(events: Seq<Seen>, last: Seen, to: int)
    requires
        0 <= to <= events.len(),
    ensures
        declared_before(0, events.push(last), to) == declared_before(0, events, to),
    decreases to,
{
    if to > 0 {
        lemma_declared_prefix(events, last, to - 1);
    }
}

proof fn lemma_anew_prefix(events: Seq<Seen>, last: Seen, from: int, to: int)
    requires
        0 <= from,
        to <= events.len(),
    ensures
        declared_anew(0, events.push(last), from, to) == declared_anew(0, events, from, to),
{
    let all = events.push(last);
    if declared_anew(0, events, from, to) {
        let k = choose|k: int|
            from <= k < to && {
                let before = declared_before(0, events, k);
                (#[trigger] events[k]).event is MainHeader && declared_after(before, events[k].event)
                    != before
            };
        lemma_declared_prefix(events, last, k);
        assert(all[k] == events[k]);
    }
    if declared_anew(0, all, from, to) {
        let k = choose|k: int|
            from <= k < to && {
                let before = declared_before(0, all, k);
                (#[trigger] all[k]).event is MainHeader && declared_after(before, all[k].event)
                    != before
            };
        lemma_declared_prefix(events, last, k);
        assert(all[k] == events[k]);
    }
}

/// A header ahead of a place stays ahead of it, and of the next where nothing
/// is declared anew between.
proof fn lemma_header_prefix(events: Seq<Seen>, last: Seen, index: int, to: int)
    requires
        0 <= to <= events.len(),
        header_before(0, events, index, to),
    ensures
        header_before(0, events.push(last), index, to),
        to == events.len() && declared_after(declared_before(0, events, to), last.event)
            == declared_before(0, events, to) ==> header_before(
            0,
            events.push(last),
            index,
            to + 1,
        ),
{
    let all = events.push(last);
    let k = choose|k: int|
        0 <= k < to && is_header_of((#[trigger] events[k]).event, index) && !declared_anew(
            0,
            events,
            k + 1,
            to,
        );
    assert(all[k] == events[k]);
    lemma_anew_prefix(events, last, k + 1, to);
    if to == events.len() && declared_after(declared_before(0, events, to), last.event)
        == declared_before(0, events, to) {
        if declared_anew(0, all, k + 1, to + 1) {
            let m = choose|m: int|
                k + 1 <= m < to + 1 && {
                    let before = declared_before(0, all, m);
                    (#[trigger] all[m]).event is MainHeader && declared_after(before, all[m].event)
                        != before
                };
            lemma_declared_prefix(events, last, to);
            assert(m < to);
            assert(declared_anew(0, all, k + 1, to));
        }
    }
}

/// Where no event comes of it, asking for one leaves what is known of the
/// streams as it was.
proof fn lemma_next_quiet(d: DemuxV)
    requires
        d.wf(),
    ensures
        !(next(d).1 matches Ok(Some(_))) ==> {
            &&& next(d).0.known.streams == d.known.streams
            &&& next(d).0.known.main == d.known.main
            &&& next(d).0.known.headers_done == d.known.headers_done
        },
    decreases d.buf.len(), rank(d.state),
{
    reveal(unit_step);
    lemma_step_goes_down(d);
    lemma_step_wf(d);
    if let Step::Go(after) = step(d) {
        lemma_next_quiet(after);
    }
}

/// Events in order stay in order with one more that the parser gives.
proof fn lemma_one_more(events: Seq<Seen>, d: DemuxV)
    requires
        d.wf(),
        in_order(events),
        tied(events, d),
        next(d).1 matches Ok(Some(_)),
    ensures
        ({
            let event = next(d).1->Ok_0->Some_0;
            let all = events.push(seen(next(d).0, event));
            in_order(all) && tied(all, next(d).0)
        }),
{
    let after = next(d).0;
    let event = next(d).1->Ok_0->Some_0;
    let last = seen(after, event);
    let all = events.push(last);
    let n = events.len() as int;
    let count = d.known.streams.len();
    lemma_next_wf(d);
    lemma_next_declares(d);
    lemma_frames_follow_headers(d);
    lemma_declared_prefix(events, last, n);
    if !d.known.headers_done {
        lemma_next_unannounced(d);
    }
    if d.known.main is None {
        lemma_next_without_main(d);
    }
    if event is EndOfHeaders {
        lemma_headers_end_once(d);
    }
    assert(all[n] == last);
    assert(declared_before(0, all, n + 1) == declared_after(count, event));
    lemma_one_more_tied(events, d);
    assert forall|j: int| 0 <= j < all.len() && needs_main((#[trigger] all[j]).event) implies main_before(
        all,
        j,
    ) by {
        if j < n {
            assert(events[j] == all[j]);
        }
        let k = choose|k: int| 0 <= k < j && (#[trigger] events[k]).event is MainHeader;
        assert(all[k] == events[k]);
    }
    assert forall|j: int, index: int|
        0 <= j < all.len() && (#[trigger] all[j]).event is EndOfHeaders && 0 <= index
            < declared_before(0, all, j) implies #[trigger] header_before(0, all, index, j) by {
        lemma_declared_prefix(events, last, j);
        if j < n {
            assert(events[j] == all[j]);
            assert(header_before(0, events, index, j));
        } else {
            assert(after.known.streams[index] is Some);
            assert(d.known.streams[index] is Some);
        }
        lemma_header_prefix(events, last, index, j);
    }
    assert forall|i: int, j: int|
        0 <= i < j < all.len() && (#[trigger] all[i]).event is EndOfHeaders && (
        #[trigger] all[j]).event is EndOfHeaders implies declared_anew(0, all, i + 1, j) by {
        assert(events[i] == all[i]);
        if j < n {
            assert(events[j] == all[j]);
        }
        lemma_anew_prefix(events, last, i + 1, j);
    }
    assert forall|j: int| 0 <= j < all.len() && (#[trigger] all[j]).event is Frame implies ended_before(
        all,
        j,
    ) by {
        if j < n {
            assert(events[j] == all[j]);
        }
        let k = choose|k: int| 0 <= k < j && (#[trigger] events[k]).event is EndOfHeaders;
        assert(all[k] == events[k]);
    }
}

/// The parser knows of one more event that it gives.
proof fn lemma_one_more_tied(events: Seq<Seen>, d: DemuxV)
    requires
        d.wf(),
        tied(events, d),
        next(d).1 matches Ok(Some(_)),
    ensures
        tied(events.push(seen(next(d).0, next(d).1->Ok_0->Some_0)), next(d).0),
{
    let after = next(d).0;
    let event = next(d).1->Ok_0->Some_0;
    let last = seen(after, event);
    let all = events.push(last);
    let n = events.len() as int;
    let count = d.known.streams.len();
    lemma_next_declares(d);
    lemma_frames_follow_headers(d);
    lemma_declared_prefix(events, last, n);
    assert(all[n] == last);
    assert(declared_before(0, all, n + 1) == declared_after(count, event));
    if !d.known.headers_done {
        lemma_next_unannounced(d);
    }
    if d.known.main is None {
        lemma_next_without_main(d);
    }
    assert forall|i: int|
        0 <= i < after.known.streams.len() && #[trigger] after.known.streams[i] is Some implies header_before(
        0,
        all,
        i,
        n + 1,
    ) by {
        if is_header_of(event, i) {
            assert(is_header_of(all[n].event, i));
        } else {
            assert(d.known.streams[i] is Some);
            lemma_header_prefix(events, last, i, n);
        }
    }
    if after.known.main is Some {
        if d.known.main is Some {
            let k = choose|k: int| 0 <= k < n && (#[trigger] events[k]).event is MainHeader;
            assert(all[k] == events[k]);
        } else {
            assert(all[n].event is MainHeader);
        }
    }
    if after.known.headers_done {
        if d.known.headers_done {
            let k = choose|k: int| 0 <= k < n && (#[trigger] events[k]).event is EndOfHeaders;
            assert(all[k] == events[k]);
        } else {
            assert(all[n].event is EndOfHeaders);
        }
    } else {
        assert forall|k: int|
            0 <= k < n + 1 && (#[trigger] all[k]).event is EndOfHeaders implies declared_anew(
            0,
            all,
            k + 1,
            n + 1,
        ) by {
            if k == n {
                lemma_headers_end_once(d);
            } else if d.known.headers_done {
                assert(all[n].event is MainHeader);
            } else {
                assert(events[k] == all[k]);
                lemma_anew_prefix(events, last, k + 1, n);
                let m = choose|m: int|
                    k + 1 <= m < n && {
                        let before = declared_before(0, all, m);
                        (#[trigger] all[m]).event is MainHeader && declared_after(
                            before,
                            all[m].event,
                        ) != before
                    };
                assert(k + 1 <= m < n + 1 && all[m].event is MainHeader);
            }
        }
    }
}

proof fn lemma_calls_in_order(limits: Limits, calls: Seq<Call>)
    requires
        may_make(DemuxV::fresh(limits), calls),
    ensures
        in_order(events_of(DemuxV::fresh(limits), calls)),
        tied(events_of(DemuxV::fresh(limits), calls), after_calls(DemuxV::fresh(limits), calls)),
    decreases calls.len(),
{
    let fresh = DemuxV::fresh(limits);
    assert(fresh.known.wf());
    if calls.len() > 0 {
        let prior = calls.drop_last();
        let d = after_calls(fresh, prior);
        lemma_calls_in_order(limits, prior);
        lemma_calls_wf(fresh, prior);
        if calls.last() is Next {
            if next(d).1 matches Ok(Some(_)) {
                lemma_one_more(events_of(fresh, prior), d);
            } else {
                lemma_next_quiet(d);
                lemma_frames_follow_headers(d);
            }
        }
    }
}

/// Whatever a wire holds, however it is handed over, and whether or not the
/// input is closed behind it, the events come in order.
pub proof fn lemma_events_in_order(limits: Limits, calls: Seq<Call>)
    requires
        may_make(DemuxV::fresh(limits), calls),
    ensures
        in_order(events_of(DemuxV::fresh(limits), calls)),
{
    lemma_calls_in_order(limits, calls);
}

/// Where every main header of a wire states as many streams, the end of its
/// header section comes once at most, however the wire is handed over.
pub proof fn lemma_ends_once(limits: Limits, calls: Seq<Call>, count: nat, i: int, j: int)
    requires
        may_make(DemuxV::fresh(limits), calls),
        forall|k: int|
            0 <= k < events_of(DemuxV::fresh(limits), calls).len() ==> ((
            #[trigger] events_of(DemuxV::fresh(limits), calls)[k]).event matches EventV::MainHeader(
                header,
            ) ==> header.stream_count == count),
        0 <= i < events_of(DemuxV::fresh(limits), calls).len(),
        0 <= j < events_of(DemuxV::fresh(limits), calls).len(),
        events_of(DemuxV::fresh(limits), calls)[i].event is EndOfHeaders,
        events_of(DemuxV::fresh(limits), calls)[j].event is EndOfHeaders,
    ensures
        i == j,
    decreases
            if i > j {
                1nat
            } else {
                0nat
            },
{
    if i > j {
        lemma_ends_once(limits, calls, count, j, i);
    } else if i < j {
        let events = events_of(DemuxV::fresh(limits), calls);
        lemma_calls_in_order(limits, calls);
        assert(main_before(events, i));
        let m = choose|m: int| 0 <= m < i && (#[trigger] events[m]).event is MainHeader;
        assert(declared_anew(0, events, i + 1, j));
        let k = choose|k: int|
            i + 1 <= k < j && {
                let before = declared_before(0, events, k);
                (#[trigger] events[k]).event is MainHeader && declared_after(before, events[k].event)
                    != before
            };
        assert(0 <= m < k && events[m].event is MainHeader);
        lemma_declared_alike(events, count, k);
        assert(events[k].event matches EventV::MainHeader(header) ==> header.stream_count == count);
    }
}

// The payload.

/// An announced payload stands until the next event is asked for, or it is
/// taken, whatever else is called meanwhile.
pub proof fn lemma_payload_stands(d: DemuxV, calls: Seq<Call>)
    requires
        next(d).1 matches Ok(Some(EventV::Frame { .. })),
        forall|i: int|
            0 <= i < calls.len() ==> !((#[trigger] calls[i]) is Next) && !(calls[i] is Take),
    ensures
        after_calls(next(d).0, calls).payload == next(d).0.payload,
        after_calls(next(d).0, calls).state == next(d).0.state,
    decreases calls.len(),
{
    lemma_frame_is_whole(d);
    if calls.len() > 0 {
        let prior = calls.drop_last();
        assert forall|i: int| 0 <= i < prior.len() implies !((#[trigger] prior[i]) is Next) && !(
        prior[i] is Take) by {
            assert(prior[i] == calls[i]);
        }
        lemma_payload_stands(d, prior);
        assert(!(calls[calls.len() - 1] is Next));
    }
}

} // verus!
