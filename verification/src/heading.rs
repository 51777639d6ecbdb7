//! The headers the muxer writes, read to their end.

use vstd::prelude::*;

use crate::clock::seed;
use crate::demux::{next, unit_step, DemuxV, State, FILE_ID_LEN};
use crate::error::{ErrorV, Problem};
use crate::event::EventV;
use crate::info::{info_fields, Info};
use crate::known::{lemma_after_packet, KnownV};
use crate::mux::{
    annotation_stream, header_bytes, info_body, lemma_info_body_len, lemma_main_body_len,
    lemma_stream_body_len, main_body, packet_bytes, stream_body, unwritable, written_rate,
    FRAME_CODE,
};
use crate::portions::lemma_opened_whole;
use crate::read::{
    default_limits, headers_read, loaded, media_carried, opened, opening_event, DemuxerV, Opening,
};
use crate::room::lemma_default_is_roomy;
use crate::roundtrip::{
    lemma_known_at, lemma_next_packet, lemma_next_syncpoint, lined, one_base, past_headers, Piece,
};
use crate::stream::StreamV;
use crate::written::{
    explicit_code, lemma_info_reads, lemma_main_reads, lemma_stream_reads, readable, reads_frames,
    unrated,
};
use crate::{FILE_ID, INFO_STARTCODE, MAIN_STARTCODE, STREAM_STARTCODE};

verus! {

/// A stream as the muxer's headers say it: a frame rate that means nothing is
/// not written.
pub open spec fn rated(stream: StreamV) -> StreamV {
    StreamV { frame_rate: written_rate(stream), ..stream }
}

/// A stream the muxer declares, as its own header says it.
pub open spec fn declared(stream: StreamV, index: int) -> StreamV {
    if index == 0 {
        unrated(stream)
    } else {
        annotation_stream(stream)
    }
}

/// What is known once the main header and some of the stream headers the
/// muxer wrote have been read.
pub open spec fn described(known: KnownV, stream: StreamV, count: nat, read: nat) -> bool {
    &&& known.wf()
    &&& !known.headers_done
    &&& known.main is Some
    &&& known.main->Some_0.frame_codes[1] == explicit_code()
    &&& known.main->Some_0.elision == seq![Seq::<u8>::empty()]
    &&& known.main->Some_0.time_bases == seq![stream.time_base]
    &&& known.streams.len() == count
    &&& forall|i: int|
        0 <= i < count ==> #[trigger] known.streams[i] == if i < read {
            Some(declared(stream, i))
        } else {
            None
        }
    &&& forall|i: int|
        0 <= i < count ==> (#[trigger] known.clocks[i]).pts_buffer == if i == 0 && read > 0 {
            seed((stream.decode_delay + 1) as nat)
        } else {
            seed(1)
        }
}

/// The main header.
proof fn lemma_main_event(d: DemuxV, stream: StreamV, count: usize, rest: Seq<u8>)
    requires
        d.state is Unit,
        d.known == KnownV::nothing(),
        d.limits == default_limits(),
        1 <= count <= 2,
        stream.time_base.num > 0,
        stream.time_base.den > 0,
        d.buf == packet_bytes(MAIN_STARTCODE, main_body(count as nat, stream.time_base)) + rest,
    ensures
        ({
            let (after, outcome) = next(d);
            &&& outcome matches Ok(Some(EventV::MainHeader(header)))
            &&& header.stream_count == count
            &&& described(after.known, stream, count as nat, 0)
            &&& after == (DemuxV { buf: rest, pos: after.pos, known: after.known, ..d })
        }),
{
    let body = main_body(count as nat, stream.time_base);
    lemma_main_body_len(count as nat, stream.time_base);
    lemma_main_reads(count, stream.time_base, 16);
    lemma_after_packet(d.known, MAIN_STARTCODE, body, 16);
    let (known, event) = d.known.after_packet(MAIN_STARTCODE, body, 16)->Ok_0;
    assert(d.known.wf());
    lemma_next_packet(d, MAIN_STARTCODE, body, rest, known, event->Some_0);
}

/// A stream header.
proof fn lemma_stream_event(d: DemuxV, stream: StreamV, count: nat, index: usize, rest: Seq<u8>)
    requires
        d.state is Unit,
        d.limits == default_limits(),
        index < count,
        described(d.known, stream, count, index as nat),
        readable(declared(stream, index as int)),
        stream_body(index as nat, declared(stream, index as int)).len() + 4 <= 1048576,
        d.buf == packet_bytes(
            STREAM_STARTCODE,
            stream_body(index as nat, declared(stream, index as int)),
        ) + rest,
    ensures
        ({
            let (after, outcome) = next(d);
            &&& outcome == Ok::<Option<EventV>, ErrorV>(
                Some(EventV::StreamHeader { index, stream: declared(stream, index as int) }),
            )
            &&& described(after.known, stream, count, (index + 1) as nat)
            &&& after == (DemuxV { buf: rest, pos: after.pos, known: after.known, ..d })
        }),
{
    let said = declared(stream, index as int);
    let body = stream_body(index as nat, said);
    lemma_stream_reads(index, said, count);
    assert(unrated(said) =~= said);
    lemma_after_packet(d.known, STREAM_STARTCODE, body, 16);
    let known = d.known.with_stream(index as int, said);
    assert(known.clocks[index as int].pts_buffer == d.known.clocks[index as int].pts_buffer
        || known.clocks[index as int].pts_buffer == seed((said.decode_delay + 1) as nat));
    assert(seed(1).len() == 1);
    assert(seed((said.decode_delay + 1) as nat).len() == said.decode_delay + 1);
    lemma_next_packet(
        d,
        STREAM_STARTCODE,
        body,
        rest,
        known,
        EventV::StreamHeader { index, stream: said },
    );
}

/// What is known once all of the muxer's headers have been read.
pub open spec fn headed(known: KnownV, stream: StreamV, count: nat) -> bool {
    &&& reads_frames(known)
    &&& !known.headers_done
    &&& one_base(known, stream.time_base)
    &&& known.streams.len() == count
    &&& known.streams[0] == Some(rated(stream))
    &&& count == 2 ==> known.streams[1] == Some(annotation_stream(stream))
    &&& known.clocks[0].pts_buffer == seed((stream.decode_delay + 1) as nat)
}

/// The info packet that states the frame rate.
proof fn lemma_info_event(
    d: DemuxV,
    stream: StreamV,
    count: nat,
    num: u64,
    den: u64,
    rest: Seq<u8>,
)
    requires
        d.state is Unit,
        d.limits == default_limits(),
        1 <= count <= 2,
        stream.time_base.num > 0,
        stream.time_base.den > 0,
        described(d.known, stream, count, count),
        written_rate(stream) == Some((num, den)),
        d.buf == packet_bytes(INFO_STARTCODE, info_body(num, den)) + rest,
    ensures
        ({
            let (after, outcome) = next(d);
            &&& outcome matches Ok(Some(EventV::Info(_)))
            &&& headed(after.known, stream, count)
            &&& after == (DemuxV { buf: rest, pos: after.pos, known: after.known, ..d })
        }),
{
    let body = info_body(num, den);
    lemma_info_body_len(num, den);
    lemma_info_reads(num, den);
    lemma_after_packet(d.known, INFO_STARTCODE, body, 16);
    let (info, tags) = info_fields(body)->Some_0;
    let known = d.known.informed(info, tags);
    assert(d.known.streams[0] == Some(unrated(stream)));
    assert(known.streams[0] =~= Some(rated(stream)));
    if count == 2 {
        assert(d.known.streams[1] == Some(annotation_stream(stream)));
        assert(known.streams[1] == Some(annotation_stream(stream)));
    }
    lemma_next_packet(d, INFO_STARTCODE, body, rest, known, EventV::Info(info));
}

/// One event of the header section that is not its end.
proof fn lemma_head_step(o: Opening, d: DemuxV, seen: Opening)
    requires
        next(d).1 matches Ok(Some(event)) && event != EventV::EndOfInput && opening_event(o, event)
            == Ok::<(Opening, bool), ErrorV>((seen, false)),
    ensures
        headers_read(o, d, Seq::empty()) == headers_read(seen, next(d).0, Seq::empty()),
{
}

/// The event that ends the header section.
proof fn lemma_head_end(o: Opening, d: DemuxV)
    requires
        next(d).1 == Ok::<Option<EventV>, ErrorV>(Some(EventV::EndOfHeaders)),
    ensures
        headers_read(o, d, Seq::empty()) == (
            o,
            next(d).0,
            Seq::<u8>::empty(),
            Ok::<(), ErrorV>(()),
        ),
{
}

/// The identifier is stepped over on the way to the first event.
proof fn lemma_identified(o: Opening, d: DemuxV, rest: Seq<u8>)
    requires
        d.state is Identifier,
        d.eof,
        d.buf == FILE_ID@ + rest,
    ensures
        headers_read(o, d, Seq::empty()) == headers_read(
            o,
            DemuxV { state: State::Unit, buf: rest, pos: d.pos + FILE_ID_LEN, ..d },
            Seq::empty(),
        ),
{
    let after = DemuxV { state: State::Unit, buf: rest, pos: d.pos + FILE_ID_LEN, ..d };
    assert(FILE_ID@.len() == FILE_ID_LEN);
    assert(d.buf.take(FILE_ID_LEN as int) =~= FILE_ID@);
    assert(d.buf.skip(FILE_ID_LEN as int) =~= rest);
    assert(next(d) == next(after));
}

/// The header section is over at the first frame, behind the syncpoint ahead of
/// it, or where the wire ends.
#[verifier::rlimit(60)]
proof fn lemma_heading_over(
    o: Opening,
    d: DemuxV,
    stream: StreamV,
    annotated: bool,
    leads: Seq<bool>,
    pieces: Seq<Piece>,
)
    requires
        d.state is Unit,
        d.eof,
        d.limits == default_limits(),
        headed(
            d.known,
            stream,
            if annotated {
                2
            } else {
                1
            },
        ),
        d.buf == lined(stream.msb_pts_shift, leads, pieces),
        pieces.len() > 0 ==> leads.len() > 0 && leads[0] && pieces[0].pts >= 0,
    ensures
        ({
            let (seen, core, ahead, outcome) = headers_read(o, d, Seq::empty());
            &&& ahead.len() == 0
            &&& outcome is Ok
            &&& seen == o
            &&& core.known.streams == d.known.streams
            &&& core.known.clocks.len() == d.known.clocks.len()
            &&& core.known.clocks[0].pts_buffer == d.known.clocks[0].pts_buffer
            &&& core.ceilings == d.ceilings
            &&& core.limits == d.limits
            &&& pieces.len() == 0 ==> core.state is Ended
            &&& pieces.len() > 0 ==> {
                &&& past_headers(core, stream, annotated)
                &&& core.buf == lined(stream.msb_pts_shift, leads.update(0, false), pieces)
            }
        }),
{
    if pieces.len() == 0 {
        assert(next(d) == (
            DemuxV { state: State::Ended, known: d.known.ended(), ..d },
            Ok::<Option<EventV>, ErrorV>(Some(EventV::EndOfHeaders)),
        )) by {
            reveal(unit_step);
        }
        lemma_head_end(o, d);
    } else {
        let p = pieces[0];
        let less = leads.update(0, false);
        assert(less.skip(1) =~= leads.skip(1));
        let rest = lined(stream.msb_pts_shift, less, pieces);
        lemma_next_syncpoint(d, stream.time_base, p.pts, rest);
        lemma_known_at(d.known, p.pts);
        let mid = next(d).0;
        lemma_head_step(o, d, o);
        assert(mid.buf[0] == FRAME_CODE);
        assert(next(mid) == (
            DemuxV { known: mid.known.ended(), ..mid },
            Ok::<Option<EventV>, ErrorV>(Some(EventV::EndOfHeaders)),
        )) by {
            reveal(unit_step);
        }
        lemma_head_end(o, mid);
    }
}

/// A wire the muxer wrote opens: its headers say the stream it was written
/// from, and what is left of it is its frames.
pub proof fn lemma_heading_read(
    stream: StreamV,
    annotated: bool,
    asked: bool,
    leads: Seq<bool>,
    pieces: Seq<Piece>,
)
    requires
        unwritable(stream) is None,
        media_carried(stream) is Ok,
        annotated ==> asked,
        pieces.len() > 0 ==> leads.len() > 0 && leads[0] && pieces[0].pts >= 0,
    ensures
        ({
            let wire = header_bytes(stream, annotated) + lined(
                stream.msb_pts_shift,
                leads,
                pieces,
            );
            let start = loaded(wire, asked, default_limits());
            let (seen, core, ahead, outcome) = headers_read(
                Opening::spec_new(asked),
                start,
                Seq::empty(),
            );
            &&& ahead.len() == 0
            &&& outcome is Ok
            &&& seen.annotations == annotated
            &&& core.known.streams.len() == if annotated {
                2nat
            } else {
                1nat
            }
            &&& core.known.streams[0] == Some(rated(stream))
            &&& core.known.clocks.len() == core.known.streams.len()
            &&& core.known.clocks[0].pts_buffer == seed((stream.decode_delay + 1) as nat)
            &&& core.ceilings == start.ceilings
            &&& core.limits == start.limits
            &&& pieces.len() == 0 ==> core.state is Ended
            &&& pieces.len() > 0 ==> {
                &&& past_headers(core, stream, annotated)
                &&& core.buf == lined(stream.msb_pts_shift, leads.update(0, false), pieces)
            }
        }),
{
    let frames = lined(stream.msb_pts_shift, leads, pieces);
    let wire = header_bytes(stream, annotated) + frames;
    let d0 = loaded(wire, asked, default_limits());
    let count: usize = if annotated {
        2
    } else {
        1
    };
    let main = packet_bytes(MAIN_STARTCODE, main_body(count as nat, stream.time_base));
    let rest = behind_main(stream, annotated, frames);
    lemma_layout(stream, annotated, frames);
    assert(d0.buf =~= FILE_ID@ + (main + rest));
    let o0 = Opening::spec_new(asked);
    lemma_identified(o0, d0, main + rest);
    let d1 = DemuxV { state: State::Unit, buf: main + rest, pos: d0.pos + FILE_ID_LEN, ..d0 };
    lemma_main_event(d1, stream, count, rest);
    let o1 = Opening { declared: count, ..o0 };
    lemma_head_step(o0, d1, o1);
    lemma_streams_read(o1, next(d1).0, stream, annotated, leads, pieces);
}

/// The info packet that states the frame rate, where one is written.
pub open spec fn rate_packet(stream: StreamV) -> Seq<u8> {
    match written_rate(stream) {
        Some((num, den)) => packet_bytes(INFO_STARTCODE, info_body(num, den)),
        None => Seq::empty(),
    }
}

/// What follows the media stream's header, frames and all.
pub open spec fn behind_media(stream: StreamV, annotated: bool, frames: Seq<u8>) -> Seq<u8> {
    if annotated {
        packet_bytes(STREAM_STARTCODE, stream_body(1, annotation_stream(stream))) + (rate_packet(
            stream,
        ) + frames)
    } else {
        rate_packet(stream) + frames
    }
}

/// What follows the main header, frames and all.
pub open spec fn behind_main(stream: StreamV, annotated: bool, frames: Seq<u8>) -> Seq<u8> {
    packet_bytes(STREAM_STARTCODE, stream_body(0, unrated(stream))) + behind_media(
        stream,
        annotated,
        frames,
    )
}

/// The headers, one behind the other.
proof fn lemma_layout(stream: StreamV, annotated: bool, frames: Seq<u8>)
    ensures
        ({
            let count: nat = if annotated {
                2
            } else {
                1
            };
            header_bytes(stream, annotated) + frames == FILE_ID@ + (packet_bytes(
                MAIN_STARTCODE,
                main_body(count, stream.time_base),
            ) + behind_main(stream, annotated, frames))
        }),
{
    assert(stream_body(0, unrated(stream)) == stream_body(0, stream));
    let count: nat = if annotated {
        2
    } else {
        1
    };
    let main = packet_bytes(MAIN_STARTCODE, main_body(count, stream.time_base));
    let media = packet_bytes(STREAM_STARTCODE, stream_body(0, stream));
    let rows = packet_bytes(STREAM_STARTCODE, stream_body(1, annotation_stream(stream)));
    let rate = rate_packet(stream);
    let id = FILE_ID@;
    let between = if annotated {
        rows
    } else {
        Seq::empty()
    };
    lemma_one_behind_the_other(id, main, media, between, rate, frames);
    if annotated {
        assert(header_bytes(stream, annotated) + frames == id + main + media + between + rate
            + frames) by {
            if written_rate(stream) is None {
                assert(id + main + media + rows + rate =~= id + main + media + rows);
            }
        }
    } else {
        assert(header_bytes(stream, annotated) + frames == id + main + media + between + rate
            + frames) by {
            assert(id + main + media + between =~= id + main + media);
            if written_rate(stream) is None {
                assert(id + main + media + rate =~= id + main + media);
            }
        }
        assert(between + (rate + frames) =~= rate + frames);
    }
}

/// Where pieces of a wire are put together does not matter.
proof fn lemma_one_behind_the_other(
    a: Seq<u8>,
    b: Seq<u8>,
    c: Seq<u8>,
    d: Seq<u8>,
    e: Seq<u8>,
    f: Seq<u8>,
)
    ensures
        a + b + c + d + e + f == a + (b + (c + (d + (e + f)))),
{
    assert(a + b + c + d + e + f =~= a + (b + (c + (d + (e + f)))));
}

/// A stream the muxer takes, and the annotation stream beside it, have headers
/// a reader takes.
proof fn lemma_readable(stream: StreamV)
    requires
        unwritable(stream) is None,
    ensures
        readable(unrated(stream)),
        readable(annotation_stream(stream)),
        stream_body(0, unrated(stream)).len() + 4 <= 1048576,
        stream_body(1, annotation_stream(stream)).len() + 4 <= 1048576,
{
    assert(stream_body(0, unrated(stream)) =~= stream_body(0, stream));
    lemma_stream_body_len(1, annotation_stream(stream));
    crate::stream::lemma_codec_by_tag(unrated(stream), stream);
}

/// The headers behind the main header.
proof fn lemma_streams_read(
    o: Opening,
    d: DemuxV,
    stream: StreamV,
    annotated: bool,
    leads: Seq<bool>,
    pieces: Seq<Piece>,
)
    requires
        unwritable(stream) is None,
        media_carried(stream) is Ok,
        d.state is Unit,
        d.eof,
        d.limits == default_limits(),
        described(
            d.known,
            stream,
            if annotated {
                2
            } else {
                1
            },
            0,
        ),
        d.buf == behind_main(stream, annotated, lined(stream.msb_pts_shift, leads, pieces)),
        pieces.len() > 0 ==> leads.len() > 0 && leads[0] && pieces[0].pts >= 0,
        o == (Opening {
            asked: o.asked,
            declared: if annotated {
                2
            } else {
                1
            },
            headers: 0,
            media: false,
            annotations: false,
        }),
    ensures
        ({
            let (seen, core, ahead, outcome) = headers_read(o, d, Seq::empty());
            &&& ahead.len() == 0
            &&& outcome is Ok
            &&& seen.annotations == annotated
            &&& core.known.streams.len() == d.known.streams.len()
            &&& core.known.streams[0] == Some(rated(stream))
            &&& core.known.clocks.len() == core.known.streams.len()
            &&& core.known.clocks[0].pts_buffer == seed((stream.decode_delay + 1) as nat)
            &&& core.ceilings == d.ceilings
            &&& core.limits == d.limits
            &&& pieces.len() == 0 ==> core.state is Ended
            &&& pieces.len() > 0 ==> {
                &&& past_headers(core, stream, annotated)
                &&& core.buf == lined(stream.msb_pts_shift, leads.update(0, false), pieces)
            }
        }),
{
    let frames = lined(stream.msb_pts_shift, leads, pieces);
    let count: nat = if annotated {
        2
    } else {
        1
    };
    lemma_readable(stream);
    let rest = behind_media(stream, annotated, frames);
    lemma_stream_event(d, stream, count, 0, rest);
    let o2 = Opening { headers: 1, media: true, ..o };
    assert(media_carried(unrated(stream)) is Ok);
    lemma_head_step(o, d, o2);
    let d3 = next(d).0;
    let rate = rate_packet(stream);
    if annotated {
        lemma_stream_event(d3, stream, count, 1, rate + frames);
        let o3 = Opening { headers: 2, annotations: true, ..o2 };
        lemma_head_step(o2, d3, o3);
        lemma_rated(o3, next(d3).0, stream, annotated, rate, leads, pieces);
    } else {
        lemma_rated(o2, d3, stream, annotated, rate, leads, pieces);
    }
}

/// The end of the headers: the frame rate where one is written, and then the
/// frames.
proof fn lemma_rated(
    o: Opening,
    d: DemuxV,
    stream: StreamV,
    annotated: bool,
    rate: Seq<u8>,
    leads: Seq<bool>,
    pieces: Seq<Piece>,
)
    requires
        d.state is Unit,
        d.eof,
        d.limits == default_limits(),
        stream.time_base.num > 0,
        stream.time_base.den > 0,
        ({
            let count: nat = if annotated {
                2
            } else {
                1
            };
            described(d.known, stream, count, count)
        }),
        rate == rate_packet(stream),
        d.buf == rate + lined(stream.msb_pts_shift, leads, pieces),
        pieces.len() > 0 ==> leads.len() > 0 && leads[0] && pieces[0].pts >= 0,
    ensures
        ({
            let (seen, core, ahead, outcome) = headers_read(o, d, Seq::empty());
            &&& ahead.len() == 0
            &&& outcome is Ok
            &&& seen == o
            &&& core.known.streams.len() == d.known.streams.len()
            &&& core.known.streams[0] == Some(rated(stream))
            &&& core.known.clocks.len() == core.known.streams.len()
            &&& core.known.clocks[0].pts_buffer == seed((stream.decode_delay + 1) as nat)
            &&& core.ceilings == d.ceilings
            &&& core.limits == d.limits
            &&& pieces.len() == 0 ==> core.state is Ended
            &&& pieces.len() > 0 ==> {
                &&& past_headers(core, stream, annotated)
                &&& core.buf == lined(stream.msb_pts_shift, leads.update(0, false), pieces)
            }
        }),
{
    let count: nat = if annotated {
        2
    } else {
        1
    };
    let frames = lined(stream.msb_pts_shift, leads, pieces);
    match written_rate(stream) {
        Some((num, den)) => {
            lemma_info_event(d, stream, count, num, den, frames);
            lemma_head_step(o, d, o);
            lemma_heading_over(o, next(d).0, stream, annotated, leads, pieces);
        },
        None => {
            assert(d.buf =~= frames);
            assert(d.known.streams[0] == Some(unrated(stream)));
            assert(rated(stream) =~= unrated(stream));
            if count == 2 {
                assert(d.known.streams[1] == Some(annotation_stream(stream)));
            }
            lemma_heading_over(o, d, stream, annotated, leads, pieces);
        },
    }
}

/// A wire the muxer declared the annotation stream on is refused, by how many
/// streams it declares, where the annotation stream was not asked for.
pub proof fn lemma_annotated_is_not_plain(stream: StreamV, frames: Seq<u8>)
    requires
        unwritable(stream) is None,
        (header_bytes(stream, true) + frames).len() <= u64::MAX,
    ensures
        opened(header_bytes(stream, true) + frames, false, default_limits()) == Err::<
            DemuxerV,
            ErrorV,
        >(ErrorV::of(Problem::StreamsPlain { count: 2 })),
{
    let wire = header_bytes(stream, true) + frames;
    let d0 = loaded(wire, false, default_limits());
    lemma_default_is_roomy();
    lemma_opened_whole(wire, false, default_limits());
    let main = packet_bytes(MAIN_STARTCODE, main_body(2, stream.time_base));
    let rest = behind_main(stream, true, frames);
    lemma_layout(stream, true, frames);
    assert(d0.buf =~= FILE_ID@ + (main + rest));
    let o = Opening::spec_new(false);
    lemma_identified(o, d0, main + rest);
    let d1 = DemuxV { state: State::Unit, buf: main + rest, pos: d0.pos + FILE_ID_LEN, ..d0 };
    lemma_main_event(d1, stream, 2, rest);
}

} // verus!
