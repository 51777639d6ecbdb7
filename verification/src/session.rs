//! A whole session: what is handed to a muxer, and what a demuxer hands back
//! of it.

use vstd::prelude::*;
use vstd::utf8::{encode_utf8, encode_utf8_decode_utf8, encode_utf8_valid_utf8};

use crate::adts::{header_at, stripped};
use crate::clock::{after_frames, landed, lemma_first_frame, seed};
use crate::demux::{next, unit_step, DemuxV};
use crate::error::ErrorV;
use crate::event::EventV;
use crate::frame::ceiling_for;
use crate::heading::{lemma_heading_read, rated};
use crate::mux::{first_split, unwritable, MuxV};
use crate::portions::{
    lemma_opened_whole, lemma_packet_whole, lemma_reads_whole, placed, spared_throughout, whole,
};
use crate::read::{
    annotation_taken, begun, default_limits, first_seen, frame_read, headers_read, loaded,
    may_hide_config, media_carried, opened, packet_read, primed, rows_at, DemuxerV, Opening,
    ReaderV, MAX_ANNOTATION_BYTES,
};
use crate::room::{lemma_default_is_roomy, roomy};
use crate::roundtrip::{lemma_piece_read, lined, past_headers, past_piece, Piece};
use crate::rows::{
    are_json, lemma_ndjson_holds_its_rows, lemma_record_carries_its_rows, ndjson, one_line, record,
    trailing_of, trimmed_rows, RowsV,
};
use crate::stream::{lemma_codec_by_tag, Packet, StreamV};

verus! {

// What is written.

/// One frame as it is handed to a muxer: its rows, what its header is to say
/// of it, and its bytes.
#[verifier::ext_equal]
pub struct Sent {
    pub rows: RowsV,
    pub packet: Packet,
    pub data: Seq<u8>,
}

/// What writing one frame comes to: its rows where it has some, and the frame
/// through the call its stream takes.
pub open spec fn sent_one(m: MuxV, s: Sent) -> Result<MuxV, ErrorV> {
    let noted = if s.rows.len() > 0 {
        m.rows_written(s.packet.pts, s.rows)
    } else {
        Ok(m)
    };
    match noted {
        Ok(m) => if m.coded() {
            m.coded_written(s.packet, s.data)
        } else {
            m.frame_written(s.packet.pts, s.data)
        },
        Err(error) => Err(error),
    }
}

/// What writing a run of frames comes to, and behind them the rows no frame
/// claims, where there are such.
pub open spec fn sent_all(m: MuxV, sent: Seq<Sent>, tail: Option<(i64, RowsV)>) -> Result<
    MuxV,
    ErrorV,
>
    decreases sent.len(),
{
    if sent.len() > 0 {
        match sent_one(m, sent[0]) {
            Ok(m) => sent_all(m, sent.skip(1), tail),
            Err(error) => Err(error),
        }
    } else {
        match tail {
            Some((pts, rows)) => m.trailing_written(pts, rows),
            None => Ok(m),
        }
    }
}

/// A frame's rows, as they go on the wire.
pub open spec fn rows_piece(s: Sent) -> Piece {
    Piece { id: 1, pts: s.packet.pts, keyframe: true, data: encode_utf8(ndjson(s.rows)) }
}

/// A frame, as it goes on the wire. One of a raw stream is always a keyframe.
pub open spec fn media_piece(coded: bool, s: Sent) -> Piece {
    Piece {
        id: 0,
        pts: s.packet.pts,
        keyframe: s.packet.keyframe || !coded,
        data: s.data,
    }
}

/// The rows no frame claims, as they go on the wire.
pub open spec fn tail_pieces(tail: Option<(i64, RowsV)>) -> Seq<Piece> {
    match tail {
        Some((pts, rows)) => if rows.len() > 0 {
            seq![Piece { id: 1, pts, keyframe: true, data: encode_utf8(record(rows)) }]
        } else {
            Seq::empty()
        },
        None => Seq::empty(),
    }
}

/// A run of frames, as it goes on the wire.
pub open spec fn pieces_of(coded: bool, sent: Seq<Sent>, tail: Option<(i64, RowsV)>) -> Seq<Piece>
    decreases sent.len(),
{
    if sent.len() > 0 {
        let rest = seq![media_piece(coded, sent[0])] + pieces_of(coded, sent.skip(1), tail);
        if sent[0].rows.len() > 0 {
            seq![rows_piece(sent[0])] + rest
        } else {
            rest
        }
    } else {
        tail_pieces(tail)
    }
}

/// A muxer past one frame.
pub open spec fn with_piece(m: MuxV, p: Piece) -> MuxV {
    m.with_frame(p.id as nat, p.pts, p.keyframe, p.data)
}

/// Which frames have a syncpoint ahead of them.
pub open spec fn leads_of(m: MuxV, pieces: Seq<Piece>) -> Seq<bool>
    decreases pieces.len(),
{
    if pieces.len() == 0 {
        Seq::empty()
    } else {
        seq![m.due()] + leads_of(with_piece(m, pieces[0]), pieces.skip(1))
    }
}

/// What a run of frames adds to what is written.
pub open spec fn on_wire(m: MuxV, pieces: Seq<Piece>) -> Seq<u8> {
    lined(m.stream.msb_pts_shift, leads_of(m, pieces), pieces)
}

/// One frame on the wire, ahead of the rest.
proof fn lemma_on_wire(m: MuxV, p: Piece, rest: Seq<Piece>)
    ensures
        m.out + on_wire(m, seq![p] + rest) == with_piece(m, p).out + on_wire(
            with_piece(m, p),
            rest,
        ),
{
    let all = seq![p] + rest;
    let leads = leads_of(m, all);
    let after = with_piece(m, p);
    assert(all.skip(1) =~= rest);
    assert(all[0] == p);
    assert(leads.skip(1) =~= leads_of(after, rest));
    assert(leads[0] == m.due());
    assert(m.out + on_wire(m, all) =~= after.out + on_wire(after, rest));
}

/// A run of frames goes on the wire one behind the other.
proof fn lemma_sent(m: MuxV, sent: Seq<Sent>, tail: Option<(i64, RowsV)>)
    requires
        sent_all(m, sent, tail) is Ok,
    ensures
        sent_all(m, sent, tail)->Ok_0.out == m.out + on_wire(m, pieces_of(m.coded(), sent, tail)),
    decreases sent.len(),
{
    let coded = m.coded();
    let pieces = pieces_of(coded, sent, tail);
    if sent.len() > 0 {
        let s = sent[0];
        let media = media_piece(coded, s);
        let rest = pieces_of(coded, sent.skip(1), tail);
        let noted = if s.rows.len() > 0 {
            with_piece(m, rows_piece(s))
        } else {
            m
        };
        if s.rows.len() > 0 {
            lemma_on_wire(m, rows_piece(s), seq![media] + rest);
        }
        lemma_on_wire(noted, media, rest);
        lemma_sent(with_piece(noted, media), sent.skip(1), tail);
    } else {
        let last = tail_pieces(tail);
        if last.len() > 0 {
            lemma_on_wire(m, last[0], Seq::empty());
            assert(last =~= seq![last[0]] + Seq::empty());
            let after = with_piece(m, last[0]);
            assert(after.out + on_wire(after, Seq::empty()) =~= after.out);
        } else {
            assert(m.out + on_wire(m, last) =~= m.out);
        }
    }
}

/// A muxer with some bytes ahead of those it holds.
pub open spec fn behind(ahead: Seq<u8>, m: MuxV) -> MuxV {
    MuxV { out: ahead + m.out, ..m }
}

/// One frame is written the same whatever is ahead of it.
proof fn lemma_piece_behind(ahead: Seq<u8>, m: MuxV, p: Piece)
    ensures
        with_piece(behind(ahead, m), p) == behind(ahead, with_piece(m, p)),
{
    let bytes = m.frame_on_wire(p.id as nat, p.pts, p.keyframe, p.data);
    assert(ahead + m.out + bytes =~= ahead + (m.out + bytes));
}

/// A run of frames is written the same whatever is ahead of it.
proof fn lemma_sent_behind(ahead: Seq<u8>, m: MuxV, sent: Seq<Sent>, tail: Option<(i64, RowsV)>)
    ensures
        sent_all(behind(ahead, m), sent, tail) == match sent_all(m, sent, tail) {
            Ok(after) => Ok(behind(ahead, after)),
            Err(error) => Err(error),
        },
    decreases sent.len(),
{
    if sent.len() > 0 {
        let s = sent[0];
        let media = media_piece(m.coded(), s);
        lemma_piece_behind(ahead, m, media);
        if s.rows.len() > 0 {
            lemma_piece_behind(ahead, m, rows_piece(s));
            lemma_piece_behind(ahead, with_piece(m, rows_piece(s)), media);
        }
        if let Ok(after) = sent_one(m, s) {
            lemma_sent_behind(ahead, after, sent.skip(1), tail);
        }
    } else if let Some((pts, rows)) = tail {
        let p = Piece { id: 1, pts, keyframe: true, data: encode_utf8(record(rows)) };
        lemma_piece_behind(ahead, m, p);
    }
}

/// Taking what has been written changes nothing of what is written after: the
/// bytes taken and the bytes that follow are the bytes that would have been
/// written without, and the same is refused.
pub proof fn lemma_taking_changes_nothing(m: MuxV, sent: Seq<Sent>, tail: Option<(i64, RowsV)>)
    ensures
        ({
            let emptied = MuxV { out: Seq::empty(), ..m };
            match sent_all(emptied, sent, tail) {
                Ok(after) => sent_all(m, sent, tail) == Ok::<MuxV, ErrorV>(
                    MuxV { out: m.out + after.out, ..after },
                ),
                Err(error) => sent_all(m, sent, tail) == Err::<MuxV, ErrorV>(error),
            }
        }),
{
    let emptied = MuxV { out: Seq::empty(), ..m };
    assert(behind(m.out, emptied) =~= m);
    lemma_sent_behind(m.out, emptied, sent, tail);
}

/// What a muxer that took some rows had to find of them.
proof fn lemma_whole_lines(rows: RowsV, from: int)
    requires
        0 <= from <= rows.len(),
        first_split(rows, from) >= rows.len(),
    ensures
        forall|i: int| from <= i < rows.len() ==> one_line(#[trigger] rows[i]),
    decreases rows.len() - from,
{
    if from < rows.len() {
        lemma_whole_lines(rows, from + 1);
    }
}

// What is read.

/// Whether a demuxer is past the headers of a stream, nothing of what it has
/// read unclaimed, and some frames are what it has still to read.
pub open spec fn reads(
    d: DemuxerV,
    stream: StreamV,
    annotated: bool,
    strip: bool,
    leads: Seq<bool>,
    pieces: Seq<Piece>,
) -> bool {
    &&& d.first is None
    &&& d.ahead == Seq::<u8>::empty()
    &&& past_headers(d.core, stream, annotated)
    &&& d.core.buf == lined(stream.msb_pts_shift, leads, pieces)
    &&& d.reader.strip == strip
    &&& d.reader.rows == Map::<i64, RowsV>::empty()
    &&& !d.reader.recorded
    &&& d.reader.trailing == Seq::<Seq<char>>::empty()
}

/// A frame's bytes as a caller sees them: without their ADTS header, where the
/// stream hid its config there.
pub open spec fn seen_as(strip: bool, data: Seq<u8>) -> Seq<u8> {
    if strip {
        data.skip(stripped(data)->Ok_0.header_len as int)
    } else {
        data
    }
}

/// Whether a frame is one a demuxer takes.
pub open spec fn taken(core: DemuxV, strip: bool, s: Sent) -> bool {
    let rows = encode_utf8(ndjson(s.rows));
    &&& strip ==> stripped(s.data) is Ok
    &&& s.packet.pts >= 0
    &&& s.data.len() <= ceiling_for(core.ceilings, core.limits.max_frame, 0)
    &&& s.rows.len() > 0 ==> {
        &&& core.known.streams.len() == 2
        &&& forall|i: int| 0 <= i < s.rows.len() ==> one_line(#[trigger] s.rows[i])
        &&& rows.len() <= ceiling_for(core.ceilings, core.limits.max_frame, 1)
        &&& trailing_of(ndjson(s.rows)) is None
    }
}

/// Whether the rows no frame claims are some a demuxer takes.
pub open spec fn tail_taken(core: DemuxV, tail: Option<(i64, RowsV)>) -> bool {
    match tail {
        Some((pts, rows)) => rows.len() > 0 ==> {
            &&& pts >= 0
            &&& core.known.streams.len() == 2
            &&& encode_utf8(record(rows)).len() <= ceiling_for(
                core.ceilings,
                core.limits.max_frame,
                1,
            )
            &&& are_json(rows)
        },
        None => true,
    }
}

/// The rows held once a frame has been read.
pub open spec fn held(s: Sent) -> Map<i64, RowsV> {
    if s.rows.len() > 0 {
        Map::empty().insert(s.packet.pts, s.rows)
    } else {
        Map::empty()
    }
}

/// What a frame that was sent says of itself once it has been read, the
/// frames ahead of it having left the reorder buffer as it is.
pub open spec fn packet_back(coded: bool, buffer: Seq<Option<i64>>, s: Sent) -> Packet {
    Packet {
        pts: s.packet.pts,
        dts: landed(buffer, s.packet.pts)[0],
        keyframe: s.packet.keyframe || !coded,
    }
}

/// Rows the muxer wrote are held for their frame.
proof fn lemma_rows_taken(r: ReaderV, s: Sent)
    requires
        s.rows.len() > 0,
        r.rows == Map::<i64, RowsV>::empty(),
        forall|i: int| 0 <= i < s.rows.len() ==> one_line(#[trigger] s.rows[i]),
        trailing_of(ndjson(s.rows)) is None,
    ensures
        annotation_taken(r, s.packet.pts, encode_utf8(ndjson(s.rows))) == Ok::<ReaderV, ErrorV>(
            ReaderV { rows: held(s), ..r },
        ),
{
    let text = ndjson(s.rows);
    encode_utf8_valid_utf8(text);
    encode_utf8_decode_utf8(text);
    lemma_ndjson_holds_its_rows(s.rows);
    assert(r.rows.len() == 0);
    assert(Seq::<Seq<char>>::empty() + s.rows =~= s.rows);
}

/// One frame read back as it was sent.
proof fn lemma_one_read(
    d: DemuxerV,
    stream: StreamV,
    annotated: bool,
    strip: bool,
    coded: bool,
    leads: Seq<bool>,
    sent: Seq<Sent>,
    tail: Option<(i64, RowsV)>,
    data: Seq<u8>,
) -> (left: Seq<bool>)
    requires
        reads(d, stream, annotated, strip, leads, pieces_of(coded, sent, tail)),
        sent.len() > 0,
        taken(d.core, strip, sent[0]),
    ensures
        ({
            let s = sent[0];
            let (after, bytes, outcome) = packet_read(d, data);
            let claimed = DemuxerV {
                reader: ReaderV { rows: Map::empty(), ..after.reader },
                ..after
            };
            let buffer = d.core.known.clocks[0].pts_buffer;
            &&& bytes == seen_as(strip, s.data)
            &&& outcome == Ok::<Option<Packet>, ErrorV>(Some(packet_back(coded, buffer, s)))
            &&& after.reader == (ReaderV { rows: held(s), ..d.reader })
            &&& reads(
                claimed,
                stream,
                annotated,
                strip,
                left,
                pieces_of(coded, sent.skip(1), tail),
            )
            &&& after.core.known.streams == d.core.known.streams
            &&& after.core.known.clocks[0].pts_buffer == landed(buffer, s.packet.pts)
            &&& after.core.ceilings == d.core.ceilings
            &&& after.core.limits == d.core.limits
        }),
{
    let s = sent[0];
    let shift = stream.msb_pts_shift;
    let media = media_piece(coded, s);
    let rest = pieces_of(coded, sent.skip(1), tail);
    let pieces = pieces_of(coded, sent, tail);
    let core = d.core;
    let noted = ReaderV { rows: held(s), ..d.reader };
    if s.rows.len() > 0 {
        let mid_pieces = seq![media] + rest;
        assert(pieces.skip(1) =~= mid_pieces);
        assert(pieces[0] == rows_piece(s));
        lemma_rows_taken(d.reader, s);
        lemma_piece_read(d.reader, core, stream, annotated, leads, pieces);
        let mid = past_piece(
            core,
            leads[0],
            shift,
            pieces[0],
            lined(shift, leads.skip(1), mid_pieces),
        );
        assert(mid_pieces.skip(1) =~= rest);
        assert(mid.known.clocks[0].pts_buffer == core.known.clocks[0].pts_buffer);
        lemma_piece_read(noted, mid, stream, annotated, leads.skip(1), mid_pieces);
        leads.skip(1).skip(1)
    } else {
        assert(pieces =~= seq![media] + rest);
        assert(pieces.skip(1) =~= rest);
        assert(noted =~= d.reader);
        lemma_piece_read(d.reader, core, stream, annotated, leads, pieces);
        leads.skip(1)
    }
}

/// Nothing is left once every frame has been read, but for the rows no frame
/// claims.
proof fn lemma_tail_read(
    d: DemuxerV,
    stream: StreamV,
    annotated: bool,
    strip: bool,
    leads: Seq<bool>,
    tail: Option<(i64, RowsV)>,
    data: Seq<u8>,
)
    requires
        reads(d, stream, annotated, strip, leads, tail_pieces(tail)),
        tail_taken(d.core, tail),
    ensures
        packet_read(d, data).2 == Ok::<Option<Packet>, ErrorV>(None),
        packet_read(d, data).1 == data,
        packet_read(d, data).0.reader == (ReaderV {
            recorded: tail_pieces(tail).len() > 0,
            trailing: tail_rows(tail),
            ..d.reader
        }),
        packet_read(d, data).0.first is None,
        packet_read(d, data).0.ahead.len() == 0,
        packet_read(d, data).0.core.state is Ended,
{
    let pieces = tail_pieces(tail);
    if pieces.len() > 0 {
        let (pts, rows) = tail->Some_0;
        let text = record(rows);
        encode_utf8_valid_utf8(text);
        encode_utf8_decode_utf8(text);
        lemma_record_carries_its_rows(rows);
        let after_reader = ReaderV {
            recorded: true,
            trailing: trimmed_rows(rows),
            ..d.reader
        };
        assert(d.reader.rows.len() == 0);
        assert(annotation_taken(d.reader, pts, pieces[0].data) == Ok::<ReaderV, ErrorV>(
            after_reader,
        ));
        lemma_piece_read(d.reader, d.core, stream, annotated, leads, pieces);
        let rest = lined(stream.msb_pts_shift, leads.skip(1), pieces.skip(1));
        let after = past_piece(d.core, leads[0], stream.msb_pts_shift, pieces[0], rest);
        lemma_end_read(after_reader, after);
    } else {
        assert(tail_rows(tail) =~= Seq::empty());
        assert(d.reader =~= (ReaderV { trailing: tail_rows(tail), ..d.reader }));
        lemma_end_read(d.reader, d.core);
    }
}

/// The rows no frame claims, as they are read back.
pub open spec fn tail_rows(tail: Option<(i64, RowsV)>) -> RowsV {
    match tail {
        Some((_, rows)) => trimmed_rows(rows),
        None => Seq::empty(),
    }
}

/// A wire that is read to its end has nothing more.
proof fn lemma_end_read(r: ReaderV, d: DemuxV)
    requires
        d.state is Unit,
        d.eof,
        d.buf.len() == 0,
        d.known.headers_done,
    ensures
        frame_read(r, d, Seq::empty()).0 == r,
        frame_read(r, d, Seq::empty()).1.state is Ended,
        frame_read(r, d, Seq::empty()).2.len() == 0,
        frame_read(r, d, Seq::empty()).3 == Ok::<Option<Packet>, ErrorV>(None),
{
    reveal(unit_step);
    assert(next(d).1 == Ok::<Option<EventV>, ErrorV>(Some(EventV::EndOfInput)));
}

// A run of reads.

/// A demuxer that a frame's rows have been taken out of.
pub open spec fn claimed(d: DemuxerV, pts: i64) -> DemuxerV {
    DemuxerV { reader: ReaderV { rows: d.reader.rows.remove(pts), ..d.reader }, ..d }
}

/// A demuxer past one read, the rows of the frame it gave claimed.
pub open spec fn past_read(d: DemuxerV) -> DemuxerV {
    let (after, _, outcome) = packet_read(d, Seq::empty());
    match outcome {
        Ok(Some(packet)) => claimed(after, packet.pts),
        _ => after,
    }
}

/// A demuxer past a run of reads.
pub open spec fn past_reads(d: DemuxerV, count: nat) -> DemuxerV
    decreases count,
{
    if count == 0 {
        d
    } else {
        past_reads(past_read(d), (count - 1) as nat)
    }
}

/// The PTS values some frames were sent with, in the order they were sent.
pub open spec fn times(sent: Seq<Sent>) -> Seq<i64> {
    sent.map_values(|s: Sent| s.packet.pts)
}

/// What the frame at `n` says of itself once it has been read: the PTS and
/// the keyframe flag it was sent with, and the DTS a reorder buffer settles on
/// out of the PTS values up to its own.
pub open spec fn packet_given(coded: bool, buffer: Seq<Option<i64>>, sent: Seq<Sent>, n: int) -> Packet {
    Packet {
        pts: sent[n].packet.pts,
        dts: after_frames(buffer, times(sent).take(n + 1))[0],
        keyframe: sent[n].packet.keyframe || !coded,
    }
}

/// Whether a read gives the frame at `n` back: its bytes, its header, and its
/// rows once they are asked for.
pub open spec fn frame_back(
    d: DemuxerV,
    strip: bool,
    coded: bool,
    buffer: Seq<Option<i64>>,
    sent: Seq<Sent>,
    n: int,
) -> bool {
    let (after, bytes, outcome) = packet_read(d, Seq::empty());
    &&& bytes == seen_as(strip, sent[n].data)
    &&& outcome == Ok::<Option<Packet>, ErrorV>(Some(packet_given(coded, buffer, sent, n)))
    &&& rows_at(after.reader.rows, sent[n].packet.pts) == sent[n].rows
}

/// Whether a read finds the end of the stream, with the rows no frame claims.
pub open spec fn end_back(d: DemuxerV, tail: Option<(i64, RowsV)>) -> bool {
    let (after, _, outcome) = packet_read(d, Seq::empty());
    &&& outcome == Ok::<Option<Packet>, ErrorV>(None)
    &&& after.reader.trailing == tail_rows(tail)
}

/// Whether everything that was sent is given back, one frame to a read and in
/// the order it was sent, and then the end.
pub open spec fn given_back(
    d: DemuxerV,
    strip: bool,
    coded: bool,
    buffer: Seq<Option<i64>>,
    sent: Seq<Sent>,
    tail: Option<(i64, RowsV)>,
) -> bool {
    &&& forall|n: int|
        0 <= n < sent.len() ==> frame_back(
            #[trigger] past_reads(d, n as nat),
            strip,
            coded,
            buffer,
            sent,
            n,
        )
    &&& end_back(past_reads(d, sent.len()), tail)
}

/// One frame given back, and then the rest of them.
proof fn lemma_first_back(
    d: DemuxerV,
    strip: bool,
    coded: bool,
    buffer: Seq<Option<i64>>,
    sent: Seq<Sent>,
    tail: Option<(i64, RowsV)>,
)
    requires
        sent.len() > 0,
        ({
            let (after, bytes, outcome) = packet_read(d, Seq::empty());
            &&& bytes == seen_as(strip, sent[0].data)
            &&& outcome == Ok::<Option<Packet>, ErrorV>(Some(packet_back(coded, buffer, sent[0])))
            &&& after.reader.rows == held(sent[0])
        }),
        given_back(
            past_read(d),
            strip,
            coded,
            landed(buffer, sent[0].packet.pts),
            sent.skip(1),
            tail,
        ),
    ensures
        given_back(d, strip, coded, buffer, sent, tail),
{
    let s = sent[0];
    let rest = sent.skip(1);
    let after = past_read(d);
    let left = landed(buffer, s.packet.pts);
    assert forall|n: int| 0 <= n < sent.len() implies frame_back(
        #[trigger] past_reads(d, n as nat),
        strip,
        coded,
        buffer,
        sent,
        n,
    ) by {
        if n == 0 {
            reveal_with_fuel(after_frames, 2);
            let first = times(sent).take(1);
            assert(first.drop_last() =~= Seq::empty());
            assert(first.last() == s.packet.pts);
            assert(packet_given(coded, buffer, sent, 0) == packet_back(coded, buffer, s));
            assert(rows_at(held(s), s.packet.pts) =~= s.rows);
        } else {
            assert(past_reads(d, n as nat) == past_reads(after, (n - 1) as nat));
            assert(rest[n - 1] == sent[n]);
            lemma_first_frame(buffer, s.packet.pts, times(rest).take(n));
            assert(times(sent).take(n + 1) =~= seq![s.packet.pts] + times(rest).take(n));
            assert(frame_back(past_reads(after, (n - 1) as nat), strip, coded, left, rest, n - 1));
        }
    }
    assert(past_reads(d, sent.len()) == past_reads(after, rest.len()));
}

/// A run of frames is given back, and then the end.
proof fn lemma_given_back(
    d: DemuxerV,
    stream: StreamV,
    annotated: bool,
    strip: bool,
    coded: bool,
    leads: Seq<bool>,
    sent: Seq<Sent>,
    tail: Option<(i64, RowsV)>,
)
    requires
        reads(d, stream, annotated, strip, leads, pieces_of(coded, sent, tail)),
        forall|i: int| 0 <= i < sent.len() ==> taken(d.core, strip, #[trigger] sent[i]),
        tail_taken(d.core, tail),
    ensures
        given_back(d, strip, coded, d.core.known.clocks[0].pts_buffer, sent, tail),
    decreases sent.len(),
{
    if sent.len() == 0 {
        lemma_tail_read(d, stream, annotated, strip, leads, tail, Seq::empty());
    } else {
        let s = sent[0];
        let rest = sent.skip(1);
        let left = lemma_one_read(
            d,
            stream,
            annotated,
            strip,
            coded,
            leads,
            sent,
            tail,
            Seq::empty(),
        );
        let after = past_read(d);
        assert(held(s).remove(s.packet.pts) =~= Map::empty());
        assert forall|i: int| 0 <= i < rest.len() implies taken(
            after.core,
            strip,
            #[trigger] rest[i],
        ) by {
            assert(rest[i] == sent[i + 1]);
            assert(taken(d.core, strip, sent[i + 1]));
        }
        lemma_given_back(after, stream, annotated, strip, coded, left, rest, tail);
        lemma_first_back(d, strip, coded, d.core.known.clocks[0].pts_buffer, sent, tail);
    }
}

// From one end to the other.

/// What a muxer found of everything it took.
proof fn lemma_all_fit(m: MuxV, sent: Seq<Sent>, tail: Option<(i64, RowsV)>)
    requires
        sent_all(m, sent, tail) is Ok,
    ensures
        forall|i: int|
            0 <= i < sent.len() ==> {
                let s = #[trigger] sent[i];
                &&& s.packet.pts >= 0
                &&& s.rows.len() > 0 ==> {
                    &&& m.annotated
                    &&& forall|j: int| 0 <= j < s.rows.len() ==> one_line(#[trigger] s.rows[j])
                    &&& encode_utf8(ndjson(s.rows)).len() <= MAX_ANNOTATION_BYTES
                }
            },
        tail matches Some((pts, rows)) ==> rows.len() > 0 ==> {
            &&& pts >= 0
            &&& m.annotated
            &&& encode_utf8(record(rows)).len() <= MAX_ANNOTATION_BYTES
            &&& are_json(rows)
        },
    decreases sent.len(),
{
    if sent.len() > 0 {
        let s = sent[0];
        let rest = sent.skip(1);
        if s.rows.len() > 0 {
            lemma_whole_lines(s.rows, 0);
        }
        lemma_all_fit(sent_one(m, s)->Ok_0, rest, tail);
        assert forall|i: int| 0 <= i < sent.len() implies {
            let s = #[trigger] sent[i];
            &&& s.packet.pts >= 0
            &&& s.rows.len() > 0 ==> {
                &&& m.annotated
                &&& forall|j: int| 0 <= j < s.rows.len() ==> one_line(#[trigger] s.rows[j])
                &&& encode_utf8(ndjson(s.rows)).len() <= MAX_ANNOTATION_BYTES
            }
        } by {
            if i > 0 {
                assert(rest[i - 1] == sent[i]);
            }
        }
    }
}

/// Whether a stream hides its config in its packets: an aac stream with no
/// extradata whose first packet starts with an ADTS header.
pub open spec fn hides_config(stream: StreamV, sent: Seq<Sent>) -> bool {
    may_hide_config(stream) && sent.len() > 0 && header_at(sent[0].data) is Some
}

/// A stream as it is given back: as it was sent, but for a frame rate that
/// means nothing, which is not there, and for a config it hid, which is.
pub open spec fn stream_back(stream: StreamV, sent: Seq<Sent>) -> StreamV {
    if hides_config(stream, sent) {
        StreamV { extradata: stripped(sent[0].data)->Ok_0.config(), ..rated(stream) }
    } else {
        rated(stream)
    }
}

/// A wire that a muxer wrote opens as the stream it was written from, and
/// gives back everything that was sent, in order: every frame's bytes, its
/// PTS, its keyframe flag, the DTS that follows from the PTS values and the
/// rows sent with it, then the end of the stream and the rows sent behind the
/// last frame, each as JSON has it. Frames have to be no larger than a demuxer
/// of the default limits reads, and where the packets hide the stream's config
/// each has to be one whole ADTS frame, which comes back without its header.
/// One frame's rows must not read as the record of the rows no frame claims.
pub proof fn lemma_wire_gives_back(
    stream: StreamV,
    annotated: bool,
    asked: bool,
    sent: Seq<Sent>,
    tail: Option<(i64, RowsV)>,
)
    requires
        unwritable(stream) is None,
        media_carried(stream) is Ok,
        annotated ==> asked,
        sent_all(MuxV::fresh(stream, annotated), sent, tail) is Ok,
        sent_all(MuxV::fresh(stream, annotated), sent, tail)->Ok_0.out.len() <= u64::MAX,
        forall|i: int|
            0 <= i < sent.len() ==> (#[trigger] sent[i]).data.len() <= default_limits().max_frame,
        forall|i: int|
            0 <= i < sent.len() ==> (#[trigger] sent[i]).rows.len() > 0 ==> trailing_of(
                ndjson(sent[i].rows),
            ) is None,
        hides_config(stream, sent) ==> forall|i: int|
            0 <= i < sent.len() ==> stripped((#[trigger] sent[i]).data) is Ok,
    ensures
        ({
            let wire = sent_all(MuxV::fresh(stream, annotated), sent, tail)->Ok_0.out;
            &&& opened(wire, asked, default_limits()) matches Ok(d)
            &&& d.reader.stream == stream_back(stream, sent)
            &&& d.reader.annotations == annotated
            &&& given_back(
                d,
                hides_config(stream, sent),
                stream.codec_name() is Some,
                seed((stream.decode_delay + 1) as nat),
                sent,
                tail,
            )
        }),
{
    let m = MuxV::fresh(stream, annotated);
    let coded = m.coded();
    let pieces = pieces_of(coded, sent, tail);
    let leads = leads_of(m, pieces);
    let wire = sent_all(m, sent, tail)->Ok_0.out;
    lemma_sent(m, sent, tail);
    assert(pieces.len() > 0 ==> leads[0] && pieces[0].pts >= 0) by {
        lemma_all_fit(m, sent, tail);
        if sent.len() > 0 {
            assert(sent[0].packet.pts >= 0);
        }
    }
    lemma_heading_read(stream, annotated, asked, leads, pieces);
    let start = loaded(wire, asked, default_limits());
    let (o, core, ahead, _) = headers_read(Opening::spec_new(asked), start, Seq::empty());
    assert(ahead =~= Seq::empty());
    let d = DemuxerV {
        core,
        ahead: Seq::empty(),
        reader: ReaderV::fresh(rated(stream), annotated),
        first: None,
    };
    assert(begun(asked, start, Seq::empty()) == primed(d));
    lemma_codec_by_tag(rated(stream), stream);
    if pieces.len() == 0 {
        assert(sent.len() == 0);
        assert(tail_rows(tail) =~= Seq::empty());
        lemma_nothing_sent(d, tail);
    } else {
        lemma_limits_take(core, stream, annotated, asked, sent, tail);
        lemma_primed_gives_back(d, stream, annotated, coded, leads.update(0, false), sent, tail);
    }
    lemma_default_is_roomy();
    lemma_opened_whole(wire, asked, default_limits());
    lemma_given_back_in_portions(
        opened(wire, asked, default_limits())->Ok_0,
        hides_config(stream, sent),
        coded,
        seed((stream.decode_delay + 1) as nat),
        sent,
        tail,
    );
}

/// What a demuxer gives back of a wire held whole it gives back of one that is
/// fed in portions.
proof fn lemma_given_back_in_portions(
    d: DemuxerV,
    strip: bool,
    coded: bool,
    buffer: Seq<Option<i64>>,
    sent: Seq<Sent>,
    tail: Option<(i64, RowsV)>,
)
    requires
        placed(d),
        roomy(d.core.limits),
        given_back(whole(d), strip, coded, buffer, sent, tail),
    ensures
        given_back(d, strip, coded, buffer, sent, tail),
{
    assert(spared_throughout(d));
    assert forall|n: int| 0 <= n < sent.len() implies frame_back(
        #[trigger] past_reads(d, n as nat),
        strip,
        coded,
        buffer,
        sent,
        n,
    ) by {
        let after = past_reads(d, n as nat);
        lemma_reads_whole(d, n as nat);
        lemma_packet_whole(after, Seq::empty());
        assert(frame_back(past_reads(whole(d), n as nat), strip, coded, buffer, sent, n));
    }
    let after = past_reads(d, sent.len());
    lemma_reads_whole(d, sent.len());
    lemma_packet_whole(after, Seq::empty());
}

/// A demuxer of the default limits takes what the muxer took.
proof fn lemma_limits_take(
    core: DemuxV,
    stream: StreamV,
    annotated: bool,
    asked: bool,
    sent: Seq<Sent>,
    tail: Option<(i64, RowsV)>,
)
    requires
        annotated ==> asked,
        sent_all(MuxV::fresh(stream, annotated), sent, tail) is Ok,
        core.ceilings == loaded(Seq::empty(), asked, default_limits()).ceilings,
        core.limits == default_limits(),
        annotated ==> core.known.streams.len() == 2,
        forall|i: int|
            0 <= i < sent.len() ==> (#[trigger] sent[i]).data.len() <= default_limits().max_frame,
        forall|i: int|
            0 <= i < sent.len() ==> (#[trigger] sent[i]).rows.len() > 0 ==> trailing_of(
                ndjson(sent[i].rows),
            ) is None,
    ensures
        taken_all(core, false, sent),
        tail_taken(core, tail),
{
    lemma_all_fit(MuxV::fresh(stream, annotated), sent, tail);
    assert(ceiling_for(core.ceilings, core.limits.max_frame, 0) == default_limits().max_frame);
    assert(asked ==> ceiling_for(core.ceilings, core.limits.max_frame, 1) == MAX_ANNOTATION_BYTES);
}

/// Whether every frame is one a demuxer takes.
pub open spec fn taken_all(core: DemuxV, strip: bool, sent: Seq<Sent>) -> bool {
    forall|i: int| 0 <= i < sent.len() ==> taken(core, strip, #[trigger] sent[i])
}

/// A wire that ends at its headers gives nothing back.
proof fn lemma_nothing_sent(d: DemuxerV, tail: Option<(i64, RowsV)>)
    requires
        d.first is None,
        d.core.state is Ended,
        d.reader.trailing == tail_rows(tail),
    ensures
        primed(d) matches Ok(after) && after.reader == d.reader && end_back(after, tail),
{
    let (r, core, ahead, outcome) = frame_read(d.reader, d.core, d.ahead);
    assert(next(d.core) == (d.core, Ok::<Option<EventV>, ErrorV>(Some(EventV::EndOfInput))));
    assert(r == d.reader && core == d.core && ahead == d.ahead);
}

/// A demuxer that has looked at its first packet, where that may hide the
/// stream's config, gives back what was sent.
proof fn lemma_primed_gives_back(
    d: DemuxerV,
    stream: StreamV,
    annotated: bool,
    coded: bool,
    leads: Seq<bool>,
    sent: Seq<Sent>,
    tail: Option<(i64, RowsV)>,
)
    requires
        reads(d, stream, annotated, false, leads, pieces_of(coded, sent, tail)),
        d.reader.stream == rated(stream),
        may_hide_config(rated(stream)) == may_hide_config(stream),
        taken_all(d.core, false, sent),
        tail_taken(d.core, tail),
        hides_config(stream, sent) ==> forall|i: int|
            0 <= i < sent.len() ==> stripped((#[trigger] sent[i]).data) is Ok,
    ensures
        primed(d) matches Ok(after) && {
            &&& after.reader.stream == stream_back(stream, sent)
            &&& after.reader.annotations == d.reader.annotations
            &&& given_back(
                after,
                hides_config(stream, sent),
                coded,
                d.core.known.clocks[0].pts_buffer,
                sent,
                tail,
            )
        },
{
    let buffer = d.core.known.clocks[0].pts_buffer;
    if !may_hide_config(stream) {
        lemma_given_back(d, stream, annotated, false, coded, leads, sent, tail);
    } else if sent.len() == 0 {
        lemma_tail_read(d, stream, annotated, false, leads, tail, Seq::empty());
        let after = packet_read(d, Seq::empty()).0;
        assert(next(after.core).1 == Ok::<Option<EventV>, ErrorV>(Some(EventV::EndOfInput)));
        assert(end_back(after, tail));
    } else {
        let s = sent[0];
        let rest = sent.skip(1);
        let strip = hides_config(stream, sent);
        assert(taken(d.core, false, s));
        let left = lemma_one_read(
            d,
            stream,
            annotated,
            false,
            coded,
            leads,
            sent,
            tail,
            Seq::empty(),
        );
        let (first, data, outcome) = packet_read(d, Seq::empty());
        let (reader, bytes) = first_seen(first.reader, data)->Ok_0;
        let after = primed(d)->Ok_0;
        assert(bytes == seen_as(strip, s.data));
        let past = past_read(after);
        assert(held(s).remove(s.packet.pts) =~= Map::empty());
        assert(reads(past, stream, annotated, strip, left, pieces_of(coded, rest, tail)));
        assert forall|i: int| 0 <= i < rest.len() implies taken(
            past.core,
            strip,
            #[trigger] rest[i],
        ) by {
            assert(rest[i] == sent[i + 1]);
            assert(taken(d.core, false, sent[i + 1]));
        }
        lemma_given_back(past, stream, annotated, strip, coded, left, rest, tail);
        lemma_first_back(after, strip, coded, buffer, sent, tail);
    }
}

} // verus!
