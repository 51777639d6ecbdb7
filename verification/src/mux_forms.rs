//! What the muxer takes and what it puts on the wire, among all a writer might.

use vstd::arithmetic::power2::pow2;
use vstd::prelude::*;
use vstd::utf8::encode_utf8;

use crate::bytes::{be_bytes, spec_crc32, v_bytes};
use crate::error::{ErrorV, Problem};
use crate::forms::opt;
use crate::frame_forms::{form_bytes, told_flags, Fields};
use crate::info::RATE_NAME;
use crate::info_forms::{field_form, fields_form, info_form, Field};
use crate::main_forms::{bases_form, group_form, groups_form, main_form, prefixes_form, GroupForm};
use crate::mux::{
    annotation_stream, first_split, frame_bytes, frame_head_bytes, geometry_bytes, group_bytes,
    info_body, main_body, packet_bytes, rate_text, stream_body, syncpoint_body, table_bytes,
    unwritable, MuxV,
};
use crate::packet_forms::packet_head;
use crate::read::default_limits;
use crate::reading::{is_annotations, is_media};
use crate::rows::{are_json, ndjson, one_line, record, RowsV};
use crate::stream::{
    made_audio, made_json, made_video, pix_fmt_tag, sample_fmt_tag, ticks_per_second, Media, Packet,
    StreamV, TimeBase,
};
use crate::stream_forms::{
    lemma_format_tags, lemma_ticks_cover_a_second, media_form, media_ok, stream_form,
};
use crate::tables::FrameCode;
use crate::text::decimal;
use crate::written::lemma_read_flags;

verus! {

// What it takes.

/// A stream can be written where its time base is a rate, its geometry is
/// stated, it keeps to what a reader takes, and its header is no wider than
/// one reads; and nowhere else.
pub proof fn lemma_writable(stream: StreamV)
    ensures
        unwritable(stream) is None <==> {
            &&& stream.time_base.num > 0
            &&& stream.time_base.den > 0
            &&& stream.fourcc.len() <= 1048576
            &&& stream.extradata.len() <= 1048576
            &&& stream.msb_pts_shift < 63
            &&& stream.decode_delay <= 16
            &&& stream.decode_delay > 0 ==> stream.codec_name() is Some
            &&& media_ok(stream.media, 1)
            &&& stream_body(0, stream).len() + 4 <= 1048576
        },
{
}

/// A raw frame is written on a raw stream and an encoded packet on an encoded
/// one, at no PTS before zero; a refusal says which it was.
pub proof fn lemma_frames_written(m: MuxV, packet: Packet, data: Seq<u8>)
    ensures
        match m.frame_written(packet.pts, data) {
            Ok(_) => m.stream.codec_name() is None && packet.pts >= 0,
            Err(error) => if m.stream.codec_name() is Some {
                error == (ErrorV { problem: Problem::FrameOnCoded, tag: m.stream.fourcc })
            } else {
                packet.pts < 0 && error == ErrorV::of(Problem::NegativePts { pts: packet.pts })
            },
        },
        match m.coded_written(packet, data) {
            Ok(_) => m.stream.codec_name() is Some && packet.pts >= 0,
            Err(error) => if m.stream.codec_name() is None {
                error == (ErrorV { problem: Problem::CodedOnRaw, tag: m.stream.fourcc })
            } else {
                packet.pts < 0 && error == ErrorV::of(Problem::NegativePts { pts: packet.pts })
            },
        },
{
}

/// The first row that is no line of its own, where there is one.
proof fn lemma_first_split(rows: RowsV, from: int)
    requires
        0 <= from <= rows.len(),
    ensures
        from <= first_split(rows, from) <= rows.len(),
        forall|i: int| from <= i < first_split(rows, from) ==> one_line(#[trigger] rows[i]),
        first_split(rows, from) < rows.len() ==> !one_line(rows[first_split(rows, from)]),
    decreases rows.len() - from,
{
    if from < rows.len() && one_line(rows[from]) {
        lemma_first_split(rows, from + 1);
    }
}

/// Rows are written where they were asked for and each is a line of its own,
/// as one packet of no more than a mebibyte at no PTS before zero; no rows are
/// no packet. A row that is no line is refused by the number of the first that
/// is not.
pub proof fn lemma_rows_written(m: MuxV, pts: i64, rows: RowsV)
    ensures
        match m.rows_written(pts, rows) {
            Ok(after) => {
                &&& m.annotated
                &&& forall|i: int| 0 <= i < rows.len() ==> one_line(#[trigger] rows[i])
                &&& rows.len() == 0 ==> after == m
                &&& rows.len() > 0 ==> {
                    &&& pts >= 0
                    &&& encode_utf8(ndjson(rows)).len() <= 1048576
                    &&& after == m.with_frame(1, pts, true, encode_utf8(ndjson(rows)))
                }
            },
            Err(error) => {
                ||| !m.annotated && error == ErrorV::of(Problem::RowsNotAsked)
                ||| m.annotated && exists|row: int|
                    {
                        &&& 0 <= row < rows.len()
                        &&& !one_line(#[trigger] rows[row])
                        &&& forall|i: int| 0 <= i < row ==> one_line(#[trigger] rows[i])
                        &&& error == ErrorV::of(Problem::RowNotOneLine { row: row as u64 })
                    }
                ||| m.annotated && rows.len() > 0 && pts < 0 && error == ErrorV::of(
                    Problem::NegativePts { pts },
                )
                ||| m.annotated && rows.len() > 0 && encode_utf8(ndjson(rows)).len() > 1048576
                    && error == ErrorV::of(
                    Problem::RowsTooLong { len: encode_utf8(ndjson(rows)).len() as u64 },
                )
            },
        },
{
    lemma_first_split(rows, 0);
    let row = first_split(rows, 0);
    if row < rows.len() {
        assert(!one_line(rows[row]));
    }
}

/// A syncpoint goes ahead of the first frame and of every frame that starts
/// more than 32767 bytes behind where the last one starts, and of no other;
/// what is counted is every byte on the wire since.
pub proof fn lemma_syncpoints_counted(m: MuxV, id: nat, pts: i64, keyframe: bool, data: Seq<u8>)
    ensures
        m.due() <==> (m.since is None || m.since->Some_0 > 32767),
        ({
            let after = m.with_frame(id, pts, keyframe, data);
            let wrote = after.out.len() - m.out.len();
            let back = if m.due() {
                wrote
            } else {
                m.since->Some_0 + wrote
            };
            &&& after.since is Some
            &&& back <= u64::MAX ==> after.since->Some_0 == back
            &&& back > u64::MAX ==> after.since->Some_0 == u64::MAX
            &&& after.out.take(m.out.len() as int) == m.out
            &&& after.stream == m.stream
            &&& after.annotated == m.annotated
            &&& after.trailing == m.trailing
        }),
{
    let after = m.with_frame(id, pts, keyframe, data);
    assert(after.out.take(m.out.len() as int) =~= m.out);
}

// What it puts on the wire.

/// A packet the muxer writes is its head, its body and the checksum of the
/// body; one wide enough has the checksum of its head behind that.
pub proof fn lemma_packet_written(startcode: u64, body: Seq<u8>)
    requires
        body.len() + 4 <= u64::MAX,
    ensures
        packet_bytes(startcode, body) == packet_head(
            startcode,
            (body.len() + 4) as u64,
            be_bytes(
                spec_crc32(be_bytes(startcode as nat, 8) + v_bytes(body.len() + 4)) as nat,
                4,
            ),
        ) + (body + be_bytes(spec_crc32(body) as nat, 4)),
{
    reveal(opt);
    let len = (body.len() + 4) as u64;
    assert(len as nat == body.len() + 4);
    let head = be_bytes(startcode as nat, 8) + v_bytes(body.len() + 4);
    if len <= 4096 {
        assert(head + Seq::<u8>::empty() =~= head);
    }
}

/// A stream header the muxer writes names the first time base, states no flags
/// and has a whole sample rate over one.
pub proof fn lemma_stream_written(id: u64, stream: StreamV)
    ensures
        stream_body(id as nat, stream) == stream_form(id, stream, 0, 0, 1, Seq::empty()),
{
    assert(geometry_bytes(stream.media) =~= media_form(stream.media, 1));
    assert(stream_body(id as nat, stream) + Seq::<u8>::empty() =~= stream_body(id as nat, stream));
}

/// A syncpoint the muxer writes says where the stream is in its one time base
/// and points nowhere back.
pub proof fn lemma_syncpoint_written(pts: i64)
    ensures
        syncpoint_body(pts) == v_bytes(pts as nat) + v_bytes(0),
{
}

/// An info packet the muxer writes is against the first stream, of no chapter,
/// and states the frame rate and nothing else.
pub proof fn lemma_info_written(num: u64, den: u64)
    ensures
        info_body(num, den) == info_form(
            1,
            0,
            0,
            0,
            1,
            seq![Field::Text { name: RATE_NAME@, value: encode_utf8(rate_text(num, den)) }],
            Seq::empty(),
        ),
{
    let field = Field::Text { name: RATE_NAME@, value: encode_utf8(rate_text(num, den)) };
    let fs = seq![field];
    assert(fs.drop_last() =~= Seq::empty());
    assert(fields_form(fs.drop_last()) =~= Seq::empty());
    assert(fields_form(fs) =~= field_form(field));
    assert(info_body(num, den) =~= info_form(1, 0, 0, 0, 1, fs, Seq::empty()));
}

/// A group of the table that the muxer writes.
pub open spec fn own_group(flags: u64, size_mul: u64, count: u64) -> GroupForm {
    GroupForm {
        flags,
        stated: 6,
        pts_delta: 0,
        size_mul,
        stream_id: 0,
        size_lsb: 0,
        reserved: 0,
        count,
        match_time: 0,
        header_idx: 0,
        extra: Seq::empty(),
    }
}

proof fn lemma_own_group(flags: u64, size_mul: u64, count: u64)
    ensures
        group_bytes(flags, size_mul, count) == group_form(own_group(flags, size_mul, count)),
{
    reveal(opt);
    assert(group_bytes(flags, size_mul, count) =~= group_form(own_group(flags, size_mul, count)));
}

/// A main header the muxer writes has syncpoints no more than 32767 bytes
/// apart, one time base, no elision headers, and a table in which framecode 1
/// has a frame state its own flags and no other framecode is valid.
pub proof fn lemma_main_written(streams: u64, time_base: TimeBase)
    ensures
        main_body(streams as nat, time_base) == main_form(
            streams,
            32767,
            seq![time_base],
            seq![own_group(8192, 0, 1), own_group(4096, 1, 1), own_group(8192, 0, 253)],
            Seq::empty(),
            Seq::empty(),
        ),
{
    reveal(table_bytes);
    lemma_own_group(8192, 0, 1);
    lemma_own_group(4096, 1, 1);
    lemma_own_group(8192, 0, 253);
    let g1 = own_group(8192, 0, 1);
    let g2 = own_group(4096, 1, 1);
    let g3 = own_group(8192, 0, 253);
    let gs = seq![g1, g2, g3];
    let two = gs.drop_last();
    let one = two.drop_last();
    assert(one.drop_last() =~= Seq::empty());
    assert(groups_form(one.drop_last()) =~= Seq::empty());
    assert(groups_form(one) =~= group_form(g1));
    assert(groups_form(two) == groups_form(one) + group_form(g2));
    assert(groups_form(gs) == groups_form(two) + group_form(g3));
    assert(groups_form(gs) =~= table_bytes());
    let bases = seq![time_base];
    assert(bases.skip(1) =~= Seq::empty());
    assert(bases_form(bases.skip(1)) =~= Seq::empty());
    assert(bases_form(bases) =~= v_bytes(time_base.num as nat) + v_bytes(time_base.den as nat));
    assert(prefixes_form(Seq::empty()) =~= Seq::empty());
    assert(main_body(streams as nat, time_base) =~= main_form(
        streams,
        32767,
        bases,
        gs,
        Seq::empty(),
        Seq::empty(),
    ));
}

/// The framecode every frame of the muxer has: it says the frame changes its
/// flags, and nothing else.
pub open spec fn own_code() -> FrameCode {
    FrameCode {
        flags: 4096,
        stream_id: 0,
        size_mul: 1,
        size_lsb: 0,
        pts_delta: 0,
        reserved_count: 0,
        header_idx: 0,
    }
}

/// A frame the muxer writes has framecode 1 and states its stream, its PTS
/// whole, past the range of the low bits, its size and whether it is a
/// keyframe, and its header is closed with a checksum.
pub proof fn lemma_frame_written(
    id: u64,
    shift: u32,
    pts: i64,
    keyframe: bool,
    data: Seq<u8>,
    f: Fields,
)
    requires
        0 <= pts,
        pts + pow2(shift as nat) <= u64::MAX,
        data.len() <= u64::MAX,
        f.coded == if keyframe {
            121u64
        } else {
            120
        },
        f.stream == id,
        f.time == pts + pow2(shift as nat),
        f.msb == data.len(),
        f.reserved.len() == 0,
    ensures
        frame_bytes(id as nat, shift, pts, keyframe, data) == form_bytes(1, own_code(), f)
            + be_bytes(spec_crc32(form_bytes(1, own_code(), f)) as nat, 4) + data,
        ({
            let flags = told_flags(own_code(), f);
            &&& flags & 1 != 0 <==> keyframe
            &&& flags & 2 == 0
            &&& flags & 64 != 0
        }),
{
    reveal(opt);
    lemma_read_flags(keyframe);
    let flags = told_flags(own_code(), f);
    assert(4096u64 & 4096 != 0) by (bit_vector);
    assert(form_bytes(1, own_code(), f) =~= frame_head_bytes(
        id as nat,
        shift,
        pts,
        keyframe,
        data.len(),
    ));
}

/// The trailing record is written where rows were asked for, once, of rows
/// that are JSON, as one packet of the annotation stream of no more than a
/// mebibyte at no PTS before zero; no rows are no record.
pub proof fn lemma_trailing_written(m: MuxV, pts: i64, rows: RowsV)
    ensures
        ({
            let data = encode_utf8(record(rows));
            match m.trailing_written(pts, rows) {
                Ok(after) => {
                    &&& m.annotated
                    &&& rows.len() == 0 ==> after == m
                    &&& rows.len() > 0 ==> {
                        &&& !m.trailing
                        &&& are_json(rows)
                        &&& pts >= 0
                        &&& data.len() <= 1048576
                        &&& after == MuxV { trailing: true, ..m.with_frame(1, pts, true, data) }
                    }
                },
                Err(error) => {
                    ||| !m.annotated && error == ErrorV::of(Problem::RowsNotAsked)
                    ||| m.annotated && rows.len() > 0 && {
                        ||| m.trailing && error == ErrorV::of(Problem::SecondTrailing)
                        ||| !are_json(rows) && error == ErrorV::of(Problem::TrailingNotJson)
                        ||| pts < 0 && error == ErrorV::of(Problem::NegativePts { pts })
                        ||| data.len() > 1048576 && error == ErrorV::of(
                            Problem::RowsTooLong { len: data.len() as u64 },
                        )
                    }
                },
            }
        }),
{
}

/// The annotation stream beside a media stream is data with the tag `FRWD`, in
/// the media stream's time base and with its way of coding a PTS, reordering
/// nothing and with no config; a reader takes it for one.
pub proof fn lemma_annotation_stream(media: StreamV)
    ensures
        ({
            let stream = annotation_stream(media);
            &&& is_annotations(stream)
            &&& stream.time_base == media.time_base
            &&& stream.msb_pts_shift == media.msb_pts_shift
            &&& stream.max_pts_distance == media.max_pts_distance
            &&& stream.decode_delay == 0
            &&& stream.extradata.len() == 0
            &&& stream.frame_rate is None
            &&& media.time_base.num > 0 && media.time_base.den > 0 && media.msb_pts_shift < 63
                ==> unwritable(stream) is None
        }),
{
    let stream = annotation_stream(media);
    assert(stream.fourcc =~= seq![70u8, 82, 87, 68]);
    crate::mux::lemma_stream_body_len(0, stream);
}

// Streams made from nothing but geometry.

/// A raw video stream made from its format and its geometry has that format
/// and that geometry, with square samples; it reorders nothing, its frames are
/// no further apart than the ticks that make a second, and it can be written
/// where there is a picture and a rate.
pub proof fn lemma_made_video(
    name: Seq<char>,
    tag: Seq<u8>,
    width: u32,
    height: u32,
    time_base: TimeBase,
)
    requires
        pix_fmt_tag(name) == Some(tag),
    ensures
        ({
            let stream = made_video(tag, width, height, time_base);
            &&& stream.pix_fmt() == Some(name)
            &&& stream.codec_name() is None
            &&& stream.time_base == time_base
            &&& stream.media matches Media::Video {
                width: w,
                height: h,
                sample_width,
                sample_height,
                ..
            } && w == width && h == height && sample_width == 1 && sample_height == 1
            &&& stream.decode_delay == 0
            &&& stream.extradata.len() == 0
            &&& stream.frame_rate is None
            &&& time_base.num > 0 ==> (stream.max_pts_distance - 1) * time_base.num < time_base.den
                <= stream.max_pts_distance * time_base.num
            &&& pow2(stream.msb_pts_shift as nat) == 16384
            &&& unwritable(stream) is None <==> width > 0 && height > 0 && time_base.num > 0
                && time_base.den > 0
        }),
{
    let stream = made_video(tag, width, height, time_base);
    lemma_format_tags(name, stream);
    lemma_ticks_cover_a_second(time_base);
    vstd::arithmetic::power2::lemma2_to64();
    crate::mux::lemma_stream_body_len(0, stream);
}

/// A raw audio stream made from its format, rate and channels has those, and a
/// tick of it is one sample, so that as many ticks as its rate make a second.
pub proof fn lemma_made_audio(name: Seq<char>, tag: Seq<u8>, sample_rate: u32, channels: u32)
    requires
        sample_fmt_tag(name) == Some(tag),
    ensures
        ({
            let stream = made_audio(tag, sample_rate, channels);
            &&& stream.sample_fmt() == Some(name)
            &&& stream.codec_name() is None
            &&& stream.media == (Media::Audio { sample_rate, channels })
            &&& stream.time_base.num * sample_rate == stream.time_base.den
            &&& sample_rate > 0 ==> stream.max_pts_distance == ticks_per_second(stream.time_base)
            &&& stream.decode_delay == 0
            &&& stream.extradata.len() == 0
            &&& stream.frame_rate is None
            &&& pow2(stream.msb_pts_shift as nat) == 16384
            &&& unwritable(stream) is None <==> sample_rate > 0 && channels > 0
        }),
{
    let stream = made_audio(tag, sample_rate, channels);
    lemma_format_tags(name, stream);
    vstd::arithmetic::power2::lemma2_to64();
    crate::mux::lemma_stream_body_len(0, stream);
    lemma_ticks_cover_a_second(stream.time_base);
}

/// A stream of JSON messages is one a reader carries, counts as coded, and can
/// be written where its time base is a rate.
pub proof fn lemma_made_json(time_base: TimeBase)
    ensures
        ({
            let stream = made_json(time_base);
            &&& stream.is_json()
            &&& is_media(stream)
            &&& stream.codec_name() == Some("json"@)
            &&& stream.time_base == time_base
            &&& stream.decode_delay == 0
            &&& stream.extradata.len() == 0
            &&& stream.frame_rate is None
            &&& time_base.num > 0 ==> (stream.max_pts_distance - 1) * time_base.num < time_base.den
                <= stream.max_pts_distance * time_base.num
            &&& pow2(stream.msb_pts_shift as nat) == 16384
            &&& unwritable(stream) is None <==> time_base.num > 0 && time_base.den > 0
        }),
{
    let stream = made_json(time_base);
    reveal(StreamV::codec_name);
    assert(stream.fourcc =~= seq![74u8, 83, 79, 78]);
    lemma_ticks_cover_a_second(time_base);
    vstd::arithmetic::power2::lemma2_to64();
    crate::mux::lemma_stream_body_len(0, stream);
}

/// The limits a reader has by default: ten frames of uncompressed 8K RGBA fit
/// in the largest frame, a header of any width that may be held fits twice
/// over in what may wait, and there may be sixteen streams.
pub proof fn lemma_default_limits()
    ensures
        ({
            let limits = default_limits();
            &&& 10 * 7680 * 4320 * 4 <= limits.max_frame <= 0x8000_0000
            &&& limits.max_header == 1048576
            &&& limits.max_buffered == 2 * limits.max_header
            &&& limits.max_streams == 16
        }),
{
}

/// A frame rate is written as its two numbers, a slash between them and
/// nothing else.
pub proof fn lemma_rate_written(num: u64, den: u64)
    ensures
        rate_text(num, den) == decimal(num as nat).push('/') + decimal(den as nat),
{
    reveal_strlit("/");
    assert(rate_text(num, den) =~= decimal(num as nat).push('/') + decimal(den as nat));
}

} // verus!
