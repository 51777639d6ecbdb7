//! Writing NUT: the headers from a [`Stream`], then a frame for every frame.
//!
//! What is written is what [`Demuxer`](crate::Demuxer) reads: one framecode
//! that codes every field explicitly, a syncpoint whenever the last one is
//! further back than [`MAX_DISTANCE`], and frames carrying their PTS and a
//! header checksum. A stream the reader would refuse is refused here, before
//! anything is written.

use vstd::arithmetic::power2::pow2;
use vstd::prelude::*;
use vstd::string::StringExecFns;
use vstd::utf8::encode_utf8;

use crate::bytes::{
    be_bytes, crc32, lemma_v_len, put_bytes, put_s, put_u32, put_u64, put_v, put_vb, s_bytes,
    spec_crc32, v_bytes, vb_bytes, MAX_VB_LEN,
};
use crate::clock::lemma_whole_pts;
use crate::error::{Error, ErrorV, Part, Problem};
use crate::flags;
use crate::headers::{MAX_DECODE_DELAY, PTS_SHIFT_LIMIT};
use crate::info::RATE_NAME;
use crate::packet::HEADER_CHECKSUM_THRESHOLD;
use crate::read::MAX_ANNOTATION_BYTES;
use crate::rows::{
    are_json, check_json, is_one_line, join_rows, ndjson, one_line, record, record_rows, rows_view,
    RowsV,
};
use crate::stream::{Media, Packet, Stream, StreamV, TimeBase};
use crate::text::{copy_bytes, decimal, lemma_decimal_len, lemma_utf8_len, pow10, put_decimal};
use crate::{
    ANNOTATION_CLASS, ANNOTATION_FOURCC, ANNOTATION_STREAM_ID, AUDIO_CLASS, FILE_ID, INFO_STARTCODE,
    MAIN_STARTCODE, MAX_DISTANCE, STREAM_STARTCODE, SYNCPOINT_STARTCODE, VERSION, VIDEO_CLASS,
};

verus! {

/// The widest stream header that is written: what a reader of the default
/// limits holds.
pub const MAX_HEADER: u64 = 1048576;

/// The framecode every frame is written with.
pub const FRAME_CODE: u8 = 1;

/// The flags every frame codes for itself, past its keyframe flag: its PTS,
/// its stream, its size and a checksum over its header.
pub const FRAME_FLAGS: u64 = 120;

// What goes on the wire.

/// A packet: its startcode, the length of what follows, its body and the
/// checksum the body ends with. One wide enough has a checksum over its own
/// header ahead of the body.
pub open spec fn packet_bytes(startcode: u64, body: Seq<u8>) -> Seq<u8> {
    let head = be_bytes(startcode as nat, 8) + v_bytes(body.len() + 4);
    let sealed = body + be_bytes(spec_crc32(body) as nat, 4);
    if body.len() + 4 > HEADER_CHECKSUM_THRESHOLD {
        head + be_bytes(spec_crc32(head) as nat, 4) + sealed
    } else {
        head + sealed
    }
}

/// One group of the framecode table that is written.
pub open spec fn group_bytes(flags: u64, size_mul: u64, count: u64) -> Seq<u8> {
    v_bytes(flags as nat) + v_bytes(6) + s_bytes(0) + v_bytes(size_mul as nat) + v_bytes(0)
        + v_bytes(0) + v_bytes(0) + v_bytes(count as nat)
}

/// The framecode table that is written: one code that says a frame states its
/// own flags, and every other invalid.
#[verifier::opaque]
pub open spec fn table_bytes() -> Seq<u8> {
    group_bytes(flags::INVALID, 0, 1) + group_bytes(flags::CODED, 1, 1) + group_bytes(
        flags::INVALID,
        0,
        253,
    )
}

/// The main header: one time base for every stream, and nothing elided.
pub open spec fn main_body(streams: nat, time_base: TimeBase) -> Seq<u8> {
    v_bytes(VERSION as nat) + v_bytes(streams) + v_bytes(MAX_DISTANCE as nat) + v_bytes(1)
        + v_bytes(time_base.num as nat) + v_bytes(time_base.den as nat) + table_bytes() + v_bytes(0)
}

/// The fields a stream header ends with.
pub open spec fn geometry_bytes(media: Media) -> Seq<u8> {
    match media {
        Media::Video { width, height, sample_width, sample_height, colorspace_type } => v_bytes(
            width as nat,
        ) + v_bytes(height as nat) + v_bytes(sample_width as nat) + v_bytes(sample_height as nat)
            + v_bytes(colorspace_type as nat),
        Media::Audio { sample_rate, channels } => v_bytes(sample_rate as nat) + v_bytes(1)
            + v_bytes(channels as nat),
        Media::Other { .. } => Seq::empty(),
    }
}

/// A stream header.
pub open spec fn stream_body(id: nat, stream: StreamV) -> Seq<u8> {
    v_bytes(id) + v_bytes(stream.class() as nat) + vb_bytes(stream.fourcc) + v_bytes(0) + v_bytes(
        stream.msb_pts_shift as nat,
    ) + v_bytes(stream.max_pts_distance as nat) + v_bytes(stream.decode_delay as nat) + v_bytes(0)
        + vb_bytes(stream.extradata) + geometry_bytes(stream.media)
}

/// A frame rate as an info packet spells it.
pub open spec fn rate_text(num: u64, den: u64) -> Seq<char> {
    decimal(num as nat) + "/"@ + decimal(den as nat)
}

/// An info packet that states the frame rate of the media stream.
pub open spec fn info_body(num: u64, den: u64) -> Seq<u8> {
    v_bytes(1) + s_bytes(0) + v_bytes(0) + v_bytes(0) + v_bytes(1) + vb_bytes(RATE_NAME@) + s_bytes(
        -1,
    ) + vb_bytes(encode_utf8(rate_text(num, den)))
}

/// A syncpoint.
pub open spec fn syncpoint_body(pts: i64) -> Seq<u8> {
    v_bytes(pts as nat) + v_bytes(0)
}

/// The flags a frame codes for itself.
pub open spec fn frame_flags(keyframe: bool) -> u64 {
    if keyframe {
        (FRAME_FLAGS + flags::KEY) as u64
    } else {
        FRAME_FLAGS
    }
}

/// A frame header ahead of its checksum: the framecode, the flags, the
/// stream, the PTS coded whole and the size.
pub open spec fn frame_head_bytes(id: nat, shift: u32, pts: i64, keyframe: bool, size: nat) -> Seq<
    u8,
> {
    seq![FRAME_CODE] + v_bytes(frame_flags(keyframe) as nat) + v_bytes(id) + v_bytes(
        (pts + pow2(shift as nat)) as nat,
    ) + v_bytes(size)
}

/// A frame.
pub open spec fn frame_bytes(
    id: nat,
    shift: u32,
    pts: i64,
    keyframe: bool,
    data: Seq<u8>,
) -> Seq<u8> {
    let head = frame_head_bytes(id, shift, pts, keyframe, data.len());
    head + be_bytes(spec_crc32(head) as nat, 4) + data
}

/// The annotation stream beside a media stream: its time base, and its way of
/// coding a PTS.
pub open spec fn annotation_stream(media: StreamV) -> StreamV {
    StreamV {
        fourcc: ANNOTATION_FOURCC@,
        time_base: media.time_base,
        msb_pts_shift: media.msb_pts_shift,
        max_pts_distance: media.max_pts_distance,
        decode_delay: 0,
        extradata: Seq::empty(),
        frame_rate: None,
        media: Media::Other { class: ANNOTATION_CLASS },
    }
}

/// The frame rate that is written: one that means something.
pub open spec fn written_rate(stream: StreamV) -> Option<(u64, u64)> {
    match stream.frame_rate {
        Some((num, den)) => if num > 0 && den > 0 {
            Some((num, den))
        } else {
            None
        },
        None => None,
    }
}

/// Everything ahead of the first frame. The frame rate goes out with the
/// headers rather than later, because a reader that learns it after the fact
/// has already handed out packets without it.
pub open spec fn header_bytes(stream: StreamV, annotated: bool) -> Seq<u8> {
    let count: nat = if annotated {
        2
    } else {
        1
    };
    let start = FILE_ID@ + packet_bytes(MAIN_STARTCODE, main_body(count, stream.time_base))
        + packet_bytes(STREAM_STARTCODE, stream_body(0, stream));
    let streams = if annotated {
        start + packet_bytes(
            STREAM_STARTCODE,
            stream_body(ANNOTATION_STREAM_ID as nat, annotation_stream(stream)),
        )
    } else {
        start
    };
    match written_rate(stream) {
        Some((num, den)) => streams + packet_bytes(INFO_STARTCODE, info_body(num, den)),
        None => streams,
    }
}

/// Why a stream cannot be written, where it cannot: what a reader would refuse
/// its header with.
pub open spec fn unwritable(stream: StreamV) -> Option<ErrorV> {
    let base = stream.time_base;
    if base.num == 0 || base.den == 0 {
        Some(ErrorV::of(Problem::TimeBaseNotARate { num: base.num, den: base.den }))
    } else if stream.fourcc.len() > MAX_VB_LEN {
        Some(
            ErrorV::of(
                Problem::ByteString { what: Part::CodecTag, len: stream.fourcc.len() as u64 },
            ),
        )
    } else if stream.msb_pts_shift >= PTS_SHIFT_LIMIT {
        Some(ErrorV::of(Problem::PtsShift { bits: stream.msb_pts_shift as u64 }))
    } else if stream.decode_delay > MAX_DECODE_DELAY {
        Some(ErrorV::of(Problem::DecodeDelay { delay: stream.decode_delay }))
    } else if stream.extradata.len() > MAX_VB_LEN {
        Some(
            ErrorV::of(
                Problem::ByteString { what: Part::CodecData, len: stream.extradata.len() as u64 },
            ),
        )
    } else if media_unwritable(stream.media) is Some {
        Some(ErrorV::of(media_unwritable(stream.media)->Some_0))
    } else if stream.decode_delay != 0 && stream.codec_name() is None {
        Some(
            ErrorV {
                problem: Problem::RawReorder { delay: stream.decode_delay },
                tag: stream.fourcc,
            },
        )
    } else if stream_body(0, stream).len() + 4 > MAX_HEADER {
        Some(
            ErrorV::of(
                Problem::PacketTooWide {
                    len: (stream_body(0, stream).len() + 4) as u64,
                    max: MAX_HEADER,
                    what: Part::StreamHeader,
                },
            ),
        )
    } else {
        None
    }
}

/// Why a geometry cannot be written, where it cannot.
pub open spec fn media_unwritable(media: Media) -> Option<Problem> {
    match media {
        Media::Video { width, height, .. } => if width == 0 || height == 0 {
            Some(Problem::FrameSize { width: width as u64, height: height as u64 })
        } else {
            None
        },
        Media::Audio { sample_rate, channels } => if sample_rate == 0 {
            Some(Problem::FractionalRate { num: 0, den: 1 })
        } else if channels == 0 {
            Some(Problem::NoChannels { channels: 0 })
        } else {
            None
        },
        Media::Other { class } => if class == VIDEO_CLASS || class == AUDIO_CLASS {
            Some(Problem::GeometryMissing { class })
        } else {
            None
        },
    }
}

// The muxer.

/// A muxer as a value.
#[verifier::ext_equal]
pub struct MuxV {
    /// The bytes written that no caller has taken.
    pub out: Seq<u8>,
    pub stream: StreamV,
    pub annotated: bool,
    /// How many bytes back the last syncpoint starts, where there is one.
    pub since: Option<u64>,
    /// Whether the trailing record has been written.
    pub trailing: bool,
}

/// A count, or the largest that is counted.
pub open spec fn capped(count: int) -> u64 {
    if count > u64::MAX {
        u64::MAX
    } else {
        count as u64
    }
}

impl MuxV {
    /// The headers written and nothing else.
    pub open spec fn fresh(stream: StreamV, annotated: bool) -> MuxV {
        MuxV {
            out: header_bytes(stream, annotated),
            stream,
            annotated,
            since: None,
            trailing: false,
        }
    }

    /// Whether the next frame needs a syncpoint ahead of it.
    pub open spec fn due(self) -> bool {
        match self.since {
            Some(since) => since > MAX_DISTANCE,
            None => true,
        }
    }

    /// What goes on the wire for a frame: a syncpoint where one is due, and
    /// the frame.
    pub open spec fn frame_on_wire(self, id: nat, pts: i64, keyframe: bool, data: Seq<u8>) -> Seq<u8> {
        let frame = frame_bytes(id, self.stream.msb_pts_shift, pts, keyframe, data);
        if self.due() {
            packet_bytes(SYNCPOINT_STARTCODE, syncpoint_body(pts)) + frame
        } else {
            frame
        }
    }

    /// With a frame written.
    pub open spec fn with_frame(self, id: nat, pts: i64, keyframe: bool, data: Seq<u8>) -> MuxV {
        let bytes = self.frame_on_wire(id, pts, keyframe, data);
        let back = if self.due() {
            0
        } else {
            self.since->Some_0 as int
        };
        MuxV { out: self.out + bytes, since: Some(capped(back + bytes.len())), ..self }
    }

    /// Whether the stream is one of encoded packets.
    pub open spec fn coded(self) -> bool {
        self.stream.codec_name() is Some
    }

    /// What writing a raw frame comes to.
    pub open spec fn frame_written(self, pts: i64, data: Seq<u8>) -> Result<MuxV, ErrorV> {
        if self.coded() {
            Err(ErrorV { problem: Problem::FrameOnCoded, tag: self.stream.fourcc })
        } else if pts < 0 {
            Err(ErrorV::of(Problem::NegativePts { pts }))
        } else {
            Ok(self.with_frame(0, pts, true, data))
        }
    }

    /// What writing an encoded packet comes to.
    pub open spec fn coded_written(self, packet: Packet, data: Seq<u8>) -> Result<MuxV, ErrorV> {
        if !self.coded() {
            Err(ErrorV { problem: Problem::CodedOnRaw, tag: self.stream.fourcc })
        } else if packet.pts < 0 {
            Err(ErrorV::of(Problem::NegativePts { pts: packet.pts }))
        } else {
            Ok(self.with_frame(0, packet.pts, packet.keyframe, data))
        }
    }

    /// What writing some text on the annotation stream comes to.
    pub open spec fn text_written(self, pts: i64, text: Seq<char>) -> Result<MuxV, ErrorV> {
        let data = encode_utf8(text);
        if pts < 0 {
            Err(ErrorV::of(Problem::NegativePts { pts }))
        } else if data.len() > MAX_ANNOTATION_BYTES {
            Err(ErrorV::of(Problem::RowsTooLong { len: data.len() as u64 }))
        } else {
            Ok(self.with_frame(ANNOTATION_STREAM_ID as nat, pts, true, data))
        }
    }

    /// What writing a frame's rows comes to. A frame with no rows gets no
    /// packet.
    pub open spec fn rows_written(self, pts: i64, rows: RowsV) -> Result<MuxV, ErrorV> {
        if !self.annotated {
            Err(ErrorV::of(Problem::RowsNotAsked))
        } else if first_split(rows, 0) < rows.len() {
            Err(ErrorV::of(Problem::RowNotOneLine { row: first_split(rows, 0) as u64 }))
        } else if rows.len() == 0 {
            Ok(self)
        } else {
            self.text_written(pts, ndjson(rows))
        }
    }

    /// What writing the trailing record comes to. No rows, no record.
    pub open spec fn trailing_written(self, pts: i64, rows: RowsV) -> Result<MuxV, ErrorV> {
        if !self.annotated {
            Err(ErrorV::of(Problem::RowsNotAsked))
        } else if rows.len() == 0 {
            Ok(self)
        } else if self.trailing {
            Err(ErrorV::of(Problem::SecondTrailing))
        } else if !are_json(rows) {
            Err(ErrorV::of(Problem::TrailingNotJson))
        } else {
            match self.text_written(pts, record(rows)) {
                Ok(after) => Ok(MuxV { trailing: true, ..after }),
                Err(error) => Err(error),
            }
        }
    }
}

/// The first row that is not one line, at `from` or behind it.
pub open spec fn first_split(rows: RowsV, from: int) -> int
    decreases rows.len() - from,
{
    if 0 <= from < rows.len() && one_line(rows[from]) {
        first_split(rows, from + 1)
    } else {
        from
    }
}

// Writing it.

/// Appends a packet.
fn put_packet(out: &mut Vec<u8>, startcode: u64, body: &[u8])
    requires
        body@.len() < 0x1_0000_0000,
    ensures
        final(out)@ == old(out)@ + packet_bytes(startcode, body@),
{
    let mut head: Vec<u8> = Vec::new();
    put_u64(&mut head, startcode);
    let len = body.len() as u64 + 4;
    put_v(&mut head, len);
    assert(head@ =~= be_bytes(startcode as nat, 8) + v_bytes(len as nat));
    put_bytes(out, head.as_slice());
    if len > HEADER_CHECKSUM_THRESHOLD {
        put_u32(out, crc32(head.as_slice()));
    }
    put_bytes(out, body);
    put_u32(out, crc32(body));
    assert(out@ =~= old(out)@ + packet_bytes(startcode, body@));
}

/// Appends one group of the framecode table.
fn put_group(out: &mut Vec<u8>, flags: u64, size_mul: u64, count: u64)
    ensures
        final(out)@ == old(out)@ + group_bytes(flags, size_mul, count),
{
    put_v(out, flags);
    put_v(out, 6);
    put_s(out, 0);
    put_v(out, size_mul);
    put_v(out, 0);
    put_v(out, 0);
    put_v(out, 0);
    put_v(out, count);
    assert(out@ =~= old(out)@ + group_bytes(flags, size_mul, count));
}

/// The main header's body.
fn main_header(streams: u64, time_base: TimeBase) -> (body: Vec<u8>)
    ensures
        body@ == main_body(streams as nat, time_base),
{
    let mut body: Vec<u8> = Vec::new();
    put_v(&mut body, VERSION);
    put_v(&mut body, streams);
    put_v(&mut body, MAX_DISTANCE);
    put_v(&mut body, 1);
    put_v(&mut body, time_base.num);
    put_v(&mut body, time_base.den);
    put_group(&mut body, flags::INVALID, 0, 1);
    put_group(&mut body, flags::CODED, 1, 1);
    put_group(&mut body, flags::INVALID, 0, 253);
    put_v(&mut body, 0);
    proof {
        reveal(table_bytes);
    }
    assert(body@ =~= main_body(streams as nat, time_base));
    body
}

/// Appends the fields a stream header ends with.
fn put_geometry(out: &mut Vec<u8>, media: Media)
    ensures
        final(out)@ == old(out)@ + geometry_bytes(media),
{
    match media {
        Media::Video { width, height, sample_width, sample_height, colorspace_type } => {
            put_v(out, width as u64);
            put_v(out, height as u64);
            put_v(out, sample_width);
            put_v(out, sample_height);
            put_v(out, colorspace_type);
        },
        Media::Audio { sample_rate, channels } => {
            put_v(out, sample_rate as u64);
            put_v(out, 1);
            put_v(out, channels as u64);
        },
        Media::Other { .. } => {},
    }
    assert(out@ =~= old(out)@ + geometry_bytes(media));
}

/// A stream header's body.
fn stream_header(id: u64, stream: &Stream) -> (body: Vec<u8>)
    ensures
        body@ == stream_body(id as nat, stream@),
{
    let mut body: Vec<u8> = Vec::new();
    put_v(&mut body, id);
    put_v(&mut body, stream.class());
    put_vb(&mut body, stream.fourcc.as_slice());
    put_v(&mut body, 0);
    put_v(&mut body, stream.msb_pts_shift as u64);
    put_v(&mut body, stream.max_pts_distance);
    put_v(&mut body, stream.decode_delay);
    put_v(&mut body, 0);
    put_vb(&mut body, stream.extradata.as_slice());
    put_geometry(&mut body, stream.media);
    assert(body@ =~= stream_body(id as nat, stream@));
    body
}

/// The body of an info packet that states a frame rate.
fn rate_info(num: u64, den: u64) -> (body: Vec<u8>)
    ensures
        body@ == info_body(num, den),
{
    let mut text = String::new();
    put_decimal(&mut text, num);
    text.append("/");
    put_decimal(&mut text, den);
    assert(text@ =~= rate_text(num, den));
    let mut body: Vec<u8> = Vec::new();
    put_v(&mut body, 1);
    put_s(&mut body, 0);
    put_v(&mut body, 0);
    put_v(&mut body, 0);
    put_v(&mut body, 1);
    put_vb(&mut body, RATE_NAME.as_slice());
    put_s(&mut body, -1);
    put_vb(&mut body, text.as_str().as_bytes());
    assert(body@ =~= info_body(num, den));
    body
}

/// Why a geometry cannot be written, where it cannot.
fn check_geometry(media: Media) -> (problem: Option<Problem>)
    ensures
        problem == media_unwritable(media),
{
    match media {
        Media::Video { width, height, .. } => if width == 0 || height == 0 {
            Some(Problem::FrameSize { width: width as u64, height: height as u64 })
        } else {
            None
        },
        Media::Audio { sample_rate, channels } => if sample_rate == 0 {
            Some(Problem::FractionalRate { num: 0, den: 1 })
        } else if channels == 0 {
            Some(Problem::NoChannels { channels: 0 })
        } else {
            None
        },
        Media::Other { class } => if class == VIDEO_CLASS || class == AUDIO_CLASS {
            Some(Problem::GeometryMissing { class })
        } else {
            None
        },
    }
}

/// Refuses a stream whose header a reader would refuse.
fn check_stream(stream: &Stream) -> (checked: Result<(), Error>)
    ensures
        match unwritable(stream@) {
            Some(error) => checked matches Err(got) && got@ == error,
            None => checked is Ok,
        },
{
    let base = stream.time_base;
    if base.num == 0 || base.den == 0 {
        return Err(Error::of(Problem::TimeBaseNotARate { num: base.num, den: base.den }));
    }
    let tag_len = stream.fourcc.len() as u64;
    if tag_len > MAX_VB_LEN {
        return Err(Error::of(Problem::ByteString { what: Part::CodecTag, len: tag_len }));
    }
    if stream.msb_pts_shift as u64 >= PTS_SHIFT_LIMIT {
        return Err(Error::of(Problem::PtsShift { bits: stream.msb_pts_shift as u64 }));
    }
    if stream.decode_delay > MAX_DECODE_DELAY {
        return Err(Error::of(Problem::DecodeDelay { delay: stream.decode_delay }));
    }
    let data_len = stream.extradata.len() as u64;
    if data_len > MAX_VB_LEN {
        return Err(Error::of(Problem::ByteString { what: Part::CodecData, len: data_len }));
    }
    if let Some(problem) = check_geometry(stream.media) {
        return Err(Error::of(problem));
    }
    if stream.decode_delay != 0 && stream.codec_name().is_none() {
        return Err(
            Error::about(
                Problem::RawReorder { delay: stream.decode_delay },
                copy_bytes(stream.fourcc.as_slice()),
            ),
        );
    }
    let body = stream_header(0, stream);
    proof {
        lemma_stream_body_len(0, stream@);
    }
    let len = body.len() as u64 + 4;
    if len > MAX_HEADER {
        return Err(
            Error::of(Problem::PacketTooWide { len, max: MAX_HEADER, what: Part::StreamHeader }),
        );
    }
    Ok(())
}

/// A stream header is its two byte strings and a few numbers.
pub proof fn lemma_stream_body_len(id: nat, stream: StreamV)
    requires
        id <= u64::MAX,
        stream.fourcc.len() <= MAX_VB_LEN,
        stream.extradata.len() <= MAX_VB_LEN,
    ensures
        stream_body(id, stream).len() <= stream.fourcc.len() + stream.extradata.len() + 140,
{
    broadcast use lemma_v_len;

}

/// An info packet is short.
pub proof fn lemma_info_body_len(num: u64, den: u64)
    ensures
        info_body(num, den).len() < 300,
{
    broadcast use lemma_v_len;

    reveal_with_fuel(pow10, 21);
    lemma_decimal_len(num as nat, 20);
    lemma_decimal_len(den as nat, 20);
    reveal_strlit("/");
    lemma_utf8_len(rate_text(num, den));
}

/// A main header is short.
pub proof fn lemma_main_body_len(streams: nat, time_base: TimeBase)
    requires
        streams <= u64::MAX,
    ensures
        main_body(streams, time_base).len() < 400,
{
    broadcast use lemma_v_len;

    reveal(table_bytes);

}

/// A syncpoint is short.
proof fn lemma_syncpoint_len(pts: i64)
    requires
        pts >= 0,
    ensures
        syncpoint_body(pts).len() <= 20,
{
    broadcast use lemma_v_len;

}

/// Writes one NUT stream: one media stream, and the annotation stream where a
/// caller asked for it.
///
/// A raw stream's frames go through [`Muxer::write_frame`] and are always
/// keyframes. An encoded stream's packets go through [`Muxer::write_coded`],
/// state their own keyframe flag, and must be handed over in decode order: NUT
/// carries no dts field at all, and the reader on the far side rebuilds dts
/// from the pts values in the order they arrive.
pub struct Muxer {
    out: Vec<u8>,
    stream: Stream,
    annotated: bool,
    since: Option<u64>,
    trailing: bool,
}

impl View for Muxer {
    type V = MuxV;

    closed spec fn view(&self) -> MuxV {
        MuxV {
            out: self.out@,
            stream: self.stream@,
            annotated: self.annotated,
            since: self.since,
            trailing: self.trailing,
        }
    }
}

impl Muxer {
    /// The stream is one whose header a reader takes.
    pub closed spec fn wf(self) -> bool {
        unwritable(self.stream@) is None
    }

    /// Writes the headers of one media stream.
    pub fn new(stream: &Stream) -> (muxer: Result<Muxer, Error>)
        ensures
            match unwritable(stream@) {
                None => muxer matches Ok(got) && got@ == MuxV::fresh(stream@, false) && got.wf(),
                Some(error) => muxer matches Err(got) && got@ == error,
            },
    {
        Muxer::write_headers(stream, false)
    }

    /// `new`, with the annotation stream declared beside the media.
    pub fn with_annotations(stream: &Stream) -> (muxer: Result<Muxer, Error>)
        ensures
            match unwritable(stream@) {
                None => muxer matches Ok(got) && got@ == MuxV::fresh(stream@, true) && got.wf(),
                Some(error) => muxer matches Err(got) && got@ == error,
            },
    {
        Muxer::write_headers(stream, true)
    }

    fn write_headers(stream: &Stream, annotated: bool) -> (muxer: Result<Muxer, Error>)
        ensures
            match unwritable(stream@) {
                None => muxer matches Ok(got) && got@ == MuxV::fresh(stream@, annotated)
                    && got.wf(),
                Some(error) => muxer matches Err(got) && got@ == error,
            },
    {
        check_stream(stream)?;
        let count: u64 = if annotated {
            2
        } else {
            1
        };
        let mut out: Vec<u8> = Vec::new();
        put_bytes(&mut out, FILE_ID.as_slice());
        let main = main_header(count, stream.time_base);
        proof {
            lemma_main_body_len(count as nat, stream.time_base);
        }
        put_packet(&mut out, MAIN_STARTCODE, main.as_slice());
        let media = stream_header(0, stream);
        proof {
            lemma_stream_body_len(0, stream@);
        }
        put_packet(&mut out, STREAM_STARTCODE, media.as_slice());
        if annotated {
            let beside = Stream {
                fourcc: copy_bytes(ANNOTATION_FOURCC.as_slice()),
                time_base: stream.time_base,
                msb_pts_shift: stream.msb_pts_shift,
                max_pts_distance: stream.max_pts_distance,
                decode_delay: 0,
                extradata: Vec::new(),
                frame_rate: None,
                media: Media::Other { class: ANNOTATION_CLASS },
            };
            assert(beside@ =~= annotation_stream(stream@));
            let rows = stream_header(ANNOTATION_STREAM_ID, &beside);
            proof {
                lemma_stream_body_len(ANNOTATION_STREAM_ID as nat, beside@);
            }
            put_packet(&mut out, STREAM_STARTCODE, rows.as_slice());
        }
        if let Some((num, den)) = stream.frame_rate {
            if num > 0 && den > 0 {
                let info = rate_info(num, den);
                proof {
                    lemma_info_body_len(num, den);
                }
                put_packet(&mut out, INFO_STARTCODE, info.as_slice());
            }
        }
        assert(out@ =~= header_bytes(stream@, annotated));
        let muxer = Muxer { out, stream: stream.clone(), annotated, since: None, trailing: false };
        Ok(muxer)
    }

    /// Writes one frame of a raw stream, which is always a keyframe.
    pub fn write_frame(&mut self, pts: i64, data: &[u8]) -> (written: Result<(), Error>)
        requires
            old(self).wf(),
        ensures
            final(self).wf(),
            match old(self)@.frame_written(pts, data@) {
                Ok(after) => written is Ok && final(self)@ == after,
                Err(error) => written matches Err(got) && got@ == error && final(self)@
                    == old(self)@,
            },
    {
        if self.stream.codec_name().is_some() {
            return Err(
                Error::about(Problem::FrameOnCoded, copy_bytes(self.stream.fourcc.as_slice())),
            );
        }
        if pts < 0 {
            return Err(Error::of(Problem::NegativePts { pts }));
        }
        self.put_frame(0, pts, true, data);
        Ok(())
    }

    /// Writes one packet of an encoded stream. Packets go in decode order;
    /// `packet.dts` is not written, since a reader works it out of the pts
    /// values in the order they arrive.
    pub fn write_coded(&mut self, packet: &Packet, data: &[u8]) -> (written: Result<(), Error>)
        requires
            old(self).wf(),
        ensures
            final(self).wf(),
            match old(self)@.coded_written(*packet, data@) {
                Ok(after) => written is Ok && final(self)@ == after,
                Err(error) => written matches Err(got) && got@ == error && final(self)@
                    == old(self)@,
            },
    {
        if self.stream.codec_name().is_none() {
            return Err(
                Error::about(Problem::CodedOnRaw, copy_bytes(self.stream.fourcc.as_slice())),
            );
        }
        if packet.pts < 0 {
            return Err(Error::of(Problem::NegativePts { pts: packet.pts }));
        }
        self.put_frame(0, packet.pts, packet.keyframe, data);
        Ok(())
    }

    /// Writes the rows of the frame at `pts`, which is to be written next. A
    /// frame with no rows gets no packet.
    pub fn write_rows(&mut self, pts: i64, rows: &[String]) -> (written: Result<(), Error>)
        requires
            old(self).wf(),
        ensures
            final(self).wf(),
            match old(self)@.rows_written(pts, rows_view(rows@)) {
                Ok(after) => written is Ok && final(self)@ == after,
                Err(error) => written matches Err(got) && got@ == error && final(self)@
                    == old(self)@,
            },
    {
        if !self.annotated {
            return Err(Error::of(Problem::RowsNotAsked));
        }
        let ghost all = rows_view(rows@);
        let mut i: usize = 0;
        while i < rows.len()
            invariant
                i <= rows@.len(),
                all == rows_view(rows@),
                self.wf(),
                self@ == old(self)@,
                self@.annotated,
                first_split(all, 0) == first_split(all, i as int),
            decreases rows@.len() - i,
        {
            if !is_one_line(rows[i].as_str()) {
                return Err(Error::of(Problem::RowNotOneLine { row: i as u64 }));
            }
            i += 1;
        }
        if rows.len() == 0 {
            return Ok(());
        }
        let text = join_rows(rows);
        self.put_text(pts, text.as_str())
    }

    /// Writes the record of the rows no frame claims, after every frame's.
    /// There is at most one.
    pub fn write_trailing(&mut self, pts: i64, rows: &[String]) -> (written: Result<(), Error>)
        requires
            old(self).wf(),
        ensures
            final(self).wf(),
            match old(self)@.trailing_written(pts, rows_view(rows@)) {
                Ok(after) => written is Ok && final(self)@ == after,
                Err(error) => written matches Err(got) && got@ == error && final(self)@
                    == old(self)@,
            },
    {
        if !self.annotated {
            return Err(Error::of(Problem::RowsNotAsked));
        }
        if rows.len() == 0 {
            return Ok(());
        }
        if self.trailing {
            return Err(Error::of(Problem::SecondTrailing));
        }
        if !check_json(rows) {
            return Err(Error::of(Problem::TrailingNotJson));
        }
        let text = record_rows(rows);
        self.put_text(pts, text.as_str())?;
        self.trailing = true;
        Ok(())
    }

    /// The bytes written so far, taken out of the muxer.
    pub fn take(&mut self) -> (bytes: Vec<u8>)
        requires
            old(self).wf(),
        ensures
            final(self).wf(),
            bytes@ == old(self)@.out,
            final(self)@ == (MuxV { out: Seq::empty(), ..old(self)@ }),
    {
        let mut bytes: Vec<u8> = Vec::new();
        std::mem::swap(&mut bytes, &mut self.out);
        assert(self.out@ =~= Seq::empty());
        bytes
    }

    /// The bytes written that have not been taken, where nothing more is
    /// coming. NUT closes with nothing of its own: a stream ends where its
    /// last packet does.
    pub fn finish(self) -> (bytes: Vec<u8>)
        ensures
            bytes@ == self@.out,
    {
        self.out
    }

    /// Writes some text on the annotation stream.
    fn put_text(&mut self, pts: i64, text: &str) -> (written: Result<(), Error>)
        requires
            old(self).wf(),
        ensures
            final(self).wf(),
            match old(self)@.text_written(pts, text@) {
                Ok(after) => written is Ok && final(self)@ == after,
                Err(error) => written matches Err(got) && got@ == error && final(self)@
                    == old(self)@,
            },
    {
        let data = text.as_bytes();
        if pts < 0 {
            return Err(Error::of(Problem::NegativePts { pts }));
        }
        let len = data.len() as u64;
        if len > MAX_ANNOTATION_BYTES {
            return Err(Error::of(Problem::RowsTooLong { len }));
        }
        self.put_frame(ANNOTATION_STREAM_ID, pts, true, data);
        Ok(())
    }

    /// Writes a syncpoint where one is due, and a frame.
    fn put_frame(&mut self, id: u64, pts: i64, keyframe: bool, data: &[u8])
        requires
            old(self).wf(),
            pts >= 0,
        ensures
            final(self).wf(),
            final(self)@ == old(self)@.with_frame(id as nat, pts, keyframe, data@),
    {
        let ghost before = self@;
        let mut bytes: Vec<u8> = Vec::new();
        let back: u64 = match self.since {
            Some(since) => if since > MAX_DISTANCE {
                put_syncpoint(&mut bytes, pts);
                0
            } else {
                since
            },
            None => {
                put_syncpoint(&mut bytes, pts);
                0
            },
        };
        let shift = self.stream.msb_pts_shift;
        let mut head: Vec<u8> = Vec::new();
        head.push(FRAME_CODE);
        put_v(
            &mut head,
            if keyframe {
                FRAME_FLAGS + flags::KEY
            } else {
                FRAME_FLAGS
            },
        );
        put_v(&mut head, id);
        proof {
            lemma_whole_pts(0, shift, pts);
            vstd::bits::lemma_u64_pow2_no_overflow(shift as nat);
            vstd::bits::lemma_u64_shl_is_mul(1, shift as u64);
        }
        put_v(&mut head, pts as u64 + (1u64 << (shift as u64)));
        put_v(&mut head, data.len() as u64);
        assert(head@ =~= frame_head_bytes(id as nat, shift, pts, keyframe, data@.len()));
        put_bytes(&mut bytes, head.as_slice());
        put_u32(&mut bytes, crc32(head.as_slice()));
        put_bytes(&mut bytes, data);
        assert(bytes@ =~= before.frame_on_wire(id as nat, pts, keyframe, data@));
        put_bytes(&mut self.out, bytes.as_slice());
        self.since = Some(back.saturating_add(bytes.len() as u64));
    }
}

/// Appends a syncpoint.
fn put_syncpoint(out: &mut Vec<u8>, pts: i64)
    requires
        pts >= 0,
    ensures
        final(out)@ == old(out)@ + packet_bytes(SYNCPOINT_STARTCODE, syncpoint_body(pts)),
{
    let mut body: Vec<u8> = Vec::new();
    put_v(&mut body, pts as u64);
    put_v(&mut body, 0);
    assert(body@ =~= syncpoint_body(pts));
    proof {
        lemma_syncpoint_len(pts);
    }
    put_packet(out, SYNCPOINT_STARTCODE, body.as_slice());
}

/// No frame starts further behind the last syncpoint than the writer
/// promised: either one is put right ahead of it, or the last is near enough.
pub proof fn lemma_syncpoints_are_near(m: MuxV, id: nat, pts: i64, keyframe: bool, data: Seq<u8>)
    requires
        pts >= 0,
    ensures
        m.due() || m.since->Some_0 <= MAX_DISTANCE,
        m.due() ==> m.with_frame(id, pts, keyframe, data).out == m.out + packet_bytes(
            SYNCPOINT_STARTCODE,
            syncpoint_body(pts),
        ) + frame_bytes(id, m.stream.msb_pts_shift, pts, keyframe, data),
        !m.due() ==> m.with_frame(id, pts, keyframe, data).out == m.out + frame_bytes(
            id,
            m.stream.msb_pts_shift,
            pts,
            keyframe,
            data,
        ),
{
    assert(m.out + (packet_bytes(SYNCPOINT_STARTCODE, syncpoint_body(pts)) + frame_bytes(
        id,
        m.stream.msb_pts_shift,
        pts,
        keyframe,
        data,
    )) =~= m.out + packet_bytes(SYNCPOINT_STARTCODE, syncpoint_body(pts)) + frame_bytes(
        id,
        m.stream.msb_pts_shift,
        pts,
        keyframe,
        data,
    ));
}

} // verus!
