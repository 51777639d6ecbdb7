//! What each thing the muxer writes reads back as.

use vstd::arithmetic::power2::pow2;
use vstd::prelude::*;
use vstd::utf8::{encode_utf8, encode_utf8_decode_utf8, encode_utf8_valid_utf8};

use crate::bytes::{
    be_bytes, holds_at, lemma_be_len, lemma_holds_between, lemma_holds_split, lemma_holds_whole,
    lemma_s_round_trip, lemma_u32_round_trip, lemma_u64_round_trip, lemma_v_len, lemma_v_round_trip,
    lemma_vb_round_trip, s_bytes, spec_crc32, spec_u32, v_bytes, vb_bytes, MAX_VB_LEN,
};
use crate::clock::{lemma_whole_pts, rescaled};
use crate::error::{ErrorV, Halt, Part, Problem};
use crate::flags;
use crate::frame::{
    ceiling_for, checksum_stage, elision_stage, flagged, flags_stage, frame_head, frame_parts,
    pts_stage, reserved_stage, size_stage, stream_stage, FrameHead,
};
use crate::headers::{
    audio_fields, media_fields, stream_fields, syncpoint_fields, video_fields, MAX_DECODE_DELAY,
    PTS_SHIFT_LIMIT,
};
use crate::info::{
    all_digits, digits_value, info_fields, info_fields_from, number_of, rate_of, Info, RATE_NAME,
};
use crate::known::KnownV;
use crate::mux::{
    frame_bytes, frame_flags, frame_head_bytes, geometry_bytes, group_bytes, info_body, main_body,
    media_unwritable, packet_bytes, rate_text, stream_body, syncpoint_body, table_bytes, FRAME_CODE,
};
use crate::packet::{is_header, opening, packet_at, part_of, unsealed, FrontV};
use crate::stream::{lemma_codec_by_tag, Media, StreamV, TimeBase};
use crate::tables::{
    body_v, carried_at_first, codes_from, group_at, group_code, invalid_code, main_fields,
    time_bases_from, with_group, Carried, FrameCode, Group, MainHeaderV, FRAME_CODES,
    STARTCODE_BYTE,
};
use crate::text::{decimal, lemma_decimal_len, lemma_utf8_len, pow10, trimmed};
use crate::{INFO_STARTCODE, MAX_DISTANCE, VERSION};

verus! {

/// The first byte of every startcode the muxer writes.
proof fn lemma_startcode_byte(startcode: u64)
    requires
        is_header(startcode) || startcode == INFO_STARTCODE,
    ensures
        be_bytes(startcode as nat, 8)[0] == STARTCODE_BYTE,
{
    let n = startcode as nat;
    lemma_be_first(n, 8);
    lemma_be_first(n / 0x100, 7);
    lemma_be_first(n / 0x100 / 0x100, 6);
    lemma_be_first(n / 0x100 / 0x100 / 0x100, 5);
    lemma_be_first(n / 0x100 / 0x100 / 0x100 / 0x100, 4);
    lemma_be_first(n / 0x100 / 0x100 / 0x100 / 0x100 / 0x100, 3);
    lemma_be_first(n / 0x100 / 0x100 / 0x100 / 0x100 / 0x100 / 0x100, 2);
    lemma_be_first(n / 0x100 / 0x100 / 0x100 / 0x100 / 0x100 / 0x100 / 0x100, 1);
    assert(n / 0x100 / 0x100 / 0x100 / 0x100 / 0x100 / 0x100 / 0x100 == STARTCODE_BYTE);
}

/// The first byte of a big-endian field is that of a narrower one over a
/// smaller number.
proof fn lemma_be_first(n: nat, width: nat)
    requires
        width >= 1,
    ensures
        width > 1 ==> be_bytes(n, width)[0] == be_bytes(n / 256, (width - 1) as nat)[0],
        width == 1 ==> be_bytes(n, width)[0] == n % 256,
{
    lemma_be_len(n / 256, (width - 1) as nat);
}

/// A packet the muxer wrote reads back as its body, whatever follows it.
pub proof fn lemma_packet_reads(startcode: u64, body: Seq<u8>, rest: Seq<u8>, base: int, max_header: u64)
    requires
        is_header(startcode) || startcode == INFO_STARTCODE,
        body.len() + 4 <= max_header,
    ensures
        ({
            let bytes = packet_bytes(startcode, body) + rest;
            &&& bytes.len() > 0
            &&& bytes[0] == STARTCODE_BYTE
            &&& packet_at(bytes, base, max_header) == Ok::<(FrontV, int), Halt>(
                (FrontV::Body { startcode, body }, packet_bytes(startcode, body).len() as int),
            )
        }),
{
    broadcast use {lemma_be_len, lemma_v_len};

    let bytes = packet_bytes(startcode, body) + rest;
    let code = be_bytes(startcode as nat, 8);
    let len = (body.len() + 4) as u64;
    let length = v_bytes(len as nat);
    let head = code + length;
    let crc = be_bytes(spec_crc32(body) as nat, 4);
    let sealed = body + crc;
    lemma_startcode_byte(startcode);
    lemma_u64_round_trip(startcode);
    assert(bytes.subrange(0, 8) =~= code);
    assert(bytes[0] == code[0]);
    let middle = if len > 4096 {
        be_bytes(spec_crc32(head) as nat, 4)
    } else {
        Seq::empty()
    };
    assert(bytes =~= code + length + (middle + sealed + rest));
    lemma_holds_between(code, length, middle + sealed + rest);
    lemma_v_round_trip(bytes, 8, base, len);
    let at = 8 + length.len() as int;
    let body_at = at + middle.len();
    assert(bytes =~= (head + middle) + sealed + rest);
    lemma_holds_between(head + middle, sealed, rest);
    if len > 4096 {
        assert(spec_u32(bytes, at).0 is Ok);
        assert(spec_u32(bytes, at).1 == at + 4);
    }
    assert(opening(bytes, base) == Ok::<((u64, u64), int), Halt>(((startcode, len), body_at)));
    assert(bytes.subrange(body_at, body_at + len) =~= sealed);
    assert(sealed.take(sealed.len() - 4) =~= body);
    assert(sealed.skip(sealed.len() - 4) =~= crc);
    assert(crc.subrange(0, 4) =~= crc);
    lemma_holds_whole(crc);
    lemma_u32_round_trip(crc, 0, spec_crc32(body));
    assert(unsealed(sealed, part_of(startcode)) == Ok::<Seq<u8>, Problem>(body));
}

// The main header.

/// The framecode every frame is written with, as it reads back.
pub open spec fn explicit_code() -> FrameCode {
    FrameCode {
        flags: flags::CODED,
        stream_id: 0,
        size_mul: 1,
        size_lsb: 0,
        pts_delta: 0,
        reserved_count: 0,
        header_idx: 0,
    }
}

/// One group the muxer wrote, as it reads back.
spec fn written_group(flags: u64, size_mul: u64, count: u64) -> Group {
    Group {
        flags,
        carried: Carried { pts_delta: 0, size_mul, stream_id: 0, header_idx: 0 },
        size_lsb: 0,
        reserved_count: 0,
        count,
    }
}

proof fn lemma_group_reads(
    bytes: Seq<u8>,
    at: int,
    carried: Carried,
    flags: u64,
    size_mul: u64,
    count: u64,
)
    requires
        holds_at(bytes, at, group_bytes(flags, size_mul, count)),
        carried.header_idx == 0,
    ensures
        group_at(bytes, at, 0, carried) == Ok::<(Group, int), Halt>(
            (
                written_group(flags, size_mul, count),
                at + group_bytes(flags, size_mul, count).len(),
            ),
        ),
{
    let zero = v_bytes(0);
    let p1 = v_bytes(flags as nat);
    let p2 = p1 + v_bytes(6);
    let p3 = p2 + s_bytes(0);
    let p4 = p3 + v_bytes(size_mul as nat);
    let p5 = p4 + zero;
    let p6 = p5 + zero;
    let p7 = p6 + zero;
    lemma_holds_split(bytes, at, p7, v_bytes(count as nat));
    lemma_holds_split(bytes, at, p6, zero);
    lemma_holds_split(bytes, at, p5, zero);
    lemma_holds_split(bytes, at, p4, zero);
    lemma_holds_split(bytes, at, p3, v_bytes(size_mul as nat));
    lemma_holds_split(bytes, at, p2, s_bytes(0));
    lemma_holds_split(bytes, at, p1, v_bytes(6));
    lemma_v_round_trip(bytes, at, 0, flags);
    lemma_v_round_trip(bytes, at + p1.len(), 0, 6);
    lemma_s_round_trip(bytes, at + p2.len(), 0, 0);
    lemma_v_round_trip(bytes, at + p3.len(), 0, size_mul);
    lemma_v_round_trip(bytes, at + p4.len(), 0, 0);
    lemma_v_round_trip(bytes, at + p5.len(), 0, 0);
    lemma_v_round_trip(bytes, at + p6.len(), 0, 0);
    lemma_v_round_trip(bytes, at + p7.len(), 0, count);
}

/// A group that has just enough entries for the rest of the table fills it,
/// and leaves what is there alone.
proof fn lemma_group_fills(codes: Seq<FrameCode>, group: Group, taken: nat)
    requires
        taken <= group.count,
        codes.len() <= STARTCODE_BYTE ==> codes.len() + group.count - taken == FRAME_CODES - 1,
        codes.len() > STARTCODE_BYTE ==> codes.len() + group.count - taken == FRAME_CODES,
    ensures
        with_group(codes, group, taken).len() == FRAME_CODES,
        forall|i: int|
            0 <= i < codes.len() ==> #[trigger] with_group(codes, group, taken)[i] == codes[i],
    decreases FRAME_CODES - codes.len(),
{
    if taken < group.count && codes.len() < FRAME_CODES {
        let more = if codes.len() == STARTCODE_BYTE {
            codes.push(invalid_code())
        } else {
            codes.push(group_code(group, taken))
        };
        let used = if codes.len() == STARTCODE_BYTE {
            taken
        } else {
            taken + 1
        };
        lemma_group_fills(more, group, used);
        assert forall|i: int| 0 <= i < codes.len() implies #[trigger] with_group(
            codes,
            group,
            taken,
        )[i] == codes[i] by {
            assert(with_group(more, group, used)[i] == more[i]);
        }
    }
}

proof fn lemma_table_reads(bytes: Seq<u8>, at: int)
    requires
        holds_at(bytes, at, table_bytes()),
    ensures
        codes_from(bytes, at, 0, Seq::empty(), carried_at_first(), 0) matches Ok((codes, next)) && next
            == at + table_bytes().len() && codes.len() == FRAME_CODES && codes[FRAME_CODE as int]
            == explicit_code(),
{
    reveal(table_bytes);
    let g1 = group_bytes(flags::INVALID, 0, 1);
    let g2 = group_bytes(flags::CODED, 1, 1);
    let g3 = group_bytes(flags::INVALID, 0, 253);
    lemma_holds_split(bytes, at, g1 + g2, g3);
    lemma_holds_split(bytes, at, g1, g2);
    let w1 = written_group(flags::INVALID, 0, 1);
    let w2 = written_group(flags::CODED, 1, 1);
    let w3 = written_group(flags::INVALID, 0, 253);
    lemma_group_reads(bytes, at, carried_at_first(), flags::INVALID, 0, 1);
    lemma_group_reads(bytes, at + g1.len(), w1.carried, flags::CODED, 1, 1);
    lemma_group_reads(bytes, at + (g1 + g2).len(), w2.carried, flags::INVALID, 0, 253);
    let none = Seq::<FrameCode>::empty();
    let c1 = with_group(none, w1, 0);
    let c2 = with_group(c1, w2, 0);
    let c3 = with_group(c2, w3, 0);
    assert(c1 == none.push(group_code(w1, 0))) by {
        reveal_with_fuel(with_group, 2);
    }
    assert(c2 == c1.push(group_code(w2, 0))) by {
        reveal_with_fuel(with_group, 2);
    }
    lemma_group_fills(c2, w3, 0);
    assert(c3[1] == c2[1]);
    reveal_with_fuel(codes_from, 4);
}

/// A main header the muxer wrote says what it was written from, and leaves
/// tables the muxer's frames are read through.
pub proof fn lemma_main_reads(streams: usize, time_base: TimeBase, max_streams: usize)
    requires
        1 <= streams <= max_streams,
        time_base.num > 0,
        time_base.den > 0,
    ensures
        main_fields(main_body(streams as nat, time_base), max_streams) matches Ok((header, tables)) && {
            &&& header == (MainHeaderV {
                version: VERSION,
                stream_count: streams,
                max_distance: MAX_DISTANCE,
                time_bases: seq![time_base],
            })
            &&& tables.time_bases == seq![time_base]
            &&& tables.frame_codes.len() == FRAME_CODES
            &&& tables.frame_codes[FRAME_CODE as int] == explicit_code()
            &&& tables.elision == seq![Seq::<u8>::empty()]
        },
{
    let body = main_body(streams as nat, time_base);
    let p1 = v_bytes(VERSION as nat);
    let p2 = p1 + v_bytes(streams as nat);
    let p3 = p2 + v_bytes(MAX_DISTANCE as nat);
    let p4 = p3 + v_bytes(1);
    let p5 = p4 + v_bytes(time_base.num as nat);
    let p6 = p5 + v_bytes(time_base.den as nat);
    let p7 = p6 + table_bytes();
    lemma_holds_whole(body);
    lemma_holds_split(body, 0, p7, v_bytes(0));
    lemma_holds_split(body, 0, p6, table_bytes());
    lemma_holds_split(body, 0, p5, v_bytes(time_base.den as nat));
    lemma_holds_split(body, 0, p4, v_bytes(time_base.num as nat));
    lemma_holds_split(body, 0, p3, v_bytes(1));
    lemma_holds_split(body, 0, p2, v_bytes(MAX_DISTANCE as nat));
    lemma_holds_split(body, 0, p1, v_bytes(streams as nat));
    lemma_v_round_trip(body, 0, 0, VERSION);
    lemma_v_round_trip(body, p1.len() as int, 0, streams as u64);
    lemma_v_round_trip(body, p2.len() as int, 0, MAX_DISTANCE);
    lemma_v_round_trip(body, p3.len() as int, 0, 1);
    lemma_v_round_trip(body, p4.len() as int, 0, time_base.num);
    lemma_v_round_trip(body, p5.len() as int, 0, time_base.den);
    lemma_table_reads(body, p6.len() as int);
    lemma_v_round_trip(body, p7.len() as int, 0, 0);
    reveal_with_fuel(time_bases_from, 2);
    assert(Seq::<TimeBase>::empty().push(time_base) =~= seq![time_base]);
    assert(time_bases_from(body, p4.len() as int, 1, Seq::empty()) == Ok::<
        (Seq<TimeBase>, int),
        Halt,
    >((seq![time_base], p6.len() as int)));
}

// Stream headers.

/// A stream as its header says it: what only an info packet states is not
/// there.
pub open spec fn unrated(stream: StreamV) -> StreamV {
    StreamV { frame_rate: None, ..stream }
}

/// Whether a stream's header is one a reader takes.
pub open spec fn readable(stream: StreamV) -> bool {
    &&& stream.time_base.num > 0
    &&& stream.time_base.den > 0
    &&& stream.fourcc.len() <= MAX_VB_LEN
    &&& stream.extradata.len() <= MAX_VB_LEN
    &&& stream.msb_pts_shift < PTS_SHIFT_LIMIT
    &&& stream.decode_delay <= MAX_DECODE_DELAY
    &&& media_unwritable(stream.media) is None
    &&& stream.decode_delay != 0 ==> stream.codec_name() is Some
}

proof fn lemma_video_reads(
    bytes: Seq<u8>,
    at: int,
    width: u32,
    height: u32,
    sample_width: u64,
    sample_height: u64,
    colorspace_type: u64,
)
    requires
        holds_at(
            bytes,
            at,
            geometry_bytes(
                Media::Video { width, height, sample_width, sample_height, colorspace_type },
            ),
        ),
        width != 0,
        height != 0,
    ensures
        video_fields(bytes, at, 0) matches Ok((media, _)) && media == (Media::Video {
            width,
            height,
            sample_width,
            sample_height,
            colorspace_type,
        }),
{
    let p1 = v_bytes(width as nat);
    let p2 = p1 + v_bytes(height as nat);
    let p3 = p2 + v_bytes(sample_width as nat);
    let p4 = p3 + v_bytes(sample_height as nat);
    lemma_holds_split(bytes, at, p4, v_bytes(colorspace_type as nat));
    lemma_holds_split(bytes, at, p3, v_bytes(sample_height as nat));
    lemma_holds_split(bytes, at, p2, v_bytes(sample_width as nat));
    lemma_holds_split(bytes, at, p1, v_bytes(height as nat));
    lemma_v_round_trip(bytes, at, 0, width as u64);
    lemma_v_round_trip(bytes, at + p1.len(), 0, height as u64);
    lemma_v_round_trip(bytes, at + p2.len(), 0, sample_width);
    lemma_v_round_trip(bytes, at + p3.len(), 0, sample_height);
    lemma_v_round_trip(bytes, at + p4.len(), 0, colorspace_type);
    assert(body_v(bytes, at) == (Ok::<u64, Halt>(width as u64), at + p1.len()));
}

proof fn lemma_audio_reads(bytes: Seq<u8>, at: int, sample_rate: u32, channels: u32)
    requires
        holds_at(bytes, at, geometry_bytes(Media::Audio { sample_rate, channels })),
        sample_rate != 0,
        channels != 0,
    ensures
        audio_fields(bytes, at, 0) matches Ok((media, _)) && media == (Media::Audio {
            sample_rate,
            channels,
        }),
{
    let p1 = v_bytes(sample_rate as nat);
    let p2 = p1 + v_bytes(1);
    lemma_holds_split(bytes, at, p2, v_bytes(channels as nat));
    lemma_holds_split(bytes, at, p1, v_bytes(1));
    lemma_v_round_trip(bytes, at, 0, sample_rate as u64);
    lemma_v_round_trip(bytes, at + p1.len(), 0, 1);
    lemma_v_round_trip(bytes, at + p2.len(), 0, channels as u64);
}

proof fn lemma_geometry_reads(bytes: Seq<u8>, at: int, stream: StreamV)
    requires
        holds_at(bytes, at, geometry_bytes(stream.media)),
        media_unwritable(stream.media) is None,
    ensures
        media_fields(stream.class(), bytes, at, 0) matches Ok((media, _)) && media == stream.media,
{
    match stream.media {
        Media::Video { width, height, sample_width, sample_height, colorspace_type } => {
            lemma_video_reads(
                bytes,
                at,
                width,
                height,
                sample_width,
                sample_height,
                colorspace_type,
            );
        },
        Media::Audio { sample_rate, channels } => {
            lemma_audio_reads(bytes, at, sample_rate, channels);
        },
        Media::Other { .. } => {},
    }
}

/// A stream header the muxer wrote says what it was written from.
pub proof fn lemma_stream_reads(id: usize, stream: StreamV, count: nat)
    requires
        readable(stream),
        id < count,
    ensures
        stream_fields(stream_body(id as nat, stream), seq![stream.time_base], count) == Ok::<
            (usize, StreamV),
            ErrorV,
        >((id, unrated(stream))),
{
    let body = stream_body(id as nat, stream);
    let p1 = v_bytes(id as nat);
    let p2 = p1 + v_bytes(stream.class() as nat);
    let p3 = p2 + vb_bytes(stream.fourcc);
    let p4 = p3 + v_bytes(0);
    let p5 = p4 + v_bytes(stream.msb_pts_shift as nat);
    let p6 = p5 + v_bytes(stream.max_pts_distance as nat);
    let p7 = p6 + v_bytes(stream.decode_delay as nat);
    let p8 = p7 + v_bytes(0);
    let p9 = p8 + vb_bytes(stream.extradata);
    lemma_holds_whole(body);
    lemma_holds_split(body, 0, p9, geometry_bytes(stream.media));
    lemma_holds_split(body, 0, p8, vb_bytes(stream.extradata));
    lemma_holds_split(body, 0, p7, v_bytes(0));
    lemma_holds_split(body, 0, p6, v_bytes(stream.decode_delay as nat));
    lemma_holds_split(body, 0, p5, v_bytes(stream.max_pts_distance as nat));
    lemma_holds_split(body, 0, p4, v_bytes(stream.msb_pts_shift as nat));
    lemma_holds_split(body, 0, p3, v_bytes(0));
    lemma_holds_split(body, 0, p2, vb_bytes(stream.fourcc));
    lemma_holds_split(body, 0, p1, v_bytes(stream.class() as nat));
    lemma_v_round_trip(body, 0, 0, id as u64);
    lemma_v_round_trip(body, p1.len() as int, 0, stream.class());
    lemma_vb_round_trip(body, p2.len() as int, 0, Part::CodecTag, stream.fourcc);
    lemma_v_round_trip(body, p3.len() as int, 0, 0);
    lemma_v_round_trip(body, p4.len() as int, 0, stream.msb_pts_shift as u64);
    lemma_v_round_trip(body, p5.len() as int, 0, stream.max_pts_distance);
    lemma_v_round_trip(body, p6.len() as int, 0, stream.decode_delay);
    lemma_v_round_trip(body, p7.len() as int, 0, 0);
    lemma_vb_round_trip(body, p8.len() as int, 0, Part::CodecData, stream.extradata);
    lemma_geometry_reads(body, p9.len() as int, stream);
    lemma_codec_by_tag(unrated(stream), stream);
}

// Info packets.

/// A number spelled in decimal is digits, and comes to itself.
pub proof fn lemma_decimal_reads(n: nat)
    ensures
        decimal(n).len() >= 1,
        all_digits(decimal(n)),
        digits_value(decimal(n)) == n,
    decreases n,
{
    if n < 10 {
        reveal_with_fuel(digits_value, 2);
        assert(decimal(n).drop_last() =~= Seq::empty());
    } else {
        lemma_decimal_reads(n / 10);
        let text = decimal(n);
        assert(text.drop_last() =~= decimal(n / 10));
        assert forall|i: int| 0 <= i < text.len() implies 48 <= #[trigger] text[i] as u32 <= 57 by {
            if i < text.len() - 1 {
                assert(text[i] == decimal(n / 10)[i]);
            }
        }
    }
}

/// A number spelled in decimal reads back as itself.
pub proof fn lemma_number_reads(n: u64)
    ensures
        trimmed(decimal(n as nat)) == decimal(n as nat),
        number_of(decimal(n as nat)) == Some(n),
{
    lemma_decimal_reads(n as nat);
    let text = decimal(n as nat);
    assert(48 <= text[0] as u32 <= 57);
    assert(48 <= text[text.len() - 1] as u32 <= 57);
}

/// A frame rate the muxer spelled reads back as itself.
pub proof fn lemma_rate_reads(num: u64, den: u64)
    requires
        num > 0,
        den > 0,
    ensures
        rate_of(rate_text(num, den)) == Some((num, den)),
{
    reveal_strlit("/");
    let text = rate_text(num, den);
    let first = decimal(num as nat);
    let second = decimal(den as nat);
    lemma_decimal_reads(num as nat);
    lemma_decimal_reads(den as nat);
    lemma_number_reads(num);
    lemma_number_reads(den);
    let at = first.len() as int;
    assert(text[at] == '/');
    assert(text.contains('/'));
    text.index_of_first_ensures('/');
    let found = text.index_of_first('/')->Some_0;
    assert(found == at) by {
        if found < at {
            assert(text[found] == first[found]);
            assert(48 <= first[found] as u32);
        }
    }
    assert(text.take(at) =~= first);
    assert(text.skip(at + 1) =~= second);
}

/// An info packet the muxer wrote states the frame rate of the media stream.
pub proof fn lemma_info_reads(num: u64, den: u64)
    requires
        num > 0,
        den > 0,
    ensures
        info_fields(info_body(num, den)) matches Some((info, _)) && info == (Info {
            stream: Some(0),
            frame_rate: Some((num, den)),
        }),
{
    let body = info_body(num, den);
    let value = encode_utf8(rate_text(num, den));
    let p1 = v_bytes(1);
    let p2 = p1 + s_bytes(0);
    let p3 = p2 + v_bytes(0);
    let p4 = p3 + v_bytes(0);
    let p5 = p4 + v_bytes(1);
    let p6 = p5 + vb_bytes(RATE_NAME@);
    let p7 = p6 + s_bytes(-1);
    reveal_with_fuel(pow10, 21);
    lemma_decimal_len(num as nat, 20);
    lemma_decimal_len(den as nat, 20);
    reveal_strlit("/");
    lemma_utf8_len(rate_text(num, den));
    lemma_holds_whole(body);
    lemma_holds_split(body, 0, p7, vb_bytes(value));
    lemma_holds_split(body, 0, p6, s_bytes(-1));
    lemma_holds_split(body, 0, p5, vb_bytes(RATE_NAME@));
    lemma_holds_split(body, 0, p4, v_bytes(1));
    lemma_holds_split(body, 0, p3, v_bytes(0));
    lemma_holds_split(body, 0, p2, v_bytes(0));
    lemma_holds_split(body, 0, p1, s_bytes(0));
    lemma_v_round_trip(body, 0, 0, 1);
    lemma_s_round_trip(body, p1.len() as int, 0, 0);
    lemma_v_round_trip(body, p2.len() as int, 0, 0);
    lemma_v_round_trip(body, p3.len() as int, 0, 0);
    lemma_v_round_trip(body, p4.len() as int, 0, 1);
    lemma_vb_round_trip(body, p5.len() as int, 0, Part::InfoName, RATE_NAME@);
    lemma_s_round_trip(body, p6.len() as int, 0, -1i64 as i64);
    lemma_vb_round_trip(body, p7.len() as int, 0, Part::InfoValue, value);
    encode_utf8_valid_utf8(rate_text(num, den));
    encode_utf8_decode_utf8(rate_text(num, den));
    lemma_rate_reads(num, den);
    reveal_with_fuel(info_fields_from, 2);
}

// Syncpoints.

/// A syncpoint the muxer wrote says where the stream is.
pub proof fn lemma_syncpoint_reads(pts: i64, time_base: TimeBase)
    requires
        pts >= 0,
    ensures
        syncpoint_fields(syncpoint_body(pts), seq![time_base]) == Ok::<(int, TimeBase), Halt>(
            (pts as int, time_base),
        ),
{
    let body = syncpoint_body(pts);
    let p1 = v_bytes(pts as nat);
    lemma_holds_whole(body);
    lemma_holds_split(body, 0, p1, v_bytes(0));
    lemma_v_round_trip(body, 0, 0, pts as u64);
    lemma_v_round_trip(body, p1.len() as int, 0, 0);
    assert(seq![time_base].len() == 1);
    assert(pts as int / 1 == pts && pts as int % 1 == 0);
}

/// A number of ticks is itself in its own time base.
pub proof fn lemma_own_base(ticks: int, time_base: TimeBase)
    requires
        ticks >= 0,
        time_base.num > 0,
        time_base.den > 0,
    ensures
        rescaled(ticks, time_base, time_base) == ticks,
{
    let up = time_base.num * time_base.den;
    let down = time_base.den * time_base.num;
    assert(up == down && down > 0) by (nonlinear_arith)
        requires
            up == time_base.num * time_base.den,
            down == time_base.den * time_base.num,
            time_base.num > 0,
            time_base.den > 0,
    ;
    vstd::arithmetic::div_mod::lemma_div_multiples_vanish(ticks, down);
    assert(ticks * down == down * ticks) by (nonlinear_arith);
}

// Frames.

/// The flags of a frame the muxer wrote, as they read back.
pub open spec fn read_flags(keyframe: bool) -> u64 {
    flags::CODED ^ frame_flags(keyframe)
}

/// The flags of a frame the muxer wrote say what it has, and nothing it has
/// not.
pub proof fn lemma_read_flags(keyframe: bool)
    ensures
        flagged(flags::CODED, flags::CODED),
        !flagged(flags::CODED, flags::INVALID),
        flagged(read_flags(keyframe), flags::KEY) == keyframe,
        !flagged(read_flags(keyframe), flags::EOR),
        flagged(read_flags(keyframe), flags::CODED_PTS),
        flagged(read_flags(keyframe), flags::STREAM_ID),
        flagged(read_flags(keyframe), flags::SIZE_MSB),
        flagged(read_flags(keyframe), flags::CHECKSUM),
        !flagged(read_flags(keyframe), flags::RESERVED),
        !flagged(read_flags(keyframe), flags::SM_DATA),
        !flagged(read_flags(keyframe), flags::HEADER_IDX),
        !flagged(read_flags(keyframe), flags::MATCH_TIME),
{
    assert(4096u64 & 4096 != 0 && 4096u64 & 8192 == 0) by (bit_vector);
    if keyframe {
        assert((4096u64 ^ 121) & 1 != 0 && (4096u64 ^ 121) & 2 == 0 && (4096u64 ^ 121) & 8 != 0 && (
        4096u64 ^ 121) & 16 != 0 && (4096u64 ^ 121) & 32 != 0 && (4096u64 ^ 121) & 64 != 0 && (
        4096u64 ^ 121) & 128 == 0 && (4096u64 ^ 121) & 256 == 0 && (4096u64 ^ 121) & 1024 == 0 && (
        4096u64 ^ 121) & 2048 == 0) by (bit_vector);
    } else {
        assert((4096u64 ^ 120) & 1 == 0 && (4096u64 ^ 120) & 2 == 0 && (4096u64 ^ 120) & 8 != 0 && (
        4096u64 ^ 120) & 16 != 0 && (4096u64 ^ 120) & 32 != 0 && (4096u64 ^ 120) & 64 != 0 && (
        4096u64 ^ 120) & 128 == 0 && (4096u64 ^ 120) & 256 == 0 && (4096u64 ^ 120) & 1024 == 0 && (
        4096u64 ^ 120) & 2048 == 0) by (bit_vector);
    }
}

/// Whether what is known is what the muxer's own headers leave: its one
/// framecode, nothing elided, and every stream described.
pub open spec fn reads_frames(known: KnownV) -> bool {
    &&& known.wf()
    &&& known.complete()
    &&& known.main->Some_0.frame_codes[FRAME_CODE as int] == explicit_code()
    &&& known.main->Some_0.elision == seq![Seq::<u8>::empty()]
}

/// The parts of a frame header the muxer wrote, ahead of its checksum.
proof fn lemma_frame_parts_read(
    bytes: Seq<u8>,
    id: usize,
    shift: u32,
    pts: i64,
    keyframe: bool,
    size: u64,
    base: int,
    known: KnownV,
)
    requires
        reads_frames(known),
        id < known.streams.len(),
        known.streams[id as int]->Some_0.msb_pts_shift == shift,
        pts >= 0,
        holds_at(bytes, 0, frame_head_bytes(id as nat, shift, pts, keyframe, size as nat)),
        bytes.len() > 0,
        bytes[0] == FRAME_CODE,
    ensures
        frame_parts(bytes, base, known) == Ok::<(FrameHead, int), Halt>(
            (
                FrameHead { flags: read_flags(keyframe), stream: id, pts, size, header_idx: 0 },
                frame_head_bytes(id as nat, shift, pts, keyframe, size as nat).len() as int,
            ),
        ),
{
    let head = frame_head_bytes(id as nat, shift, pts, keyframe, size as nat);
    assert(known.streams[id as int] is Some);
    assert(shift < 63);
    let last = known.clocks[id as int].last_pts;
    lemma_whole_pts(last, shift, pts);
    let time = (pts + pow2(shift as nat)) as u64;
    let p1 = seq![FRAME_CODE];
    let p2 = p1 + v_bytes(frame_flags(keyframe) as nat);
    let p3 = p2 + v_bytes(id as nat);
    let p4 = p3 + v_bytes(time as nat);
    lemma_holds_split(bytes, 0, p4, v_bytes(size as nat));
    lemma_holds_split(bytes, 0, p3, v_bytes(time as nat));
    lemma_holds_split(bytes, 0, p2, v_bytes(id as nat));
    lemma_holds_split(bytes, 0, p1, v_bytes(frame_flags(keyframe) as nat));
    lemma_v_round_trip(bytes, 1, base, frame_flags(keyframe));
    lemma_v_round_trip(bytes, p2.len() as int, base, id as u64);
    lemma_v_round_trip(bytes, p3.len() as int, base, time);
    lemma_v_round_trip(bytes, p4.len() as int, base, size);
    lemma_read_flags(keyframe);
    let code = explicit_code();
    let flags = read_flags(keyframe);
    let end = head.len() as int;
    assert(flags_stage(bytes, base, code) == Ok::<(u64, int), Halt>((flags, p2.len() as int)));
    assert(stream_stage(bytes, p2.len() as int, base, code, flags, known.streams.len()) == Ok::<
        (usize, int),
        Halt,
    >((id, p3.len() as int)));
    assert(pts_stage(bytes, p3.len() as int, base, code, flags, last, shift) == Ok::<
        (i64, int),
        Halt,
    >((pts, p4.len() as int)));
    assert(size * 1 + 0 == size);
    assert(size_stage(bytes, p4.len() as int, base, code, flags) == Ok::<(u64, int), Halt>(
        (size, end),
    ));
    assert(elision_stage(bytes, end, base, code, flags, 1) == Ok::<(u64, int), Halt>((0, end)));
    assert(reserved_stage(bytes, end, base, code, flags) == Ok::<((), int), Halt>(((), end)));
}

/// A frame header the muxer wrote says what the frame was written from.
pub proof fn lemma_frame_head_reads(
    id: usize,
    shift: u32,
    pts: i64,
    keyframe: bool,
    data: Seq<u8>,
    rest: Seq<u8>,
    base: int,
    known: KnownV,
    ceilings: Seq<Option<u64>>,
    max_frame: u64,
)
    requires
        reads_frames(known),
        id < known.streams.len(),
        known.streams[id as int]->Some_0.msb_pts_shift == shift,
        pts >= 0,
        data.len() <= ceiling_for(ceilings, max_frame, id as int),
    ensures
        frame_head(
            frame_bytes(id as nat, shift, pts, keyframe, data) + rest,
            base,
            known,
            ceilings,
            max_frame,
        ) == Ok::<(FrameHead, int), Halt>(
            (
                FrameHead {
                    flags: read_flags(keyframe),
                    stream: id,
                    pts,
                    size: data.len() as u64,
                    header_idx: 0,
                },
                frame_head_bytes(id as nat, shift, pts, keyframe, data.len()).len() as int + 4,
            ),
        ),
        (frame_bytes(id as nat, shift, pts, keyframe, data) + rest)[0] == FRAME_CODE,
{
    broadcast use lemma_be_len;

    let bytes = frame_bytes(id as nat, shift, pts, keyframe, data) + rest;
    let head = frame_head_bytes(id as nat, shift, pts, keyframe, data.len());
    let crc = be_bytes(spec_crc32(head) as nat, 4);
    let end = head.len() as int;
    assert(bytes =~= head + crc + (data + rest));
    assert(Seq::<u8>::empty() + head + (crc + data + rest) =~= bytes);
    lemma_holds_between(Seq::empty(), head, crc + data + rest);
    lemma_holds_between(head, crc, data + rest);
    assert(bytes[0] == head[0]);
    lemma_frame_parts_read(bytes, id, shift, pts, keyframe, data.len() as u64, base, known);
    assert(bytes.subrange(0, end) =~= head);
    lemma_u32_round_trip(bytes, end, spec_crc32(head));
    lemma_read_flags(keyframe);
    assert(checksum_stage(bytes, end, read_flags(keyframe)) == Ok::<((), int), Halt>(
        ((), end + 4),
    ));
}

} // verus!
