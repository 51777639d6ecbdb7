//! Every way a wire is refused, or something to go on one: the message, and
//! the sort of failure it is.

use ffrwd_nut::error::{Error, ErrorKind};
use ffrwd_nut::{
    adts, crc32, Demuxer, Event, Limits, Media, Muxer, Packet, PushDemuxer, Stream, TimeBase,
    FILE_ID, INDEX_STARTCODE, MAIN_STARTCODE, STREAM_STARTCODE, SYNCPOINT_STARTCODE,
};

// Wires by hand.

const CODED_PTS: u64 = 8;
const STREAM_ID: u64 = 16;
const SIZE_MSB: u64 = 32;
const CHECKSUM: u64 = 64;
const RESERVED: u64 = 128;
const SM_DATA: u64 = 256;
const HEADER_IDX: u64 = 1024;
const CODED: u64 = 4096;
const INVALID: u64 = 8192;

fn v(out: &mut Vec<u8>, value: u64) {
    let mut groups = vec![(value & 0x7f) as u8];
    let mut left = value >> 7;
    while left > 0 {
        groups.push((left & 0x7f) as u8 | 0x80);
        left >>= 7;
    }
    groups.reverse();
    out.extend(groups);
}

fn fields(values: &[u64]) -> Vec<u8> {
    let mut out = Vec::new();
    for value in values {
        v(&mut out, *value);
    }
    out
}

fn vb(out: &mut Vec<u8>, bytes: &[u8]) {
    v(out, bytes.len() as u64);
    out.extend_from_slice(bytes);
}

fn packet(startcode: u64, body: &[u8]) -> Vec<u8> {
    let mut out = startcode.to_be_bytes().to_vec();
    v(&mut out, body.len() as u64 + 4);
    if body.len() + 4 > 4096 {
        let head = crc32(&out).to_be_bytes();
        out.extend(head);
    }
    out.extend_from_slice(body);
    out.extend(crc32(body).to_be_bytes());
    out
}

/// The main header of `streams` streams, its one framecode scaling sizes by
/// `size_mul`, with some elision headers.
fn main_of(streams: u64, size_mul: u64, elision: &[&[u8]]) -> Vec<u8> {
    let mut body = fields(&[3, streams, 32_767, 2, 1, 25, 1, 48_000]);
    for (flags, mul, count) in [(INVALID, 0, 1), (CODED, size_mul, 1), (INVALID, 0, 253)] {
        body.extend(fields(&[flags, 6, 0, mul, 0, 0, 0, count]));
    }
    v(&mut body, elision.len() as u64);
    for header in elision {
        vb(&mut body, header);
    }
    packet(MAIN_STARTCODE, &body)
}

/// A stream header: the fields ahead of its codec data, and those behind it.
fn stream_of(id: u64, class: u64, tag: &[u8], base: u64, rest: [u64; 3], tail: &[u64]) -> Vec<u8> {
    let mut body = fields(&[id, class]);
    vb(&mut body, tag);
    body.extend(fields(&[base, rest[0], rest[1], rest[2], 0]));
    vb(&mut body, &[]);
    body.extend(fields(tail));
    packet(STREAM_STARTCODE, &body)
}

fn video() -> Vec<u8> {
    stream_of(0, 0, b"I420", 0, [14, 0, 0], &[4, 4, 1, 1, 0])
}

fn syncpoint(ticks: u64) -> Vec<u8> {
    packet(SYNCPOINT_STARTCODE, &fields(&[ticks * 2, 0]))
}

fn frame(flags: u64, rest: &[u64]) -> Vec<u8> {
    let mut out = vec![1];
    v(&mut out, flags);
    out.extend(fields(rest));
    out
}

fn wire(parts: &[Vec<u8>]) -> Vec<u8> {
    let mut out = FILE_ID.to_vec();
    for part in parts {
        out.extend_from_slice(part);
    }
    out
}

/// What the parser refuses a whole wire with.
fn refused_with(limits: Limits, wire: &[u8], finish: bool) -> Error {
    let mut core = PushDemuxer::new(limits);
    core.feed(wire);
    if finish {
        core.finish();
    }
    loop {
        match core.next_event() {
            Ok(Some(Event::EndOfInput)) | Ok(None) => panic!("this wire should have been refused"),
            Ok(Some(_)) => {}
            Err(error) => return error,
        }
    }
}

fn refused(parts: &[Vec<u8>]) -> Error {
    refused_with(Limits::default(), &wire(parts), true)
}

fn is(error: Error, kind: ErrorKind, text: &str) {
    assert_eq!(error.to_string(), text);
    assert_eq!(error.kind(), kind);
}

// Fields.

#[test]
fn fields_that_are_not_numbers() {
    let mut overflow = vec![0x82];
    overflow.extend([0x80; 8]);
    overflow.push(0);
    is(
        refused(&[packet(MAIN_STARTCODE, &overflow)]),
        ErrorKind::Format,
        "NUT variable-length integer ending at byte 10 overflows 64 bits",
    );
    is(
        refused(&[packet(MAIN_STARTCODE, &[0x81; 16])]),
        ErrorKind::Format,
        "NUT variable-length integer at byte 10 runs past 10 bytes",
    );
    let mut signed = fields(&[3, 1, 0, 1, 1, 25, 0, 1]);
    v(&mut signed, u64::MAX / 2);
    is(
        refused(&[packet(MAIN_STARTCODE, &signed)]),
        ErrorKind::Format,
        "NUT signed integer at byte 17 overflows 64 bits",
    );
    let long = fields(&[0, 0, 1_048_577]);
    is(
        refused(&[main_of(1, 1, &[]), packet(STREAM_STARTCODE, &long)]),
        ErrorKind::Limit,
        "NUT a codec tag claims 1048577 bytes, more than 1048576",
    );
    is(
        refused(&[packet(MAIN_STARTCODE, &fields(&[3, 1]))]),
        ErrorKind::Format,
        "NUT stream ends mid-field at byte 2",
    );
    is(
        refused(&[main_of(1, 1, &[]), packet(STREAM_STARTCODE, &fields(&[0, 0, 4, 65]))]),
        ErrorKind::Format,
        "NUT stream ends inside a codec tag: got 1 of 4 bytes",
    );
}

// Packets.

#[test]
fn packets_that_end_early() {
    let mut cut = wire(&[packet(INDEX_STARTCODE, &[7; 20])]);
    cut.truncate(cut.len() - 5);
    is(
        refused_with(Limits::default(), &cut, true),
        ErrorKind::Format,
        "NUT stream ends inside a packet: 5 bytes short",
    );
    let mut short = wire(&[
        main_of(1, 1, &[]),
        video(),
        syncpoint(0),
        frame(CODED_PTS | STREAM_ID | SIZE_MSB, &[0, 1 << 14, 24]),
    ]);
    short.extend([9; 10]);
    is(
        refused_with(Limits::default(), &short, true),
        ErrorKind::Format,
        "NUT stream ends inside a frame: got 10 of 24 bytes",
    );
    is(
        refused_with(Limits::default(), b"nut", true),
        ErrorKind::Format,
        "NUT stream ends inside the NUT identifier: got 3 of 25 bytes",
    );
    is(
        refused_with(Limits::default(), &wire(&[b"NM".to_vec()]), true),
        ErrorKind::Format,
        "NUT stream ends inside a startcode: got 1 of 7 bytes",
    );
}

#[test]
fn packets_that_are_not_what_they_say() {
    is(
        refused_with(Limits::default(), &[b'x'; 25], false),
        ErrorKind::Format,
        "input is not NUT: it does not begin with the NUT identifier",
    );
    let mut tiny = MAIN_STARTCODE.to_be_bytes().to_vec();
    v(&mut tiny, 3);
    is(
        refused(&[tiny]),
        ErrorKind::Format,
        "NUT packet is 3 bytes, too short to hold its checksum (the main header)",
    );
    let mut wide = STREAM_STARTCODE.to_be_bytes().to_vec();
    v(&mut wide, 1_048_577);
    wide.extend([0; 4]);
    is(
        refused(&[wide]),
        ErrorKind::Limit,
        "NUT packet claims 1048577 bytes, more than 1048576 (a stream header)",
    );
    let mut forged = packet(SYNCPOINT_STARTCODE, &[1]);
    let last = forged.len() - 1;
    forged[last] ^= 1;
    is(
        refused(&[forged]),
        ErrorKind::Format,
        "NUT packet checksum is 0x04c11db7, not the 0x04c11db6 it carries (a syncpoint)",
    );
}

#[test]
fn too_much_waiting_for_one_packet() {
    let limits = Limits { max_buffered: 10, ..Limits::default() };
    let mut cut = wire(&[main_of(1, 1, &[])]);
    cut.truncate(25 + 20);
    is(
        refused_with(limits, &cut, false),
        ErrorKind::Limit,
        "NUT parser holds 20 bytes of one unfinished packet, more than 10",
    );
}

// The main header.

#[test]
fn main_headers_that_declare_what_is_not_carried() {
    let main = |values: &[u64]| refused(&[packet(MAIN_STARTCODE, &fields(values))]);
    is(
        main(&[4]),
        ErrorKind::Unsupported,
        "NUT input is version 4; this wire speaks version 3",
    );
    is(main(&[3, 0]), ErrorKind::Limit, "NUT main header declares 0 streams");
    is(main(&[3, 17]), ErrorKind::Limit, "NUT main header declares 17 streams");
    is(main(&[3, 1, 0, 0]), ErrorKind::Limit, "NUT main header declares 0 time bases");
    is(main(&[3, 1, 0, 65]), ErrorKind::Limit, "NUT main header declares 65 time bases");
    is(
        main(&[3, 1, 0, 1, 0, 25]),
        ErrorKind::Format,
        "NUT time base 0/25 is not a rate",
    );
    is(
        main(&[3, 1, 0, 1, 1, 25, 0, 65]),
        ErrorKind::Limit,
        "NUT framecode group declares 65 fields",
    );
    let mut endless = fields(&[3, 1, 0, 1, 1, 25]);
    for _ in 0..257 {
        endless.extend(fields(&[INVALID, 6, 0, 0, 0, 0, 0, 0]));
    }
    is(
        refused(&[packet(MAIN_STARTCODE, &endless)]),
        ErrorKind::Limit,
        "NUT main header describes its framecode table in more than 256 groups",
    );
    let table = [3, 1, 0, 1, 1, 25, INVALID, 6, 0, 0, 0, 0, 0, 255];
    let mut many = fields(&table);
    v(&mut many, 129);
    is(
        refused(&[packet(MAIN_STARTCODE, &many)]),
        ErrorKind::Limit,
        "NUT main header declares 129 elision headers",
    );
    is(
        refused(&[main_of(1, 1, &[b"ok", b""])]),
        ErrorKind::Limit,
        "NUT elision header 2 is 0 bytes",
    );
    is(
        refused(&[main_of(1, 1, &[&[0; 257]])]),
        ErrorKind::Limit,
        "NUT elision header 1 is 257 bytes",
    );
}

// Stream headers.

#[test]
fn stream_headers_that_do_not_fit_the_main_header() {
    is(
        refused(&[video()]),
        ErrorKind::Format,
        "NUT input has a stream header before its main header",
    );
    is(
        refused(&[main_of(1, 1, &[]), stream_of(5, 0, b"I420", 0, [14, 0, 0], &[4, 4, 1, 1, 0])]),
        ErrorKind::Format,
        "NUT stream header is for stream 5, which the main header does not declare",
    );
    is(
        refused(&[main_of(1, 1, &[]), stream_of(0, 0, b"I420", 7, [14, 0, 0], &[4, 4, 1, 1, 0])]),
        ErrorKind::Format,
        "NUT stream header names time base 7, which the main header does not declare",
    );
    is(
        refused(&[main_of(1, 1, &[]), stream_of(0, 0, b"I420", 0, [63, 0, 0], &[4, 4, 1, 1, 0])]),
        ErrorKind::Format,
        "NUT stream header shifts PTS by 63 bits",
    );
    is(
        refused(&[main_of(1, 1, &[]), stream_of(0, 0, b"H264", 0, [14, 0, 17], &[4, 4, 1, 1, 0])]),
        ErrorKind::Limit,
        "NUT stream reorders frames by 17, deeper than the 16 this wire carries",
    );
    is(
        refused(&[main_of(1, 1, &[]), stream_of(0, 0, b"I\xff\x01 ", 0, [14, 0, 1], &[4, 4, 1, 1, 0])]),
        ErrorKind::Unsupported,
        "NUT stream of I??  declares decode delay 1; only an encoded stream reorders frames",
    );
}

#[test]
fn geometry_that_means_nothing() {
    let picture = |tail: &[u64]| {
        refused(&[main_of(1, 1, &[]), stream_of(0, 0, b"I420", 0, [14, 0, 0], tail)])
    };
    let sound = |tail: &[u64]| {
        refused(&[main_of(1, 1, &[]), stream_of(0, 1, b"PSD\x10", 1, [14, 0, 0], tail)])
    };
    is(
        picture(&[0, 4, 1, 1, 0]),
        ErrorKind::Format,
        "NUT stream header gives frame size 0x4",
    );
    is(
        picture(&[1 << 32, 4, 1, 1, 0]),
        ErrorKind::Format,
        "NUT frame width 4294967296 is too large",
    );
    is(
        picture(&[4, 1 << 32, 1, 1, 0]),
        ErrorKind::Format,
        "NUT frame height 4294967296 is too large",
    );
    is(
        sound(&[44_100, 7_000, 2]),
        ErrorKind::Unsupported,
        "NUT audio stream declares sample rate 44100/7000; this wire carries whole rates",
    );
    is(
        sound(&[48_000, 1, 0]),
        ErrorKind::Format,
        "NUT audio stream declares 0 channels",
    );
    is(
        sound(&[1 << 33, 1, 2]),
        ErrorKind::Format,
        "NUT sample rate 8589934592/1 is too large",
    );
    is(
        sound(&[48_000, 1, 1 << 32]),
        ErrorKind::Format,
        "NUT channel count 4294967296 is too large",
    );
}

// Syncpoints and frames.

#[test]
fn syncpoints_that_cannot_be_placed() {
    is(
        refused(&[syncpoint(0)]),
        ErrorKind::Format,
        "NUT input has a syncpoint before its main header",
    );
    // Ticks of a twenty-fifth of a second, onto a clock that counts samples.
    let audio = stream_of(0, 1, b"PSD\x10", 1, [14, 0, 0], &[48_000, 1, 2]);
    is(
        refused(&[main_of(1, 1, &[]), audio, syncpoint(1 << 61)]),
        ErrorKind::Format,
        "NUT syncpoint timestamp overflows 64 bits",
    );
}

#[test]
fn frames_that_are_not_what_they_say() {
    let opening = |mul: u64, elision: &[&[u8]], frame: Vec<u8>| {
        refused(&[main_of(1, mul, elision), video(), syncpoint(0), frame])
    };
    let usual = CODED_PTS | STREAM_ID | SIZE_MSB;
    is(
        refused(&[main_of(1, 1, &[]), vec![1]]),
        ErrorKind::Format,
        "NUT input has a frame before its stream header",
    );
    is(
        opening(1, &[], vec![2]),
        ErrorKind::Format,
        "NUT frame header byte 2 is not a framecode the main header defines",
    );
    is(
        opening(1, &[], frame(usual, &[3])),
        ErrorKind::Format,
        "NUT frame belongs to stream 3, which the main header does not declare",
    );
    is(
        opening(1, &[], frame(usual, &[0, u64::MAX])),
        ErrorKind::Format,
        "NUT frame PTS overflows 64 bits",
    );
    is(
        opening(2, &[], frame(usual, &[0, 1 << 14, u64::MAX])),
        ErrorKind::Format,
        "NUT frame size overflows 64 bits",
    );
    is(
        opening(1, &[b"ab"], frame(usual | HEADER_IDX, &[0, 1 << 14, 4, 2])),
        ErrorKind::Format,
        "NUT frame elides its first bytes into header 2, which the main header does not declare",
    );
    is(
        opening(1, &[], frame(usual | RESERVED, &[0, 1 << 14, 4, 257])),
        ErrorKind::Limit,
        "NUT frame header declares 257 reserved fields",
    );
    is(
        opening(1, &[], frame(usual | SM_DATA, &[0, 1 << 14, 4])),
        ErrorKind::Unsupported,
        "NUT frame carries side data, which NUT version 3 does not define",
    );
    let mut forged = frame(usual | CHECKSUM, &[0, 1 << 14, 4]);
    let want = crc32(&forged);
    forged.extend((want ^ 1).to_be_bytes());
    is(
        opening(1, &[], forged),
        ErrorKind::Format,
        &format!(
            "NUT frame header checksum is {want:#010x}, not the {:#010x} it carries",
            want ^ 1
        ),
    );
    is(
        opening(1, &[b"abcdef"], frame(usual | HEADER_IDX, &[0, 1 << 14, 4, 1])),
        ErrorKind::Format,
        "NUT frame of 4 bytes elides a 6 byte header, which does not fit in it",
    );
    is(
        opening(1, &[], frame(usual, &[0, 1 << 14, (1 << 31) + 1])),
        ErrorKind::Limit,
        "NUT frame claims 2147483649 bytes, more than 2147483648",
    );
}

// The one media stream a reader carries.

fn not_opened(wire: &[u8], annotated: bool) -> Error {
    let opened = if annotated {
        Demuxer::open_annotated(wire)
    } else {
        Demuxer::open(wire)
    };
    match opened {
        Ok(_) => panic!("this wire should have been refused"),
        Err(error) => error,
    }
}

#[test]
fn headers_that_are_restated() {
    is(
        not_opened(&wire(&[main_of(1, 1, &[]), video(), main_of(1, 1, &[])]), false),
        ErrorKind::Format,
        "NUT input restates its headers before its first frame; this wire carries one stream \
         with one set of headers",
    );
    is(
        not_opened(&wire(&[main_of(1, 1, &[]), video(), video()]), false),
        ErrorKind::Format,
        "NUT input restates its headers before its first frame; this wire carries one stream \
         with one set of headers",
    );
    is(
        not_opened(&wire(&[main_of(1, 1, &[]), main_of(1, 1, &[])]), false),
        ErrorKind::Format,
        "NUT input has a second main header",
    );
    let one = frame(CODED_PTS | STREAM_ID | SIZE_MSB, &[0, 1 << 14, 0]);
    let twice = wire(&[main_of(1, 1, &[]), video(), syncpoint(0), one, main_of(1, 1, &[])]);
    let mut demuxer = Demuxer::open(&twice).expect("the first headers are read");
    let mut data = Vec::new();
    assert_eq!(demuxer.read_frame(&mut data).expect("the frame"), Some(0));
    is(
        demuxer.read_frame(&mut data).expect_err("the restated header is refused"),
        ErrorKind::Unsupported,
        "NUT input restates its headers mid-stream; this wire carries one stream with one set \
         of headers",
    );
}

#[test]
fn streams_a_reader_does_not_carry() {
    is(
        not_opened(&wire(&[main_of(3, 1, &[])]), true),
        ErrorKind::Unsupported,
        "NUT input carries 3 streams; this wire carries a video stream and an annotation stream",
    );
    is(
        not_opened(&wire(&[main_of(2, 1, &[])]), false),
        ErrorKind::Unsupported,
        "NUT input carries 2 streams; this wire carries one",
    );
    is(
        not_opened(&wire(&[main_of(2, 1, &[]), video(), video()]), true),
        ErrorKind::Unsupported,
        "NUT input carries more than one media stream; this wire carries one",
    );
    is(
        not_opened(&wire(&[main_of(1, 1, &[])]), false),
        ErrorKind::Format,
        "NUT input ends before its stream header",
    );
    is(
        not_opened(&wire(&[]), false),
        ErrorKind::Format,
        "NUT input ends before its stream header",
    );
    let subtitles = stream_of(0, 2, b"UTF8", 0, [14, 0, 0], &[]);
    is(
        not_opened(&wire(&[main_of(1, 1, &[]), subtitles]), false),
        ErrorKind::Unsupported,
        "NUT input carries stream class 2 codec UTF8; this wire carries video (class 0), audio \
         (class 1) and JSON messages (class 3, codec JSON)",
    );
    let second = stream_of(1, 1, b"PSD\x10", 1, [14, 0, 0], &[48_000, 1, 2]);
    is(
        not_opened(&wire(&[main_of(2, 1, &[]), video(), second]), true),
        ErrorKind::Unsupported,
        "NUT stream 1 carries class 1 codec PSD?; the annotation stream is class 3 codec FRWD",
    );
}

// ADTS.

#[test]
fn packets_that_lose_their_adts_header() {
    let whole = |payload: usize| {
        let length = 7 + payload;
        let mut packet = vec![
            0xff,
            0xf1,
            0x4c,
            0x80 | (length >> 11) as u8,
            (length >> 3) as u8,
            ((length as u8 & 7) << 5) | 0x1f,
            0xfc,
        ];
        packet.extend(vec![0xee; payload]);
        packet
    };
    let mut bare = vec![0x21, 0, 0x10];
    is(
        adts::strip(&mut bare).expect_err("no header"),
        ErrorKind::Format,
        "ADTS packet does not start with the syncword its stream opened with",
    );
    let mut packed = whole(4);
    packed[6] |= 2;
    is(
        adts::strip(&mut packed).expect_err("three frames"),
        ErrorKind::Unsupported,
        "ADTS header packs 3 AAC frames behind one header; splitting a packed frame is not \
         implemented",
    );
    let mut long = whole(4);
    long.push(0);
    is(
        adts::strip(&mut long).expect_err("one byte over"),
        ErrorKind::Unsupported,
        "ADTS packet is 12 bytes but its header claims one frame of 11; a packet carrying more \
         than one ADTS frame is refused rather than split, since NUT coded it a single PTS",
    );
    let stream = Stream {
        fourcc: b"mp4a".to_vec(),
        time_base: TimeBase { num: 1, den: 48_000 },
        msb_pts_shift: 14,
        max_pts_distance: 48_000,
        decode_delay: 0,
        extradata: Vec::new(),
        frame_rate: None,
        media: Media::Audio { sample_rate: 48_000, channels: 2 },
    };
    let mut muxer = Muxer::new(&stream).expect("write headers");
    for (pts, data) in [(0, whole(4)), (1024, vec![1, 2, 3])] {
        let packet = Packet { pts, dts: None, keyframe: true };
        muxer.write_coded(&packet, &data).expect("write a packet");
    }
    let mut demuxer = Demuxer::open(&muxer.finish()).expect("the first packet is ADTS");
    let mut data = Vec::new();
    assert!(demuxer.read_packet(&mut data).expect("the first packet").is_some());
    assert_eq!(data, vec![0xee; 4]);
    is(
        demuxer.read_packet(&mut data).expect_err("the second is not"),
        ErrorKind::Format,
        "ADTS packet does not start with the syncword its stream opened with",
    );
}

/// A wire whose stream header is wider than may wait, though not than may be
/// held.
#[test]
fn a_wire_that_leaves_too_much_waiting() {
    let mut body = fields(&[0, 0]);
    vb(&mut body, b"H264");
    body.extend(fields(&[0, 14, 0, 0, 0]));
    vb(&mut body, &vec![7; 100 * 1024]);
    body.extend(fields(&[4, 4, 1, 1, 0]));
    let good = wire(&[
        main_of(1, 1, &[]),
        packet(STREAM_STARTCODE, &body),
        syncpoint(0),
        frame(CODED_PTS | STREAM_ID | SIZE_MSB, &[0, 1 << 14, 0]),
    ]);
    let tight = Limits { max_buffered: 1000, ..Limits::default() };
    let error = Demuxer::open_with(&good, tight).err().expect("too much waits");
    assert_eq!(error.kind(), ErrorKind::Limit);
    assert!(error.to_string().ends_with("bytes of one unfinished packet, more than 1000"));
    let mut read = Demuxer::open_with(&good, Limits::default()).expect("there is room for it");
    assert_eq!(read.stream().extradata.len(), 100 * 1024);
    assert_eq!(read.read_frame(&mut Vec::new()).expect("the frame"), Some(0));
}

// Annotations.

fn a_stream() -> Stream {
    Stream::video("rgba", 2, 2, TimeBase { num: 1, den: 25 }).expect("rgba is carried")
}

/// An annotated wire of some packets on the annotation stream, ahead of one
/// frame.
fn annotated(packets: &[(u64, &[u8])]) -> Vec<u8> {
    let rows = stream_of(1, 3, b"FRWD", 0, [14, 0, 0], &[]);
    let mut out = wire(&[main_of(2, 1, &[]), video(), rows, syncpoint(0)]);
    for (pts, data) in packets {
        out.extend(frame(
            CODED_PTS | STREAM_ID | SIZE_MSB,
            &[1, pts + (1 << 14), data.len() as u64],
        ));
        out.extend_from_slice(data);
    }
    out
}

fn unread(wire: &[u8]) -> Error {
    let mut demuxer = Demuxer::open_annotated(wire).expect("the headers are read");
    demuxer.read_frame(&mut Vec::new()).expect_err("an annotation packet is refused")
}

#[test]
fn annotations_that_cannot_be_read() {
    let many: Vec<(u64, &[u8])> = (0..1025).map(|pts| (pts, &b"{}\n"[..])).collect();
    is(
        unread(&annotated(&many)),
        ErrorKind::Limit,
        "NUT annotation stream has 1024 packets no frame claimed; its timestamps do not match \
         the video's",
    );
    is(
        unread(&annotated(&[(7, b"\xff\xfe")])),
        ErrorKind::Format,
        "NUT annotation packet at PTS 7 is not UTF-8",
    );
    let record = br#"{"trailing":[1]}"#;
    is(
        unread(&annotated(&[(7, record), (8, record)])),
        ErrorKind::Format,
        "NUT annotation stream carries a second trailing record; there is one",
    );
    let empty = br#"{"trailing":[]}"#;
    is(
        unread(&annotated(&[(7, empty), (8, record)])),
        ErrorKind::Format,
        "NUT annotation stream carries a second trailing record; there is one",
    );
}

#[test]
fn annotations_that_cannot_be_written() {
    let row = |text: &str| vec![text.to_string()];
    let mut plain = Muxer::new(&a_stream()).expect("write headers");
    is(
        plain.write_rows(0, &row("{}")).expect_err("no stream for it"),
        ErrorKind::Unsupported,
        "NUT output declares no annotation stream for rows to ride on",
    );
    is(
        plain.write_trailing(0, &row("{}")).expect_err("no stream for it"),
        ErrorKind::Unsupported,
        "NUT output declares no annotation stream for rows to ride on",
    );
    let mut muxer = Muxer::with_annotations(&a_stream()).expect("write headers");
    let rows = vec!["{}".to_string(), "{\n}".to_string()];
    is(
        muxer.write_rows(0, &rows).expect_err("two lines"),
        ErrorKind::Unsupported,
        "NUT annotation row 1 is not one line, which is what a row is written as",
    );
    is(
        muxer.write_rows(0, &row("")).expect_err("no line"),
        ErrorKind::Unsupported,
        "NUT annotation row 0 is not one line, which is what a row is written as",
    );
    is(
        muxer.write_rows(0, &row(&"x".repeat(1 << 20))).expect_err("too long"),
        ErrorKind::Limit,
        "NUT annotation packet is 1048577 bytes, more than 1048576",
    );
    is(
        muxer.write_trailing(0, &row("not json")).expect_err("not JSON"),
        ErrorKind::Format,
        "NUT trailing rows are not JSON, so there is no record for them to ride in",
    );
    is(
        muxer.write_rows(-3, &row("{}")).expect_err("before zero"),
        ErrorKind::Unsupported,
        "NUT frame has negative PTS -3, which this wire does not carry",
    );
    muxer.write_trailing(0, &row("{}")).expect("the record");
    is(
        muxer.write_trailing(0, &row("{}")).expect_err("there is one"),
        ErrorKind::Format,
        "NUT annotation stream carries a second trailing record; there is one",
    );
}

// Writing.

#[test]
fn frames_that_cannot_be_written() {
    let mut raw = Muxer::new(&a_stream()).expect("write headers");
    is(
        raw.write_frame(i64::MIN, &[]).expect_err("before zero"),
        ErrorKind::Unsupported,
        "NUT frame has negative PTS -9223372036854775808, which this wire does not carry",
    );
    let packet = Packet { pts: 0, dts: None, keyframe: true };
    is(
        raw.write_coded(&packet, &[]).expect_err("a raw stream"),
        ErrorKind::Unsupported,
        "NUT stream of RGBA is raw; its frames are written with write_frame",
    );
    let mut coded = Muxer::new(&Stream { fourcc: b"H264".to_vec(), ..a_stream() }).expect("h264");
    is(
        coded.write_frame(0, &[]).expect_err("an encoded stream"),
        ErrorKind::Unsupported,
        "NUT stream of H264 is encoded; its packets are written with write_coded",
    );
}

#[test]
fn streams_that_cannot_be_written() {
    let unwritten = |stream: Stream| match Muxer::new(&stream) {
        Ok(_) => panic!("this stream should have been refused"),
        Err(error) => error,
    };
    is(
        unwritten(Stream { time_base: TimeBase { num: 1, den: 0 }, ..a_stream() }),
        ErrorKind::Format,
        "NUT time base 1/0 is not a rate",
    );
    is(
        unwritten(Stream { fourcc: vec![65; (1 << 20) + 1], ..a_stream() }),
        ErrorKind::Limit,
        "NUT a codec tag claims 1048577 bytes, more than 1048576",
    );
    is(
        unwritten(Stream { msb_pts_shift: 63, ..a_stream() }),
        ErrorKind::Format,
        "NUT stream header shifts PTS by 63 bits",
    );
    is(
        unwritten(Stream { decode_delay: 17, ..a_stream() }),
        ErrorKind::Limit,
        "NUT stream reorders frames by 17, deeper than the 16 this wire carries",
    );
    is(
        unwritten(Stream { decode_delay: 1, ..a_stream() }),
        ErrorKind::Unsupported,
        "NUT stream of RGBA declares decode delay 1; only an encoded stream reorders frames",
    );
    is(
        unwritten(Stream { extradata: vec![0; (1 << 20) + 1], ..a_stream() }),
        ErrorKind::Limit,
        "NUT codec specific data claims 1048577 bytes, more than 1048576",
    );
    is(
        unwritten(Stream { extradata: vec![0; 1 << 20], ..a_stream() }),
        ErrorKind::Limit,
        "NUT packet claims 1048600 bytes, more than 1048576 (a stream header)",
    );
    is(
        unwritten(Stream::video("rgba", 0, 2, TimeBase { num: 1, den: 25 }).expect("rgba")),
        ErrorKind::Format,
        "NUT stream header gives frame size 0x2",
    );
    is(
        unwritten(Stream::audio("s16", 48_000, 0).expect("s16")),
        ErrorKind::Format,
        "NUT audio stream declares 0 channels",
    );
    is(
        unwritten(Stream { media: Media::Audio { sample_rate: 0, channels: 2 }, ..a_stream() }),
        ErrorKind::Unsupported,
        "NUT audio stream declares sample rate 0/1; this wire carries whole rates",
    );
    is(
        unwritten(Stream { media: Media::Other { class: 0 }, ..a_stream() }),
        ErrorKind::Unsupported,
        "NUT stream class 0 is written with a geometry this stream does not have",
    );
}
