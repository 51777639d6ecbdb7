//! The push front end, over wires built here to be wrong, and over good ones
//! that arrive in pieces.

use ffrwd_nut::{
    crc32, Demuxer, Event, Limits, Media, PushDemuxer, FILE_ID, INDEX_STARTCODE, INFO_STARTCODE,
    MAIN_STARTCODE, STREAM_STARTCODE, SYNCPOINT_STARTCODE,
};

/// One event, and the payload that came with it.
type Seen = (Event, Vec<u8>);

/// Takes every event that is ready, stopping at the end of the input.
fn drain(core: &mut PushDemuxer, out: &mut Vec<Seen>) -> Result<(), String> {
    loop {
        match core.next_event() {
            Ok(None) => return Ok(()),
            Ok(Some(Event::EndOfInput)) => {
                out.push((Event::EndOfInput, Vec::new()));
                return Ok(());
            }
            Ok(Some(event)) => {
                let payload = match event {
                    Event::Frame { .. } => core.payload().to_vec(),
                    _ => Vec::new(),
                };
                out.push((event, payload));
            }
            Err(error) => return Err(error.to_string()),
        }
    }
}

/// Every event `wire` makes, fed in pieces of the given sizes, taken in turn.
fn read_in(wire: &[u8], sizes: &[usize]) -> Result<Vec<Seen>, String> {
    let mut core = PushDemuxer::new(Limits::default());
    let mut out = Vec::new();
    let mut at = 0;
    let mut which = 0;
    while at < wire.len() {
        let take = sizes[which % sizes.len()].clamp(1, wire.len() - at);
        which += 1;
        core.feed(&wire[at..at + take]);
        at += take;
        drain(&mut core, &mut out)?;
    }
    core.finish();
    drain(&mut core, &mut out)?;
    Ok(out)
}

/// One frame as a consumer sees it, for comparing two readings of a wire.
#[derive(Debug, Clone, PartialEq, Eq)]
struct Frame {
    stream: usize,
    pts: i64,
    dts: Option<i64>,
    keyframe: bool,
    data: Vec<u8>,
}

/// The frames alone, with their payloads.
fn frames(events: &[Seen]) -> Vec<Frame> {
    events
        .iter()
        .filter_map(|(event, payload)| match event {
            Event::Frame { stream, packet } => Some(Frame {
                stream: *stream,
                pts: packet.pts,
                dts: packet.dts,
                keyframe: packet.keyframe,
                data: payload.clone(),
            }),
            _ => None,
        })
        .collect()
}

#[test]
fn garbage_after_a_good_header_is_refused_and_never_panics() {
    let opening = opening(4, 4);
    let mut seed = 0xfeed_beefu32;
    for _ in 0..3_000 {
        let mut wire = opening.clone();
        seed = seed.wrapping_mul(1_103_515_245).wrapping_add(12_345);
        let len = (seed >> 16) as usize % 96;
        for _ in 0..len {
            seed = seed.wrapping_mul(1_103_515_245).wrapping_add(12_345);
            wire.push((seed >> 16) as u8);
        }
        let mut core = PushDemuxer::new(Limits::default());
        core.feed(&wire);
        core.finish();
        // Whatever it decides, it decides without unwinding.
        let mut out = Vec::new();
        let _ = drain(&mut core, &mut out);
    }
}

#[test]
fn garbage_from_the_very_first_byte_is_refused_and_never_panics() {
    let mut seed = 0x0bad_c0deu32;
    for _ in 0..3_000 {
        let mut wire = Vec::new();
        seed = seed.wrapping_mul(1_103_515_245).wrapping_add(12_345);
        let len = (seed >> 16) as usize % 128;
        for _ in 0..len {
            seed = seed.wrapping_mul(1_103_515_245).wrapping_add(12_345);
            wire.push((seed >> 16) as u8);
        }
        let mut core = PushDemuxer::new(Limits::default());
        core.feed(&wire);
        core.finish();
        let mut out = Vec::new();
        let _ = drain(&mut core, &mut out);
    }
}

#[test]
fn a_stream_that_does_not_open_as_nut_is_refused_at_once() {
    let mut core = PushDemuxer::new(Limits::default());
    core.feed(b"GET / HTTP/1.1\r\nHost: localhost\r\n\r\n         ");
    let mut out = Vec::new();
    let error = drain(&mut core, &mut out).expect_err("refused");
    assert!(error.contains("not NUT"), "got: {error}");
}

#[test]
fn a_version_this_crate_does_not_speak_is_refused_by_number() {
    let mut body = Vec::new();
    write_v(&mut body, 4);
    let mut wire = FILE_ID.to_vec();
    write_packet(&mut wire, MAIN_STARTCODE, &body);
    let error = refusal(&wire);
    assert!(error.contains("version 4"), "got: {error}");
}

#[test]
fn a_header_whose_fields_run_off_the_end_of_it_is_refused() {
    let mut body = Vec::new();
    write_v(&mut body, 3);
    write_v(&mut body, 2);
    // and then nothing
    let mut wire = FILE_ID.to_vec();
    write_packet(&mut wire, MAIN_STARTCODE, &body);
    let error = refusal(&wire);
    assert!(error.contains("ends"), "got: {error}");
}

#[test]
fn a_time_base_of_zero_is_refused_rather_than_divided_by() {
    let mut body = Vec::new();
    write_v(&mut body, 3);
    write_v(&mut body, 1);
    write_v(&mut body, 32_767);
    write_v(&mut body, 1);
    write_v(&mut body, 1);
    write_v(&mut body, 0);
    let mut wire = FILE_ID.to_vec();
    write_packet(&mut wire, MAIN_STARTCODE, &body);
    let error = refusal(&wire);
    assert!(error.contains("not a rate"), "got: {error}");
}

#[test]
fn a_packet_whose_checksum_does_not_match_is_refused() {
    let mut wire = opening(4, 4);
    // The last four bytes of the audio stream header are its checksum.
    let last = wire.len() - 1;
    wire[last] ^= 0xff;
    let error = refusal(&wire);
    assert!(error.contains("checksum"), "got: {error}");
}

#[test]
fn a_framecode_the_table_does_not_define_is_refused_by_byte() {
    let mut wire = opening(4, 4);
    wire.extend(syncpoint(0, 0));
    // Byte 2 is in the run the main header marks invalid.
    wire.push(2);
    let error = refusal(&wire);
    assert!(error.contains("byte 2"), "got: {error}");
}

#[test]
fn a_frame_claiming_more_than_the_stream_carries_is_refused() {
    let mut wire = opening(4, 4);
    wire.extend(syncpoint(0, 0));
    let mut huge = vec![EXPLICIT];
    write_v(&mut huge, (CODED_PTS | STREAM_ID | SIZE_MSB) ^ CODED);
    write_v(&mut huge, 0);
    write_v(&mut huge, 1 << 14);
    write_v(&mut huge, 1 << 40);
    wire.extend(huge);

    let mut core = PushDemuxer::new(Limits::default());
    core.set_stream_limit(0, 1 << 20);
    core.feed(&wire);
    let mut out = Vec::new();
    let error = drain(&mut core, &mut out).expect_err("refused");
    assert!(
        error.contains("1048576"),
        "the message should say what the ceiling is, got: {error}"
    );
}

#[test]
fn a_frame_larger_than_the_default_ceiling_is_refused_before_it_is_allocated() {
    let mut wire = opening(4, 4);
    wire.extend(syncpoint(0, 0));
    let mut huge = vec![EXPLICIT];
    write_v(&mut huge, (CODED_PTS | STREAM_ID | SIZE_MSB) ^ CODED);
    write_v(&mut huge, 0);
    write_v(&mut huge, 1 << 14);
    write_v(&mut huge, u64::MAX / 2);
    wire.extend(huge);
    let error = refusal(&wire);
    assert!(error.contains("more than"), "got: {error}");
}

#[test]
fn headers_restated_midstream_are_read_again_and_cost_no_frame() {
    // ffmpeg restates its headers every megabyte or so. The parser reads them
    // again and says so; what it must not do is lose the frames around them.
    let mut wire = opening(4, 4);
    wire.extend(syncpoint(0, 0));
    wire.extend(frame(0, 0, &[1u8; 24]));
    wire.extend(main_header());
    wire.extend(video_header(4, 4));
    wire.extend(audio_header(48_000, 2));
    wire.extend(frame(0, 1, &[2u8; 24]));

    let events = read_in(&wire, &[3]).expect("the wire parses");
    assert_eq!(frames(&events).len(), 2, "the restated headers ate a frame");
    let mains = events
        .iter()
        .filter(|(event, _)| matches!(event, Event::MainHeader(_)))
        .count();
    assert_eq!(mains, 2, "both main headers are announced");
}

#[test]
fn the_blocking_reader_refuses_the_headers_the_parser_reads_again() {
    // The same restatement, through the front end that carries one stream:
    // it has already handed out a frame against the first set of headers, so
    // a second set is a stream description it cannot honour.
    let mut wire = FILE_ID.to_vec();
    wire.extend(main_header_for(1));
    wire.extend(video_header(4, 4));
    wire.extend(syncpoint(0, 0));
    wire.extend(frame(0, 0, &[1u8; 24]));
    wire.extend(main_header_for(1));
    wire.extend(video_header(4, 4));
    wire.extend(frame(0, 1, &[2u8; 24]));

    let mut demuxer = Demuxer::open(&wire).expect("the first headers are read");
    let mut buf = Vec::new();
    assert_eq!(
        demuxer.read_frame(&mut buf).expect("the first frame"),
        Some(0)
    );
    let error = demuxer
        .read_frame(&mut buf)
        .expect_err("the restated headers are refused")
        .to_string();
    assert!(error.contains("restates its headers mid-stream"), "{error}");
}

#[test]
fn a_packet_this_parser_does_not_read_is_stepped_over_by_its_length() {
    let mut wire = opening(4, 4);
    write_packet(&mut wire, INFO_STARTCODE, &[0xcd; 900]);
    wire.extend(syncpoint(0, 0));
    wire.extend(frame(0, 0, &[3u8; 24]));

    let events = read_in(&wire, &[7]).expect("the wire parses");
    assert_eq!(frames(&events).len(), 1);
}

#[test]
fn a_packet_too_wide_to_hold_is_stepped_over_without_buffering_it() {
    let mut wire = opening(4, 4);
    wire.extend(syncpoint(0, 0));
    wire.extend(frame(0, 0, &[4u8; 24]));
    // Wider than the parser will hold in one piece, and wide enough to carry
    // a header checksum of its own.
    let big = vec![0x5a; (Limits::default().max_header as usize) + 1_000];
    wire.extend(INDEX_STARTCODE.to_be_bytes());
    let mut length = Vec::new();
    write_v(&mut length, (big.len() + 4) as u64);
    wire.extend(length);
    wire.extend([0, 0, 0, 0]); // the header checksum
    wire.extend(&big);
    wire.extend([0, 0, 0, 0]);
    wire.extend(frame(0, 1, &[5u8; 24]));

    let mut core = PushDemuxer::new(Limits::default());
    let mut out = Vec::new();
    for chunk in wire.chunks(7_000) {
        core.feed(chunk);
        drain(&mut core, &mut out).expect("the wire parses");
        assert!(
            core.buffered() < 64 * 1024,
            "the big packet was buffered after all"
        );
    }
    assert_eq!(frames(&out).len(), 2);
}

#[test]
fn a_timestamp_carrying_only_its_low_bits_is_lifted_onto_the_last_one() {
    let mut wire = opening(4, 4);
    wire.extend(syncpoint(1_000, 0));
    let mut short = vec![EXPLICIT];
    write_v(&mut short, (CODED_PTS | STREAM_ID | SIZE_MSB) ^ CODED);
    write_v(&mut short, 0);
    write_v(&mut short, 1_001 & ((1 << 14) - 1));
    write_v(&mut short, 24);
    short.extend_from_slice(&[0u8; 24]);
    wire.extend(short);

    let events = read_in(&wire, &[5]).expect("the wire parses");
    assert_eq!(frames(&events)[0].pts, 1_001);
}

#[test]
fn a_frame_before_the_stream_headers_is_refused() {
    let mut wire = FILE_ID.to_vec();
    wire.extend(main_header());
    wire.extend(frame(0, 0, &[0u8; 24]));
    let error = refusal(&wire);
    assert!(error.contains("before its stream header"), "got: {error}");
}

#[test]
fn a_subtitle_stream_is_described_by_its_class_and_its_frames_still_arrive() {
    // Nothing here reads subtitles, and a consumer that does not either still
    // has to get past them without losing the stream.
    let mut body = Vec::new();
    write_v(&mut body, 1); // stream id
    write_v(&mut body, 2); // class: subtitles
    write_vb(&mut body, b"UTF8");
    write_v(&mut body, 1); // time base index
    write_v(&mut body, 14);
    write_v(&mut body, 0);
    write_v(&mut body, 0);
    write_v(&mut body, 0);
    write_vb(&mut body, &[]);
    let mut wire = FILE_ID.to_vec();
    wire.extend(main_header());
    wire.extend(video_header(4, 4));
    write_packet(&mut wire, STREAM_STARTCODE, &body);
    wire.extend(syncpoint(0, 0));
    wire.extend(frame(1, 0, b"a line of dialogue"));
    wire.extend(frame(0, 0, &[9u8; 24]));

    let events = read_in(&wire, &[11]).expect("the wire parses");
    let streams: Vec<Media> = events
        .iter()
        .filter_map(|(event, _)| match event {
            Event::StreamHeader { stream, .. } => Some(stream.media),
            _ => None,
        })
        .collect();
    assert_eq!(streams[1], Media::Other { class: 2 });
    let frames = frames(&events);
    assert_eq!(frames.len(), 2);
    assert_eq!(frames[0].stream, 1);
    assert_eq!(frames[0].data, b"a line of dialogue");
}

/// The message a whole wire is refused with.
fn refusal(wire: &[u8]) -> String {
    let mut core = PushDemuxer::new(Limits::default());
    core.feed(wire);
    core.finish();
    let mut out = Vec::new();
    drain(&mut core, &mut out).expect_err("this wire should have been refused")
}

// The wire the hardening cases are built on, written here rather than by the
// muxer: what they need to say is not something a muxer would write.

const VIDEO_BASE: (u64, u64) = (1, 25);
const AUDIO_BASE: (u64, u64) = (1, 48_000);

/// The framecode ffmpeg writes for a stream whose frames all state their own
/// flags: one usable code, everything else invalid.
const EXPLICIT: u8 = 1;

const CODED_PTS: u64 = 8;
const STREAM_ID: u64 = 16;
const SIZE_MSB: u64 = 32;
const CODED: u64 = 4096;
const INVALID: u64 = 8192;

fn write_v(out: &mut Vec<u8>, value: u64) {
    let mut groups = [0u8; 10];
    let mut count = 0;
    let mut left = value;
    loop {
        groups[count] = (left & 0x7f) as u8;
        count += 1;
        left >>= 7;
        if left == 0 {
            break;
        }
    }
    while count > 0 {
        count -= 1;
        out.push(groups[count] | if count > 0 { 0x80 } else { 0 });
    }
}

fn write_s(out: &mut Vec<u8>, value: i64) {
    let magnitude = value.unsigned_abs();
    write_v(out, magnitude.saturating_mul(2) - u64::from(value > 0));
}

fn write_vb(out: &mut Vec<u8>, bytes: &[u8]) {
    write_v(out, bytes.len() as u64);
    out.extend_from_slice(bytes);
}

/// A packet: its startcode, the length of what follows, its body and the
/// checksum the body ends with.
fn write_packet(out: &mut Vec<u8>, startcode: u64, fields: &[u8]) {
    out.extend_from_slice(&startcode.to_be_bytes());
    write_v(out, (fields.len() + 4) as u64);
    out.extend_from_slice(fields);
    out.extend_from_slice(&crc32(fields).to_be_bytes());
}

fn main_header() -> Vec<u8> {
    main_header_for(2)
}

fn main_header_for(streams: u64) -> Vec<u8> {
    let mut body = Vec::new();
    write_v(&mut body, 3); // version
    write_v(&mut body, streams); // stream count
    write_v(&mut body, 32_767); // max distance
    write_v(&mut body, 2); // time base count
    write_v(&mut body, VIDEO_BASE.0);
    write_v(&mut body, VIDEO_BASE.1);
    write_v(&mut body, AUDIO_BASE.0);
    write_v(&mut body, AUDIO_BASE.1);
    // Three groups: index 0 invalid, index 1 the explicit code, the rest
    // invalid.
    for (flags, size_mul, count) in [(INVALID, 0u64, 1u64), (CODED, 1, 1), (INVALID, 0, 253)] {
        write_v(&mut body, flags);
        write_v(&mut body, 6);
        write_s(&mut body, 0);
        write_v(&mut body, size_mul);
        write_v(&mut body, 0);
        write_v(&mut body, 0);
        write_v(&mut body, 0);
        write_v(&mut body, count);
    }
    write_v(&mut body, 0); // no elision headers
    let mut out = Vec::new();
    write_packet(&mut out, MAIN_STARTCODE, &body);
    out
}

fn video_header(width: u64, height: u64) -> Vec<u8> {
    let mut body = Vec::new();
    write_v(&mut body, 0); // stream id
    write_v(&mut body, 0); // class: video
    write_vb(&mut body, b"I420");
    write_v(&mut body, 0); // time base index
    write_v(&mut body, 14); // msb pts shift
    write_v(&mut body, 0); // max pts distance
    write_v(&mut body, 0); // decode delay
    write_v(&mut body, 0); // stream flags
    write_vb(&mut body, &[]); // extradata
    write_v(&mut body, width);
    write_v(&mut body, height);
    write_v(&mut body, 1);
    write_v(&mut body, 1);
    write_v(&mut body, 0); // colorspace
    let mut out = Vec::new();
    write_packet(&mut out, STREAM_STARTCODE, &body);
    out
}

fn audio_header(rate: u64, channels: u64) -> Vec<u8> {
    let mut body = Vec::new();
    write_v(&mut body, 1); // stream id
    write_v(&mut body, 1); // class: audio
    write_vb(&mut body, b"PSD\x10");
    write_v(&mut body, 1); // time base index
    write_v(&mut body, 14);
    write_v(&mut body, 0);
    write_v(&mut body, 0);
    write_v(&mut body, 0);
    write_vb(&mut body, &[]);
    write_v(&mut body, rate);
    write_v(&mut body, 1);
    write_v(&mut body, channels);
    let mut out = Vec::new();
    write_packet(&mut out, STREAM_STARTCODE, &body);
    out
}

fn syncpoint(ticks: u64, base_index: u64) -> Vec<u8> {
    let mut body = Vec::new();
    write_v(&mut body, ticks * 2 + base_index);
    write_v(&mut body, 0);
    let mut out = Vec::new();
    write_packet(&mut out, SYNCPOINT_STARTCODE, &body);
    out
}

fn frame(stream: u64, pts: u64, data: &[u8]) -> Vec<u8> {
    let mut out = vec![EXPLICIT];
    write_v(&mut out, (CODED_PTS | STREAM_ID | SIZE_MSB) ^ CODED);
    write_v(&mut out, stream);
    // Absolute, so the reader never has to lift the high bits.
    write_v(&mut out, pts + (1 << 14));
    write_v(&mut out, data.len() as u64);
    out.extend_from_slice(data);
    out
}

fn opening(width: u64, height: u64) -> Vec<u8> {
    let mut wire = FILE_ID.to_vec();
    wire.extend(main_header());
    wire.extend(video_header(width, height));
    wire.extend(audio_header(48_000, 2));
    wire
}
