//! What holds of every wire, on some.

use ffrwd_nut::bytes::{put_s, put_v, put_vb, Cursor};
use ffrwd_nut::error::{ErrorKind, Halt, Need};
use ffrwd_nut::headers::{read_audio_geometry, read_video_geometry};
use ffrwd_nut::tables::read_frame_codes;
use ffrwd_nut::{
    crc32, Demuxer, Event, Limits, Media, Muxer, Packet, PushDemuxer, Stream, TimeBase, FILE_ID,
    INDEX_STARTCODE, INFO_STARTCODE, MAIN_STARTCODE, STREAM_STARTCODE, SYNCPOINT_STARTCODE,
};

type Seen = (Event, Vec<u8>);

/// Every event that is ready, and where that leaves a consumer.
fn drain(core: &mut PushDemuxer) -> (Vec<Seen>, Result<bool, String>) {
    let mut out = Vec::new();
    loop {
        match core.next_event() {
            Ok(None) => return (out, Ok(false)),
            Ok(Some(Event::EndOfInput)) => {
                out.push((Event::EndOfInput, Vec::new()));
                return (out, Ok(true));
            }
            Ok(Some(event)) => {
                let payload = match event {
                    Event::Frame { .. } => core.payload().to_vec(),
                    _ => Vec::new(),
                };
                out.push((event, payload));
            }
            Err(error) => return (out, Err(error.to_string())),
        }
    }
}

/// Every event of a wire in pieces of some size.
fn in_pieces(wire: &[u8], size: usize) -> (Vec<Seen>, Result<bool, String>) {
    let mut core = PushDemuxer::new(Limits::default());
    let mut events = Vec::new();
    for piece in wire.chunks(size) {
        core.feed(piece);
        let (more, rest) = drain(&mut core);
        events.extend(more);
        if rest.is_err() {
            return (events, rest);
        }
    }
    core.finish();
    let (more, rest) = drain(&mut core);
    events.extend(more);
    (events, rest)
}

fn h264() -> Stream {
    Stream {
        fourcc: b"H264".to_vec(),
        time_base: TimeBase { num: 1, den: 25 },
        msb_pts_shift: 7,
        max_pts_distance: 25,
        decode_delay: 2,
        extradata: vec![0x67, 0x42, 0x00, 0x1e],
        frame_rate: Some((30_000, 1_001)),
        media: Media::Video {
            width: 16,
            height: 16,
            sample_width: 1,
            sample_height: 1,
            colorspace_type: 2,
        },
    }
}

/// A wire of reordered packets, some wider than syncpoints may be apart.
fn coded_wire() -> Vec<u8> {
    let mut muxer = Muxer::new(&h264()).expect("write headers");
    for (index, pts) in [0i64, 3, 1, 2, 600, 400, 500].iter().enumerate() {
        let packet = Packet { pts: *pts, dts: None, keyframe: index == 0 };
        let data = vec![index as u8; 40 + index * 9_000];
        muxer.write_coded(&packet, &data).expect("write a packet");
    }
    muxer.finish()
}

#[test]
fn a_whole_session_comes_back() {
    let stream = Stream { frame_rate: Some((25, 1)), ..h264() };
    let mut muxer = Muxer::with_annotations(&stream).expect("write headers");
    let sent: Vec<(i64, bool, Vec<u8>, Vec<String>)> = vec![
        (0, true, vec![1; 40_000], vec![r#"{"a":1}"#.to_string()]),
        (3, false, vec![], vec![]),
        (1, false, vec![78; 5], vec!["two".to_string(), "rows\u{e9}".to_string()]),
        (1 << 40, true, vec![9; 3], vec![]),
    ];
    for (pts, keyframe, data, rows) in &sent {
        muxer.write_rows(*pts, rows).expect("write rows");
        let packet = Packet { pts: *pts, dts: Some(77), keyframe: *keyframe };
        muxer.write_coded(&packet, data).expect("write a packet");
    }
    let trailing = vec![" [1, 2] ".to_string(), "\"x\"".to_string()];
    muxer.write_trailing(5, &trailing).expect("write the record");

    let mut demuxer = Demuxer::open_annotated(&muxer.finish()).expect("read headers");
    assert_eq!(demuxer.stream(), &stream);
    assert!(demuxer.has_annotations());
    let dts = [None, None, Some(0), Some(1)];
    let mut data = Vec::new();
    for ((pts, keyframe, bytes, rows), dts) in sent.iter().zip(dts) {
        let packet = demuxer.read_packet(&mut data).expect("read").expect("a packet");
        assert_eq!(packet, Packet { pts: *pts, dts, keyframe: *keyframe });
        assert_eq!(&data, bytes);
        assert_eq!(&demuxer.take_rows(*pts), rows);
    }
    assert_eq!(demuxer.read_packet(&mut data).expect("the end"), None);
    assert_eq!(demuxer.take_trailing(), vec!["[1, 2]".to_string(), "\"x\"".to_string()]);
    assert_eq!(demuxer.read_packet(&mut data).expect("still the end"), None);
}

#[test]
fn taking_what_is_written_changes_nothing() {
    let whole = coded_wire();
    let mut muxer = Muxer::new(&h264()).expect("write headers");
    let mut taken = muxer.take();
    assert_eq!(taken[..25], FILE_ID);
    for (index, pts) in [0i64, 3, 1, 2, 600, 400, 500].iter().enumerate() {
        let packet = Packet { pts: *pts, dts: None, keyframe: index == 0 };
        let data = vec![index as u8; 40 + index * 9_000];
        muxer.write_coded(&packet, &data).expect("write a packet");
        taken.extend(muxer.take());
        assert!(muxer.take().is_empty());
    }
    taken.extend(muxer.finish());
    assert_eq!(taken, whole);
}

#[test]
fn a_frame_rate_that_means_nothing_is_not_written() {
    let stream = Stream { frame_rate: Some((25, 0)), ..h264() };
    let wire = Muxer::new(&stream).expect("write headers").finish();
    let demuxer = Demuxer::open(&wire).expect("read headers");
    assert_eq!(demuxer.stream().frame_rate, None);
}

#[test]
fn a_codec_header_too_wide_for_one_checksum_comes_back() {
    // Past four kilobytes a packet carries a checksum over its own header.
    let stream = Stream { extradata: vec![0x5a; 5_000], ..h264() };
    let wire = Muxer::new(&stream).expect("write headers").finish();
    let demuxer = Demuxer::open(&wire).expect("read headers");
    assert_eq!(demuxer.stream(), &stream);
}

#[test]
fn pieces_of_any_size_read_the_same() {
    let wire = coded_wire();
    let whole = in_pieces(&wire, wire.len());
    assert_eq!(whole.1, Ok(true));
    for size in [1, 2, 3, 7, 64, 1_000, 8_192] {
        assert_eq!(in_pieces(&wire, size), whole, "pieces of {size}");
    }
}

#[test]
fn both_front_ends_hand_over_the_same_packets() {
    let wire = coded_wire();
    let pushed: Vec<(Packet, Vec<u8>)> = in_pieces(&wire, 64)
        .0
        .into_iter()
        .filter_map(|(event, payload)| match event {
            Event::Frame { packet, .. } => Some((packet, payload)),
            _ => None,
        })
        .collect();
    let mut demuxer = Demuxer::open(&wire).expect("read headers");
    let mut read = Vec::new();
    let mut data = Vec::new();
    while let Some(packet) = demuxer.read_packet(&mut data).expect("read a packet") {
        read.push((packet, data.clone()));
    }
    assert_eq!(pushed.len(), 7);
    assert_eq!(pushed, read);
}

#[test]
fn no_cut_of_a_good_wire_is_a_bad_one() {
    let wire = coded_wire();
    let step = 13;
    let mut ended = 0;
    for cut in (0..wire.len()).step_by(step).chain(0..200) {
        let mut core = PushDemuxer::new(Limits::default());
        core.feed(&wire[..cut]);
        assert_eq!(drain(&mut core).1, Ok(false), "cut at {cut}");
        core.finish();
        match drain(&mut core).1 {
            Ok(over) => {
                assert!(over, "a finished parser does not wait");
                ended += 1;
            }
            Err(message) => assert!(message.contains("ends"), "cut at {cut}: {message}"),
        }
    }
    assert!(ended > 0, "some cuts fall where the stream may end");
}

#[test]
fn the_end_and_a_refusal_stay() {
    let mut core = PushDemuxer::new(Limits::default());
    core.feed(&coded_wire());
    core.finish();
    drain(&mut core);
    for _ in 0..3 {
        assert_eq!(core.next_event().expect("the end"), Some(Event::EndOfInput));
    }
    let mut wire = coded_wire();
    wire[FILE_ID.len() + 12] ^= 1;
    let mut refused = PushDemuxer::new(Limits::default());
    refused.feed(&wire);
    let first = refused.next_event().expect_err("a bad checksum").to_string();
    for _ in 0..3 {
        let again = refused.next_event().expect_err("still").to_string();
        assert_eq!(again, first);
    }
}

#[test]
fn filling_a_frame_where_it_lies_is_feeding_it() {
    let wire = coded_wire();
    let whole = in_pieces(&wire, wire.len()).0;
    let mut core = PushDemuxer::new(Limits::default());
    let mut at = 0;
    let mut events = Vec::new();
    while at < wire.len() {
        let took = match core.payload_space() {
            Some(space) if !space.is_empty() => {
                let count = space.len().min(wire.len() - at).min(100);
                space[..count].copy_from_slice(&wire[at..at + count]);
                count
            }
            _ => 0,
        };
        if took > 0 {
            core.payload_filled(took);
            at += took;
        } else {
            core.feed(&wire[at..at + 1]);
            at += 1;
        }
        assert_eq!(core.position() + core.buffered() as u64, at as u64);
        events.extend(drain(&mut core).0);
    }
    core.finish();
    events.extend(drain(&mut core).0);
    assert_eq!(events, whole);
}

#[test]
fn a_payload_is_handed_over_once() {
    let mut core = PushDemuxer::new(Limits::default());
    core.feed(&coded_wire());
    let mut data = vec![1, 2, 3];
    loop {
        match core.next_event().expect("the wire is good") {
            Some(Event::Frame { .. }) => break,
            Some(_) => {}
            None => panic!("there is a frame"),
        }
    }
    assert_eq!(core.payload(), &[0; 40]);
    core.take_payload(&mut data);
    assert_eq!(data, vec![0; 40]);
    assert!(core.payload().is_empty());
    assert!(core.payload_space().is_none(), "no frame is being filled");
}

// Wires by hand.

const CODED: u64 = 4096;
const INVALID: u64 = 8192;
const USUAL: u64 = 8 | 16 | 32;

fn fields(values: &[u64]) -> Vec<u8> {
    let mut out = Vec::new();
    for value in values {
        put_v(&mut out, *value);
    }
    out
}

fn packet(startcode: u64, body: &[u8]) -> Vec<u8> {
    let mut out = startcode.to_be_bytes().to_vec();
    put_v(&mut out, body.len() as u64 + 4);
    if body.len() + 4 > 4096 {
        let head = crc32(&out).to_be_bytes();
        out.extend(head);
    }
    out.extend_from_slice(body);
    out.extend(crc32(body).to_be_bytes());
    out
}

fn main_header(streams: u64) -> Vec<u8> {
    let mut body = fields(&[3, streams, 32_767, 2, 1, 25, 1, 48_000]);
    for (flags, mul, count) in [(INVALID, 0, 1), (CODED, 1, 1), (INVALID, 0, 253)] {
        body.extend(fields(&[flags, 6, 0, mul, 0, 0, 0, count]));
    }
    put_v(&mut body, 0);
    packet(MAIN_STARTCODE, &body)
}

fn stream_header(id: u64, tag: &[u8], base: u64, delay: u64) -> Vec<u8> {
    let mut body = fields(&[id, 0]);
    put_vb(&mut body, tag);
    body.extend(fields(&[base, 14, 0, delay, 0]));
    put_vb(&mut body, &[]);
    body.extend(fields(&[4, 4, 1, 1, 0]));
    packet(STREAM_STARTCODE, &body)
}

fn syncpoint(coded: u64) -> Vec<u8> {
    packet(SYNCPOINT_STARTCODE, &fields(&[coded, 0]))
}

fn frame(stream: u64, pts: u64, data: &[u8]) -> Vec<u8> {
    let mut out = vec![1];
    out.extend(fields(&[USUAL, stream, pts, data.len() as u64]));
    out.extend_from_slice(data);
    out
}

fn wire(parts: &[Vec<u8>]) -> Vec<u8> {
    let mut out = FILE_ID.to_vec();
    for part in parts {
        out.extend_from_slice(part);
    }
    out
}

const WHOLE: u64 = 1 << 14;

fn names(events: &[Seen]) -> Vec<&'static str> {
    events
        .iter()
        .map(|(event, _)| match event {
            Event::MainHeader(_) => "main",
            Event::StreamHeader { .. } => "stream",
            Event::Info(_) => "info",
            Event::Syncpoint => "sync",
            Event::EndOfHeaders => "headed",
            Event::Frame { .. } => "frame",
            Event::EndOfInput => "end",
            _ => "other",
        })
        .collect()
}

#[test]
fn the_headers_end_once_and_ahead_of_the_frames() {
    let again = wire(&[
        main_header(1),
        stream_header(0, b"I420", 0, 0),
        syncpoint(0),
        frame(0, WHOLE, b"a"),
        main_header(1),
        stream_header(0, b"I420", 0, 0),
        syncpoint(0),
        frame(0, WHOLE, b"b"),
        // Another number of streams starts the section again.
        main_header(2),
        stream_header(0, b"I420", 0, 0),
        stream_header(1, b"I420", 0, 0),
        frame(1, WHOLE, b"c"),
    ]);
    let (events, rest) = in_pieces(&again, 5);
    assert_eq!(rest, Ok(true));
    assert_eq!(
        names(&events),
        vec![
            "main", "stream", "sync", "headed", "frame", "main", "stream", "sync", "frame", "main",
            "stream", "stream", "headed", "frame", "end"
        ]
    );
    let none = wire(&[main_header(1), stream_header(0, b"I420", 0, 0)]);
    assert_eq!(names(&in_pieces(&none, 5).0), vec!["main", "stream", "headed", "end"]);
}

#[test]
fn the_headers_end_behind_the_last_packet_ahead_of_the_frames() {
    let mut rate = fields(&[1]);
    put_s(&mut rate, 0);
    rate.extend(fields(&[0, 0, 1]));
    put_vb(&mut rate, b"r_frame_rate");
    put_s(&mut rate, -1);
    put_vb(&mut rate, b"25/1");
    let good = wire(&[
        main_header(1),
        stream_header(0, b"I420", 0, 0),
        syncpoint(0),
        packet(INFO_STARTCODE, &rate),
        frame(0, WHOLE, b"a"),
    ]);
    let (events, rest) = in_pieces(&good, 3);
    assert_eq!(rest, Ok(true));
    assert_eq!(names(&events), vec!["main", "stream", "sync", "info", "headed", "frame", "end"]);
    let demuxer = Demuxer::open(&good).expect("read headers");
    assert_eq!(demuxer.stream().frame_rate, Some((25, 1)));
}

#[test]
fn nothing_but_metadata_comes_ahead_of_the_main_header() {
    let info = packet(INFO_STARTCODE, &fields(&[0, 0, 0, 0, 0]));
    let good = wire(&[info.clone(), main_header(1), stream_header(0, b"I420", 0, 0)]);
    assert_eq!(names(&in_pieces(&good, 4).0), vec!["info", "main", "stream", "headed", "end"]);
    for early in [stream_header(0, b"I420", 0, 0), syncpoint(0), frame(0, WHOLE, b"a")] {
        let (events, rest) = in_pieces(&wire(&[info.clone(), early, main_header(1)]), 4);
        assert_eq!(names(&events), vec!["info"]);
        assert!(rest.is_err());
    }
    // One of two streams has had no header, so the section is not over.
    let (events, rest) = in_pieces(
        &wire(&[main_header(2), stream_header(1, b"I420", 0, 0), frame(1, WHOLE, b"a")]),
        4,
    );
    assert_eq!(names(&events), vec!["main", "stream"]);
    assert!(rest.is_err());
}

#[test]
fn a_dts_is_the_smaller_of_the_pts_and_the_largest_before_it() {
    let times = [4i64, 9, 2, 2, 11, 3, 0, 30];
    for delay in 1..4usize {
        let mut parts = vec![main_header(1), stream_header(0, b"H264", 0, delay as u64)];
        for pts in times {
            parts.push(frame(0, WHOLE + pts as u64, b"a"));
        }
        let (events, _) = in_pieces(&wire(&parts), 64);
        let found: Vec<Option<i64>> = events
            .iter()
            .filter_map(|(event, _)| match event {
                Event::Frame { packet, .. } => Some(packet.dts),
                _ => None,
            })
            .collect();
        let expected: Vec<Option<i64>> = (0..times.len())
            .map(|k| {
                if k < delay {
                    return None;
                }
                let mut before = times[..k].to_vec();
                before.sort();
                Some(times[k].min(before[k - delay]))
            })
            .collect();
        assert_eq!(found, expected, "delay {delay}");
    }
}

#[test]
fn as_many_elision_headers_as_may_be_are_read() {
    let of = |count: u64| {
        let mut body = fields(&[3, 1, 32_767, 1, 1, 25]);
        for (flags, mul, count) in [(INVALID, 0, 1), (CODED, 1, 1), (INVALID, 0, 253)] {
            body.extend(fields(&[flags, 6, 0, mul, 0, 0, 0, count]));
        }
        put_v(&mut body, count);
        for index in 0..count {
            put_vb(&mut body, &[index as u8]);
        }
        let mut out = wire(&[packet(MAIN_STARTCODE, &body), stream_header(0, b"I420", 0, 0)]);
        out.push(1);
        out.extend(fields(&[USUAL | 1024, 0, WHOLE, 3, count]));
        out.extend(b"ab");
        out
    };
    let (events, rest) = in_pieces(&of(128), 50);
    assert_eq!(rest, Ok(true));
    assert_eq!(events[3].1, vec![127, b'a', b'b']);
    assert_eq!(
        in_pieces(&of(129), 50).1,
        Err("NUT main header declares 129 elision headers".to_string())
    );
}

#[test]
fn a_framecode_table_reads_the_same_wherever_it_sits() {
    let table = |groups: &[[u64; 8]]| {
        let mut out = Vec::new();
        for group in groups {
            out.extend(fields(group));
        }
        out
    };
    let refused = |bytes: &[u8], base: u64| match read_frame_codes(&mut Cursor::new(bytes, base)) {
        Err(Halt::Bad(problem)) => problem.kind(),
        _ => panic!("the table should be refused"),
    };
    for base in [0, 1, 5_000_000] {
        // One group claims every entry, the startcode byte's too.
        let whole = table(&[[0, 6, 0, 1, 0, 0, 0, 300]]);
        let mut cursor = Cursor::new(&whole, base);
        let codes = match read_frame_codes(&mut cursor) {
            Ok(codes) => codes,
            Err(_) => panic!("the table should be read"),
        };
        assert_eq!(cursor.at(), whole.len());
        assert_eq!(codes.len(), 256);
        let invalid: Vec<usize> = (0..256).filter(|at| codes[*at].flags == INVALID).collect();
        assert_eq!(invalid, vec![usize::from(b'N')]);
        assert_eq!(refused(&fields(&[0, 65]), base), ErrorKind::Limit);
        assert_eq!(refused(&table(&[[0, 6, 0, 1, 0, 0, 0, 0]; 257]), base), ErrorKind::Limit);
        match read_frame_codes(&mut Cursor::new(&fields(&[0, 6]), base)) {
            Err(Halt::Need(Need::Field { at })) => assert_eq!(at, base + 2),
            _ => panic!("the table is not all there"),
        }
    }
}

#[test]
fn geometry_reads_the_same_wherever_it_sits() {
    let audio = fields(&[96_000, 2, 6]);
    let video = fields(&[16, 9, 1, 2, 3]);
    for base in [0, 77] {
        let mut cursor = Cursor::new(&audio, base);
        assert!(matches!(
            read_audio_geometry(&mut cursor),
            Ok(Media::Audio { sample_rate: 48_000, channels: 6 })
        ));
        assert_eq!(cursor.at(), audio.len());
        let mut cursor = Cursor::new(&video, base);
        assert!(matches!(
            read_video_geometry(&mut cursor),
            Ok(Media::Video {
                width: 16,
                height: 9,
                sample_width: 1,
                sample_height: 2,
                colorspace_type: 3,
            })
        ));
        assert_eq!(cursor.at(), video.len());
    }
}

#[test]
fn a_payload_stands_until_the_next_event() {
    let mut core = PushDemuxer::new(Limits::default());
    core.feed(&wire(&[
        main_header(1),
        stream_header(0, b"I420", 0, 0),
        frame(0, WHOLE, b"first"),
    ]));
    while !matches!(core.next_event().expect("an event"), Some(Event::Frame { .. })) {}
    core.feed(&frame(0, WHOLE, b"second"));
    core.set_stream_limit(0, 6);
    assert!(core.payload_space().is_none());
    core.payload_filled(3);
    core.finish();
    assert_eq!(core.payload(), b"first");
    assert!(matches!(core.next_event(), Ok(Some(Event::Frame { .. }))));
    assert_eq!(core.payload(), b"second");
}

#[test]
fn a_wire_longer_than_one_portion_is_read_to_its_end() {
    let stream = Stream::video("rgba", 2, 2, TimeBase { num: 1, den: 25 }).expect("rgba");
    let mut muxer = Muxer::new(&stream).expect("write headers");
    let sizes = [70_000usize, 3, 65_536, 0, 200_000, 1];
    for (index, size) in sizes.iter().enumerate() {
        muxer.write_frame(index as i64, &vec![index as u8; *size]).expect("write a frame");
    }
    let mut demuxer = Demuxer::open(&muxer.finish()).expect("read headers");
    let mut data = Vec::new();
    for (index, size) in sizes.iter().enumerate() {
        assert_eq!(demuxer.read_frame(&mut data).expect("read"), Some(index as i64));
        assert_eq!(data, vec![index as u8; *size]);
    }
    assert_eq!(demuxer.read_frame(&mut data).expect("the end"), None);
}

#[test]
fn a_stream_stated_again_keeps_its_clock() {
    // A low-bits pts is lifted onto the last one, which the restated headers
    // must not have moved; and the reorder buffer keeps what it held.
    let good = wire(&[
        main_header(1),
        stream_header(0, b"H264", 0, 1),
        frame(0, WHOLE + 100_000, b"a"),
        main_header(1),
        stream_header(0, b"H264", 0, 1),
        frame(0, 100_001 % WHOLE, b"b"),
    ]);
    let (events, rest) = in_pieces(&good, 9);
    assert_eq!(rest, Ok(true));
    let packets: Vec<(i64, Option<i64>)> = events
        .iter()
        .filter_map(|(event, _)| match event {
            Event::Frame { packet, .. } => Some((packet.pts, packet.dts)),
            _ => None,
        })
        .collect();
    assert_eq!(packets, vec![(100_000, None), (100_001, Some(100_000))]);
}

#[test]
fn a_syncpoint_sets_every_clock_in_its_own_time_base() {
    // Two twenty-fifths of a second, coded against the first of two bases.
    let low = 2 * 1_920 + 5;
    let good = wire(&[
        main_header(2),
        stream_header(0, b"I420", 0, 0),
        stream_header(1, b"I420", 1, 0),
        syncpoint(2 * 2),
        frame(0, 3, b"a"),
        frame(1, low, b"b"),
    ]);
    let (events, rest) = in_pieces(&good, 9);
    assert_eq!(rest, Ok(true));
    let stamps: Vec<i64> = events
        .iter()
        .filter_map(|(event, _)| match event {
            Event::Frame { packet, .. } => Some(packet.pts),
            _ => None,
        })
        .collect();
    assert_eq!(stamps, vec![3, low as i64]);
}

#[test]
fn a_syncpoint_before_zero_is_read_as_signed() {
    // Minus three ticks of the first of two time bases: the field is
    // `ticks * 2`, a two's complement pattern. A frame coding the low bits of
    // minus two is lifted next to it.
    let good = wire(&[
        main_header(1),
        stream_header(0, b"I420", 0, 0),
        syncpoint((-6i64) as u64),
        frame(0, WHOLE - 2, b"a"),
    ]);
    let (events, rest) = in_pieces(&good, 4);
    assert_eq!(rest, Ok(true));
    let stamp = events.iter().find_map(|(event, _)| match event {
        Event::Frame { packet, .. } => Some(packet.pts),
        _ => None,
    });
    assert_eq!(stamp, Some(-2));
}

#[test]
fn what_is_not_read_is_stepped_over() {
    let parts = |between: Vec<u8>| {
        wire(&[
            main_header(1),
            stream_header(0, b"I420", 0, 0),
            syncpoint(0),
            frame(0, WHOLE, b"a"),
            between,
            frame(0, WHOLE + 1, b"b"),
        ])
    };
    let without = in_pieces(&parts(Vec::new()), 11);
    assert_eq!(without.1, Ok(true));
    for startcode in [INDEX_STARTCODE, 0x4E00_0000_0000_0001] {
        for len in [0, 5, 4_092, 4_093, 50_000] {
            let with = in_pieces(&parts(packet(startcode, &vec![b'N'; len])), 11);
            assert_eq!(with, without, "a body of {len}");
        }
    }
}

#[test]
fn a_changed_byte_is_refused() {
    let header = stream_header(0, b"I420", 0, 0);
    let from = FILE_ID.len() + main_header(1).len() + 9;
    let good = wire(&[main_header(1), header.clone()]);
    assert!(in_pieces(&good, good.len()).1.is_ok());
    for at in from..good.len() {
        for bit in 0..8 {
            let mut bad = good.clone();
            bad[at] ^= 1 << bit;
            let message = in_pieces(&bad, bad.len()).1.expect_err("one bit changed");
            assert!(message.contains("checksum"), "byte {at}: {message}");
        }
    }
}

#[test]
fn a_frame_at_its_ceiling_is_read_and_one_past_it_is_not() {
    let of = |len: usize| {
        wire(&[
            main_header(2),
            stream_header(0, b"I420", 0, 0),
            stream_header(1, b"I420", 0, 0),
            frame(0, WHOLE, &vec![3; len]),
        ])
    };
    let read = |len: usize, set: &dyn Fn(&mut PushDemuxer), limits: Limits| {
        let mut core = PushDemuxer::new(limits);
        set(&mut core);
        core.feed(&of(len));
        drain(&mut core).1
    };
    let roomy = Limits::default();
    let tight = Limits { max_frame: 10, ..Limits::default() };
    assert_eq!(PushDemuxer::new(tight).limits(), &tight);
    assert_eq!(read(10, &|_| {}, tight), Ok(false));
    assert_eq!(
        read(11, &|_| {}, tight),
        Err("NUT frame claims 11 bytes, more than 10".to_string())
    );
    assert_eq!(read(50, &|core| core.set_stream_limit(0, 50), roomy), Ok(false));
    assert_eq!(
        read(51, &|core| core.set_stream_limit(0, 50), roomy),
        Err("NUT frame claims 51 bytes, more than 50".to_string())
    );
    assert_eq!(read(51, &|core| core.set_stream_limit(1, 50), roomy), Ok(false));
    // A stream's ceiling narrows the one for all of them, and never widens it.
    assert_eq!(
        read(15, &|core| core.set_stream_limit(0, 20), tight),
        Err("NUT frame claims 15 bytes, more than 10".to_string())
    );
    assert_eq!(read(10, &|core| core.set_stream_limit(0, 20), tight), Ok(false));
}

#[test]
fn streams_are_there_once_their_headers_are() {
    let mut core = PushDemuxer::new(Limits::default());
    core.feed(&wire(&[main_header(2)]));
    drain(&mut core);
    assert_eq!(core.streams(), &[None, None]);
    core.feed(&stream_header(1, b"I420", 1, 0));
    drain(&mut core);
    assert!(core.stream(0).is_none());
    let stream = core.stream(1).expect("the second stream's header");
    assert_eq!(stream.time_base, TimeBase { num: 1, den: 48_000 });
    assert_eq!(stream.kind(), "video");
    assert!(core.stream(2).is_none());
}

#[test]
fn an_elided_header_is_put_back() {
    let mut body = fields(&[3, 1, 32_767, 1, 1, 25]);
    // Framecode 1 states its flags; its frames elide into header 1.
    body.extend(fields(&[INVALID, 6, 0, 0, 0, 0, 0, 1]));
    body.extend(fields(&[CODED, 8, 0, 1, 0, 0, 0, 1]));
    put_s(&mut body, 0);
    put_v(&mut body, 1);
    body.extend(fields(&[INVALID, 8, 0, 0, 0, 0, 0, 253]));
    put_s(&mut body, 0);
    put_v(&mut body, 0);
    put_v(&mut body, 1);
    put_vb(&mut body, b"prefix-");
    let mut good = wire(&[packet(MAIN_STARTCODE, &body), stream_header(0, b"I420", 0, 0)]);
    good.push(1);
    good.extend(fields(&[USUAL, 0, WHOLE, 11]));
    good.extend(b"tail");
    let (events, rest) = in_pieces(&good, 2);
    assert_eq!(rest, Ok(true));
    assert_eq!(events[3].1, b"prefix-tail".to_vec());
}

#[test]
fn an_end_of_relevance_frame_is_no_frame() {
    let mut eor = vec![1];
    eor.extend(fields(&[USUAL | 2, 0, WHOLE + 9_000, 3]));
    eor.extend(b"xyz");
    let good = wire(&[
        main_header(1),
        stream_header(0, b"H264", 0, 1),
        frame(0, WHOLE + 5, b"a"),
        eor,
        // Its pts moves the clock all the same, and not the reorder buffer.
        frame(0, 9_001, b"b"),
    ]);
    let (events, rest) = in_pieces(&good, 3);
    assert_eq!(rest, Ok(true));
    let packets: Vec<(i64, Option<i64>)> = events
        .iter()
        .filter_map(|(event, _)| match event {
            Event::Frame { packet, .. } => Some((packet.pts, packet.dts)),
            _ => None,
        })
        .collect();
    assert_eq!(packets, vec![(5, None), (9_001, Some(5))]);
}

#[test]
fn numbers_at_their_limits_come_back() {
    let through = |value: i64| {
        let mut out = Vec::new();
        put_s(&mut out, value);
        Cursor::new(&out, 0).s().ok()
    };
    let widest = (1i64 << 62) - 1;
    for value in [widest, -widest, 1 << 40, -(1 << 40)] {
        assert_eq!(through(value), Some(value));
    }
    // A reader takes no signed number wider than that.
    for value in [widest + 1, -widest - 1, i64::MAX, i64::MIN] {
        assert_eq!(through(value), None);
    }
}
