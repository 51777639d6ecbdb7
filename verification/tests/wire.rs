//! Whole streams through both ends.

use ffrwd_nut::{
    crc32, fourcc_for_coded, fourcc_for_pix_fmt, Demuxer, Media, Muxer, Packet, Stream, TimeBase,
    FILE_ID,
};

fn a_stream() -> Stream {
    Stream::video("rgba", 8, 8, TimeBase { num: 1, den: 65536 }).expect("rgba is carried")
}

/// Writes `frames` as NUT and reads them back through the demuxer.
fn round_trip(stream: &Stream, frames: &[(i64, Vec<u8>)]) -> Vec<(i64, Vec<u8>)> {
    let mut muxer = Muxer::new(stream).expect("write headers");
    for (pts, data) in frames {
        muxer.write_frame(*pts, data).expect("write frame");
    }
    let wire = muxer.finish();
    let mut demuxer = Demuxer::open(&wire).expect("read headers");
    assert_eq!(demuxer.stream().media, stream.media);
    assert_eq!(demuxer.stream().time_base, stream.time_base);
    assert_eq!(demuxer.stream().fourcc, stream.fourcc);

    let mut out = Vec::new();
    let mut buf = Vec::new();
    while let Some(pts) = demuxer.read_frame(&mut buf).expect("read frame") {
        out.push((pts, buf.clone()));
    }
    out
}

#[test]
fn frames_and_their_timestamps_survive_a_round_trip() {
    let stream = a_stream();
    let frames: Vec<(i64, Vec<u8>)> = (0..5i64)
        .map(|i| (i * 65536, vec![i as u8; 8 * 8 * 4]))
        .collect();
    assert_eq!(round_trip(&stream, &frames), frames);
}

#[test]
fn colorspace_and_aspect_ratio_survive_a_round_trip() {
    // What an upstream sidecar's header declared: Rec 709 full range,
    // anamorphic 4:3 samples. The output header is built from the
    // input's, so both must come back exactly - `round_trip` compares
    // the whole `media`.
    let mut stream = a_stream();
    stream.media = Media::Video {
        width: 8,
        height: 8,
        sample_width: 4,
        sample_height: 3,
        colorspace_type: 18,
    };
    let frames: Vec<(i64, Vec<u8>)> = (0..2i64)
        .map(|i| (i * 65536, vec![i as u8; 8 * 8 * 4]))
        .collect();
    assert_eq!(round_trip(&stream, &frames), frames);
}

#[test]
fn timestamps_need_not_be_evenly_spaced() {
    let stream = a_stream();
    let frames: Vec<(i64, Vec<u8>)> = [0i64, 7, 1_000_000, 1_000_001]
        .iter()
        .map(|pts| (*pts, vec![0xAB; 8 * 8 * 4]))
        .collect();
    assert_eq!(round_trip(&stream, &frames), frames);
}

#[test]
fn frames_larger_than_the_syncpoint_distance_round_trip() {
    let stream =
        Stream::video("rgba", 128, 128, TimeBase { num: 1, den: 25 }).expect("rgba is carried");
    let frames: Vec<(i64, Vec<u8>)> = (0..3i64)
        .map(|i| (i, vec![i as u8; 128 * 128 * 4]))
        .collect();
    assert_eq!(round_trip(&stream, &frames), frames);
}

/// Writes `frames` with their rows on the annotation stream and reads
/// both back, pairing each frame's rows with it by PTS.
fn round_trip_annotated(
    stream: &Stream,
    frames: &[(i64, Vec<u8>, Vec<String>)],
) -> Vec<(i64, Vec<u8>, Vec<String>)> {
    let mut muxer = Muxer::with_annotations(stream).expect("write headers");
    for (pts, data, rows) in frames {
        muxer.write_rows(*pts, rows).expect("write rows");
        muxer.write_frame(*pts, data).expect("write frame");
    }
    let wire = muxer.finish();
    let mut demuxer = Demuxer::open_annotated(&wire).expect("read headers");
    assert!(demuxer.has_annotations(), "the second stream was declared");

    let mut out = Vec::new();
    let mut buf = Vec::new();
    while let Some(pts) = demuxer.read_frame(&mut buf).expect("read frame") {
        out.push((pts, buf.clone(), demuxer.take_rows(pts)));
    }
    out
}

#[test]
fn rows_come_back_attached_to_their_own_frame() {
    let stream = a_stream();
    let frame = |i: u8| vec![i; 8 * 8 * 4];
    let frames = vec![
        (
            0i64,
            frame(0),
            vec![r#"{"x":1,"y":2,"w":3,"h":4}"#.to_string()],
        ),
        // No rows: this frame gets no packet at all, and must still come
        // back with an empty list rather than its neighbour's rows.
        (65536, frame(1), vec![]),
        (
            131_072,
            frame(2),
            vec![
                r#"{"x":5,"y":6,"w":7,"h":8}"#.to_string(),
                r#"{"x":9,"y":10,"w":11,"h":12}"#.to_string(),
            ],
        ),
    ];
    assert_eq!(round_trip_annotated(&stream, &frames), frames);
}

#[test]
fn the_trailing_record_comes_back_belonging_to_no_frame() {
    let stream = a_stream();
    let trailing = vec![r#"{"frames":2}"#.to_string(), r#"{"cuts":1}"#.to_string()];
    let mut muxer = Muxer::with_annotations(&stream).expect("write headers");
    for pts in [0i64, 65536] {
        muxer
            .write_rows(pts, &[r#"{"x":1,"y":2,"w":3,"h":4}"#.to_string()])
            .expect("write rows");
        muxer
            .write_frame(pts, &vec![7u8; 8 * 8 * 4])
            .expect("write frame");
    }
    muxer
        .write_trailing(65536, &trailing)
        .expect("write the trailing record");
    let wire = muxer.finish();

    let mut demuxer = Demuxer::open_annotated(&wire).expect("read headers");
    let mut buf = Vec::new();
    while let Some(pts) = demuxer.read_frame(&mut buf).expect("read frame") {
        assert_eq!(
            demuxer.take_rows(pts).len(),
            1,
            "the record is no frame's rows"
        );
    }
    assert_eq!(
        demuxer.take_trailing(),
        trailing,
        "the rows come back as they were written"
    );
}

#[test]
fn a_trailing_row_that_is_not_json_has_no_record_to_ride_in() {
    let stream = a_stream();
    let mut muxer = Muxer::with_annotations(&stream).expect("write headers");
    let err = muxer
        .write_trailing(0, &["not json".to_string()])
        .unwrap_err()
        .to_string();
    assert!(err.contains("not JSON"), "{err}");
}

#[test]
fn an_annotated_stream_read_as_a_plain_one_is_refused() {
    let stream = a_stream();
    let mut muxer = Muxer::with_annotations(&stream).expect("write headers");
    muxer
        .write_rows(0, &[r#"{"x":0,"y":0,"w":1,"h":1}"#.to_string()])
        .expect("write rows");
    muxer.write_frame(0, &vec![0u8; 8 * 8 * 4]).expect("frame");
    let wire = muxer.finish();
    let err = match Demuxer::open(&wire) {
        Ok(_) => panic!("the ffmpeg-facing wire carries one stream"),
        Err(e) => e.to_string(),
    };
    assert_eq!(err, "NUT input carries 2 streams; this wire carries one");
}

#[test]
fn a_plain_stream_is_still_read_when_annotations_are_asked_for() {
    let stream = a_stream();
    let mut muxer = Muxer::new(&stream).expect("write headers");
    muxer.write_frame(7, &vec![3u8; 8 * 8 * 4]).expect("frame");
    let wire = muxer.finish();
    let mut demuxer = Demuxer::open_annotated(&wire).expect("read headers");
    assert!(!demuxer.has_annotations());
    let mut buf = Vec::new();
    assert_eq!(demuxer.read_frame(&mut buf).expect("read frame"), Some(7));
    assert!(demuxer.take_rows(7).is_empty());
}

#[test]
fn a_codec_tag_this_wire_does_not_carry_is_named() {
    let mut stream = a_stream();
    stream.fourcc = b"XYZW".to_vec();
    assert_eq!(stream.pix_fmt(), None);
    assert_eq!(stream.fourcc_name(), "XYZW");
}

/// An encoded AAC stream header, as ffmpeg's NUT muxer writes one: the
/// codec tag `ff 00 00 00`, and the AudioSpecificConfig as extradata.
fn an_aac_stream() -> Stream {
    Stream {
        fourcc: b"\xff\x00\x00\x00".to_vec(),
        time_base: TimeBase { num: 1, den: 48000 },
        msb_pts_shift: 14,
        max_pts_distance: 48000,
        decode_delay: 0,
        // 48 kHz mono AAC-LC, as ffprobe reported it.
        extradata: vec![0x11, 0x88, 0x56, 0xe5, 0x00],
        frame_rate: None,
        media: Media::Audio {
            sample_rate: 48000,
            channels: 1,
        },
    }
}

#[test]
fn an_encoded_audio_stream_is_named_by_its_tag() {
    let stream = an_aac_stream();
    assert_eq!(stream.codec_name(), Some("aac"));
    assert_eq!(stream.sample_fmt(), None);
    assert_eq!(stream.audio_geometry(), Some((48000, 1)));
}

#[test]
fn an_audio_tag_this_wire_does_not_carry_names_no_codec() {
    let mut stream = an_aac_stream();
    stream.fourcc = b"OPUS".to_vec();
    assert_eq!(stream.codec_name(), None);
    assert_eq!(stream.fourcc_name(), "OPUS");
}

#[test]
fn a_video_tag_never_names_an_audio_codec() {
    let mut stream = an_aac_stream();
    stream.fourcc = b"H264".to_vec();
    assert_eq!(stream.codec_name(), None);
}

#[test]
fn encoded_audio_packets_and_their_extradata_survive_a_round_trip() {
    let stream = an_aac_stream();
    // Each packet is one AAC frame of 1024 samples, so the timestamps
    // step by 1024 in the stream's own ticks.
    let frames: Vec<(i64, Vec<u8>)> = (0..4i64)
        .map(|i| (i * 1024, vec![0x21, i as u8, 0x10, 0x04]))
        .collect();
    let mut muxer = Muxer::new(&stream).expect("write headers");
    for (pts, data) in &frames {
        let packet = Packet {
            pts: *pts,
            dts: None,
            keyframe: true,
        };
        muxer.write_coded(&packet, data).expect("write packet");
    }
    let wire = muxer.finish();
    let mut demuxer = Demuxer::open(&wire).expect("read headers");
    assert_eq!(demuxer.stream().codec_name(), Some("aac"));
    assert_eq!(demuxer.stream().extradata, stream.extradata);
    let mut out = Vec::new();
    let mut buf = Vec::new();
    while let Some(pts) = demuxer.read_frame(&mut buf).expect("read packet") {
        out.push((pts, buf.clone()));
    }
    assert_eq!(out, frames);
}

#[test]
fn yuv420p_uses_the_tag_ffmpeg_writes() {
    assert_eq!(fourcc_for_pix_fmt("yuv420p"), Some(b"I420"));
    assert_eq!(fourcc_for_pix_fmt("rgba"), Some(b"RGBA"));
    assert_eq!(fourcc_for_pix_fmt("gray"), None);
}

#[test]
fn fourcc_for_coded_reads_the_muxers_own_tag() {
    assert_eq!(fourcc_for_coded("video", "h264"), Some(b"H264"));
    assert_eq!(fourcc_for_coded("video", "hevc"), Some(b"HEVC"));
    assert_eq!(fourcc_for_coded("video", "av1"), Some(b"AV01"));
    assert_eq!(fourcc_for_coded("audio", "aac"), Some(b"\xff\x00\x00\x00"));
    assert_eq!(fourcc_for_coded("video", "aac"), None, "wrong kind");
    assert_eq!(fourcc_for_coded("video", "vp9"), None, "not carried");
    assert_eq!(fourcc_for_coded("subtitle", "h264"), None, "not a kind");
}

/// The message `open` refuses `wire` with.
fn refusal(wire: &[u8]) -> String {
    match Demuxer::open(wire) {
        Ok(_) => panic!("this stream should have been refused"),
        Err(e) => e.to_string(),
    }
}

#[test]
fn a_wire_that_is_not_nut_is_refused_by_the_identifier() {
    let err = refusal(b"rawvideo bytes, no header at all");
    assert!(err.contains("not NUT"), "{err}");
}

#[test]
fn a_truncated_frame_is_an_error() {
    let stream = a_stream();
    let mut muxer = Muxer::new(&stream).expect("write headers");
    muxer
        .write_frame(0, &[0u8; 8 * 8 * 4])
        .expect("write frame");
    let wire = muxer.finish();
    let mut demuxer = Demuxer::open(&wire[..wire.len() - 4]).expect("headers are intact");
    let err = demuxer
        .read_frame(&mut Vec::new())
        .expect_err("the frame is short")
        .to_string();
    assert!(err.contains("ends inside a frame"), "{err}");
}

#[test]
fn a_corrupt_header_checksum_is_an_error() {
    let stream = Stream::video("rgba", 2, 2, TimeBase { num: 1, den: 25 }).expect("rgba");
    let mut muxer = Muxer::new(&stream).expect("write headers");
    muxer.write_frame(0, &[0u8; 16]).expect("write frame");
    let mut wire = muxer.finish();
    // The main header's body starts right after the identifier, the
    // startcode and a one-byte forward pointer; flip a bit in it.
    wire[FILE_ID.len() + 9] ^= 0x01;
    let err = refusal(&wire);
    assert!(err.contains("checksum"), "{err}");
}

#[test]
fn a_main_header_naming_two_streams_is_refused() {
    let stream = Stream::video("rgba", 2, 2, TimeBase { num: 1, den: 25 }).expect("rgba");
    let mut muxer = Muxer::new(&stream).expect("write headers");
    muxer.write_frame(0, &[0u8; 16]).expect("write frame");
    let mut wire = muxer.finish();
    // The main header's length follows the identifier and the startcode,
    // and its body starts after that: version, then the stream count.
    let length_at = FILE_ID.len() + 8;
    assert!(wire[length_at] < 0x80, "the main header body is small");
    let len = usize::from(wire[length_at]);
    let body = length_at + 1;
    wire[body + 1] = 2;
    let checksum = crc32(&wire[body..body + len - 4]).to_be_bytes();
    wire[body + len - 4..body + len].copy_from_slice(&checksum);

    let err = refusal(&wire);
    assert!(err.contains("2 streams"), "{err}");
}

#[test]
fn a_codec_tag_survives_the_headers() {
    let stream = Stream::video("yuv420p", 4, 4, TimeBase { num: 1, den: 30 })
        .expect("yuv420p is carried");
    let mut muxer = Muxer::new(&stream).expect("write headers");
    muxer.write_frame(3, &[7u8; 24]).expect("write frame");
    let wire = muxer.finish();

    let demuxer = Demuxer::open(&wire).expect("read headers");
    assert_eq!(
        demuxer.stream().fourcc,
        fourcc_for_pix_fmt("yuv420p").unwrap()
    );
    assert_eq!(demuxer.stream().pix_fmt(), Some("yuv420p"));
    assert_eq!(demuxer.stream().video_geometry(), Some((4, 4)));
    assert_eq!(demuxer.stream().time_base, TimeBase { num: 1, den: 30 });
}
