//! What the muxer puts on the wire.

use ffrwd_nut::{
    Demuxer, Media, Muxer, Packet, Stream, TimeBase, FILE_ID, MAIN_STARTCODE, MAX_DISTANCE,
    SYNCPOINT_STARTCODE,
};

fn a_stream() -> Stream {
    Stream::video("rgba", 2, 2, TimeBase { num: 1, den: 25 }).expect("rgba is carried")
}

/// An h264 stream header shaped like a real encoded one: SPS/PPS as
/// extradata, and a decode delay of two - a reorder buffer of three pts -
/// which is what a B-frame GOP needs.
fn a_coded_h264_stream() -> Stream {
    Stream {
        fourcc: b"H264".to_vec(),
        time_base: TimeBase { num: 1, den: 25 },
        msb_pts_shift: 14,
        max_pts_distance: 25,
        decode_delay: 2,
        extradata: vec![0x67, 0x42, 0x00, 0x1e],
        frame_rate: Some((25, 1)),
        media: Media::Video {
            width: 16,
            height: 16,
            sample_width: 1,
            sample_height: 1,
            colorspace_type: 0,
        },
    }
}

/// An AAC stream header: ffmpeg's own codec tag for it, and no
/// reordering.
fn a_coded_aac_stream() -> Stream {
    Stream {
        fourcc: b"\xff\x00\x00\x00".to_vec(),
        time_base: TimeBase { num: 1, den: 48000 },
        msb_pts_shift: 14,
        max_pts_distance: 48000,
        decode_delay: 0,
        extradata: vec![0x11, 0x88, 0x56, 0xe5, 0x00],
        frame_rate: None,
        media: Media::Audio {
            sample_rate: 48000,
            channels: 1,
        },
    }
}

fn wire_with(frames: &[(i64, Vec<u8>)]) -> Vec<u8> {
    let mut muxer = Muxer::new(&a_stream()).expect("write headers");
    for (pts, data) in frames {
        muxer.write_frame(*pts, data).expect("write frame");
    }
    muxer.finish()
}

#[test]
fn the_stream_starts_with_the_identifier_and_the_main_startcode() {
    let wire = wire_with(&[]);
    assert_eq!(&wire[..FILE_ID.len()], FILE_ID);
    assert_eq!(
        u64::from_be_bytes(wire[FILE_ID.len()..FILE_ID.len() + 8].try_into().unwrap()),
        MAIN_STARTCODE
    );
}

#[test]
fn a_syncpoint_precedes_the_first_frame() {
    let wire = wire_with(&[(0, vec![0u8; 16])]);
    let found = wire
        .windows(8)
        .position(|w| u64::from_be_bytes(w.try_into().unwrap()) == SYNCPOINT_STARTCODE);
    assert!(
        found.is_some(),
        "the first frame needs a syncpoint before it"
    );
}

#[test]
fn syncpoints_come_no_further_apart_than_the_maximum_distance() {
    // Frames well under the distance, so several share one syncpoint.
    let frames: Vec<(i64, Vec<u8>)> = (0..64i64).map(|i| (i, vec![0u8; 1024])).collect();
    let wire = wire_with(&frames);
    let mut previous: Option<usize> = None;
    for start in 0..wire.len().saturating_sub(8) {
        let code = u64::from_be_bytes(wire[start..start + 8].try_into().unwrap());
        if code != SYNCPOINT_STARTCODE {
            continue;
        }
        if let Some(prev) = previous {
            assert!(
                start - prev <= MAX_DISTANCE as usize + 2048,
                "syncpoints {prev} and {start} are too far apart"
            );
        }
        previous = Some(start);
    }
    assert!(previous.is_some(), "there should be syncpoints");
}

#[test]
fn a_negative_timestamp_is_refused() {
    let mut muxer = Muxer::new(&a_stream()).expect("write headers");
    let err = muxer.write_frame(-1, &[0u8; 16]).unwrap_err().to_string();
    assert!(err.contains("negative PTS"), "{err}");
}

#[test]
fn write_coded_is_refused_on_a_raw_stream() {
    let mut muxer = Muxer::new(&a_stream()).expect("write headers");
    let packet = Packet {
        pts: 0,
        dts: None,
        keyframe: true,
    };
    let err = muxer
        .write_coded(&packet, &[0u8; 4])
        .unwrap_err()
        .to_string();
    assert!(err.contains("raw") && err.contains("write_frame"), "{err}");
}

#[test]
fn write_frame_is_refused_on_a_coded_stream() {
    let mut muxer = Muxer::new(&a_coded_h264_stream()).expect("write headers");
    let err = muxer.write_frame(0, &[0u8; 4]).unwrap_err().to_string();
    assert!(
        err.contains("encoded") && err.contains("write_coded"),
        "{err}"
    );
}

#[test]
fn coded_packets_round_trip_through_the_decode_order_reorder_buffer() {
    let stream = a_coded_h264_stream();
    // Decode order: I0 P3 B1 B2 P6 B4 B5, the shape one B-frame GOP
    // takes. Only the leading I frame is a keyframe.
    let packets: Vec<(i64, bool)> = vec![
        (0, true),
        (3, false),
        (1, false),
        (2, false),
        (6, false),
        (4, false),
        (5, false),
    ];
    // Worked out by hand from the reorder buffer of `decode_delay + 1`
    // entries: None until the buffer fills, then the smallest pts seen so
    // far that has not already come out.
    let expected_dts: [Option<i64>; 7] =
        [None, None, Some(0), Some(1), Some(2), Some(3), Some(4)];

    let mut muxer = Muxer::new(&stream).expect("write headers");
    for (index, (pts, keyframe)) in packets.iter().enumerate() {
        let packet = Packet {
            pts: *pts,
            dts: None,
            keyframe: *keyframe,
        };
        muxer
            .write_coded(&packet, &[index as u8; 4])
            .expect("write coded packet");
    }
    let wire = muxer.finish();

    let mut demuxer = Demuxer::open(&wire).expect("read headers");
    assert_eq!(demuxer.stream().decode_delay, 2);
    assert_eq!(demuxer.stream().extradata, stream.extradata);
    assert_eq!(demuxer.stream().codec_name(), Some("h264"));
    assert_eq!(
        demuxer.stream().frame_rate,
        Some((25, 1)),
        "the info packet the muxer wrote says the rate"
    );

    let mut buf = Vec::new();
    let mut got = Vec::new();
    while let Some(packet) = demuxer.read_packet(&mut buf).expect("read coded packet") {
        got.push((packet, buf.clone()));
    }
    assert_eq!(got.len(), packets.len());
    for (index, ((packet, data), (pts, keyframe))) in got.iter().zip(&packets).enumerate() {
        assert_eq!(packet.pts, *pts, "packet {index} pts");
        assert_eq!(packet.keyframe, *keyframe, "packet {index} keyframe");
        assert_eq!(packet.dts, expected_dts[index], "packet {index} dts");
        assert_eq!(data, &vec![index as u8; 4], "packet {index} data");
    }
}

#[test]
fn coded_aac_packets_round_trip_with_no_reordering() {
    let stream = a_coded_aac_stream();
    // Each packet is one AAC frame of 1024 samples; audio has no B-frames
    // so every packet is a keyframe and dts is pts.
    let packets: Vec<(i64, bool)> = (0..4i64).map(|i| (i * 1024, true)).collect();

    let mut muxer = Muxer::new(&stream).expect("write headers");
    for (index, (pts, keyframe)) in packets.iter().enumerate() {
        let packet = Packet {
            pts: *pts,
            dts: None,
            keyframe: *keyframe,
        };
        muxer
            .write_coded(&packet, &[0x21, index as u8, 0x10, 0x04])
            .expect("write coded packet");
    }
    let wire = muxer.finish();

    let mut demuxer = Demuxer::open(&wire).expect("read headers");
    assert_eq!(demuxer.stream().decode_delay, 0);
    assert_eq!(demuxer.stream().codec_name(), Some("aac"));

    let mut buf = Vec::new();
    let mut got = Vec::new();
    while let Some(packet) = demuxer.read_packet(&mut buf).expect("read coded packet") {
        got.push((packet, buf.clone()));
    }
    assert_eq!(got.len(), packets.len());
    for (index, ((packet, data), (pts, keyframe))) in got.iter().zip(&packets).enumerate() {
        assert_eq!(packet.pts, *pts, "packet {index} pts");
        assert_eq!(packet.dts, Some(*pts), "packet {index} dts: no reordering");
        assert_eq!(packet.keyframe, *keyframe, "packet {index} keyframe");
        assert_eq!(
            data,
            &vec![0x21, index as u8, 0x10, 0x04],
            "packet {index} data"
        );
    }
}

#[test]
fn the_raw_path_writes_the_same_bytes_it_always_did() {
    // A pin over `write_frame`'s exact output, so a refactor that shares
    // machinery with `write_coded` cannot silently change it.
    let frames: Vec<(i64, Vec<u8>)> = (0..3i64).map(|i| (i, vec![i as u8; 16])).collect();
    let wire = wire_with(&frames);
    assert_eq!(
        Demuxer::open(&wire)
            .and_then(|mut d| {
                let mut buf = Vec::new();
                let mut out = Vec::new();
                while let Some(pts) = d.read_frame(&mut buf)? {
                    out.push((pts, buf.clone()));
                }
                Ok(out)
            })
            .expect("round trip the raw wire"),
        frames
    );
}
