//! The ADTS header an aac stream hides its config in, through a whole wire.

use ffrwd_nut::{Demuxer, Media, Muxer, Packet, Result, Stream, TimeBase};

/// One hand-crafted ADTS header for `profile` (0 Main, 1 LC, 2 SSR, 3 LTP),
/// `sfi` (the sampling frequency index) and `channels`, ahead of `payload_len`
/// opaque bytes (`0xEE`, so a stripped payload is easy to spot in an
/// assertion). `crc` selects the 9-byte header that carries one.
fn adts_packet(profile: u8, sfi: u8, channels: u8, crc: bool, payload_len: usize) -> Vec<u8> {
    let header_len = if crc { 9 } else { 7 };
    let frame_length = header_len + payload_len;
    let mut packet = vec![0u8; header_len];
    packet[0] = 0xFF;
    packet[1] = 0xF0 | u8::from(!crc);
    packet[2] = (profile << 6) | (sfi << 2) | (channels >> 2);
    packet[3] = ((channels & 0b11) << 6) | ((frame_length >> 11) as u8 & 0b11);
    packet[4] = (frame_length >> 3) as u8;
    packet[5] = ((frame_length as u8 & 0b111) << 5) | 0b0001_1111;
    packet[6] = 0b1111_1100; // raw_data_blocks = 0
    packet.extend(std::iter::repeat(0xEE).take(payload_len));
    packet
}

/// An aac stream header with `extradata`, the shape ffmpeg's NUT muxer
/// writes off a plain `-c copy`: empty when the source was ADTS, filled
/// when it was already mp4 or another container with a real esds.
fn a_coded_aac_stream(extradata: Vec<u8>) -> Stream {
    Stream {
        fourcc: b"\xff\x00\x00\x00".to_vec(),
        time_base: TimeBase { num: 1, den: 48000 },
        msb_pts_shift: 14,
        max_pts_distance: 48000,
        decode_delay: 0,
        extradata,
        frame_rate: None,
        media: Media::Audio {
            sample_rate: 48000,
            channels: 2,
        },
    }
}

/// Writes `packets` as coded aac frames onto `stream` and reads them back.
fn round_trip_coded(stream: &Stream, packets: &[Vec<u8>]) -> Result<(Stream, Vec<Vec<u8>>)> {
    let mut muxer = Muxer::new(stream).expect("write headers");
    for (index, data) in packets.iter().enumerate() {
        let packet = Packet {
            pts: index as i64 * 1024,
            dts: None,
            keyframe: true,
        };
        muxer
            .write_coded(&packet, data)
            .expect("write coded packet");
    }
    let wire = muxer.finish();
    let mut demuxer = Demuxer::open(&wire)?;
    let opened_stream = demuxer.stream().clone();
    let mut buf = Vec::new();
    let mut out = Vec::new();
    while demuxer.read_packet(&mut buf)?.is_some() {
        out.push(buf.clone());
    }
    Ok((opened_stream, out))
}

#[test]
fn adts_derives_extradata_and_is_stripped_from_every_packet() {
    let stream = a_coded_aac_stream(Vec::new());
    // LC 48000 stereo, the `11 90` case: two packets, so the fix is
    // proven on the buffered first packet and on one read normally.
    let packets = vec![
        adts_packet(1, 3, 2, false, 4),
        adts_packet(1, 3, 2, false, 6),
    ];

    let (opened, got) = round_trip_coded(&stream, &packets).expect("adts primes cleanly");
    assert_eq!(
        opened.extradata,
        vec![0x11, 0x90],
        "the AudioSpecificConfig this ADTS header codes"
    );
    assert_eq!(
        got,
        vec![vec![0xEE; 4], vec![0xEE; 6]],
        "the ADTS header is gone, the payload is not"
    );
    for (index, data) in got.iter().enumerate() {
        assert!(
            !(data.first() == Some(&0xFF) && data.get(1).is_some_and(|b| b & 0xF0 == 0xF0)),
            "packet {index} still starts with the ADTS syncword"
        );
    }
}

#[test]
fn a_stream_that_already_has_extradata_is_left_alone_even_over_adts_bytes() {
    let stream = a_coded_aac_stream(vec![0x11, 0x88, 0x56, 0xe5, 0x00]);
    let packet = adts_packet(1, 3, 2, false, 4);

    let (opened, got) = round_trip_coded(&stream, std::slice::from_ref(&packet))
        .expect("a stream with extradata already opens");
    assert_eq!(opened.extradata, stream.extradata, "not overwritten");
    assert_eq!(got, vec![packet], "the packet is handed through untouched");
}

#[test]
fn packets_that_do_not_start_with_the_syncword_are_untouched() {
    let stream = a_coded_aac_stream(Vec::new());
    let packet = vec![0x21, 0x00, 0x10, 0x04];

    let (opened, got) = round_trip_coded(&stream, std::slice::from_ref(&packet))
        .expect("a non-ADTS first packet is not an error");
    assert!(opened.extradata.is_empty(), "nothing to derive it from");
    assert_eq!(got, vec![packet]);
}

#[test]
fn a_packet_carrying_two_adts_frames_is_refused_not_split() {
    let stream = a_coded_aac_stream(Vec::new());
    let mut two_frames = adts_packet(1, 3, 2, false, 4);
    two_frames.extend(adts_packet(1, 3, 2, false, 4));
    let packets = vec![adts_packet(1, 3, 2, false, 4), two_frames];

    let err = round_trip_coded(&stream, &packets)
        .expect_err("a packet with two ADTS frames must be refused");
    assert!(
        err.to_string().contains("more than one ADTS frame"),
        "{}",
        err.to_string()
    );
}
