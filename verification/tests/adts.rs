//! The ADTS header by itself.

use ffrwd_nut::adts::{strip, Header};

/// One hand-crafted ADTS header for `profile` (0 Main, 1 LC, 2 SSR, 3 LTP),
/// `sfi` (the sampling frequency index) and `channels`, ahead of `payload_len`
/// opaque bytes (`0xEE`, so a stripped payload is easy to spot in an
/// assertion). `crc` selects the 9-byte header that carries one.
fn adts_packet(profile: u8, sfi: u8, channels: u8, crc: bool, payload_len: usize) -> Vec<u8> {
    let header_len = if crc { 9 } else { 7 };
    let frame_length = header_len + payload_len;
    let mut packet = vec![0u8; header_len];
    packet[0] = 0xFF;
    packet[1] = 0xF0 | u8::from(!crc);
    packet[2] = (profile << 6) | (sfi << 2) | (channels >> 2);
    packet[3] = ((channels & 0b11) << 6) | ((frame_length >> 11) as u8 & 0b11);
    packet[4] = (frame_length >> 3) as u8;
    packet[5] = ((frame_length as u8 & 0b111) << 5) | 0b0001_1111;
    packet[6] = 0b1111_1100; // raw_data_blocks = 0
    packet.extend(std::iter::repeat(0xEE).take(payload_len));
    packet
}

#[test]
fn lc_48000_stereo_derives_the_known_asc() {
    let mut packet = adts_packet(1, 3, 2, false, 4);
    let header = strip(&mut packet).expect("a well-formed ADTS header strips");
    assert_eq!(header.audio_specific_config(), [0x11, 0x90]);
    assert_eq!(packet, vec![0xEE; 4], "the payload is what remains");
}

#[test]
fn lc_44100_mono_derives_the_known_asc() {
    let mut packet = adts_packet(1, 4, 1, false, 4);
    let header = strip(&mut packet).expect("a well-formed ADTS header strips");
    assert_eq!(header.audio_specific_config(), [0x12, 0x08]);
}

#[test]
fn the_crc_variant_carries_a_nine_byte_header() {
    let mut packet = adts_packet(1, 3, 2, true, 4);
    let header = strip(&mut packet).expect("a checksummed header still parses");
    assert_eq!(header.header_len, 9);
    assert_eq!(packet, vec![0xEE; 4]);
}

#[test]
fn bytes_without_the_syncword_are_not_adts() {
    assert!(Header::parse(&[0, 0, 0, 0, 0, 0, 0]).is_none());
}

#[test]
fn a_short_buffer_is_not_adts() {
    assert!(Header::parse(&[0xFF, 0xF1, 0, 0, 0, 0]).is_none());
}

#[test]
fn a_packet_carrying_two_frames_is_refused_not_split() {
    let mut packet = adts_packet(1, 3, 2, false, 4);
    packet.extend(adts_packet(1, 3, 2, false, 4));
    let err = strip(&mut packet).unwrap_err().to_string();
    assert!(err.contains("more than one ADTS frame"), "{err}");
}

#[test]
fn several_raw_data_blocks_behind_one_header_is_refused() {
    let mut packet = adts_packet(1, 3, 2, false, 4);
    packet[6] |= 0b01; // raw_data_blocks = 1, so 2 frames share this header
    let err = strip(&mut packet).unwrap_err().to_string();
    assert!(err.contains("packs 2 AAC frames"), "{err}");
}
