//! The byte primitives: variable-length integers, byte strings and the
//! checksum.

use ffrwd_nut::bytes::{crc32, put_s, put_v, put_vb, Cursor};
use ffrwd_nut::error::{Error, Halt, Part};

/// The value `read` reads out of `bytes`, where they are all there.
fn read<T>(
    bytes: &[u8],
    read: impl FnOnce(&mut Cursor<'_>) -> Result<T, Halt>,
) -> Result<T, String> {
    let mut cursor = Cursor::new(bytes, 0);
    match read(&mut cursor) {
        Ok(value) => Ok(value),
        Err(halt) => Err(Error::halted(halt).to_string()),
    }
}

fn round_trip_v(value: u64) {
    let mut buf = Vec::new();
    put_v(&mut buf, value);
    let mut cursor = Cursor::new(&buf, 0);
    assert_eq!(cursor.v().expect("v round trip"), value, "v {value}");
    // Nothing is left over: the field is exactly as wide as it needs.
    assert_eq!(cursor.at(), buf.len(), "v {value} length");
}

#[test]
fn variable_length_integers_round_trip() {
    for value in [0, 1, 127, 128, 255, 256, 16383, 16384, 65536, u64::MAX] {
        round_trip_v(value);
    }
}

#[test]
fn variable_length_integers_match_ffmpeg_bytes() {
    // Taken from a NUT file ffmpeg wrote: 32767 and 65536 as they appear
    // in the main header.
    let mut buf = Vec::new();
    put_v(&mut buf, 32767);
    assert_eq!(buf, vec![0x81, 0xff, 0x7f]);
    buf.clear();
    put_v(&mut buf, 65536);
    assert_eq!(buf, vec![0x84, 0x80, 0x00]);
}

#[test]
fn signed_integers_round_trip() {
    for value in [0i64, 1, -1, 2, -2, 2048, -2048, i32::MAX as i64] {
        let mut buf = Vec::new();
        put_s(&mut buf, value);
        assert_eq!(read(&buf, |c| c.s()), Ok(value), "s {value} round trip");
    }
}

#[test]
fn byte_strings_round_trip() {
    let mut buf = Vec::new();
    put_vb(&mut buf, b"RGBA");
    assert_eq!(buf, vec![4, b'R', b'G', b'B', b'A']);
    assert_eq!(read(&buf, |c| c.vb(Part::CodecTag)), Ok(b"RGBA".to_vec()));
}

#[test]
fn checksum_matches_a_packet_ffmpeg_wrote() {
    // The syncpoint body ffmpeg wrote for a stream starting at pts 0:
    // global_key_pts 0, back_ptr_div16 0. Its checksum is zero, which is
    // what the CRC of two zero bytes comes to.
    assert_eq!(crc32(&[0, 0]), 0);
    // A one-byte message the polynomial does move.
    assert_eq!(crc32(&[0x01]), 0x04C1_1DB7);
}

#[test]
fn a_truncated_field_names_the_stream_end() {
    let err = read(&[0x81u8], |c| c.v()).unwrap_err();
    assert!(err.contains("ends mid-field"), "{err}");
}

#[test]
fn a_truncated_run_of_bytes_names_what_it_was() {
    let err = read(&[4u8, b'R', b'G'], |c| c.vb(Part::CodecTag)).unwrap_err();
    assert_eq!(err, "NUT stream ends inside a codec tag: got 2 of 4 bytes");
}

#[test]
fn a_variable_length_integer_that_never_ends_is_refused() {
    let err = read(&[0x81u8; 16], |c| c.v()).unwrap_err();
    assert!(err.contains("runs past"), "{err}");
}
