//! The text annotations ride in.

use ffrwd_nut::bytes::{put_v, put_vb};
use ffrwd_nut::rows::{
    check_json, join_rows, list_rows, peel_record, reads_back, record_rows, split_rows,
    trailing_rows,
};
use ffrwd_nut::{
    crc32, Demuxer, Reader, Stream, TimeBase, FILE_ID, MAIN_STARTCODE, STREAM_STARTCODE,
};

fn owned(rows: &[&str]) -> Vec<String> {
    rows.iter().map(|row| row.to_string()).collect()
}

#[test]
fn rows_are_lines() {
    assert_eq!(split_rows("a\nb\n"), owned(&["a", "b"]));
    assert_eq!(split_rows("a\r\n\n\r\nb"), owned(&["a", "b"]));
    assert_eq!(split_rows("a\rb\r"), owned(&["a\rb\r"]));
    assert_eq!(split_rows(""), owned(&[]));
    assert_eq!(join_rows(&owned(&["a", "\u{e9}"])), "a\n\u{e9}\n");
    assert_eq!(join_rows(&[]), "");
}

#[test]
fn a_record_is_an_object_of_one_key() {
    assert_eq!(
        trailing_rows(" {\n \"trailing\" : [ {\"a\": 1} , [2,3], \"x\" ] } "),
        Some(owned(&["{\"a\": 1}", "[2,3]", "\"x\""]))
    );
    assert_eq!(trailing_rows("{\"trailing\":[]}"), Some(owned(&[])));
    assert_eq!(trailing_rows("{\"\\u0074railing\":[1]}"), Some(owned(&["1"])));
    for other in [
        "{\"trailing\":[1],\"more\":2}",
        "{\"trailing\":[1],\"trailing\":[2]}",
        "{\"trailing\":{}}",
        "{\"trailing\":[1,]}",
        "{\"Trailing\":[1]}",
        "{\"trailing\":[1]}\n{\"trailing\":[2]}",
        "{\"a\":1}",
        "[[1]]",
        "{}",
        "",
    ] {
        assert_eq!(trailing_rows(other), None, "{other}");
    }
    assert_eq!(peel_record("{\"trailing\": nonsense }"), Some(" nonsense ".to_string()));
    assert_eq!(peel_record("{\"trailin\": 1}"), None);
}

#[test]
fn rows_are_written_as_a_record_where_they_are_json() {
    let rows = owned(&["{\"a\":1}", " 2 "]);
    assert_eq!(list_rows(&rows), "[{\"a\":1}, 2 ]");
    assert_eq!(list_rows(&[]), "[]");
    assert_eq!(record_rows(&rows), "{\"trailing\":[{\"a\":1}, 2 ]}");
    assert!(check_json(&rows));
    assert!(check_json(&[]));
    assert!(!check_json(&owned(&["not json"])));
    assert!(!check_json(&owned(&["1,2"])), "two values are not one row");
    assert!(!check_json(&owned(&[""])));
    assert!(reads_back(&Some(owned(&["1", "2"])), &owned(&[" 1", "2\t"])));
    assert!(!reads_back(&Some(owned(&["1", "2"])), &owned(&["1", "3"])));
    assert!(!reads_back(&Some(owned(&["1"])), &owned(&["1", "2"])));
    assert!(!reads_back(&None, &[]));
}

#[test]
fn a_readers_rows_wait_for_their_frame() {
    let stream = Stream::video("rgba", 2, 2, TimeBase { num: 1, den: 25 }).expect("rgba");
    let mut reader = Reader::new(stream, true);
    reader.take_text(4, "a\nb", None).expect("rows");
    reader.take_text(4, "c", None).expect("more rows");
    reader.take_text(9, "ignored", Some(owned(&["t"]))).expect("the record");
    assert!(reader.take_text(9, "", Some(owned(&["t"]))).is_err(), "there is one");
    assert_eq!(reader.take_rows(4), owned(&["a", "b", "c"]));
    assert_eq!(reader.take_rows(4), owned(&[]));
    assert_eq!(reader.take_rows(9), owned(&[]));
    assert_eq!(reader.take_trailing(), owned(&["t"]));
    assert_eq!(reader.take_trailing(), owned(&[]));
    assert!(reader.take_text(9, "", Some(owned(&["u"]))).is_err(), "there was one");
}

#[test]
fn two_packets_for_one_frame_add_up() {
    let fields = |values: &[u64]| {
        let mut out = Vec::new();
        for value in values {
            put_v(&mut out, *value);
        }
        out
    };
    let packet = |startcode: u64, body: &[u8]| {
        let mut out = startcode.to_be_bytes().to_vec();
        put_v(&mut out, body.len() as u64 + 4);
        out.extend_from_slice(body);
        out.extend(crc32(body).to_be_bytes());
        out
    };
    let mut wire = FILE_ID.to_vec();
    let mut body = fields(&[3, 2, 32_767, 1, 1, 25]);
    for (flags, mul, count) in [(8192, 0, 1), (4096, 1, 1), (8192, 0, 253)] {
        body.extend(fields(&[flags, 6, 0, mul, 0, 0, 0, count]));
    }
    put_v(&mut body, 0);
    wire.extend(packet(MAIN_STARTCODE, &body));
    for (id, class, tag, tail) in [
        (0, 0, b"I420", &[4, 4, 1, 1, 0][..]),
        (1, 3, b"FRWD", &[][..]),
    ] {
        let mut body = fields(&[id, class]);
        put_vb(&mut body, tag);
        body.extend(fields(&[0, 14, 0, 0, 0]));
        put_vb(&mut body, &[]);
        body.extend(fields(tail));
        wire.extend(packet(STREAM_STARTCODE, &body));
    }
    for (stream, data) in [(1, &b"a\r\n\nb"[..]), (1, b"c\n"), (0, b"picture")] {
        wire.push(1);
        wire.extend(fields(&[8 | 16 | 32, stream, 5 + (1 << 14), data.len() as u64]));
        wire.extend_from_slice(data);
    }
    let mut demuxer = Demuxer::open_annotated(&wire).expect("read headers");
    let mut data = Vec::new();
    assert_eq!(demuxer.read_frame(&mut data).expect("the frame"), Some(5));
    assert_eq!(data, b"picture");
    assert_eq!(demuxer.take_rows(5), owned(&["a", "b", "c"]));
}
