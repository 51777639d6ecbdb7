//! What info packets state: the frame rate, and metadata.

use ffrwd_nut::bytes::{put_s, put_v, put_vb};
use ffrwd_nut::{
    crc32, Event, Info, Limits, PushDemuxer, FILE_ID, INFO_STARTCODE, MAIN_STARTCODE,
    STREAM_STARTCODE,
};

fn fields(values: &[u64]) -> Vec<u8> {
    let mut out = Vec::new();
    for value in values {
        put_v(&mut out, *value);
    }
    out
}

fn packet(startcode: u64, body: &[u8]) -> Vec<u8> {
    let mut out = startcode.to_be_bytes().to_vec();
    put_v(&mut out, body.len() as u64 + 4);
    if body.len() + 4 > 4096 {
        let head = crc32(&out).to_be_bytes();
        out.extend(head);
    }
    out.extend_from_slice(body);
    out.extend(crc32(body).to_be_bytes());
    out
}

/// The headers of a wire of two streams.
fn opening() -> Vec<u8> {
    let mut out = FILE_ID.to_vec();
    let body = fields(&[3, 2, 32_767, 1, 1, 25, 8192, 6, 0, 0, 0, 0, 0, 255, 0]);
    out.extend(packet(MAIN_STARTCODE, &body));
    for id in 0..2 {
        let mut body = fields(&[id, 0]);
        put_vb(&mut body, b"I420");
        body.extend(fields(&[0, 14, 0, 0, 0]));
        put_vb(&mut body, &[]);
        body.extend(fields(&[4, 4, 1, 1, 0]));
        out.extend(packet(STREAM_STARTCODE, &body));
    }
    out
}

/// An info packet of string fields, against a stream or, with none, the file.
fn info(stream: Option<u64>, stated: &[(&[u8], &[u8])]) -> Vec<u8> {
    let mut body = fields(&[stream.map_or(0, |index| index + 1)]);
    put_s(&mut body, 0);
    body.extend(fields(&[0, 0, stated.len() as u64]));
    for (name, value) in stated {
        put_vb(&mut body, name);
        put_s(&mut body, -1);
        put_vb(&mut body, value);
    }
    packet(INFO_STARTCODE, &body)
}

/// A parser that has read a wire, and what its info packets were announced as.
fn read(wire: &[u8]) -> (PushDemuxer, Vec<Info>) {
    let mut core = PushDemuxer::new(Limits::default());
    core.feed(wire);
    let mut infos = Vec::new();
    while let Some(event) = core.next_event().expect("the wire is good") {
        if let Event::Info(info) = event {
            infos.push(info);
        }
    }
    (core, infos)
}

fn tags(core: &PushDemuxer, stream: Option<usize>) -> Vec<(&str, &str)> {
    core.tags(stream)
        .iter()
        .map(|(name, value)| (name.as_str(), value.as_str()))
        .collect()
}

#[test]
fn metadata_is_kept_in_the_order_its_names_arrived() {
    let mut wire = opening();
    wire.extend(info(Some(1), &[(b"title", b"one"), (b"language", b"eng")]));
    wire.extend(info(None, &[(b"encoder", b"x")]));
    wire.extend(info(Some(1), &[(b"title", b"two"), (b"artist", "\u{e9}".as_bytes())]));
    let (core, infos) = read(&wire);
    assert_eq!(tags(&core, Some(0)), vec![]);
    assert_eq!(
        tags(&core, Some(1)),
        vec![("title", "two"), ("language", "eng"), ("artist", "\u{e9}")]
    );
    assert_eq!(tags(&core, None), vec![("encoder", "x")]);
    assert_eq!(tags(&core, Some(7)), vec![]);
    assert_eq!(
        infos,
        vec![
            Info { stream: Some(1), frame_rate: None },
            Info { stream: None, frame_rate: None },
            Info { stream: Some(1), frame_rate: None },
        ]
    );
}

#[test]
fn a_stream_holds_sixty_four_names() {
    let names: Vec<String> = (0..70).map(|i| format!("name{i}")).collect();
    let mut wire = opening();
    for name in &names {
        wire.extend(info(Some(0), &[(name.as_bytes(), b"v")]));
    }
    // A name that is held still takes another value.
    wire.extend(info(Some(0), &[(b"name63", b"new"), (b"name64", b"never")]));
    let (core, _) = read(&wire);
    let held = tags(&core, Some(0));
    assert_eq!(held.len(), 64);
    assert_eq!(held[0], ("name0", "v"));
    assert_eq!(held[63], ("name63", "new"));
}

#[test]
fn fields_of_other_types_are_read_past() {
    let mut body = fields(&[1]);
    put_s(&mut body, 0);
    body.extend(fields(&[0, 0, 7]));
    for (name, kind) in [("s", -3i64), ("v", -4), ("count", 5), ("named", -2)] {
        put_vb(&mut body, name.as_bytes());
        put_s(&mut body, kind);
        match kind {
            -3 => put_s(&mut body, -40),
            -4 => put_v(&mut body, 40),
            -2 => {
                put_vb(&mut body, b"UTF-8");
                put_vb(&mut body, b"of a named type");
            }
            _ => {}
        }
    }
    for (name, value) in [(&b"bad"[..], &b"\xff"[..]), (b"\xff", b"bad"), (b"good", b"yes")] {
        put_vb(&mut body, name);
        put_s(&mut body, -1);
        put_vb(&mut body, value);
    }
    let mut wire = opening();
    wire.extend(packet(INFO_STARTCODE, &body));
    let (core, infos) = read(&wire);
    assert_eq!(infos.len(), 1);
    assert_eq!(tags(&core, Some(0)), vec![("good", "yes")]);
}

#[test]
fn an_info_packet_that_does_not_parse_is_passed_over() {
    let mut wire = opening();
    wire.extend(packet(INFO_STARTCODE, &[0xcd; 9]));
    wire.extend(info(None, &[(b"a", b"b")]));
    let (core, infos) = read(&wire);
    assert_eq!(infos.len(), 1);
    assert_eq!(tags(&core, None), vec![("a", "b")]);
}

#[test]
fn a_frame_rate_goes_onto_the_stream_it_names() {
    let rate = |stream: Option<u64>, text: &[u8]| {
        let mut wire = opening();
        wire.extend(info(stream, &[(b"r_frame_rate", text)]));
        let (core, infos) = read(&wire);
        let of = |index: usize| core.stream(index).expect("a stream").frame_rate;
        (infos[0].frame_rate, of(0), of(1))
    };
    let some = Some((30_000, 1_001));
    assert_eq!(rate(Some(1), b"30000/1001"), (some, None, some));
    assert_eq!(rate(None, b"30000/1001"), (some, some, some));
    assert_eq!(rate(Some(9), b"30000/1001"), (some, None, None));
    assert_eq!(rate(Some(0), "\u{2003}+25 / 1\n".as_bytes()).0, Some((25, 1)));
    for bad in [
        &b"25"[..],
        b"25/0",
        b"0/1",
        b"-25/1",
        b"2 5/1",
        b"25/1/1",
        b"+/1",
        b"/",
        b"18446744073709551616/1",
        b"25/1\xff",
    ] {
        assert_eq!(rate(Some(0), bad), (None, None, None), "{bad:?}");
    }
    assert_eq!(rate(Some(0), b"18446744073709551615/1").0, Some((u64::MAX, 1)));
}

#[test]
fn a_frame_rate_of_a_named_type_is_read_past() {
    let mut body = fields(&[1]);
    put_s(&mut body, 0);
    body.extend(fields(&[0, 0, 1]));
    put_vb(&mut body, b"r_frame_rate");
    put_s(&mut body, -2);
    put_vb(&mut body, b"x");
    put_vb(&mut body, b"25/1");
    let mut wire = opening();
    wire.extend(packet(INFO_STARTCODE, &body));
    let (core, infos) = read(&wire);
    assert_eq!(infos, vec![Info { stream: Some(0), frame_rate: None }]);
    assert_eq!(core.stream(0).expect("a stream").frame_rate, None);
}
