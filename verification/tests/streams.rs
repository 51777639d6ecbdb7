//! What a stream says of itself.

use ffrwd_nut::{
    coded_audio_fourccs, coded_video_fourccs, fourcc_for_coded, fourcc_for_sample_fmt, supported_pix_fmts, supported_sample_fmts, Media,
    Stream, TimeBase,
};

const SECOND: TimeBase = TimeBase { num: 1, den: 25 };

fn video(tag: &[u8]) -> Stream {
    Stream {
        fourcc: tag.to_vec(),
        ..Stream::video("rgba", 2, 2, SECOND).expect("rgba is carried")
    }
}

fn audio(tag: &[u8]) -> Stream {
    Stream {
        fourcc: tag.to_vec(),
        ..Stream::audio("s16", 48_000, 2).expect("s16 is carried")
    }
}

#[test]
fn coded_streams_are_known_by_every_alias() {
    for tag in [b"H264", b"h264", b"avc1", b"AVC1"] {
        assert_eq!(video(tag).codec_name(), Some("h264"));
        assert_eq!(audio(tag).codec_name(), None);
    }
    for tag in [b"HEVC", b"hevc", b"hev1", b"hvc1"] {
        assert_eq!(video(tag).codec_name(), Some("hevc"));
    }
    for tag in [b"AV01", b"av01"] {
        assert_eq!(video(tag).codec_name(), Some("av1"));
    }
    for tag in [b"\xff\x00\x00\x00", b"mp4a", b"MP4A"] {
        assert_eq!(audio(tag).codec_name(), Some("aac"));
        assert_eq!(video(tag).codec_name(), None);
    }
    assert_eq!(video(b"H26").codec_name(), None);
    assert_eq!(fourcc_for_coded("audio", "h264"), None);
}

#[test]
fn the_tables_of_coded_streams() {
    assert_eq!(
        coded_video_fourccs(),
        vec![
            ("h264", vec![*b"H264", *b"h264", *b"avc1", *b"AVC1"]),
            ("hevc", vec![*b"HEVC", *b"hevc", *b"hev1", *b"hvc1"]),
            ("av1", vec![*b"AV01", *b"av01"]),
        ]
    );
    assert_eq!(coded_audio_fourccs(), vec![("aac", vec![*b"\xff\x00\x00\x00", *b"mp4a", *b"MP4A"])]);
    for (name, tags) in coded_video_fourccs() {
        assert_eq!(fourcc_for_coded("video", name), Some(&tags[0]));
        for tag in tags {
            assert_eq!(video(&tag).codec_name(), Some(name));
        }
    }
}

#[test]
fn raw_streams_are_known_by_their_formats() {
    assert_eq!(supported_pix_fmts(), vec!["rgba", "yuv420p"]);
    assert_eq!(supported_sample_fmts(), vec!["f32", "s16"]);
    assert_eq!(fourcc_for_sample_fmt("f32"), Some(b"PFD\x20"));
    assert_eq!(fourcc_for_sample_fmt("s16"), Some(b"PSD\x10"));
    assert_eq!(fourcc_for_sample_fmt("u8"), None);
    assert_eq!(audio(b"PFD\x20").sample_fmt(), Some("f32"));
    assert_eq!(video(b"PFD\x20").sample_fmt(), None);
    assert_eq!(video(b"I420").pix_fmt(), Some("yuv420p"));
    assert_eq!(audio(b"I420").pix_fmt(), None);
    assert!(Stream::video("gray", 2, 2, SECOND).is_none());
    assert!(Stream::audio("u8", 8_000, 1).is_none());
}

#[test]
fn a_stream_from_nothing_but_geometry() {
    let stream = Stream::video("yuv420p", 640, 480, TimeBase { num: 1_001, den: 30_000 });
    assert_eq!(
        stream,
        Some(Stream {
            fourcc: b"I420".to_vec(),
            time_base: TimeBase { num: 1_001, den: 30_000 },
            msb_pts_shift: 14,
            max_pts_distance: 30,
            decode_delay: 0,
            extradata: vec![],
            frame_rate: None,
            media: Media::Video {
                width: 640,
                height: 480,
                sample_width: 1,
                sample_height: 1,
                colorspace_type: 0,
            },
        })
    );
    let stream = Stream::video("rgba", 1, 1, TimeBase { num: 0, den: 7 }).expect("rgba");
    assert_eq!(stream.max_pts_distance, 7);
    let stream = Stream::audio("f32", 44_100, 6).expect("f32");
    assert_eq!(stream.time_base, TimeBase { num: 1, den: 44_100 });
    assert_eq!(stream.max_pts_distance, 44_100);
    assert_eq!(stream.audio_geometry(), Some((44_100, 6)));
    assert_eq!(stream.video_geometry(), None);
}

#[test]
fn kinds_and_classes() {
    assert_eq!((video(b"I420").kind(), video(b"I420").class()), ("video", 0));
    assert_eq!((audio(b"mp4a").kind(), audio(b"mp4a").class()), ("audio", 1));
    for (class, kind) in [(2, "subtitle"), (3, "data"), (9, "unknown")] {
        let stream = Stream { media: Media::Other { class }, ..video(b"JSON") };
        assert_eq!((stream.kind(), stream.class()), (kind, class));
        assert_eq!(stream.is_json(), class == 3);
    }
    assert!(!Stream { fourcc: b"KLVA".to_vec(), ..Stream::json(SECOND) }.is_json());
    assert_eq!(Stream::json(SECOND).codec_name(), Some("json"));
}

#[test]
fn a_tag_is_safe_to_put_in_a_message() {
    assert_eq!(video(b"PSD\x10").fourcc_name(), "PSD?");
    assert_eq!(video(b"XYZW").fourcc_name(), "XYZW");
    assert_eq!(video(b" ~A?").fourcc_name(), " ~A?");
    assert_eq!(video(b"\xff\x00ab c").fourcc_name(), "??ab c");
    assert_eq!(video("\u{e9}\u{20ac}".as_bytes()).fourcc_name(), "??");
    assert_eq!(video(b"a\xe2\x82z").fourcc_name(), "a?z");
    assert_eq!(video(b"").fourcc_name(), "");
}
