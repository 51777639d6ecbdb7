//! NUT, the container that puts timestamps on a pipe of frames, read and
//! written by code that is proved to do what it says.
//!
//! Raw frames cannot carry a timestamp; NUT can, ffmpeg reads and writes it
//! natively on a pipe, and it costs a few dozen bytes per frame. Only the
//! subset that goes on such pipes is here: NUT version 3, carrying
//! uncompressed video frames, interleaved pcm, JSON messages, or the encoded
//! packets of [`coded_video_fourccs`] and [`coded_audio_fourccs`]. Anything
//! else is refused by name rather than guessed at.
//!
//! What is read: the main header (version, stream count, time bases, the
//! framecode table, elision headers), the stream headers (fourcc, the
//! geometry the class calls for, time base, pts coding, codec extradata),
//! syncpoints, the `r_frame_rate` and the metadata info packets state, and
//! frames with their coded PTS and keyframe flag. Index packets are stepped
//! over, as is any startcode this subset does not know.
//!
//! Payloads are opaque whichever kind the stream is: a video packet is a
//! frame - encoded bytes or raw pixels - and an audio packet is however many
//! samples the producer chose, and none is looked inside.
//!
//! What is written: the same headers, one framecode that codes every field
//! explicitly, a syncpoint whenever the last one is further back than
//! [`MAX_DISTANCE`], and frames carrying their PTS and a header checksum. A
//! raw stream's frames are always keyframes; an encoded stream's packets
//! state their own keyframe flag and must be handed over in decode order, so
//! a reader can work their dts back out the way it works a demuxed input's.
//!
//! # The two front ends
//!
//! [`PushDemuxer`] is the parser: bytes go in as they arrive, in pieces of
//! any size, and events come out as they complete. It never reads, blocks or
//! seeks.
//!
//! [`Demuxer`] is that parser with a loop around it, over a wire held whole.
//! It carries the one media stream an ffmpeg-facing wire puts on a pipe, and
//! the two things a reader that can wait knows how to do: deriving an aac
//! stream's config from the ADTS header its first packet carries, and reading
//! the annotation stream described below. What it decides on each event is
//! [`Opening`] and [`Reader`], for a caller whose bytes come from elsewhere.
//!
//! # The annotation stream
//!
//! A process that emits rows can put them on the wire beside the frames, so
//! the next process reads both from one pipe. That is stream 1: codec tag
//! [`ANNOTATION_FOURCC`], stream class [`ANNOTATION_CLASS`], the media
//! stream's time base, one packet per frame that has rows, its payload the
//! rows as NDJSON and its PTS the frame's. A frame with no rows gets no
//! packet, and the packet is written before the frame it belongs to.
//!
//! Rows that there was no frame to put on ride one further packet, after
//! every frame's: a single JSON object `{"trailing": [...]}` rather than
//! NDJSON, which is what tells the two apart. It comes last and there is at
//! most one.
//!
//! **This stream is private to these two ends.** ffmpeg has no codec for the
//! tag and no reason to be handed it, and both ends opt into it. On every
//! other edge a second stream is refused by name.
//!
//! # What is proved
//!
//! Every function states what it answers on every input it takes, over the
//! bytes of the wire and values that stand for the parser and the muxer. On
//! top of that:
//!
//! - [`session`]: a wire that was written gives back everything that was sent.
//! - [`arrival`] and [`room`]: how the bytes arrive changes nothing, and no
//!   cut of a good wire is mistaken for a bad one.
//! - [`fronts`] and [`portions`]: the two front ends read the same packets,
//!   and a wire fed in portions reads as one fed whole.
//! - [`order`] and [`calls`]: the main header, a header for every stream, the
//!   end of the headers, and only then frames, whatever calls the parser is
//!   read with.
//! - [`bounds`]: what a wire cannot make the parser hold or hand over.
//! - [`clock`] and [`timing`]: where a frame's DTS comes from.
//! - [`adts`]: what an encoder's ADTS header reads back as, and what taking it
//!   off leaves.
//! - [`forms`], [`packet_forms`], [`main_forms`], [`stream_forms`],
//!   [`info_forms`] and [`frame_forms`]: what any writer may put on the wire,
//!   field by field, reads back as what it was written from.
//! - [`mux_forms`]: what the muxer takes, and which of those forms it writes.
//! - [`reading`]: what a reader makes of each event, and of the rows and the
//!   config that ride with the frames.
//! - [`words`] and [`telling`]: what text spells, and what a message says.

use vstd::prelude::*;

pub mod adts;
pub mod arrival;
pub mod bounds;
pub mod bytes;
pub mod calls;
pub mod clock;
pub mod demux;
pub mod error;
pub mod event;
pub mod flags;
pub mod forms;
pub mod frame;
pub mod frame_forms;
pub mod fronts;
pub mod heading;
pub mod headers;
pub mod info;
pub mod info_forms;
pub mod known;
pub mod main_forms;
pub mod message;
pub mod mux;
pub mod mux_forms;
pub mod order;
pub mod packet;
pub mod packet_forms;
pub mod portions;
pub mod read;
pub mod reading;
pub mod room;
pub mod roundtrip;
pub mod rows;
pub mod session;
pub mod stream;
pub mod stream_forms;
pub mod tables;
pub mod telling;
pub mod text;
pub mod timing;
pub mod words;
pub mod written;

pub use bytes::crc32;
pub use demux::{Limits, PushDemuxer};
pub use error::{Error, ErrorKind};
pub use event::Event;
pub use info::Info;
pub use mux::Muxer;
pub use read::{Demuxer, Opening, Reader, Taken};
pub use stream::{
    coded_audio_fourccs, coded_video_fourccs, fourcc_for_coded, fourcc_for_pix_fmt, fourcc_for_sample_fmt, supported_pix_fmts,
    supported_sample_fmts, Media, Packet, Stream, TimeBase,
};
pub use tables::MainHeader;

verus! {

/// What a call here answers with.
pub type Result<T> = core::result::Result<T, Error>;

/// The 25 bytes every NUT file starts with.
pub const FILE_ID: [u8; 25] = [
    110, 117, 116, 47, 109, 117, 108, 116, 105, 109, 101, 100, 105, 97, 32, 99, 111, 110, 116, 97,
    105, 110, 101, 114, 0,
];

/// The NUT version read and written. Version 4 adds per-frame side data and
/// broadcast timestamps, neither of which belongs on this wire.
pub const VERSION: u64 = 3;

/// How far apart syncpoints may be, in bytes. ffmpeg's own value; the format
/// caps it at 65536.
pub const MAX_DISTANCE: u64 = 32767;

/// The stream the annotation packets ride on, beside the media stream's
/// stream 0.
pub const ANNOTATION_STREAM_ID: u64 = 1;

/// NUT's stream class for data that is neither video, audio nor subtitles.
pub const ANNOTATION_CLASS: u64 = 3;

/// The codec tag on the annotation stream, `FRWD`. Private to this crate's
/// two ends: no ffmpeg build has a decoder for it, by design.
pub const ANNOTATION_FOURCC: [u8; 4] = [70, 82, 87, 68];

/// The codec tag of a data stream of JSON messages, `JSON`.
pub const JSON_FOURCC: [u8; 4] = [74, 83, 79, 78];

/// The only key of the record trailing rows ride in.
pub const TRAILING_KEY: &'static str = "trailing";

pub const MAIN_STARTCODE: u64 = 0x4E4D_7A56_1F5F_04AD;

pub const STREAM_STARTCODE: u64 = 0x4E53_1140_5BF2_F9DB;

pub const SYNCPOINT_STARTCODE: u64 = 0x4E4B_E4AD_EECA_4569;

pub const INDEX_STARTCODE: u64 = 0x4E58_DD67_2F23_E64E;

pub const INFO_STARTCODE: u64 = 0x4E49_AB68_B596_BA78;

/// NUT's stream classes.
pub const VIDEO_CLASS: u64 = 0;

pub const AUDIO_CLASS: u64 = 1;

pub const SUBTITLE_CLASS: u64 = 2;

pub const DATA_CLASS: u64 = 3;

} // verus!
