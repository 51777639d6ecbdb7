//! What a stream header says, and the codec tags this wire carries.

use vstd::prelude::*;
use vstd::string::StringExecFns;
use vstd::utf8::{
    decode_utf8, encode_utf8, encode_utf8_decode_utf8, encode_utf8_valid_utf8, is_ascii_chars,
    is_ascii_chars_encode_utf8, valid_utf8,
};

use crate::text::{copy_bytes, same_bytes, same_text};
use crate::{AUDIO_CLASS, DATA_CLASS, JSON_FOURCC, SUBTITLE_CLASS, VIDEO_CLASS};

verus! {

/// The unit PTS are counted in, as a rational number of seconds.
#[derive(Debug, Clone, Copy, PartialEq, Eq, Structural)]
pub struct TimeBase {
    pub num: u64,
    pub den: u64,
}

/// What one frame's own header said about it, past its bytes. For an encoded
/// stream a frame is a packet; the names differ, the wire does not.
#[derive(Debug, Clone, Copy, PartialEq, Eq, Structural)]
pub struct Packet {
    /// Presentation timestamp, as the frame coded it. Frames arrive in
    /// decode order, so where the stream reorders this is not monotonic.
    pub pts: i64,
    /// Decode timestamp, worked out from the pts stream through a reorder
    /// buffer of `decode_delay + 1` entries, the way ffmpeg's own demuxing
    /// does. None for the first `decode_delay` frames, where the wire does
    /// not settle it. With no reordering it is the pts itself.
    pub dts: Option<i64>,
    /// The frame header's keyframe flag.
    pub keyframe: bool,
}

/// What a stream on this wire carries, past the fields every kind shares.
#[derive(Debug, Clone, Copy, PartialEq, Eq, Structural)]
pub enum Media {
    Video {
        width: u32,
        height: u32,
        sample_width: u64,
        sample_height: u64,
        colorspace_type: u64,
    },
    Audio { sample_rate: u32, channels: u32 },
    /// A stream of some other NUT class - subtitles, or data, which is what
    /// the annotation stream rides on. Its header carries no geometry, so
    /// this names the class and nothing else; its frames still arrive, with
    /// their timestamps, for whoever knows what is in them.
    Other { class: u64 },
}

/// One stream on this wire, as the stream header describes it. The muxer
/// writes an output header from an input's, so everything a consumer needs
/// survives the hop.
#[derive(Debug, PartialEq, Eq)]
pub struct Stream {
    /// The codec tag. `RGBA`, `I420`, the two pcm tags and the coded tags of
    /// [`fourcc_for_coded`] are what this crate knows by name; any other tag
    /// is carried, not read.
    pub fourcc: Vec<u8>,
    pub time_base: TimeBase,
    /// How many low bits of a PTS a frame may code, instead of all of it.
    pub msb_pts_shift: u32,
    pub max_pts_distance: u64,
    /// How many packets the decoder holds back before the first picture
    /// leaves it. Zero for every raw stream; a coded stream with B-frames
    /// reorders, and this is by how much.
    pub decode_delay: u64,
    /// The codec's out-of-band header, from the stream header's
    /// codec-specific field: for h264, the SPS and PPS. Empty for raw
    /// streams.
    pub extradata: Vec<u8>,
    /// Frames per second as `num/den`, from the `r_frame_rate` an info
    /// packet states. None where nothing on the wire said it.
    ///
    /// NUT has no per-frame duration field, so this is the only thing that
    /// carries one: a reader works each packet's duration out of the rate.
    /// Without it a reordering stream loses its durations entirely, since
    /// the next packet READ is not the next picture SHOWN and no pair of
    /// timestamps settles the gap.
    pub frame_rate: Option<(u64, u64)>,
    pub media: Media,
}

/// A stream header as a value: the same fields, the byte strings as
/// sequences.
#[verifier::ext_equal]
pub struct StreamV {
    pub fourcc: Seq<u8>,
    pub time_base: TimeBase,
    pub msb_pts_shift: u32,
    pub max_pts_distance: u64,
    pub decode_delay: u64,
    pub extradata: Seq<u8>,
    pub frame_rate: Option<(u64, u64)>,
    pub media: Media,
}

impl View for Stream {
    type V = StreamV;

    open spec fn view(&self) -> StreamV {
        StreamV {
            fourcc: self.fourcc@,
            time_base: self.time_base,
            msb_pts_shift: self.msb_pts_shift,
            max_pts_distance: self.max_pts_distance,
            decode_delay: self.decode_delay,
            extradata: self.extradata@,
            frame_rate: self.frame_rate,
            media: self.media,
        }
    }
}

impl Clone for Stream {
    fn clone(&self) -> (copy: Stream)
        ensures
            copy@ == self@,
    {
        Stream {
            fourcc: copy_bytes(self.fourcc.as_slice()),
            time_base: self.time_base,
            msb_pts_shift: self.msb_pts_shift,
            max_pts_distance: self.max_pts_distance,
            decode_delay: self.decode_delay,
            extradata: copy_bytes(self.extradata.as_slice()),
            frame_rate: self.frame_rate,
            media: self.media,
        }
    }
}

/// What some optional text says.
pub open spec fn text_view(text: Option<&'static str>) -> Option<Seq<char>> {
    match text {
        Some(text) => Some(text@),
        None => None,
    }
}

/// What an optional codec tag holds.
pub open spec fn tag_view(tag: Option<&'static [u8; 4]>) -> Option<Seq<u8>> {
    match tag {
        Some(tag) => Some(tag@),
        None => None,
    }
}

// The codec tags ffmpeg gives what this wire carries.

/// `RGBA`.
pub open spec fn tag_rgba() -> Seq<u8> {
    seq![82, 71, 66, 65]
}

/// `I420`.
pub open spec fn tag_i420() -> Seq<u8> {
    seq![73, 52, 50, 48]
}

/// `PFD` and a 32: interleaved 32-bit float pcm.
pub open spec fn tag_f32() -> Seq<u8> {
    seq![80, 70, 68, 32]
}

/// `PSD` and a 16: interleaved 16-bit pcm.
pub open spec fn tag_s16() -> Seq<u8> {
    seq![80, 83, 68, 16]
}

/// The tags a demuxer accepts for h264, the muxer's own first.
pub open spec fn tags_h264() -> Seq<Seq<u8>> {
    seq![seq![72, 50, 54, 52], seq![104, 50, 54, 52], seq![97, 118, 99, 49], seq![65, 86, 67, 49]]
}

/// The tags a demuxer accepts for hevc, the muxer's own first.
pub open spec fn tags_hevc() -> Seq<Seq<u8>> {
    seq![
        seq![72, 69, 86, 67],
        seq![104, 101, 118, 99],
        seq![104, 101, 118, 49],
        seq![104, 118, 99, 49],
    ]
}

/// The tags a demuxer accepts for av1, the muxer's own first.
pub open spec fn tags_av1() -> Seq<Seq<u8>> {
    seq![seq![65, 86, 48, 49], seq![97, 118, 48, 49]]
}

/// The tags a demuxer accepts for aac, the muxer's own first. ffmpeg writes
/// `ff 00 00 00` and puts the codec's AudioSpecificConfig in the stream
/// header's extradata; `mp4a` is the tag the same codec takes in mp4,
/// accepted here as an alias. An aac stream remuxed `-c copy` off ADTS (HLS,
/// mpegts) carries no extradata at all - the reader derives it from the first
/// packet's ADTS header instead, and strips that header from every packet;
/// see [`adts`](crate::adts).
pub open spec fn tags_aac() -> Seq<Seq<u8>> {
    seq![seq![255, 0, 0, 0], seq![109, 112, 52, 97], seq![77, 80, 52, 65]]
}

/// The codec tag ffmpeg gives a pixel format in NUT.
pub open spec fn pix_fmt_tag(pix_fmt: Seq<char>) -> Option<Seq<u8>> {
    if pix_fmt == "rgba"@ {
        Some(tag_rgba())
    } else if pix_fmt == "yuv420p"@ {
        Some(tag_i420())
    } else {
        None
    }
}

/// The codec tag ffmpeg gives the pcm codec of a sample format in NUT.
pub open spec fn sample_fmt_tag(sample_fmt: Seq<char>) -> Option<Seq<u8>> {
    if sample_fmt == "f32"@ {
        Some(tag_f32())
    } else if sample_fmt == "s16"@ {
        Some(tag_s16())
    } else {
        None
    }
}

/// The tags of a codec, out of the table for a kind of stream.
pub open spec fn coded_tags(kind: Seq<char>, codec: Seq<char>) -> Option<Seq<Seq<u8>>> {
    if kind == "video"@ {
        if codec == "h264"@ {
            Some(tags_h264())
        } else if codec == "hevc"@ {
            Some(tags_hevc())
        } else if codec == "av1"@ {
            Some(tags_av1())
        } else {
            None
        }
    } else if kind == "audio"@ && codec == "aac"@ {
        Some(tags_aac())
    } else {
        None
    }
}

impl StreamV {
    /// Whether this is a data stream of JSON messages.
    pub open spec fn is_json(self) -> bool {
        self.media == (Media::Other { class: DATA_CLASS }) && self.fourcc == JSON_FOURCC@
    }

    /// The pixel format the codec tag names.
    pub open spec fn pix_fmt(self) -> Option<Seq<char>> {
        if self.media is Video && self.fourcc == tag_rgba() {
            Some("rgba"@)
        } else if self.media is Video && self.fourcc == tag_i420() {
            Some("yuv420p"@)
        } else {
            None
        }
    }

    /// The sample format the codec tag names.
    pub open spec fn sample_fmt(self) -> Option<Seq<char>> {
        if self.media is Audio && self.fourcc == tag_f32() {
            Some("f32"@)
        } else if self.media is Audio && self.fourcc == tag_s16() {
            Some("s16"@)
        } else {
            None
        }
    }

    /// ffmpeg's name for the coded codec the tag names.
    #[verifier::opaque]
    pub open spec fn codec_name(self) -> Option<Seq<char>> {
        match self.media {
            Media::Video { .. } => if tags_h264().contains(self.fourcc) {
                Some("h264"@)
            } else if tags_hevc().contains(self.fourcc) {
                Some("hevc"@)
            } else if tags_av1().contains(self.fourcc) {
                Some("av1"@)
            } else {
                None
            },
            Media::Audio { .. } => if tags_aac().contains(self.fourcc) {
                Some("aac"@)
            } else {
                None
            },
            Media::Other { .. } => if self.is_json() {
                Some("json"@)
            } else {
                None
            },
        }
    }

    /// The NUT stream class this stream's media is written as.
    pub open spec fn class(self) -> u64 {
        match self.media {
            Media::Video { .. } => VIDEO_CLASS,
            Media::Audio { .. } => AUDIO_CLASS,
            Media::Other { class } => class,
        }
    }

    /// What a message calls this kind of stream.
    pub open spec fn kind(self) -> Seq<char> {
        match self.media {
            Media::Video { .. } => "video"@,
            Media::Audio { .. } => "audio"@,
            Media::Other { class } => if class == SUBTITLE_CLASS {
                "subtitle"@
            } else if class == DATA_CLASS {
                "data"@
            } else {
                "unknown"@
            },
        }
    }
}

/// The codec a tag names is a matter of the tag and the media alone.
pub proof fn lemma_codec_by_tag(a: StreamV, b: StreamV)
    requires
        a.fourcc == b.fourcc,
        a.media == b.media,
    ensures
        a.codec_name() == b.codec_name(),
{
    reveal(StreamV::codec_name);
}

/// `String::from_utf8_lossy`: the text some bytes spell, with a replacement
/// character for each run that is not UTF-8.
pub uninterp spec fn utf8_lossy(bytes: Seq<u8>) -> Seq<char>;

/// `String::from_utf8_lossy`. The result depends on the bytes alone, and
/// where they are well formed it is the text they spell; how many replacement
/// characters a malformed run takes is left to the name.
#[verifier::external_body]
fn from_utf8_lossy(bytes: &[u8]) -> (text: String)
    ensures
        text@ == utf8_lossy(bytes@),
        valid_utf8(bytes@) ==> text@ == decode_utf8(bytes@),
{
    String::from_utf8_lossy(bytes).into_owned()
}

/// A character a message can carry as it is, or a question mark.
pub open spec fn printable_char(c: char) -> char {
    if 32 <= c as u32 <= 126 {
        c
    } else {
        '?'
    }
}

/// Text with everything that is not a printable ASCII character masked.
pub open spec fn printable_chars(text: Seq<char>) -> Seq<char> {
    text.map_values(|c: char| printable_char(c))
}

/// A codec tag as something safe to put in an error message.
pub open spec fn printable_tag(tag: Seq<u8>) -> Seq<char> {
    printable_chars(utf8_lossy(tag))
}

/// Some bytes each taken for a character.
pub open spec fn ascii_chars(bytes: Seq<u8>) -> Seq<char> {
    bytes.map_values(|b: u8| b as char)
}

/// Whether a codec tag is printable ASCII throughout.
pub open spec fn prints(tag: Seq<u8>) -> bool {
    forall|i: int| 0 <= i < tag.len() ==> 32 <= #[trigger] tag[i] <= 126
}

/// A tag of printable ASCII spells itself, and nothing of it is masked.
proof fn lemma_prints(tag: Seq<u8>)
    requires
        prints(tag),
    ensures
        valid_utf8(tag),
        decode_utf8(tag) == ascii_chars(tag),
        printable_chars(ascii_chars(tag)) == ascii_chars(tag),
{
    let chars = ascii_chars(tag);
    assert forall|i: int| 0 <= i < chars.len() implies 32 <= #[trigger] chars[i] as u32 <= 126 by {
        assert(32 <= tag[i] <= 126);
    }
    assert(is_ascii_chars(chars));
    is_ascii_chars_encode_utf8(chars);
    assert(encode_utf8(chars) =~= tag);
    encode_utf8_valid_utf8(chars);
    encode_utf8_decode_utf8(chars);
    assert(printable_chars(chars) =~= chars);
}

/// Text with everything that is not a printable ASCII character masked.
pub fn printable(text: &str) -> (masked: String)
    ensures
        masked@ == printable_chars(text@),
{
    let mut masked = String::new();
    for c in it: text.chars()
        invariant
            masked@ == printable_chars(it.seq().take(it.index())),
            it.seq() == text@,
    {
        let ghost done = it.index();
        masked.push(
            if 32 <= c as u32 && c as u32 <= 126 {
                c
            } else {
                '?'
            },
        );
        assert(it.seq().take(done + 1) =~= it.seq().take(done).push(c));
        assert(masked@ =~= printable_chars(it.seq().take(done + 1)));
    }
    assert(text@.take(text@.len() as int) =~= text@);
    masked
}

/// Appends a codec tag, masked for a message.
pub fn put_tag(out: &mut String, tag: &[u8])
    ensures
        final(out)@ == old(out)@ + printable_tag(tag@),
        valid_utf8(tag@) ==> final(out)@ == old(out)@ + printable_chars(decode_utf8(tag@)),
        prints(tag@) ==> final(out)@ == old(out)@ + ascii_chars(tag@),
{
    proof {
        if prints(tag@) {
            lemma_prints(tag@);
        }
    }
    let text = from_utf8_lossy(tag);
    let masked = printable(text.as_str());
    out.append(masked.as_str());
}

/// Whether a codec tag is this one.
fn is_tag(fourcc: &[u8], tag: [u8; 4]) -> (same: bool)
    ensures
        same == (fourcc@ == tag@),
{
    same_bytes(fourcc, tag.as_slice())
}

/// A raw video stream, built from nothing but geometry.
pub open spec fn made_video(tag: Seq<u8>, width: u32, height: u32, time_base: TimeBase) -> StreamV {
    StreamV {
        fourcc: tag,
        time_base,
        msb_pts_shift: 14,
        max_pts_distance: ticks_per_second(time_base),
        decode_delay: 0,
        extradata: Seq::empty(),
        frame_rate: None,
        media: Media::Video {
            width,
            height,
            sample_width: 1,
            sample_height: 1,
            colorspace_type: 0,
        },
    }
}

/// A raw audio stream, a tick of whose time base is a sample.
pub open spec fn made_audio(tag: Seq<u8>, sample_rate: u32, channels: u32) -> StreamV {
    StreamV {
        fourcc: tag,
        time_base: TimeBase { num: 1, den: sample_rate as u64 },
        msb_pts_shift: 14,
        max_pts_distance: sample_rate as u64,
        decode_delay: 0,
        extradata: Seq::empty(),
        frame_rate: None,
        media: Media::Audio { sample_rate, channels },
    }
}

/// A data stream of JSON messages.
pub open spec fn made_json(time_base: TimeBase) -> StreamV {
    StreamV {
        fourcc: JSON_FOURCC@,
        time_base,
        msb_pts_shift: 14,
        max_pts_distance: ticks_per_second(time_base),
        decode_delay: 0,
        extradata: Seq::empty(),
        frame_rate: None,
        media: Media::Other { class: DATA_CLASS },
    }
}

impl Stream {
    /// A video stream of `pix_fmt` frames, for building a header from nothing
    /// but geometry.
    pub fn video(pix_fmt: &str, width: u32, height: u32, time_base: TimeBase) -> (stream: Option<
        Stream,
    >)
        ensures
            match stream {
                Some(stream) => pix_fmt_tag(pix_fmt@) == Some(stream.fourcc@) && stream@ == (StreamV {
                    fourcc: stream.fourcc@,
                    time_base,
                    msb_pts_shift: 14,
                    max_pts_distance: ticks_per_second(time_base),
                    decode_delay: 0,
                    extradata: Seq::empty(),
                    frame_rate: None,
                    media: Media::Video {
                        width,
                        height,
                        sample_width: 1,
                        sample_height: 1,
                        colorspace_type: 0,
                    },
                }),
                None => pix_fmt_tag(pix_fmt@) is None,
            },
            stream matches Some(got) ==> got@ == made_video(got.fourcc@, width, height, time_base),
    {
        let tag = match fourcc_for_pix_fmt(pix_fmt) {
            Some(tag) => tag,
            None => {
                return None;
            },
        };
        Some(
            Stream {
                fourcc: copy_bytes(tag.as_slice()),
                time_base,
                msb_pts_shift: 14,
                max_pts_distance: whole_ticks_per_second(time_base),
                decode_delay: 0,
                extradata: Vec::new(),
                frame_rate: None,
                media: Media::Video {
                    width,
                    height,
                    sample_width: 1,
                    sample_height: 1,
                    colorspace_type: 0,
                },
            },
        )
    }

    /// An audio stream of interleaved `sample_fmt` samples. The time base is
    /// the natural one, where a tick is a sample.
    pub fn audio(sample_fmt: &str, sample_rate: u32, channels: u32) -> (stream: Option<Stream>)
        ensures
            match stream {
                Some(stream) => sample_fmt_tag(sample_fmt@) == Some(stream.fourcc@) && stream@ == (
                StreamV {
                    fourcc: stream.fourcc@,
                    time_base: TimeBase { num: 1, den: sample_rate as u64 },
                    msb_pts_shift: 14,
                    max_pts_distance: sample_rate as u64,
                    decode_delay: 0,
                    extradata: Seq::empty(),
                    frame_rate: None,
                    media: Media::Audio { sample_rate, channels },
                }),
                None => sample_fmt_tag(sample_fmt@) is None,
            },
            stream matches Some(got) ==> got@ == made_audio(got.fourcc@, sample_rate, channels),
    {
        let tag = match fourcc_for_sample_fmt(sample_fmt) {
            Some(tag) => tag,
            None => {
                return None;
            },
        };
        Some(
            Stream {
                fourcc: copy_bytes(tag.as_slice()),
                time_base: TimeBase { num: 1, den: sample_rate as u64 },
                msb_pts_shift: 14,
                max_pts_distance: sample_rate as u64,
                decode_delay: 0,
                extradata: Vec::new(),
                frame_rate: None,
                media: Media::Audio { sample_rate, channels },
            },
        )
    }

    /// A data stream of JSON messages, one a packet.
    pub fn json(time_base: TimeBase) -> (stream: Stream)
        ensures
            stream@ == (StreamV {
                fourcc: JSON_FOURCC@,
                time_base,
                msb_pts_shift: 14,
                max_pts_distance: ticks_per_second(time_base),
                decode_delay: 0,
                extradata: Seq::empty(),
                frame_rate: None,
                media: Media::Other { class: DATA_CLASS },
            }),
            stream@.is_json(),
            stream@ == made_json(time_base),
    {
        Stream {
            fourcc: copy_bytes(JSON_FOURCC.as_slice()),
            time_base,
            msb_pts_shift: 14,
            max_pts_distance: whole_ticks_per_second(time_base),
            decode_delay: 0,
            extradata: Vec::new(),
            frame_rate: None,
            media: Media::Other { class: DATA_CLASS },
        }
    }

    /// Whether this is a data stream of JSON messages.
    pub fn is_json(&self) -> (yes: bool)
        ensures
            yes == self@.is_json(),
    {
        match self.media {
            Media::Other { class } => class == DATA_CLASS && is_tag(
                self.fourcc.as_slice(),
                JSON_FOURCC,
            ),
            _ => false,
        }
    }

    /// The NUT stream class this stream's media is written as.
    pub fn class(&self) -> (class: u64)
        ensures
            class == self@.class(),
    {
        match self.media {
            Media::Video { .. } => VIDEO_CLASS,
            Media::Audio { .. } => AUDIO_CLASS,
            Media::Other { class } => class,
        }
    }

    /// The pixel format the codec tag names, or None for anything that is not
    /// a video stream this crate knows.
    pub fn pix_fmt(&self) -> (name: Option<&'static str>)
        ensures
            text_view(name) == self@.pix_fmt(),
    {
        match self.media {
            Media::Video { .. } => if is_tag(self.fourcc.as_slice(), [82, 71, 66, 65]) {
                Some("rgba")
            } else if is_tag(self.fourcc.as_slice(), [73, 52, 50, 48]) {
                Some("yuv420p")
            } else {
                None
            },
            _ => None,
        }
    }

    /// ffmpeg's name for the coded codec the tag names, from the table for
    /// this stream's own kind. None for a raw stream and for any codec this
    /// wire does not carry.
    pub fn codec_name(&self) -> (name: Option<&'static str>)
        ensures
            text_view(name) == self@.codec_name(),
    {
        proof {
            reveal(StreamV::codec_name);
        }
        let tag = self.fourcc.as_slice();
        match self.media {
            Media::Video { .. } => if is_h264(tag) {
                Some("h264")
            } else if is_hevc(tag) {
                Some("hevc")
            } else if is_av1(tag) {
                Some("av1")
            } else {
                None
            },
            Media::Audio { .. } => if is_aac(tag) {
                Some("aac")
            } else {
                None
            },
            Media::Other { .. } => if self.is_json() {
                Some("json")
            } else {
                None
            },
        }
    }

    /// The sample format the codec tag names, or None for anything that is not
    /// an audio stream this crate knows.
    pub fn sample_fmt(&self) -> (name: Option<&'static str>)
        ensures
            text_view(name) == self@.sample_fmt(),
    {
        match self.media {
            Media::Audio { .. } => if is_tag(self.fourcc.as_slice(), [80, 70, 68, 32]) {
                Some("f32")
            } else if is_tag(self.fourcc.as_slice(), [80, 83, 68, 16]) {
                Some("s16")
            } else {
                None
            },
            _ => None,
        }
    }

    /// The frame geometry, for a video stream.
    pub fn video_geometry(&self) -> (geometry: Option<(u32, u32)>)
        ensures
            geometry == match self.media {
                Media::Video { width, height, .. } => Some((width, height)),
                _ => None,
            },
    {
        match self.media {
            Media::Video { width, height, .. } => Some((width, height)),
            _ => None,
        }
    }

    /// The rate and channel count, for an audio stream.
    pub fn audio_geometry(&self) -> (geometry: Option<(u32, u32)>)
        ensures
            geometry == match self.media {
                Media::Audio { sample_rate, channels } => Some((sample_rate, channels)),
                _ => None,
            },
    {
        match self.media {
            Media::Audio { sample_rate, channels } => Some((sample_rate, channels)),
            _ => None,
        }
    }

    /// `video` or `audio`, for a message.
    pub fn kind(&self) -> (kind: &'static str)
        ensures
            kind@ == self@.kind(),
    {
        match self.media {
            Media::Video { .. } => "video",
            Media::Audio { .. } => "audio",
            Media::Other { class } => if class == SUBTITLE_CLASS {
                "subtitle"
            } else if class == DATA_CLASS {
                "data"
            } else {
                "unknown"
            },
        }
    }

    /// The codec tag as something safe to put in an error message: one of
    /// printable ASCII as it is, and anything else in it masked.
    pub fn fourcc_name(&self) -> (name: String)
        ensures
            name@ == printable_tag(self.fourcc@),
            valid_utf8(self.fourcc@) ==> name@ == printable_chars(decode_utf8(self.fourcc@)),
            prints(self.fourcc@) ==> name@ == ascii_chars(self.fourcc@),
            forall|i: int| 0 <= i < name@.len() ==> 32 <= #[trigger] name@[i] as u32 <= 126,
    {
        proof {
            if prints(self.fourcc@) {
                lemma_prints(self.fourcc@);
            }
        }
        let text = from_utf8_lossy(self.fourcc.as_slice());
        printable(text.as_str())
    }
}

/// How many ticks of a time base make a second, rounded up.
pub open spec fn ticks_per_second(time_base: TimeBase) -> u64 {
    let num = if time_base.num == 0 {
        1
    } else {
        time_base.num as int
    };
    ((time_base.den + num - 1) / num) as u64
}

/// How many ticks of a time base make a second, rounded up.
fn whole_ticks_per_second(time_base: TimeBase) -> (ticks: u64)
    ensures
        ticks == ticks_per_second(time_base),
{
    let num: u64 = if time_base.num == 0 {
        1
    } else {
        time_base.num
    };
    let whole = time_base.den / num;
    let left = time_base.den % num;
    proof {
        lemma_ceiling(time_base.den as int, num as int);
    }
    if left == 0 {
        whole
    } else {
        whole + 1
    }
}

proof fn lemma_ceiling(den: int, num: int)
    requires
        0 <= den <= u64::MAX,
        0 < num,
    ensures
        (den + num - 1) / num == den / num + (if den % num == 0 {
            0int
        } else {
            1
        }),
        den % num != 0 ==> den / num < u64::MAX,
        0 <= den / num <= den,
{
    vstd::arithmetic::div_mod::lemma_fundamental_div_mod(den, num);
    let q = den / num;
    let r = den % num;
    assert(num * q == q * num) by (nonlinear_arith);
    if r == 0 {
        vstd::arithmetic::div_mod::lemma_fundamental_div_mod_converse(
            den + num - 1,
            num,
            q,
            num - 1,
        );
    } else {
        assert((q + 1) * num == q * num + num) by (nonlinear_arith);
        assert(num * (q + 1) == (q + 1) * num) by (nonlinear_arith);
        vstd::arithmetic::div_mod::lemma_fundamental_div_mod_converse(
            den + num - 1,
            num,
            q + 1,
            r - 1,
        );
        assert(q < den) by (nonlinear_arith)
            requires
                den == num * q + r,
                0 < r < num,
                0 <= q,
        ;
    }
    assert(0 <= q <= den) by (nonlinear_arith)
        requires
            den == num * q + r,
            0 <= r < num,
            0 <= den,
            q == den / num,
    ;
}

fn is_h264(tag: &[u8]) -> (yes: bool)
    ensures
        yes == tags_h264().contains(tag@),
{
    let yes = is_tag(tag, [72, 50, 54, 52]) || is_tag(tag, [104, 50, 54, 52]) || is_tag(
        tag,
        [97, 118, 99, 49],
    ) || is_tag(tag, [65, 86, 67, 49]);
    proof {
        let tags = tags_h264();
        assert(tags[0] =~= [72u8, 50, 54, 52]@);
        assert(tags[1] =~= [104u8, 50, 54, 52]@);
        assert(tags[2] =~= [97u8, 118, 99, 49]@);
        assert(tags[3] =~= [65u8, 86, 67, 49]@);
    }
    yes
}

fn is_hevc(tag: &[u8]) -> (yes: bool)
    ensures
        yes == tags_hevc().contains(tag@),
{
    let yes = is_tag(tag, [72, 69, 86, 67]) || is_tag(tag, [104, 101, 118, 99]) || is_tag(
        tag,
        [104, 101, 118, 49],
    ) || is_tag(tag, [104, 118, 99, 49]);
    proof {
        let tags = tags_hevc();
        assert(tags[0] =~= [72u8, 69, 86, 67]@);
        assert(tags[1] =~= [104u8, 101, 118, 99]@);
        assert(tags[2] =~= [104u8, 101, 118, 49]@);
        assert(tags[3] =~= [104u8, 118, 99, 49]@);
    }
    yes
}

fn is_av1(tag: &[u8]) -> (yes: bool)
    ensures
        yes == tags_av1().contains(tag@),
{
    let yes = is_tag(tag, [65, 86, 48, 49]) || is_tag(tag, [97, 118, 48, 49]);
    proof {
        let tags = tags_av1();
        assert(tags[0] =~= [65u8, 86, 48, 49]@);
        assert(tags[1] =~= [97u8, 118, 48, 49]@);
    }
    yes
}

fn is_aac(tag: &[u8]) -> (yes: bool)
    ensures
        yes == tags_aac().contains(tag@),
{
    let yes = is_tag(tag, [255, 0, 0, 0]) || is_tag(tag, [109, 112, 52, 97]) || is_tag(
        tag,
        [77, 80, 52, 65],
    );
    proof {
        let tags = tags_aac();
        assert(tags[0] =~= [255u8, 0, 0, 0]@);
        assert(tags[1] =~= [109u8, 112, 52, 97]@);
        assert(tags[2] =~= [77u8, 80, 52, 65]@);
    }
    yes
}

/// The codec tag ffmpeg gives `pix_fmt` in NUT.
pub fn fourcc_for_pix_fmt(pix_fmt: &str) -> (tag: Option<&'static [u8; 4]>)
    ensures
        tag_view(tag) == pix_fmt_tag(pix_fmt@),
{
    if same_text(pix_fmt, "rgba") {
        assert([82u8, 71, 66, 65]@ =~= tag_rgba());
        Some(&[82, 71, 66, 65])
    } else if same_text(pix_fmt, "yuv420p") {
        assert([73u8, 52, 50, 48]@ =~= tag_i420());
        Some(&[73, 52, 50, 48])
    } else {
        None
    }
}

/// The codec tag ffmpeg gives the pcm codec of `sample_fmt` in NUT.
pub fn fourcc_for_sample_fmt(sample_fmt: &str) -> (tag: Option<&'static [u8; 4]>)
    ensures
        tag_view(tag) == sample_fmt_tag(sample_fmt@),
{
    if same_text(sample_fmt, "f32") {
        assert([80u8, 70, 68, 32]@ =~= tag_f32());
        Some(&[80, 70, 68, 32])
    } else if same_text(sample_fmt, "s16") {
        assert([80u8, 83, 68, 16]@ =~= tag_s16());
        Some(&[80, 83, 68, 16])
    } else {
        None
    }
}

/// The codec tag ffmpeg gives `codec` in NUT, from the table for `kind`
/// (`"video"` or `"audio"`) - the muxer's own tag, the first of the aliases
/// a demuxer also accepts. None for a codec this wire does not carry, or a
/// `kind` that names neither.
pub fn fourcc_for_coded(kind: &str, codec: &str) -> (tag: Option<&'static [u8; 4]>)
    ensures
        tag_view(tag) == match coded_tags(kind@, codec@) {
            Some(tags) => Some(tags[0]),
            None => None,
        },
{
    if same_text(kind, "video") {
        if same_text(codec, "h264") {
            assert([72u8, 50, 54, 52]@ =~= tags_h264()[0]);
            Some(&[72, 50, 54, 52])
        } else if same_text(codec, "hevc") {
            assert([72u8, 69, 86, 67]@ =~= tags_hevc()[0]);
            Some(&[72, 69, 86, 67])
        } else if same_text(codec, "av1") {
            assert([65u8, 86, 48, 49]@ =~= tags_av1()[0]);
            Some(&[65, 86, 48, 49])
        } else {
            None
        }
    } else if same_text(kind, "audio") && same_text(codec, "aac") {
        assert([255u8, 0, 0, 0]@ =~= tags_aac()[0]);
        Some(&[255, 0, 0, 0])
    } else {
        None
    }
}

/// The pixel formats this wire carries, most common first.
pub fn supported_pix_fmts() -> (names: Vec<&'static str>)
    ensures
        names@.len() == 2,
        names@[0]@ == "rgba"@,
        names@[1]@ == "yuv420p"@,
{
    vec!["rgba", "yuv420p"]
}

/// The sample formats this wire carries, most common first.
pub fn supported_sample_fmts() -> (names: Vec<&'static str>)
    ensures
        names@.len() == 2,
        names@[0]@ == "f32"@,
        names@[1]@ == "s16"@,
{
    vec!["f32", "s16"]
}

/// A codec's name with the tags it goes by.
pub open spec fn named_tags(entry: (&'static str, Vec<[u8; 4]>)) -> (Seq<char>, Seq<Seq<u8>>) {
    (entry.0@, entry.1@.map_values(|tag: [u8; 4]| tag@))
}

/// The coded video streams this wire carries, and the tags ffmpeg gives each
/// in NUT: its muxer writes the first, and a demuxer accepts the aliases too.
/// Payloads stay opaque: a packet is handed through exactly as it arrived.
pub fn coded_video_fourccs() -> (table: Vec<(&'static str, Vec<[u8; 4]>)>)
    ensures
        table@.len() == 3,
        named_tags(table@[0]) == ("h264"@, tags_h264()),
        named_tags(table@[1]) == ("hevc"@, tags_hevc()),
        named_tags(table@[2]) == ("av1"@, tags_av1()),
{
    let h264: Vec<[u8; 4]> = vec![
        [72, 50, 54, 52],
        [104, 50, 54, 52],
        [97, 118, 99, 49],
        [65, 86, 67, 49],
    ];
    let hevc: Vec<[u8; 4]> = vec![
        [72, 69, 86, 67],
        [104, 101, 118, 99],
        [104, 101, 118, 49],
        [104, 118, 99, 49],
    ];
    let av1: Vec<[u8; 4]> = vec![[65, 86, 48, 49], [97, 118, 48, 49]];
    assert(h264@.map_values(|tag: [u8; 4]| tag@) =~~= tags_h264());
    assert(hevc@.map_values(|tag: [u8; 4]| tag@) =~~= tags_hevc());
    assert(av1@.map_values(|tag: [u8; 4]| tag@) =~~= tags_av1());
    vec![("h264", h264), ("hevc", hevc), ("av1", av1)]
}

/// The coded audio streams this wire carries, and the tags ffmpeg gives each
/// in NUT, its muxer's own first.
pub fn coded_audio_fourccs() -> (table: Vec<(&'static str, Vec<[u8; 4]>)>)
    ensures
        table@.len() == 1,
        named_tags(table@[0]) == ("aac"@, tags_aac()),
{
    let aac: Vec<[u8; 4]> = vec![[255, 0, 0, 0], [109, 112, 52, 97], [77, 80, 52, 65]];
    assert(aac@.map_values(|tag: [u8; 4]| tag@) =~~= tags_aac());
    vec![("aac", aac)]
}

} // verus!
