//! Stream headers and syncpoints as any writer may put them on the wire, and
//! what they read back as.

use vstd::prelude::*;

use crate::bytes::{
    holds_at, lemma_holds_split, lemma_holds_whole, lemma_v_round_trip, lemma_vb_round_trip, spec_v,
    spec_vb, v_bytes, vb_bytes,
};
use crate::clock::{
    fits, lemma_rescaled_is_the_only_one, lemma_rescaled_is_the_same_moment, rescaled,
};
use crate::error::{ErrorV, Halt, Part, Problem};
use crate::event::EventV;
use crate::headers::{
    audio_fields, lemma_stream_fields, media_fields, stream_fields, syncpoint_fields, video_fields,
};
use crate::info::{info_fields, with_tags};
use crate::known::KnownV;
use crate::stream::{
    coded_tags, lemma_codec_by_tag, printable_chars, pix_fmt_tag, sample_fmt_tag, tag_f32, tag_i420,
    tag_rgba, tag_s16, tags_aac, tags_av1, tags_h264, tags_hevc, ticks_per_second, Media, StreamV,
    TimeBase,
};
use crate::tables::{body_v, main_fields};
use crate::{INFO_STARTCODE, MAIN_STARTCODE, STREAM_STARTCODE, SYNCPOINT_STARTCODE};

verus! {

// Stream headers.

/// The class a stream header states for what it carries.
pub open spec fn told_class(media: Media) -> u64 {
    match media {
        Media::Video { .. } => 0,
        Media::Audio { .. } => 1,
        Media::Other { class } => class,
    }
}

/// The fields a stream header ends with. A sample rate is a ratio, stated over
/// any denominator.
pub open spec fn media_form(media: Media, den: u64) -> Seq<u8> {
    match media {
        Media::Video { width, height, sample_width, sample_height, colorspace_type } => v_bytes(
            width as nat,
        ) + v_bytes(height as nat) + v_bytes(sample_width as nat) + v_bytes(sample_height as nat)
            + v_bytes(colorspace_type as nat),
        Media::Audio { sample_rate, channels } => v_bytes((sample_rate * den) as nat) + v_bytes(
            den as nat,
        ) + v_bytes(channels as nat),
        Media::Other { .. } => Seq::empty(),
    }
}

/// A stream header, its time base named by where it stands among those the
/// main header declared.
pub open spec fn stream_form(
    id: u64,
    stream: StreamV,
    time_base: u64,
    flags: u64,
    den: u64,
    more: Seq<u8>,
) -> Seq<u8> {
    v_bytes(id as nat) + v_bytes(told_class(stream.media) as nat) + vb_bytes(stream.fourcc)
        + v_bytes(time_base as nat) + v_bytes(stream.msb_pts_shift as nat) + v_bytes(
        stream.max_pts_distance as nat,
    ) + v_bytes(stream.decode_delay as nat) + v_bytes(flags as nat) + vb_bytes(stream.extradata)
        + media_form(stream.media, den) + more
}

/// Whether what a stream carries is stated in full.
pub open spec fn media_ok(media: Media, den: u64) -> bool {
    match media {
        Media::Video { width, height, .. } => width > 0 && height > 0,
        Media::Audio { sample_rate, channels } => {
            &&& sample_rate > 0
            &&& channels > 0
            &&& den > 0
            &&& sample_rate * den <= u64::MAX
        },
        Media::Other { class } => class != 0 && class != 1,
    }
}

/// A whole rate is what a ratio over any denominator comes to.
proof fn lemma_audio_form(bytes: Seq<u8>, at: int, sample_rate: u32, channels: u32, den: u64)
    requires
        media_ok(Media::Audio { sample_rate, channels }, den),
        holds_at(bytes, at, media_form(Media::Audio { sample_rate, channels }, den)),
    ensures
        audio_fields(bytes, at, 0) matches Ok((media, _)) && media == (Media::Audio {
            sample_rate,
            channels,
        }),
{
    let num = (sample_rate * den) as u64;
    let p1 = v_bytes(num as nat);
    let p2 = p1 + v_bytes(den as nat);
    assert(sample_rate * den > 0) by (nonlinear_arith)
        requires
            sample_rate > 0,
            den > 0,
    ;
    lemma_holds_split(bytes, at, p2, v_bytes(channels as nat));
    lemma_holds_split(bytes, at, p1, v_bytes(den as nat));
    lemma_v_round_trip(bytes, at, 0, num);
    lemma_v_round_trip(bytes, at + p1.len(), 0, den);
    lemma_v_round_trip(bytes, at + p2.len(), 0, channels as u64);
    vstd::arithmetic::div_mod::lemma_div_multiples_vanish(sample_rate as int, den as int);
    vstd::arithmetic::div_mod::lemma_mod_multiples_basic(sample_rate as int, den as int);
    assert(den * sample_rate == sample_rate * den) by (nonlinear_arith);
    assert(num / den == sample_rate);
    assert(num % den == 0);
}

proof fn lemma_video_form(bytes: Seq<u8>, at: int, media: Media, den: u64)
    requires
        media is Video,
        media_ok(media, den),
        holds_at(bytes, at, media_form(media, den)),
    ensures
        video_fields(bytes, at, 0) matches Ok((got, _)) && got == media,
{
    if let Media::Video { width, height, sample_width, sample_height, colorspace_type } = media {
        let p1 = v_bytes(width as nat);
        let p2 = p1 + v_bytes(height as nat);
        let p3 = p2 + v_bytes(sample_width as nat);
        let p4 = p3 + v_bytes(sample_height as nat);
        lemma_holds_split(bytes, at, p4, v_bytes(colorspace_type as nat));
        lemma_holds_split(bytes, at, p3, v_bytes(sample_height as nat));
        lemma_holds_split(bytes, at, p2, v_bytes(sample_width as nat));
        lemma_holds_split(bytes, at, p1, v_bytes(height as nat));
        lemma_v_round_trip(bytes, at, 0, width as u64);
        lemma_v_round_trip(bytes, at + p1.len(), 0, height as u64);
        lemma_v_round_trip(bytes, at + p2.len(), 0, sample_width);
        lemma_v_round_trip(bytes, at + p3.len(), 0, sample_height);
        lemma_v_round_trip(bytes, at + p4.len(), 0, colorspace_type);
    }
}

/// A stream header, whoever wrote it, says what it was written from: which
/// stream it is for and the stream, in the time base it names of those the
/// main header declared. Its flags, and what is behind its last field, are
/// not looked at.
pub proof fn lemma_stream_form_reads(
    id: u64,
    stream: StreamV,
    time_bases: Seq<TimeBase>,
    time_base: u64,
    flags: u64,
    den: u64,
    more: Seq<u8>,
    count: nat,
)
    requires
        id < count <= usize::MAX,
        time_base < time_bases.len(),
        time_bases[time_base as int] == stream.time_base,
        stream.fourcc.len() <= 1048576,
        stream.extradata.len() <= 1048576,
        stream.msb_pts_shift < 63,
        stream.decode_delay <= 16,
        stream.decode_delay != 0 ==> stream.codec_name() is Some,
        media_ok(stream.media, den),
    ensures
        stream_fields(stream_form(id, stream, time_base, flags, den, more), time_bases, count)
            == Ok::<(usize, StreamV), ErrorV>(
            (id as usize, StreamV { frame_rate: None, ..stream }),
        ),
{
    let body = stream_form(id, stream, time_base, flags, den, more);
    let class = told_class(stream.media);
    let p1 = v_bytes(id as nat);
    let p2 = p1 + v_bytes(class as nat);
    let p3 = p2 + vb_bytes(stream.fourcc);
    let p4 = p3 + v_bytes(time_base as nat);
    let p5 = p4 + v_bytes(stream.msb_pts_shift as nat);
    let p6 = p5 + v_bytes(stream.max_pts_distance as nat);
    let p7 = p6 + v_bytes(stream.decode_delay as nat);
    let p8 = p7 + v_bytes(flags as nat);
    let p9 = p8 + vb_bytes(stream.extradata);
    let p10 = p9 + media_form(stream.media, den);
    lemma_holds_whole(body);
    lemma_holds_split(body, 0, p10, more);
    lemma_holds_split(body, 0, p9, media_form(stream.media, den));
    lemma_holds_split(body, 0, p8, vb_bytes(stream.extradata));
    lemma_holds_split(body, 0, p7, v_bytes(flags as nat));
    lemma_holds_split(body, 0, p6, v_bytes(stream.decode_delay as nat));
    lemma_holds_split(body, 0, p5, v_bytes(stream.max_pts_distance as nat));
    lemma_holds_split(body, 0, p4, v_bytes(stream.msb_pts_shift as nat));
    lemma_holds_split(body, 0, p3, v_bytes(time_base as nat));
    lemma_holds_split(body, 0, p2, vb_bytes(stream.fourcc));
    lemma_holds_split(body, 0, p1, v_bytes(class as nat));
    lemma_v_round_trip(body, 0, 0, id);
    lemma_v_round_trip(body, p1.len() as int, 0, class);
    lemma_vb_round_trip(body, p2.len() as int, 0, Part::CodecTag, stream.fourcc);
    lemma_v_round_trip(body, p3.len() as int, 0, time_base);
    lemma_v_round_trip(body, p4.len() as int, 0, stream.msb_pts_shift as u64);
    lemma_v_round_trip(body, p5.len() as int, 0, stream.max_pts_distance);
    lemma_v_round_trip(body, p6.len() as int, 0, stream.decode_delay);
    lemma_v_round_trip(body, p7.len() as int, 0, flags);
    lemma_vb_round_trip(body, p8.len() as int, 0, Part::CodecData, stream.extradata);
    assert(media_fields(class, body, p9.len() as int, 0) matches Ok((media, _)) && media
        == stream.media) by {
        match stream.media {
            Media::Video { .. } => {
                lemma_video_form(body, p9.len() as int, stream.media, den);
            },
            Media::Audio { sample_rate, channels } => {
                lemma_audio_form(body, p9.len() as int, sample_rate, channels, den);
            },
            Media::Other { .. } => {},
        }
    }
    lemma_codec_by_tag(StreamV { frame_rate: None, ..stream }, stream);
}

// Syncpoints.

/// A syncpoint that says the stream is at `ticks` of the time base at
/// `index`: the two in one signed number, as its writer casts it to an
/// unsigned one.
pub open spec fn place_form(ticks: int, index: int, count: int) -> u64 {
    let signed = ticks * count + index;
    if signed < 0 {
        (signed + 0x1_0000_0000_0000_0000) as u64
    } else {
        signed as u64
    }
}

/// A syncpoint, whoever wrote it, says where the stream is, before zero or
/// past it, in whichever of the declared time bases it was written in.
pub proof fn lemma_syncpoint_form_reads(
    ticks: int,
    index: int,
    time_bases: Seq<TimeBase>,
    back: u64,
    more: Seq<u8>,
)
    requires
        0 <= index < time_bases.len(),
        fits(ticks * time_bases.len() + index),
    ensures
        syncpoint_fields(
            v_bytes(place_form(ticks, index, time_bases.len() as int) as nat) + v_bytes(back as nat)
                + more,
            time_bases,
        ) == Ok::<(int, TimeBase), Halt>((ticks, time_bases[index])),
{
    let count = time_bases.len() as int;
    let coded = place_form(ticks, index, count);
    let p1 = v_bytes(coded as nat);
    let p2 = p1 + v_bytes(back as nat);
    let body = p2 + more;
    lemma_holds_whole(body);
    lemma_holds_split(body, 0, p2, more);
    lemma_holds_split(body, 0, p1, v_bytes(back as nat));
    lemma_v_round_trip(body, 0, 0, coded);
    lemma_v_round_trip(body, p1.len() as int, 0, back);
    let signed = ticks * count + index;
    vstd::arithmetic::div_mod::lemma_fundamental_div_mod_converse(signed, count, ticks, index);
}

/// Whether `r` ticks of one time base are the same moment as some of another,
/// to within one tick and no further from zero.
pub open spec fn same_moment(ticks: int, from: TimeBase, r: int, to: TimeBase) -> bool {
    let moment = ticks * (from.num * to.den);
    let tick = to.num * from.den;
    if ticks >= 0 {
        r * tick <= moment < (r + 1) * tick
    } else {
        (r - 1) * tick < moment <= r * tick
    }
}

/// A syncpoint that is read sets the clock of every stream whose header is
/// there to that moment in the stream's own time base, and changes nothing
/// else: no reorder buffer, no stream, no metadata.
pub proof fn lemma_syncpoint_sets_clocks(known: KnownV, body: Seq<u8>, max_streams: usize)
    requires
        known.wf(),
        known.main is Some,
    ensures
        syncpoint_fields(body, known.main->Some_0.time_bases) matches Ok((ticks, base)) ==> (
        known.after_packet(SYNCPOINT_STARTCODE, body, max_streams) matches Ok((after, event)) ==> {
            &&& event == Some(EventV::Syncpoint)
            &&& after == KnownV { clocks: after.clocks, ..known }
            &&& after.clocks.len() == known.clocks.len()
            &&& forall|i: int|
                0 <= i < known.clocks.len() ==> (#[trigger] after.clocks[i]).pts_buffer
                    == known.clocks[i].pts_buffer && match known.streams[i] {
                    Some(stream) => same_moment(
                        ticks,
                        base,
                        after.clocks[i].last_pts as int,
                        stream.time_base,
                    ),
                    None => after.clocks[i].last_pts == known.clocks[i].last_pts,
                }
        }),
{
    let tables = known.main->Some_0;
    if let Ok((ticks, base)) = syncpoint_fields(body, tables.time_bases) {
        let coded = body_v(body, 0).0->Ok_0;
        let count = tables.time_bases.len() as int;
        let index = crate::clock::as_signed(coded) % count;
        assert(0 <= index < count);
        assert(tables.time_bases[index].den > 0);
        if let Ok((after, _)) = known.after_packet(SYNCPOINT_STARTCODE, body, max_streams) {
            assert forall|i: int| 0 <= i < known.clocks.len() implies (
            #[trigger] after.clocks[i]).pts_buffer == known.clocks[i].pts_buffer
                && match known.streams[i] {
                Some(stream) => same_moment(
                    ticks,
                    base,
                    after.clocks[i].last_pts as int,
                    stream.time_base,
                ),
                None => after.clocks[i].last_pts == known.clocks[i].last_pts,
            } by {
                if let Some(stream) = known.streams[i] {
                    assert(stream.wf());
                    assert(!known.out_of_range(ticks, base));
                    assert(fits(rescaled(ticks, base, stream.time_base)));
                    lemma_rescaled_is_the_same_moment(ticks, base, stream.time_base);
                }
            }
        }
    }
}

/// A syncpoint that is read is refused only where some stream has no number of
/// ticks for that moment that fits.
pub proof fn lemma_syncpoint_refused(
    known: KnownV,
    body: Seq<u8>,
    max_streams: usize,
    places: Seq<i64>,
)
    requires
        known.wf(),
        known.main is Some,
        syncpoint_fields(body, known.main->Some_0.time_bases) is Ok,
        places.len() == known.streams.len(),
        ({
            let (ticks, base) = syncpoint_fields(body, known.main->Some_0.time_bases)->Ok_0;
            forall|i: int|
                0 <= i < known.streams.len() ==> match known.streams[i] {
                    Some(stream) => same_moment(
                        ticks,
                        base,
                        #[trigger] places[i] as int,
                        stream.time_base,
                    ),
                    None => true,
                }
        }),
    ensures
        known.after_packet(SYNCPOINT_STARTCODE, body, max_streams) matches Ok((after, _)) && forall|
            i: int,
        |
            0 <= i < known.streams.len() && known.streams[i] is Some ==> (
            #[trigger] after.clocks[i]).last_pts == places[i],
{
    let tables = known.main->Some_0;
    let (ticks, base) = syncpoint_fields(body, tables.time_bases)->Ok_0;
    let count = tables.time_bases.len() as int;
    let index = crate::clock::as_signed(body_v(body, 0).0->Ok_0) % count;
    assert(0 <= index < count);
    assert(tables.time_bases[index].den > 0);
    assert forall|i: int| 0 <= i < known.streams.len() implies (
    #[trigger] known.streams[i] matches Some(stream) ==> rescaled(ticks, base, stream.time_base)
        == places[i]) by {
        if let Some(stream) = known.streams[i] {
            assert(stream.wf());
            assert(same_moment(ticks, base, places[i] as int, stream.time_base));
            lemma_rescaled_is_the_only_one(ticks, base, stream.time_base, places[i] as int);
        }
    }
    assert(!known.out_of_range(ticks, base));
    let after = known.at_syncpoint(ticks, base);
    assert forall|i: int| 0 <= i < known.streams.len() && known.streams[i] is Some implies (
    #[trigger] after.clocks[i]).last_pts == places[i] by {
        assert(known.streams[i] is Some);
    }
}

// What headers leave known.

/// A main header that declares another number of streams than are known starts
/// the header section again: no stream has its header, every clock is at zero
/// with nothing landed in it, and only the metadata of the file is kept.
pub proof fn lemma_new_main(known: KnownV, body: Seq<u8>, max_streams: usize)
    requires
        known.wf(),
        main_fields(body, max_streams) matches Ok((header, _)) && header.stream_count
            != known.streams.len(),
    ensures
        known.after_packet(MAIN_STARTCODE, body, max_streams) matches Ok((after, event)) && {
            let (header, tables) = main_fields(body, max_streams)->Ok_0;
            &&& event == Some(EventV::MainHeader(header))
            &&& after.main == Some(tables)
            &&& !after.headers_done
            &&& after.streams.len() == header.stream_count
            &&& after.clocks.len() == header.stream_count
            &&& after.stream_tags.len() == header.stream_count
            &&& forall|i: int|
                0 <= i < header.stream_count ==> #[trigger] after.streams[i] is None
                    && after.clocks[i].last_pts == 0 && after.clocks[i].pts_buffer == seq![
                    None::<i64>,
                ] && after.stream_tags[i].len() == 0
            &&& after.file_tags == known.file_tags
        },
{
    let after = known.after_packet(MAIN_STARTCODE, body, max_streams)->Ok_0.0;
    assert forall|i: int| 0 <= i < after.streams.len() implies #[trigger] after.streams[i] is None
        && after.clocks[i].last_pts == 0 && after.clocks[i].pts_buffer == seq![None::<i64>]
        && after.stream_tags[i].len() == 0 by {
        assert(after.clocks[i].pts_buffer =~= seq![None::<i64>]);
    }
}

/// A stream header that is read describes that stream and no other: every
/// other stream and clock stays, and so do the clock's PTS and all metadata.
/// The reorder buffer is as deep as the header says, and is the one there was
/// where that was as deep.
pub proof fn lemma_new_stream(known: KnownV, body: Seq<u8>, max_streams: usize)
    requires
        known.wf(),
        known.main is Some,
        stream_fields(body, known.main->Some_0.time_bases, known.streams.len()) is Ok,
    ensures
        known.after_packet(STREAM_STARTCODE, body, max_streams) matches Ok((after, event)) && {
            let (index, stream) = stream_fields(
                body,
                known.main->Some_0.time_bases,
                known.streams.len(),
            )->Ok_0;
            let depth = (stream.decode_delay + 1) as nat;
            let clock = after.clocks[index as int];
            let before = known.clocks[index as int];
            &&& event == Some(EventV::StreamHeader { index, stream })
            &&& index < known.streams.len()
            &&& after.streams == known.streams.update(index as int, Some(stream))
            &&& after.clocks.len() == known.clocks.len()
            &&& forall|i: int|
                0 <= i < known.clocks.len() && i != index ==> #[trigger] after.clocks[i]
                    == known.clocks[i]
            &&& clock.last_pts == before.last_pts
            &&& clock.pts_buffer.len() == depth
            &&& before.pts_buffer.len() == depth ==> clock.pts_buffer == before.pts_buffer
            &&& before.pts_buffer.len() != depth ==> forall|i: int|
                0 <= i < depth ==> #[trigger] clock.pts_buffer[i] is None
            &&& after.main == known.main
            &&& after.headers_done == known.headers_done
            &&& after.file_tags == known.file_tags
            &&& after.stream_tags == known.stream_tags
        },
{
    lemma_stream_fields(body, known.main->Some_0, known.streams.len());
}

/// An info packet that is read puts the frame rate it states on the stream it
/// names, or on every stream where it names none, and puts its metadata with
/// that stream's or the file's; it changes nothing else of any stream.
pub proof fn lemma_info_goes_to(known: KnownV, body: Seq<u8>, max_streams: usize)
    requires
        known.wf(),
        info_fields(body) is Some,
    ensures
        known.after_packet(INFO_STARTCODE, body, max_streams) matches Ok((after, event)) && {
            let (info, tags) = info_fields(body)->Some_0;
            &&& event == Some(EventV::Info(info))
            &&& after.main == known.main
            &&& after.clocks == known.clocks
            &&& after.headers_done == known.headers_done
            &&& after.streams.len() == known.streams.len()
            &&& after.stream_tags.len() == known.stream_tags.len()
            &&& forall|i: int|
                0 <= i < known.streams.len() ==> {
                    let named = info.stream is None || info.stream == Some(i as usize);
                    &&& known.streams[i] is None ==> #[trigger] after.streams[i] is None
                    &&& known.streams[i] matches Some(stream) ==> after.streams[i] == Some(
                        StreamV {
                            frame_rate: if named && info.frame_rate is Some {
                                info.frame_rate
                            } else {
                                stream.frame_rate
                            },
                            ..stream
                        },
                    )
                }
            &&& forall|i: int|
                0 <= i < known.stream_tags.len() ==> #[trigger] after.stream_tags[i] == if info.stream
                    == Some(i as usize) {
                    with_tags(known.stream_tags[i], tags)
                } else {
                    known.stream_tags[i]
                }
            &&& after.file_tags == if info.stream is None {
                with_tags(known.file_tags, tags)
            } else {
                known.file_tags
            }
        },
{
    let (info, tags) = info_fields(body)->Some_0;
    let after = known.informed(info, tags);
    assert forall|i: int| 0 <= i < known.stream_tags.len() implies #[trigger] after.stream_tags[i]
        == if info.stream == Some(i as usize) {
        with_tags(known.stream_tags[i], tags)
    } else {
        known.stream_tags[i]
    } by {
    }
}

// Streams made from nothing but geometry.

/// The ticks that make a second cover it, and one tick fewer does not.
pub proof fn lemma_ticks_cover_a_second(time_base: TimeBase)
    ensures
        ({
            let ticks = ticks_per_second(time_base);
            &&& time_base.num > 0 ==> (ticks - 1) * time_base.num < time_base.den <= ticks
                * time_base.num
            &&& time_base.num == 0 ==> ticks == time_base.den
        }),
{
    let num = if time_base.num == 0 {
        1
    } else {
        time_base.num as int
    };
    let over = time_base.den + num - 1;
    let q = over / num;
    let r = over % num;
    vstd::arithmetic::div_mod::lemma_fundamental_div_mod(over, num);
    assert((q - 1) * num < time_base.den <= q * num) by (nonlinear_arith)
        requires
            over == num * q + r,
            over == time_base.den + num - 1,
            0 <= r < num,
    ;
    assert(0 <= q <= time_base.den) by (nonlinear_arith)
        requires
            (q - 1) * num < time_base.den <= q * num,
            num >= 1,
            time_base.den >= 0,
    ;
}

/// A format has the tag by which a stream of that tag has the format, and no
/// stream of a raw format is taken for a coded one.
pub proof fn lemma_format_tags(name: Seq<char>, stream: StreamV)
    ensures
        stream.media is Video ==> (stream.pix_fmt() == Some(name) <==> pix_fmt_tag(name) == Some(
            stream.fourcc,
        )),
        stream.media is Audio ==> (stream.sample_fmt() == Some(name) <==> sample_fmt_tag(name)
            == Some(stream.fourcc)),
        !(stream.media is Video) ==> stream.pix_fmt() is None,
        !(stream.media is Audio) ==> stream.sample_fmt() is None,
        stream.pix_fmt() is Some || stream.sample_fmt() is Some ==> stream.codec_name() is None,
{
    reveal(StreamV::codec_name);
    reveal_strlit("rgba");
    reveal_strlit("yuv420p");
    reveal_strlit("f32");
    reveal_strlit("s16");
    assert(tag_rgba()[0] == 82 && tag_rgba()[1] == 71 && tag_i420()[0] == 73 && tag_i420()[1] == 52);
    assert(tag_f32()[0] == 80 && tag_f32()[1] == 70 && tag_s16()[0] == 80 && tag_s16()[1] == 83);
    assert("rgba"@.len() == 4 && "yuv420p"@.len() == 7);
    assert("f32"@[0] == 'f' && "s16"@[0] == 's');
    if stream.pix_fmt() is Some || stream.sample_fmt() is Some {
        let tag = stream.fourcc;
        assert forall|i: int| 0 <= i < tags_h264().len() implies #[trigger] tags_h264()[i] != tag by {
            assert(tags_h264()[i][0] != tag[0] || tags_h264()[i][1] != tag[1]);
        }
        assert forall|i: int| 0 <= i < tags_hevc().len() implies #[trigger] tags_hevc()[i] != tag by {
            assert(tags_hevc()[i][0] != tag[0] || tags_hevc()[i][1] != tag[1]);
        }
        assert forall|i: int| 0 <= i < tags_av1().len() implies #[trigger] tags_av1()[i] != tag by {
            assert(tags_av1()[i][0] != tag[0] || tags_av1()[i][1] != tag[1]);
        }
        assert forall|i: int| 0 <= i < tags_aac().len() implies #[trigger] tags_aac()[i] != tag by {
            assert(tags_aac()[i][0] != tag[0] || tags_aac()[i][1] != tag[1]);
        }
    }
}

/// A codec has, among the tags of its kind of stream, those by which a stream
/// of that kind has the codec.
pub proof fn lemma_codec_tags(stream: StreamV, codec: Seq<char>)
    requires
        stream.media is Video || stream.media is Audio,
        coded_tags(stream.kind(), codec) matches Some(tags) && tags.contains(stream.fourcc),
    ensures
        stream.codec_name() == Some(codec),
{
    reveal(StreamV::codec_name);
    reveal_strlit("video");
    reveal_strlit("audio");
    assert("video"@[0] == 'v' && "audio"@[0] == 'a');
    let tag = stream.fourcc;
    if stream.media is Video {
        let tags = coded_tags(stream.kind(), codec)->Some_0;
        let k = choose|k: int| 0 <= k < tags.len() && tags[k] == tag;
        assert(tag == tags[k]);
        if codec != "h264"@ {
            assert forall|i: int| 0 <= i < tags_h264().len() implies #[trigger] tags_h264()[i]
                != tag by {
                assert(tags_h264()[i][0] != tag[0] || tags_h264()[i][2] != tag[2]);
            }
            if codec != "hevc"@ {
                assert forall|i: int| 0 <= i < tags_hevc().len() implies #[trigger] tags_hevc()[i]
                    != tag by {
                    assert(tags_hevc()[i][0] != tag[0] || tags_hevc()[i][1] != tag[1]);
                }
            }
        }
    }
}

// What every stream header that is read has said.

/// A stream header that is read, whoever wrote it: its pictures have a size,
/// its sound has a rate and channels, and what is neither has a class of its
/// own; and it keeps to the bounds a reader holds it to.
pub proof fn lemma_read_stream(body: Seq<u8>, time_bases: Seq<TimeBase>, count: nat)
    requires
        count <= usize::MAX,
    ensures
        stream_fields(body, time_bases, count) matches Ok((index, stream)) ==> {
            &&& index < count
            &&& time_bases.contains(stream.time_base)
            &&& stream.msb_pts_shift < 63
            &&& stream.decode_delay <= 16
            &&& stream.frame_rate is None
            &&& stream.decode_delay > 0 ==> stream.codec_name() is Some
            &&& media_ok(stream.media, 1)
        },
{
    if let Ok((index, stream)) = stream_fields(body, time_bases, count) {
        let id = body_v(body, 0);
        let class = body_v(body, id.1);
        let fourcc = spec_vb(body, class.1, 0, Part::CodecTag);
        let base = body_v(body, fourcc.1);
        assert(time_bases[base.0->Ok_0 as int] == stream.time_base);
        let shift = body_v(body, base.1);
        let distance = body_v(body, shift.1);
        let delay = body_v(body, distance.1);
        let flags = body_v(body, delay.1);
        let extradata = spec_vb(body, flags.1, 0, Part::CodecData);
        lemma_read_audio(body, extradata.1);
    }
}

proof fn lemma_read_audio(body: Seq<u8>, at: int)
    ensures
        audio_fields(body, at, 0) matches Ok((media, _)) ==> media is Audio && media_ok(media, 1),
{
    let num = spec_v(body, at, 0);
    let den = spec_v(body, num.1, 0);
    if audio_fields(body, at, 0) is Ok {
        let n = num.0->Ok_0;
        let d = den.0->Ok_0;
        vstd::arithmetic::div_mod::lemma_fundamental_div_mod(n as int, d as int);
        assert(n / d > 0) by {
            if n / d == 0 {
                assert(d * 0 == 0);
            }
        }
    }
}

/// A sample rate that is no whole number is refused.
pub proof fn lemma_fractional_rate(num: u64, den: u64, channels: u64, more: Seq<u8>)
    requires
        den == 0 || num == 0 || num % den != 0,
    ensures
        audio_fields(
            v_bytes(num as nat) + v_bytes(den as nat) + v_bytes(channels as nat) + more,
            0,
            0,
        ) == Err::<(Media, int), Halt>(Halt::Bad(Problem::FractionalRate { num, den })),
{
    let p1 = v_bytes(num as nat);
    let p2 = p1 + v_bytes(den as nat);
    let p3 = p2 + v_bytes(channels as nat);
    let body = p3 + more;
    lemma_holds_whole(body);
    lemma_holds_split(body, 0, p3, more);
    lemma_holds_split(body, 0, p2, v_bytes(channels as nat));
    lemma_holds_split(body, 0, p1, v_bytes(den as nat));
    lemma_v_round_trip(body, 0, 0, num);
    lemma_v_round_trip(body, p1.len() as int, 0, den);
    lemma_v_round_trip(body, p2.len() as int, 0, channels);
}

/// The class a stream is written as is the one its header states, and its name
/// in a message goes by that class.
pub proof fn lemma_class_and_kind(stream: StreamV)
    ensures
        stream.class() == told_class(stream.media),
        told_class(stream.media) == 0 ==> (stream.kind() == "video"@ || stream.media is Other),
        stream.media is Video ==> stream.kind() == "video"@,
        stream.media is Audio ==> stream.kind() == "audio"@,
        stream.media is Other && stream.class() == 2 ==> stream.kind() == "subtitle"@,
        stream.media is Other && stream.class() == 3 ==> stream.kind() == "data"@,
        stream.media is Other && stream.class() != 2 && stream.class() != 3 ==> stream.kind()
            == "unknown"@,
{
}

/// Text in a message is as long as it was, and every character of it is one
/// that prints, its own where that does.
pub proof fn lemma_printable(text: Seq<char>, i: int)
    requires
        0 <= i < text.len(),
    ensures
        printable_chars(text).len() == text.len(),
        ({
            let c = printable_chars(text)[i];
            &&& ' ' as u32 <= c as u32 <= '~' as u32
            &&& c == text[i] || (c == '?' && !(' ' as u32 <= text[i] as u32 <= '~' as u32))
        }),
{
}

// What is wrong with a header.

/// A picture with no size, or one too large to say, is refused.
pub proof fn lemma_video_refused(width: u64, height: u64, more: Seq<u8>)
    ensures
        ({
            let got = video_fields(v_bytes(width as nat) + v_bytes(height as nat) + more, 0, 0);
            if width == 0 || height == 0 {
                got == Err::<(Media, int), Halt>(Halt::Bad(Problem::FrameSize { width, height }))
            } else if width > 0xFFFF_FFFF {
                got == Err::<(Media, int), Halt>(Halt::Bad(Problem::WidthTooLarge { width }))
            } else if height > 0xFFFF_FFFF {
                got == Err::<(Media, int), Halt>(Halt::Bad(Problem::HeightTooLarge { height }))
            } else {
                true
            }
        }),
{
    let p1 = v_bytes(width as nat);
    let p2 = p1 + v_bytes(height as nat);
    let body = p2 + more;
    lemma_holds_whole(body);
    lemma_holds_split(body, 0, p2, more);
    lemma_holds_split(body, 0, p1, v_bytes(height as nat));
    lemma_v_round_trip(body, 0, 0, width);
    lemma_v_round_trip(body, p1.len() as int, 0, height);
}

/// Sound at a rate or with channels too many to say, or with none, is refused.
pub proof fn lemma_audio_refused(rate: u64, den: u64, channels: u64, more: Seq<u8>)
    requires
        rate > 0,
        den > 0,
        rate * den <= u64::MAX,
    ensures
        ({
            let num = (rate * den) as u64;
            let got = audio_fields(
                v_bytes(num as nat) + v_bytes(den as nat) + v_bytes(channels as nat) + more,
                0,
                0,
            );
            if channels == 0 {
                got == Err::<(Media, int), Halt>(Halt::Bad(Problem::NoChannels { channels }))
            } else if rate > 0xFFFF_FFFF {
                got == Err::<(Media, int), Halt>(Halt::Bad(Problem::RateTooLarge { num, den }))
            } else if channels > 0xFFFF_FFFF {
                got == Err::<(Media, int), Halt>(Halt::Bad(Problem::ChannelsTooLarge { channels }))
            } else {
                got matches Ok((media, _)) && media == (Media::Audio {
                    sample_rate: rate as u32,
                    channels: channels as u32,
                })
            }
        }),
{
    let num = (rate * den) as u64;
    assert(rate * den > 0) by (nonlinear_arith)
        requires
            rate > 0,
            den > 0,
    ;
    let p1 = v_bytes(num as nat);
    let p2 = p1 + v_bytes(den as nat);
    let p3 = p2 + v_bytes(channels as nat);
    let body = p3 + more;
    lemma_holds_whole(body);
    lemma_holds_split(body, 0, p3, more);
    lemma_holds_split(body, 0, p2, v_bytes(channels as nat));
    lemma_holds_split(body, 0, p1, v_bytes(den as nat));
    lemma_v_round_trip(body, 0, 0, num);
    lemma_v_round_trip(body, p1.len() as int, 0, den);
    lemma_v_round_trip(body, p2.len() as int, 0, channels);
    vstd::arithmetic::div_mod::lemma_div_multiples_vanish(rate as int, den as int);
    vstd::arithmetic::div_mod::lemma_mod_multiples_basic(rate as int, den as int);
    assert(den * rate == rate * den) by (nonlinear_arith);
    assert(num / den == rate);
    assert(num % den == 0);
}

/// A stream header is refused by the first thing wrong with its numbers: a
/// stream or a time base the main header did not declare, more low bits than a
/// PTS may have, or frames reordered deeper than this wire carries.
pub proof fn lemma_stream_refused(
    id: u64,
    class: u64,
    fourcc: Seq<u8>,
    base: u64,
    shift: u64,
    distance: u64,
    delay: u64,
    more: Seq<u8>,
    time_bases: Seq<TimeBase>,
    count: nat,
)
    requires
        fourcc.len() <= 1048576,
        id >= count || base >= time_bases.len() || shift >= 63 || delay > 16,
    ensures
        stream_fields(
            v_bytes(id as nat) + v_bytes(class as nat) + vb_bytes(fourcc) + v_bytes(base as nat)
                + v_bytes(shift as nat) + v_bytes(distance as nat) + v_bytes(delay as nat) + more,
            time_bases,
            count,
        ) == Err::<(usize, StreamV), ErrorV>(
            ErrorV::of(
                if id >= count {
                    Problem::StreamUndeclared { id }
                } else if base >= time_bases.len() {
                    Problem::TimeBaseUndeclared { id: base }
                } else if shift >= 63 {
                    Problem::PtsShift { bits: shift }
                } else {
                    Problem::DecodeDelay { delay }
                },
            ),
        ),
{
    let p1 = v_bytes(id as nat);
    let p2 = p1 + v_bytes(class as nat);
    let p3 = p2 + vb_bytes(fourcc);
    let p4 = p3 + v_bytes(base as nat);
    let p5 = p4 + v_bytes(shift as nat);
    let p6 = p5 + v_bytes(distance as nat);
    let p7 = p6 + v_bytes(delay as nat);
    let body = p7 + more;
    lemma_holds_whole(body);
    lemma_holds_split(body, 0, p7, more);
    lemma_holds_split(body, 0, p6, v_bytes(delay as nat));
    lemma_holds_split(body, 0, p5, v_bytes(distance as nat));
    lemma_holds_split(body, 0, p4, v_bytes(shift as nat));
    lemma_holds_split(body, 0, p3, v_bytes(base as nat));
    lemma_holds_split(body, 0, p2, vb_bytes(fourcc));
    lemma_holds_split(body, 0, p1, v_bytes(class as nat));
    lemma_v_round_trip(body, 0, 0, id);
    lemma_v_round_trip(body, p1.len() as int, 0, class);
    lemma_vb_round_trip(body, p2.len() as int, 0, Part::CodecTag, fourcc);
    lemma_v_round_trip(body, p3.len() as int, 0, base);
    lemma_v_round_trip(body, p4.len() as int, 0, shift);
    lemma_v_round_trip(body, p5.len() as int, 0, distance);
    lemma_v_round_trip(body, p6.len() as int, 0, delay);
}

/// Ahead of the main header there is no stream header and no syncpoint,
/// whatever they say.
pub proof fn lemma_main_first(known: KnownV, body: Seq<u8>, max_streams: usize)
    requires
        known.main is None,
    ensures
        known.after_packet(STREAM_STARTCODE, body, max_streams) == Err::<
            (KnownV, Option<EventV>),
            ErrorV,
        >(ErrorV::of(Problem::StreamBeforeMain)),
        known.after_packet(SYNCPOINT_STARTCODE, body, max_streams) == Err::<
            (KnownV, Option<EventV>),
            ErrorV,
        >(ErrorV::of(Problem::SyncpointBeforeMain)),
{
}

/// A tag, as the letters it is made of.
pub open spec fn word(letters: Seq<char>) -> Seq<u8> {
    letters.map_values(|c: char| c as u8)
}

/// The tags are ffmpeg's: each is four letters, but for the depth a pcm tag
/// ends with and aac's own, which is a byte and three zeros.
pub proof fn lemma_tag_words()
    ensures
        tag_rgba() == word("RGBA"@),
        tag_i420() == word("I420"@),
        tag_f32() == word("PFD"@).push(32),
        tag_s16() == word("PSD"@).push(16),
        tags_h264() == seq![word("H264"@), word("h264"@), word("avc1"@), word("AVC1"@)],
        tags_hevc() == seq![word("HEVC"@), word("hevc"@), word("hev1"@), word("hvc1"@)],
        tags_av1() == seq![word("AV01"@), word("av01"@)],
        tags_aac() == seq![seq![255u8, 0, 0, 0], word("mp4a"@), word("MP4A"@)],
{
    reveal_strlit("RGBA");
    reveal_strlit("I420");
    reveal_strlit("PFD");
    reveal_strlit("PSD");
    reveal_strlit("H264");
    reveal_strlit("h264");
    reveal_strlit("avc1");
    reveal_strlit("AVC1");
    reveal_strlit("HEVC");
    reveal_strlit("hevc");
    reveal_strlit("hev1");
    reveal_strlit("hvc1");
    reveal_strlit("AV01");
    reveal_strlit("av01");
    reveal_strlit("mp4a");
    reveal_strlit("MP4A");
    assert(tag_rgba() =~= word("RGBA"@));
    assert(tag_i420() =~= word("I420"@));
    assert(tag_f32() =~= word("PFD"@).push(32));
    assert(tag_s16() =~= word("PSD"@).push(16));
    assert(tags_h264() =~~= seq![word("H264"@), word("h264"@), word("avc1"@), word("AVC1"@)]);
    assert(tags_hevc() =~~= seq![word("HEVC"@), word("hevc"@), word("hev1"@), word("hvc1"@)]);
    assert(tags_av1() =~~= seq![word("AV01"@), word("av01"@)]);
    assert(tags_aac() =~~= seq![seq![255u8, 0, 0, 0], word("mp4a"@), word("MP4A"@)]);
}

/// A stream has a codec only by a tag of that codec, of its own kind.
pub proof fn lemma_codec_by_its_tags(stream: StreamV)
    requires
        stream.media is Video || stream.media is Audio,
    ensures
        stream.codec_name() matches Some(codec) ==> coded_tags(stream.kind(), codec) matches Some(
            tags,
        ) && tags.contains(stream.fourcc),
{
    reveal(StreamV::codec_name);
    reveal_strlit("video");
    reveal_strlit("audio");
    reveal_strlit("h264");
    reveal_strlit("hevc");
    reveal_strlit("av1");
    assert("video"@[0] == 'v' && "audio"@[0] == 'a');
    assert("h264"@[1] == '2' && "hevc"@[1] == 'e' && "av1"@[0] == 'a' && "h264"@[0] == 'h'
        && "hevc"@[0] == 'h');
}

} // verus!
