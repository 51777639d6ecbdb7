//! Stream headers and syncpoints: what their bodies say.

use vstd::prelude::*;

use crate::bytes::{spec_v, spec_vb, Cursor};
use crate::clock::as_signed;
use crate::error::{Error, ErrorV, Halt, Parse, Part, Problem};
use crate::stream::{Media, Stream, StreamV, TimeBase};
use crate::tables::{body_v, Tables, TablesV};
use crate::{AUDIO_CLASS, VIDEO_CLASS};

verus! {

/// The deepest frame reordering this crate carries. ffmpeg's own bound.
pub const MAX_DECODE_DELAY: u64 = 16;

/// How many low bits of a PTS a stream may let its frames code is below this.
pub const PTS_SHIFT_LIMIT: u64 = 63;

/// The fields a video stream header ends with.
pub open spec fn video_fields(body: Seq<u8>, at: int, base: int) -> Result<(Media, int), Halt> {
    let width = spec_v(body, at, base);
    let height = spec_v(body, width.1, base);
    let sample_width = spec_v(body, height.1, base);
    let sample_height = spec_v(body, sample_width.1, base);
    let colorspace = spec_v(body, sample_height.1, base);
    if width.0 is Err {
        Err(width.0->Err_0)
    } else if height.0 is Err {
        Err(height.0->Err_0)
    } else if width.0->Ok_0 == 0 || height.0->Ok_0 == 0 {
        Err(Halt::Bad(Problem::FrameSize { width: width.0->Ok_0, height: height.0->Ok_0 }))
    } else if width.0->Ok_0 > u32::MAX {
        Err(Halt::Bad(Problem::WidthTooLarge { width: width.0->Ok_0 }))
    } else if height.0->Ok_0 > u32::MAX {
        Err(Halt::Bad(Problem::HeightTooLarge { height: height.0->Ok_0 }))
    } else if sample_width.0 is Err {
        Err(sample_width.0->Err_0)
    } else if sample_height.0 is Err {
        Err(sample_height.0->Err_0)
    } else if colorspace.0 is Err {
        Err(colorspace.0->Err_0)
    } else {
        Ok(
            (
                Media::Video {
                    width: width.0->Ok_0 as u32,
                    height: height.0->Ok_0 as u32,
                    sample_width: sample_width.0->Ok_0,
                    sample_height: sample_height.0->Ok_0,
                    colorspace_type: colorspace.0->Ok_0,
                },
                colorspace.1,
            ),
        )
    }
}

/// The fields an audio stream header ends with.
pub open spec fn audio_fields(body: Seq<u8>, at: int, base: int) -> Result<(Media, int), Halt> {
    let num = spec_v(body, at, base);
    let den = spec_v(body, num.1, base);
    let channels = spec_v(body, den.1, base);
    let n = num.0->Ok_0;
    let d = den.0->Ok_0;
    if num.0 is Err {
        Err(num.0->Err_0)
    } else if den.0 is Err {
        Err(den.0->Err_0)
    } else if channels.0 is Err {
        Err(channels.0->Err_0)
    } else if d == 0 || n == 0 || n % d != 0 {
        Err(Halt::Bad(Problem::FractionalRate { num: n, den: d }))
    } else if channels.0->Ok_0 == 0 {
        Err(Halt::Bad(Problem::NoChannels { channels: channels.0->Ok_0 }))
    } else if n / d > u32::MAX {
        Err(Halt::Bad(Problem::RateTooLarge { num: n, den: d }))
    } else if channels.0->Ok_0 > u32::MAX {
        Err(Halt::Bad(Problem::ChannelsTooLarge { channels: channels.0->Ok_0 }))
    } else {
        Ok(
            (
                Media::Audio { sample_rate: (n / d) as u32, channels: channels.0->Ok_0 as u32 },
                channels.1,
            ),
        )
    }
}

/// The fields a stream header ends with, for the class it states. Subtitles
/// and data carry no geometry, and nothing past the codec tag says anything
/// about their frames.
pub open spec fn media_fields(class: u64, body: Seq<u8>, at: int, base: int) -> Result<
    (Media, int),
    Halt,
> {
    if class == AUDIO_CLASS {
        audio_fields(body, at, base)
    } else if class == VIDEO_CLASS {
        video_fields(body, at, base)
    } else {
        Ok((Media::Other { class }, at))
    }
}

/// A stream header's body: which stream it is for, and what it says.
pub open spec fn stream_fields(body: Seq<u8>, time_bases: Seq<TimeBase>, count: nat) -> Result<
    (usize, StreamV),
    ErrorV,
> {
    let id = body_v(body, 0);
    let class = body_v(body, id.1);
    let fourcc = spec_vb(body, class.1, 0, Part::CodecTag);
    let base = body_v(body, fourcc.1);
    let shift = body_v(body, base.1);
    let distance = body_v(body, shift.1);
    let delay = body_v(body, distance.1);
    let flags = body_v(body, delay.1);
    let extradata = spec_vb(body, flags.1, 0, Part::CodecData);
    let media = media_fields(class.0->Ok_0, body, extradata.1, 0);
    let stream = StreamV {
        fourcc: fourcc.0->Ok_0,
        time_base: time_bases[base.0->Ok_0 as int],
        msb_pts_shift: shift.0->Ok_0 as u32,
        max_pts_distance: distance.0->Ok_0,
        decode_delay: delay.0->Ok_0,
        extradata: extradata.0->Ok_0,
        frame_rate: None,
        media: media->Ok_0.0,
    };
    if id.0 is Err {
        Err(ErrorV::halted(id.0->Err_0))
    } else if id.0->Ok_0 >= count {
        Err(ErrorV::of(Problem::StreamUndeclared { id: id.0->Ok_0 }))
    } else if class.0 is Err {
        Err(ErrorV::halted(class.0->Err_0))
    } else if fourcc.0 is Err {
        Err(ErrorV::halted(fourcc.0->Err_0))
    } else if base.0 is Err {
        Err(ErrorV::halted(base.0->Err_0))
    } else if base.0->Ok_0 >= time_bases.len() {
        Err(ErrorV::of(Problem::TimeBaseUndeclared { id: base.0->Ok_0 }))
    } else if shift.0 is Err {
        Err(ErrorV::halted(shift.0->Err_0))
    } else if shift.0->Ok_0 >= PTS_SHIFT_LIMIT {
        Err(ErrorV::of(Problem::PtsShift { bits: shift.0->Ok_0 }))
    } else if distance.0 is Err {
        Err(ErrorV::halted(distance.0->Err_0))
    } else if delay.0 is Err {
        Err(ErrorV::halted(delay.0->Err_0))
    } else if delay.0->Ok_0 > MAX_DECODE_DELAY {
        Err(ErrorV::of(Problem::DecodeDelay { delay: delay.0->Ok_0 }))
    } else if flags.0 is Err {
        Err(ErrorV::halted(flags.0->Err_0))
    } else if extradata.0 is Err {
        Err(ErrorV::halted(extradata.0->Err_0))
    } else if media is Err {
        Err(ErrorV::halted(media->Err_0))
    } else if delay.0->Ok_0 != 0 && stream.codec_name() is None {
        Err(ErrorV { problem: Problem::RawReorder { delay: delay.0->Ok_0 }, tag: stream.fourcc })
    } else {
        Ok((id.0->Ok_0 as usize, stream))
    }
}

/// The fields a video stream header ends with.
pub fn read_video_geometry(r: &mut Cursor<'_>) -> (read: Parse<Media>)
    requires
        old(r).wf(),
    ensures
        final(r).wf(),
        match video_fields(old(r).bytes@, old(r).at as int, old(r).base as int) {
            Ok((media, next)) => read matches Ok(got) && got == media && old(r).moved_to(
                *final(r),
                next,
            ),
            Err(halt) => read matches Err(got) && got == halt,
        },
{
    let width = r.v()?;
    let height = r.v()?;
    if width == 0 || height == 0 {
        return Err(Halt::Bad(Problem::FrameSize { width, height }));
    }
    if width > u32::MAX as u64 {
        return Err(Halt::Bad(Problem::WidthTooLarge { width }));
    }
    if height > u32::MAX as u64 {
        return Err(Halt::Bad(Problem::HeightTooLarge { height }));
    }
    let sample_width = r.v()?;
    let sample_height = r.v()?;
    let colorspace_type = r.v()?;
    Ok(
        Media::Video {
            width: width as u32,
            height: height as u32,
            sample_width,
            sample_height,
            colorspace_type,
        },
    )
}

/// The fields an audio stream header ends with. The rate is a ratio in NUT;
/// this wire carries whole rates, so a denominator that does not divide it is
/// refused rather than rounded.
pub fn read_audio_geometry(r: &mut Cursor<'_>) -> (read: Parse<Media>)
    requires
        old(r).wf(),
    ensures
        final(r).wf(),
        match audio_fields(old(r).bytes@, old(r).at as int, old(r).base as int) {
            Ok((media, next)) => read matches Ok(got) && got == media && old(r).moved_to(
                *final(r),
                next,
            ),
            Err(halt) => read matches Err(got) && got == halt,
        },
{
    let num = r.v()?;
    let den = r.v()?;
    let channels = r.v()?;
    if den == 0 || num == 0 || num % den != 0 {
        return Err(Halt::Bad(Problem::FractionalRate { num, den }));
    }
    if channels == 0 {
        return Err(Halt::Bad(Problem::NoChannels { channels }));
    }
    let rate = num / den;
    if rate > u32::MAX as u64 {
        return Err(Halt::Bad(Problem::RateTooLarge { num, den }));
    }
    if channels > u32::MAX as u64 {
        return Err(Halt::Bad(Problem::ChannelsTooLarge { channels }));
    }
    Ok(Media::Audio { sample_rate: rate as u32, channels: channels as u32 })
}

/// The fields a stream header ends with, for the class it states.
fn read_geometry(class: u64, r: &mut Cursor<'_>) -> (read: Parse<Media>)
    requires
        old(r).wf(),
    ensures
        final(r).wf(),
        match media_fields(class, old(r).bytes@, old(r).at as int, old(r).base as int) {
            Ok((media, next)) => read matches Ok(got) && got == media && old(r).moved_to(
                *final(r),
                next,
            ),
            Err(halt) => read matches Err(got) && got == halt,
        },
{
    if class == AUDIO_CLASS {
        read_audio_geometry(r)
    } else if class == VIDEO_CLASS {
        read_video_geometry(r)
    } else {
        Ok(Media::Other { class })
    }
}

/// A stream header's fields, up to what only an encoded stream may say.
fn read_stream_halting(body: &[u8], tables: &Tables, count: usize) -> (read: Parse<(usize, Stream)>)
    ensures
        ({
            let want = stream_fields(body@, tables.time_bases@, count as nat);
            match read {
                Ok((index, stream)) => if stream.decode_delay != 0 && stream@.codec_name() is None {
                    want == Err::<(usize, StreamV), ErrorV>(
                        ErrorV {
                            problem: Problem::RawReorder { delay: stream.decode_delay },
                            tag: stream.fourcc@,
                        },
                    )
                } else {
                    want == Ok::<(usize, StreamV), ErrorV>((index, stream@))
                },
                Err(halt) => want == Err::<(usize, StreamV), ErrorV>(ErrorV::halted(halt)),
            }
        }),
{
    let mut r = Cursor::whole(body);
    let stream_id = r.v()?;
    if stream_id >= count as u64 {
        return Err(Halt::Bad(Problem::StreamUndeclared { id: stream_id }));
    }
    let class = r.v()?;
    let fourcc = r.vb(Part::CodecTag)?;
    let time_base_id = r.v()?;
    if time_base_id >= tables.time_bases.len() as u64 {
        return Err(Halt::Bad(Problem::TimeBaseUndeclared { id: time_base_id }));
    }
    let time_base = tables.time_bases[time_base_id as usize];
    let msb_pts_shift = r.v()?;
    if msb_pts_shift >= PTS_SHIFT_LIMIT {
        return Err(Halt::Bad(Problem::PtsShift { bits: msb_pts_shift }));
    }
    let max_pts_distance = r.v()?;
    let decode_delay = r.v()?;
    if decode_delay > MAX_DECODE_DELAY {
        return Err(Halt::Bad(Problem::DecodeDelay { delay: decode_delay }));
    }
    r.v()?;
    let extradata = r.vb(Part::CodecData)?;
    let media = read_geometry(class, &mut r)?;
    Ok(
        (
            stream_id as usize,
            Stream {
                fourcc,
                time_base,
                msb_pts_shift: msb_pts_shift as u32,
                max_pts_distance,
                decode_delay,
                extradata,
                // What an info packet states, which is read after this header.
                frame_rate: None,
                media,
            },
        ),
    )
}

/// Reads a stream header's body.
pub fn read_stream_fields(body: &[u8], tables: &Tables, count: usize) -> (read: Result<
    (usize, Stream),
    Error,
>)
    ensures
        match stream_fields(body@, tables@.time_bases, count as nat) {
            Ok((index, stream)) => read matches Ok(got) && got.0 == index && got.1@ == stream,
            Err(error) => read matches Err(got) && got@ == error,
        },
{
    match read_stream_halting(body, tables, count) {
        Ok((index, stream)) => {
            if stream.decode_delay != 0 && stream.codec_name().is_none() {
                Err(Error::about(Problem::RawReorder { delay: stream.decode_delay }, stream.fourcc))
            } else {
                Ok((index, stream))
            }
        },
        Err(halt) => Err(Error::halted(halt)),
    }
}

/// A stream header that is read is for a declared stream, in a time base the
/// main header declared, and reorders no deeper than this crate carries - not
/// at all, where it names no codec this crate knows.
pub proof fn lemma_stream_fields(body: Seq<u8>, tables: TablesV, count: nat)
    requires
        tables.wf(),
    ensures
        stream_fields(body, tables.time_bases, count) matches Ok((index, stream)) ==> {
            &&& count <= usize::MAX ==> index < count
            &&& tables.time_bases.contains(stream.time_base)
            &&& stream.time_base.num > 0 && stream.time_base.den > 0
            &&& stream.msb_pts_shift < PTS_SHIFT_LIMIT
            &&& stream.decode_delay <= MAX_DECODE_DELAY
            &&& stream.decode_delay != 0 ==> stream.codec_name() is Some
            &&& stream.frame_rate is None
        },
{
}

// Syncpoints.

/// A syncpoint's body: where the stream has got to, as a number of ticks of
/// one of the declared time bases.
///
/// The field is `ticks * count + index` with the ticks SIGNED: a writer casts
/// to unsigned before the multiply, so a stream that opens before zero (a dts
/// ahead of reordered pictures) puts a two's complement pattern on the wire.
/// Read back as signed, a floored divide and a modulus that is never negative
/// take it apart again for any number of time bases.
pub open spec fn syncpoint_fields(body: Seq<u8>, time_bases: Seq<TimeBase>) -> Result<
    (int, TimeBase),
    Halt,
> {
    let coded = body_v(body, 0);
    let back = body_v(body, coded.1);
    let count = time_bases.len() as int;
    if coded.0 is Err {
        Err(coded.0->Err_0)
    } else if back.0 is Err {
        Err(back.0->Err_0)
    } else {
        let signed = as_signed(coded.0->Ok_0);
        Ok((signed / count, time_bases[signed % count]))
    }
}

/// A wire value as the signed number its writer cast it from.
fn signed(coded: u64) -> (value: i64)
    ensures
        value == as_signed(coded),
{
    if coded <= i64::MAX as u64 {
        coded as i64
    } else {
        (coded - 0x8000_0000_0000_0000) as i64 + i64::MIN
    }
}

/// Reads a syncpoint's body.
pub fn read_syncpoint_fields(body: &[u8], tables: &Tables) -> (read: Parse<(i64, TimeBase)>)
    requires
        1 <= tables.time_bases@.len() <= i64::MAX,
    ensures
        match syncpoint_fields(body@, tables@.time_bases) {
            Ok((ticks, base)) => read matches Ok(got) && got.0 == ticks && got.1 == base,
            Err(halt) => read matches Err(got) && got == halt,
        },
{
    let mut r = Cursor::whole(body);
    let coded = r.v()?;
    r.v()?;
    let coded = signed(coded);
    let count = tables.time_bases.len() as i64;
    assert(i64::MIN <= coded / count <= i64::MAX && 0 <= coded % count < count) by (nonlinear_arith)
        requires
            count >= 1,
            i64::MIN <= coded <= i64::MAX,
    ;
    let ticks = match coded.checked_div_euclid(count) {
        Some(ticks) => ticks,
        None => 0,
    };
    let index = match coded.checked_rem_euclid(count) {
        Some(index) => index,
        None => 0,
    };
    Ok((ticks, tables.time_bases[index as usize]))
}

} // verus!
