//! What a reader makes of the events of one wire: the header section it takes,
//! the rows it holds for each frame and the config a first packet hides.

use vstd::prelude::*;
use vstd::utf8::{encode_utf8, encode_utf8_decode_utf8, encode_utf8_valid_utf8, valid_utf8};

use crate::adts::{
    fields_fit, header_at, header_bytes, lemma_written_config, lemma_written_header_reads,
    lemma_written_packet_strips, Fields,
};
use crate::bytes::be_bytes;
use crate::error::{ErrorV, Problem};
use crate::event::EventV;
use crate::read::{
    annotation_taken, first_seen, may_hide_config, opening_event, packet_seen, reader_event,
    rows_at, Opening, ReaderV, Taken,
};
use crate::rows::{rows_of, trailing_of};
use crate::stream::{tags_aac, Media, StreamV};
use crate::tables::MainHeaderV;

verus! {

// The header section.

/// Whether a stream may be the one media stream of a wire: pictures, sound, or
/// JSON messages, which are data with the tag `JSON`.
pub open spec fn is_media(stream: StreamV) -> bool {
    match stream.media {
        Media::Video { .. } => true,
        Media::Audio { .. } => true,
        Media::Other { class } => class == 3 && stream.fourcc == seq![74u8, 83, 79, 78],
    }
}

/// Whether a stream is the annotation stream: data with the tag `FRWD`.
pub open spec fn is_annotations(stream: StreamV) -> bool {
    stream.media == (Media::Other { class: 3 }) && stream.fourcc == seq![70u8, 82, 87, 68]
}

proof fn lemma_tags()
    ensures
        crate::JSON_FOURCC@ == seq![74u8, 83, 79, 78],
        crate::ANNOTATION_FOURCC@ == seq![70u8, 82, 87, 68],
{
    assert(crate::JSON_FOURCC@ =~= seq![74u8, 83, 79, 78]);
    assert(crate::ANNOTATION_FOURCC@ =~= seq![70u8, 82, 87, 68]);
}

/// A main header opens a header section where it declares one stream, or, for
/// a caller that asked for annotations, no more than two; a second one is
/// refused, whatever it declares.
pub proof fn lemma_opening_main(asked: bool, header: MainHeaderV, again: MainHeaderV)
    requires
        header.stream_count >= 1,
    ensures
        ({
            let count = header.stream_count;
            let carried = if asked {
                count <= 2
            } else {
                count == 1
            };
            match opening_event(Opening::spec_new(asked), EventV::MainHeader(header)) {
                Ok((after, over)) => {
                    &&& carried
                    &&& !over
                    &&& after.asked == asked
                    &&& after.declared == count
                    &&& after.headers == 0
                    &&& !after.media
                    &&& !after.annotations
                    &&& opening_event(after, EventV::MainHeader(again)) is Err
                },
                Err(error) => {
                    &&& !carried
                    &&& asked ==> error == ErrorV::of(
                        Problem::StreamsAnnotated { count: count as u64 },
                    )
                    &&& !asked ==> error == ErrorV::of(
                        Problem::StreamsPlain { count: count as u64 },
                    )
                },
            }
        }),
{
}

/// A stream header in a header section that has room for it: stream 0 has to be
/// one this wire carries and comes once, and any other has to be the
/// annotation stream. One more than were declared is refused.
pub proof fn lemma_opening_stream(o: Opening, index: usize, stream: StreamV)
    requires
        o.headers < usize::MAX,
    ensures
        ({
            let taken = o.headers < o.declared && if index == 0 {
                !o.media && is_media(stream)
            } else {
                is_annotations(stream)
            };
            match opening_event(o, EventV::StreamHeader { index, stream }) {
                Ok((after, over)) => {
                    &&& taken
                    &&& !over
                    &&& after.headers == o.headers + 1
                    &&& after.declared == o.declared
                    &&& after.asked == o.asked
                    &&& after.media == (o.media || index == 0)
                    &&& after.annotations == (o.annotations || index != 0)
                },
                Err(_) => !taken,
            }
        }),
{
    lemma_tags();
}

/// A header section is over where the frames start, and where the input ends
/// if the media stream has its header by then; nothing else ends it, and
/// nothing but headers changes what was seen.
pub proof fn lemma_opening_over(o: Opening, event: EventV)
    requires
        !(event is MainHeader),
        !(event is StreamHeader),
    ensures
        match opening_event(o, event) {
            Ok((after, over)) => {
                &&& after == o
                &&& over <==> event is EndOfHeaders || event is EndOfInput
                &&& event is EndOfInput ==> o.media
            },
            Err(error) => event is EndOfInput && !o.media && error == ErrorV::of(
                Problem::EndsBeforeStream,
            ),
        },
{
}

// Rows.

/// Past the headers a frame of stream 1 is rows and no other stream's is; a
/// header stated again is refused; and what is no frame tells a caller nothing
/// but where the input ends.
pub proof fn lemma_reader_takes(r: ReaderV, event: EventV, payload: Seq<u8>)
    ensures
        event matches EventV::Frame { stream, packet } ==> stream != 1 ==> reader_event(
            r,
            event,
            payload,
        ) == Ok::<(ReaderV, Taken), ErrorV>((r, Taken::Frame(packet))),
        event matches EventV::Frame { stream, packet } ==> stream == 1 ==> match annotation_taken(
            r,
            packet.pts,
            payload,
        ) {
            Ok(after) => reader_event(r, event, payload) == Ok::<(ReaderV, Taken), ErrorV>(
                (after, Taken::Nothing),
            ),
            Err(error) => reader_event(r, event, payload) == Err::<(ReaderV, Taken), ErrorV>(error),
        },
        event is MainHeader || event is StreamHeader ==> reader_event(r, event, payload) == Err::<
            (ReaderV, Taken),
            ErrorV,
        >(ErrorV::of(Problem::RestatesMidStream)),
        event is EndOfInput ==> reader_event(r, event, payload) == Ok::<(ReaderV, Taken), ErrorV>(
            (r, Taken::End),
        ),
        event is Syncpoint || event is Info || event is EndOfHeaders ==> reader_event(
            r,
            event,
            payload,
        ) == Ok::<(ReaderV, Taken), ErrorV>((r, Taken::Nothing)),
{
}

/// Two annotation packets at one PTS leave the rows of the first and then those
/// of the second behind whatever was held there, leave the rows at every other
/// PTS alone, and are no trailing record.
pub proof fn lemma_rows_gather(
    r: ReaderV,
    pts: i64,
    first: Seq<char>,
    second: Seq<char>,
    other: i64,
)
    requires
        r.rows.dom().finite(),
        r.rows.len() < 1023,
        trailing_of(first) is None,
        trailing_of(second) is None,
    ensures
        annotation_taken(r, pts, encode_utf8(first)) matches Ok(mid) && annotation_taken(
            mid,
            pts,
            encode_utf8(second),
        ) matches Ok(after) && {
            &&& rows_at(after.rows, pts) == rows_at(r.rows, pts) + rows_of(first) + rows_of(second)
            &&& other != pts ==> rows_at(after.rows, other) == rows_at(r.rows, other)
            &&& after.recorded == r.recorded
            &&& after.trailing == r.trailing
            &&& after.stream == r.stream
            &&& after.strip == r.strip
        },
{
    encode_utf8_valid_utf8(first);
    encode_utf8_decode_utf8(first);
    encode_utf8_valid_utf8(second);
    encode_utf8_decode_utf8(second);
}

/// The trailing record is taken once, and holds its rows aside from those of
/// the frames.
pub proof fn lemma_record_taken_once(r: ReaderV, pts: i64, text: Seq<char>)
    requires
        r.rows.len() < 1024,
        trailing_of(text) is Some,
    ensures
        match annotation_taken(r, pts, encode_utf8(text)) {
            Ok(after) => {
                &&& !r.recorded
                &&& after.recorded
                &&& Some(after.trailing) == trailing_of(text)
                &&& after.rows == r.rows
                &&& annotation_taken(after, pts, encode_utf8(text)) == Err::<ReaderV, ErrorV>(
                    ErrorV::of(Problem::SecondTrailing),
                )
            },
            Err(error) => r.recorded && error == ErrorV::of(Problem::SecondTrailing),
        },
{
    encode_utf8_valid_utf8(text);
    encode_utf8_decode_utf8(text);
}

/// Rows that are no text are refused, and so are any once as many frames' rows
/// are unclaimed as may be.
pub proof fn lemma_rows_refused(r: ReaderV, pts: i64, payload: Seq<u8>)
    ensures
        r.rows.len() >= 1024 ==> annotation_taken(r, pts, payload) == Err::<ReaderV, ErrorV>(
            ErrorV::of(Problem::RowsUnclaimed),
        ),
        r.rows.len() < 1024 && !valid_utf8(payload) ==> annotation_taken(r, pts, payload) == Err::<
            ReaderV,
            ErrorV,
        >(ErrorV::of(Problem::RowsNotUtf8 { pts })),
{
}

// The config a first packet hides.

/// Only an aac stream that brought no config of its own may hide it in its
/// packets.
pub proof fn lemma_hides_config(stream: StreamV)
    ensures
        may_hide_config(stream) <==> stream.media is Audio && tags_aac().contains(stream.fourcc)
            && stream.extradata.len() == 0,
{
    reveal(StreamV::codec_name);
    reveal_strlit("aac");
    reveal_strlit("h264");
    reveal_strlit("hevc");
    reveal_strlit("av1");
    reveal_strlit("json");
    assert("aac"@.len() == 3 && "h264"@.len() == 4 && "hevc"@.len() == 4 && "json"@.len() == 4);
    assert("av1"@[1] == 'v' && "aac"@[1] == 'a');
}

/// The first packet of such a stream, where an encoder put an ADTS header on
/// it that stands for all of it: the config out of the header is the stream's,
/// the packet is its payload, and so is every packet after it with a header of
/// its own. Nothing else of the reader changes.
pub proof fn lemma_first_packet(
    r: ReaderV,
    f: Fields,
    crc: u16,
    payload: Seq<u8>,
    g: Fields,
    crc_g: u16,
    more: Seq<u8>,
)
    requires
        fields_fit(f),
        f.blocks == 0,
        f.length == header_bytes(f, crc).len() + payload.len(),
        fields_fit(g),
        g.blocks == 0,
        g.length == header_bytes(g, crc_g).len() + more.len(),
    ensures
        first_seen(r, header_bytes(f, crc) + payload) matches Ok((after, left)) && {
            &&& left == payload
            &&& after.strip
            &&& after.stream.extradata == be_bytes(
                (((f.profile + 1) * 16 + f.rate) * 16 + f.channels) * 8,
                2,
            )
            &&& after == (ReaderV {
                stream: StreamV { extradata: after.stream.extradata, ..r.stream },
                strip: true,
                ..r
            })
            &&& packet_seen(after, header_bytes(g, crc_g) + more) == Ok::<Seq<u8>, ErrorV>(more)
        },
{
    lemma_written_header_reads(f, crc, payload);
    lemma_written_packet_strips(f, crc, payload);
    lemma_written_config(f, crc, payload);
    lemma_written_packet_strips(g, crc_g, more);
}

/// A first packet with no ADTS header is as it was, and so is every packet of a
/// stream whose first packet had none.
pub proof fn lemma_plain_first_packet(r: ReaderV, data: Seq<u8>, more: Seq<u8>)
    requires
        data.len() < 7 || data[0] != 255 || data[1] < 240,
        !r.strip,
    ensures
        first_seen(r, data) == Ok::<(ReaderV, Seq<u8>), ErrorV>((r, data)),
        packet_seen(r, more) == Ok::<Seq<u8>, ErrorV>(more),
{
    assert(header_at(data) is None);
}

} // verus!
