//! Reading one media stream, and the annotation stream beside it where a
//! caller asked for it.
//!
//! This is [`PushDemuxer`] with a loop around it. The parsing is the same
//! parsing; what is here is the one media stream this wire carries, and the
//! two things that only a reader which can wait knows how to do - the ADTS
//! header an aac stream hides its config in, and the annotation stream beside
//! the frames.
//!
//! [`Opening`] and [`Reader`] are what is decided on each event, for a caller
//! with a loop of its own; [`Demuxer`] is that loop over a wire held whole,
//! which the parser is fed as it asks for more.

use std::collections::HashMap;

use vstd::prelude::*;
use vstd::utf8::{decode_utf8, valid_utf8};

use crate::adts;
use crate::adts::{header_at, stripped};
use crate::arrival::{
    lemma_finished_never_waits, lemma_frame_is_whole, lemma_next_goes_down, lemma_waiting_goes_down,
    weight,
};
use crate::demux::{
    lemma_demuxer_wf, lemma_next_wf, next, smaller, with_ceiling, DemuxV, Limits, PushDemuxer,
    State,
};
use crate::error::{Error, ErrorV, Problem};
use crate::event::{Event, EventV};
use crate::rows::{rows_of, rows_view, split_rows, trailing_of, trailing_rows, RowsV};
use crate::stream::{Media, Packet, Stream, StreamV};
use crate::text::{copy_bytes, from_utf8, same_bytes, same_text};
use crate::{ANNOTATION_CLASS, ANNOTATION_FOURCC, ANNOTATION_STREAM_ID};

verus! {

/// Largest NDJSON payload one annotation packet may carry.
pub const MAX_ANNOTATION_BYTES: u64 = 1048576;

/// How many frames' rows may sit unclaimed before the annotation stream is
/// treated as unmatched to the video rather than merely ahead of it. Rows are
/// written just before their frame, so one is the working depth.
pub const MAX_UNCLAIMED_ROWS: usize = 1024;

/// How much of a wire is fed at a time, for everything but a frame's own
/// payload, which is fed by as much as the frame has room for.
pub const SCRATCH: usize = 65536;

/// The most streams an annotated wire declares.
pub const MAX_ANNOTATED_STREAMS: usize = 2;

// What the header section has to be.

/// What has been seen of a header section.
#[derive(Debug, Clone, Copy, PartialEq, Eq, Structural)]
pub struct Opening {
    /// Whether the annotation stream was asked for.
    pub asked: bool,
    /// How many streams the main header declared, or none yet.
    pub declared: usize,
    /// How many stream headers there have been.
    pub headers: usize,
    /// Whether the media stream has its header.
    pub media: bool,
    /// Whether the annotation stream has its header.
    pub annotations: bool,
}

/// The one media stream this wire carries has to be one whose geometry the
/// stream header describes, or a data stream of JSON messages, which needs
/// none.
pub open spec fn media_carried(stream: StreamV) -> Result<(), ErrorV> {
    match stream.media {
        Media::Other { class } => if stream.is_json() {
            Ok(())
        } else {
            Err(ErrorV { problem: Problem::MediaClass { class }, tag: stream.fourcc })
        },
        _ => Ok(()),
    }
}

/// Stream 1 is the annotation stream or it is nothing: a reader that asked
/// for rows and was handed a second media stream is being handed a wire it
/// cannot read.
pub open spec fn annotations_carried(stream: StreamV) -> Result<(), ErrorV> {
    if stream.class() != ANNOTATION_CLASS || stream.fourcc != ANNOTATION_FOURCC@ {
        Err(
            ErrorV {
                problem: Problem::AnnotationClass { class: stream.class() },
                tag: stream.fourcc,
            },
        )
    } else {
        Ok(())
    }
}

/// A main header in the header section.
pub open spec fn main_seen(o: Opening, count: usize) -> Result<Opening, ErrorV> {
    if o.declared != 0 {
        if o.headers >= o.declared {
            Err(ErrorV::of(Problem::RestatesEarly))
        } else {
            Err(ErrorV::of(Problem::SecondMainHeader))
        }
    } else if o.asked && count > MAX_ANNOTATED_STREAMS {
        Err(ErrorV::of(Problem::StreamsAnnotated { count: count as u64 }))
    } else if !o.asked && count != 1 {
        Err(ErrorV::of(Problem::StreamsPlain { count: count as u64 }))
    } else {
        Ok(Opening { declared: count, ..o })
    }
}

/// A stream header in the header section.
pub open spec fn stream_seen(o: Opening, index: usize, stream: StreamV) -> Result<Opening, ErrorV> {
    let headers = (o.headers + 1) as usize;
    if o.headers >= o.declared {
        Err(ErrorV::of(Problem::RestatesEarly))
    } else if index == 0 {
        if o.media {
            Err(ErrorV::of(Problem::SecondMedia))
        } else {
            match media_carried(stream) {
                Ok(_) => Ok(Opening { headers, media: true, ..o }),
                Err(error) => Err(error),
            }
        }
    } else {
        match annotations_carried(stream) {
            Ok(_) => Ok(Opening { headers, annotations: true, ..o }),
            Err(error) => Err(error),
        }
    }
}

/// One event of the header section: what has been seen then, and whether the
/// section is over.
pub open spec fn opening_event(o: Opening, event: EventV) -> Result<(Opening, bool), ErrorV> {
    match event {
        EventV::MainHeader(header) => match main_seen(o, header.stream_count) {
            Ok(o) => Ok((o, false)),
            Err(error) => Err(error),
        },
        EventV::StreamHeader { index, stream } => match stream_seen(o, index, stream) {
            Ok(o) => Ok((o, false)),
            Err(error) => Err(error),
        },
        EventV::EndOfHeaders => Ok((o, true)),
        EventV::EndOfInput => if o.media {
            Ok((o, true))
        } else {
            Err(ErrorV::of(Problem::EndsBeforeStream))
        },
        _ => Ok((o, false)),
    }
}

/// Whether a stream is one this wire carries as its media stream.
fn check_media(stream: &Stream) -> (carried: Result<(), Error>)
    ensures
        match media_carried(stream@) {
            Ok(_) => carried is Ok,
            Err(error) => carried matches Err(got) && got@ == error,
        },
{
    match stream.media {
        Media::Other { class } => {
            if stream.is_json() {
                Ok(())
            } else {
                Err(
                    Error::about(
                        Problem::MediaClass { class },
                        copy_bytes(stream.fourcc.as_slice()),
                    ),
                )
            }
        },
        _ => Ok(()),
    }
}

/// Whether a stream is the annotation stream.
fn check_annotations(stream: &Stream) -> (carried: Result<(), Error>)
    ensures
        match annotations_carried(stream@) {
            Ok(_) => carried is Ok,
            Err(error) => carried matches Err(got) && got@ == error,
        },
{
    let class = stream.class();
    if class != ANNOTATION_CLASS || !same_bytes(
        stream.fourcc.as_slice(),
        ANNOTATION_FOURCC.as_slice(),
    ) {
        return Err(
            Error::about(
                Problem::AnnotationClass { class },
                copy_bytes(stream.fourcc.as_slice()),
            ),
        );
    }
    Ok(())
}

impl Opening {
    /// Nothing seen yet.
    pub open spec fn spec_new(asked: bool) -> Opening {
        Opening { asked, declared: 0, headers: 0, media: false, annotations: false }
    }

    /// Nothing seen yet.
    pub fn new(asked: bool) -> (opening: Opening)
        ensures
            opening == Opening::spec_new(asked),
    {
        Opening { asked, declared: 0, headers: 0, media: false, annotations: false }
    }

    /// Takes one event of the header section, answering whether the section
    /// is over.
    pub fn event(&mut self, event: &Event) -> (over: Result<bool, Error>)
        ensures
            match opening_event(*old(self), event@) {
                Ok((after, done)) => over matches Ok(got) && got == done && *final(self) == after,
                Err(error) => over matches Err(got) && got@ == error && *final(self) == *old(self),
            },
    {
        match event {
            Event::MainHeader(main) => {
                let count = main.stream_count;
                if self.declared != 0 {
                    if self.headers >= self.declared {
                        return Err(Error::of(Problem::RestatesEarly));
                    }
                    return Err(Error::of(Problem::SecondMainHeader));
                }
                if self.asked {
                    if count > MAX_ANNOTATED_STREAMS {
                        return Err(Error::of(Problem::StreamsAnnotated { count: count as u64 }));
                    }
                } else if count != 1 {
                    return Err(Error::of(Problem::StreamsPlain { count: count as u64 }));
                }
                self.declared = count;
                Ok(false)
            },
            Event::StreamHeader { index, stream } => {
                if self.headers >= self.declared {
                    return Err(Error::of(Problem::RestatesEarly));
                }
                if *index == 0 {
                    if self.media {
                        return Err(Error::of(Problem::SecondMedia));
                    }
                    check_media(stream)?;
                    self.media = true;
                } else {
                    check_annotations(stream)?;
                    self.annotations = true;
                }
                self.headers = self.headers + 1;
                Ok(false)
            },
            Event::EndOfHeaders => Ok(true),
            Event::EndOfInput => {
                if self.media {
                    Ok(true)
                } else {
                    Err(Error::of(Problem::EndsBeforeStream))
                }
            },
            _ => Ok(false),
        }
    }
}

// What a frame is.

/// A reader past its headers, as a value.
#[verifier::ext_equal]
pub struct ReaderV {
    pub stream: StreamV,
    pub annotations: bool,
    pub strip: bool,
    /// The rows of the frames that have not claimed theirs.
    pub rows: Map<i64, RowsV>,
    /// Whether the trailing record has been read. There is at most one.
    pub recorded: bool,
    /// The rows it carried, until they are taken.
    pub trailing: RowsV,
}

/// What one event is to a reader.
#[derive(Debug, Clone, Copy, PartialEq, Eq, Structural)]
pub enum Taken {
    /// A frame of the media stream.
    Frame(Packet),
    /// The end of the input.
    End,
    /// Nothing a caller is told of.
    Nothing,
}

/// The rows held for a frame.
pub open spec fn rows_at(rows: Map<i64, RowsV>, pts: i64) -> RowsV {
    if rows.contains_key(pts) {
        rows[pts]
    } else {
        Seq::empty()
    }
}

/// The text of an annotation packet taken: the trailing record, or NDJSON
/// with one row per line, held until the frame at `pts` asks for it.
pub open spec fn text_taken(r: ReaderV, pts: i64, text: Seq<char>, trailing: Option<RowsV>) -> Result<
    ReaderV,
    ErrorV,
> {
    match trailing {
        Some(rows) => if r.recorded {
            Err(ErrorV::of(Problem::SecondTrailing))
        } else {
            Ok(ReaderV { recorded: true, trailing: rows, ..r })
        },
        None => Ok(
            ReaderV { rows: r.rows.insert(pts, rows_at(r.rows, pts) + rows_of(text)), ..r },
        ),
    }
}

/// One annotation packet taken.
pub open spec fn annotation_taken(r: ReaderV, pts: i64, payload: Seq<u8>) -> Result<ReaderV, ErrorV> {
    if r.rows.len() >= MAX_UNCLAIMED_ROWS {
        Err(ErrorV::of(Problem::RowsUnclaimed))
    } else if !valid_utf8(payload) {
        Err(ErrorV::of(Problem::RowsNotUtf8 { pts }))
    } else {
        let text = decode_utf8(payload);
        text_taken(r, pts, text, trailing_of(text))
    }
}

/// One event past the headers, with the payload a frame came with. ffmpeg
/// restates its headers every so often, which is a second stream description
/// this wire has no way to honour once frames have been handed out against
/// the first.
pub open spec fn reader_event(r: ReaderV, event: EventV, payload: Seq<u8>) -> Result<
    (ReaderV, Taken),
    ErrorV,
> {
    match event {
        EventV::Frame { stream, packet } => if stream == ANNOTATION_STREAM_ID {
            match annotation_taken(r, packet.pts, payload) {
                Ok(r) => Ok((r, Taken::Nothing)),
                Err(error) => Err(error),
            }
        } else {
            Ok((r, Taken::Frame(packet)))
        },
        EventV::EndOfInput => Ok((r, Taken::End)),
        EventV::MainHeader(_) => Err(ErrorV::of(Problem::RestatesMidStream)),
        EventV::StreamHeader { .. } => Err(ErrorV::of(Problem::RestatesMidStream)),
        _ => Ok((r, Taken::Nothing)),
    }
}

/// Whether a stream's first packet may hide its config: an aac stream that
/// opened with no extradata of its own.
pub open spec fn may_hide_config(stream: StreamV) -> bool {
    stream.codec_name() == Some("aac"@) && stream.extradata.len() == 0
}

/// A reader that has looked at its first packet, and what is left of that
/// packet. Only where it starts with the ADTS syncword is an
/// AudioSpecificConfig lifted out of its header into the stream's extradata,
/// and every packet - this one first - stripped of its header from then on.
pub open spec fn first_seen(r: ReaderV, data: Seq<u8>) -> Result<(ReaderV, Seq<u8>), ErrorV> {
    if header_at(data) is None {
        Ok((r, data))
    } else {
        match stripped(data) {
            Ok(header) => Ok(
                (
                    ReaderV {
                        stream: StreamV { extradata: header.config(), ..r.stream },
                        strip: true,
                        ..r
                    },
                    data.skip(header.header_len as int),
                ),
            ),
            Err(error) => Err(error),
        }
    }
}

/// A packet as a caller sees it.
pub open spec fn packet_seen(r: ReaderV, data: Seq<u8>) -> Result<Seq<u8>, ErrorV> {
    if r.strip {
        match stripped(data) {
            Ok(header) => Ok(data.skip(header.header_len as int)),
            Err(error) => Err(error),
        }
    } else {
        Ok(data)
    }
}

/// What is known and held past the headers of one NUT stream.
pub struct Reader {
    stream: Stream,
    /// Whether the input declared the annotation stream.
    annotations: bool,
    /// Whether every packet has its ADTS header stripped before it reaches a
    /// caller. Set only for an aac stream that opened with no extradata of its
    /// own, whose first packet turned out to carry one.
    strip: bool,
    /// Rows read off the annotation stream, keyed by the PTS of the frame
    /// they belong to, until that frame arrives.
    unclaimed_rows: HashMap<i64, Vec<String>>,
    /// Whether the trailing record has been read.
    recorded: bool,
    /// Rows the trailing record carried, which belong to no frame.
    trailing: Vec<String>,
}

/// The rows held, by frame.
pub open spec fn held_view(rows: Map<i64, Vec<String>>) -> Map<i64, RowsV> {
    rows.map_values(|rows: Vec<String>| rows_view(rows@))
}

impl View for Reader {
    type V = ReaderV;

    closed spec fn view(&self) -> ReaderV {
        ReaderV {
            stream: self.stream@,
            annotations: self.annotations,
            strip: self.strip,
            rows: held_view(self.unclaimed_rows@),
            recorded: self.recorded,
            trailing: rows_view(self.trailing@),
        }
    }
}

impl ReaderV {
    /// A reader that has read nothing past the headers yet.
    pub open spec fn fresh(stream: StreamV, annotations: bool) -> ReaderV {
        ReaderV {
            stream,
            annotations,
            strip: false,
            rows: Map::empty(),
            recorded: false,
            trailing: Seq::empty(),
        }
    }
}

impl Reader {
    /// A reader that has read nothing past the headers yet.
    pub fn new(stream: Stream, annotations: bool) -> (reader: Reader)
        ensures
            reader@ == ReaderV::fresh(stream@, annotations),
    {
        let reader = Reader {
            stream,
            annotations,
            strip: false,
            unclaimed_rows: HashMap::new(),
            recorded: false,
            trailing: Vec::new(),
        };
        assert(reader@.rows =~= Map::empty());
        assert(reader@.trailing =~= Seq::empty());
        reader
    }

    /// What the stream header said. An output header is built from this, so
    /// geometry and time base survive the hop.
    pub fn stream(&self) -> (stream: &Stream)
        ensures
            stream@ == self@.stream,
    {
        &self.stream
    }

    /// Whether the input carried an annotation stream.
    pub fn has_annotations(&self) -> (yes: bool)
        ensures
            yes == self@.annotations,
    {
        self.annotations
    }

    /// The rows that arrived for the frame at `pts`, taken out of the
    /// reader. Empty when that frame carried none.
    pub fn take_rows(&mut self, pts: i64) -> (rows: Vec<String>)
        ensures
            rows_view(rows@) == rows_at(old(self)@.rows, pts),
            final(self)@ == (ReaderV { rows: old(self)@.rows.remove(pts), ..old(self)@ }),
    {
        broadcast use vstd::std_specs::hash::group_hash_axioms;

        let ghost before = self.unclaimed_rows@;
        let taken = self.unclaimed_rows.remove(&pts);
        assert(held_view(before.remove(pts)) =~= held_view(before).remove(pts));
        match taken {
            Some(rows) => rows,
            None => {
                assert(before.remove(pts) =~= before);
                let rows: Vec<String> = Vec::new();
                assert(rows_view(rows@) =~= Seq::empty());
                rows
            },
        }
    }

    /// The rows the trailing record carried, taken out of the reader. The
    /// record comes after every frame, so this is empty until the stream has
    /// been read to its end.
    pub fn take_trailing(&mut self) -> (rows: Vec<String>)
        ensures
            rows_view(rows@) == old(self)@.trailing,
            final(self)@ == (ReaderV { trailing: Seq::empty(), ..old(self)@ }),
    {
        let mut rows: Vec<String> = Vec::new();
        std::mem::swap(&mut rows, &mut self.trailing);
        assert(rows_view(self.trailing@) =~= Seq::empty());
        rows
    }

    /// Takes the text of one annotation packet, told whether it is the
    /// trailing record and with which rows.
    pub fn take_text(&mut self, pts: i64, text: &str, trailing: Option<Vec<String>>) -> (taken: Result<
        (),
        Error,
    >)
        ensures
            ({
                let record = match trailing {
                    Some(rows) => Some(rows_view(rows@)),
                    None => None,
                };
                match text_taken(old(self)@, pts, text@, record) {
                    Ok(after) => taken is Ok && final(self)@ == after,
                    Err(error) => taken matches Err(got) && got@ == error && final(self)@
                        == old(self)@,
                }
            }),
    {
        broadcast use vstd::std_specs::hash::group_hash_axioms;

        if let Some(rows) = trailing {
            if self.recorded {
                return Err(Error::of(Problem::SecondTrailing));
            }
            self.recorded = true;
            self.trailing = rows;
            return Ok(());
        }
        let ghost before = self.unclaimed_rows@;
        let mut rows: Vec<String> = match self.unclaimed_rows.remove(&pts) {
            Some(rows) => rows,
            None => Vec::new(),
        };
        let ghost held = rows_at(held_view(before), pts);
        assert(rows_view(rows@) =~= held);
        let mut more = split_rows(text);
        let ghost first = rows@;
        let ghost second = more@;
        rows.append(&mut more);
        assert(rows@ =~= first + second);
        assert(rows_view(rows@) =~= held + rows_of(text@));
        let ghost all = rows;
        self.unclaimed_rows.insert(pts, rows);
        assert(self.unclaimed_rows@ =~= before.insert(pts, all));
        assert(self@.rows =~= old(self)@.rows.insert(pts, held + rows_of(text@)));
        Ok(())
    }

    /// One annotation packet: the trailing record, or NDJSON with one row per
    /// line, held until the frame at `pts` asks for it.
    fn read_annotation(&mut self, pts: i64, payload: &[u8]) -> (taken: Result<(), Error>)
        ensures
            match annotation_taken(old(self)@, pts, payload@) {
                Ok(after) => taken is Ok && final(self)@ == after,
                Err(error) => taken matches Err(got) && got@ == error && final(self)@ == old(self)@,
            },
    {
        broadcast use vstd::std_specs::hash::group_hash_axioms;

        assert(self@.rows.dom() =~= self.unclaimed_rows@.dom());
        if self.unclaimed_rows.len() >= MAX_UNCLAIMED_ROWS {
            return Err(Error::of(Problem::RowsUnclaimed));
        }
        let text = match from_utf8(payload) {
            Some(text) => text,
            None => {
                return Err(Error::of(Problem::RowsNotUtf8 { pts }));
            },
        };
        let trailing = trailing_rows(text.as_str());
        self.take_text(pts, text.as_str(), trailing)
    }

    /// Takes one event past the headers, with the payload a frame came with.
    pub fn event(&mut self, event: &Event, payload: &[u8]) -> (taken: Result<Taken, Error>)
        ensures
            match reader_event(old(self)@, event@, payload@) {
                Ok((after, want)) => taken matches Ok(got) && got == want && final(self)@ == after,
                Err(error) => taken matches Err(got) && got@ == error && final(self)@ == old(self)@,
            },
    {
        match event {
            Event::Frame { stream, packet } => {
                if *stream as u64 == ANNOTATION_STREAM_ID {
                    self.read_annotation(packet.pts, payload)?;
                    return Ok(Taken::Nothing);
                }
                Ok(Taken::Frame(*packet))
            },
            Event::EndOfInput => Ok(Taken::End),
            Event::MainHeader(_) => Err(Error::of(Problem::RestatesMidStream)),
            Event::StreamHeader { .. } => Err(Error::of(Problem::RestatesMidStream)),
            _ => Ok(Taken::Nothing),
        }
    }

    /// Whether the first packet has to be looked at before anything downstream
    /// sees the stream's description.
    pub fn wants_first(&self) -> (yes: bool)
        ensures
            yes == may_hide_config(self@.stream),
    {
        match self.stream.codec_name() {
            Some(name) => same_text(name, "aac") && self.stream.extradata.len() == 0,
            None => false,
        }
    }

    /// Looks at the first packet of a stream that may hide its config there,
    /// lifting the config out of it and taking the header off.
    pub fn see_first(&mut self, data: &mut Vec<u8>) -> (seen: Result<(), Error>)
        ensures
            match first_seen(old(self)@, old(data)@) {
                Ok((after, left)) => seen is Ok && final(self)@ == after && final(data)@ == left,
                Err(error) => seen matches Err(got) && got@ == error && final(self)@ == old(self)@
                    && final(data)@ == old(data)@,
            },
    {
        if adts::Header::parse(data.as_slice()).is_none() {
            return Ok(());
        }
        let header = adts::strip(data)?;
        let config = header.audio_specific_config();
        self.stream.extradata = copy_bytes(config.as_slice());
        self.strip = true;
        Ok(())
    }

    /// Makes a packet what a caller sees: stripped of its ADTS header, where
    /// the stream is one whose config was hidden there.
    pub fn see_packet(&self, data: &mut Vec<u8>) -> (seen: Result<(), Error>)
        ensures
            match packet_seen(self@, old(data)@) {
                Ok(left) => seen is Ok && final(data)@ == left,
                Err(error) => seen matches Err(got) && got@ == error && final(data)@ == old(data)@,
            },
    {
        if self.strip {
            adts::strip(data)?;
        }
        Ok(())
    }
}

// The loop around the parser.

/// How much of what is left of a wire a parser that waits is fed.
pub open spec fn portion(d: DemuxV, ahead: Seq<u8>) -> int {
    let room = match d.state {
        State::Payload { want, filled, .. } => if d.buf.len() == 0 && filled < want {
            want - filled
        } else {
            SCRATCH as int
        },
        _ => SCRATCH as int,
    };
    smaller(room, ahead.len() as int)
}

/// The next event, feeding as much of what is left of a wire as it takes to
/// reach one: the parser after it, what is left then, and the event.
pub open spec fn pumped(d: DemuxV, ahead: Seq<u8>) -> (DemuxV, Seq<u8>, Result<EventV, ErrorV>)
    decreases
            ahead.len(),
            if d.eof {
                0nat
            } else {
                1nat
            },
{
    proof {
        if d.eof {
            lemma_finished_never_waits(d);
        }
    }
    match next(d) {
        (after, Ok(Some(event))) => (after, ahead, Ok(event)),
        (after, Err(error)) => (after, ahead, Err(error)),
        (after, Ok(None)) => if ahead.len() == 0 {
            pumped(after.finished(), ahead)
        } else {
            let count = portion(after, ahead);
            pumped(after.fed(ahead.take(count)), ahead.skip(count))
        },
    }
}

/// Every event but the last brings the end of the wire nearer.
pub proof fn lemma_pumped_goes_down(d: DemuxV, ahead: Seq<u8>)
    ensures
        ({
            let (after, left, outcome) = pumped(d, ahead);
            outcome matches Ok(event) && event != EventV::EndOfInput ==> {
                ||| after.buf.len() + left.len() < d.buf.len() + ahead.len()
                ||| after.buf.len() + left.len() == d.buf.len() + ahead.len() && weight(after)
                    < weight(d)
            }
        }),
    decreases
            ahead.len(),
            if d.eof {
                0nat
            } else {
                1nat
            },
{
    if d.eof {
        lemma_finished_never_waits(d);
    }
    lemma_next_goes_down(d);
    lemma_waiting_goes_down(d);
    let after = next(d).0;
    if next(d).1 matches Ok(None) {
        if ahead.len() == 0 {
            lemma_pumped_goes_down(after.finished(), ahead);
        } else {
            let count = portion(after, ahead);
            lemma_pumped_goes_down(after.fed(ahead.take(count)), ahead.skip(count));
        }
    }
}

/// A frame is pumped once all of it is there.
pub proof fn lemma_pumped_frame_is_whole(d: DemuxV, ahead: Seq<u8>)
    ensures
        pumped(d, ahead).2 matches Ok(EventV::Frame { .. }) ==> pumped(d, ahead).0.state is Unit,
    decreases
            ahead.len(),
            if d.eof {
                0nat
            } else {
                1nat
            },
{
    if d.eof {
        lemma_finished_never_waits(d);
    }
    lemma_frame_is_whole(d);
    let after = next(d).0;
    if next(d).1 matches Ok(None) {
        if ahead.len() == 0 {
            lemma_pumped_frame_is_whole(after.finished(), ahead);
        } else {
            let count = portion(after, ahead);
            lemma_pumped_frame_is_whole(after.fed(ahead.take(count)), ahead.skip(count));
        }
    }
}

/// The header section read to its end: what was seen, the parser past it with
/// what is left of the wire, and whether it was refused.
pub open spec fn headers_read(o: Opening, d: DemuxV, ahead: Seq<u8>) -> (
    Opening,
    DemuxV,
    Seq<u8>,
    Result<(), ErrorV>,
)
    decreases d.buf.len() + ahead.len(), weight(d),
{
    proof {
        lemma_pumped_goes_down(d, ahead);
    }
    match pumped(d, ahead) {
        (after, left, Err(error)) => (o, after, left, Err(error)),
        (after, left, Ok(event)) => match opening_event(o, event) {
            Err(error) => (o, after, left, Err(error)),
            Ok((seen, over)) => if over || event == EventV::EndOfInput {
                (seen, after, left, Ok(()))
            } else {
                headers_read(seen, after, left)
            },
        },
    }
}

/// The next frame of the media stream, its payload in the parser, or none at
/// the end of the stream. Packets between frames are consumed on the way.
pub open spec fn frame_read(r: ReaderV, d: DemuxV, ahead: Seq<u8>) -> (
    ReaderV,
    DemuxV,
    Seq<u8>,
    Result<Option<Packet>, ErrorV>,
)
    decreases d.buf.len() + ahead.len(), weight(d),
{
    proof {
        lemma_pumped_goes_down(d, ahead);
    }
    match pumped(d, ahead) {
        (after, left, Err(error)) => (r, after, left, Err(error)),
        (after, left, Ok(event)) => match reader_event(r, event, after.payload) {
            Err(error) => (r, after, left, Err(error)),
            Ok((r, Taken::Frame(packet))) => (r, after, left, Ok(Some(packet))),
            Ok((r, Taken::End)) => (r, after, left, Ok(None)),
            Ok((r, Taken::Nothing)) => if event == EventV::EndOfInput {
                (r, after, left, Ok(None))
            } else {
                frame_read(r, after, left)
            },
        },
    }
}

/// A demuxer of one media stream, as a value.
#[verifier::ext_equal]
pub struct DemuxerV {
    pub core: DemuxV,
    /// What is left of the wire.
    pub ahead: Seq<u8>,
    pub reader: ReaderV,
    /// The first packet, where it was looked at and no caller has had it yet.
    pub first: Option<(Packet, Seq<u8>)>,
}

/// The next packet as a caller sees it: the demuxer after it, the bytes
/// handed over in place of `data`, and the packet, or none at the end.
pub open spec fn packet_read(d: DemuxerV, data: Seq<u8>) -> (DemuxerV, Seq<u8>, Result<
    Option<Packet>,
    ErrorV,
>) {
    match d.first {
        Some((packet, bytes)) => (DemuxerV { first: None, ..d }, bytes, Ok(Some(packet))),
        None => match frame_read(d.reader, d.core, d.ahead) {
            (reader, core, ahead, Ok(Some(packet))) => {
                let after = DemuxerV {
                    core: DemuxV { payload: Seq::empty(), ..core },
                    ahead,
                    reader,
                    first: None,
                };
                match packet_seen(reader, core.payload) {
                    Ok(seen) => (after, seen, Ok(Some(packet))),
                    Err(error) => (after, core.payload, Err(error)),
                }
            },
            (reader, core, ahead, outcome) => (
                DemuxerV { core, ahead, reader, first: None },
                data,
                outcome,
            ),
        },
    }
}

/// A demuxer past its headers that has looked at its first packet, where that
/// packet may hide the stream's config.
pub open spec fn primed(d: DemuxerV) -> Result<DemuxerV, ErrorV> {
    if !may_hide_config(d.reader.stream) {
        Ok(d)
    } else {
        match packet_read(d, Seq::empty()) {
            (_, _, Err(error)) => Err(error),
            (after, _, Ok(None)) => Ok(after),
            (after, data, Ok(Some(packet))) => match first_seen(after.reader, data) {
                Ok((reader, left)) => Ok(
                    DemuxerV { reader, first: Some((packet, left)), ..after },
                ),
                Err(error) => Err(error),
            },
        }
    }
}

/// The parser a wire is opened with, none of it fed yet.
pub open spec fn capped(asked: bool, limits: Limits) -> DemuxV {
    let fresh = DemuxV::fresh(limits);
    if asked {
        // The annotation stream is rows of JSON, not pictures, and a packet
        // of them is small however large a frame may be.
        DemuxV {
            ceilings: with_ceiling(
                fresh.ceilings,
                ANNOTATION_STREAM_ID as int,
                MAX_ANNOTATION_BYTES,
            ),
            ..fresh
        }
    } else {
        fresh
    }
}

/// The same parser with all of the wire fed.
pub open spec fn loaded(wire: Seq<u8>, asked: bool, limits: Limits) -> DemuxV {
    capped(asked, limits).fed(wire).finished()
}

/// What opening comes to, from a parser and what is left of its wire.
pub open spec fn begun(asked: bool, core: DemuxV, ahead: Seq<u8>) -> Result<DemuxerV, ErrorV> {
    match headers_read(Opening::spec_new(asked), core, ahead) {
        (_, _, _, Err(error)) => Err(error),
        (o, core, ahead, Ok(_)) => if core.known.streams.len() > 0 && core.known.streams[0] is Some {
            primed(
                DemuxerV {
                    core,
                    ahead,
                    reader: ReaderV::fresh(core.known.streams[0]->Some_0, o.annotations),
                    first: None,
                },
            )
        } else {
            Err(ErrorV::of(Problem::EndsBeforeStream))
        },
    }
}

/// What opening a wire comes to.
pub open spec fn opened(wire: Seq<u8>, asked: bool, limits: Limits) -> Result<DemuxerV, ErrorV> {
    begun(asked, capped(asked, limits), wire)
}

/// A parser, and the wire it is fed from.
struct Source {
    core: PushDemuxer,
    wire: Vec<u8>,
    /// How much of the wire has been fed.
    fed: usize,
}

impl Source {
    /// What is left of the wire.
    spec fn ahead(self) -> Seq<u8> {
        self.wire@.skip(self.fed as int)
    }

    /// Every place in the wire can be named.
    spec fn wf(self) -> bool {
        &&& self.core.wf()
        &&& self.fed <= self.wire@.len()
        &&& self.core@.pos + self.core@.buf.len() + self.ahead().len() <= u64::MAX
    }

    /// How much room the frame being read has left, where the parser waits on
    /// its payload with nothing else buffered.
    fn room(&mut self) -> (room: usize)
        requires
            old(self).wf(),
        ensures
            final(self).wf(),
            final(self).core@ == old(self).core@,
            final(self).ahead() == old(self).ahead(),
            room == match old(self).core@.state {
                State::Payload { want, filled, .. } => if old(self).core@.buf.len() == 0 {
                    want - filled
                } else {
                    0
                },
                _ => 0,
            },
    {
        let ghost before = self.core@;
        proof {
            lemma_demuxer_wf(self.core);
            let from = before.fill_from();
            assert(before.payload.take(from) + before.payload.skip(from) =~= before.payload);
        }
        let room = match self.core.payload_space() {
            Some(space) => {
                assert(space.len() == space@.len());
                space.len()
            },
            None => 0,
        };
        assert(self.core@ =~= before);
        room
    }

    /// The next event, feeding as much as it takes to reach one.
    fn pump(&mut self) -> (event: Result<Event, Error>)
        requires
            old(self).wf(),
        ensures
            final(self).wf(),
            ({
                let (after, ahead, outcome) = pumped(old(self).core@, old(self).ahead());
                &&& final(self).core@ == after
                &&& final(self).ahead() == ahead
                &&& match outcome {
                    Ok(want) => event matches Ok(got) && got@ == want,
                    Err(error) => event matches Err(got) && got@ == error,
                }
            }),
    {
        loop
            invariant
                self.wf(),
                pumped(old(self).core@, old(self).ahead()) == pumped(self.core@, self.ahead()),
            decreases
                    self.ahead().len(),
                    if self.core@.eof {
                        0nat
                    } else {
                        1nat
                    },
        {
            let ghost before = *self;
            proof {
                lemma_demuxer_wf(self.core);
                if before.core@.eof {
                    lemma_finished_never_waits(before.core@);
                }
                lemma_next_wf(before.core@);
            }
            match self.core.next_event() {
                Ok(Some(event)) => {
                    return Ok(event);
                },
                Err(error) => {
                    return Err(error);
                },
                Ok(None) => {},
            }
            let room = self.room();
            let left = self.wire.len() - self.fed;
            if left == 0 {
                self.core.finish();
                continue;
            }
            let most = if room > 0 {
                room
            } else {
                SCRATCH
            };
            let count = if most < left {
                most
            } else {
                left
            };
            let ghost ahead = self.ahead();
            let ghost waiting = self.core@;
            let wire = self.wire.as_slice();
            let piece = &wire[self.fed..self.fed + count];
            assert(piece@ =~= ahead.take(count as int));
            self.core.feed(piece);
            self.fed = self.fed + count;
            assert(self.ahead() =~= ahead.skip(count as int));
            assert(count == portion(waiting, ahead));
        }
    }
}

/// Reads one NUT stream: one media stream, and the annotation stream where a
/// caller asked for it.
pub struct Demuxer {
    source: Source,
    reader: Reader,
    /// The first packet, held while it was decided whether this stream needs
    /// ADTS stripped, and handed back by the next call to `read_packet`.
    first_packet: Option<(Packet, Vec<u8>)>,
}

impl View for Demuxer {
    type V = DemuxerV;

    closed spec fn view(&self) -> DemuxerV {
        DemuxerV {
            core: self.source.core@,
            ahead: self.source.ahead(),
            reader: self.reader@,
            first: match self.first_packet {
                Some((packet, bytes)) => Some((packet, bytes@)),
                None => None,
            },
        }
    }
}

impl Demuxer {
    /// The parser underneath is well formed.
    pub closed spec fn wf(self) -> bool {
        self.source.wf()
    }

    /// Reads the header section, so geometry is known before the first frame
    /// is read. One media stream and nothing else.
    pub fn open(wire: &[u8]) -> (opened: Result<Demuxer, Error>)
        ensures
            match self::opened(wire@, false, default_limits()) {
                Ok(want) => opened matches Ok(got) && got@ == want && got.wf(),
                Err(error) => opened matches Err(got) && got@ == error,
            },
    {
        Demuxer::read_headers(wire, false, Limits::default())
    }

    /// `open`, with ceilings of a caller's own on what the stream may ask
    /// for.
    pub fn open_with(wire: &[u8], limits: Limits) -> (opened: Result<Demuxer, Error>)
        ensures
            match self::opened(wire@, false, limits) {
                Ok(want) => opened matches Ok(got) && got@ == want && got.wf(),
                Err(error) => opened matches Err(got) && got@ == error,
            },
    {
        Demuxer::read_headers(wire, false, limits)
    }

    /// `open`, accepting the optional annotation stream beside the media.
    /// An input carrying only the media stream is still read.
    pub fn open_annotated(wire: &[u8]) -> (opened: Result<Demuxer, Error>)
        ensures
            match self::opened(wire@, true, default_limits()) {
                Ok(want) => opened matches Ok(got) && got@ == want && got.wf(),
                Err(error) => opened matches Err(got) && got@ == error,
            },
    {
        Demuxer::read_headers(wire, true, Limits::default())
    }

    fn read_headers(wire: &[u8], annotations: bool, limits: Limits) -> (opened: Result<
        Demuxer,
        Error,
    >)
        ensures
            match self::opened(wire@, annotations, limits) {
                Ok(want) => opened matches Ok(got) && got@ == want && got.wf(),
                Err(error) => opened matches Err(got) && got@ == error,
            },
    {
        let mut core = PushDemuxer::new(limits);
        if annotations {
            core.set_stream_limit(ANNOTATION_STREAM_ID as usize, MAX_ANNOTATION_BYTES);
        }
        assert(wire@.len() == wire.len());
        let mut source = Source { core, wire: copy_bytes(wire), fed: 0 };
        assert(source.ahead() =~= wire@);
        let mut opening = Opening::new(annotations);
        let ghost start = capped(annotations, limits);
        assert(source.core@ == start);
        loop
            invariant_except_break
                source.wf(),
                headers_read(Opening::spec_new(annotations), start, wire@) == headers_read(
                    opening,
                    source.core@,
                    source.ahead(),
                ),
            invariant
                start == capped(annotations, limits),
            ensures
                source.wf(),
                headers_read(Opening::spec_new(annotations), start, wire@) == (
                    opening,
                    source.core@,
                    source.ahead(),
                    Ok::<(), ErrorV>(()),
                ),
            decreases source.core@.buf.len() + source.ahead().len(), weight(source.core@),
        {
            proof {
                lemma_pumped_goes_down(source.core@, source.ahead());
            }
            let event = source.pump()?;
            if opening.event(&event)? {
                break;
            }
        }
        let stream = match source.core.stream(0) {
            Some(stream) => stream.clone(),
            None => {
                return Err(Error::of(Problem::EndsBeforeStream));
            },
        };
        let mut demuxer = Demuxer {
            source,
            reader: Reader::new(stream, opening.annotations),
            first_packet: None,
        };
        demuxer.detect_adts()?;
        Ok(demuxer)
    }

    /// Primes ADTS handling for a stream that opened with no extradata of
    /// its own: reads the first packet, and - only when it starts with the
    /// ADTS syncword - lifts an AudioSpecificConfig out of its header into
    /// the stream's extradata before anything downstream sees it, and marks
    /// every packet (this one included) to have its header stripped the way
    /// `aac_adtstoasc` would. A stream that already carries extradata, or
    /// whose first packet does not start with the syncword, is untouched.
    fn detect_adts(&mut self) -> (done: Result<(), Error>)
        requires
            old(self).wf(),
        ensures
            final(self).wf(),
            match primed(old(self)@) {
                Ok(after) => done is Ok && final(self)@ == after,
                Err(error) => done matches Err(got) && got@ == error,
            },
    {
        if !self.reader.wants_first() {
            return Ok(());
        }
        let mut data: Vec<u8> = Vec::new();
        assert(data@ =~= Seq::empty());
        let packet = match self.read_packet(&mut data)? {
            Some(packet) => packet,
            None => {
                return Ok(());
            },
        };
        self.reader.see_first(&mut data)?;
        self.first_packet = Some((packet, data));
        Ok(())
    }

    /// What the stream header said. An output header is built from this, so
    /// geometry and time base survive the hop.
    pub fn stream(&self) -> (stream: &Stream)
        ensures
            stream@ == self@.reader.stream,
    {
        self.reader.stream()
    }

    /// Whether the input actually carried an annotation stream. False for an
    /// input that declared only the media stream, even when annotations were
    /// asked for.
    pub fn has_annotations(&self) -> (yes: bool)
        ensures
            yes == self@.reader.annotations,
    {
        self.reader.has_annotations()
    }

    /// The rows that arrived for the frame at `pts`, taken out of the
    /// demuxer. Empty when that frame carried none.
    pub fn take_rows(&mut self, pts: i64) -> (rows: Vec<String>)
        requires
            old(self).wf(),
        ensures
            final(self).wf(),
            rows_view(rows@) == rows_at(old(self)@.reader.rows, pts),
            final(self)@ == (DemuxerV {
                reader: ReaderV {
                    rows: old(self)@.reader.rows.remove(pts),
                    ..old(self)@.reader
                },
                ..old(self)@
            }),
    {
        self.reader.take_rows(pts)
    }

    /// The rows the trailing record carried, taken out of the demuxer. The
    /// record comes after every frame, so this is empty until the stream has
    /// been read to its end.
    pub fn take_trailing(&mut self) -> (rows: Vec<String>)
        requires
            old(self).wf(),
        ensures
            final(self).wf(),
            rows_view(rows@) == old(self)@.reader.trailing,
            final(self)@ == (DemuxerV {
                reader: ReaderV { trailing: Seq::empty(), ..old(self)@.reader },
                ..old(self)@
            }),
    {
        self.reader.take_trailing()
    }

    /// The next frame's PTS, with its bytes in `data`, or None at the end of
    /// the stream. Packets between frames are consumed on the way.
    pub fn read_frame(&mut self, data: &mut Vec<u8>) -> (read: Result<Option<i64>, Error>)
        requires
            old(self).wf(),
        ensures
            final(self).wf(),
            ({
                let (after, bytes, outcome) = packet_read(old(self)@, old(data)@);
                &&& final(self)@ == after
                &&& final(data)@ == bytes
                &&& match outcome {
                    Ok(Some(packet)) => read matches Ok(Some(got)) && got == packet.pts,
                    Ok(None) => read matches Ok(None),
                    Err(error) => read matches Err(got) && got@ == error,
                }
            }),
    {
        match self.read_packet(data)? {
            Some(packet) => Ok(Some(packet.pts)),
            None => Ok(None),
        }
    }

    /// `read_frame`, keeping everything the frame's own header said: the PTS,
    /// the DTS the reorder buffer settles, and the keyframe flag. For an
    /// encoded stream this is the read that loses nothing.
    ///
    /// An aac stream whose config was hidden in its ADTS headers has them
    /// stripped here, the buffered first packet included, so a caller sees
    /// exactly what an `aac_adtstoasc`'d wire would have carried.
    pub fn read_packet(&mut self, data: &mut Vec<u8>) -> (read: Result<Option<Packet>, Error>)
        requires
            old(self).wf(),
        ensures
            final(self).wf(),
            ({
                let (after, bytes, outcome) = packet_read(old(self)@, old(data)@);
                &&& final(self)@ == after
                &&& final(data)@ == bytes
                &&& match outcome {
                    Ok(Some(packet)) => read matches Ok(Some(got)) && got == packet,
                    Ok(None) => read matches Ok(None),
                    Err(error) => read matches Err(got) && got@ == error,
                }
            }),
    {
        if let Some((packet, buffered)) = self.first_packet.take() {
            *data = buffered;
            return Ok(Some(packet));
        }
        let packet = match self.read_packet_inner()? {
            Some(packet) => packet,
            None => {
                return Ok(None);
            },
        };
        self.source.core.take_payload(data);
        self.reader.see_packet(data)?;
        Ok(Some(packet))
    }

    /// The read `read_packet` wraps: past the headers, off the wire,
    /// unaware of ADTS.
    fn read_packet_inner(&mut self) -> (read: Result<Option<Packet>, Error>)
        requires
            old(self).wf(),
            old(self)@.first is None,
        ensures
            final(self).wf(),
            ({
                let (reader, core, ahead, outcome) = frame_read(
                    old(self)@.reader,
                    old(self)@.core,
                    old(self)@.ahead,
                );
                &&& final(self)@ == (DemuxerV { core, ahead, reader, first: None })
                &&& match outcome {
                    Ok(Some(packet)) => read matches Ok(Some(got)) && got == packet
                        && !(core.state is Payload),
                    Ok(None) => read matches Ok(None),
                    Err(error) => read matches Err(got) && got@ == error,
                }
            }),
    {
        loop
            invariant
                self.wf(),
                self.first_packet is None,
                frame_read(old(self)@.reader, old(self)@.core, old(self)@.ahead) == frame_read(
                    self@.reader,
                    self@.core,
                    self@.ahead,
                ),
            decreases self@.core.buf.len() + self@.ahead.len(), weight(self@.core),
        {
            proof {
                lemma_pumped_goes_down(self@.core, self@.ahead);
                lemma_pumped_frame_is_whole(self@.core, self@.ahead);
            }
            let event = self.source.pump()?;
            match self.reader.event(&event, self.source.core.payload())? {
                Taken::Frame(packet) => {
                    return Ok(Some(packet));
                },
                Taken::End => {
                    return Ok(None);
                },
                Taken::Nothing => {},
            }
        }
    }
}

/// A demuxer that is well formed has a parser that is so as a value, which is
/// what the laws are stated over.
pub proof fn lemma_reader_wf(demuxer: Demuxer)
    requires
        demuxer.wf(),
    ensures
        demuxer@.core.wf(),
{
    lemma_demuxer_wf(demuxer.source.core);
}

/// The limits a demuxer has where a caller sets none.
pub open spec fn default_limits() -> Limits {
    Limits { max_frame: 2147483648, max_header: 1048576, max_buffered: 2097152, max_streams: 16 }
}

} // verus!
