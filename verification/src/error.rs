//! What a call here answers with when the bytes are not what they claim.

use vstd::prelude::*;
use vstd::string::StringExecFns;

use crate::stream::{printable_tag, put_tag};
use crate::text::{decimal, hex, put_decimal, put_hex, put_signed, signed};

verus! {

/// Why a call failed, for a caller that acts on the kinds differently. The
/// message says what happened; this says what sort of thing it was.
#[derive(Debug, Clone, Copy, PartialEq, Eq, Structural)]
#[non_exhaustive]
pub enum ErrorKind {
    /// The bytes are not NUT, or not the NUT they say they are: a checksum
    /// that does not match, a field that runs off the end of its packet, a
    /// frame header byte the main header never defined.
    Format,
    /// Well-formed NUT this crate refuses by name rather than guessing at:
    /// version 4, a stream class it has no geometry for, side data.
    Unsupported,
    /// A bound was crossed: one of [`Limits`](crate::Limits), or one of the
    /// fixed ones this crate documents.
    Limit,
    /// The reader or writer underneath failed. Nothing in this crate reads or
    /// writes; the kind is here for what wraps it in something that does.
    Io,
}

/// A run of bytes a message can name.
#[derive(Debug, Clone, Copy, PartialEq, Eq, Structural)]
pub enum Part {
    Field32,
    Startcode,
    MainHeader,
    StreamHeader,
    Syncpoint,
    InfoPacket,
    Packet,
    ElisionHeader,
    CodecTag,
    CodecData,
    InfoName,
    InfoValue,
    InfoType,
    EndOfRelevance,
}

impl Part {
    /// The run's name, as a message puts it.
    pub open spec fn spec_name(self) -> Seq<char> {
        match self {
            Part::Field32 => "a 32-bit field"@,
            Part::Startcode => "a startcode"@,
            Part::MainHeader => "the main header"@,
            Part::StreamHeader => "a stream header"@,
            Part::Syncpoint => "a syncpoint"@,
            Part::InfoPacket => "an info packet"@,
            Part::Packet => "a packet"@,
            Part::ElisionHeader => "an elision header"@,
            Part::CodecTag => "a codec tag"@,
            Part::CodecData => "codec specific data"@,
            Part::InfoName => "an info field name"@,
            Part::InfoValue => "an info field value"@,
            Part::InfoType => "an info field type"@,
            Part::EndOfRelevance => "an end-of-relevance frame"@,
        }
    }

    /// The run's name, as a message puts it.
    pub fn name(self) -> (name: &'static str)
        ensures
            name@ == self.spec_name(),
    {
        match self {
            Part::Field32 => "a 32-bit field",
            Part::Startcode => "a startcode",
            Part::MainHeader => "the main header",
            Part::StreamHeader => "a stream header",
            Part::Syncpoint => "a syncpoint",
            Part::InfoPacket => "an info packet",
            Part::Packet => "a packet",
            Part::ElisionHeader => "an elision header",
            Part::CodecTag => "a codec tag",
            Part::CodecData => "codec specific data",
            Part::InfoName => "an info field name",
            Part::InfoValue => "an info field value",
            Part::InfoType => "an info field type",
            Part::EndOfRelevance => "an end-of-relevance frame",
        }
    }
}

/// What was missing when a parse ran out of bytes. Over a whole packet body
/// it is the message the packet is refused with; over a stream it is what to
/// say if the stream ends there instead of going on.
#[derive(Debug, Clone, Copy, PartialEq, Eq, Structural)]
pub enum Need {
    /// A field ran out partway through, at this position in the stream.
    Field { at: u64 },
    /// A run of bytes came up short.
    Bytes { what: Part, want: u64, got: u64 },
}

impl Need {
    /// The problem this becomes where there are no more bytes coming.
    pub open spec fn spec_ended(self) -> Problem {
        match self {
            Need::Field { at } => Problem::EndsMidField { at },
            Need::Bytes { what, want, got } => Problem::EndsInside { what, want, got },
        }
    }

    /// The problem this becomes where there are no more bytes coming.
    pub fn ended(self) -> (problem: Problem)
        ensures
            problem == self.spec_ended(),
    {
        match self {
            Need::Field { at } => Problem::EndsMidField { at },
            Need::Bytes { what, want, got } => Problem::EndsInside { what, want, got },
        }
    }
}

/// Why a parse stopped: the bytes are wrong, or there are not enough of them.
#[derive(Debug, Clone, Copy, PartialEq, Eq, Structural)]
pub enum Halt {
    Bad(Problem),
    Need(Need),
}

impl Halt {
    /// The problem this is where there are no more bytes coming.
    pub open spec fn spec_ended(self) -> Problem {
        match self {
            Halt::Bad(problem) => problem,
            Halt::Need(need) => need.spec_ended(),
        }
    }

    /// The problem this is where there are no more bytes coming.
    pub fn ended(self) -> (problem: Problem)
        ensures
            problem == self.spec_ended(),
    {
        match self {
            Halt::Bad(problem) => problem,
            Halt::Need(need) => need.ended(),
        }
    }
}

/// What a parse answers: the value, or why it stopped.
pub type Parse<T> = core::result::Result<T, Halt>;

/// Everything that can be wrong with a wire, or with what was asked to go on
/// one, with what its message says about it.
#[derive(Debug, Clone, Copy, PartialEq, Eq, Structural)]
#[allow(inconsistent_fields)]
pub enum Problem {
    // Fields.
    VarintOverflow { at: u64 },
    VarintTooLong { at: u64 },
    SignedOverflow { at: u64 },
    ByteString { what: Part, len: u64 },
    EndsMidField { at: u64 },
    EndsInside { what: Part, want: u64, got: u64 },
    // Packets.
    SkipEnds { what: Part, short: u64 },
    FrameEnds { got: u64, want: u64 },
    IdentifierEnds { got: u64 },
    NotNut,
    PacketTooShort { len: u64, what: Part },
    PacketTooWide { len: u64, max: u64, what: Part },
    PacketChecksum { computed: u32, carried: u32, what: Part },
    Buffered { held: u64, max: u64 },
    // The main header.
    Version { version: u64 },
    StreamsDeclared { count: u64 },
    TimeBasesDeclared { count: u64 },
    TimeBaseNotARate { num: u64, den: u64 },
    FrameCodeGroups,
    FrameCodeFields { fields: u64 },
    ElisionHeaders { count: u64 },
    ElisionHeader { index: u64, len: u64 },
    // Stream headers.
    StreamBeforeMain,
    StreamUndeclared { id: u64 },
    TimeBaseUndeclared { id: u64 },
    PtsShift { bits: u64 },
    DecodeDelay { delay: u64 },
    RawReorder { delay: u64 },
    FrameSize { width: u64, height: u64 },
    WidthTooLarge { width: u64 },
    HeightTooLarge { height: u64 },
    FractionalRate { num: u64, den: u64 },
    NoChannels { channels: u64 },
    RateTooLarge { num: u64, den: u64 },
    ChannelsTooLarge { channels: u64 },
    // Syncpoints.
    SyncpointBeforeMain,
    SyncpointOverflow,
    // Frames.
    FrameBeforeHeaders,
    FrameCodeInvalid { byte: u8 },
    FrameStreamUndeclared { id: u64 },
    PtsOverflow,
    SizeOverflow,
    ElisionUndeclared { index: u64 },
    ReservedFields { count: u64 },
    SideData,
    FrameChecksum { computed: u32, carried: u32 },
    ElidesPastEnd { size: u64, elided: u64 },
    FrameTooLarge { size: u64, ceiling: u64 },
    // ADTS.
    NotAdts,
    AdtsPacked { frames: u8 },
    AdtsLength { len: u64, frame_length: u64 },
    // The one media stream a reader carries.
    RestatesEarly,
    RestatesMidStream,
    SecondMainHeader,
    StreamsAnnotated { count: u64 },
    StreamsPlain { count: u64 },
    SecondMedia,
    EndsBeforeStream,
    MediaClass { class: u64 },
    AnnotationClass { class: u64 },
    // Annotations.
    RowsUnclaimed,
    RowsNotUtf8 { pts: i64 },
    SecondTrailing,
    RowNotOneLine { row: u64 },
    RowsNotAsked,
    RowsTooLong { len: u64 },
    TrailingNotJson,
    // Writing.
    NegativePts { pts: i64 },
    FrameOnCoded,
    CodedOnRaw,
    GeometryMissing { class: u64 },
}

impl Problem {
    /// What sort of failure this is.
    pub open spec fn spec_kind(self) -> ErrorKind {
        match self {
            Problem::ByteString { .. }
            | Problem::PacketTooWide { .. }
            | Problem::Buffered { .. }
            | Problem::StreamsDeclared { .. }
            | Problem::TimeBasesDeclared { .. }
            | Problem::FrameCodeGroups
            | Problem::FrameCodeFields { .. }
            | Problem::ElisionHeaders { .. }
            | Problem::ElisionHeader { .. }
            | Problem::DecodeDelay { .. }
            | Problem::ReservedFields { .. }
            | Problem::FrameTooLarge { .. }
            | Problem::RowsUnclaimed
            | Problem::RowsTooLong { .. } => ErrorKind::Limit,
            Problem::Version { .. }
            | Problem::RawReorder { .. }
            | Problem::FractionalRate { .. }
            | Problem::SideData
            | Problem::AdtsPacked { .. }
            | Problem::AdtsLength { .. }
            | Problem::RestatesMidStream
            | Problem::StreamsAnnotated { .. }
            | Problem::StreamsPlain { .. }
            | Problem::SecondMedia
            | Problem::MediaClass { .. }
            | Problem::AnnotationClass { .. }
            | Problem::RowNotOneLine { .. }
            | Problem::RowsNotAsked
            | Problem::NegativePts { .. }
            | Problem::FrameOnCoded
            | Problem::CodedOnRaw
            | Problem::GeometryMissing { .. } => ErrorKind::Unsupported,
            _ => ErrorKind::Format,
        }
    }

    /// What sort of failure this is.
    pub fn kind(self) -> (kind: ErrorKind)
        ensures
            kind == self.spec_kind(),
    {
        match self {
            Problem::ByteString { .. }
            | Problem::PacketTooWide { .. }
            | Problem::Buffered { .. }
            | Problem::StreamsDeclared { .. }
            | Problem::TimeBasesDeclared { .. }
            | Problem::FrameCodeGroups
            | Problem::FrameCodeFields { .. }
            | Problem::ElisionHeaders { .. }
            | Problem::ElisionHeader { .. }
            | Problem::DecodeDelay { .. }
            | Problem::ReservedFields { .. }
            | Problem::FrameTooLarge { .. }
            | Problem::RowsUnclaimed
            | Problem::RowsTooLong { .. } => ErrorKind::Limit,
            Problem::Version { .. }
            | Problem::RawReorder { .. }
            | Problem::FractionalRate { .. }
            | Problem::SideData
            | Problem::AdtsPacked { .. }
            | Problem::AdtsLength { .. }
            | Problem::RestatesMidStream
            | Problem::StreamsAnnotated { .. }
            | Problem::StreamsPlain { .. }
            | Problem::SecondMedia
            | Problem::MediaClass { .. }
            | Problem::AnnotationClass { .. }
            | Problem::RowNotOneLine { .. }
            | Problem::RowsNotAsked
            | Problem::NegativePts { .. }
            | Problem::FrameOnCoded
            | Problem::CodedOnRaw
            | Problem::GeometryMissing { .. } => ErrorKind::Unsupported,
            _ => ErrorKind::Format,
        }
    }

    /// What happened, in words, naming a codec tag where the problem is with
    /// a stream of one.
    pub open spec fn text(self, tag: Seq<u8>) -> Seq<char> {
        let start = Seq::<char>::empty();
        match self {
            Problem::VarintOverflow { at } => start
                + "NUT variable-length integer ending at byte "@ + decimal(at as nat)
                + " overflows 64 bits"@,
            Problem::VarintTooLong { at } => start + "NUT variable-length integer at byte "@
                + decimal(at as nat) + " runs past 10 bytes"@,
            Problem::SignedOverflow { at } => start + "NUT signed integer at byte "@
                + decimal(at as nat) + " overflows 64 bits"@,
            Problem::ByteString { what, len } => start + "NUT "@ + what.spec_name() + " claims "@
                + decimal(len as nat) + " bytes, more than 1048576"@,
            Problem::EndsMidField { at } => start + "NUT stream ends mid-field at byte "@
                + decimal(at as nat),
            Problem::EndsInside { what, want, got } => start + "NUT stream ends inside "@
                + what.spec_name() + ": got "@ + decimal(got as nat) + " of "@
                + decimal(want as nat) + " bytes"@,
            Problem::SkipEnds { what, short } => start + "NUT stream ends inside "@
                + what.spec_name() + ": "@ + decimal(short as nat) + " bytes short"@,
            Problem::FrameEnds { got, want } => start + "NUT stream ends inside a frame: got "@
                + decimal(got as nat) + " of "@ + decimal(want as nat) + " bytes"@,
            Problem::IdentifierEnds { got } => start
                + "NUT stream ends inside the NUT identifier: got "@ + decimal(got as nat)
                + " of 25 bytes"@,
            Problem::NotNut => start
                + "input is not NUT: it does not begin with the NUT identifier"@,
            Problem::PacketTooShort { len, what } => start + "NUT packet is "@
                + decimal(len as nat) + " bytes, too short to hold its checksum ("@
                + what.spec_name() + ")"@,
            Problem::PacketTooWide { len, max, what } => start + "NUT packet claims "@
                + decimal(len as nat) + " bytes, more than "@ + decimal(max as nat) + " ("@
                + what.spec_name() + ")"@,
            Problem::PacketChecksum { computed, carried, what } => start
                + "NUT packet checksum is "@ + "0x"@ + hex(computed as nat, 8) + ", not the "@
                + "0x"@ + hex(carried as nat, 8) + " it carries ("@ + what.spec_name() + ")"@,
            Problem::Buffered { held, max } => start + "NUT parser holds "@ + decimal(held as nat)
                + " bytes of one unfinished packet, more than "@ + decimal(max as nat),
            Problem::Version { version } => start + "NUT input is version "@
                + decimal(version as nat) + "; this wire speaks version 3"@,
            Problem::StreamsDeclared { count } => start + "NUT main header declares "@
                + decimal(count as nat) + " streams"@,
            Problem::TimeBasesDeclared { count } => start + "NUT main header declares "@
                + decimal(count as nat) + " time bases"@,
            Problem::TimeBaseNotARate { num, den } => start + "NUT time base "@
                + decimal(num as nat) + "/"@ + decimal(den as nat) + " is not a rate"@,
            Problem::FrameCodeGroups => start
                + "NUT main header describes its framecode table in more than 256 groups"@,
            Problem::FrameCodeFields { fields } => start + "NUT framecode group declares "@
                + decimal(fields as nat) + " fields"@,
            Problem::ElisionHeaders { count } => start + "NUT main header declares "@
                + decimal(count as nat) + " elision headers"@,
            Problem::ElisionHeader { index, len } => start + "NUT elision header "@
                + decimal(index as nat) + " is "@ + decimal(len as nat) + " bytes"@,
            Problem::StreamBeforeMain => start
                + "NUT input has a stream header before its main header"@,
            Problem::StreamUndeclared { id } => start + "NUT stream header is for stream "@
                + decimal(id as nat) + ", which the main header does not declare"@,
            Problem::TimeBaseUndeclared { id } => start + "NUT stream header names time base "@
                + decimal(id as nat) + ", which the main header does not declare"@,
            Problem::PtsShift { bits } => start + "NUT stream header shifts PTS by "@
                + decimal(bits as nat) + " bits"@,
            Problem::DecodeDelay { delay } => start + "NUT stream reorders frames by "@
                + decimal(delay as nat) + ", deeper than the 16 this wire carries"@,
            Problem::RawReorder { delay } => start + "NUT stream of "@ + printable_tag(tag)
                + " declares decode delay "@ + decimal(delay as nat)
                + "; only an encoded stream reorders frames"@,
            Problem::FrameSize { width, height } => start + "NUT stream header gives frame size "@
                + decimal(width as nat) + "x"@ + decimal(height as nat),
            Problem::WidthTooLarge { width } => start + "NUT frame width "@ + decimal(width as nat)
                + " is too large"@,
            Problem::HeightTooLarge { height } => start + "NUT frame height "@
                + decimal(height as nat) + " is too large"@,
            Problem::FractionalRate { num, den } => start
                + "NUT audio stream declares sample rate "@ + decimal(num as nat) + "/"@
                + decimal(den as nat) + "; this wire carries whole rates"@,
            Problem::NoChannels { channels } => start + "NUT audio stream declares "@
                + decimal(channels as nat) + " channels"@,
            Problem::RateTooLarge { num, den } => start + "NUT sample rate "@ + decimal(num as nat)
                + "/"@ + decimal(den as nat) + " is too large"@,
            Problem::ChannelsTooLarge { channels } => start + "NUT channel count "@
                + decimal(channels as nat) + " is too large"@,
            Problem::SyncpointBeforeMain => start
                + "NUT input has a syncpoint before its main header"@,
            Problem::SyncpointOverflow => start + "NUT syncpoint timestamp overflows 64 bits"@,
            Problem::FrameBeforeHeaders => start
                + "NUT input has a frame before its stream header"@,
            Problem::FrameCodeInvalid { byte } => start + "NUT frame header byte "@
                + decimal(byte as nat) + " is not a framecode the main header defines"@,
            Problem::FrameStreamUndeclared { id } => start + "NUT frame belongs to stream "@
                + decimal(id as nat) + ", which the main header does not declare"@,
            Problem::PtsOverflow => start + "NUT frame PTS overflows 64 bits"@,
            Problem::SizeOverflow => start + "NUT frame size overflows 64 bits"@,
            Problem::ElisionUndeclared { index } => start
                + "NUT frame elides its first bytes into header "@ + decimal(index as nat)
                + ", which the main header does not declare"@,
            Problem::ReservedFields { count } => start + "NUT frame header declares "@
                + decimal(count as nat) + " reserved fields"@,
            Problem::SideData => start
                + "NUT frame carries side data, which NUT version 3 does not define"@,
            Problem::FrameChecksum { computed, carried } => start
                + "NUT frame header checksum is "@ + "0x"@ + hex(computed as nat, 8)
                + ", not the "@ + "0x"@ + hex(carried as nat, 8) + " it carries"@,
            Problem::ElidesPastEnd { size, elided } => start + "NUT frame of "@
                + decimal(size as nat) + " bytes elides a "@ + decimal(elided as nat)
                + " byte header, which does not fit in it"@,
            Problem::FrameTooLarge { size, ceiling } => start + "NUT frame claims "@
                + decimal(size as nat) + " bytes, more than "@ + decimal(ceiling as nat),
            Problem::NotAdts => start
                + "ADTS packet does not start with the syncword its stream opened with"@,
            Problem::AdtsPacked { frames } => start + "ADTS header packs "@
                + decimal(frames as nat)
                + " AAC frames behind one header; splitting a packed frame is not implemented"@,
            Problem::AdtsLength { len, frame_length } => start + "ADTS packet is "@
                + decimal(len as nat) + " bytes but its header claims one frame of "@
                + decimal(frame_length as nat)
                + "; a packet carrying more than one ADTS frame is refused rather than split, since NUT coded it a single PTS"@,
            Problem::RestatesEarly => start
                + "NUT input restates its headers before its first frame; this wire carries one stream with one set of headers"@,
            Problem::RestatesMidStream => start
                + "NUT input restates its headers mid-stream; this wire carries one stream with one set of headers"@,
            Problem::SecondMainHeader => start + "NUT input has a second main header"@,
            Problem::StreamsAnnotated { count } => start + "NUT input carries "@
                + decimal(count as nat)
                + " streams; this wire carries a video stream and an annotation stream"@,
            Problem::StreamsPlain { count } => start + "NUT input carries "@
                + decimal(count as nat) + " streams; this wire carries one"@,
            Problem::SecondMedia => start
                + "NUT input carries more than one media stream; this wire carries one"@,
            Problem::EndsBeforeStream => start + "NUT input ends before its stream header"@,
            Problem::MediaClass { class } => start + "NUT input carries stream class "@
                + decimal(class as nat) + " codec "@ + printable_tag(tag)
                + "; this wire carries video (class 0), audio (class 1) and JSON messages (class 3, codec JSON)"@,
            Problem::AnnotationClass { class } => start + "NUT stream 1 carries class "@
                + decimal(class as nat) + " codec "@ + printable_tag(tag)
                + "; the annotation stream is class 3 codec FRWD"@,
            Problem::RowsUnclaimed => start
                + "NUT annotation stream has 1024 packets no frame claimed; its timestamps do not match the video's"@,
            Problem::RowsNotUtf8 { pts } => start + "NUT annotation packet at PTS "@
                + signed(pts as int) + " is not UTF-8"@,
            Problem::SecondTrailing => start
                + "NUT annotation stream carries a second trailing record; there is one"@,
            Problem::RowNotOneLine { row } => start + "NUT annotation row "@ + decimal(row as nat)
                + " is not one line, which is what a row is written as"@,
            Problem::RowsNotAsked => start
                + "NUT output declares no annotation stream for rows to ride on"@,
            Problem::RowsTooLong { len } => start + "NUT annotation packet is "@
                + decimal(len as nat) + " bytes, more than 1048576"@,
            Problem::TrailingNotJson => start
                + "NUT trailing rows are not JSON, so there is no record for them to ride in"@,
            Problem::NegativePts { pts } => start + "NUT frame has negative PTS "@
                + signed(pts as int) + ", which this wire does not carry"@,
            Problem::FrameOnCoded => start + "NUT stream of "@ + printable_tag(tag)
                + " is encoded; its packets are written with write_coded"@,
            Problem::CodedOnRaw => start + "NUT stream of "@ + printable_tag(tag)
                + " is raw; its frames are written with write_frame"@,
            Problem::GeometryMissing { class } => start + "NUT stream class "@
                + decimal(class as nat) + " is written with a geometry this stream does not have"@,
        }
    }
}

/// What happened, in words.
fn told(problem: Problem, tag: &[u8]) -> (out: String)
    ensures
        out@ == problem.text(tag@),
{
    let mut out = String::new();
    match problem {
        Problem::VarintOverflow { at } => {
            out.append("NUT variable-length integer ending at byte ");
            put_decimal(&mut out, at);
            out.append(" overflows 64 bits");
        },
        Problem::VarintTooLong { at } => {
            out.append("NUT variable-length integer at byte ");
            put_decimal(&mut out, at);
            out.append(" runs past 10 bytes");
        },
        Problem::SignedOverflow { at } => {
            out.append("NUT signed integer at byte ");
            put_decimal(&mut out, at);
            out.append(" overflows 64 bits");
        },
        Problem::ByteString { what, len } => {
            out.append("NUT ");
            out.append(what.name());
            out.append(" claims ");
            put_decimal(&mut out, len);
            out.append(" bytes, more than 1048576");
        },
        Problem::EndsMidField { at } => {
            out.append("NUT stream ends mid-field at byte ");
            put_decimal(&mut out, at);
        },
        Problem::EndsInside { what, want, got } => {
            out.append("NUT stream ends inside ");
            out.append(what.name());
            out.append(": got ");
            put_decimal(&mut out, got);
            out.append(" of ");
            put_decimal(&mut out, want);
            out.append(" bytes");
        },
        Problem::SkipEnds { what, short } => {
            out.append("NUT stream ends inside ");
            out.append(what.name());
            out.append(": ");
            put_decimal(&mut out, short);
            out.append(" bytes short");
        },
        Problem::FrameEnds { got, want } => {
            out.append("NUT stream ends inside a frame: got ");
            put_decimal(&mut out, got);
            out.append(" of ");
            put_decimal(&mut out, want);
            out.append(" bytes");
        },
        Problem::IdentifierEnds { got } => {
            out.append("NUT stream ends inside the NUT identifier: got ");
            put_decimal(&mut out, got);
            out.append(" of 25 bytes");
        },
        Problem::NotNut => out.append("input is not NUT: it does not begin with the NUT identifier"),
        Problem::PacketTooShort { len, what } => {
            out.append("NUT packet is ");
            put_decimal(&mut out, len);
            out.append(" bytes, too short to hold its checksum (");
            out.append(what.name());
            out.append(")");
        },
        Problem::PacketTooWide { len, max, what } => {
            out.append("NUT packet claims ");
            put_decimal(&mut out, len);
            out.append(" bytes, more than ");
            put_decimal(&mut out, max);
            out.append(" (");
            out.append(what.name());
            out.append(")");
        },
        Problem::PacketChecksum { computed, carried, what } => {
            out.append("NUT packet checksum is ");
            put_hex(&mut out, computed);
            out.append(", not the ");
            put_hex(&mut out, carried);
            out.append(" it carries (");
            out.append(what.name());
            out.append(")");
        },
        Problem::Buffered { held, max } => {
            out.append("NUT parser holds ");
            put_decimal(&mut out, held);
            out.append(" bytes of one unfinished packet, more than ");
            put_decimal(&mut out, max);
        },
        Problem::Version { version } => {
            out.append("NUT input is version ");
            put_decimal(&mut out, version);
            out.append("; this wire speaks version 3");
        },
        Problem::StreamsDeclared { count } => {
            out.append("NUT main header declares ");
            put_decimal(&mut out, count);
            out.append(" streams");
        },
        Problem::TimeBasesDeclared { count } => {
            out.append("NUT main header declares ");
            put_decimal(&mut out, count);
            out.append(" time bases");
        },
        Problem::TimeBaseNotARate { num, den } => {
            out.append("NUT time base ");
            put_decimal(&mut out, num);
            out.append("/");
            put_decimal(&mut out, den);
            out.append(" is not a rate");
        },
        Problem::FrameCodeGroups => out.append("NUT main header describes its framecode table in more than 256 groups"),
        Problem::FrameCodeFields { fields } => {
            out.append("NUT framecode group declares ");
            put_decimal(&mut out, fields);
            out.append(" fields");
        },
        Problem::ElisionHeaders { count } => {
            out.append("NUT main header declares ");
            put_decimal(&mut out, count);
            out.append(" elision headers");
        },
        Problem::ElisionHeader { index, len } => {
            out.append("NUT elision header ");
            put_decimal(&mut out, index);
            out.append(" is ");
            put_decimal(&mut out, len);
            out.append(" bytes");
        },
        Problem::StreamBeforeMain => out.append("NUT input has a stream header before its main header"),
        Problem::StreamUndeclared { id } => {
            out.append("NUT stream header is for stream ");
            put_decimal(&mut out, id);
            out.append(", which the main header does not declare");
        },
        Problem::TimeBaseUndeclared { id } => {
            out.append("NUT stream header names time base ");
            put_decimal(&mut out, id);
            out.append(", which the main header does not declare");
        },
        Problem::PtsShift { bits } => {
            out.append("NUT stream header shifts PTS by ");
            put_decimal(&mut out, bits);
            out.append(" bits");
        },
        Problem::DecodeDelay { delay } => {
            out.append("NUT stream reorders frames by ");
            put_decimal(&mut out, delay);
            out.append(", deeper than the 16 this wire carries");
        },
        Problem::RawReorder { delay } => {
            out.append("NUT stream of ");
            put_tag(&mut out, tag);
            out.append(" declares decode delay ");
            put_decimal(&mut out, delay);
            out.append("; only an encoded stream reorders frames");
        },
        Problem::FrameSize { width, height } => {
            out.append("NUT stream header gives frame size ");
            put_decimal(&mut out, width);
            out.append("x");
            put_decimal(&mut out, height);
        },
        Problem::WidthTooLarge { width } => {
            out.append("NUT frame width ");
            put_decimal(&mut out, width);
            out.append(" is too large");
        },
        Problem::HeightTooLarge { height } => {
            out.append("NUT frame height ");
            put_decimal(&mut out, height);
            out.append(" is too large");
        },
        Problem::FractionalRate { num, den } => {
            out.append("NUT audio stream declares sample rate ");
            put_decimal(&mut out, num);
            out.append("/");
            put_decimal(&mut out, den);
            out.append("; this wire carries whole rates");
        },
        Problem::NoChannels { channels } => {
            out.append("NUT audio stream declares ");
            put_decimal(&mut out, channels);
            out.append(" channels");
        },
        Problem::RateTooLarge { num, den } => {
            out.append("NUT sample rate ");
            put_decimal(&mut out, num);
            out.append("/");
            put_decimal(&mut out, den);
            out.append(" is too large");
        },
        Problem::ChannelsTooLarge { channels } => {
            out.append("NUT channel count ");
            put_decimal(&mut out, channels);
            out.append(" is too large");
        },
        Problem::SyncpointBeforeMain => out.append("NUT input has a syncpoint before its main header"),
        Problem::SyncpointOverflow => out.append("NUT syncpoint timestamp overflows 64 bits"),
        Problem::FrameBeforeHeaders => out.append("NUT input has a frame before its stream header"),
        Problem::FrameCodeInvalid { byte } => {
            out.append("NUT frame header byte ");
            put_decimal(&mut out, byte as u64);
            out.append(" is not a framecode the main header defines");
        },
        Problem::FrameStreamUndeclared { id } => {
            out.append("NUT frame belongs to stream ");
            put_decimal(&mut out, id);
            out.append(", which the main header does not declare");
        },
        Problem::PtsOverflow => out.append("NUT frame PTS overflows 64 bits"),
        Problem::SizeOverflow => out.append("NUT frame size overflows 64 bits"),
        Problem::ElisionUndeclared { index } => {
            out.append("NUT frame elides its first bytes into header ");
            put_decimal(&mut out, index);
            out.append(", which the main header does not declare");
        },
        Problem::ReservedFields { count } => {
            out.append("NUT frame header declares ");
            put_decimal(&mut out, count);
            out.append(" reserved fields");
        },
        Problem::SideData => out.append("NUT frame carries side data, which NUT version 3 does not define"),
        Problem::FrameChecksum { computed, carried } => {
            out.append("NUT frame header checksum is ");
            put_hex(&mut out, computed);
            out.append(", not the ");
            put_hex(&mut out, carried);
            out.append(" it carries");
        },
        Problem::ElidesPastEnd { size, elided } => {
            out.append("NUT frame of ");
            put_decimal(&mut out, size);
            out.append(" bytes elides a ");
            put_decimal(&mut out, elided);
            out.append(" byte header, which does not fit in it");
        },
        Problem::FrameTooLarge { size, ceiling } => {
            out.append("NUT frame claims ");
            put_decimal(&mut out, size);
            out.append(" bytes, more than ");
            put_decimal(&mut out, ceiling);
        },
        Problem::NotAdts => out.append("ADTS packet does not start with the syncword its stream opened with"),
        Problem::AdtsPacked { frames } => {
            out.append("ADTS header packs ");
            put_decimal(&mut out, frames as u64);
            out.append(" AAC frames behind one header; splitting a packed frame is not implemented");
        },
        Problem::AdtsLength { len, frame_length } => {
            out.append("ADTS packet is ");
            put_decimal(&mut out, len);
            out.append(" bytes but its header claims one frame of ");
            put_decimal(&mut out, frame_length);
            out.append("; a packet carrying more than one ADTS frame is refused rather than split, since NUT coded it a single PTS");
        },
        Problem::RestatesEarly => out.append("NUT input restates its headers before its first frame; this wire carries one stream with one set of headers"),
        Problem::RestatesMidStream => out.append("NUT input restates its headers mid-stream; this wire carries one stream with one set of headers"),
        Problem::SecondMainHeader => out.append("NUT input has a second main header"),
        Problem::StreamsAnnotated { count } => {
            out.append("NUT input carries ");
            put_decimal(&mut out, count);
            out.append(" streams; this wire carries a video stream and an annotation stream");
        },
        Problem::StreamsPlain { count } => {
            out.append("NUT input carries ");
            put_decimal(&mut out, count);
            out.append(" streams; this wire carries one");
        },
        Problem::SecondMedia => out.append("NUT input carries more than one media stream; this wire carries one"),
        Problem::EndsBeforeStream => out.append("NUT input ends before its stream header"),
        Problem::MediaClass { class } => {
            out.append("NUT input carries stream class ");
            put_decimal(&mut out, class);
            out.append(" codec ");
            put_tag(&mut out, tag);
            out.append("; this wire carries video (class 0), audio (class 1) and JSON messages (class 3, codec JSON)");
        },
        Problem::AnnotationClass { class } => {
            out.append("NUT stream 1 carries class ");
            put_decimal(&mut out, class);
            out.append(" codec ");
            put_tag(&mut out, tag);
            out.append("; the annotation stream is class 3 codec FRWD");
        },
        Problem::RowsUnclaimed => out.append("NUT annotation stream has 1024 packets no frame claimed; its timestamps do not match the video's"),
        Problem::RowsNotUtf8 { pts } => {
            out.append("NUT annotation packet at PTS ");
            put_signed(&mut out, pts);
            out.append(" is not UTF-8");
        },
        Problem::SecondTrailing => out.append("NUT annotation stream carries a second trailing record; there is one"),
        Problem::RowNotOneLine { row } => {
            out.append("NUT annotation row ");
            put_decimal(&mut out, row);
            out.append(" is not one line, which is what a row is written as");
        },
        Problem::RowsNotAsked => out.append("NUT output declares no annotation stream for rows to ride on"),
        Problem::RowsTooLong { len } => {
            out.append("NUT annotation packet is ");
            put_decimal(&mut out, len);
            out.append(" bytes, more than 1048576");
        },
        Problem::TrailingNotJson => out.append("NUT trailing rows are not JSON, so there is no record for them to ride in"),
        Problem::NegativePts { pts } => {
            out.append("NUT frame has negative PTS ");
            put_signed(&mut out, pts);
            out.append(", which this wire does not carry");
        },
        Problem::FrameOnCoded => {
            out.append("NUT stream of ");
            put_tag(&mut out, tag);
            out.append(" is encoded; its packets are written with write_coded");
        },
        Problem::CodedOnRaw => {
            out.append("NUT stream of ");
            put_tag(&mut out, tag);
            out.append(" is raw; its frames are written with write_frame");
        },
        Problem::GeometryMissing { class } => {
            out.append("NUT stream class ");
            put_decimal(&mut out, class);
            out.append(" is written with a geometry this stream does not have");
        },
    }
    out
}

/// An error from reading or writing NUT.
#[derive(Debug, PartialEq, Eq)]
pub struct Error {
    problem: Problem,
    /// The codec tag the message names, where it names one.
    tag: Vec<u8>,
}

/// An error as a value.
#[verifier::ext_equal]
pub struct ErrorV {
    pub problem: Problem,
    pub tag: Seq<u8>,
}

impl View for Error {
    type V = ErrorV;

    closed spec fn view(&self) -> ErrorV {
        ErrorV { problem: self.problem, tag: self.tag@ }
    }
}

impl ErrorV {
    /// A problem whose message names no codec tag.
    pub open spec fn of(problem: Problem) -> ErrorV {
        ErrorV { problem, tag: Seq::empty() }
    }

    /// What a parse over a whole packet body stopped with: a field that runs
    /// off its end is a malformed packet rather than a slow wire.
    pub open spec fn halted(halt: Halt) -> ErrorV {
        ErrorV::of(halt.spec_ended())
    }
}

impl Error {
    /// A problem whose message names no codec tag.
    pub fn of(problem: Problem) -> (error: Error)
        ensures
            error@ == ErrorV::of(problem),
    {
        Error { problem, tag: Vec::new() }
    }

    /// A problem with a stream of this codec tag.
    pub fn about(problem: Problem, tag: Vec<u8>) -> (error: Error)
        ensures
            error@ == (ErrorV { problem, tag: tag@ }),
    {
        Error { problem, tag }
    }

    /// What a parse over a whole packet body stopped with.
    pub fn halted(halt: Halt) -> (error: Error)
        ensures
            error@ == ErrorV::halted(halt),
    {
        Error::of(halt.ended())
    }

    /// What sort of failure this is.
    pub fn kind(&self) -> (kind: ErrorKind)
        ensures
            kind == self@.problem.spec_kind(),
    {
        self.problem.kind()
    }

    /// What happened, in words.
    pub fn to_string(&self) -> (text: String)
        ensures
            text@ == self@.problem.text(self@.tag),
    {
        told(self.problem, self.tag.as_slice())
    }

    /// What is wrong.
    pub fn problem(&self) -> (problem: Problem)
        ensures
            problem == self@.problem,
    {
        self.problem
    }
}

} // verus!
