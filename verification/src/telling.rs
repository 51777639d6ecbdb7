//! What a refusal tells: its kind, and the numbers its message puts in words.

use vstd::prelude::*;

use crate::error::{ErrorKind, ErrorV, Halt, Need, Part, Problem};
use crate::stream::printable_tag;
use crate::text::{decimal, hex, signed};

verus! {

/// Whether a message has some words in it.
pub open spec fn says(text: Seq<char>, words: Seq<char>) -> bool {
    exists|before: Seq<char>, after: Seq<char>| text == #[trigger] (before + words + after)
}

proof fn lemma_says(text: Seq<char>, before: Seq<char>, words: Seq<char>, after: Seq<char>)
    requires
        text == before + words + after,
    ensures
        says(text, words),
{
}

/// A message that sets two numbers against each other says each in its own
/// place: what there is against what there should be, what was claimed against
/// what may be, what was computed against what was carried.
pub proof fn lemma_numbers_told(problem: Problem, tag: Seq<u8>)
    ensures
        ({
            let text = problem.text(tag);
            match problem {
                Problem::EndsInside { want, got, .. } => says(
                    text,
                    decimal(got as nat) + " of "@ + decimal(want as nat) + " bytes"@,
                ),
                Problem::FrameEnds { got, want } => says(
                    text,
                    decimal(got as nat) + " of "@ + decimal(want as nat) + " bytes"@,
                ),
                Problem::PacketTooWide { len, max, .. } => says(
                    text,
                    decimal(len as nat) + " bytes, more than "@ + decimal(max as nat),
                ),
                Problem::FrameTooLarge { size, ceiling } => says(
                    text,
                    decimal(size as nat) + " bytes, more than "@ + decimal(ceiling as nat),
                ),
                Problem::Buffered { held, max } => says(
                    text,
                    decimal(held as nat) + " bytes of one unfinished packet, more than "@ + decimal(
                        max as nat,
                    ),
                ),
                Problem::PacketChecksum { computed, carried, .. } => says(
                    text,
                    hex(computed as nat, 8) + ", not the "@ + "0x"@ + hex(carried as nat, 8)
                        + " it carries ("@,
                ),
                Problem::FrameChecksum { computed, carried } => says(
                    text,
                    hex(computed as nat, 8) + ", not the "@ + "0x"@ + hex(carried as nat, 8)
                        + " it carries"@,
                ),
                Problem::TimeBaseNotARate { num, den } => says(
                    text,
                    decimal(num as nat) + "/"@ + decimal(den as nat),
                ),
                Problem::FractionalRate { num, den } => says(
                    text,
                    decimal(num as nat) + "/"@ + decimal(den as nat),
                ),
                Problem::RateTooLarge { num, den } => says(
                    text,
                    decimal(num as nat) + "/"@ + decimal(den as nat),
                ),
                Problem::FrameSize { width, height } => says(
                    text,
                    decimal(width as nat) + "x"@ + decimal(height as nat),
                ),
                Problem::ElisionHeader { index, len } => says(
                    text,
                    decimal(index as nat) + " is "@ + decimal(len as nat) + " bytes"@,
                ),
                Problem::ElidesPastEnd { size, elided } => says(
                    text,
                    decimal(size as nat) + " bytes elides a "@ + decimal(elided as nat)
                        + " byte header, which does not fit in it"@,
                ),
                Problem::AdtsLength { len, frame_length } => says(
                    text,
                    decimal(len as nat) + " bytes but its header claims one frame of "@ + decimal(
                        frame_length as nat,
                    ),
                ),
                _ => true,
            }
        }),
{
    let text = problem.text(tag);
    let none = Seq::<char>::empty();
    match problem {
        Problem::EndsInside { what, want, got } => {
            let before = "NUT stream ends inside "@ + what.spec_name() + ": got "@;
            let words = decimal(got as nat) + " of "@ + decimal(want as nat) + " bytes"@;
            assert(text =~= before + words + none);
            lemma_says(text, before, words, none);
        },
        Problem::FrameEnds { got, want } => {
            let before = "NUT stream ends inside a frame: got "@;
            let words = decimal(got as nat) + " of "@ + decimal(want as nat) + " bytes"@;
            assert(text =~= before + words + none);
            lemma_says(text, before, words, none);
        },
        Problem::PacketTooWide { len, max, what } => {
            let before = "NUT packet claims "@;
            let words = decimal(len as nat) + " bytes, more than "@ + decimal(max as nat);
            let after = " ("@ + what.spec_name() + ")"@;
            assert(text =~= before + words + after);
            lemma_says(text, before, words, after);
        },
        Problem::FrameTooLarge { size, ceiling } => {
            let before = "NUT frame claims "@;
            let words = decimal(size as nat) + " bytes, more than "@ + decimal(ceiling as nat);
            assert(text =~= before + words + none);
            lemma_says(text, before, words, none);
        },
        Problem::Buffered { held, max } => {
            let before = "NUT parser holds "@;
            let words = decimal(held as nat) + " bytes of one unfinished packet, more than "@
                + decimal(max as nat);
            assert(text =~= before + words + none);
            lemma_says(text, before, words, none);
        },
        Problem::PacketChecksum { computed, carried, what } => {
            let before = "NUT packet checksum is "@ + "0x"@;
            let words = hex(computed as nat, 8) + ", not the "@ + "0x"@ + hex(carried as nat, 8)
                + " it carries ("@;
            let after = what.spec_name() + ")"@;
            assert(text =~= before + words + after);
            lemma_says(text, before, words, after);
        },
        Problem::FrameChecksum { computed, carried } => {
            let before = "NUT frame header checksum is "@ + "0x"@;
            let words = hex(computed as nat, 8) + ", not the "@ + "0x"@ + hex(carried as nat, 8)
                + " it carries"@;
            assert(text =~= before + words + none);
            lemma_says(text, before, words, none);
        },
        Problem::TimeBaseNotARate { num, den } => {
            let before = "NUT time base "@;
            let words = decimal(num as nat) + "/"@ + decimal(den as nat);
            let after = " is not a rate"@;
            assert(text =~= before + words + after);
            lemma_says(text, before, words, after);
        },
        Problem::FractionalRate { num, den } => {
            let before = "NUT audio stream declares sample rate "@;
            let words = decimal(num as nat) + "/"@ + decimal(den as nat);
            let after = "; this wire carries whole rates"@;
            assert(text =~= before + words + after);
            lemma_says(text, before, words, after);
        },
        Problem::RateTooLarge { num, den } => {
            let before = "NUT sample rate "@;
            let words = decimal(num as nat) + "/"@ + decimal(den as nat);
            let after = " is too large"@;
            assert(text =~= before + words + after);
            lemma_says(text, before, words, after);
        },
        Problem::FrameSize { width, height } => {
            let before = "NUT stream header gives frame size "@;
            let words = decimal(width as nat) + "x"@ + decimal(height as nat);
            assert(text =~= before + words + none);
            lemma_says(text, before, words, none);
        },
        Problem::ElisionHeader { index, len } => {
            let before = "NUT elision header "@;
            let words = decimal(index as nat) + " is "@ + decimal(len as nat) + " bytes"@;
            assert(text =~= before + words + none);
            lemma_says(text, before, words, none);
        },
        Problem::ElidesPastEnd { size, elided } => {
            let before = "NUT frame of "@;
            let words = decimal(size as nat) + " bytes elides a "@ + decimal(elided as nat)
                + " byte header, which does not fit in it"@;
            assert(text =~= before + words + none);
            lemma_says(text, before, words, none);
        },
        Problem::AdtsLength { len, frame_length } => {
            let before = "ADTS packet is "@;
            let words = decimal(len as nat) + " bytes but its header claims one frame of "@
                + decimal(frame_length as nat);
            let after =
                "; a packet carrying more than one ADTS frame is refused rather than split, since NUT coded it a single PTS"@;
            assert(text =~= before + words + after);
            lemma_says(text, before, words, after);
        },
        _ => {},
    }
}

/// A message about one number says it, in decimal.
pub proof fn lemma_number_told(problem: Problem, tag: Seq<u8>)
    ensures
        ({
            let text = problem.text(tag);
            match problem {
                Problem::VarintOverflow { at } => says(text, decimal(at as nat)),
                Problem::VarintTooLong { at } => says(text, decimal(at as nat)),
                Problem::SignedOverflow { at } => says(text, decimal(at as nat)),
                Problem::ByteString { len, .. } => says(text, decimal(len as nat)),
                Problem::EndsMidField { at } => says(text, decimal(at as nat)),
                Problem::SkipEnds { short, .. } => says(text, decimal(short as nat)),
                Problem::IdentifierEnds { got } => says(text, decimal(got as nat)),
                Problem::PacketTooShort { len, .. } => says(text, decimal(len as nat)),
                Problem::Version { version } => says(text, decimal(version as nat)),
                Problem::StreamsDeclared { count } => says(text, decimal(count as nat)),
                Problem::TimeBasesDeclared { count } => says(text, decimal(count as nat)),
                Problem::FrameCodeFields { fields } => says(text, decimal(fields as nat)),
                Problem::ElisionHeaders { count } => says(text, decimal(count as nat)),
                Problem::StreamUndeclared { id } => says(text, decimal(id as nat)),
                Problem::TimeBaseUndeclared { id } => says(text, decimal(id as nat)),
                Problem::PtsShift { bits } => says(text, decimal(bits as nat)),
                Problem::DecodeDelay { delay } => says(text, decimal(delay as nat)),
                Problem::RawReorder { delay } => says(text, decimal(delay as nat)),
                Problem::WidthTooLarge { width } => says(text, decimal(width as nat)),
                Problem::HeightTooLarge { height } => says(text, decimal(height as nat)),
                Problem::NoChannels { channels } => says(text, decimal(channels as nat)),
                Problem::ChannelsTooLarge { channels } => says(text, decimal(channels as nat)),
                Problem::FrameCodeInvalid { byte } => says(text, decimal(byte as nat)),
                Problem::FrameStreamUndeclared { id } => says(text, decimal(id as nat)),
                Problem::ElisionUndeclared { index } => says(text, decimal(index as nat)),
                Problem::ReservedFields { count } => says(text, decimal(count as nat)),
                Problem::AdtsPacked { frames } => says(text, decimal(frames as nat)),
                Problem::StreamsAnnotated { count } => says(text, decimal(count as nat)),
                Problem::StreamsPlain { count } => says(text, decimal(count as nat)),
                Problem::MediaClass { class } => says(text, decimal(class as nat)),
                Problem::AnnotationClass { class } => says(text, decimal(class as nat)),
                Problem::RowsNotUtf8 { pts } => says(text, signed(pts as int)),
                Problem::RowNotOneLine { row } => says(text, decimal(row as nat)),
                Problem::RowsTooLong { len } => says(text, decimal(len as nat)),
                Problem::NegativePts { pts } => says(text, signed(pts as int)),
                Problem::GeometryMissing { class } => says(text, decimal(class as nat)),
                _ => true,
            }
        }),
{
    let text = problem.text(tag);
    let none = Seq::<char>::empty();
    match problem {
        Problem::VarintOverflow { at } => {
            let before = "NUT variable-length integer ending at byte "@;
            let words = decimal(at as nat);
            let after = " overflows 64 bits"@;
            assert(text =~= before + words + after);
            lemma_says(text, before, words, after);
        },
        Problem::VarintTooLong { at } => {
            let before = "NUT variable-length integer at byte "@;
            let words = decimal(at as nat);
            let after = " runs past 10 bytes"@;
            assert(text =~= before + words + after);
            lemma_says(text, before, words, after);
        },
        Problem::SignedOverflow { at } => {
            let before = "NUT signed integer at byte "@;
            let words = decimal(at as nat);
            let after = " overflows 64 bits"@;
            assert(text =~= before + words + after);
            lemma_says(text, before, words, after);
        },
        Problem::ByteString { len, what } => {
            let before = "NUT "@ + what.spec_name() + " claims "@;
            let words = decimal(len as nat);
            let after = " bytes, more than 1048576"@;
            assert(text =~= before + words + after);
            lemma_says(text, before, words, after);
        },
        Problem::EndsMidField { at } => {
            let before = "NUT stream ends mid-field at byte "@;
            let words = decimal(at as nat);
            let after = none;
            assert(text =~= before + words + after);
            lemma_says(text, before, words, after);
        },
        Problem::SkipEnds { short, what } => {
            let before = "NUT stream ends inside "@ + what.spec_name() + ": "@;
            let words = decimal(short as nat);
            let after = " bytes short"@;
            assert(text =~= before + words + after);
            lemma_says(text, before, words, after);
        },
        Problem::IdentifierEnds { got } => {
            let before = "NUT stream ends inside the NUT identifier: got "@;
            let words = decimal(got as nat);
            let after = " of 25 bytes"@;
            assert(text =~= before + words + after);
            lemma_says(text, before, words, after);
        },
        Problem::PacketTooShort { len, what } => {
            let before = "NUT packet is "@;
            let words = decimal(len as nat);
            let after = " bytes, too short to hold its checksum ("@ + what.spec_name() + ")"@;
            assert(text =~= before + words + after);
            lemma_says(text, before, words, after);
        },
        Problem::Version { version } => {
            let before = "NUT input is version "@;
            let words = decimal(version as nat);
            let after = "; this wire speaks version 3"@;
            assert(text =~= before + words + after);
            lemma_says(text, before, words, after);
        },
        Problem::StreamsDeclared { count } => {
            let before = "NUT main header declares "@;
            let words = decimal(count as nat);
            let after = " streams"@;
            assert(text =~= before + words + after);
            lemma_says(text, before, words, after);
        },
        Problem::TimeBasesDeclared { count } => {
            let before = "NUT main header declares "@;
            let words = decimal(count as nat);
            let after = " time bases"@;
            assert(text =~= before + words + after);
            lemma_says(text, before, words, after);
        },
        Problem::FrameCodeFields { fields } => {
            let before = "NUT framecode group declares "@;
            let words = decimal(fields as nat);
            let after = " fields"@;
            assert(text =~= before + words + after);
            lemma_says(text, before, words, after);
        },
        Problem::ElisionHeaders { count } => {
            let before = "NUT main header declares "@;
            let words = decimal(count as nat);
            let after = " elision headers"@;
            assert(text =~= before + words + after);
            lemma_says(text, before, words, after);
        },
        Problem::StreamUndeclared { id } => {
            let before = "NUT stream header is for stream "@;
            let words = decimal(id as nat);
            let after = ", which the main header does not declare"@;
            assert(text =~= before + words + after);
            lemma_says(text, before, words, after);
        },
        Problem::TimeBaseUndeclared { id } => {
            let before = "NUT stream header names time base "@;
            let words = decimal(id as nat);
            let after = ", which the main header does not declare"@;
            assert(text =~= before + words + after);
            lemma_says(text, before, words, after);
        },
        Problem::PtsShift { bits } => {
            let before = "NUT stream header shifts PTS by "@;
            let words = decimal(bits as nat);
            let after = " bits"@;
            assert(text =~= before + words + after);
            lemma_says(text, before, words, after);
        },
        Problem::DecodeDelay { delay } => {
            let before = "NUT stream reorders frames by "@;
            let words = decimal(delay as nat);
            let after = ", deeper than the 16 this wire carries"@;
            assert(text =~= before + words + after);
            lemma_says(text, before, words, after);
        },
        Problem::RawReorder { delay } => {
            let before = "NUT stream of "@ + printable_tag(tag) + " declares decode delay "@;
            let words = decimal(delay as nat);
            let after = "; only an encoded stream reorders frames"@;
            assert(text =~= before + words + after);
            lemma_says(text, before, words, after);
        },
        Problem::WidthTooLarge { width } => {
            let before = "NUT frame width "@;
            let words = decimal(width as nat);
            let after = " is too large"@;
            assert(text =~= before + words + after);
            lemma_says(text, before, words, after);
        },
        Problem::HeightTooLarge { height } => {
            let before = "NUT frame height "@;
            let words = decimal(height as nat);
            let after = " is too large"@;
            assert(text =~= before + words + after);
            lemma_says(text, before, words, after);
        },
        Problem::NoChannels { channels } => {
            let before = "NUT audio stream declares "@;
            let words = decimal(channels as nat);
            let after = " channels"@;
            assert(text =~= before + words + after);
            lemma_says(text, before, words, after);
        },
        Problem::ChannelsTooLarge { channels } => {
            let before = "NUT channel count "@;
            let words = decimal(channels as nat);
            let after = " is too large"@;
            assert(text =~= before + words + after);
            lemma_says(text, before, words, after);
        },
        Problem::FrameCodeInvalid { byte } => {
            let before = "NUT frame header byte "@;
            let words = decimal(byte as nat);
            let after = " is not a framecode the main header defines"@;
            assert(text =~= before + words + after);
            lemma_says(text, before, words, after);
        },
        Problem::FrameStreamUndeclared { id } => {
            let before = "NUT frame belongs to stream "@;
            let words = decimal(id as nat);
            let after = ", which the main header does not declare"@;
            assert(text =~= before + words + after);
            lemma_says(text, before, words, after);
        },
        Problem::ElisionUndeclared { index } => {
            let before = "NUT frame elides its first bytes into header "@;
            let words = decimal(index as nat);
            let after = ", which the main header does not declare"@;
            assert(text =~= before + words + after);
            lemma_says(text, before, words, after);
        },
        Problem::ReservedFields { count } => {
            let before = "NUT frame header declares "@;
            let words = decimal(count as nat);
            let after = " reserved fields"@;
            assert(text =~= before + words + after);
            lemma_says(text, before, words, after);
        },
        Problem::AdtsPacked { frames } => {
            let before = "ADTS header packs "@;
            let words = decimal(frames as nat);
            let after = 
                " AAC frames behind one header; splitting a packed frame is not implemented"@;
            assert(text =~= before + words + after);
            lemma_says(text, before, words, after);
        },
        Problem::StreamsAnnotated { count } => {
            let before = "NUT input carries "@;
            let words = decimal(count as nat);
            let after = " streams; this wire carries a video stream and an annotation stream"@;
            assert(text =~= before + words + after);
            lemma_says(text, before, words, after);
        },
        Problem::StreamsPlain { count } => {
            let before = "NUT input carries "@;
            let words = decimal(count as nat);
            let after = " streams; this wire carries one"@;
            assert(text =~= before + words + after);
            lemma_says(text, before, words, after);
        },
        Problem::MediaClass { class } => {
            let before = "NUT input carries stream class "@;
            let words = decimal(class as nat);
            let after = " codec "@
                + printable_tag(tag)
                + "; this wire carries video (class 0), audio (class 1) and JSON messages (class 3, codec JSON)"@;
            assert(text =~= before + words + after);
            lemma_says(text, before, words, after);
        },
        Problem::AnnotationClass { class } => {
            let before = "NUT stream 1 carries class "@;
            let words = decimal(class as nat);
            let after = " codec "@
                + printable_tag(tag)
                + "; the annotation stream is class 3 codec FRWD"@;
            assert(text =~= before + words + after);
            lemma_says(text, before, words, after);
        },
        Problem::RowsNotUtf8 { pts } => {
            let before = "NUT annotation packet at PTS "@;
            let words = signed(pts as int);
            let after = " is not UTF-8"@;
            assert(text =~= before + words + after);
            lemma_says(text, before, words, after);
        },
        Problem::RowNotOneLine { row } => {
            let before = "NUT annotation row "@;
            let words = decimal(row as nat);
            let after = " is not one line, which is what a row is written as"@;
            assert(text =~= before + words + after);
            lemma_says(text, before, words, after);
        },
        Problem::RowsTooLong { len } => {
            let before = "NUT annotation packet is "@;
            let words = decimal(len as nat);
            let after = " bytes, more than 1048576"@;
            assert(text =~= before + words + after);
            lemma_says(text, before, words, after);
        },
        Problem::NegativePts { pts } => {
            let before = "NUT frame has negative PTS "@;
            let words = signed(pts as int);
            let after = ", which this wire does not carry"@;
            assert(text =~= before + words + after);
            lemma_says(text, before, words, after);
        },
        Problem::GeometryMissing { class } => {
            let before = "NUT stream class "@;
            let words = decimal(class as nat);
            let after = " is written with a geometry this stream does not have"@;
            assert(text =~= before + words + after);
            lemma_says(text, before, words, after);
        },
        _ => {},
    }
}

/// Whether a refusal is one of size: past a limit a caller set, or past a bound
/// of this wire's own.
pub open spec fn past_limit(p: Problem) -> bool {
    ||| p is FrameTooLarge || p is PacketTooWide || p is Buffered || p is StreamsDeclared
    ||| p is TimeBasesDeclared || p is FrameCodeGroups || p is FrameCodeFields
    ||| p is ElisionHeaders || p is ElisionHeader || p is DecodeDelay || p is ReservedFields
    ||| p is ByteString || p is RowsUnclaimed || p is RowsTooLong
}

/// Whether a refusal is of something well formed that this wire does not
/// carry.
pub open spec fn not_carried(p: Problem) -> bool {
    ||| p is Version || p is RawReorder || p is FractionalRate || p is SideData || p is AdtsPacked
    ||| p is AdtsLength || p is RestatesMidStream || p is StreamsAnnotated || p is StreamsPlain
    ||| p is SecondMedia || p is MediaClass || p is AnnotationClass || p is RowNotOneLine
    ||| p is RowsNotAsked || p is NegativePts || p is FrameOnCoded || p is CodedOnRaw
    ||| p is GeometryMissing
}

/// A refusal of size is a limit; one of something this wire does not carry is
/// unsupported; and any other is a fault of the stream's format.
pub proof fn lemma_kinds(p: Problem)
    ensures
        p.spec_kind() == ErrorKind::Limit <==> past_limit(p),
        p.spec_kind() == ErrorKind::Unsupported <==> not_carried(p),
        p.spec_kind() == ErrorKind::Format <==> !past_limit(p) && !not_carried(p),
{
}

/// A parse that halts over a whole body is refused for what is wrong, or for
/// where its bytes end.
pub proof fn lemma_halts_told(problem: Problem, at: u64, what: Part, want: u64, got: u64)
    ensures
        ErrorV::halted(Halt::Bad(problem)) == ErrorV::of(problem),
        ErrorV::halted(Halt::Need(Need::Field { at })) == ErrorV::of(Problem::EndsMidField { at }),
        ErrorV::halted(Halt::Need(Need::Bytes { what, want, got })) == ErrorV::of(
            Problem::EndsInside { what, want, got },
        ),
        ErrorV::of(problem).problem == problem,
        ErrorV::of(problem).tag.len() == 0,
{
}

} // verus!
