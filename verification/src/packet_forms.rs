//! Packets as any writer may put them on the wire, and the ceilings they and
//! the frames are held to.

use vstd::prelude::*;

use crate::bytes::{
    be_bytes, holds_at, lemma_be_len, lemma_holds_between, lemma_holds_split, lemma_u64_round_trip,
    lemma_v_len, lemma_v_round_trip, spec_crc32, v_bytes,
};
use crate::demux::{
    frame_step, lemma_step_goes_down, lemma_step_wf, next, packet_step, rank, step, unit_step,
    with_ceiling, DemuxV, Limits, State, Step,
};
use crate::error::{ErrorV, Halt, Need, Part, Problem};
use crate::event::EventV;
use crate::forms::opt;
use crate::frame::{ceiling_for, lemma_frame_head};
use crate::packet::{lemma_packet_extends, opening, packet_at, part_of, unsealed, FrontV};
use crate::read::capped;
use crate::tables::STARTCODE_BYTE;

verus! {

/// A packet ahead of its body: its startcode, how long its body is, its
/// checksum and all, and, where that is past 4096 bytes, four bytes of
/// checksum over those two.
pub open spec fn packet_head(startcode: u64, len: u64, crc: Seq<u8>) -> Seq<u8> {
    be_bytes(startcode as nat, 8) + v_bytes(len as nat) + opt(len > 4096, crc)
}

/// The startcodes of the packets a reader cannot go on without: the main
/// header, a stream header and a syncpoint.
pub open spec fn vital(startcode: u64) -> bool {
    ||| startcode == 0x4E4D_7A56_1F5F_04AD
    ||| startcode == 0x4E53_1140_5BF2_F9DB
    ||| startcode == 0x4E4B_E4AD_EECA_4569
}

/// The startcode of an info packet.
pub open spec fn advisory(startcode: u64) -> bool {
    startcode == 0x4E49_AB68_B596_BA78
}

proof fn lemma_packet_head(bytes: Seq<u8>, base: int, startcode: u64, len: u64, crc: Seq<u8>)
    requires
        crc.len() == 4,
        holds_at(bytes, 0, packet_head(startcode, len, crc)),
    ensures
        len >= 4 ==> opening(bytes, base) == Ok::<((u64, u64), int), Halt>(
            ((startcode, len), packet_head(startcode, len, crc).len() as int),
        ),
        len < 4 ==> opening(bytes, base) == Err::<((u64, u64), int), Halt>(
            Halt::Bad(Problem::PacketTooShort { len, what: part_of(startcode) }),
        ),
{
    broadcast use {lemma_be_len, lemma_v_len};

    let code = be_bytes(startcode as nat, 8);
    let length = v_bytes(len as nat);
    lemma_holds_split(bytes, 0, code + length, opt(len > 4096, crc));
    lemma_holds_split(bytes, 0, code, length);
    lemma_u64_round_trip(startcode);
    lemma_v_round_trip(bytes, 8, base, len);
    reveal(holds_at);
    reveal(opt);
    assert(bytes.subrange(0, 8) == code);
}

/// A packet, whoever wrote it. One a reader cannot go on without is its body,
/// where the checksum behind the body is right; it is refused where that is
/// another, and where it is wider than may be held. An info packet is taken
/// the same, but one too wide is passed over, as is every packet of another
/// startcode, from behind its head, as long as it says it is. The checksum over
/// the head of a wide one is not looked at.
pub proof fn lemma_packet_form(
    bytes: Seq<u8>,
    base: int,
    startcode: u64,
    crc: Seq<u8>,
    body: Seq<u8>,
    carried: u32,
    max_header: u64,
)
    requires
        crc.len() == 4,
        body.len() + 4 <= u64::MAX,
        holds_at(
            bytes,
            0,
            packet_head(startcode, (body.len() + 4) as u64, crc) + (body + be_bytes(
                carried as nat,
                4,
            )),
        ),
    ensures
        ({
            let len = (body.len() + 4) as u64;
            let head = packet_head(startcode, len, crc).len() as int;
            let what = part_of(startcode);
            let got = packet_at(bytes, base, max_header);
            if vital(startcode) && len > max_header {
                got == Err::<(FrontV, int), Halt>(
                    Halt::Bad(Problem::PacketTooWide { len, max: max_header, what }),
                )
            } else if vital(startcode) || advisory(startcode) && len <= max_header {
                if carried == spec_crc32(body) {
                    got == Ok::<(FrontV, int), Halt>(
                        (FrontV::Body { startcode, body }, head + len),
                    )
                } else {
                    got == Err::<(FrontV, int), Halt>(
                        Halt::Bad(
                            Problem::PacketChecksum { computed: spec_crc32(body), carried, what },
                        ),
                    )
                }
            } else {
                got == Ok::<(FrontV, int), Halt>((FrontV::Passed { what, len }, head))
            }
        }),
{
    broadcast use lemma_be_len;

    let len = (body.len() + 4) as u64;
    let head = packet_head(startcode, len, crc);
    let tail = be_bytes(carried as nat, 4);
    let sealed = body + tail;
    lemma_holds_split(bytes, 0, head, sealed);
    lemma_packet_head(bytes, base, startcode, len, crc);
    reveal(holds_at);
    let at = head.len() as int;
    assert(bytes.subrange(at, at + len) == sealed);
    assert(sealed.take(sealed.len() - 4) =~= body);
    assert(sealed.skip(sealed.len() - 4) =~= tail);
    crate::bytes::lemma_u32_value(carried);
    assert(unsealed(sealed, part_of(startcode)) == if carried == spec_crc32(body) {
        Ok::<Seq<u8>, Problem>(body)
    } else {
        Err(
            Problem::PacketChecksum {
                computed: spec_crc32(body),
                carried,
                what: part_of(startcode),
            },
        )
    });
}

/// A packet too short for its own checksum is refused.
pub proof fn lemma_short_packet(
    bytes: Seq<u8>,
    base: int,
    startcode: u64,
    len: u64,
    max_header: u64,
)
    requires
        len < 4,
        holds_at(bytes, 0, be_bytes(startcode as nat, 8) + v_bytes(len as nat)),
    ensures
        packet_at(bytes, base, max_header) == Err::<(FrontV, int), Halt>(
            Halt::Bad(Problem::PacketTooShort { len, what: part_of(startcode) }),
        ),
{
    let crc = be_bytes(0, 4);
    lemma_be_len(0, 4);
    reveal(opt);
    assert(packet_head(startcode, len, crc) =~= be_bytes(startcode as nat, 8) + v_bytes(
        len as nat,
    ));
    lemma_packet_head(bytes, base, startcode, len, crc);
}

/// What a message calls a packet goes by its startcode, and every startcode
/// this crate reads has a name of its own.
pub proof fn lemma_part_names(startcode: u64)
    ensures
        part_of(startcode) == Part::MainHeader <==> startcode == 0x4E4D_7A56_1F5F_04AD,
        part_of(startcode) == Part::StreamHeader <==> startcode == 0x4E53_1140_5BF2_F9DB,
        part_of(startcode) == Part::Syncpoint <==> startcode == 0x4E4B_E4AD_EECA_4569,
        part_of(startcode) == Part::InfoPacket <==> startcode == 0x4E49_AB68_B596_BA78,
{
}

// What opens a stream.

/// The identifier a stream opens with is its 25 bytes, and nothing else is:
/// once there are that many, a parser goes on behind them or says the stream
/// is no NUT.
pub proof fn lemma_identifier(d: DemuxV, first: Seq<u8>, rest: Seq<u8>)
    requires
        d.state is Identifier,
        d.buf == first + rest,
        first.len() == 25,
    ensures
        first == "nut/multimedia container"@.map_values(|c: char| c as u8).push(0) ==> next(d)
            == next(DemuxV { state: State::Unit, buf: rest, pos: d.pos + 25, ..d }),
        first != "nut/multimedia container"@.map_values(|c: char| c as u8).push(0) ==> next(d) == (
            d,
            Err::<Option<EventV>, ErrorV>(ErrorV::of(Problem::NotNut)),
        ),
{
    reveal_strlit("nut/multimedia container");
    let words = "nut/multimedia container"@.map_values(|c: char| c as u8).push(0);
    assert(crate::FILE_ID@ =~= words);
    assert(d.buf.take(25) =~= first);
    assert(d.buf.skip(25) =~= rest);
    let after = DemuxV { state: State::Unit, buf: rest, pos: d.pos + 25, ..d };
    if first == words {
        assert(step(d) == Step::Go(after));
        assert(next(d) == next(after));
    }
}

// Ceilings.

/// A ceiling a caller sets is the one its stream has, whatever it had, and no
/// other stream's is touched.
pub proof fn lemma_ceiling_set(
    ceilings: Seq<Option<u64>>,
    stream: int,
    own: u64,
    max_frame: u64,
    other: int,
)
    requires
        0 <= stream,
        0 <= other,
    ensures
        ({
            let set = with_ceiling(ceilings, stream, own);
            &&& set[stream] == Some(own)
            &&& stream < set.len()
            &&& other != stream ==> ceiling_for(set, max_frame, other) == ceiling_for(
                ceilings,
                max_frame,
                other,
            )
            &&& own <= usize::MAX ==> ceiling_for(set, max_frame, stream) == if own < max_frame {
                own
            } else {
                ceiling_for(Seq::empty(), max_frame, stream)
            }
        }),
{
}

/// The parser a wire is opened with holds the frames of the annotation stream
/// to a mebibyte where it is asked for, and those of no other stream to less
/// than all of them.
pub proof fn lemma_opened_ceilings(asked: bool, limits: Limits, stream: int)
    requires
        0 <= stream,
    ensures
        ({
            let d = capped(asked, limits);
            let all = ceiling_for(Seq::empty(), limits.max_frame, stream);
            &&& d.limits == limits
            &&& ceiling_for(d.ceilings, limits.max_frame, stream) == if asked && stream == 1
                && all > 1048576 {
                1048576
            } else {
                all
            }
        }),
{
}

// Where the parser is.

/// A parser that needs more bytes waits for them where more may come and what
/// it holds is no more than may wait, and is refused everywhere else.
pub proof fn lemma_waits_where_it_may(d: DemuxV, ended: Problem)
    ensures
        d.more(ended) == if d.eof {
            Err::<Option<EventV>, ErrorV>(ErrorV::of(ended))
        } else if d.buf.len() <= d.limits.max_buffered {
            Ok(None)
        } else {
            Err(
                ErrorV::of(
                    Problem::Buffered {
                        held: d.buf.len() as u64,
                        max: d.limits.max_buffered as u64,
                    },
                ),
            )
        },
{
}

/// Whether a parser is another further on in the same bytes.
pub open spec fn further(d: DemuxV, after: DemuxV) -> bool {
    &&& 0 <= after.pos - d.pos <= d.buf.len()
    &&& after.buf == d.buf.skip(after.pos - d.pos)
    &&& after.limits == d.limits
    &&& after.ceilings == d.ceilings
    &&& after.eof == d.eof
}

/// A packet boundary moves a parser on in its bytes or leaves it there.
proof fn lemma_unit_further(d: DemuxV)
    requires
        d.state is Unit,
    ensures
        match step(d) {
            Step::Go(after) => further(d, after),
            Step::Stop(after, _) => further(d, after),
        },
{
    assert(d.buf.skip(0) =~= d.buf);
    if d.buf.len() > 0 {
        lemma_packet_extends(d.buf, Seq::empty(), d.pos, d.limits.max_header);
        lemma_frame_head(d.buf, d.pos, d.known, d.ceilings, d.limits.max_frame);
        if d.buf[0] == STARTCODE_BYTE {
            assert(step(d) == packet_step(d)) by {
                reveal(unit_step);
            }
        } else if d.known.ends() {
            assert(step(d) == Step::Stop(
                DemuxV { known: d.known.ended(), ..d },
                Ok::<Option<EventV>, ErrorV>(Some(EventV::EndOfHeaders)),
            )) by {
                reveal(unit_step);
            }
        } else {
            assert(step(d) == frame_step(d)) by {
                reveal(unit_step);
            }
        }
    } else {
        reveal(unit_step);
    }
}

/// What a parser has taken and what still waits are together what it was
/// handed: its position counts the bytes behind it, whatever it made of them.
pub proof fn lemma_position_counts(d: DemuxV)
    requires
        d.wf(),
    ensures
        further(d, next(d).0),
    decreases d.buf.len(), rank(d.state),
{
    lemma_step_goes_down(d);
    lemma_step_wf(d);
    assert(d.buf.skip(0) =~= d.buf);
    assert(match step(d) {
        Step::Go(after) => further(d, after),
        Step::Stop(after, _) => further(d, after),
    }) by {
        if d.state is Unit {
            lemma_unit_further(d);
        }
    }
    if let Step::Go(after) = step(d) {
        lemma_position_counts(after);
        let took = after.pos - d.pos;
        let more = next(after).0.pos - after.pos;
        assert(after.buf.skip(more) =~= d.buf.skip(took + more));
    }
}

// Where a stream is cut.

/// A packet cut inside its startcode says how much there is of it past the byte
/// that opens it.
pub proof fn lemma_startcode_cut(bytes: Seq<u8>, base: int, max_header: u64)
    requires
        1 <= bytes.len() < 8,
    ensures
        packet_at(bytes, base, max_header) == Err::<(FrontV, int), Halt>(
            Halt::Need(
                Need::Bytes { what: Part::Startcode, want: 7, got: (bytes.len() - 1) as u64 },
            ),
        ),
{
}

/// A packet that is held whole, cut inside its body, says how much of it there
/// is.
pub proof fn lemma_body_cut(
    bytes: Seq<u8>,
    base: int,
    startcode: u64,
    len: u64,
    crc: Seq<u8>,
    some: Seq<u8>,
    max_header: u64,
)
    requires
        vital(startcode) || advisory(startcode),
        4 <= len <= max_header,
        crc.len() == 4,
        some.len() < len,
        bytes == packet_head(startcode, len, crc) + some,
    ensures
        packet_at(bytes, base, max_header) == Err::<(FrontV, int), Halt>(
            Halt::Need(
                Need::Bytes { what: part_of(startcode), want: len, got: some.len() as u64 },
            ),
        ),
{
    let head = packet_head(startcode, len, crc);
    assert(bytes =~= Seq::<u8>::empty() + head + some);
    lemma_holds_between(Seq::empty(), head, some);
    lemma_packet_head(bytes, base, startcode, len, crc);
}

/// A stream that ends inside its identifier, inside a frame or inside a packet
/// that is stepped over says how much there was, or how much there was not.
pub proof fn lemma_cut_says_where(d: DemuxV)
    requires
        d.eof,
    ensures
        d.state is Identifier && d.buf.len() < 25 ==> next(d).1 == Err::<Option<EventV>, ErrorV>(
            ErrorV::of(Problem::IdentifierEnds { got: d.buf.len() as u64 }),
        ),
        d.state matches State::Payload { want, filled, .. } ==> filled + d.buf.len() < want
            ==> next(d).1 == Err::<Option<EventV>, ErrorV>(
            ErrorV::of(
                Problem::FrameEnds { got: (filled + d.buf.len()) as u64, want: want as u64 },
            ),
        ),
        d.state matches State::Skip { remaining, what } ==> d.buf.len() < remaining ==> next(d).1
            == Err::<Option<EventV>, ErrorV>(
            ErrorV::of(Problem::SkipEnds { what, short: (remaining - d.buf.len()) as u64 }),
        ),
{
}

/// A frame ahead of a header its stream needs is refused.
pub proof fn lemma_frame_before_headers(d: DemuxV)
    requires
        d.state is Unit,
        d.buf.len() > 0,
        d.buf[0] != 78,
        !d.known.complete(),
    ensures
        next(d) == (
            d,
            Err::<Option<EventV>, ErrorV>(ErrorV::of(Problem::FrameBeforeHeaders)),
        ),
{
    reveal(unit_step);
}

/// The metadata of a stream is what was stated for it, that of the file what
/// was stated for the file, and a stream that was not declared has none.
pub proof fn lemma_tags_of(d: DemuxV, stream: usize)
    requires
        d.wf(),
    ensures
        d.tags(None) == d.known.file_tags,
        stream < d.known.streams.len() ==> d.tags(Some(stream)) == d.known.stream_tags[stream as int],
        stream >= d.known.streams.len() ==> d.tags(Some(stream)).len() == 0,
{
}

} // verus!
