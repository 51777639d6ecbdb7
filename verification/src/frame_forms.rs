//! Frame headers in every form a framecode lets them take, and what they read
//! back as.

use vstd::arithmetic::power2::pow2;
use vstd::prelude::*;

use crate::bytes::{
    be_bytes, holds_at, lemma_be_len, lemma_holds_between, lemma_holds_split, spec_v,
    lemma_u32_round_trip, lemma_v_round_trip, s_bytes, spec_crc32, spec_u32, v_bytes,
};
use crate::arrival::lemma_payload_is_the_frame;
use crate::clock::{coded_pts, landed, ClockV};
use crate::demux::{
    after_head, known_after_frame, lemma_known_after_frame, next, step, unit_step, DemuxV, Step,
};
use crate::error::{ErrorV, Halt, Problem};
use crate::event::EventV;
use crate::forms::{lemma_run_reads, lemma_s_if_reads, lemma_v_if_reads, opt, run_bytes, takes_s};
use crate::frame::{
    ceiling_for, checksum_stage, elision_stage, flags_stage, frame_head, frame_parts, pts_stage,
    lemma_frame_head, reserved_stage, size_stage, stream_stage, FrameHead,
};
use crate::known::KnownV;
use crate::stream::Packet;
use crate::tables::FrameCode;

verus! {

/// The fields a frame header may state for itself. Which of them it does
/// state its flags say.
pub struct Fields {
    /// The flags it changes.
    pub coded: u64,
    pub stream: u64,
    /// Its PTS as it is coded.
    pub time: u64,
    /// The high part of its size.
    pub msb: u64,
    pub match_time: i64,
    pub header_idx: u64,
    pub reserved: Seq<u64>,
}

/// The flags of a frame: those of its framecode, some of them changed where
/// the framecode says the frame changes some.
pub open spec fn told_flags(code: FrameCode, f: Fields) -> u64 {
    if code.flags & 4096 != 0 {
        code.flags ^ f.coded
    } else {
        code.flags
    }
}

/// A frame header ahead of its checksum.
pub open spec fn form_bytes(first: u8, code: FrameCode, f: Fields) -> Seq<u8> {
    let flags = told_flags(code, f);
    seq![first] + opt(code.flags & 4096 != 0, v_bytes(f.coded as nat)) + opt(
        flags & 16 != 0,
        v_bytes(f.stream as nat),
    ) + opt(flags & 8 != 0, v_bytes(f.time as nat)) + opt(flags & 32 != 0, v_bytes(f.msb as nat))
        + (opt(flags & 2048 != 0, s_bytes(f.match_time as int)) + opt(
        flags & 1024 != 0,
        v_bytes(f.header_idx as nat),
    )) + (opt(flags & 128 != 0, v_bytes(f.reserved.len())) + run_bytes(f.reserved))
}

/// A frame header with the checksum it closes with, where it has one.
pub open spec fn sealed_form(first: u8, code: FrameCode, f: Fields) -> Seq<u8> {
    let head = form_bytes(first, code, f);
    head + opt(told_flags(code, f) & 64 != 0, be_bytes(spec_crc32(head) as nat, 4))
}

/// The stream a frame belongs to: the one it states, or its framecode's.
pub open spec fn told_stream(code: FrameCode, f: Fields) -> u64 {
    if told_flags(code, f) & 16 != 0 {
        f.stream
    } else {
        code.stream_id
    }
}

/// The elision header a frame starts with: the one it states, or its
/// framecode's.
pub open spec fn told_prefix(code: FrameCode, f: Fields) -> u64 {
    if told_flags(code, f) & 1024 != 0 {
        f.header_idx
    } else {
        code.header_idx
    }
}

/// Whether `size` is what a header says of a frame's size: the low part is its
/// framecode's, and the high part counts how many times over the framecode's
/// step goes on top, where it states one.
pub open spec fn tells_size(code: FrameCode, f: Fields, size: int) -> bool {
    if told_flags(code, f) & 32 != 0 {
        size - code.size_lsb == f.msb * code.size_mul
    } else {
        size == code.size_lsb
    }
}

/// Whether `pts` is what a header says of a frame's PTS, `last` being the last
/// of its stream. A frame that states none is as far from the last one as its
/// framecode says. One that states it whole states it past the range of the
/// low bits; one that states the low bits has the PTS with those bits that is
/// nearest the last one, and the later of two as near.
pub open spec fn tells_pts(code: FrameCode, f: Fields, last: int, shift: u32, pts: int) -> bool {
    let range = pow2(shift as nat) as int;
    if told_flags(code, f) & 8 == 0 {
        pts - last == code.pts_delta
    } else if f.time >= range {
        pts + range == f.time
    } else {
        (pts - f.time) % range == 0 && -range < 2 * (pts - last) <= range
    }
}

/// Whether a frame header is one a reader takes: its framecode is valid, it
/// carries no side data, and it has the reserved fields its framecode gives it
/// or states how many it has.
pub open spec fn form_ok(code: FrameCode, f: Fields) -> bool {
    &&& code.flags & 8192 == 0
    &&& told_flags(code, f) & 256 == 0
    &&& f.reserved.len() <= 256
    &&& told_flags(code, f) & 128 == 0 ==> f.reserved.len() == code.reserved_count
    &&& told_flags(code, f) & 2048 != 0 ==> takes_s(f.match_time)
}

/// There is one PTS a header can tell of.
proof fn lemma_one_pts(last: i64, shift: u32, coded: u64, pts: i64)
    requires
        shift < 63,
        ({
            let range = pow2(shift as nat) as int;
            if coded >= range {
                pts + range == coded
            } else {
                (pts - coded) % range == 0 && -range < 2 * (pts - last) <= range
            }
        }),
    ensures
        coded_pts(last, shift, coded) == Ok::<i64, Problem>(pts),
{
    let range = pow2(shift as nat) as int;
    vstd::arithmetic::power2::lemma_pow2_pos(shift as nat);
    if coded < range {
        let floor = last - (range - 1) / 2;
        let k = (pts - coded) / range;
        vstd::arithmetic::div_mod::lemma_fundamental_div_mod(pts - coded, range);
        // `pts` is `floor` and what is left of `coded - floor` over `range`.
        vstd::arithmetic::div_mod::lemma_mod_multiples_vanish(k, coded - floor, range);
        assert(range * k + (coded - floor) == pts - floor);
        assert(0 <= pts - floor < range);
        vstd::arithmetic::div_mod::lemma_small_mod((pts - floor) as nat, range as nat);
    }
}

/// The flags a frame header states.
proof fn lemma_flags_told(bytes: Seq<u8>, base: int, code: FrameCode, f: Fields)
    requires
        holds_at(bytes, 1, opt(code.flags & 4096 != 0, v_bytes(f.coded as nat))),
    ensures
        flags_stage(bytes, base, code) == Ok::<(u64, int), Halt>(
            (
                told_flags(code, f),
                1 + opt(code.flags & 4096 != 0, v_bytes(f.coded as nat)).len() as int,
            ),
        ),
{
    lemma_v_if_reads(code.flags & 4096 != 0, bytes, 1, base, f.coded, 0);
    let x = code.flags;
    assert(x ^ 0u64 == x) by (bit_vector);
}

/// The stream a frame header states.
proof fn lemma_stream_told(bytes: Seq<u8>, at: int, base: int, code: FrameCode, f: Fields, count: nat)
    requires
        holds_at(bytes, at, opt(told_flags(code, f) & 16 != 0, v_bytes(f.stream as nat))),
        told_stream(code, f) < count <= usize::MAX,
    ensures
        stream_stage(bytes, at, base, code, told_flags(code, f), count) == Ok::<(usize, int), Halt>(
            (
                told_stream(code, f) as usize,
                at + opt(told_flags(code, f) & 16 != 0, v_bytes(f.stream as nat)).len(),
            ),
        ),
{
    lemma_v_if_reads(
        told_flags(code, f) & 16 != 0,
        bytes,
        at,
        base,
        f.stream,
        code.stream_id,
    );
}

/// The PTS a frame header states.
proof fn lemma_pts_told(
    bytes: Seq<u8>,
    at: int,
    base: int,
    code: FrameCode,
    f: Fields,
    last: i64,
    shift: u32,
    pts: i64,
)
    requires
        holds_at(bytes, at, opt(told_flags(code, f) & 8 != 0, v_bytes(f.time as nat))),
        shift < 63,
        tells_pts(code, f, last as int, shift, pts as int),
    ensures
        pts_stage(bytes, at, base, code, told_flags(code, f), last, shift) == Ok::<(i64, int), Halt>(
            (pts, at + opt(told_flags(code, f) & 8 != 0, v_bytes(f.time as nat)).len()),
        ),
{
    reveal(opt);
    if told_flags(code, f) & 8 != 0 {
        lemma_v_round_trip(bytes, at, base, f.time);
        lemma_one_pts(last, shift, f.time, pts);
    }
}

/// The size a frame header states.
proof fn lemma_size_told(bytes: Seq<u8>, at: int, base: int, code: FrameCode, f: Fields, size: u64)
    requires
        holds_at(bytes, at, opt(told_flags(code, f) & 32 != 0, v_bytes(f.msb as nat))),
        tells_size(code, f, size as int),
    ensures
        size_stage(bytes, at, base, code, told_flags(code, f)) == Ok::<(u64, int), Halt>(
            (size, at + opt(told_flags(code, f) & 32 != 0, v_bytes(f.msb as nat)).len()),
        ),
{
    reveal(opt);
    if told_flags(code, f) & 32 != 0 {
        lemma_v_round_trip(bytes, at, base, f.msb);
    }
}

/// The elision header a frame header states.
proof fn lemma_prefix_told(bytes: Seq<u8>, at: int, base: int, code: FrameCode, f: Fields, count: nat)
    requires
        holds_at(
            bytes,
            at,
            opt(told_flags(code, f) & 2048 != 0, s_bytes(f.match_time as int)) + opt(
                told_flags(code, f) & 1024 != 0,
                v_bytes(f.header_idx as nat),
            ),
        ),
        told_flags(code, f) & 2048 != 0 ==> takes_s(f.match_time),
        told_prefix(code, f) < count,
    ensures
        elision_stage(bytes, at, base, code, told_flags(code, f), count) == Ok::<(u64, int), Halt>(
            (
                told_prefix(code, f),
                at + opt(told_flags(code, f) & 2048 != 0, s_bytes(f.match_time as int)).len() + opt(
                    told_flags(code, f) & 1024 != 0,
                    v_bytes(f.header_idx as nat),
                ).len(),
            ),
        ),
{
    let flags = told_flags(code, f);
    let time = opt(flags & 2048 != 0, s_bytes(f.match_time as int));
    lemma_holds_split(bytes, at, time, opt(flags & 1024 != 0, v_bytes(f.header_idx as nat)));
    lemma_s_if_reads(flags & 2048 != 0, bytes, at, base, f.match_time, 0);
    lemma_v_if_reads(
        flags & 1024 != 0,
        bytes,
        at + time.len(),
        base,
        f.header_idx,
        code.header_idx,
    );
}

/// The reserved fields of a frame header are stepped over.
proof fn lemma_reserved_told(bytes: Seq<u8>, at: int, base: int, code: FrameCode, f: Fields)
    requires
        holds_at(
            bytes,
            at,
            opt(told_flags(code, f) & 128 != 0, v_bytes(f.reserved.len())) + run_bytes(f.reserved),
        ),
        form_ok(code, f),
    ensures
        reserved_stage(bytes, at, base, code, told_flags(code, f)) == Ok::<((), int), Halt>(
            (
                (),
                at + opt(told_flags(code, f) & 128 != 0, v_bytes(f.reserved.len())).len()
                    + run_bytes(f.reserved).len(),
            ),
        ),
{
    let flags = told_flags(code, f);
    let count = opt(flags & 128 != 0, v_bytes(f.reserved.len()));
    lemma_holds_split(bytes, at, count, run_bytes(f.reserved));
    lemma_v_if_reads(
        flags & 128 != 0,
        bytes,
        at,
        base,
        f.reserved.len() as u64,
        code.reserved_count,
    );
    lemma_run_reads(bytes, at + count.len(), base, f.reserved);
}

/// A frame header is its parts, one behind the other.
proof fn lemma_parts_join(
    bytes: Seq<u8>,
    base: int,
    known: KnownV,
    head: FrameHead,
    ends: Seq<int>,
)
    requires
        ({
            let tables = known.main->Some_0;
            let code = tables.frame_codes[bytes[0] as int];
            let stream = head.stream as int;
            let last = known.clocks[stream].last_pts;
            let shift = known.streams[stream]->Some_0.msb_pts_shift;
            let flags = head.flags;
            let count = known.streams.len();
            let prefixes = tables.elision.len();
            &&& code.flags & 8192 == 0
            &&& flags_stage(bytes, base, code) == Ok::<(u64, int), Halt>((flags, ends[0]))
            &&& stream_stage(bytes, ends[0], base, code, flags, count) == Ok::<(usize, int), Halt>(
                (head.stream, ends[1]),
            )
            &&& pts_stage(bytes, ends[1], base, code, flags, last, shift) == Ok::<(i64, int), Halt>(
                (head.pts, ends[2]),
            )
            &&& size_stage(bytes, ends[2], base, code, flags) == Ok::<(u64, int), Halt>(
                (head.size, ends[3]),
            )
            &&& elision_stage(bytes, ends[3], base, code, flags, prefixes) == Ok::<
                (u64, int),
                Halt,
            >((head.header_idx, ends[4]))
            &&& reserved_stage(bytes, ends[4], base, code, flags) == Ok::<((), int), Halt>(
                ((), ends[5]),
            )
        }),
    ensures
        frame_parts(bytes, base, known) == Ok::<(FrameHead, int), Halt>((head, ends[5])),
{
}

/// A frame header, in whichever form its framecode lets it take, says what it
/// was written from: its flags, its stream, its PTS, its size and its elision
/// header.
pub proof fn lemma_form_reads(
    bytes: Seq<u8>,
    base: int,
    known: KnownV,
    f: Fields,
    pts: i64,
    size: u64,
)
    requires
        known.wf(),
        known.complete(),
        bytes.len() > 0,
        ({
            let code = known.main->Some_0.frame_codes[bytes[0] as int];
            let stream = told_stream(code, f) as int;
            &&& form_ok(code, f)
            &&& holds_at(bytes, 0, form_bytes(bytes[0], code, f))
            &&& stream < known.streams.len()
            &&& told_prefix(code, f) < known.main->Some_0.elision.len()
            &&& tells_size(code, f, size as int)
            &&& tells_pts(
                code,
                f,
                known.clocks[stream].last_pts as int,
                known.streams[stream]->Some_0.msb_pts_shift,
                pts as int,
            )
        }),
    ensures
        ({
            let code = known.main->Some_0.frame_codes[bytes[0] as int];
            frame_parts(bytes, base, known) == Ok::<(FrameHead, int), Halt>(
                (
                    FrameHead {
                        flags: told_flags(code, f),
                        stream: told_stream(code, f) as usize,
                        pts,
                        size,
                        header_idx: told_prefix(code, f),
                    },
                    form_bytes(bytes[0], code, f).len() as int,
                ),
            )
        }),
{
    let tables = known.main->Some_0;
    let code = tables.frame_codes[bytes[0] as int];
    let flags = told_flags(code, f);
    let stream = told_stream(code, f);
    assert(known.streams[stream as int] is Some);
    let last = known.clocks[stream as int].last_pts;
    let shift = known.streams[stream as int]->Some_0.msb_pts_shift;
    let f1 = opt(code.flags & 4096 != 0, v_bytes(f.coded as nat));
    let f2 = opt(flags & 16 != 0, v_bytes(f.stream as nat));
    let f3 = opt(flags & 8 != 0, v_bytes(f.time as nat));
    let f4 = opt(flags & 32 != 0, v_bytes(f.msb as nat));
    let f5 = opt(flags & 2048 != 0, s_bytes(f.match_time as int)) + opt(
        flags & 1024 != 0,
        v_bytes(f.header_idx as nat),
    );
    let f6 = opt(flags & 128 != 0, v_bytes(f.reserved.len())) + run_bytes(f.reserved);
    let p0 = seq![bytes[0]];
    let p1 = p0 + f1;
    let p2 = p1 + f2;
    let p3 = p2 + f3;
    let p4 = p3 + f4;
    let p5 = p4 + f5;
    lemma_holds_split(bytes, 0, p5, f6);
    lemma_holds_split(bytes, 0, p4, f5);
    lemma_holds_split(bytes, 0, p3, f4);
    lemma_holds_split(bytes, 0, p2, f3);
    lemma_holds_split(bytes, 0, p1, f2);
    lemma_holds_split(bytes, 0, p0, f1);
    lemma_flags_told(bytes, base, code, f);
    lemma_stream_told(bytes, p1.len() as int, base, code, f, known.streams.len());
    lemma_pts_told(bytes, p2.len() as int, base, code, f, last, shift, pts);
    lemma_size_told(bytes, p3.len() as int, base, code, f, size);
    lemma_prefix_told(bytes, p4.len() as int, base, code, f, tables.elision.len());
    lemma_reserved_told(bytes, p5.len() as int, base, code, f);
    let head = FrameHead {
        flags,
        stream: stream as usize,
        pts,
        size,
        header_idx: told_prefix(code, f),
    };
    let ends = seq![
        p1.len() as int,
        p2.len() as int,
        p3.len() as int,
        p4.len() as int,
        p5.len() as int,
        (p5 + f6).len() as int,
    ];
    lemma_parts_join(bytes, base, known, head, ends);
}

/// A frame header closed with the checksum over it, where its flags say it has
/// one, is read whole, whatever follows it, where the frame holds its elision
/// header and is no larger than its stream may carry; the same header with
/// any other checksum is refused.
pub proof fn lemma_sealed_form_reads(
    bytes: Seq<u8>,
    base: int,
    known: KnownV,
    ceilings: Seq<Option<u64>>,
    max_frame: u64,
    f: Fields,
    pts: i64,
    size: u64,
    crc: u32,
)
    requires
        known.wf(),
        known.complete(),
        bytes.len() > 0,
        ({
            let code = known.main->Some_0.frame_codes[bytes[0] as int];
            let stream = told_stream(code, f) as int;
            let head = form_bytes(bytes[0], code, f);
            &&& form_ok(code, f)
            &&& holds_at(
                bytes,
                0,
                head + opt(told_flags(code, f) & 64 != 0, be_bytes(crc as nat, 4)),
            )
            &&& stream < known.streams.len()
            &&& told_prefix(code, f) < known.main->Some_0.elision.len()
            &&& tells_size(code, f, size as int)
            &&& tells_pts(
                code,
                f,
                known.clocks[stream].last_pts as int,
                known.streams[stream]->Some_0.msb_pts_shift,
                pts as int,
            )
        }),
    ensures
        ({
            let code = known.main->Some_0.frame_codes[bytes[0] as int];
            let stream = told_stream(code, f) as int;
            let head = form_bytes(bytes[0], code, f);
            let elided = known.main->Some_0.elision[told_prefix(code, f) as int].len();
            let checked = told_flags(code, f) & 64 != 0;
            let got = frame_head(bytes, base, known, ceilings, max_frame);
            if checked && crc != spec_crc32(head) {
                got == Err::<(FrameHead, int), Halt>(
                    Halt::Bad(Problem::FrameChecksum { computed: spec_crc32(head), carried: crc }),
                )
            } else if elided > size {
                got == Err::<(FrameHead, int), Halt>(
                    Halt::Bad(Problem::ElidesPastEnd { size, elided: elided as u64 }),
                )
            } else if size > ceiling_for(ceilings, max_frame, stream) {
                got == Err::<(FrameHead, int), Halt>(
                    Halt::Bad(
                        Problem::FrameTooLarge {
                            size,
                            ceiling: ceiling_for(ceilings, max_frame, stream),
                        },
                    ),
                )
            } else {
                got == Ok::<(FrameHead, int), Halt>(
                    (
                        FrameHead {
                            flags: told_flags(code, f),
                            stream: told_stream(code, f) as usize,
                            pts,
                            size,
                            header_idx: told_prefix(code, f),
                        },
                        head.len() + (if checked {
                            4int
                        } else {
                            0
                        }),
                    ),
                )
            }
        }),
{
    broadcast use lemma_be_len;

    let code = known.main->Some_0.frame_codes[bytes[0] as int];
    let head = form_bytes(bytes[0], code, f);
    let crcs = opt(told_flags(code, f) & 64 != 0, be_bytes(crc as nat, 4));
    lemma_holds_split(bytes, 0, head, crcs);
    lemma_form_reads(bytes, base, known, f, pts, size);
    reveal(holds_at);
    reveal(opt);
    assert(bytes.subrange(0, head.len() as int) == head);
    if told_flags(code, f) & 64 != 0 {
        lemma_u32_round_trip(bytes, head.len() as int, crc);
        assert(spec_u32(bytes, head.len() as int) == (
            Ok::<u32, Halt>(crc),
            head.len() as int + 4,
        ));
    }
    assert(checksum_stage(bytes, head.len() as int, told_flags(code, f)) is Ok <==> (told_flags(
        code,
        f,
    ) & 64 != 0 ==> crc == spec_crc32(head)));
}

/// The ceiling a stream's frames are held to is the least of the one for all
/// streams, the one a caller set for it and what this machine can hold.
pub proof fn lemma_ceiling_is_the_least(ceilings: Seq<Option<u64>>, max_frame: u64, stream: int)
    ensures
        ({
            let ceiling = ceiling_for(ceilings, max_frame, stream);
            let set = if 0 <= stream < ceilings.len() {
                ceilings[stream]
            } else {
                None
            };
            &&& ceiling <= max_frame
            &&& ceiling <= usize::MAX
            &&& set matches Some(own) ==> ceiling <= own
            &&& ceiling == max_frame || ceiling == usize::MAX || set == Some(ceiling)
        }),
{
}

// What every frame header that is read has said.

/// A frame header that is read, whoever wrote it: a frame that states no PTS
/// is as far from the last one of its stream as its framecode says, one that
/// states no size has the one its framecode gives, and one that states a high
/// part has a size that is whole steps of its framecode past the low part.
pub proof fn lemma_read_head(
    bytes: Seq<u8>,
    base: int,
    known: KnownV,
    ceilings: Seq<Option<u64>>,
    max_frame: u64,
)
    requires
        known.wf(),
        known.complete(),
        bytes.len() > 0,
    ensures
        frame_head(bytes, base, known, ceilings, max_frame) matches Ok((head, _)) ==> {
            let code = known.main->Some_0.frame_codes[bytes[0] as int];
            let last = known.clocks[head.stream as int].last_pts;
            &&& code.flags & 8192 == 0
            &&& head.flags & 256 == 0
            &&& code.flags & 4096 == 0 ==> head.flags == code.flags
            &&& head.flags & 16 == 0 ==> head.stream == code.stream_id
            &&& head.flags & 8 == 0 ==> head.pts - last == code.pts_delta
            &&& head.flags & 32 == 0 ==> head.size == code.size_lsb
            &&& head.flags & 32 != 0 && code.size_mul > 0 ==> head.size >= code.size_lsb && (
            head.size - code.size_lsb) % (code.size_mul as int) == 0
            &&& head.flags & 1024 == 0 ==> head.header_idx == code.header_idx
            &&& known_after_frame(known, head).clocks[head.stream as int].last_pts == head.pts
            &&& forall|i: int|
                0 <= i < known.clocks.len() && i != head.stream ==> (
                #[trigger] known_after_frame(known, head).clocks[i]) == known.clocks[i]
        },
{
    lemma_frame_head(bytes, base, known, ceilings, max_frame);
    let code = known.main->Some_0.frame_codes[bytes[0] as int];
    let x = code.flags;
    assert(x ^ 0u64 == x) by (bit_vector);
    if let Ok((head, _)) = frame_head(bytes, base, known, ceilings, max_frame) {
        if head.flags & 32 != 0 && code.size_mul > 0 {
            let a1 = flags_stage(bytes, base, code)->Ok_0.1;
            let a2 = stream_stage(
                bytes,
                a1,
                base,
                code,
                head.flags,
                known.streams.len(),
            )->Ok_0.1;
            let a3 = spec_v(bytes, a2, base).1;
            let at = if head.flags & 8 != 0 {
                a3
            } else {
                a2
            };
            let msb = spec_v(bytes, at, base).0->Ok_0;
            assert(head.size == msb * code.size_mul + code.size_lsb);
            assert(msb * code.size_mul >= 0) by (nonlinear_arith)
                requires
                    msb >= 0,
                    code.size_mul >= 0,
            ;
            vstd::arithmetic::div_mod::lemma_mod_multiples_basic(msb as int, code.size_mul as int);
        }
    }
}

/// What is known after a run of frame headers.
pub open spec fn after_heads(known: KnownV, heads: Seq<FrameHead>) -> KnownV
    decreases heads.len(),
{
    if heads.len() == 0 {
        known
    } else {
        known_after_frame(after_heads(known, heads.drop_last()), heads.last())
    }
}

/// Whether a frame header is read out of some bytes.
pub open spec fn head_read(known: KnownV, bytes: Seq<u8>, head: FrameHead) -> bool {
    &&& bytes.len() > 0
    &&& frame_parts(bytes, 0, known) matches Ok((got, _))
    &&& got == head
}

/// Whether a frame header is of a stream, states no PTS, and has a framecode
/// that steps by `delta`.
pub open spec fn steps_by(
    known: KnownV,
    bytes: Seq<u8>,
    head: FrameHead,
    stream: usize,
    delta: i64,
) -> bool {
    &&& head.stream == stream
    &&& head.flags & 8 == 0
    &&& known.main->Some_0.frame_codes[bytes[0] as int].pts_delta == delta
}

/// A run of frames of one stream that state no PTS and whose framecodes step by
/// `delta` ends as many steps after where it began as there are frames.
pub proof fn lemma_run_of_deltas(
    known: KnownV,
    fronts: Seq<Seq<u8>>,
    heads: Seq<FrameHead>,
    stream: usize,
    delta: i64,
)
    requires
        known.wf(),
        known.complete(),
        stream < known.streams.len(),
        fronts.len() == heads.len(),
        forall|i: int|
            0 <= i < heads.len() ==> #[trigger] head_read(
                after_heads(known, heads.take(i)),
                fronts[i],
                heads[i],
            ),
        forall|i: int|
            0 <= i < heads.len() ==> #[trigger] steps_by(known, fronts[i], heads[i], stream, delta),
    ensures
        after_heads(known, heads).wf(),
        after_heads(known, heads).complete(),
        after_heads(known, heads).main == known.main,
        after_heads(known, heads).streams == known.streams,
        after_heads(known, heads).clocks[stream as int].last_pts
            == known.clocks[stream as int].last_pts + heads.len() * delta,
    decreases heads.len(),
{
    if heads.len() > 0 {
        let n = (heads.len() - 1) as nat;
        let less = heads.drop_last();
        let fewer = fronts.drop_last();
        let before = after_heads(known, less);
        assert(heads.take(n as int) =~= less);
        assert forall|i: int| 0 <= i < n implies #[trigger] head_read(
            after_heads(known, less.take(i)),
            fewer[i],
            less[i],
        ) by {
            assert(less.take(i) =~= heads.take(i));
            assert(head_read(after_heads(known, heads.take(i)), fronts[i], heads[i]));
        }
        assert forall|i: int| 0 <= i < n implies #[trigger] steps_by(
            known,
            fewer[i],
            less[i],
            stream,
            delta,
        ) by {
            assert(steps_by(known, fronts[i], heads[i], stream, delta));
        }
        lemma_run_of_deltas(known, fewer, less, stream, delta);
        let front = fronts[n as int];
        let head = heads.last();
        assert(head_read(after_heads(known, heads.take(n as int)), front, heads[n as int]));
        assert(steps_by(known, front, heads[n as int], stream, delta));
        let code = known.main->Some_0.frame_codes[front[0] as int];
        assert(head.pts == before.clocks[stream as int].last_pts + code.pts_delta);
        lemma_known_after_frame(before, head);
        assert(heads.len() * delta == n * delta + delta) by (nonlinear_arith)
            requires
                heads.len() == n + 1,
        ;
    } else {
        assert(0 * delta == 0) by (nonlinear_arith);
    }
}

// What a frame comes to.

/// Whether the next thing a parser has is a frame written in a form its
/// framecode lets it take, all of it there and `rest` behind it.
pub open spec fn at_form(
    d: DemuxV,
    f: Fields,
    pts: i64,
    size: u64,
    data: Seq<u8>,
    rest: Seq<u8>,
) -> bool {
    let code = d.known.main->Some_0.frame_codes[d.buf[0] as int];
    let stream = told_stream(code, f) as int;
    let prefix = d.known.main->Some_0.elision[told_prefix(code, f) as int];
    &&& d.wf()
    &&& d.state is Unit
    &&& d.known.headers_done
    &&& d.buf.len() > 0
    &&& d.buf[0] != 78
    &&& d.buf == sealed_form(d.buf[0], code, f) + data + rest
    &&& form_ok(code, f)
    &&& stream < d.known.streams.len()
    &&& told_prefix(code, f) < d.known.main->Some_0.elision.len()
    &&& tells_size(code, f, size as int)
    &&& size == prefix.len() + data.len()
    &&& size <= ceiling_for(d.ceilings, d.limits.max_frame, stream)
    &&& tells_pts(
        code,
        f,
        d.known.clocks[stream].last_pts as int,
        d.known.streams[stream]->Some_0.msb_pts_shift,
        pts as int,
    )
}

/// The parser behind such a frame, its stream's clock moved.
pub open spec fn past_form(d: DemuxV, f: Fields, data: Seq<u8>, rest: Seq<u8>, clock: ClockV) -> DemuxV {
    let code = d.known.main->Some_0.frame_codes[d.buf[0] as int];
    DemuxV {
        buf: rest,
        pos: d.pos + sealed_form(d.buf[0], code, f).len() + data.len(),
        known: KnownV {
            clocks: d.known.clocks.update(told_stream(code, f) as int, clock),
            ..d.known
        },
        ..d
    }
}

/// The header of such a frame is read.
proof fn lemma_form_head(d: DemuxV, f: Fields, pts: i64, size: u64, data: Seq<u8>, rest: Seq<u8>)
    requires
        at_form(d, f, pts, size, data, rest),
    ensures
        ({
            let code = d.known.main->Some_0.frame_codes[d.buf[0] as int];
            let len = sealed_form(d.buf[0], code, f).len() as int;
            &&& frame_head(d.buf, d.pos, d.known, d.ceilings, d.limits.max_frame) == Ok::<
                (FrameHead, int),
                Halt,
            >(
                (
                    FrameHead {
                        flags: told_flags(code, f),
                        stream: told_stream(code, f) as usize,
                        pts,
                        size,
                        header_idx: told_prefix(code, f),
                    },
                    len,
                ),
            )
            &&& d.buf.subrange(len, len + data.len()) == data
            &&& d.buf.skip(len + data.len()) == rest
            &&& d.buf.skip(len).skip(data.len() as int) == rest
            &&& d.buf.len() == len + data.len() + rest.len()
        }),
{
    broadcast use lemma_be_len;

    let code = d.known.main->Some_0.frame_codes[d.buf[0] as int];
    let whole = sealed_form(d.buf[0], code, f);
    let head_bytes = form_bytes(d.buf[0], code, f);
    let len = whole.len() as int;
    assert(d.buf =~= Seq::<u8>::empty() + whole + (data + rest));
    lemma_holds_between(Seq::empty(), whole, data + rest);
    lemma_sealed_form_reads(
        d.buf,
        d.pos,
        d.known,
        d.ceilings,
        d.limits.max_frame,
        f,
        pts,
        size,
        spec_crc32(head_bytes),
    );
    assert(len == head_bytes.len() + (if told_flags(code, f) & 64 != 0 {
        4int
    } else {
        0
    })) by {
        reveal(opt);
    }
    assert(d.buf.subrange(len, len + data.len()) =~= data);
    assert(d.buf.skip(len + data.len()) =~= rest);
    assert(d.buf.skip(len).skip(data.len() as int) =~= rest);
}

/// A frame written in any form its framecode lets it take is the next event:
/// of the stream and with the PTS and the keyframe flag its header tells of,
/// its payload the elision header it names and then the bytes behind its
/// header. The parser is then behind it, its stream's clock at the PTS.
pub proof fn lemma_next_form(
    d: DemuxV,
    f: Fields,
    pts: i64,
    size: u64,
    data: Seq<u8>,
    rest: Seq<u8>,
)
    requires
        at_form(d, f, pts, size, data, rest),
        told_flags(d.known.main->Some_0.frame_codes[d.buf[0] as int], f) & 2 == 0,
    ensures
        ({
            let code = d.known.main->Some_0.frame_codes[d.buf[0] as int];
            let stream = told_stream(code, f);
            let prefix = d.known.main->Some_0.elision[told_prefix(code, f) as int];
            let buffer = landed(d.known.clocks[stream as int].pts_buffer, pts);
            next(d) == (
                DemuxV {
                    payload: prefix + data,
                    ..past_form(d, f, data, rest, ClockV { last_pts: pts, pts_buffer: buffer })
                },
                Ok::<Option<EventV>, ErrorV>(
                    Some(
                        EventV::Frame {
                            stream: stream as usize,
                            packet: Packet {
                                pts,
                                dts: buffer[0],
                                keyframe: told_flags(code, f) & 1 != 0,
                            },
                        },
                    ),
                ),
            )
        }),
{
    let code = d.known.main->Some_0.frame_codes[d.buf[0] as int];
    lemma_form_head(d, f, pts, size, data, rest);
    let head = FrameHead {
        flags: told_flags(code, f),
        stream: told_stream(code, f) as usize,
        pts,
        size,
        header_idx: told_prefix(code, f),
    };
    lemma_payload_is_the_frame(d, head, sealed_form(d.buf[0], code, f).len() as int);
}

/// A frame that ends the relevance of its stream is nothing to show: its clock
/// moves and its payload is stepped over, and its reorder buffer stays. What
/// is read behind it is what would have been read without it, but for the
/// clock.
pub proof fn lemma_end_of_relevance(
    d: DemuxV,
    f: Fields,
    pts: i64,
    size: u64,
    data: Seq<u8>,
    rest: Seq<u8>,
)
    requires
        at_form(d, f, pts, size, data, rest),
        told_flags(d.known.main->Some_0.frame_codes[d.buf[0] as int], f) & 2 != 0,
    ensures
        ({
            let code = d.known.main->Some_0.frame_codes[d.buf[0] as int];
            let buffer = d.known.clocks[told_stream(code, f) as int].pts_buffer;
            next(d) == next(
                past_form(d, f, data, rest, ClockV { last_pts: pts, pts_buffer: buffer }),
            )
        }),
{
    let code = d.known.main->Some_0.frame_codes[d.buf[0] as int];
    lemma_form_head(d, f, pts, size, data, rest);
    let head = FrameHead {
        flags: told_flags(code, f),
        stream: told_stream(code, f) as usize,
        pts,
        size,
        header_idx: told_prefix(code, f),
    };
    let len = sealed_form(d.buf[0], code, f).len() as int;
    let mid = after_head(d, head, len);
    assert(step(d) == Step::Go(mid)) by {
        reveal(unit_step);
    }
    let buffer = d.known.clocks[head.stream as int].pts_buffer;
    let after = past_form(d, f, data, rest, ClockV { last_pts: pts, pts_buffer: buffer });
    assert(mid.known =~= after.known);
    assert(step(mid) == Step::Go(after));
    assert(next(d) == next(mid));
    assert(next(mid) == next(after));
}

// What is wrong with a frame header.

/// A byte the table has no framecode for opens no frame.
pub proof fn lemma_invalid_code(bytes: Seq<u8>, base: int, known: KnownV)
    requires
        bytes.len() > 0,
        known.main->Some_0.frame_codes[bytes[0] as int].flags & 8192 != 0,
    ensures
        frame_parts(bytes, base, known) == Err::<(FrameHead, int), Halt>(
            Halt::Bad(Problem::FrameCodeInvalid { byte: bytes[0] }),
        ),
{
}

/// A PTS a coded one stands for is the one its header tells of.
proof fn lemma_coded_told(last: i64, shift: u32, coded: u64)
    requires
        shift < 63,
    ensures
        coded_pts(last, shift, coded) matches Ok(pts) ==> {
            let range = pow2(shift as nat) as int;
            if coded >= range {
                pts + range == coded
            } else {
                (pts - coded) % range == 0 && -range < 2 * (pts - last) <= range
            }
        },
        coded_pts(last, shift, coded) matches Err(problem) ==> problem == Problem::PtsOverflow,
{
    let range = pow2(shift as nat) as int;
    vstd::arithmetic::power2::lemma_pow2_pos(shift as nat);
    if coded < range {
        let floor = last - (range - 1) / 2;
        let left = (coded - floor) % range;
        let pts = floor + left;
        let q = (coded - floor) / range;
        vstd::arithmetic::div_mod::lemma_fundamental_div_mod(coded - floor, range);
        // `pts` and `coded` differ by whole ranges.
        assert(pts - coded == range * (-q) + 0) by (nonlinear_arith)
            requires
                coded - floor == range * q + left,
                pts == floor + left,
        ;
        vstd::arithmetic::div_mod::lemma_mod_multiples_vanish(-q, 0, range);
        vstd::arithmetic::div_mod::lemma_small_mod(0, range as nat);
        assert(0 <= left < range);
    }
}

/// A frame header stops at the first of its parts that does.
proof fn lemma_parts_follow(
    bytes: Seq<u8>,
    base: int,
    known: KnownV,
    head: FrameHead,
    ends: Seq<int>,
)
    requires
        known.main->Some_0.frame_codes[bytes[0] as int].flags & 8192 == 0,
        flags_stage(bytes, base, known.main->Some_0.frame_codes[bytes[0] as int]) == Ok::<
            (u64, int),
            Halt,
        >((head.flags, ends[0])),
    ensures
        ({
            let tables = known.main->Some_0;
            let code = tables.frame_codes[bytes[0] as int];
            let stream = head.stream as int;
            let last = known.clocks[stream].last_pts;
            let shift = known.streams[stream]->Some_0.msb_pts_shift;
            let flags = head.flags;
            let s1 = stream_stage(bytes, ends[0], base, code, flags, known.streams.len());
            let s2 = pts_stage(bytes, ends[1], base, code, flags, last, shift);
            let s3 = size_stage(bytes, ends[2], base, code, flags);
            let s4 = elision_stage(bytes, ends[3], base, code, flags, tables.elision.len());
            let s5 = reserved_stage(bytes, ends[4], base, code, flags);
            let got = frame_parts(bytes, base, known);
            &&& s1 matches Err(halt) ==> got == Err::<(FrameHead, int), Halt>(halt)
            &&& s1 == Ok::<(usize, int), Halt>((head.stream, ends[1])) ==> {
                &&& s2 matches Err(halt) ==> got == Err::<(FrameHead, int), Halt>(halt)
                &&& s2 == Ok::<(i64, int), Halt>((head.pts, ends[2])) ==> {
                    &&& s3 matches Err(halt) ==> got == Err::<(FrameHead, int), Halt>(halt)
                    &&& s3 == Ok::<(u64, int), Halt>((head.size, ends[3])) ==> {
                        &&& s4 matches Err(halt) ==> got == Err::<(FrameHead, int), Halt>(halt)
                        &&& s4 == Ok::<(u64, int), Halt>((head.header_idx, ends[4])) ==> {
                            &&& s5 matches Err(halt) ==> got == Err::<(FrameHead, int), Halt>(halt)
                            &&& s5 is Ok ==> got is Ok
                        }
                    }
                }
            }
        }),
{
}

/// Where each part of a frame header ends.
#[verifier::opaque]
spec fn spots(code: FrameCode, f: Fields) -> Seq<int> {
    let flags = told_flags(code, f);
    let a1 = 1 + opt(code.flags & 4096 != 0, v_bytes(f.coded as nat)).len() as int;
    let a2 = a1 + opt(flags & 16 != 0, v_bytes(f.stream as nat)).len();
    let a3 = a2 + opt(flags & 8 != 0, v_bytes(f.time as nat)).len();
    let a4 = a3 + opt(flags & 32 != 0, v_bytes(f.msb as nat)).len();
    let a5 = a4 + opt(flags & 2048 != 0, s_bytes(f.match_time as int)).len() + opt(
        flags & 1024 != 0,
        v_bytes(f.header_idx as nat),
    ).len();
    seq![a1, a2, a3, a4, a5]
}

/// Each part of a frame header stands where the one ahead of it ends.
proof fn lemma_spots(bytes: Seq<u8>, code: FrameCode, f: Fields)
    requires
        bytes.len() > 0,
        holds_at(bytes, 0, form_bytes(bytes[0], code, f)),
    ensures
        ({
            let flags = told_flags(code, f);
            let at = spots(code, f);
            let f1 = opt(code.flags & 4096 != 0, v_bytes(f.coded as nat));
            let f2 = opt(flags & 16 != 0, v_bytes(f.stream as nat));
            let f3 = opt(flags & 8 != 0, v_bytes(f.time as nat));
            let f4 = opt(flags & 32 != 0, v_bytes(f.msb as nat));
            let time = opt(flags & 2048 != 0, s_bytes(f.match_time as int));
            let index = opt(flags & 1024 != 0, v_bytes(f.header_idx as nat));
            let f6 = opt(flags & 128 != 0, v_bytes(f.reserved.len())) + run_bytes(f.reserved);
            &&& holds_at(bytes, 1, f1) && at[0] == 1 + f1.len()
            &&& holds_at(bytes, at[0], f2) && at[1] == at[0] + f2.len()
            &&& holds_at(bytes, at[1], f3) && at[2] == at[1] + f3.len()
            &&& holds_at(bytes, at[2], f4) && at[3] == at[2] + f4.len()
            &&& holds_at(bytes, at[3], time + index) && at[4] == at[3] + time.len() + index.len()
            &&& holds_at(bytes, at[4], f6)
        }),
{
    reveal(spots);
    let flags = told_flags(code, f);
    let f1 = opt(code.flags & 4096 != 0, v_bytes(f.coded as nat));
    let f2 = opt(flags & 16 != 0, v_bytes(f.stream as nat));
    let f3 = opt(flags & 8 != 0, v_bytes(f.time as nat));
    let f4 = opt(flags & 32 != 0, v_bytes(f.msb as nat));
    let f5 = opt(flags & 2048 != 0, s_bytes(f.match_time as int)) + opt(
        flags & 1024 != 0,
        v_bytes(f.header_idx as nat),
    );
    let f6 = opt(flags & 128 != 0, v_bytes(f.reserved.len())) + run_bytes(f.reserved);
    let p0 = seq![bytes[0]];
    let p1 = p0 + f1;
    let p2 = p1 + f2;
    let p3 = p2 + f3;
    let p4 = p3 + f4;
    let p5 = p4 + f5;
    lemma_holds_split(bytes, 0, p5, f6);
    lemma_holds_split(bytes, 0, p4, f5);
    lemma_holds_split(bytes, 0, p3, f4);
    lemma_holds_split(bytes, 0, p2, f3);
    lemma_holds_split(bytes, 0, p1, f2);
    lemma_holds_split(bytes, 0, p0, f1);
}

/// A stream that is declared, or is not.
proof fn lemma_stream_read(bytes: Seq<u8>, at: int, base: int, code: FrameCode, f: Fields, count: nat)
    requires
        holds_at(bytes, at, opt(told_flags(code, f) & 16 != 0, v_bytes(f.stream as nat))),
        told_stream(code, f) >= count,
    ensures
        stream_stage(bytes, at, base, code, told_flags(code, f), count) == Err::<
            (usize, int),
            Halt,
        >(Halt::Bad(Problem::FrameStreamUndeclared { id: told_stream(code, f) })),
{
    lemma_v_if_reads(
        told_flags(code, f) & 16 != 0,
        bytes,
        at,
        base,
        f.stream,
        code.stream_id,
    );
}

/// A size that does not fit.
proof fn lemma_size_read(bytes: Seq<u8>, at: int, base: int, code: FrameCode, f: Fields)
    requires
        holds_at(bytes, at, opt(told_flags(code, f) & 32 != 0, v_bytes(f.msb as nat))),
        told_flags(code, f) & 32 != 0,
        f.msb * code.size_mul + code.size_lsb > u64::MAX,
    ensures
        size_stage(bytes, at, base, code, told_flags(code, f)) == Err::<(u64, int), Halt>(
            Halt::Bad(Problem::SizeOverflow),
        ),
{
    reveal(opt);
    lemma_v_round_trip(bytes, at, base, f.msb);
}

/// A frame header with nothing wrong in its framecode is refused by the first
/// thing wrong with what it says: a stream no header declared, a PTS that does
/// not fit, a size that does not fit, an elision header that was not declared,
/// more reserved fields than it may have, or side data.
pub proof fn lemma_form_refused(bytes: Seq<u8>, base: int, known: KnownV, f: Fields)
    requires
        known.wf(),
        known.complete(),
        bytes.len() > 0,
        f.reserved.len() <= u64::MAX,
        ({
            let code = known.main->Some_0.frame_codes[bytes[0] as int];
            let flags = told_flags(code, f);
            &&& code.flags & 8192 == 0
            &&& holds_at(bytes, 0, form_bytes(bytes[0], code, f))
            &&& flags & 2048 != 0 ==> takes_s(f.match_time)
            &&& flags & 128 == 0 ==> f.reserved.len() == code.reserved_count
        }),
    ensures
        ({
            let code = known.main->Some_0.frame_codes[bytes[0] as int];
            let flags = told_flags(code, f);
            let id = told_stream(code, f);
            let stream = id as int;
            let last = known.clocks[stream].last_pts as int;
            let shift = known.streams[stream]->Some_0.msb_pts_shift;
            let got = frame_parts(bytes, base, known);
            if id >= known.streams.len() {
                got == Err::<(FrameHead, int), Halt>(
                    Halt::Bad(Problem::FrameStreamUndeclared { id }),
                )
            } else if forall|pts: i64| !#[trigger] tells_pts(code, f, last, shift, pts as int) {
                got == Err::<(FrameHead, int), Halt>(Halt::Bad(Problem::PtsOverflow))
            } else if flags & 32 != 0 && f.msb * code.size_mul + code.size_lsb > u64::MAX {
                got == Err::<(FrameHead, int), Halt>(Halt::Bad(Problem::SizeOverflow))
            } else if told_prefix(code, f) >= known.main->Some_0.elision.len() {
                got == Err::<(FrameHead, int), Halt>(
                    Halt::Bad(Problem::ElisionUndeclared { index: told_prefix(code, f) }),
                )
            } else if f.reserved.len() > 256 {
                got == Err::<(FrameHead, int), Halt>(
                    Halt::Bad(Problem::ReservedFields { count: f.reserved.len() as u64 }),
                )
            } else if flags & 256 != 0 {
                got == Err::<(FrameHead, int), Halt>(Halt::Bad(Problem::SideData))
            } else {
                got is Ok
            }
        }),
{
    let tables = known.main->Some_0;
    let code = tables.frame_codes[bytes[0] as int];
    let flags = told_flags(code, f);
    let id = told_stream(code, f);
    let at = spots(code, f);
    lemma_spots(bytes, code, f);
    lemma_flags_told(bytes, base, code, f);
    let stream = id as int;
    let last = known.clocks[stream].last_pts;
    let shift = known.streams[stream]->Some_0.msb_pts_shift;
    let told = choose|pts: i64| #[trigger] tells_pts(code, f, last as int, shift, pts as int);
    let overflows = flags & 32 != 0 && f.msb * code.size_mul + code.size_lsb > u64::MAX;
    let size = if flags & 32 != 0 {
        (f.msb * code.size_mul + code.size_lsb) as u64
    } else {
        code.size_lsb
    };
    let head = FrameHead {
        flags,
        stream: id as usize,
        pts: told,
        size,
        header_idx: told_prefix(code, f),
    };
    lemma_parts_follow(bytes, base, known, head, at);
    if id >= known.streams.len() {
        lemma_stream_read(bytes, at[0], base, code, f, known.streams.len());
    } else {
        assert(known.streams[stream] is Some);
        lemma_stream_told(bytes, at[0], base, code, f, known.streams.len());
        if forall|pts: i64| !#[trigger] tells_pts(code, f, last as int, shift, pts as int) {
            lemma_no_pts(bytes, at[1], base, code, f, last, shift);
        } else {
            lemma_pts_told(bytes, at[1], base, code, f, last, shift, told);
            if overflows {
                lemma_size_read(bytes, at[2], base, code, f);
            } else {
                assert(f.msb * code.size_mul >= 0) by (nonlinear_arith)
                    requires
                        f.msb >= 0,
                        code.size_mul >= 0,
                ;
                lemma_size_told(bytes, at[2], base, code, f, size);
                lemma_prefix_read(bytes, at[3], base, code, f, tables.elision.len());
                if told_prefix(code, f) < tables.elision.len() {
                    lemma_reserved_read(bytes, at[4], base, code, f);
                }
            }
        }
    }
}

/// A header no PTS that fits is told by.
proof fn lemma_no_pts(
    bytes: Seq<u8>,
    at: int,
    base: int,
    code: FrameCode,
    f: Fields,
    last: i64,
    shift: u32,
)
    requires
        shift < 63,
        holds_at(bytes, at, opt(told_flags(code, f) & 8 != 0, v_bytes(f.time as nat))),
        forall|pts: i64| !#[trigger] tells_pts(code, f, last as int, shift, pts as int),
    ensures
        pts_stage(bytes, at, base, code, told_flags(code, f), last, shift) == Err::<
            (i64, int),
            Halt,
        >(Halt::Bad(Problem::PtsOverflow)),
{
    reveal(opt);
    if told_flags(code, f) & 8 != 0 {
        lemma_v_round_trip(bytes, at, base, f.time);
        lemma_coded_told(last, shift, f.time);
        if let Ok(pts) = coded_pts(last, shift, f.time) {
            assert(tells_pts(code, f, last as int, shift, pts as int));
        }
    } else if crate::clock::fits(last + code.pts_delta) {
        let pts = (last + code.pts_delta) as i64;
        assert(tells_pts(code, f, last as int, shift, pts as int));
    }
}

/// An elision header that is declared, or is not.
proof fn lemma_prefix_read(bytes: Seq<u8>, at: int, base: int, code: FrameCode, f: Fields, count: nat)
    requires
        holds_at(
            bytes,
            at,
            opt(told_flags(code, f) & 2048 != 0, s_bytes(f.match_time as int)) + opt(
                told_flags(code, f) & 1024 != 0,
                v_bytes(f.header_idx as nat),
            ),
        ),
        told_flags(code, f) & 2048 != 0 ==> takes_s(f.match_time),
    ensures
        elision_stage(bytes, at, base, code, told_flags(code, f), count) == if told_prefix(code, f)
            < count {
            Ok::<(u64, int), Halt>(
                (
                    told_prefix(code, f),
                    at + opt(told_flags(code, f) & 2048 != 0, s_bytes(f.match_time as int)).len()
                        + opt(told_flags(code, f) & 1024 != 0, v_bytes(f.header_idx as nat)).len(),
                ),
            )
        } else {
            Err(Halt::Bad(Problem::ElisionUndeclared { index: told_prefix(code, f) }))
        },
{
    let flags = told_flags(code, f);
    let time = opt(flags & 2048 != 0, s_bytes(f.match_time as int));
    lemma_holds_split(bytes, at, time, opt(flags & 1024 != 0, v_bytes(f.header_idx as nat)));
    lemma_s_if_reads(flags & 2048 != 0, bytes, at, base, f.match_time, 0);
    lemma_v_if_reads(
        flags & 1024 != 0,
        bytes,
        at + time.len(),
        base,
        f.header_idx,
        code.header_idx,
    );
}

/// Reserved fields that are stepped over, or are too many, or have side data
/// behind them.
proof fn lemma_reserved_read(bytes: Seq<u8>, at: int, base: int, code: FrameCode, f: Fields)
    requires
        f.reserved.len() <= u64::MAX,
        told_flags(code, f) & 128 == 0 ==> f.reserved.len() == code.reserved_count,
        holds_at(
            bytes,
            at,
            opt(told_flags(code, f) & 128 != 0, v_bytes(f.reserved.len())) + run_bytes(f.reserved),
        ),
    ensures
        ({
            let got = reserved_stage(bytes, at, base, code, told_flags(code, f));
            if f.reserved.len() > 256 {
                got == Err::<((), int), Halt>(
                    Halt::Bad(Problem::ReservedFields { count: f.reserved.len() as u64 }),
                )
            } else if told_flags(code, f) & 256 != 0 {
                got == Err::<((), int), Halt>(Halt::Bad(Problem::SideData))
            } else {
                got is Ok
            }
        }),
{
    let flags = told_flags(code, f);
    let count = opt(flags & 128 != 0, v_bytes(f.reserved.len()));
    lemma_holds_split(bytes, at, count, run_bytes(f.reserved));
    lemma_v_if_reads(
        flags & 128 != 0,
        bytes,
        at,
        base,
        f.reserved.len() as u64,
        code.reserved_count,
    );
    lemma_run_reads(bytes, at + count.len(), base, f.reserved);
}

} // verus!
