//! Frame headers: what the bytes ahead of a frame's payload say about it.

use vstd::prelude::*;

use crate::bytes::{
    crc32, lemma_s_if_extends, lemma_u32_extends, lemma_unread_extends, lemma_v_extends,
    lemma_v_if_extends, settled, spec_crc32, spec_s_if, spec_u32, spec_v, spec_v_if, unread, Cursor,
};
use crate::clock::{coded_pts, decode_pts, fits};
use crate::error::{Halt, Parse, Problem};
use crate::flags;
use crate::known::{Known, KnownV};
use crate::tables::FrameCode;

verus! {

/// The most reserved fields one frame header may carry.
pub const MAX_RESERVED_FIELDS: u64 = 256;

/// What a frame's header says about it.
#[derive(Debug, Clone, Copy, PartialEq, Eq, Structural)]
pub struct FrameHead {
    /// The framecode's flags, with those the frame codes for itself put on.
    pub flags: u64,
    pub stream: usize,
    pub pts: i64,
    /// The whole frame, elided prefix included.
    pub size: u64,
    /// The elision header whose bytes the frame starts with.
    pub header_idx: u64,
}

/// Whether a flag is set.
pub open spec fn flagged(flags: u64, flag: u64) -> bool {
    flags & flag != 0
}

/// The largest frame a stream may carry: the ceiling for all streams, which
/// one a caller set for it narrows, and no more than this machine can hold.
pub open spec fn ceiling_for(ceilings: Seq<Option<u64>>, max_frame: u64, stream: int) -> u64 {
    let asked = if 0 <= stream < ceilings.len() && ceilings[stream] is Some
        && ceilings[stream]->Some_0 < max_frame {
        ceilings[stream]->Some_0
    } else {
        max_frame
    };
    if asked > usize::MAX {
        usize::MAX as u64
    } else {
        asked
    }
}

/// One part of a frame header: what it says, and where the next part starts.
pub type Stage<T> = Result<(T, int), Halt>;

/// The flags of a frame: its framecode's, with those it codes for itself put
/// on.
pub open spec fn flags_stage(bytes: Seq<u8>, base: int, code: FrameCode) -> Stage<u64> {
    match spec_v_if(flagged(code.flags, flags::CODED), bytes, 1, base, 0) {
        (Ok(coded), next) => Ok((code.flags ^ coded, next)),
        (Err(halt), _) => Err(halt),
    }
}

/// The stream a frame belongs to.
pub open spec fn stream_stage(
    bytes: Seq<u8>,
    at: int,
    base: int,
    code: FrameCode,
    flags: u64,
    count: nat,
) -> Stage<usize> {
    match spec_v_if(flagged(flags, flags::STREAM_ID), bytes, at, base, code.stream_id) {
        (Ok(id), next) => if id >= count {
            Err(Halt::Bad(Problem::FrameStreamUndeclared { id }))
        } else {
            Ok((id as usize, next))
        },
        (Err(halt), _) => Err(halt),
    }
}

/// The PTS of a frame: coded, whole or in its low bits, or the last one and
/// the step its framecode gives.
pub open spec fn pts_stage(
    bytes: Seq<u8>,
    at: int,
    base: int,
    code: FrameCode,
    flags: u64,
    last: i64,
    shift: u32,
) -> Stage<i64> {
    if flagged(flags, flags::CODED_PTS) {
        match spec_v(bytes, at, base) {
            (Ok(coded), next) => match coded_pts(last, shift, coded) {
                Ok(pts) => Ok((pts, next)),
                Err(problem) => Err(Halt::Bad(problem)),
            },
            (Err(halt), _) => Err(halt),
        }
    } else if fits(last + code.pts_delta) {
        Ok(((last + code.pts_delta) as i64, at))
    } else {
        Err(Halt::Bad(Problem::PtsOverflow))
    }
}

/// The size of a frame, elided prefix included.
pub open spec fn size_stage(bytes: Seq<u8>, at: int, base: int, code: FrameCode, flags: u64) -> Stage<
    u64,
> {
    if flagged(flags, flags::SIZE_MSB) {
        match spec_v(bytes, at, base) {
            (Ok(msb), next) => if msb * code.size_mul + code.size_lsb > u64::MAX {
                Err(Halt::Bad(Problem::SizeOverflow))
            } else {
                Ok(((msb * code.size_mul + code.size_lsb) as u64, next))
            },
            (Err(halt), _) => Err(halt),
        }
    } else {
        Ok((code.size_lsb, at))
    }
}

/// The elision header whose bytes a frame starts with.
pub open spec fn elision_stage(
    bytes: Seq<u8>,
    at: int,
    base: int,
    code: FrameCode,
    flags: u64,
    count: nat,
) -> Stage<u64> {
    match spec_s_if(flagged(flags, flags::MATCH_TIME), bytes, at, base, 0) {
        (Ok(_), at) => match spec_v_if(
            flagged(flags, flags::HEADER_IDX),
            bytes,
            at,
            base,
            code.header_idx,
        ) {
            (Ok(index), next) => if index >= count {
                Err(Halt::Bad(Problem::ElisionUndeclared { index }))
            } else {
                Ok((index, next))
            },
            (Err(halt), _) => Err(halt),
        },
        (Err(halt), _) => Err(halt),
    }
}

/// The reserved fields of a frame header, which are stepped over, and the
/// side data it may not have.
pub open spec fn reserved_stage(
    bytes: Seq<u8>,
    at: int,
    base: int,
    code: FrameCode,
    flags: u64,
) -> Stage<()> {
    match spec_v_if(flagged(flags, flags::RESERVED), bytes, at, base, code.reserved_count) {
        (Ok(count), at) => if count > MAX_RESERVED_FIELDS {
            Err(Halt::Bad(Problem::ReservedFields { count }))
        } else {
            match unread(bytes, at, base, count as nat) {
                Ok(next) => if flagged(flags, flags::SM_DATA) {
                    Err(Halt::Bad(Problem::SideData))
                } else {
                    Ok(((), next))
                },
                Err(halt) => Err(halt),
            }
        },
        (Err(halt), _) => Err(halt),
    }
}

/// The checksum over a frame header's own bytes that closes it, where there
/// is one.
pub open spec fn checksum_stage(bytes: Seq<u8>, at: int, flags: u64) -> Stage<()> {
    if flagged(flags, flags::CHECKSUM) {
        match spec_u32(bytes, at) {
            (Ok(carried), next) => {
                let computed = spec_crc32(bytes.subrange(0, at));
                if computed != carried {
                    Err(Halt::Bad(Problem::FrameChecksum { computed, carried }))
                } else {
                    Ok(((), next))
                }
            },
            (Err(halt), _) => Err(halt),
        }
    } else {
        Ok(((), at))
    }
}

/// A frame whose header has been read: the elided prefix fits in it, and it
/// is no larger than its stream may carry.
pub open spec fn frame_fits(head: FrameHead, elided: nat, ceiling: u64) -> Result<(), Problem> {
    if elided > head.size {
        Err(Problem::ElidesPastEnd { size: head.size, elided: elided as u64 })
    } else if head.size > ceiling {
        Err(Problem::FrameTooLarge { size: head.size, ceiling })
    } else {
        Ok(())
    }
}

/// The parts of a frame header ahead of its checksum.
pub open spec fn frame_parts(bytes: Seq<u8>, base: int, known: KnownV) -> Stage<FrameHead> {
    let tables = known.main->Some_0;
    let code = tables.frame_codes[bytes[0] as int];
    if flagged(code.flags, flags::INVALID) {
        Err(Halt::Bad(Problem::FrameCodeInvalid { byte: bytes[0] }))
    } else {
        match flags_stage(bytes, base, code) {
            Err(halt) => Err(halt),
            Ok((flags, at)) => match stream_stage(
                bytes,
                at,
                base,
                code,
                flags,
                known.streams.len(),
            ) {
                Err(halt) => Err(halt),
                Ok((stream, at)) => match pts_stage(
                    bytes,
                    at,
                    base,
                    code,
                    flags,
                    known.clocks[stream as int].last_pts,
                    known.streams[stream as int]->Some_0.msb_pts_shift,
                ) {
                    Err(halt) => Err(halt),
                    Ok((pts, at)) => match size_stage(bytes, at, base, code, flags) {
                        Err(halt) => Err(halt),
                        Ok((size, at)) => match elision_stage(
                            bytes,
                            at,
                            base,
                            code,
                            flags,
                            tables.elision.len(),
                        ) {
                            Err(halt) => Err(halt),
                            Ok((header_idx, at)) => match reserved_stage(
                                bytes,
                                at,
                                base,
                                code,
                                flags,
                            ) {
                                Err(halt) => Err(halt),
                                Ok((_, at)) => Ok(
                                    (FrameHead { flags, stream, pts, size, header_idx }, at),
                                ),
                            },
                        },
                    },
                },
            },
        }
    }
}

/// A frame header at the front of some bytes: what it says, and how long it
/// is.
pub open spec fn frame_head(
    bytes: Seq<u8>,
    base: int,
    known: KnownV,
    ceilings: Seq<Option<u64>>,
    max_frame: u64,
) -> Stage<FrameHead> {
    match frame_parts(bytes, base, known) {
        Err(halt) => Err(halt),
        Ok((head, at)) => match checksum_stage(bytes, at, head.flags) {
            Err(halt) => Err(halt),
            Ok((_, at)) => match frame_fits(
                head,
                known.main->Some_0.elision[head.header_idx as int].len(),
                ceiling_for(ceilings, max_frame, head.stream as int),
            ) {
                Err(problem) => Err(Halt::Bad(problem)),
                Ok(_) => Ok((head, at)),
            },
        },
    }
}

/// The parts of a frame header read the same whatever follows them, once they
/// have settled.
proof fn lemma_frame_parts_extends(bytes: Seq<u8>, more: Seq<u8>, base: int, known: KnownV)
    requires
        bytes.len() >= 1,
    ensures
        settled(frame_parts(bytes, base, known)) ==> frame_parts(bytes + more, base, known)
            == frame_parts(bytes, base, known),
        frame_parts(bytes, base, known) matches Ok((head, at)) ==> {
            &&& 1 <= at <= bytes.len()
            &&& head.stream < known.streams.len()
            &&& head.header_idx < known.main->Some_0.elision.len()
        },
{
    let tables = known.main->Some_0;
    let code = tables.frame_codes[bytes[0] as int];
    assert((bytes + more)[0] == bytes[0]);
    lemma_v_if_extends(flagged(code.flags, flags::CODED), bytes, more, 1, base, 0);
    if let Ok((flags, at)) = flags_stage(bytes, base, code) {
        lemma_v_if_extends(
            flagged(flags, flags::STREAM_ID),
            bytes,
            more,
            at,
            base,
            code.stream_id,
        );
        if let Ok((stream, at)) = stream_stage(bytes, at, base, code, flags, known.streams.len()) {
            lemma_v_extends(bytes, more, at, base);
            let last = known.clocks[stream as int].last_pts;
            let shift = known.streams[stream as int]->Some_0.msb_pts_shift;
            if let Ok((pts, at)) = pts_stage(bytes, at, base, code, flags, last, shift) {
                lemma_v_extends(bytes, more, at, base);
                if let Ok((size, at)) = size_stage(bytes, at, base, code, flags) {
                    lemma_elision_stage_extends(
                        bytes,
                        more,
                        at,
                        base,
                        code,
                        flags,
                        tables.elision.len(),
                    );
                    if let Ok((index, at)) = elision_stage(
                        bytes,
                        at,
                        base,
                        code,
                        flags,
                        tables.elision.len(),
                    ) {
                        lemma_reserved_stage_extends(bytes, more, at, base, code, flags);
                    }
                }
            }
        }
    }
}

proof fn lemma_elision_stage_extends(
    bytes: Seq<u8>,
    more: Seq<u8>,
    at: int,
    base: int,
    code: FrameCode,
    flags: u64,
    count: nat,
)
    requires
        0 <= at <= bytes.len(),
    ensures
        settled(elision_stage(bytes, at, base, code, flags, count)) ==> elision_stage(
            bytes + more,
            at,
            base,
            code,
            flags,
            count,
        ) == elision_stage(bytes, at, base, code, flags, count),
        elision_stage(bytes, at, base, code, flags, count) matches Ok((index, next)) ==> index < count
            && at <= next <= bytes.len(),
{
    lemma_s_if_extends(flagged(flags, flags::MATCH_TIME), bytes, more, at, base, 0);
    let next = spec_s_if(flagged(flags, flags::MATCH_TIME), bytes, at, base, 0).1;
    lemma_v_if_extends(flagged(flags, flags::HEADER_IDX), bytes, more, next, base, code.header_idx);
}

proof fn lemma_reserved_stage_extends(
    bytes: Seq<u8>,
    more: Seq<u8>,
    at: int,
    base: int,
    code: FrameCode,
    flags: u64,
)
    requires
        0 <= at <= bytes.len(),
    ensures
        settled(reserved_stage(bytes, at, base, code, flags)) ==> reserved_stage(
            bytes + more,
            at,
            base,
            code,
            flags,
        ) == reserved_stage(bytes, at, base, code, flags),
        reserved_stage(bytes, at, base, code, flags) matches Ok((_, next)) ==> at <= next <= bytes.len(),
{
    let there = flagged(flags, flags::RESERVED);
    lemma_v_if_extends(there, bytes, more, at, base, code.reserved_count);
    let count = spec_v_if(there, bytes, at, base, code.reserved_count);
    lemma_unread_extends(bytes, more, count.1, base, count.0->Ok_0 as nat);
}

/// A frame header that has settled reads the same whatever follows it.
pub proof fn lemma_frame_head_extends(
    bytes: Seq<u8>,
    more: Seq<u8>,
    base: int,
    known: KnownV,
    ceilings: Seq<Option<u64>>,
    max_frame: u64,
)
    requires
        bytes.len() >= 1,
    ensures
        settled(frame_head(bytes, base, known, ceilings, max_frame)) ==> frame_head(
            bytes + more,
            base,
            known,
            ceilings,
            max_frame,
        ) == frame_head(bytes, base, known, ceilings, max_frame),
{
    lemma_frame_parts_extends(bytes, more, base, known);
    if let Ok((head, at)) = frame_parts(bytes, base, known) {
        lemma_u32_extends(bytes, more, at);
        assert((bytes + more).subrange(0, at) =~= bytes.subrange(0, at));
    }
}

/// A frame header that is read is for a declared stream, names a declared
/// elision header that fits in its frame, and claims no more than that
/// stream's ceiling.
pub proof fn lemma_frame_head(
    bytes: Seq<u8>,
    base: int,
    known: KnownV,
    ceilings: Seq<Option<u64>>,
    max_frame: u64,
)
    requires
        bytes.len() >= 1,
    ensures
        frame_head(bytes, base, known, ceilings, max_frame) matches Ok((head, len)) ==> {
            &&& head.stream < known.streams.len()
            &&& head.header_idx < known.main->Some_0.elision.len()
            &&& known.main->Some_0.elision[head.header_idx as int].len() <= head.size
            &&& head.size <= ceiling_for(ceilings, max_frame, head.stream as int)
            &&& 1 <= len <= bytes.len()
        },
{
    lemma_frame_parts_extends(bytes, Seq::empty(), base, known);
    if let Ok((head, at)) = frame_parts(bytes, base, known) {
        lemma_u32_extends(bytes, Seq::empty(), at);
    }
}

/// The largest frame a stream may carry.
fn ceiling(ceilings: &Vec<Option<u64>>, max_frame: u64, stream: usize) -> (ceiling: u64)
    ensures
        ceiling == ceiling_for(ceilings@, max_frame, stream as int),
{
    let asked = if stream < ceilings.len() {
        match ceilings[stream] {
            Some(asked) => if asked < max_frame {
                asked
            } else {
                max_frame
            },
            None => max_frame,
        }
    } else {
        max_frame
    };
    if asked > usize::MAX as u64 {
        usize::MAX as u64
    } else {
        asked
    }
}

/// The PTS of a frame.
fn read_pts(r: &mut Cursor<'_>, code: FrameCode, flags: u64, last: i64, shift: u32) -> (read: Parse<
    i64,
>)
    requires
        old(r).wf(),
        shift < 63,
    ensures
        final(r).wf(),
        match pts_stage(
            old(r).bytes@,
            old(r).at as int,
            old(r).base as int,
            code,
            flags,
            last,
            shift,
        ) {
            Ok((pts, next)) => read == Ok::<i64, Halt>(pts) && old(r).moved_to(*final(r), next),
            Err(halt) => read == Err::<i64, Halt>(halt),
        },
{
    if flags & flags::CODED_PTS != 0 {
        let coded = r.v()?;
        match decode_pts(last, shift, coded) {
            Ok(pts) => Ok(pts),
            Err(problem) => Err(Halt::Bad(problem)),
        }
    } else {
        match last.checked_add(code.pts_delta) {
            Some(pts) => Ok(pts),
            None => Err(Halt::Bad(Problem::PtsOverflow)),
        }
    }
}

/// The size of a frame, elided prefix included.
fn read_size(r: &mut Cursor<'_>, code: FrameCode, flags: u64) -> (read: Parse<u64>)
    requires
        old(r).wf(),
    ensures
        final(r).wf(),
        match size_stage(old(r).bytes@, old(r).at as int, old(r).base as int, code, flags) {
            Ok((size, next)) => read == Ok::<u64, Halt>(size) && old(r).moved_to(*final(r), next),
            Err(halt) => read == Err::<u64, Halt>(halt),
        },
{
    if flags & flags::SIZE_MSB != 0 {
        let msb = r.v()?;
        assert(msb * code.size_mul >= 0) by (nonlinear_arith)
            requires
                msb >= 0,
                code.size_mul >= 0,
        ;
        let scaled = match msb.checked_mul(code.size_mul) {
            Some(scaled) => scaled,
            None => {
                return Err(Halt::Bad(Problem::SizeOverflow));
            },
        };
        match scaled.checked_add(code.size_lsb) {
            Some(size) => Ok(size),
            None => Err(Halt::Bad(Problem::SizeOverflow)),
        }
    } else {
        Ok(code.size_lsb)
    }
}

/// The parts of a frame header ahead of its checksum.
fn read_frame_parts(r: &mut Cursor<'_>, known: &Known) -> (read: Parse<FrameHead>)
    requires
        old(r).wf(),
        old(r).at == 0,
        old(r).bytes@.len() >= 1,
        known@.wf(),
        known@.complete(),
    ensures
        final(r).wf(),
        match frame_parts(old(r).bytes@, old(r).base as int, known@) {
            Ok((head, next)) => read == Ok::<FrameHead, Halt>(head) && old(r).moved_to(
                *final(r),
                next,
            ),
            Err(halt) => read == Err::<FrameHead, Halt>(halt),
        },
{
    let first = r.u8()?;
    let tables = match &known.main {
        Some(tables) => tables,
        None => {
            return Err(Halt::Bad(Problem::FrameBeforeHeaders));
        },
    };
    let code = tables.frame_codes[first as usize];
    if code.flags & flags::INVALID != 0 {
        return Err(Halt::Bad(Problem::FrameCodeInvalid { byte: first }));
    }
    let coded = r.v_if(code.flags & flags::CODED != 0, 0)?;
    let flags = code.flags ^ coded;
    let id = r.v_if(flags & flags::STREAM_ID != 0, code.stream_id)?;
    if id >= known.streams.len() as u64 {
        return Err(Halt::Bad(Problem::FrameStreamUndeclared { id }));
    }
    let stream = id as usize;
    proof {
        assert(known@.streams[stream as int] is Some);
        assert(known@.streams[stream as int] == crate::known::stream_view(
            known.streams@[stream as int],
        ));
    }
    let shift = match &known.streams[stream] {
        Some(described) => described.msb_pts_shift,
        None => 14,
    };
    let pts = read_pts(r, code, flags, known.clocks[stream].last_pts, shift)?;
    let size = read_size(r, code, flags)?;
    r.s_if(flags & flags::MATCH_TIME != 0, 0)?;
    let header_idx = r.v_if(flags & flags::HEADER_IDX != 0, code.header_idx)?;
    if header_idx >= tables.elision.len() as u64 {
        return Err(Halt::Bad(Problem::ElisionUndeclared { index: header_idx }));
    }
    let reserved_count = r.v_if(flags & flags::RESERVED != 0, code.reserved_count)?;
    if reserved_count > MAX_RESERVED_FIELDS {
        return Err(Halt::Bad(Problem::ReservedFields { count: reserved_count }));
    }
    r.read_past(reserved_count)?;
    if flags & flags::SM_DATA != 0 {
        return Err(Halt::Bad(Problem::SideData));
    }
    Ok(FrameHead { flags, stream, pts, size, header_idx })
}

/// Reads a frame header off the front of some bytes.
pub fn read_frame_head(
    bytes: &[u8],
    base: u64,
    known: &Known,
    ceilings: &Vec<Option<u64>>,
    max_frame: u64,
) -> (read: Parse<(FrameHead, usize)>)
    requires
        bytes@.len() >= 1,
        base + bytes@.len() <= u64::MAX,
        known@.wf(),
        known@.complete(),
    ensures
        match frame_head(bytes@, base as int, known@, ceilings@, max_frame) {
            Ok((head, len)) => read matches Ok(got) && got.0 == head && got.1 == len,
            Err(halt) => read matches Err(got) && got == halt,
        },
{
    let mut r = Cursor::new(bytes, base);
    let head = read_frame_parts(&mut r, known)?;
    proof {
        lemma_frame_parts_extends(bytes@, Seq::empty(), base as int, known@);
    }
    if head.flags & flags::CHECKSUM != 0 {
        let computed = crc32(r.since(0));
        let carried = r.u32()?;
        if computed != carried {
            return Err(Halt::Bad(Problem::FrameChecksum { computed, carried }));
        }
    }
    // The size counts the whole frame, elided prefix included; the wire
    // carries only what follows the prefix.
    let elided = match &known.main {
        Some(tables) => tables.elision[head.header_idx as usize].len() as u64,
        None => 0,
    };
    if elided > head.size {
        return Err(Halt::Bad(Problem::ElidesPastEnd { size: head.size, elided }));
    }
    let ceiling = ceiling(ceilings, max_frame, head.stream);
    if head.size > ceiling {
        return Err(Halt::Bad(Problem::FrameTooLarge { size: head.size, ceiling }));
    }
    Ok((head, r.at()))
}

} // verus!
