//! The main header: what it settles for the whole stream, and the tables it
//! leaves behind for reading frames.

use vstd::prelude::*;

use crate::bytes::{spec_s_if, spec_v, spec_v_if, spec_vb, unread, Cursor, Read};
use crate::error::{ErrorKind, Halt, Parse, Part, Problem};
use crate::flags;
use crate::stream::TimeBase;
use crate::VERSION;

verus! {

/// The most elision headers a main header may declare, and the widest one.
/// ffmpeg's own bounds.
pub const MAX_ELISION_HEADERS: u64 = 128;

pub const MAX_ELISION_BYTES: u64 = 256;

/// The most time bases a main header may declare.
pub const MAX_TIME_BASES: u64 = 64;

/// How many entries the framecode table has, and the most groups a main
/// header may describe it in.
pub const FRAME_CODES: usize = 256;

/// The most fields one framecode group may have.
pub const MAX_GROUP_FIELDS: u64 = 64;

/// The byte every startcode opens with, `N`, which can never be a framecode.
pub const STARTCODE_BYTE: u8 = 78;

/// What the main header settles for the whole stream.
#[derive(Debug, PartialEq, Eq)]
pub struct MainHeader {
    /// The NUT version. Always [`VERSION`]: another is refused.
    pub version: u64,
    pub stream_count: usize,
    /// How far apart the writer promised to put syncpoints, in bytes.
    pub max_distance: u64,
    pub time_bases: Vec<TimeBase>,
}

/// A main header as a value.
#[verifier::ext_equal]
pub struct MainHeaderV {
    pub version: u64,
    pub stream_count: usize,
    pub max_distance: u64,
    pub time_bases: Seq<TimeBase>,
}

impl View for MainHeader {
    type V = MainHeaderV;

    open spec fn view(&self) -> MainHeaderV {
        MainHeaderV {
            version: self.version,
            stream_count: self.stream_count,
            max_distance: self.max_distance,
            time_bases: self.time_bases@,
        }
    }
}

impl Clone for MainHeader {
    fn clone(&self) -> (copy: MainHeader)
        ensures
            copy@ == self@,
    {
        MainHeader {
            version: self.version,
            stream_count: self.stream_count,
            max_distance: self.max_distance,
            time_bases: copy_time_bases(&self.time_bases),
        }
    }
}

/// A copy of some time bases.
fn copy_time_bases(time_bases: &Vec<TimeBase>) -> (copy: Vec<TimeBase>)
    ensures
        copy@ == time_bases@,
{
    let mut copy: Vec<TimeBase> = Vec::new();
    let mut i: usize = 0;
    while i < time_bases.len()
        invariant
            i <= time_bases@.len(),
            copy@ == time_bases@.take(i as int),
        decreases time_bases@.len() - i,
    {
        copy.push(time_bases[i]);
        i += 1;
        assert(copy@ =~= time_bases@.take(i as int));
    }
    assert(time_bases@.take(i as int) =~= time_bases@);
    copy
}

/// One entry of the framecode table: what a single frame-header byte says
/// about the frame that follows it.
#[derive(Debug, Clone, Copy, PartialEq, Eq, Structural)]
pub struct FrameCode {
    pub flags: u64,
    pub stream_id: u64,
    pub size_mul: u64,
    pub size_lsb: u64,
    pub pts_delta: i64,
    pub reserved_count: u64,
    pub header_idx: u64,
}

/// What the main header left behind for reading frames.
pub struct Tables {
    pub time_bases: Vec<TimeBase>,
    pub frame_codes: Vec<FrameCode>,
    /// The elision headers, entry 0 the empty one no frame names. A frame
    /// whose `header_idx` names another starts with that entry's bytes, and
    /// the wire carries only the rest.
    pub elision: Vec<Vec<u8>>,
}

/// The tables as a value.
#[verifier::ext_equal]
pub struct TablesV {
    pub time_bases: Seq<TimeBase>,
    pub frame_codes: Seq<FrameCode>,
    pub elision: Seq<Seq<u8>>,
}

/// What some byte strings hold.
pub open spec fn strings_view(strings: Seq<Vec<u8>>) -> Seq<Seq<u8>> {
    strings.map_values(|string: Vec<u8>| string@)
}

impl View for Tables {
    type V = TablesV;

    open spec fn view(&self) -> TablesV {
        TablesV {
            time_bases: self.time_bases@,
            frame_codes: self.frame_codes@,
            elision: strings_view(self.elision@),
        }
    }
}

impl TablesV {
    /// Every time base is a rate, every frame-header byte has an entry and
    /// the one startcodes open with has an invalid one, and every elision
    /// header but the empty first is within its bounds.
    pub open spec fn wf(self) -> bool {
        &&& 1 <= self.time_bases.len() <= MAX_TIME_BASES
        &&& forall|i: int|
            0 <= i < self.time_bases.len() ==> (#[trigger] self.time_bases[i]).num > 0
                && self.time_bases[i].den > 0
        &&& self.frame_codes.len() == FRAME_CODES
        &&& self.frame_codes[STARTCODE_BYTE as int] == invalid_code()
        &&& 1 <= self.elision.len() <= MAX_ELISION_HEADERS + 1
        &&& self.elision[0].len() == 0
        &&& forall|i: int|
            1 <= i < self.elision.len() ==> 1 <= (#[trigger] self.elision[i]).len()
                <= MAX_ELISION_BYTES
    }
}

// The fields.

/// A `v` field of a packet body.
pub open spec fn body_v(body: Seq<u8>, at: int) -> Read<u64> {
    spec_v(body, at, 0)
}

/// The time bases of a main header, `left` of which are still to be read.
pub open spec fn time_bases_from(
    body: Seq<u8>,
    at: int,
    left: nat,
    read: Seq<TimeBase>,
) -> Result<(Seq<TimeBase>, int), Halt>
    decreases left,
{
    if left == 0 {
        Ok((read, at))
    } else {
        let num = body_v(body, at);
        let den = body_v(body, num.1);
        if num.0 is Err {
            Err(num.0->Err_0)
        } else if den.0 is Err {
            Err(den.0->Err_0)
        } else if num.0->Ok_0 == 0 || den.0->Ok_0 == 0 {
            Err(Halt::Bad(Problem::TimeBaseNotARate { num: num.0->Ok_0, den: den.0->Ok_0 }))
        } else {
            time_bases_from(
                body,
                den.1,
                (left - 1) as nat,
                read.push(TimeBase { num: num.0->Ok_0, den: den.0->Ok_0 }),
            )
        }
    }
}

/// The elision headers of a main header, `left` of which are still to be
/// read.
pub open spec fn elision_from(
    body: Seq<u8>,
    at: int,
    left: nat,
    read: Seq<Seq<u8>>,
) -> Result<(Seq<Seq<u8>>, int), Halt>
    decreases left,
{
    if left == 0 {
        Ok((read, at))
    } else {
        let header = spec_vb(body, at, 0, Part::ElisionHeader);
        if header.0 is Err {
            Err(header.0->Err_0)
        } else if header.0->Ok_0.len() == 0 || header.0->Ok_0.len() > MAX_ELISION_BYTES {
            Err(
                Halt::Bad(
                    Problem::ElisionHeader {
                        index: read.len() as u64,
                        len: header.0->Ok_0.len() as u64,
                    },
                ),
            )
        } else {
            elision_from(body, header.1, (left - 1) as nat, read.push(header.0->Ok_0))
        }
    }
}

/// What one group of the framecode table leaves for the next.
pub struct Carried {
    pub pts_delta: i64,
    pub size_mul: u64,
    pub stream_id: u64,
    pub header_idx: u64,
}

/// What nothing has yet been said about.
pub open spec fn carried_at_first() -> Carried {
    Carried { pts_delta: 0, size_mul: 1, stream_id: 0, header_idx: 0 }
}

/// One group of the framecode table: what its entries share, how far apart
/// they step, and how many there are.
pub struct Group {
    pub flags: u64,
    pub carried: Carried,
    pub size_lsb: u64,
    pub reserved_count: u64,
    pub count: u64,
}

/// One group as the main header describes it. A group states as many fields
/// as it has to; those it does not state are carried from the group before it
/// or are zero, and a count it does not state is what the step leaves. `base`
/// is where the bytes sit in the stream, for a message that names a place.
pub open spec fn group_at(body: Seq<u8>, at: int, base: int, carried: Carried) -> Result<
    (Group, int),
    Halt,
> {
    let flags = spec_v(body, at, base);
    let fields = spec_v(body, flags.1, base);
    let n = fields.0->Ok_0;
    let pts_delta = spec_s_if(n > 0, body, fields.1, base, carried.pts_delta);
    let size_mul = spec_v_if(n > 1, body, pts_delta.1, base, carried.size_mul);
    let stream_id = spec_v_if(n > 2, body, size_mul.1, base, carried.stream_id);
    let size_lsb = spec_v_if(n > 3, body, stream_id.1, base, 0);
    let reserved = spec_v_if(n > 4, body, size_lsb.1, base, 0);
    let step = if size_mul.0->Ok_0 >= size_lsb.0->Ok_0 {
        (size_mul.0->Ok_0 - size_lsb.0->Ok_0) as u64
    } else {
        0
    };
    let count = spec_v_if(n > 5, body, reserved.1, base, step);
    let match_time = spec_s_if(n > 6, body, count.1, base, 0);
    let header_idx = spec_v_if(n > 7, body, match_time.1, base, carried.header_idx);
    let rest = unread(
        body,
        header_idx.1,
        base,
        if n > 8 {
            (n - 8) as nat
        } else {
            0
        },
    );
    if flags.0 is Err {
        Err(flags.0->Err_0)
    } else if fields.0 is Err {
        Err(fields.0->Err_0)
    } else if n > MAX_GROUP_FIELDS {
        Err(Halt::Bad(Problem::FrameCodeFields { fields: n }))
    } else if pts_delta.0 is Err {
        Err(pts_delta.0->Err_0)
    } else if size_mul.0 is Err {
        Err(size_mul.0->Err_0)
    } else if stream_id.0 is Err {
        Err(stream_id.0->Err_0)
    } else if size_lsb.0 is Err {
        Err(size_lsb.0->Err_0)
    } else if reserved.0 is Err {
        Err(reserved.0->Err_0)
    } else if count.0 is Err {
        Err(count.0->Err_0)
    } else if match_time.0 is Err {
        Err(match_time.0->Err_0)
    } else if header_idx.0 is Err {
        Err(header_idx.0->Err_0)
    } else if rest is Err {
        Err(rest->Err_0)
    } else {
        Ok(
            (
                Group {
                    flags: flags.0->Ok_0,
                    carried: Carried {
                        pts_delta: pts_delta.0->Ok_0,
                        size_mul: size_mul.0->Ok_0,
                        stream_id: stream_id.0->Ok_0,
                        header_idx: header_idx.0->Ok_0,
                    },
                    size_lsb: size_lsb.0->Ok_0,
                    reserved_count: reserved.0->Ok_0,
                    count: count.0->Ok_0,
                },
                rest->Ok_0,
            ),
        )
    }
}

/// The entry no frame may use.
pub open spec fn invalid_code() -> FrameCode {
    FrameCode {
        flags: flags::INVALID,
        stream_id: 0,
        size_mul: 0,
        size_lsb: 0,
        pts_delta: 0,
        reserved_count: 0,
        header_idx: 0,
    }
}

/// A group's entry number `taken`: the low part of the size steps, the rest
/// is shared.
pub open spec fn group_code(group: Group, taken: nat) -> FrameCode {
    let lsb = group.size_lsb + taken;
    FrameCode {
        flags: group.flags,
        stream_id: group.carried.stream_id,
        size_mul: group.carried.size_mul,
        size_lsb: if lsb > u64::MAX {
            u64::MAX
        } else {
            lsb as u64
        },
        pts_delta: group.carried.pts_delta,
        reserved_count: group.reserved_count,
        header_idx: group.carried.header_idx,
    }
}

/// The table once a group, `taken` of whose entries are in it, has put in the
/// rest of them. Every startcode opens with the byte `N`, so it can never be a
/// framecode: it takes a slot in the table and none of the group's count.
pub open spec fn with_group(codes: Seq<FrameCode>, group: Group, taken: nat) -> Seq<FrameCode>
    decreases FRAME_CODES - codes.len(),
{
    if taken >= group.count || codes.len() >= FRAME_CODES {
        codes
    } else if codes.len() == STARTCODE_BYTE {
        with_group(codes.push(invalid_code()), group, taken)
    } else {
        with_group(codes.push(group_code(group, taken)), group, taken + 1)
    }
}

/// The framecode table, some groups of which have been read.
pub open spec fn codes_from(
    body: Seq<u8>,
    at: int,
    base: int,
    codes: Seq<FrameCode>,
    carried: Carried,
    groups: nat,
) -> Result<(Seq<FrameCode>, int), Halt>
    decreases FRAME_CODES - groups,
{
    if codes.len() >= FRAME_CODES {
        Ok((codes, at))
    } else if groups >= FRAME_CODES {
        Err(Halt::Bad(Problem::FrameCodeGroups))
    } else {
        match group_at(body, at, base, carried) {
            Ok((group, next)) => codes_from(
                body,
                next,
                base,
                with_group(codes, group, 0),
                group.carried,
                groups + 1,
            ),
            Err(halt) => Err(halt),
        }
    }
}

/// A main header's body: what it says, and the tables it leaves.
pub open spec fn main_fields(body: Seq<u8>, max_streams: usize) -> Result<
    (MainHeaderV, TablesV),
    Halt,
> {
    let version = body_v(body, 0);
    let streams = body_v(body, version.1);
    let distance = body_v(body, streams.1);
    let bases = body_v(body, distance.1);
    let time_bases = time_bases_from(body, bases.1, bases.0->Ok_0 as nat, Seq::empty());
    let codes = codes_from(body, time_bases->Ok_0.1, 0, Seq::empty(), carried_at_first(), 0);
    let headers = body_v(body, codes->Ok_0.1);
    let elision = elision_from(
        body,
        headers.1,
        headers.0->Ok_0 as nat,
        seq![Seq::<u8>::empty()],
    );
    if version.0 is Err {
        Err(version.0->Err_0)
    } else if version.0->Ok_0 != VERSION {
        Err(Halt::Bad(Problem::Version { version: version.0->Ok_0 }))
    } else if streams.0 is Err {
        Err(streams.0->Err_0)
    } else if streams.0->Ok_0 == 0 || streams.0->Ok_0 > max_streams {
        Err(Halt::Bad(Problem::StreamsDeclared { count: streams.0->Ok_0 }))
    } else if distance.0 is Err {
        Err(distance.0->Err_0)
    } else if bases.0 is Err {
        Err(bases.0->Err_0)
    } else if bases.0->Ok_0 == 0 || bases.0->Ok_0 > MAX_TIME_BASES {
        Err(Halt::Bad(Problem::TimeBasesDeclared { count: bases.0->Ok_0 }))
    } else if time_bases is Err {
        Err(time_bases->Err_0)
    } else if codes is Err {
        Err(codes->Err_0)
    } else if headers.0 is Err {
        Err(headers.0->Err_0)
    } else if headers.0->Ok_0 > MAX_ELISION_HEADERS {
        Err(Halt::Bad(Problem::ElisionHeaders { count: headers.0->Ok_0 }))
    } else if elision is Err {
        Err(elision->Err_0)
    } else {
        Ok(
            (
                MainHeaderV {
                    version: VERSION,
                    stream_count: streams.0->Ok_0 as usize,
                    max_distance: distance.0->Ok_0,
                    time_bases: time_bases->Ok_0.0,
                },
                TablesV {
                    time_bases: time_bases->Ok_0.0,
                    frame_codes: codes->Ok_0.0,
                    elision: elision->Ok_0.0,
                },
            ),
        )
    }
}

fn read_time_bases(r: &mut Cursor<'_>, count: u64) -> (read: Parse<Vec<TimeBase>>)
    requires
        old(r).wf(),
        old(r).base == 0,
    ensures
        final(r).wf(),
        match time_bases_from(old(r).bytes@, old(r).at as int, count as nat, Seq::empty()) {
            Ok((bases, next)) => read matches Ok(got) && got@ == bases && old(r).moved_to(
                *final(r),
                next,
            ),
            Err(halt) => read matches Err(got) && got == halt,
        },
{
    let ghost start = *r;
    let mut time_bases: Vec<TimeBase> = Vec::new();
    let mut left: u64 = count;
    while left > 0
        invariant
            start == *old(r),
            start.base == 0,
            start.moved_to(*r, r.at as int),
            left <= count,
            time_bases_from(start.bytes@, start.at as int, count as nat, Seq::empty())
                == time_bases_from(start.bytes@, r.at as int, left as nat, time_bases@),
        decreases left,
    {
        let num = r.v()?;
        let den = r.v()?;
        if num == 0 || den == 0 {
            return Err(Halt::Bad(Problem::TimeBaseNotARate { num, den }));
        }
        time_bases.push(TimeBase { num, den });
        left -= 1;
    }
    Ok(time_bases)
}

fn read_elision(r: &mut Cursor<'_>, count: u64) -> (read: Parse<Vec<Vec<u8>>>)
    requires
        old(r).wf(),
        old(r).base == 0,
        count <= MAX_ELISION_HEADERS,
    ensures
        final(r).wf(),
        match elision_from(
            old(r).bytes@,
            old(r).at as int,
            count as nat,
            seq![Seq::<u8>::empty()],
        ) {
            Ok((headers, next)) => read matches Ok(got) && strings_view(got@) == headers,
            Err(halt) => read matches Err(got) && got == halt,
        },
{
    let ghost start = *r;
    let mut elision: Vec<Vec<u8>> = Vec::new();
    elision.push(Vec::new());
    assert(strings_view(elision@) =~= seq![Seq::<u8>::empty()]);
    let mut left: u64 = count;
    while left > 0
        invariant
            start == *old(r),
            start.base == 0,
            start.moved_to(*r, r.at as int),
            left <= count <= MAX_ELISION_HEADERS,
            elision@.len() == count - left + 1,
            elision_from(
                start.bytes@,
                start.at as int,
                count as nat,
                seq![Seq::<u8>::empty()],
            ) == elision_from(start.bytes@, r.at as int, left as nat, strings_view(elision@)),
        decreases left,
    {
        let header = r.vb(Part::ElisionHeader)?;
        if header.len() == 0 || header.len() as u64 > MAX_ELISION_BYTES {
            return Err(
                Halt::Bad(
                    Problem::ElisionHeader { index: elision.len() as u64, len: header.len() as u64 },
                ),
            );
        }
        let ghost before = elision@;
        let ghost bytes = header@;
        elision.push(header);
        assert(strings_view(elision@) =~= strings_view(before).push(bytes));
        left -= 1;
    }
    Ok(elision)
}

/// One group of the framecode table.
fn read_group(r: &mut Cursor<'_>, carried: Carried) -> (read: Parse<Group>)
    requires
        old(r).wf(),
    ensures
        final(r).wf(),
        match group_at(old(r).bytes@, old(r).at as int, old(r).base as int, carried) {
            Ok((group, next)) => read matches Ok(got) && got == group && old(r).moved_to(
                *final(r),
                next,
            ),
            Err(halt) => read matches Err(got) && got == halt,
        },
{
    let flags = r.v()?;
    let fields = r.v()?;
    if fields > MAX_GROUP_FIELDS {
        return Err(Halt::Bad(Problem::FrameCodeFields { fields }));
    }
    let pts_delta = r.s_if(fields > 0, carried.pts_delta)?;
    let size_mul = r.v_if(fields > 1, carried.size_mul)?;
    let stream_id = r.v_if(fields > 2, carried.stream_id)?;
    let size_lsb = r.v_if(fields > 3, 0)?;
    let reserved_count = r.v_if(fields > 4, 0)?;
    let count = r.v_if(fields > 5, size_mul.saturating_sub(size_lsb))?;
    r.s_if(fields > 6, 0)?;
    let header_idx = r.v_if(fields > 7, carried.header_idx)?;
    r.read_past(
        if fields > 8 {
            fields - 8
        } else {
            0
        },
    )?;
    Ok(
        Group {
            flags,
            carried: Carried { pts_delta, size_mul, stream_id, header_idx },
            size_lsb,
            reserved_count,
            count,
        },
    )
}

/// Puts a group's entries in the table.
fn put_group(codes: &mut Vec<FrameCode>, group: &Group)
    requires
        old(codes)@.len() <= FRAME_CODES,
    ensures
        final(codes)@ == with_group(old(codes)@, *group, 0),
        final(codes)@.len() <= FRAME_CODES,
{
    let mut taken: u64 = 0;
    while taken < group.count && codes.len() < FRAME_CODES
        invariant
            taken <= group.count,
            codes@.len() <= FRAME_CODES,
            with_group(old(codes)@, *group, 0) == with_group(codes@, *group, taken as nat),
        decreases FRAME_CODES - codes@.len(),
    {
        if codes.len() == STARTCODE_BYTE as usize {
            codes.push(
                FrameCode {
                    flags: flags::INVALID,
                    stream_id: 0,
                    size_mul: 0,
                    size_lsb: 0,
                    pts_delta: 0,
                    reserved_count: 0,
                    header_idx: 0,
                },
            );
        } else {
            codes.push(
                FrameCode {
                    flags: group.flags,
                    stream_id: group.carried.stream_id,
                    size_mul: group.carried.size_mul,
                    size_lsb: group.size_lsb.saturating_add(taken),
                    pts_delta: group.carried.pts_delta,
                    reserved_count: group.reserved_count,
                    header_idx: group.carried.header_idx,
                },
            );
            taken += 1;
        }
    }
}

/// Walks the 256-entry framecode table. Each group in the header describes a
/// run of entries; index `N` is always invalid and never consumes one.
pub fn read_frame_codes(r: &mut Cursor<'_>) -> (read: Parse<Vec<FrameCode>>)
    requires
        old(r).wf(),
    ensures
        final(r).wf(),
        match codes_from(
            old(r).bytes@,
            old(r).at as int,
            old(r).base as int,
            Seq::empty(),
            carried_at_first(),
            0,
        ) {
            Ok((codes, next)) => read matches Ok(got) && got@ == codes && old(r).moved_to(
                *final(r),
                next,
            ),
            Err(halt) => read matches Err(got) && got == halt,
        },
        read matches Ok(codes) ==> codes@.len() == FRAME_CODES
            && codes@[STARTCODE_BYTE as int].flags == flags::INVALID,
        unfilled_after(old(r).bytes@, old(r).at as int, old(r).base as int, FRAME_CODES as nat)
            ==> asks_too_much(read),
        forall|groups: nat|
            groups < FRAME_CODES && #[trigger] unfilled_after(
                old(r).bytes@,
                old(r).at as int,
                old(r).base as int,
                groups,
            ) && overlong_after(old(r).bytes@, old(r).at as int, old(r).base as int, groups)
                ==> asks_too_much(read),
{
    proof {
        lemma_frame_codes(r.bytes@, r.at as int, r.base as int);
    }
    let ghost start = *r;
    let mut codes: Vec<FrameCode> = Vec::new();
    let mut groups: usize = 0;
    let mut carried = Carried { pts_delta: 0, size_mul: 1, stream_id: 0, header_idx: 0 };
    while codes.len() < FRAME_CODES
        invariant
            start == *old(r),
            start.moved_to(*r, r.at as int),
            codes@.len() <= FRAME_CODES,
            groups <= FRAME_CODES,
            codes_from(
                start.bytes@,
                start.at as int,
                start.base as int,
                Seq::empty(),
                carried_at_first(),
                0,
            ) == codes_from(
                start.bytes@,
                r.at as int,
                start.base as int,
                codes@,
                carried,
                groups as nat,
            ),
        decreases FRAME_CODES - groups,
    {
        if groups >= FRAME_CODES {
            return Err(Halt::Bad(Problem::FrameCodeGroups));
        }
        groups += 1;
        proof {
            lemma_frame_codes(start.bytes@, start.at as int, start.base as int);
        }
        let group = read_group(r, carried)?;
        put_group(&mut codes, &group);
        carried = group.carried;
    }
    Ok(codes)
}

/// Reads a main header's body.
pub fn read_main_fields(body: &[u8], max_streams: usize) -> (read: Parse<(MainHeader, Tables)>)
    ensures
        match main_fields(body@, max_streams) {
            Ok((header, tables)) => read matches Ok(got) && got.0@ == header && got.1@ == tables,
            Err(halt) => read matches Err(got) && got == halt,
        },
{
    let mut r = Cursor::whole(body);
    let version = r.v()?;
    if version != VERSION {
        return Err(Halt::Bad(Problem::Version { version }));
    }
    let stream_count = r.v()?;
    if stream_count == 0 || stream_count > max_streams as u64 {
        return Err(Halt::Bad(Problem::StreamsDeclared { count: stream_count }));
    }
    let max_distance = r.v()?;
    let time_base_count = r.v()?;
    if time_base_count == 0 || time_base_count > MAX_TIME_BASES {
        return Err(Halt::Bad(Problem::TimeBasesDeclared { count: time_base_count }));
    }
    let time_bases = read_time_bases(&mut r, time_base_count)?;
    let frame_codes = read_frame_codes(&mut r)?;
    // Entry 0 is the empty header no frame names; the ones declared here
    // follow it, so a frame's `header_idx` indexes this list directly.
    let header_count = r.v()?;
    if header_count > MAX_ELISION_HEADERS {
        return Err(Halt::Bad(Problem::ElisionHeaders { count: header_count }));
    }
    let elision = read_elision(&mut r, header_count)?;
    let header = MainHeader {
        version,
        stream_count: stream_count as usize,
        max_distance,
        time_bases: copy_time_bases(&time_bases),
    };
    Ok((header, Tables { time_bases, frame_codes, elision }))
}

// What a main header that was read settles.

proof fn lemma_time_bases(body: Seq<u8>, at: int, left: nat, read: Seq<TimeBase>)
    requires
        forall|i: int| 0 <= i < read.len() ==> (#[trigger] read[i]).num > 0 && read[i].den > 0,
    ensures
        time_bases_from(body, at, left, read) matches Ok((bases, _)) ==> bases.len() == read.len()
            + left && forall|i: int|
            0 <= i < bases.len() ==> (#[trigger] bases[i]).num > 0 && bases[i].den > 0,
    decreases left,
{
    if left > 0 {
        let num = body_v(body, at);
        let den = body_v(body, num.1);
        if num.0 is Ok && den.0 is Ok && num.0->Ok_0 != 0 && den.0->Ok_0 != 0 {
            lemma_time_bases(
                body,
                den.1,
                (left - 1) as nat,
                read.push(TimeBase { num: num.0->Ok_0, den: den.0->Ok_0 }),
            );
        }
    }
}

proof fn lemma_elision(body: Seq<u8>, at: int, left: nat, read: Seq<Seq<u8>>)
    requires
        1 <= read.len(),
        read[0].len() == 0,
        forall|i: int| 1 <= i < read.len() ==> 1 <= (#[trigger] read[i]).len() <= MAX_ELISION_BYTES,
    ensures
        elision_from(body, at, left, read) matches Ok((headers, _)) ==> headers.len() == read.len()
            + left && headers[0].len() == 0 && forall|i: int|
            1 <= i < headers.len() ==> 1 <= (#[trigger] headers[i]).len() <= MAX_ELISION_BYTES,
    decreases left,
{
    if left > 0 {
        let header = spec_vb(body, at, 0, Part::ElisionHeader);
        if header.0 is Ok && 1 <= header.0->Ok_0.len() <= MAX_ELISION_BYTES {
            lemma_elision(body, header.1, (left - 1) as nat, read.push(header.0->Ok_0));
        }
    }
}

/// What holds of a table being filled: no more than it has room for, and the
/// startcode byte's entry invalid once it is there.
spec fn filling(codes: Seq<FrameCode>) -> bool {
    &&& codes.len() <= FRAME_CODES
    &&& codes.len() > STARTCODE_BYTE ==> codes[STARTCODE_BYTE as int] == invalid_code()
}

proof fn lemma_with_group(codes: Seq<FrameCode>, group: Group, taken: nat)
    requires
        filling(codes),
    ensures
        filling(with_group(codes, group, taken)),
    decreases FRAME_CODES - codes.len(),
{
    if taken < group.count && codes.len() < FRAME_CODES {
        if codes.len() == STARTCODE_BYTE {
            lemma_with_group(codes.push(invalid_code()), group, taken);
        } else {
            lemma_with_group(codes.push(group_code(group, taken)), group, taken + 1);
        }
    }
}

proof fn lemma_codes(
    body: Seq<u8>,
    at: int,
    base: int,
    codes: Seq<FrameCode>,
    carried: Carried,
    groups: nat,
)
    requires
        filling(codes),
    ensures
        codes_from(body, at, base, codes, carried, groups) matches Ok((all, _)) ==> all.len()
            == FRAME_CODES && filling(all),
    decreases FRAME_CODES - groups,
{
    if codes.len() < FRAME_CODES && groups < FRAME_CODES {
        if let Ok((group, next)) = group_at(body, at, base, carried) {
            lemma_with_group(codes, group, 0);
            lemma_codes(body, next, base, with_group(codes, group, 0), group.carried, groups + 1);
        }
    }
}

/// The framecode table once some groups of it have been read: its entries,
/// where the next group starts, and what that one carries over. None where a
/// group could not be read, or the table was full ahead of one.
pub open spec fn table_after(body: Seq<u8>, at: int, base: int, groups: nat) -> Option<
    (Seq<FrameCode>, int, Carried),
>
    decreases groups,
{
    if groups == 0 {
        Some((Seq::empty(), at, carried_at_first()))
    } else {
        match table_after(body, at, base, (groups - 1) as nat) {
            Some((codes, next, carried)) => if codes.len() >= FRAME_CODES {
                None
            } else {
                match group_at(body, next, base, carried) {
                    Ok((group, end)) => Some((with_group(codes, group, 0), end, group.carried)),
                    Err(_) => None,
                }
            },
            None => None,
        }
    }
}

proof fn lemma_codes_from_group(body: Seq<u8>, at: int, base: int, groups: nat)
    requires
        groups <= FRAME_CODES,
        table_after(body, at, base, groups) is Some,
    ensures
        table_after(body, at, base, groups) matches Some((codes, next, carried)) && codes_from(
            body,
            at,
            base,
            Seq::empty(),
            carried_at_first(),
            0,
        ) == codes_from(body, next, base, codes, carried, groups),
    decreases groups,
{
    if groups > 0 {
        lemma_codes_from_group(body, at, base, (groups - 1) as nat);
    }
}

/// Whether a framecode table still has room once some groups have been read.
pub open spec fn unfilled_after(body: Seq<u8>, at: int, base: int, groups: nat) -> bool {
    match table_after(body, at, base, groups) {
        Some((codes, _, _)) => codes.len() < FRAME_CODES,
        None => false,
    }
}

/// Whether the group behind some others says it has more fields than a group
/// may have.
pub open spec fn overlong_after(body: Seq<u8>, at: int, base: int, groups: nat) -> bool {
    match table_after(body, at, base, groups) {
        Some((_, next, _)) => {
            let flags = spec_v(body, next, base);
            match (flags.0, spec_v(body, flags.1, base).0) {
                (Ok(_), Ok(fields)) => fields > MAX_GROUP_FIELDS,
                _ => false,
            }
        },
        None => false,
    }
}

/// Whether a parse was refused for asking too much.
pub open spec fn asks_too_much<T>(parse: Result<T, Halt>) -> bool {
    match parse {
        Err(Halt::Bad(problem)) => problem.spec_kind() == ErrorKind::Limit,
        _ => false,
    }
}

/// A framecode table that is read is full, and the startcode byte's entry of
/// it is invalid whatever the groups say. One that is not full after as many
/// groups as it has entries is refused, and so is one with a group of more
/// fields than a group may have, both for asking too much. Where in the stream
/// the bytes sit makes no difference.
pub proof fn lemma_frame_codes(body: Seq<u8>, at: int, base: int)
    ensures
        codes_from(body, at, base, Seq::empty(), carried_at_first(), 0) matches Ok((codes, _))
            ==> codes.len() == FRAME_CODES && codes[STARTCODE_BYTE as int].flags == flags::INVALID,
        unfilled_after(body, at, base, FRAME_CODES as nat) ==> asks_too_much(
            codes_from(body, at, base, Seq::empty(), carried_at_first(), 0),
        ),
        forall|groups: nat|
            groups < FRAME_CODES && #[trigger] unfilled_after(body, at, base, groups) && overlong_after(
                body,
                at,
                base,
                groups,
            ) ==> asks_too_much(codes_from(body, at, base, Seq::empty(), carried_at_first(), 0)),
{
    lemma_codes(body, at, base, Seq::empty(), carried_at_first(), 0);
    if unfilled_after(body, at, base, FRAME_CODES as nat) {
        lemma_codes_from_group(body, at, base, FRAME_CODES as nat);
    }
    assert forall|groups: nat|
        groups < FRAME_CODES && #[trigger] unfilled_after(body, at, base, groups) && overlong_after(
            body,
            at,
            base,
            groups,
        ) implies asks_too_much(
        codes_from(body, at, base, Seq::empty(), carried_at_first(), 0),
    ) by {
        lemma_codes_from_group(body, at, base, groups);
    }
}

/// A main header that is read declares at least one stream and no more than
/// it may, and leaves tables every frame can be read through: the startcode
/// byte is never a framecode.
pub proof fn lemma_main_fields(body: Seq<u8>, max_streams: usize)
    ensures
        main_fields(body, max_streams) matches Ok((header, tables)) ==> {
            &&& header.version == VERSION
            &&& 1 <= header.stream_count <= max_streams
            &&& header.time_bases == tables.time_bases
            &&& tables.wf()
        },
{
    let version = body_v(body, 0);
    let streams = body_v(body, version.1);
    let distance = body_v(body, streams.1);
    let bases = body_v(body, distance.1);
    let time_bases = time_bases_from(body, bases.1, bases.0->Ok_0 as nat, Seq::empty());
    let codes = codes_from(body, time_bases->Ok_0.1, 0, Seq::empty(), carried_at_first(), 0);
    let headers = body_v(body, codes->Ok_0.1);
    lemma_time_bases(body, bases.1, bases.0->Ok_0 as nat, Seq::empty());
    lemma_codes(body, time_bases->Ok_0.1, 0, Seq::empty(), carried_at_first(), 0);
    lemma_elision(body, headers.1, headers.0->Ok_0 as nat, seq![Seq::<u8>::empty()]);
}

} // verus!
