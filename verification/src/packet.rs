//! Packets: a startcode, a length, a body and the checksum it ends with.

use vstd::prelude::*;

use crate::bytes::{
    be_bytes, be_value, crc32, lemma_be_len, lemma_be_value_4, lemma_crc_tells_a_byte,
    lemma_take_extends, lemma_u32_extends, lemma_u32_value, lemma_v_extends, settled, spec_crc32,
    spec_take, spec_u32, spec_v, Cursor,
};
use crate::error::{Halt, Need, Parse, Part, Problem};
use crate::frame::Stage;
use crate::text::copy_bytes;
use crate::{INFO_STARTCODE, MAIN_STARTCODE, STREAM_STARTCODE, SYNCPOINT_STARTCODE};

verus! {

/// A packet body wider than this carries its own header checksum ahead of the
/// data.
pub const HEADER_CHECKSUM_THRESHOLD: u64 = 4096;

/// The checksum a packet body ends with.
pub const CHECKSUM_LEN: u64 = 4;

/// What a message calls the packet of a startcode.
pub open spec fn part_of(startcode: u64) -> Part {
    if startcode == MAIN_STARTCODE {
        Part::MainHeader
    } else if startcode == STREAM_STARTCODE {
        Part::StreamHeader
    } else if startcode == SYNCPOINT_STARTCODE {
        Part::Syncpoint
    } else if startcode == INFO_STARTCODE {
        Part::InfoPacket
    } else {
        Part::Packet
    }
}

/// Whether a packet is one the parser cannot go on without.
pub open spec fn is_header(startcode: u64) -> bool {
    startcode == MAIN_STARTCODE || startcode == STREAM_STARTCODE || startcode == SYNCPOINT_STARTCODE
}

/// A packet at the front of some bytes.
#[verifier::ext_equal]
pub enum FrontV {
    /// A body this crate does not read, all of it still ahead.
    Passed { what: Part, len: u64 },
    /// A body, its checksum taken off and found right.
    Body { startcode: u64, body: Seq<u8> },
}

/// The opening of a packet: its startcode, and how long its body is. One wide
/// enough carries a checksum over its own header, which is stepped over.
pub open spec fn opening(bytes: Seq<u8>, base: int) -> Stage<(u64, u64)> {
    if bytes.len() < 8 {
        Err(
            Halt::Need(
                Need::Bytes { what: Part::Startcode, want: 7, got: (bytes.len() - 1) as u64 },
            ),
        )
    } else {
        let startcode = be_value(bytes.subrange(0, 8)) as u64;
        match spec_v(bytes, 8, base) {
            (Ok(len), at) => if len > HEADER_CHECKSUM_THRESHOLD {
                match spec_u32(bytes, at) {
                    (Ok(_), at) => Ok(((startcode, len), at)),
                    (Err(halt), _) => Err(halt),
                }
            } else if len < CHECKSUM_LEN {
                Err(Halt::Bad(Problem::PacketTooShort { len, what: part_of(startcode) }))
            } else {
                Ok(((startcode, len), at))
            },
            (Err(halt), _) => Err(halt),
        }
    }
}

/// A packet's body and its checksum, told apart.
pub open spec fn unsealed(sealed: Seq<u8>, what: Part) -> Result<Seq<u8>, Problem> {
    let body = sealed.take(sealed.len() - 4);
    let carried = be_value(sealed.skip(sealed.len() - 4)) as u32;
    let computed = spec_crc32(body);
    if computed != carried {
        Err(Problem::PacketChecksum { computed, carried, what })
    } else {
        Ok(body)
    }
}

/// A packet at the front of some bytes, and where what follows it starts. A
/// header too wide to hold is refused. An info packet is advisory: one too
/// wide is stepped over, the way any packet is that this crate does not know.
pub open spec fn packet_at(bytes: Seq<u8>, base: int, max_header: u64) -> Stage<FrontV> {
    match opening(bytes, base) {
        Err(halt) => Err(halt),
        Ok(((startcode, len), at)) => {
            let what = part_of(startcode);
            if is_header(startcode) && len > max_header {
                Err(Halt::Bad(Problem::PacketTooWide { len, max: max_header, what }))
            } else if is_header(startcode) || (startcode == INFO_STARTCODE && len <= max_header) {
                match spec_take(bytes, at, len as int, what) {
                    (Ok(sealed), at) => match unsealed(sealed, what) {
                        Ok(body) => Ok((FrontV::Body { startcode, body }, at)),
                        Err(problem) => Err(Halt::Bad(problem)),
                    },
                    (Err(halt), _) => Err(halt),
                }
            } else {
                Ok((FrontV::Passed { what, len }, at))
            }
        },
    }
}

/// A packet's body with its checksum behind it is told from the same bytes
/// with any one of them changed, in the body or in the checksum: those are
/// refused.
pub proof fn lemma_changed_byte_is_refused(body: Seq<u8>, what: Part, at: int, byte: u8)
    requires
        0 <= at < body.len() + 4,
        byte != (body + be_bytes(spec_crc32(body) as nat, 4))[at],
    ensures
        unsealed(body + be_bytes(spec_crc32(body) as nat, 4), what) == Ok::<Seq<u8>, Problem>(body),
        unsealed((body + be_bytes(spec_crc32(body) as nat, 4)).update(at, byte), what) matches Err(
            Problem::PacketChecksum { .. },
        ),
{
    let crc = spec_crc32(body);
    let tail = be_bytes(crc as nat, 4);
    lemma_be_len(crc as nat, 4);
    let sealed = body + tail;
    let other = sealed.update(at, byte);
    assert(sealed.take(sealed.len() - 4) =~= body);
    assert(sealed.skip(sealed.len() - 4) =~= tail);
    lemma_u32_value(crc);
    if at < body.len() {
        assert(other.take(other.len() - 4) =~= body.update(at, byte));
        assert(other.skip(other.len() - 4) =~= tail);
        lemma_crc_tells_a_byte(body, at, byte);
    } else {
        let moved = tail.update(at - body.len(), byte);
        assert(other.take(other.len() - 4) =~= body);
        assert(other.skip(other.len() - 4) =~= moved);
        lemma_be_value_4(tail);
        lemma_be_value_4(moved);
        assert(be_value(moved) != be_value(tail));
    }
}

/// A packet that has settled reads the same whatever follows it, and takes
/// at least its startcode and its length.
pub proof fn lemma_packet_extends(bytes: Seq<u8>, more: Seq<u8>, base: int, max_header: u64)
    requires
        bytes.len() >= 1,
    ensures
        settled(packet_at(bytes, base, max_header)) ==> packet_at(bytes + more, base, max_header)
            == packet_at(bytes, base, max_header),
        packet_at(bytes, base, max_header) matches Ok((_, at)) ==> 8 <= at <= bytes.len(),
{
    if bytes.len() >= 8 {
        assert((bytes + more).subrange(0, 8) =~= bytes.subrange(0, 8));
        lemma_v_extends(bytes, more, 8, base);
        lemma_u32_extends(bytes, more, spec_v(bytes, 8, base).1);
        if let Ok(((startcode, len), at)) = opening(bytes, base) {
            lemma_take_extends(bytes, more, at, len as int, part_of(startcode));
        }
    }
}

/// A packet at the front of some bytes.
pub enum Front {
    /// A body this crate does not read, all of it still ahead.
    Passed { what: Part, len: u64 },
    /// A body, its checksum taken off and found right.
    Body { startcode: u64, body: Vec<u8> },
}

impl View for Front {
    type V = FrontV;

    open spec fn view(&self) -> FrontV {
        match *self {
            Front::Passed { what, len } => FrontV::Passed { what, len },
            Front::Body { startcode, body } => FrontV::Body { startcode, body: body@ },
        }
    }
}

/// What a message calls the packet of a startcode.
fn name_of(startcode: u64) -> (part: Part)
    ensures
        part == part_of(startcode),
{
    if startcode == MAIN_STARTCODE {
        Part::MainHeader
    } else if startcode == STREAM_STARTCODE {
        Part::StreamHeader
    } else if startcode == SYNCPOINT_STARTCODE {
        Part::Syncpoint
    } else if startcode == INFO_STARTCODE {
        Part::InfoPacket
    } else {
        Part::Packet
    }
}

/// A big-endian number of eight bytes.
fn startcode_of(bytes: &[u8]) -> (startcode: u64)
    requires
        bytes@.len() == 8,
    ensures
        startcode == be_value(bytes@),
{
    let mut startcode: u64 = 0;
    let mut i: usize = 0;
    proof {
        assert(bytes@.take(0) =~= Seq::empty());
    }
    let mut room: u64 = 1;
    while i < 8
        invariant
            i <= 8,
            bytes@.len() == 8,
            startcode == be_value(bytes@.take(i as int)),
            startcode < room || i == 8,
            i == 0 ==> room == 1,
            i == 1 ==> room == 0x100,
            i == 2 ==> room == 0x1_0000,
            i == 3 ==> room == 0x100_0000,
            i == 4 ==> room == 0x1_0000_0000,
            i == 5 ==> room == 0x100_0000_0000,
            i == 6 ==> room == 0x1_0000_0000_0000,
            i == 7 ==> room == 0x100_0000_0000_0000,
        decreases 8 - i,
    {
        assert(bytes@.take(i + 1).drop_last() =~= bytes@.take(i as int));
        startcode = startcode * 256 + bytes[i] as u64;
        i += 1;
        if i < 8 {
            room = room * 256;
        }
    }
    assert(bytes@.take(8) =~= bytes@);
    startcode
}

/// Takes the checksum off a packet's body.
fn unseal(sealed: &[u8], what: Part) -> (body: Result<Vec<u8>, Problem>)
    requires
        sealed@.len() >= 4,
    ensures
        match unsealed(sealed@, what) {
            Ok(want) => body matches Ok(got) && got@ == want,
            Err(problem) => body matches Err(got) && got == problem,
        },
{
    let split = sealed.len() - 4;
    let body = &sealed[0..split];
    let mut tail = Cursor::whole(&sealed[split..sealed.len()]);
    assert(body@ =~= sealed@.take(split as int));
    assert(tail.bytes@ =~= sealed@.skip(split as int));
    assert(tail.bytes@.subrange(0, 4) =~= tail.bytes@);
    let carried = match tail.u32() {
        Ok(carried) => carried,
        Err(_) => 0,
    };
    let computed = crc32(body);
    if computed != carried {
        return Err(Problem::PacketChecksum { computed, carried, what });
    }
    Ok(copy_bytes(body))
}

/// Reads a packet off the front of some bytes.
pub fn read_front(bytes: &[u8], base: u64, max_header: u64) -> (read: Parse<(Front, usize)>)
    requires
        bytes@.len() >= 1,
        base + bytes@.len() <= u64::MAX,
    ensures
        match packet_at(bytes@, base as int, max_header) {
            Ok((front, at)) => read matches Ok(got) && got.0@ == front && got.1 == at,
            Err(halt) => read matches Err(got) && got == halt,
        },
{
    let mut r = Cursor::new(bytes, base);
    r.u8()?;
    r.take(7, Part::Startcode)?;
    let startcode = startcode_of(r.since(0));
    let what = name_of(startcode);
    let len = r.v()?;
    // A packet this wide carries a checksum over its own header. Only info
    // and index packets ever reach that size, and those are read past whole,
    // so the field is stepped over rather than checked.
    if len > HEADER_CHECKSUM_THRESHOLD {
        r.u32()?;
    }
    if len < CHECKSUM_LEN {
        return Err(Halt::Bad(Problem::PacketTooShort { len, what }));
    }
    let header = startcode == MAIN_STARTCODE || startcode == STREAM_STARTCODE || startcode
        == SYNCPOINT_STARTCODE;
    if header && len > max_header {
        return Err(Halt::Bad(Problem::PacketTooWide { len, max: max_header, what }));
    }
    if !(header || (startcode == INFO_STARTCODE && len <= max_header)) {
        return Ok((Front::Passed { what, len }, r.at()));
    }
    let sealed = r.take(len, what)?;
    match unseal(sealed, what) {
        Ok(body) => Ok((Front::Body { startcode, body }, r.at())),
        Err(problem) => Err(Halt::Bad(problem)),
    }
}

} // verus!
