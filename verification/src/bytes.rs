//! NUT's byte primitives: the variable-length integers every field is coded
//! in, the CRC32 that closes every packet, and the cursor the demuxer reads
//! them with.
//!
//! The cursor works over a slice and answers [`Need`] rather than reading
//! past the end, which is what lets one parser serve both front ends: over a
//! packet body that is already whole, a `Need` is a malformed packet; over
//! the bytes a socket has handed over so far, it means wait.

use vstd::prelude::*;

use crate::error::{Halt, Need, Parse, Part, Problem};
use crate::text::copy_bytes;

verus! {

/// NUT's CRC polynomial.
pub const CRC_POLY: u32 = 0x04C1_1DB7;

/// A variable-length integer never needs more than 10 bytes for 64 bits.
pub const MAX_V_BYTES: usize = 10;

/// Largest byte string a `vb` field may carry, so a damaged length cannot ask
/// for an unbounded allocation.
pub const MAX_VB_LEN: u64 = 1_048_576;

/// The largest value one more group of seven bits can still go under.
pub const MAX_V_PREFIX: u64 = 0x01FF_FFFF_FFFF_FFFF;

// The checksum.

/// One bit of polynomial division.
pub open spec fn crc_bit(c: u32) -> u32 {
    if c & 0x8000_0000 != 0 {
        (c << 1) ^ CRC_POLY
    } else {
        c << 1
    }
}

/// `count` bits of polynomial division.
pub open spec fn crc_bits(c: u32, count: nat) -> u32
    decreases count,
{
    if count == 0 {
        c
    } else {
        crc_bit(crc_bits(c, (count - 1) as nat))
    }
}

/// One byte into a checksum: it goes in at the top, and its eight bits are
/// divided out.
pub open spec fn crc_byte(c: u32, byte: u8) -> u32 {
    crc_bits(c ^ ((byte as u32) << 24), 8)
}

/// The checksum of some bytes, from zero and with no final inversion.
pub open spec fn spec_crc32(data: Seq<u8>) -> u32
    decreases data.len(),
{
    if data.len() == 0 {
        0
    } else {
        crc_byte(spec_crc32(data.drop_last()), data.last())
    }
}

/// Two states that differ go on differing.
proof fn lemma_crc_bits_differ(a: u32, b: u32, count: nat)
    requires
        a != b,
    ensures
        crc_bits(a, count) != crc_bits(b, count),
    decreases count,
{
    if count > 0 {
        lemma_crc_bits_differ(a, b, (count - 1) as nat);
        let x = crc_bits(a, (count - 1) as nat);
        let y = crc_bits(b, (count - 1) as nat);
        assert(crc_bit(x) != crc_bit(y)) by (bit_vector)
            requires
                x != y,
        ;
    }
}

/// A checksum tells data with one byte changed from what it was.
pub proof fn lemma_crc_tells_a_byte(data: Seq<u8>, at: int, byte: u8)
    requires
        0 <= at < data.len(),
        byte != data[at],
    ensures
        spec_crc32(data.update(at, byte)) != spec_crc32(data),
    decreases data.len(),
{
    let other = data.update(at, byte);
    let last = data.last();
    let state = spec_crc32(data.drop_last());
    if at == data.len() - 1 {
        assert(other.drop_last() =~= data.drop_last());
        assert(state ^ ((last as u32) << 24) != state ^ ((byte as u32) << 24)) by (bit_vector)
            requires
                last != byte,
        ;
        lemma_crc_bits_differ(
            state ^ ((last as u32) << 24),
            state ^ ((byte as u32) << 24),
            8,
        );
    } else {
        assert(other.drop_last() =~= data.drop_last().update(at, byte));
        assert(other.last() == last);
        lemma_crc_tells_a_byte(data.drop_last(), at, byte);
        let moved = spec_crc32(other.drop_last());
        assert(state ^ ((last as u32) << 24) != moved ^ ((last as u32) << 24)) by (bit_vector)
            requires
                state != moved,
        ;
        lemma_crc_bits_differ(
            state ^ ((last as u32) << 24),
            moved ^ ((last as u32) << 24),
            8,
        );
    }
}

/// NUT's CRC32: polynomial 0x04C11DB7 taken most significant bit first,
/// starting at zero, with no final inversion.
pub fn crc32(data: &[u8]) -> (crc: u32)
    ensures
        crc == spec_crc32(data@),
{
    let mut c: u32 = 0;
    let mut i: usize = 0;
    while i < data.len()
        invariant
            i <= data@.len(),
            c == spec_crc32(data@.take(i as int)),
        decreases data@.len() - i,
    {
        let from = c ^ ((data[i] as u32) << 24);
        c = from;
        let mut bit: u32 = 0;
        while bit < 8
            invariant
                bit <= 8,
                c == crc_bits(from, bit as nat),
            decreases 8 - bit,
        {
            c = if c & 0x8000_0000 != 0 {
                (c << 1) ^ CRC_POLY
            } else {
                c << 1
            };
            bit += 1;
        }
        assert(data@.take(i + 1).drop_last() =~= data@.take(i as int));
        i += 1;
    }
    assert(data@.take(i as int) =~= data@);
    c
}

// Reading.

/// What one read of a field gives, and where the cursor stands after it.
pub type Read<T> = (Parse<T>, int);

/// One byte.
pub open spec fn spec_u8(bytes: Seq<u8>, at: int, base: int) -> Read<u8> {
    if at < bytes.len() {
        (Ok(bytes[at]), at + 1)
    } else {
        (Err(Halt::Need(Need::Field { at: (base + at) as u64 })), at)
    }
}

/// A run of bytes, named for the message if they are not all there.
pub open spec fn spec_take(bytes: Seq<u8>, at: int, count: int, what: Part) -> Read<Seq<u8>> {
    if at + count <= bytes.len() {
        (Ok(bytes.subrange(at, at + count)), at + count)
    } else {
        (
            Err(
                Halt::Need(
                    Need::Bytes { what, want: count as u64, got: (bytes.len() - at) as u64 },
                ),
            ),
            at,
        )
    }
}

/// A big-endian number.
pub open spec fn be_value(bytes: Seq<u8>) -> nat
    decreases bytes.len(),
{
    if bytes.len() == 0 {
        0
    } else {
        be_value(bytes.drop_last()) * 256 + bytes.last() as nat
    }
}

/// A 32-bit big-endian field.
pub open spec fn spec_u32(bytes: Seq<u8>, at: int) -> Read<u32> {
    match spec_take(bytes, at, 4, Part::Field32) {
        (Ok(taken), next) => (Ok(be_value(taken) as u32), next),
        (Err(halt), next) => (Err(halt), next),
    }
}

/// The rest of a `v` field `read` bytes of which came to `value`.
pub open spec fn v_rest(bytes: Seq<u8>, at: int, base: int, value: u64, read: nat) -> Read<u64>
    decreases MAX_V_BYTES - read,
{
    if read >= MAX_V_BYTES {
        (Err(Halt::Bad(Problem::VarintTooLong { at: (base + at) as u64 })), at)
    } else if at >= bytes.len() {
        (Err(Halt::Need(Need::Field { at: (base + at) as u64 })), at)
    } else if value > MAX_V_PREFIX {
        (Err(Halt::Bad(Problem::VarintOverflow { at: (base + at + 1) as u64 })), at + 1)
    } else {
        let next = (value * 128 + bytes[at] % 128) as u64;
        if bytes[at] < 128 {
            (Ok(next), at + 1)
        } else {
            v_rest(bytes, at + 1, base, next, read + 1)
        }
    }
}

/// A `v` field: 7 bits per byte, most significant group first, high bit set
/// on every byte but the last.
pub open spec fn spec_v(bytes: Seq<u8>, at: int, base: int) -> Read<u64> {
    v_rest(bytes, at, base, 0, 0)
}

/// The signed number a raw `s` field stands for: even ones count down from
/// zero, odd ones up from one.
pub open spec fn s_value(raw: u64) -> int {
    if raw % 2 == 0 {
        -(raw as int / 2)
    } else {
        (raw + 1) / 2
    }
}

/// An `s` field: a `v` biased so both signs are cheap to code.
pub open spec fn spec_s(bytes: Seq<u8>, at: int, base: int) -> Read<i64> {
    match spec_v(bytes, at, base) {
        (Ok(raw), next) => if raw >= u64::MAX / 2 {
            (Err(Halt::Bad(Problem::SignedOverflow { at: (base + next) as u64 })), next)
        } else {
            (Ok(s_value(raw) as i64), next)
        },
        (Err(halt), next) => (Err(halt), next),
    }
}

/// A `vb` field: a length, then that many bytes.
pub open spec fn spec_vb(bytes: Seq<u8>, at: int, base: int, what: Part) -> Read<Seq<u8>> {
    match spec_v(bytes, at, base) {
        (Ok(len), next) => if len > MAX_VB_LEN {
            (Err(Halt::Bad(Problem::ByteString { what, len })), next)
        } else {
            spec_take(bytes, next, len as int, what)
        },
        (Err(halt), next) => (Err(halt), next),
    }
}

/// A `v` field where there is one, and what stands in for it where not.
pub open spec fn spec_v_if(there: bool, bytes: Seq<u8>, at: int, base: int, otherwise: u64) -> Read<
    u64,
> {
    if there {
        spec_v(bytes, at, base)
    } else {
        (Ok(otherwise), at)
    }
}

/// An `s` field where there is one, and what stands in for it where not.
pub open spec fn spec_s_if(there: bool, bytes: Seq<u8>, at: int, base: int, otherwise: i64) -> Read<
    i64,
> {
    if there {
        spec_s(bytes, at, base)
    } else {
        (Ok(otherwise), at)
    }
}

/// A run of `v` fields nothing reads.
pub open spec fn unread(bytes: Seq<u8>, at: int, base: int, count: nat) -> Result<int, Halt>
    decreases count,
{
    if count == 0 {
        Ok(at)
    } else {
        match spec_v(bytes, at, base) {
            (Ok(_), next) => unread(bytes, next, base, (count - 1) as nat),
            (Err(halt), _) => Err(halt),
        }
    }
}

/// A cursor over buffered bytes that stops at the end rather than reading
/// past it. `base` is where `bytes[0]` sits in the stream, so a message names
/// a position a caller can find.
pub struct Cursor<'a> {
    pub bytes: &'a [u8],
    pub at: usize,
    pub base: u64,
}

impl<'a> Cursor<'a> {
    /// The cursor stands somewhere on its bytes, and every position on them
    /// can be named.
    pub open spec fn wf(self) -> bool {
        &&& self.at <= self.bytes@.len()
        &&& self.base + self.bytes@.len() <= u64::MAX
    }

    /// The same bytes under both cursors, the later one standing at `at`.
    pub open spec fn moved_to(self, later: Cursor<'a>, at: int) -> bool {
        &&& later.wf()
        &&& later.bytes == self.bytes
        &&& later.base == self.base
        &&& later.at == at
    }

    pub fn new(bytes: &'a [u8], base: u64) -> (cursor: Cursor<'a>)
        requires
            base + bytes@.len() <= u64::MAX,
        ensures
            cursor.wf(),
            cursor.bytes == bytes,
            cursor.at == 0,
            cursor.base == base,
    {
        Cursor { bytes, at: 0, base }
    }

    /// A cursor over a packet body, which is whole, and whose positions are
    /// its own.
    pub fn whole(body: &'a [u8]) -> (cursor: Cursor<'a>)
        ensures
            cursor.wf(),
            cursor.bytes == body,
            cursor.at == 0,
            cursor.base == 0,
    {
        assert(body@.len() == body.len());
        Cursor::new(body, 0)
    }

    /// How far this has read.
    pub fn at(&self) -> (at: usize)
        ensures
            at == self.at,
    {
        self.at
    }

    /// The stream position this has read to.
    pub fn pos(&self) -> (pos: u64)
        requires
            self.wf(),
        ensures
            pos == self.base + self.at,
    {
        self.base + self.at as u64
    }

    /// What has been read since `from`, for a checksum over it.
    pub fn since(&self, from: usize) -> (read: &'a [u8])
        requires
            self.wf(),
            from <= self.at,
        ensures
            read@ == self.bytes@.subrange(from as int, self.at as int),
    {
        let bytes: &'a [u8] = self.bytes;
        &bytes[from..self.at]
    }

    pub fn u8(&mut self) -> (read: Parse<u8>)
        requires
            old(self).wf(),
        ensures
            ({
                let (want, next) = spec_u8(old(self).bytes@, old(self).at as int, old(self).base as int);
                read == want && old(self).moved_to(*final(self), next)
            }),
    {
        if self.at < self.bytes.len() {
            let byte = self.bytes[self.at];
            self.at += 1;
            Ok(byte)
        } else {
            Err(Halt::Need(Need::Field { at: self.pos() }))
        }
    }

    pub fn u32(&mut self) -> (read: Parse<u32>)
        requires
            old(self).wf(),
        ensures
            ({
                let (want, next) = spec_u32(old(self).bytes@, old(self).at as int);
                read == want && old(self).moved_to(*final(self), next)
            }),
    {
        match self.take(4, Part::Field32) {
            Ok(taken) => {
                proof {
                    lemma_be_value_4(taken@);
                }
                Ok(
                    taken[0] as u32 * 0x100_0000 + taken[1] as u32 * 0x1_0000 + taken[2] as u32 * 0x100
                        + taken[3] as u32,
                )
            },
            Err(halt) => Err(halt),
        }
    }

    /// `count` bytes, named for the message if they are not all there.
    pub fn take(&mut self, count: u64, what: Part) -> (read: Parse<&'a [u8]>)
        requires
            old(self).wf(),
        ensures
            ({
                let (want, next) = spec_take(old(self).bytes@, old(self).at as int, count as int, what);
                &&& old(self).moved_to(*final(self), next)
                &&& match read {
                    Ok(taken) => want == Ok::<Seq<u8>, Halt>(taken@),
                    Err(halt) => want == Err::<Seq<u8>, Halt>(halt),
                }
            }),
    {
        let left = self.bytes.len() - self.at;
        if count <= left as u64 {
            let bytes: &'a [u8] = self.bytes;
            let end = self.at + count as usize;
            let taken = &bytes[self.at..end];
            self.at = end;
            Ok(taken)
        } else {
            Err(Halt::Need(Need::Bytes { what, want: count, got: left as u64 }))
        }
    }

    /// A `v` field: 7 bits per byte, most significant group first, high bit
    /// set on every byte but the last.
    pub fn v(&mut self) -> (read: Parse<u64>)
        requires
            old(self).wf(),
        ensures
            ({
                let (want, next) = spec_v(old(self).bytes@, old(self).at as int, old(self).base as int);
                read == want && old(self).moved_to(*final(self), next)
            }),
    {
        let ghost start = *self;
        let mut value: u64 = 0;
        let mut count: usize = 0;
        while count < MAX_V_BYTES
            invariant
                start == *old(self),
                start.wf(),
                start.moved_to(*self, self.at as int),
                count <= MAX_V_BYTES,
                spec_v(start.bytes@, start.at as int, start.base as int) == v_rest(
                    start.bytes@,
                    self.at as int,
                    start.base as int,
                    value,
                    count as nat,
                ),
            decreases MAX_V_BYTES - count,
        {
            let b = match self.u8() {
                Ok(b) => b,
                Err(halt) => {
                    return Err(halt);
                },
            };
            if value > MAX_V_PREFIX {
                return Err(Halt::Bad(Problem::VarintOverflow { at: self.pos() }));
            }
            value = value * 128 + (b % 128) as u64;
            if b < 128 {
                return Ok(value);
            }
            count += 1;
        }
        Err(Halt::Bad(Problem::VarintTooLong { at: self.pos() }))
    }

    /// An `s` field: a `v` biased so both signs are cheap to code.
    pub fn s(&mut self) -> (read: Parse<i64>)
        requires
            old(self).wf(),
        ensures
            ({
                let (want, next) = spec_s(old(self).bytes@, old(self).at as int, old(self).base as int);
                read == want && old(self).moved_to(*final(self), next)
            }),
    {
        let raw = match self.v() {
            Ok(raw) => raw,
            Err(halt) => {
                return Err(halt);
            },
        };
        if raw >= u64::MAX / 2 {
            return Err(Halt::Bad(Problem::SignedOverflow { at: self.pos() }));
        }
        let half = ((raw + 1) / 2) as i64;
        if raw % 2 == 0 {
            Ok(-half)
        } else {
            Ok(half)
        }
    }

    /// A `vb` field: a length, then that many bytes.
    pub fn vb(&mut self, what: Part) -> (read: Parse<Vec<u8>>)
        requires
            old(self).wf(),
        ensures
            ({
                let (want, next) = spec_vb(
                    old(self).bytes@,
                    old(self).at as int,
                    old(self).base as int,
                    what,
                );
                &&& old(self).moved_to(*final(self), next)
                &&& match read {
                    Ok(taken) => want == Ok::<Seq<u8>, Halt>(taken@),
                    Err(halt) => want == Err::<Seq<u8>, Halt>(halt),
                }
            }),
    {
        let len = match self.v() {
            Ok(len) => len,
            Err(halt) => {
                return Err(halt);
            },
        };
        if len > MAX_VB_LEN {
            return Err(Halt::Bad(Problem::ByteString { what, len }));
        }
        match self.take(len, what) {
            Ok(taken) => Ok(copy_bytes(taken)),
            Err(halt) => Err(halt),
        }
    }

    /// A `v` field where there is one, and what stands in for it where not.
    pub fn v_if(&mut self, there: bool, otherwise: u64) -> (read: Parse<u64>)
        requires
            old(self).wf(),
        ensures
            ({
                let (want, next) = spec_v_if(
                    there,
                    old(self).bytes@,
                    old(self).at as int,
                    old(self).base as int,
                    otherwise,
                );
                read == want && old(self).moved_to(*final(self), next)
            }),
    {
        if there {
            self.v()
        } else {
            Ok(otherwise)
        }
    }

    /// An `s` field where there is one, and what stands in for it where not.
    pub fn s_if(&mut self, there: bool, otherwise: i64) -> (read: Parse<i64>)
        requires
            old(self).wf(),
        ensures
            ({
                let (want, next) = spec_s_if(
                    there,
                    old(self).bytes@,
                    old(self).at as int,
                    old(self).base as int,
                    otherwise,
                );
                read == want && old(self).moved_to(*final(self), next)
            }),
    {
        if there {
            self.s()
        } else {
            Ok(otherwise)
        }
    }

    /// Steps over a run of `v` fields nothing reads.
    pub fn read_past(&mut self, count: u64) -> (done: Parse<()>)
        requires
            old(self).wf(),
        ensures
            final(self).wf(),
            match unread(
                old(self).bytes@,
                old(self).at as int,
                old(self).base as int,
                count as nat,
            ) {
                Ok(next) => done is Ok && old(self).moved_to(*final(self), next),
                Err(halt) => done == Err::<(), Halt>(halt),
            },
    {
        let ghost start = *self;
        let mut left: u64 = count;
        while left > 0
            invariant
                start == *old(self),
                start.moved_to(*self, self.at as int),
                left <= count,
                unread(start.bytes@, start.at as int, start.base as int, count as nat) == unread(
                    start.bytes@,
                    self.at as int,
                    start.base as int,
                    left as nat,
                ),
            decreases left,
        {
            self.v()?;
            left -= 1;
        }
        Ok(())
    }
}

// Writing.

/// The leading groups of a `v` field, every one of which says another
/// follows. None at all for zero: a field is as wide as it needs to be.
pub open spec fn v_head(n: nat) -> Seq<u8>
    decreases n,
{
    if n == 0 {
        Seq::empty()
    } else {
        v_head(n / 128).push((128 + n % 128) as u8)
    }
}

/// A `v` field.
pub open spec fn v_bytes(n: nat) -> Seq<u8> {
    v_head(n / 128).push((n % 128) as u8)
}

/// The raw number an `s` field codes a signed one as.
pub open spec fn s_raw(value: int) -> nat {
    if value > 0 {
        (2 * value - 1) as nat
    } else if value == i64::MIN {
        u64::MAX as nat
    } else {
        (-2 * value) as nat
    }
}

/// An `s` field.
pub open spec fn s_bytes(value: int) -> Seq<u8> {
    v_bytes(s_raw(value))
}

/// A `vb` field: the length, then the bytes.
pub open spec fn vb_bytes(bytes: Seq<u8>) -> Seq<u8> {
    v_bytes(bytes.len()) + bytes
}

/// A big-endian number of `width` bytes.
pub open spec fn be_bytes(n: nat, width: nat) -> Seq<u8>
    decreases width,
{
    if width == 0 {
        Seq::empty()
    } else {
        be_bytes(n / 256, (width - 1) as nat).push((n % 256) as u8)
    }
}

/// Appends a `v` field.
pub fn put_v(out: &mut Vec<u8>, value: u64)
    ensures
        final(out)@ == old(out)@ + v_bytes(value as nat),
{
    // The groups, least significant first.
    let mut groups: Vec<u8> = Vec::new();
    groups.push((value % 128) as u8);
    let mut left: u64 = value / 128;
    proof {
        assert(groups@.reverse() =~= seq![(value % 128) as u8]);
    }
    while left != 0
        invariant
            v_bytes(value as nat) == v_head(left as nat) + groups@.reverse(),
        decreases left,
    {
        let ghost before = groups@;
        groups.push((128 + left % 128) as u8);
        proof {
            let d = (128 + left as nat % 128) as u8;
            assert(groups@.reverse() =~= seq![d] + before.reverse());
            assert(v_head(left as nat) + before.reverse() =~= v_head(left as nat / 128) + (seq![d]
                + before.reverse()));
        }
        left = left / 128;
    }
    let ghost start = out@;
    let mut count: usize = groups.len();
    assert(groups@.reverse().take(0) =~= Seq::<u8>::empty());
    while count > 0
        invariant
            count <= groups@.len(),
            out@ == start + groups@.reverse().take(groups@.len() - count),
        decreases count,
    {
        count -= 1;
        out.push(groups[count]);
        proof {
            let done = groups@.len() - count;
            assert(groups@.reverse()[done - 1] == groups@[count as int]);
            assert(groups@.reverse().take(done) =~= groups@.reverse().take(done - 1).push(
                groups@[count as int],
            ));
        }
    }
    assert(groups@.reverse().take(groups@.len() as int) =~= groups@.reverse());
    assert(v_head(0) + groups@.reverse() =~= groups@.reverse());
}

/// Appends an `s` field.
pub fn put_s(out: &mut Vec<u8>, value: i64)
    ensures
        final(out)@ == old(out)@ + s_bytes(value as int),
{
    if value > 0 {
        put_v(out, value as u64 * 2 - 1);
    } else if value == i64::MIN {
        put_v(out, u64::MAX);
    } else {
        put_v(out, (-value) as u64 * 2);
    }
}

/// Appends some bytes.
pub fn put_bytes(out: &mut Vec<u8>, bytes: &[u8])
    ensures
        final(out)@ == old(out)@ + bytes@,
{
    out.extend_from_slice(bytes);
    assert(out@ =~= old(out)@ + bytes@);
}

/// Appends a `vb` field: the length, then the bytes.
pub fn put_vb(out: &mut Vec<u8>, bytes: &[u8])
    ensures
        final(out)@ == old(out)@ + vb_bytes(bytes@),
{
    put_v(out, bytes.len() as u64);
    put_bytes(out, bytes);
    assert(out@ =~= old(out)@ + vb_bytes(bytes@));
}

/// Appends a 32-bit big-endian field.
pub fn put_u32(out: &mut Vec<u8>, value: u32)
    ensures
        final(out)@ == old(out)@ + be_bytes(value as nat, 4),
{
    proof {
        reveal_with_fuel(be_bytes, 5);
    }
    out.push((value / 0x100_0000) as u8);
    out.push((value / 0x1_0000 % 256) as u8);
    out.push((value / 0x100 % 256) as u8);
    out.push((value % 256) as u8);
    assert(out@ =~= old(out)@ + be_bytes(value as nat, 4));
}

/// Appends a 64-bit big-endian field.
pub fn put_u64(out: &mut Vec<u8>, value: u64)
    ensures
        final(out)@ == old(out)@ + be_bytes(value as nat, 8),
{
    put_u32(out, (value / 0x1_0000_0000) as u32);
    put_u32(out, (value % 0x1_0000_0000) as u32);
    proof {
        reveal_with_fuel(pow256, 5);
        assert(pow256(4) == 0x1_0000_0000);
        lemma_be_bytes_join(value as nat / 0x1_0000_0000, value as nat % 0x1_0000_0000, 4, 4);
    }
    assert(out@ =~= old(out)@ + be_bytes(value as nat, 8));
}

// What a read gives back of a write.

/// `piece` stands in `bytes` at `at`.
#[verifier::opaque]
pub open spec fn holds_at(bytes: Seq<u8>, at: int, piece: Seq<u8>) -> bool {
    &&& 0 <= at
    &&& at + piece.len() <= bytes.len()
    &&& bytes.subrange(at, at + piece.len()) == piece
}

/// Some bytes stand at the front of themselves.
pub proof fn lemma_holds_whole(bytes: Seq<u8>)
    ensures
        holds_at(bytes, 0, bytes),
{
    reveal(holds_at);
    assert(bytes.subrange(0, bytes.len() as int) =~= bytes);
}

/// A piece stands where its concatenation with what is around it puts it.
pub proof fn lemma_holds_between(before: Seq<u8>, piece: Seq<u8>, after: Seq<u8>)
    ensures
        holds_at(before + piece + after, before.len() as int, piece),
{
    reveal(holds_at);
    let all = before + piece + after;
    assert(all.subrange(before.len() as int, before.len() as int + piece.len()) =~= piece);
}

/// Two pieces stand one behind the other where their concatenation stands.
pub proof fn lemma_holds_split(bytes: Seq<u8>, at: int, first: Seq<u8>, second: Seq<u8>)
    requires
        holds_at(bytes, at, first + second),
    ensures
        holds_at(bytes, at, first),
        holds_at(bytes, at + first.len(), second),
{
    reveal(holds_at);
    let both = bytes.subrange(at, at + (first + second).len());
    assert(both.subrange(0, first.len() as int) =~= first);
    assert(both.subrange(first.len() as int, both.len() as int) =~= second);
    assert(bytes.subrange(at, at + first.len()) =~= both.subrange(0, first.len() as int));
    assert(bytes.subrange(at + first.len(), at + first.len() + second.len()) =~= both.subrange(
        first.len() as int,
        both.len() as int,
    ));
}

/// A `v` field reads back as the number it was written from, and is read to
/// its last byte.
pub proof fn lemma_v_round_trip(bytes: Seq<u8>, at: int, base: int, n: u64)
    requires
        holds_at(bytes, at, v_bytes(n as nat)),
    ensures
        spec_v(bytes, at, base) == (Ok::<u64, Halt>(n), at + v_bytes(n as nat).len()),
{
    reveal(holds_at);
    let head = v_head(n as nat / 128);
    let whole = bytes.subrange(at, at + v_bytes(n as nat).len());
    reveal_with_fuel(pow128, 10);
    lemma_head_len(n as nat / 128, 9);
    assert(holds_at(bytes, at, head)) by {
        assert(bytes.subrange(at, at + head.len()) =~= whole.subrange(0, head.len() as int));
        assert(whole.subrange(0, head.len() as int) =~= head);
    }
    lemma_head_reads(bytes, at, base, n as nat / 128);
    assert(bytes[at + head.len()] == whole[head.len() as int]);
}

/// An `s` field reads back as the number it was written from, for every
/// number the reader does not refuse as too wide.
pub proof fn lemma_s_round_trip(bytes: Seq<u8>, at: int, base: int, value: i64)
    requires
        -0x4000_0000_0000_0000 < value < 0x4000_0000_0000_0000,
        holds_at(bytes, at, s_bytes(value as int)),
    ensures
        spec_s(bytes, at, base) == (Ok::<i64, Halt>(value), at + s_bytes(value as int).len()),
{
    lemma_v_round_trip(bytes, at, base, s_raw(value as int) as u64);
}

/// A `vb` field reads back as the bytes it was written from, up to the
/// longest byte string the reader takes.
pub proof fn lemma_vb_round_trip(bytes: Seq<u8>, at: int, base: int, what: Part, field: Seq<u8>)
    requires
        field.len() <= MAX_VB_LEN,
        holds_at(bytes, at, vb_bytes(field)),
    ensures
        spec_vb(bytes, at, base, what) == (Ok::<Seq<u8>, Halt>(field), at + vb_bytes(field).len()),
{
    reveal(holds_at);
    lemma_holds_split(bytes, at, v_bytes(field.len()), field);
    lemma_v_round_trip(bytes, at, base, field.len() as u64);
}

/// A 32-bit field reads back as the number it was written from.
pub proof fn lemma_u32_round_trip(bytes: Seq<u8>, at: int, n: u32)
    requires
        holds_at(bytes, at, be_bytes(n as nat, 4)),
    ensures
        spec_u32(bytes, at) == (Ok::<u32, Halt>(n), at + 4),
{
    reveal(holds_at);
    reveal_with_fuel(be_bytes, 5);
    lemma_be_value_4(be_bytes(n as nat, 4));
}

/// A big-endian field of eight bytes holds the number it was written from.
pub proof fn lemma_u64_round_trip(n: u64)
    ensures
        be_bytes(n as nat, 8).len() == 8,
        be_value(be_bytes(n as nat, 8)) == n,
{
    reveal_with_fuel(pow256, 9);
    lemma_be_round_trip(n as nat, 8);
}

proof fn lemma_be_round_trip(n: nat, width: nat)
    requires
        n < pow256(width),
    ensures
        be_bytes(n, width).len() == width,
        be_value(be_bytes(n, width)) == n,
    decreases width,
{
    reveal_with_fuel(pow256, 9);
    if width > 0 {
        lemma_be_round_trip(n / 256, (width - 1) as nat);
        assert(be_bytes(n, width).drop_last() =~= be_bytes(n / 256, (width - 1) as nat));
    }
}

spec fn pow256(k: nat) -> nat
    decreases k,
{
    if k == 0 {
        1
    } else {
        256 * pow256((k - 1) as nat)
    }
}

spec fn pow128(k: nat) -> nat
    decreases k,
{
    if k == 0 {
        1
    } else {
        128 * pow128((k - 1) as nat)
    }
}

/// A `v` field of a 64-bit number is between one byte long and ten.
pub broadcast proof fn lemma_v_len(n: nat)
    requires
        n <= u64::MAX,
    ensures
        1 <= #[trigger] v_bytes(n).len() <= MAX_V_BYTES,
{
    reveal_with_fuel(pow128, 10);
    lemma_head_len(n / 128, 9);
}

/// A big-endian field is as wide as it is asked to be.
pub broadcast proof fn lemma_be_len(n: nat, width: nat)
    ensures
        #[trigger] be_bytes(n, width).len() == width,
    decreases width,
{
    if width > 0 {
        lemma_be_len(n / 256, (width - 1) as nat);
    }
}

proof fn lemma_head_len(n: nat, k: nat)
    requires
        n < pow128(k),
    ensures
        v_head(n).len() <= k,
    decreases k,
{
    if n > 0 {
        lemma_head_len(n / 128, (k - 1) as nat);
    }
}

/// Reading the leading groups of a field leaves the value they stand for.
proof fn lemma_head_reads(bytes: Seq<u8>, at: int, base: int, n: nat)
    requires
        n <= MAX_V_PREFIX,
        v_head(n).len() < MAX_V_BYTES,
        holds_at(bytes, at, v_head(n)),
    ensures
        spec_v(bytes, at, base) == v_rest(
            bytes,
            at + v_head(n).len(),
            base,
            n as u64,
            v_head(n).len(),
        ),
    decreases n,
{
    reveal(holds_at);
    if n > 0 {
        let before = v_head(n / 128);
        let whole = bytes.subrange(at, at + v_head(n).len());
        assert(holds_at(bytes, at, before)) by {
            assert(bytes.subrange(at, at + before.len()) =~= whole.subrange(0, before.len() as int));
            assert(whole.subrange(0, before.len() as int) =~= before);
        }
        lemma_head_reads(bytes, at, base, n / 128);
        assert(bytes[at + before.len()] == whole[before.len() as int]);
    }
}

/// A wide field is its high half, then its low half.
proof fn lemma_be_bytes_join(high: nat, low: nat, width: nat, count: nat)
    requires
        low < pow256(count),
    ensures
        be_bytes(high * pow256(count) + low, width + count) == be_bytes(high, width) + be_bytes(
            low,
            count,
        ),
    decreases count,
{
    if count == 0 {
        assert(high * 1 == high) by (nonlinear_arith);
        assert(be_bytes(high, width) + be_bytes(low, 0) =~= be_bytes(high, width));
    } else {
        let step = pow256((count - 1) as nat);
        let n = high * pow256(count) + low;
        assert(high * (256 * step) == 256 * (high * step)) by (nonlinear_arith);
        assert(n / 256 == high * step + low / 256);
        lemma_be_bytes_join(high, low / 256, width, (count - 1) as nat);
        assert(be_bytes(n, width + count) =~= be_bytes(high, width) + be_bytes(low, count));
    }
}

/// A 32-bit number is what its four bytes come to.
pub proof fn lemma_u32_value(n: u32)
    ensures
        be_value(be_bytes(n as nat, 4)) == n,
{
    reveal_with_fuel(pow256, 5);
    lemma_be_round_trip(n as nat, 4);
}

pub proof fn lemma_be_value_4(bytes: Seq<u8>)
    requires
        bytes.len() == 4,
    ensures
        be_value(bytes) == bytes[0] * 0x100_0000 + bytes[1] * 0x1_0000 + bytes[2] * 0x100 + bytes[3],
{
    reveal_with_fuel(be_value, 5);
}

// What more bytes change.

/// A parse has settled where more bytes cannot change it: it has its value,
/// or the bytes are wrong.
pub open spec fn settled<T>(parse: Parse<T>) -> bool {
    !(parse matches Err(Halt::Need(_)))
}

/// A `v` field that has settled reads the same whatever follows it, and a
/// cursor never leaves its bytes.
pub broadcast proof fn lemma_v_extends(bytes: Seq<u8>, more: Seq<u8>, at: int, base: int)
    requires
        0 <= at <= bytes.len(),
    ensures
        at <= spec_v(bytes, at, base).1 <= bytes.len(),
        settled(spec_v(bytes, at, base).0) ==> #[trigger] spec_v(bytes + more, at, base) == spec_v(
            bytes,
            at,
            base,
        ),
{
    lemma_v_rest_extends(bytes, more, at, base, 0, 0);
}

proof fn lemma_v_rest_extends(
    bytes: Seq<u8>,
    more: Seq<u8>,
    at: int,
    base: int,
    value: u64,
    read: nat,
)
    requires
        0 <= at <= bytes.len(),
    ensures
        at <= v_rest(bytes, at, base, value, read).1 <= bytes.len(),
        settled(v_rest(bytes, at, base, value, read).0) ==> v_rest(
            bytes + more,
            at,
            base,
            value,
            read,
        ) == v_rest(bytes, at, base, value, read),
    decreases MAX_V_BYTES - read,
{
    if read < MAX_V_BYTES && at < bytes.len() && value <= MAX_V_PREFIX && bytes[at] >= 128 {
        let next = (value * 128 + bytes[at] % 128) as u64;
        lemma_v_rest_extends(bytes, more, at + 1, base, next, read + 1);
    }
}

/// The same of an `s` field.
pub broadcast proof fn lemma_s_extends(bytes: Seq<u8>, more: Seq<u8>, at: int, base: int)
    requires
        0 <= at <= bytes.len(),
    ensures
        at <= spec_s(bytes, at, base).1 <= bytes.len(),
        settled(spec_s(bytes, at, base).0) ==> #[trigger] spec_s(bytes + more, at, base) == spec_s(
            bytes,
            at,
            base,
        ),
{
    lemma_v_extends(bytes, more, at, base);
}

/// The same of a run of bytes.
pub broadcast proof fn lemma_take_extends(
    bytes: Seq<u8>,
    more: Seq<u8>,
    at: int,
    count: int,
    what: Part,
)
    requires
        0 <= at <= bytes.len(),
        0 <= count,
    ensures
        at <= spec_take(bytes, at, count, what).1 <= bytes.len(),
        settled(spec_take(bytes, at, count, what).0) ==> #[trigger] spec_take(
            bytes + more,
            at,
            count,
            what,
        ) == spec_take(bytes, at, count, what),
{
    if at + count <= bytes.len() {
        assert((bytes + more).subrange(at, at + count) =~= bytes.subrange(at, at + count));
    }
}

/// The same of a 32-bit field.
pub broadcast proof fn lemma_u32_extends(bytes: Seq<u8>, more: Seq<u8>, at: int)
    requires
        0 <= at <= bytes.len(),
    ensures
        at <= spec_u32(bytes, at).1 <= bytes.len(),
        settled(spec_u32(bytes, at).0) ==> #[trigger] spec_u32(bytes + more, at) == spec_u32(bytes, at),
{
    lemma_take_extends(bytes, more, at, 4, Part::Field32);
}

/// The same of a `v` field that may not be there.
pub proof fn lemma_v_if_extends(
    there: bool,
    bytes: Seq<u8>,
    more: Seq<u8>,
    at: int,
    base: int,
    otherwise: u64,
)
    requires
        0 <= at <= bytes.len(),
    ensures
        at <= spec_v_if(there, bytes, at, base, otherwise).1 <= bytes.len(),
        settled(spec_v_if(there, bytes, at, base, otherwise).0) ==> spec_v_if(
            there,
            bytes + more,
            at,
            base,
            otherwise,
        ) == spec_v_if(there, bytes, at, base, otherwise),
{
    lemma_v_extends(bytes, more, at, base);
}

/// The same of an `s` field that may not be there.
pub proof fn lemma_s_if_extends(
    there: bool,
    bytes: Seq<u8>,
    more: Seq<u8>,
    at: int,
    base: int,
    otherwise: i64,
)
    requires
        0 <= at <= bytes.len(),
    ensures
        at <= spec_s_if(there, bytes, at, base, otherwise).1 <= bytes.len(),
        settled(spec_s_if(there, bytes, at, base, otherwise).0) ==> spec_s_if(
            there,
            bytes + more,
            at,
            base,
            otherwise,
        ) == spec_s_if(there, bytes, at, base, otherwise),
{
    lemma_s_extends(bytes, more, at, base);
}

/// The same of a run of fields nothing reads.
pub proof fn lemma_unread_extends(bytes: Seq<u8>, more: Seq<u8>, at: int, base: int, count: nat)
    requires
        0 <= at <= bytes.len(),
    ensures
        unread(bytes, at, base, count) matches Ok(next) ==> at <= next <= bytes.len(),
        settled(unread(bytes, at, base, count)) ==> unread(bytes + more, at, base, count) == unread(
            bytes,
            at,
            base,
            count,
        ),
    decreases count,
{
    if count > 0 {
        lemma_v_extends(bytes, more, at, base);
        if spec_v(bytes, at, base).0 is Ok {
            lemma_unread_extends(
                bytes,
                more,
                spec_v(bytes, at, base).1,
                base,
                (count - 1) as nat,
            );
        }
    }
}

} // verus!
