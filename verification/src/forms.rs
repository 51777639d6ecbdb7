//! Fields as any writer may put them on the wire, and what they read back as.

use vstd::prelude::*;

use crate::bytes::{
    be_bytes, crc_bit, crc_bits, crc_byte, holds_at, lemma_holds_split, lemma_s_round_trip,
    lemma_v_round_trip, s_bytes, spec_crc32, spec_s, spec_s_if, spec_v, spec_v_if, spec_vb, unread,
    v_bytes, v_head, v_rest,
};
use crate::error::{Halt, Need, Part, Problem};

verus! {

/// A field that is only sometimes there.
#[verifier::opaque]
pub open spec fn opt(there: bool, field: Seq<u8>) -> Seq<u8> {
    if there {
        field
    } else {
        Seq::empty()
    }
}

/// A run of `v` fields.
pub open spec fn run_bytes(values: Seq<u64>) -> Seq<u8>
    decreases values.len(),
{
    if values.len() == 0 {
        Seq::empty()
    } else {
        v_bytes(values[0] as nat) + run_bytes(values.skip(1))
    }
}

/// A signed number an `s` field of the reader takes.
pub open spec fn takes_s(value: i64) -> bool {
    -0x4000_0000_0000_0000 < value < 0x4000_0000_0000_0000
}

/// A `v` field that is there reads as its number, and one that is not leaves
/// what stands in for it and takes nothing.
pub proof fn lemma_v_if_reads(
    there: bool,
    bytes: Seq<u8>,
    at: int,
    base: int,
    n: u64,
    otherwise: u64,
)
    requires
        holds_at(bytes, at, opt(there, v_bytes(n as nat))),
    ensures
        spec_v_if(there, bytes, at, base, otherwise) == (
            Ok::<u64, Halt>(
                if there {
                    n
                } else {
                    otherwise
                },
            ),
            at + opt(there, v_bytes(n as nat)).len(),
        ),
{
    reveal(opt);
    if there {
        lemma_v_round_trip(bytes, at, base, n);
    }
}

/// The same of an `s` field.
pub proof fn lemma_s_if_reads(
    there: bool,
    bytes: Seq<u8>,
    at: int,
    base: int,
    n: i64,
    otherwise: i64,
)
    requires
        there ==> takes_s(n),
        holds_at(bytes, at, opt(there, s_bytes(n as int))),
    ensures
        spec_s_if(there, bytes, at, base, otherwise) == (
            Ok::<i64, Halt>(
                if there {
                    n
                } else {
                    otherwise
                },
            ),
            at + opt(there, s_bytes(n as int)).len(),
        ),
{
    reveal(opt);
    if there {
        lemma_s_round_trip(bytes, at, base, n);
    }
}

/// A run of `v` fields is stepped over whole.
pub proof fn lemma_run_reads(bytes: Seq<u8>, at: int, base: int, values: Seq<u64>)
    requires
        holds_at(bytes, at, run_bytes(values)),
    ensures
        unread(bytes, at, base, values.len()) == Ok::<int, Halt>(at + run_bytes(values).len()),
    decreases values.len(),
{
    if values.len() > 0 {
        let first = v_bytes(values[0] as nat);
        lemma_holds_split(bytes, at, first, run_bytes(values.skip(1)));
        lemma_v_round_trip(bytes, at, base, values[0]);
        assert(spec_v(bytes, at, base) == (Ok::<u64, Halt>(values[0]), at + first.len()));
        lemma_run_reads(bytes, at + first.len(), base, values.skip(1));
    }
}

// What the bits of a field come to.

/// A number in groups of seven bits, the highest first, each in the low bits
/// of its byte.
pub open spec fn base128(groups: Seq<u8>) -> nat
    decreases groups.len(),
{
    if groups.len() == 0 {
        0
    } else {
        base128(groups.drop_last()) * 128 + (groups.last() % 128) as nat
    }
}

/// Whether every byte of a field but the last has its high bit set.
pub open spec fn chained(groups: Seq<u8>) -> bool {
    &&& groups.len() > 0
    &&& groups.last() < 128
    &&& forall|i: int| 0 <= i < groups.len() - 1 ==> #[trigger] groups[i] >= 128
}

/// More groups never make a number smaller.
proof fn lemma_base128_grows(groups: Seq<u8>, i: int)
    requires
        0 <= i <= groups.len(),
    ensures
        base128(groups.take(i)) <= base128(groups),
        i < groups.len() ==> base128(groups.take(i + 1)) == base128(groups.take(i)) * 128
            + groups[i] % 128,
    decreases groups.len() - i,
{
    if i < groups.len() {
        assert(groups.take(i + 1).drop_last() =~= groups.take(i));
        lemma_base128_grows(groups, i + 1);
    } else {
        assert(groups.take(i) =~= groups);
    }
}

proof fn lemma_groups_read(bytes: Seq<u8>, at: int, base: int, groups: Seq<u8>, i: int)
    requires
        holds_at(bytes, at, groups),
        chained(groups),
        groups.len() <= 10,
        0 <= i < groups.len(),
        base128(groups.take(i)) <= u64::MAX,
    ensures
        base128(groups) <= u64::MAX ==> v_rest(
            bytes,
            at + i,
            base,
            base128(groups.take(i)) as u64,
            i as nat,
        ) == (Ok::<u64, Halt>(base128(groups) as u64), at + groups.len()),
        base128(groups) > u64::MAX ==> v_rest(
            bytes,
            at + i,
            base,
            base128(groups.take(i)) as u64,
            i as nat,
        ).0 matches Err(Halt::Bad(Problem::VarintOverflow { .. })),
    decreases groups.len() - i,
{
    lemma_base128_grows(groups, i);
    lemma_base128_grows(groups, i + 1);
    assert(bytes[at + i] == groups[i] && at + i < bytes.len()) by {
        reveal(holds_at);
        assert(bytes.subrange(at, at + groups.len())[i] == groups[i]);
    }
    let next = base128(groups.take(i + 1));
    if i == groups.len() - 1 {
        assert(groups.take(i + 1) =~= groups);
        assert(groups.last() == groups[i]);
    } else if next <= u64::MAX {
        lemma_groups_read(bytes, at, base, groups, i + 1);
    }
}

/// A `v` field is a number in groups of seven bits, the highest first, in as
/// many bytes as its high bits chain, up to ten; one that does not fit in 64
/// bits is refused.
pub proof fn lemma_v_value(bytes: Seq<u8>, at: int, base: int, groups: Seq<u8>)
    requires
        holds_at(bytes, at, groups),
        chained(groups),
        groups.len() <= 10,
    ensures
        base128(groups) <= u64::MAX ==> spec_v(bytes, at, base) == (
            Ok::<u64, Halt>(base128(groups) as u64),
            at + groups.len(),
        ),
        base128(groups) > u64::MAX ==> spec_v(bytes, at, base).0 matches Err(
            Halt::Bad(Problem::VarintOverflow { .. }),
        ),
{
    assert(groups.take(0) =~= Seq::empty());
    lemma_groups_read(bytes, at, base, groups, 0);
}

/// The raw numbers of `s` fields count outward from zero, the positive number
/// ahead of the negative one as far out: 0, 1, -1, 2, -2 and so on.
pub proof fn lemma_s_value(bytes: Seq<u8>, at: int, base: int, raw: u64)
    requires
        holds_at(bytes, at, v_bytes(raw as nat)),
    ensures
        match spec_s(bytes, at, base).0 {
            Ok(value) => {
                &&& raw < 0x7FFF_FFFF_FFFF_FFFF
                &&& value > 0 ==> raw == 2 * value - 1
                &&& value <= 0 ==> raw == -2 * value
                &&& spec_s(bytes, at, base).1 == at + v_bytes(raw as nat).len()
            },
            Err(_) => raw >= 0x7FFF_FFFF_FFFF_FFFF,
        },
{
    lemma_v_round_trip(bytes, at, base, raw);
}

/// Eight bits into a checksum that opens with no bit set only move it up.
proof fn lemma_crc_moves_up(c: u32)
    requires
        c < 0x100_0000,
    ensures
        crc_bits(c, 8) == c * 256,
{
    reveal_with_fuel(crc_bits, 9);
    assert(crc_bit(c) == c << 1 && crc_bit(c << 1) == c << 2 && crc_bit(c << 2) == c << 3
        && crc_bit(c << 3) == c << 4 && crc_bit(c << 4) == c << 5 && crc_bit(c << 5) == c << 6
        && crc_bit(c << 6) == c << 7 && crc_bit(c << 7) == c << 8) by (bit_vector)
        requires
            c < 0x100_0000u32,
    ;
    assert(c << 8 == c * 256) by (bit_vector)
        requires
            c < 0x100_0000u32,
    ;
}

/// The top byte of a checksum takes itself out.
proof fn lemma_crc_own_byte(c: u32)
    ensures
        crc_byte(c, (c / 0x100_0000) as u8) == (c % 0x100_0000) * 256,
{
    let top = (c / 0x100_0000) as u8;
    let high = c >> 24;
    let low = c & 0xFF_FFFF;
    assert(high == c / 0x100_0000 && high < 256) by (bit_vector)
        requires
            high == c >> 24,
    ;
    assert(low == c % 0x100_0000) by (bit_vector)
        requires
            low == c & 0xFF_FFFF,
    ;
    assert(c ^ (high << 24) == low) by (bit_vector)
        requires
            high == c >> 24,
            low == c & 0xFF_FFFF,
    ;
    assert(top as u32 == high);
    lemma_crc_moves_up((c % 0x100_0000) as u32);
}

/// The four bytes of a number, each the top one of what is left of it.
proof fn lemma_four_bytes(c: u32)
    ensures
        ({
            let c1 = ((c % 0x100_0000) * 256) as u32;
            let c2 = ((c1 % 0x100_0000) * 256) as u32;
            let c3 = ((c2 % 0x100_0000) * 256) as u32;
            &&& be_bytes(c as nat, 4) == seq![
                (c / 0x100_0000) as u8,
                (c1 / 0x100_0000) as u8,
                (c2 / 0x100_0000) as u8,
                (c3 / 0x100_0000) as u8,
            ]
            &&& (c3 % 0x100_0000) * 256 == 0
        }),
{
    reveal_with_fuel(be_bytes, 5);
    let c1 = ((c % 0x100_0000) * 256) as u32;
    let c2 = ((c1 % 0x100_0000) * 256) as u32;
    let c3 = ((c2 % 0x100_0000) * 256) as u32;
    assert(c1 == (c % 0x100_0000) * 256);
    assert(c2 == (c % 0x1_0000) * 0x1_0000);
    assert(c3 == (c % 0x100) * 0x100_0000);
    assert(be_bytes(c as nat, 4) =~= seq![
        (c / 0x100_0000) as u8,
        (c1 / 0x100_0000) as u8,
        (c2 / 0x100_0000) as u8,
        (c3 / 0x100_0000) as u8,
    ]);
}

/// One more byte into a checksum, where it is the checksum's own top byte.
proof fn lemma_crc_own_more(data: Seq<u8>, c: u32)
    requires
        spec_crc32(data) == c,
    ensures
        spec_crc32(data.push((c / 0x100_0000) as u8)) == (c % 0x100_0000) * 256,
{
    assert(data.push((c / 0x100_0000) as u8).drop_last() =~= data);
    lemma_crc_own_byte(c);
}

/// Some bytes with their own checksum behind them come to nothing, which is
/// how a reader that goes on over the checksum tells they are whole.
pub proof fn lemma_crc_takes_itself_out(data: Seq<u8>)
    ensures
        spec_crc32(data + be_bytes(spec_crc32(data) as nat, 4)) == 0,
{
    let c = spec_crc32(data);
    let c1 = ((c % 0x100_0000) * 256) as u32;
    let c2 = ((c1 % 0x100_0000) * 256) as u32;
    let c3 = ((c2 % 0x100_0000) * 256) as u32;
    let d1 = data.push((c / 0x100_0000) as u8);
    let d2 = d1.push((c1 / 0x100_0000) as u8);
    let d3 = d2.push((c2 / 0x100_0000) as u8);
    lemma_four_bytes(c);
    lemma_crc_own_more(data, c);
    lemma_crc_own_more(d1, c1);
    lemma_crc_own_more(d2, c2);
    lemma_crc_own_more(d3, c3);
    assert(data + be_bytes(c as nat, 4) =~= d3.push((c3 / 0x100_0000) as u8));
}

// Fields that are cut short or too long.

/// A `v` field that the bytes end in the middle of says where they end.
pub proof fn lemma_v_cut_short(bytes: Seq<u8>, at: int, base: int)
    requires
        0 <= at <= bytes.len(),
        bytes.len() - at < 10,
        forall|i: int| at <= i < bytes.len() ==> #[trigger] bytes[i] >= 128,
        base128(bytes.skip(at)) * 128 <= u64::MAX,
    ensures
        spec_v(bytes, at, base).0 == Err::<u64, Halt>(
            Halt::Need(Need::Field { at: (base + bytes.len()) as u64 }),
        ),
{
    assert(bytes.skip(at).take(0) =~= Seq::empty());
    lemma_cut_groups(bytes, at, base, 0);
}

proof fn lemma_cut_groups(bytes: Seq<u8>, at: int, base: int, i: int)
    requires
        0 <= at <= bytes.len(),
        0 <= i <= bytes.len() - at < 10,
        forall|i: int| at <= i < bytes.len() ==> #[trigger] bytes[i] >= 128,
        base128(bytes.skip(at)) * 128 <= u64::MAX,
    ensures
        v_rest(
            bytes,
            at + i,
            base,
            base128(bytes.skip(at).take(i)) as u64,
            i as nat,
        ).0 == Err::<u64, Halt>(Halt::Need(Need::Field { at: (base + bytes.len()) as u64 })),
    decreases bytes.len() - at - i,
{
    let groups = bytes.skip(at);
    lemma_base128_grows(groups, i);
    if i < groups.len() {
        lemma_base128_grows(groups, i + 1);
        assert(groups[i] == bytes[at + i]);
        lemma_cut_groups(bytes, at, base, i + 1);
    }
}

/// A byte string that says it is longer than one may be is refused, and one
/// the bytes end in the middle of says how much of it is there.
pub proof fn lemma_vb_bounds(bytes: Seq<u8>, at: int, base: int, what: Part, len: u64, got: Seq<u8>)
    requires
        0 <= at,
        holds_at(bytes, at, v_bytes(len as nat) + got),
        bytes.len() == at + v_bytes(len as nat).len() + got.len(),
        got.len() < len,
    ensures
        spec_vb(bytes, at, base, what).0 == Err::<Seq<u8>, Halt>(
            if len > 1048576 {
                Halt::Bad(Problem::ByteString { what, len })
            } else {
                Halt::Need(Need::Bytes { what, want: len, got: got.len() as u64 })
            },
        ),
{
    lemma_holds_split(bytes, at, v_bytes(len as nat), got);
    lemma_v_round_trip(bytes, at, base, len);
}

// What a checksum is.

/// Some bytes with the bits of others turned in them.
pub open spec fn turned(a: Seq<u8>, b: Seq<u8>) -> Seq<u8> {
    Seq::new(a.len(), |i: int| a[i] ^ b[i])
}

proof fn lemma_crc_bits_turn(a: u32, b: u32, count: nat)
    ensures
        crc_bits(a ^ b, count) == crc_bits(a, count) ^ crc_bits(b, count),
    decreases count,
{
    if count > 0 {
        lemma_crc_bits_turn(a, b, (count - 1) as nat);
        let x = crc_bits(a, (count - 1) as nat);
        let y = crc_bits(b, (count - 1) as nat);
        assert(crc_bit(x ^ y) == crc_bit(x) ^ crc_bit(y)) by (bit_vector);
    }
}

/// Turning bits in some bytes turns the same bits in their checksum whatever
/// the bytes are: those the turned bits alone would come to.
pub proof fn lemma_crc_turns(a: Seq<u8>, b: Seq<u8>)
    requires
        a.len() == b.len(),
    ensures
        spec_crc32(turned(a, b)) == spec_crc32(a) ^ spec_crc32(b),
    decreases a.len(),
{
    if a.len() == 0 {
        assert(0u32 ^ 0u32 == 0u32) by (bit_vector);
    } else {
        let both = turned(a, b);
        assert(both.drop_last() =~= turned(a.drop_last(), b.drop_last()));
        lemma_crc_turns(a.drop_last(), b.drop_last());
        let x = spec_crc32(a.drop_last());
        let y = spec_crc32(b.drop_last());
        let p = a.last();
        let q = b.last();
        assert((x ^ y) ^ (((p ^ q) as u32) << 24) == (x ^ ((p as u32) << 24)) ^ (y ^ ((q as u32)
            << 24))) by (bit_vector);
        lemma_crc_bits_turn(x ^ ((p as u32) << 24), y ^ ((q as u32) << 24), 8);
    }
}

/// Zeros ahead of some bytes change nothing in their checksum, and a single
/// set bit comes to the generator, 0x04C11DB7.
pub proof fn lemma_crc_generator(data: Seq<u8>)
    ensures
        spec_crc32(seq![0u8] + data) == spec_crc32(data),
        spec_crc32(seq![1u8]) == 0x04C1_1DB7,
    decreases data.len(),
{
    let more = seq![0u8] + data;
    reveal_with_fuel(spec_crc32, 2);
    reveal_with_fuel(crc_bits, 9);
    if data.len() == 0 {
        assert(more.drop_last() =~= Seq::empty());
        assert(more.last() == 0);
        assert(0u32 ^ ((0u8 as u32) << 24) == 0u32) by (bit_vector);
        lemma_crc_moves_up(0);
    } else {
        assert(more.drop_last() =~= seq![0u8] + data.drop_last());
        assert(more.last() == data.last());
        lemma_crc_generator(data.drop_last());
    }
    let one = seq![1u8];
    assert(one.drop_last() =~= Seq::empty());
    assert(one.last() == 1);
    assert(crc_bit(crc_bit(crc_bit(crc_bit(crc_bit(crc_bit(crc_bit(crc_bit(0u32 ^ ((1u8 as u32)
        << 24))))))))) == 0x04C1_1DB7u32) by (bit_vector);
}

/// A hundred and twenty-eight, multiplied out.
pub open spec fn pow128(k: nat) -> nat
    decreases k,
{
    if k == 0 {
        1
    } else {
        128 * pow128((k - 1) as nat)
    }
}

/// A `v` field is written in as few bytes as its number has groups of seven
/// bits.
pub proof fn lemma_v_shortest(n: nat, k: nat)
    requires
        k >= 1,
        n < pow128(k),
    ensures
        v_bytes(n).len() <= k,
{
    reveal_with_fuel(pow128, 2);
    lemma_head_shortest(n / 128, (k - 1) as nat);
}

proof fn lemma_head_shortest(n: nat, k: nat)
    requires
        n < pow128(k),
    ensures
        v_head(n).len() <= k,
    decreases k,
{
    if n > 0 {
        lemma_head_shortest(n / 128, (k - 1) as nat);
    }
}

} // verus!
