//! Main headers as any writer may put them on the wire, and the tables they
//! read back as.

use vstd::prelude::*;

use crate::bytes::{
    holds_at, lemma_holds_split, lemma_holds_whole, lemma_v_round_trip, lemma_vb_round_trip,
    s_bytes, v_bytes, vb_bytes,
};
use crate::error::{Halt, Part, Problem};
use crate::forms::{lemma_run_reads, lemma_s_if_reads, lemma_v_if_reads, opt, run_bytes, takes_s};
use crate::stream::TimeBase;
use crate::tables::{
    body_v, carried_at_first, codes_from, elision_from, group_at, invalid_code, main_fields,
    time_bases_from, with_group, Carried, FrameCode, Group, MainHeaderV, TablesV,
};

verus! {

// One group of the framecode table.

/// A group of the framecode table as it is written: how many fields it states,
/// and the fields, of which it states the first so many.
pub struct GroupForm {
    pub flags: u64,
    pub stated: u64,
    pub pts_delta: i64,
    pub size_mul: u64,
    pub stream_id: u64,
    pub size_lsb: u64,
    pub reserved: u64,
    pub count: u64,
    pub match_time: i64,
    pub header_idx: u64,
    /// The fields it states past those that mean something.
    pub extra: Seq<u64>,
}

/// Whether a group is one a reader takes.
pub open spec fn group_ok(g: GroupForm) -> bool {
    &&& g.stated <= 64
    &&& g.extra.len() == if g.stated > 8 {
        g.stated - 8
    } else {
        0
    }
    &&& g.stated > 0 ==> takes_s(g.pts_delta)
    &&& g.stated > 6 ==> takes_s(g.match_time)
}

/// A group on the wire.
pub open spec fn group_form(g: GroupForm) -> Seq<u8> {
    v_bytes(g.flags as nat) + v_bytes(g.stated as nat) + opt(
        g.stated > 0,
        s_bytes(g.pts_delta as int),
    ) + opt(g.stated > 1, v_bytes(g.size_mul as nat)) + opt(
        g.stated > 2,
        v_bytes(g.stream_id as nat),
    ) + opt(g.stated > 3, v_bytes(g.size_lsb as nat)) + opt(
        g.stated > 4,
        v_bytes(g.reserved as nat),
    ) + opt(g.stated > 5, v_bytes(g.count as nat)) + opt(
        g.stated > 6,
        s_bytes(g.match_time as int),
    ) + opt(g.stated > 7, v_bytes(g.header_idx as nat)) + run_bytes(g.extra)
}

/// What a group says, `carried` being what the one ahead of it left: a field
/// it does not state is as the group ahead had it or zero, and a count it does
/// not state is how far the low part of the size has to go to the step.
pub open spec fn told_group(g: GroupForm, carried: Carried) -> Group {
    let size_mul = if g.stated > 1 {
        g.size_mul
    } else {
        carried.size_mul
    };
    let size_lsb = if g.stated > 3 {
        g.size_lsb
    } else {
        0
    };
    Group {
        flags: g.flags,
        carried: Carried {
            pts_delta: if g.stated > 0 {
                g.pts_delta
            } else {
                carried.pts_delta
            },
            size_mul,
            stream_id: if g.stated > 2 {
                g.stream_id
            } else {
                carried.stream_id
            },
            header_idx: if g.stated > 7 {
                g.header_idx
            } else {
                carried.header_idx
            },
        },
        size_lsb,
        reserved_count: if g.stated > 4 {
            g.reserved
        } else {
            0
        },
        count: if g.stated > 5 {
            g.count
        } else if size_mul > size_lsb {
            (size_mul - size_lsb) as u64
        } else {
            0
        },
    }
}

/// A group reads back as what it says.
#[verifier::rlimit(60)]
pub proof fn lemma_group_reads(body: Seq<u8>, at: int, base: int, g: GroupForm, carried: Carried)
    requires
        group_ok(g),
        holds_at(body, at, group_form(g)),
    ensures
        group_at(body, at, base, carried) == Ok::<(Group, int), Halt>(
            (told_group(g, carried), at + group_form(g).len()),
        ),
{
    let n = g.stated;
    let f2 = v_bytes(n as nat);
    let f3 = opt(n > 0, s_bytes(g.pts_delta as int));
    let f4 = opt(n > 1, v_bytes(g.size_mul as nat));
    let f5 = opt(n > 2, v_bytes(g.stream_id as nat));
    let f6 = opt(n > 3, v_bytes(g.size_lsb as nat));
    let f7 = opt(n > 4, v_bytes(g.reserved as nat));
    let f8 = opt(n > 5, v_bytes(g.count as nat));
    let f9 = opt(n > 6, s_bytes(g.match_time as int));
    let f10 = opt(n > 7, v_bytes(g.header_idx as nat));
    let f11 = run_bytes(g.extra);
    let p1 = v_bytes(g.flags as nat);
    let p2 = p1 + f2;
    let p3 = p2 + f3;
    let p4 = p3 + f4;
    let p5 = p4 + f5;
    let p6 = p5 + f6;
    let p7 = p6 + f7;
    let p8 = p7 + f8;
    let p9 = p8 + f9;
    let p10 = p9 + f10;
    lemma_holds_split(body, at, p10, f11);
    lemma_holds_split(body, at, p9, f10);
    lemma_holds_split(body, at, p8, f9);
    lemma_holds_split(body, at, p7, f8);
    lemma_holds_split(body, at, p6, f7);
    lemma_holds_split(body, at, p5, f6);
    lemma_holds_split(body, at, p4, f5);
    lemma_holds_split(body, at, p3, f4);
    lemma_holds_split(body, at, p2, f3);
    lemma_holds_split(body, at, p1, f2);
    let told = told_group(g, carried);
    let step = if told.carried.size_mul >= told.size_lsb {
        (told.carried.size_mul - told.size_lsb) as u64
    } else {
        0
    };
    lemma_v_round_trip(body, at, base, g.flags);
    lemma_v_round_trip(body, at + p1.len(), base, n);
    lemma_s_if_reads(n > 0, body, at + p2.len(), base, g.pts_delta, carried.pts_delta);
    lemma_v_if_reads(n > 1, body, at + p3.len(), base, g.size_mul, carried.size_mul);
    lemma_v_if_reads(n > 2, body, at + p4.len(), base, g.stream_id, carried.stream_id);
    lemma_v_if_reads(n > 3, body, at + p5.len(), base, g.size_lsb, 0);
    lemma_v_if_reads(n > 4, body, at + p6.len(), base, g.reserved, 0);
    lemma_v_if_reads(n > 5, body, at + p7.len(), base, g.count, step);
    lemma_s_if_reads(n > 6, body, at + p8.len(), base, g.match_time, 0);
    lemma_v_if_reads(n > 7, body, at + p9.len(), base, g.header_idx, carried.header_idx);
    lemma_run_reads(body, at + p10.len(), base, g.extra);
}

// The table the groups fill.

/// The frame-header byte of framecode number `n`: the byte startcodes open
/// with, `N`, is passed over.
pub open spec fn byte_of(n: int) -> int {
    if n < 78 {
        n
    } else {
        n + 1
    }
}

/// How many bytes have an entry once there are `n` framecodes: that of `N` has
/// one as soon as a byte behind it has.
pub open spec fn filled(n: int) -> int {
    if n <= 78 {
        n
    } else {
        n + 1
    }
}

/// Whether an entry of the table is number `k` of a group: the group's own,
/// but for the low part of the size, which steps by one from entry to entry.
pub open spec fn is_entry(code: FrameCode, group: Group, k: int) -> bool {
    &&& code.flags == group.flags
    &&& code.stream_id == group.carried.stream_id
    &&& code.size_mul == group.carried.size_mul
    &&& code.pts_delta == group.carried.pts_delta
    &&& code.reserved_count == group.reserved_count
    &&& code.header_idx == group.carried.header_idx
    &&& group.size_lsb + k <= u64::MAX ==> code.size_lsb - group.size_lsb == k
}

/// How many framecodes some groups stand for.
pub open spec fn counted(groups: Seq<Group>) -> nat
    decreases groups.len(),
{
    if groups.len() == 0 {
        0
    } else {
        counted(groups.drop_last()) + groups.last().count as nat
    }
}

/// A group puts its entries behind what is there, as many as there is room
/// for, and leaves what is there alone.
proof fn lemma_group_lays(codes: Seq<FrameCode>, group: Group, taken: nat, n: int)
    requires
        0 <= n <= 255,
        codes.len() == filled(n) || (n == 78 && codes.len() == 79),
        taken <= group.count,
    ensures
        ({
            let out = with_group(codes, group, taken);
            let left = if group.count - taken < 255 - n {
                group.count - taken
            } else {
                255 - n
            };
            &&& left == 0 ==> out == codes
            &&& left > 0 ==> out.len() == filled(n + left)
            &&& out.len() >= codes.len()
            &&& forall|i: int| 0 <= i < codes.len() ==> #[trigger] out[i] == codes[i]
            &&& forall|k: int|
                0 <= k < left ==> is_entry(#[trigger] out[byte_of(n + k)], group, taken + k)
            &&& codes.len() <= 78 < out.len() ==> out[78] == invalid_code()
        }),
    decreases 256 - codes.len(),
{
    if taken < group.count && codes.len() < 256 {
        let out = with_group(codes, group, taken);
        if codes.len() == 78 {
            let more = codes.push(invalid_code());
            lemma_group_lays(more, group, taken, n);
            assert(out == with_group(more, group, taken));
            assert(out[78] == more[78]);
            assert forall|i: int| 0 <= i < codes.len() implies #[trigger] out[i] == codes[i] by {
                assert(out[i] == more[i]);
            }
        } else {
            let more = codes.push(crate::tables::group_code(group, taken));
            lemma_group_lays(more, group, taken + 1, n + 1);
            assert(out == with_group(more, group, taken + 1));
            let left = if group.count - taken < 255 - n {
                group.count - taken
            } else {
                255 - n
            };
            assert forall|i: int| 0 <= i < codes.len() implies #[trigger] out[i] == codes[i] by {
                assert(out[i] == more[i]);
            }
            assert forall|k: int| 0 <= k < left implies is_entry(
                #[trigger] out[byte_of(n + k)],
                group,
                taken + k,
            ) by {
                if k == 0 {
                    assert(out[byte_of(n)] == more[byte_of(n)]);
                } else {
                    assert(is_entry(out[byte_of(n + 1 + (k - 1))], group, taken + 1 + (k - 1)));
                }
            }
        }
    }
}

/// The groups of a table on the wire.
pub open spec fn groups_form(gs: Seq<GroupForm>) -> Seq<u8>
    decreases gs.len(),
{
    if gs.len() == 0 {
        Seq::empty()
    } else {
        groups_form(gs.drop_last()) + group_form(gs.last())
    }
}

/// What some groups leave for the next. Where there is none ahead of it, a
/// frame with nothing said of it is on stream 0, at the PTS of the one ahead,
/// with a step of one and no elision header.
pub open spec fn left_by(groups: Seq<Group>) -> Carried {
    if groups.len() == 0 {
        Carried { pts_delta: 0, size_mul: 1, stream_id: 0, header_idx: 0 }
    } else {
        groups.last().carried
    }
}

/// What some groups say.
pub open spec fn told_groups(gs: Seq<GroupForm>) -> Seq<Group>
    decreases gs.len(),
{
    if gs.len() == 0 {
        Seq::empty()
    } else {
        let ahead = told_groups(gs.drop_last());
        ahead.push(told_group(gs.last(), left_by(ahead)))
    }
}

/// Whether some groups fill the table, the last of them with its first entry
/// still in it.
pub open spec fn fills(gs: Seq<GroupForm>) -> bool {
    &&& 1 <= gs.len() <= 256
    &&& counted(told_groups(gs).drop_last()) < 255 <= counted(told_groups(gs))
    &&& forall|i: int| 0 <= i < gs.len() ==> group_ok(#[trigger] gs[i])
}

/// Whether a table holds the first `n` framecodes of some groups.
pub open spec fn holds_groups(codes: Seq<FrameCode>, groups: Seq<Group>, n: int) -> bool {
    &&& codes.len() == filled(n)
    &&& codes.len() > 78 ==> codes[78] == invalid_code()
    &&& forall|j: int, k: int|
        0 <= j < groups.len() && 0 <= k < groups[j].count && counted(groups.take(j)) + k < n
            ==> is_entry(#[trigger] codes[byte_of(counted(groups.take(j)) + k)], groups[j], k)
}

proof fn lemma_told_groups(gs: Seq<GroupForm>)
    ensures
        told_groups(gs).len() == gs.len(),
        gs.len() > 0 ==> told_groups(gs).drop_last() == told_groups(gs.drop_last()),
    decreases gs.len(),
{
    if gs.len() > 0 {
        lemma_told_groups(gs.drop_last());
        assert(told_groups(gs).drop_last() =~= told_groups(gs.drop_last()));
    }
}

/// Fewer groups stand for no more framecodes.
proof fn lemma_counted_grows(groups: Seq<Group>, j: int)
    requires
        0 <= j <= groups.len(),
    ensures
        counted(groups.take(j)) <= counted(groups),
        j < groups.len() ==> counted(groups.take(j)) + groups[j].count <= counted(groups),
    decreases groups.len(),
{
    if j == groups.len() {
        assert(groups.take(j) =~= groups);
    } else {
        let less = groups.drop_last();
        if j == groups.len() - 1 {
            assert(groups.take(j) =~= less);
        } else {
            lemma_counted_grows(less, j);
            assert(less.take(j) =~= groups.take(j));
            assert(less[j] == groups[j]);
        }
    }
}

/// The groups ahead of the last leave their framecodes and what the next
/// carries on from.
proof fn lemma_groups_ahead(body: Seq<u8>, at: int, base: int, gs: Seq<GroupForm>)
    requires
        holds_at(body, at, groups_form(gs)),
        gs.len() <= 256,
        counted(told_groups(gs)) < 255,
        forall|i: int| 0 <= i < gs.len() ==> group_ok(#[trigger] gs[i]),
    ensures
        ({
            let groups = told_groups(gs);
            exists|codes: Seq<FrameCode>|
                holds_groups(codes, groups, counted(groups) as int) && codes_from(
                    body,
                    at,
                    base,
                    Seq::empty(),
                    carried_at_first(),
                    0,
                ) == #[trigger] codes_from(
                    body,
                    at + groups_form(gs).len(),
                    base,
                    codes,
                    left_by(groups),
                    gs.len(),
                )
        }),
    decreases gs.len(),
{
    let groups = told_groups(gs);
    lemma_told_groups(gs);
    if gs.len() == 0 {
        let codes = Seq::<FrameCode>::empty();
        assert(holds_groups(codes, groups, 0));
        assert(codes_from(body, at, base, codes, carried_at_first(), 0) == codes_from(
            body,
            at + groups_form(gs).len(),
            base,
            codes,
            left_by(groups),
            gs.len(),
        ));
    } else {
        let ahead = gs.drop_last();
        assert forall|i: int| 0 <= i < ahead.len() implies group_ok(#[trigger] ahead[i]) by {
            assert(ahead[i] == gs[i]);
        }
        lemma_holds_split(body, at, groups_form(ahead), group_form(gs.last()));
        lemma_groups_ahead(body, at, base, ahead);
        let carried = left_by(told_groups(ahead));
        let mid = at + groups_form(ahead).len();
        let codes = choose|codes: Seq<FrameCode>|
            holds_groups(codes, told_groups(ahead), counted(told_groups(ahead)) as int)
                && codes_from(body, at, base, Seq::empty(), carried_at_first(), 0)
                == #[trigger] codes_from(body, mid, base, codes, carried, ahead.len());
        lemma_told_groups(ahead);
        assert(group_ok(gs[gs.len() - 1]));
        lemma_group_reads(body, mid, base, gs.last(), carried);
        let group = told_group(gs.last(), carried);
        assert(groups.last() == group);
        let after = with_group(codes, group, 0);
        lemma_one_more_group(codes, groups, counted(told_groups(ahead)) as int);
        let end = at + groups_form(gs).len();
        assert(end == mid + group_form(gs.last()).len());
        assert(codes_from(body, mid, base, codes, carried, ahead.len()) == codes_from(
            body,
            end,
            base,
            after,
            left_by(groups),
            gs.len(),
        ));
        assert(holds_groups(after, groups, counted(groups) as int));
    }
}

/// A table that holds all groups but the last, and then the last.
proof fn lemma_one_more_group(codes: Seq<FrameCode>, groups: Seq<Group>, n: int)
    requires
        groups.len() > 0,
        n == counted(groups.drop_last()),
        n < 255,
        holds_groups(codes, groups.drop_last(), n),
    ensures
        ({
            let all = counted(groups) as int;
            holds_groups(
                with_group(codes, groups.last(), 0),
                groups,
                if all < 255 {
                    all
                } else {
                    255
                },
            )
        }),
{
    let ahead = groups.drop_last();
    let group = groups.last();
    let out = with_group(codes, group, 0);
    let all = counted(groups) as int;
    let upto = if all < 255 {
        all
    } else {
        255
    };
    lemma_group_lays(codes, group, 0, n);
    assert forall|j: int, k: int|
        0 <= j < groups.len() && 0 <= k < groups[j].count && counted(groups.take(j)) + k
            < upto implies is_entry(
        #[trigger] out[byte_of(counted(groups.take(j)) + k)],
        groups[j],
        k,
    ) by {
        if j < ahead.len() {
            assert(groups.take(j) =~= ahead.take(j));
            lemma_counted_grows(ahead, j);
            let b = byte_of(counted(ahead.take(j)) + k);
            assert(is_entry(codes[b], ahead[j], k));
            assert(out[b] == codes[b]);
        } else {
            assert(groups.take(j) =~= ahead);
            assert(is_entry(out[byte_of(n + k)], group, 0 + k));
        }
    }
    if out.len() > 78 && codes.len() > 78 {
        assert(out[78] == codes[78]);
    }
}

/// A framecode table is read as its groups: entry number `k` of a group stands
/// at the byte that number falls on behind all groups ahead of it, the byte
/// `N` passed over, and is the group's own but for the low part of the size,
/// which is the group's and `k` more. Nothing behind the groups is taken.
pub proof fn lemma_table_reads(body: Seq<u8>, at: int, base: int, gs: Seq<GroupForm>)
    requires
        fills(gs),
        holds_at(body, at, groups_form(gs)),
    ensures
        codes_from(body, at, base, Seq::empty(), carried_at_first(), 0) matches Ok((codes, end)) && {
            &&& end == at + groups_form(gs).len()
            &&& codes.len() == 256
            &&& codes[78].flags & 8192 != 0
            &&& holds_groups(codes, told_groups(gs), 255)
        },
{
    let ahead = gs.drop_last();
    let groups = told_groups(gs);
    lemma_told_groups(gs);
    lemma_told_groups(ahead);
    assert forall|i: int| 0 <= i < ahead.len() implies group_ok(#[trigger] ahead[i]) by {
        assert(ahead[i] == gs[i]);
    }
    assert(group_ok(gs[gs.len() - 1]));
    lemma_holds_split(body, at, groups_form(ahead), group_form(gs.last()));
    lemma_groups_ahead(body, at, base, ahead);
    let carried = left_by(told_groups(ahead));
    let mid = at + groups_form(ahead).len();
    let codes = choose|codes: Seq<FrameCode>|
        holds_groups(codes, told_groups(ahead), counted(told_groups(ahead)) as int) && codes_from(
            body,
            at,
            base,
            Seq::empty(),
            carried_at_first(),
            0,
        ) == #[trigger] codes_from(body, mid, base, codes, carried, ahead.len());
    lemma_group_reads(body, mid, base, gs.last(), carried);
    let group = told_group(gs.last(), carried);
    assert(groups.last() == group);
    lemma_one_more_group(codes, groups, counted(told_groups(ahead)) as int);
    let out = with_group(codes, group, 0);
    let end = at + groups_form(gs).len();
    assert(out.len() == 256);
    assert(codes_from(body, end, base, out, group.carried, gs.len()) == Ok::<
        (Seq<FrameCode>, int),
        Halt,
    >((out, end)));
    assert(codes_from(body, mid, base, codes, carried, ahead.len()) == codes_from(
        body,
        end,
        base,
        out,
        group.carried,
        gs.len(),
    ));
    assert(8192u64 & 8192 != 0) by (bit_vector);
}

/// In a table that is read, the first entry of a group has the low part of the
/// size the group states, and each of its neighbours in the group has one more
/// than the entry ahead of it.
pub proof fn lemma_neighbours_step(codes: Seq<FrameCode>, groups: Seq<Group>, j: int, k: int)
    requires
        holds_groups(codes, groups, 255),
        0 <= j < groups.len(),
        0 <= k,
        k + 1 < groups[j].count,
        counted(groups.take(j)) + k + 1 < 255,
        groups[j].size_lsb + k + 1 <= u64::MAX,
    ensures
        ({
            let start = counted(groups.take(j)) as int;
            &&& codes[byte_of(start)].size_lsb == groups[j].size_lsb
            &&& codes[byte_of(start + k + 1)].size_lsb == codes[byte_of(start + k)].size_lsb + 1
        }),
{
    let start = counted(groups.take(j)) as int;
    assert(is_entry(codes[byte_of(start + 0)], groups[j], 0));
    assert(is_entry(codes[byte_of(start + k)], groups[j], k));
    assert(is_entry(codes[byte_of(start + (k + 1))], groups[j], k + 1));
}

/// A group that starts at nothing and has as many entries as its step, all of
/// them in the table, has for every size one entry, and no other, with the low
/// part that size leaves over whole steps.
pub proof fn lemma_group_covers_sizes(
    codes: Seq<FrameCode>,
    groups: Seq<Group>,
    j: int,
    size: nat,
    k: int,
)
    requires
        holds_groups(codes, groups, 255),
        0 <= j < groups.len(),
        groups[j].size_lsb == 0,
        groups[j].count == groups[j].carried.size_mul,
        groups[j].count > 0,
        counted(groups.take(j)) + groups[j].count <= 255,
        0 <= k < groups[j].count,
    ensures
        ({
            let code = codes[byte_of(counted(groups.take(j)) + k)];
            let mul = groups[j].carried.size_mul;
            &&& code.size_mul == mul
            &&& code.size_lsb == size % mul as nat <==> k == size % mul as nat
        }),
{
    let start = counted(groups.take(j)) as int;
    assert(is_entry(codes[byte_of(start + k)], groups[j], k));
}

// The rest of the header.

/// Time bases on the wire.
pub open spec fn bases_form(bases: Seq<TimeBase>) -> Seq<u8>
    decreases bases.len(),
{
    if bases.len() == 0 {
        Seq::empty()
    } else {
        v_bytes(bases[0].num as nat) + v_bytes(bases[0].den as nat) + bases_form(bases.skip(1))
    }
}

/// Elision headers on the wire.
pub open spec fn prefixes_form(prefixes: Seq<Seq<u8>>) -> Seq<u8>
    decreases prefixes.len(),
{
    if prefixes.len() == 0 {
        Seq::empty()
    } else {
        vb_bytes(prefixes[0]) + prefixes_form(prefixes.skip(1))
    }
}

/// A main header on the wire.
pub open spec fn main_form(
    streams: u64,
    distance: u64,
    bases: Seq<TimeBase>,
    gs: Seq<GroupForm>,
    prefixes: Seq<Seq<u8>>,
    more: Seq<u8>,
) -> Seq<u8> {
    v_bytes(3) + v_bytes(streams as nat) + v_bytes(distance as nat) + v_bytes(bases.len())
        + bases_form(bases) + groups_form(gs) + v_bytes(prefixes.len()) + prefixes_form(prefixes)
        + more
}

proof fn lemma_bases_read(body: Seq<u8>, at: int, bases: Seq<TimeBase>, ahead: Seq<TimeBase>)
    requires
        holds_at(body, at, bases_form(bases)),
        forall|i: int|
            0 <= i < bases.len() ==> (#[trigger] bases[i]).num > 0 && bases[i].den > 0,
    ensures
        time_bases_from(body, at, bases.len(), ahead) == Ok::<(Seq<TimeBase>, int), Halt>(
            (ahead + bases, at + bases_form(bases).len()),
        ),
    decreases bases.len(),
{
    if bases.len() == 0 {
        assert(ahead + bases =~= ahead);
    } else {
        let num = v_bytes(bases[0].num as nat);
        let den = v_bytes(bases[0].den as nat);
        let rest = bases.skip(1);
        lemma_holds_split(body, at, num + den, bases_form(rest));
        lemma_holds_split(body, at, num, den);
        lemma_v_round_trip(body, at, 0, bases[0].num);
        lemma_v_round_trip(body, at + num.len(), 0, bases[0].den);
        assert(bases[0].num > 0);
        assert forall|i: int| 0 <= i < rest.len() implies (#[trigger] rest[i]).num > 0
            && rest[i].den > 0 by {
            assert(rest[i] == bases[i + 1]);
        }
        lemma_bases_read(body, at + (num + den).len(), rest, ahead.push(bases[0]));
        assert(ahead.push(bases[0]) + rest =~= ahead + bases);
    }
}

proof fn lemma_prefixes_read(body: Seq<u8>, at: int, prefixes: Seq<Seq<u8>>, ahead: Seq<Seq<u8>>)
    requires
        holds_at(body, at, prefixes_form(prefixes)),
        forall|i: int| 0 <= i < prefixes.len() ==> 1 <= (#[trigger] prefixes[i]).len() <= 256,
    ensures
        elision_from(body, at, prefixes.len(), ahead) == Ok::<(Seq<Seq<u8>>, int), Halt>(
            (ahead + prefixes, at + prefixes_form(prefixes).len()),
        ),
    decreases prefixes.len(),
{
    if prefixes.len() == 0 {
        assert(ahead + prefixes =~= ahead);
    } else {
        let rest = prefixes.skip(1);
        assert(prefixes[0].len() <= 256);
        lemma_holds_split(body, at, vb_bytes(prefixes[0]), prefixes_form(rest));
        lemma_vb_round_trip(body, at, 0, Part::ElisionHeader, prefixes[0]);
        assert forall|i: int| 0 <= i < rest.len() implies 1 <= (#[trigger] rest[i]).len()
            <= 256 by {
            assert(rest[i] == prefixes[i + 1]);
        }
        lemma_prefixes_read(
            body,
            at + vb_bytes(prefixes[0]).len(),
            rest,
            ahead.push(prefixes[0]),
        );
        assert(ahead.push(prefixes[0]) + rest =~= ahead + prefixes);
    }
}

/// A main header, whoever wrote it, says what it was written from: how many
/// streams there are, how far apart syncpoints are, the time bases, the
/// framecode table its groups fill and the elision headers, behind the empty
/// one. What is behind its last field is not looked at.
pub proof fn lemma_main_form_reads(
    streams: u64,
    distance: u64,
    bases: Seq<TimeBase>,
    gs: Seq<GroupForm>,
    prefixes: Seq<Seq<u8>>,
    more: Seq<u8>,
    max_streams: usize,
)
    requires
        1 <= streams <= max_streams,
        1 <= bases.len() <= 64,
        forall|i: int|
            0 <= i < bases.len() ==> (#[trigger] bases[i]).num > 0 && bases[i].den > 0,
        fills(gs),
        prefixes.len() <= 128,
        forall|i: int| 0 <= i < prefixes.len() ==> 1 <= (#[trigger] prefixes[i]).len() <= 256,
    ensures
        main_fields(main_form(streams, distance, bases, gs, prefixes, more), max_streams) matches Ok(
            (header, tables),
        ) && {
            &&& header == (MainHeaderV {
                version: 3,
                stream_count: streams as usize,
                max_distance: distance,
                time_bases: bases,
            })
            &&& tables.time_bases == bases
            &&& tables.elision == seq![Seq::<u8>::empty()] + prefixes
            &&& tables.frame_codes.len() == 256
            &&& tables.frame_codes[78].flags & 8192 != 0
            &&& holds_groups(tables.frame_codes, told_groups(gs), 255)
        },
{
    let body = main_form(streams, distance, bases, gs, prefixes, more);
    let p1 = v_bytes(3);
    let p2 = p1 + v_bytes(streams as nat);
    let p3 = p2 + v_bytes(distance as nat);
    let p4 = p3 + v_bytes(bases.len());
    let p5 = p4 + bases_form(bases);
    let p6 = p5 + groups_form(gs);
    let p7 = p6 + v_bytes(prefixes.len());
    let p8 = p7 + prefixes_form(prefixes);
    lemma_holds_whole(body);
    lemma_holds_split(body, 0, p8, more);
    lemma_holds_split(body, 0, p7, prefixes_form(prefixes));
    lemma_holds_split(body, 0, p6, v_bytes(prefixes.len()));
    lemma_holds_split(body, 0, p5, groups_form(gs));
    lemma_holds_split(body, 0, p4, bases_form(bases));
    lemma_holds_split(body, 0, p3, v_bytes(bases.len()));
    lemma_holds_split(body, 0, p2, v_bytes(distance as nat));
    lemma_holds_split(body, 0, p1, v_bytes(streams as nat));
    lemma_v_round_trip(body, 0, 0, 3);
    lemma_v_round_trip(body, p1.len() as int, 0, streams);
    lemma_v_round_trip(body, p2.len() as int, 0, distance);
    lemma_v_round_trip(body, p3.len() as int, 0, bases.len() as u64);
    lemma_bases_read(body, p4.len() as int, bases, Seq::empty());
    assert(Seq::<TimeBase>::empty() + bases =~= bases);
    lemma_table_reads(body, p5.len() as int, 0, gs);
    lemma_v_round_trip(body, p6.len() as int, 0, prefixes.len() as u64);
    lemma_prefixes_read(body, p7.len() as int, prefixes, seq![Seq::<u8>::empty()]);
    assert(body_v(body, 0) == (Ok::<u64, Halt>(3), p1.len() as int));
}

// What every main header that is read has said.

/// A main header that is read, whoever wrote it, is of the one version this
/// wire has and keeps to the bounds a reader holds it to.
pub proof fn lemma_read_main(body: Seq<u8>, max_streams: usize)
    ensures
        main_fields(body, max_streams) matches Ok((header, tables)) ==> {
            &&& header.version == 3
            &&& 1 <= header.stream_count <= max_streams
            &&& header.time_bases == tables.time_bases
            &&& 1 <= tables.time_bases.len() <= 64
            &&& forall|i: int|
                0 <= i < tables.time_bases.len() ==> (#[trigger] tables.time_bases[i]).num > 0
                    && tables.time_bases[i].den > 0
            &&& tables.frame_codes.len() == 256
            &&& tables.frame_codes[78].flags & 8192 != 0
            &&& 1 <= tables.elision.len() <= 129
            &&& tables.elision[0].len() == 0
            &&& forall|i: int|
                1 <= i < tables.elision.len() ==> 1 <= (#[trigger] tables.elision[i]).len() <= 256
        },
{
    crate::tables::lemma_main_fields(body, max_streams);
    assert(8192u64 & 8192 != 0) by (bit_vector);
}

/// A main header is refused by what is wrong with its first numbers: a version
/// that is not 3, no streams or more than may be, and no time bases or more
/// than 64.
pub proof fn lemma_main_refused(
    version: u64,
    streams: u64,
    distance: u64,
    bases: u64,
    more: Seq<u8>,
    max_streams: usize,
)
    requires
        version != 3 || streams == 0 || streams > max_streams || bases == 0 || bases > 64,
    ensures
        main_fields(
            v_bytes(version as nat) + v_bytes(streams as nat) + v_bytes(distance as nat) + v_bytes(
                bases as nat,
            ) + more,
            max_streams,
        ) == Err::<(MainHeaderV, TablesV), Halt>(
            Halt::Bad(
                if version != 3 {
                    Problem::Version { version }
                } else if streams == 0 || streams > max_streams {
                    Problem::StreamsDeclared { count: streams }
                } else {
                    Problem::TimeBasesDeclared { count: bases }
                },
            ),
        ),
{
    let p1 = v_bytes(version as nat);
    let p2 = p1 + v_bytes(streams as nat);
    let p3 = p2 + v_bytes(distance as nat);
    let p4 = p3 + v_bytes(bases as nat);
    let body = p4 + more;
    lemma_holds_whole(body);
    lemma_holds_split(body, 0, p4, more);
    lemma_holds_split(body, 0, p3, v_bytes(bases as nat));
    lemma_holds_split(body, 0, p2, v_bytes(distance as nat));
    lemma_holds_split(body, 0, p1, v_bytes(streams as nat));
    lemma_v_round_trip(body, 0, 0, version);
    lemma_v_round_trip(body, p1.len() as int, 0, streams);
    lemma_v_round_trip(body, p2.len() as int, 0, distance);
    lemma_v_round_trip(body, p3.len() as int, 0, bases);
}

/// A group that says it states more fields than one may is refused.
pub proof fn lemma_group_refused(
    body: Seq<u8>,
    at: int,
    base: int,
    flags: u64,
    stated: u64,
    carried: Carried,
)
    requires
        stated > 64,
        holds_at(body, at, v_bytes(flags as nat) + v_bytes(stated as nat)),
    ensures
        group_at(body, at, base, carried) == Err::<(Group, int), Halt>(
            Halt::Bad(Problem::FrameCodeFields { fields: stated }),
        ),
{
    lemma_holds_split(body, at, v_bytes(flags as nat), v_bytes(stated as nat));
    lemma_v_round_trip(body, at, base, flags);
    lemma_v_round_trip(body, at + v_bytes(flags as nat).len(), base, stated);
}

} // verus!
