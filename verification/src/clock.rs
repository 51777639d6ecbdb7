//! Where one stream has got to: the timestamps a frame is measured from, and
//! the buffer decode order falls out of.

use vstd::arithmetic::power2::pow2;
use vstd::prelude::*;

use crate::error::Problem;
use crate::stream::TimeBase;

verus! {

/// Where one stream has got to.
pub struct Clock {
    /// The last PTS seen, which a frame coding only the low bits of its own
    /// is measured from.
    pub last_pts: i64,
    /// The reorder buffer DTS falls out of: `decode_delay + 1` PTS,
    /// ascending, seeded with `None`. The smallest entry after a frame's PTS
    /// lands is that frame's DTS - `None` while a seed remains, which is the
    /// wire not settling it.
    pub pts_buffer: Vec<Option<i64>>,
}

/// A clock as a value.
#[verifier::ext_equal]
pub struct ClockV {
    pub last_pts: i64,
    pub pts_buffer: Seq<Option<i64>>,
}

impl View for Clock {
    type V = ClockV;

    open spec fn view(&self) -> ClockV {
        ClockV { last_pts: self.last_pts, pts_buffer: self.pts_buffer@ }
    }
}

impl ClockV {
    /// A clock no frame has moved, for a stream that reorders this deep.
    pub open spec fn seeded(delay: nat) -> ClockV {
        ClockV { last_pts: 0, pts_buffer: seed(delay + 1) }
    }

    /// The buffer holds its entries in order, and there is always one.
    pub open spec fn wf(self) -> bool {
        self.pts_buffer.len() >= 1 && ascending(self.pts_buffer)
    }
}

/// A reorder buffer nothing has landed in.
pub open spec fn seed(count: nat) -> Seq<Option<i64>> {
    Seq::new(count, |i: int| None)
}

// Decode timestamps.

/// Whether one entry of a reorder buffer comes after another. A seed comes
/// before every timestamp.
pub open spec fn later(a: Option<i64>, b: Option<i64>) -> bool {
    match (a, b) {
        (Some(a), Some(b)) => a > b,
        (Some(_), None) => true,
        (None, _) => false,
    }
}

/// No entry comes after one behind it.
pub open spec fn ascending(buffer: Seq<Option<i64>>) -> bool {
    forall|i: int, j: int| 0 <= i <= j < buffer.len() ==> !later(#[trigger] buffer[i], #[trigger] buffer[j])
}

/// An entry put in its place: ahead of the first it does not come after.
pub open spec fn placed(rest: Seq<Option<i64>>, entry: Option<i64>) -> Seq<Option<i64>>
    decreases rest.len(),
{
    if rest.len() > 0 && later(entry, rest[0]) {
        seq![rest[0]] + placed(rest.skip(1), entry)
    } else {
        seq![entry] + rest
    }
}

/// The reorder buffer once a frame's PTS has landed: the smallest entry - the
/// previous DTS, already spent - is gone, and the new one is in its place.
pub open spec fn landed(buffer: Seq<Option<i64>>, pts: i64) -> Seq<Option<i64>> {
    placed(buffer.skip(1), Some(pts))
}

/// How many seeds a reorder buffer still holds.
pub open spec fn seeds(buffer: Seq<Option<i64>>) -> nat
    decreases buffer.len(),
{
    if buffer.len() == 0 {
        0
    } else {
        seeds(buffer.skip(1)) + (if buffer[0] is None {
            1nat
        } else {
            0nat
        })
    }
}

/// Whether one entry of a reorder buffer comes after another.
fn comes_after(a: Option<i64>, b: Option<i64>) -> (yes: bool)
    ensures
        yes == later(a, b),
{
    match a {
        Some(a) => match b {
            Some(b) => a > b,
            None => true,
        },
        None => false,
    }
}

/// One frame's DTS out of the reorder buffer: the new PTS lands over the
/// smallest entry - the previous DTS, already spent - order is restored, and
/// the smallest entry left is the answer. With no reordering the buffer holds
/// one entry and the DTS is the PTS itself.
pub fn decode_dts(buffer: &mut Vec<Option<i64>>, pts: i64) -> (dts: Option<i64>)
    requires
        old(buffer)@.len() >= 1,
    ensures
        final(buffer)@ == landed(old(buffer)@, pts),
        dts == final(buffer)@[0],
        final(buffer)@.len() == old(buffer)@.len(),
{
    let entry = Some(pts);
    let ghost start = buffer@;
    let last = buffer.len() - 1;
    let mut i: usize = 0;
    assert(start.skip(1) =~= start.skip(i + 1));
    assert(buffer@.take(0) + placed(start.skip(1), entry) =~= placed(start.skip(1), entry));
    while i < last && comes_after(entry, buffer[i + 1])
        invariant
            start.len() >= 1,
            buffer@.len() == start.len(),
            i <= last,
            last == buffer@.len() - 1,
            entry == Some(pts),
            forall|j: int| i < j < start.len() ==> buffer@[j] == start[j],
            landed(start, pts) == buffer@.take(i as int) + placed(start.skip(i + 1), entry),
        decreases buffer@.len() - i,
    {
        let next = buffer[i + 1];
        let ghost before = buffer@;
        buffer.set(i, next);
        i = i + 1;
        proof {
            assert(start.skip(i as int)[0] == next);
            assert(start.skip(i as int).skip(1) =~= start.skip(i + 1));
            assert(buffer@.take(i as int) =~= before.take(i - 1).push(next));
            assert(before.take(i - 1) + (seq![next] + placed(start.skip(i + 1), entry))
                =~= buffer@.take(i as int) + placed(start.skip(i + 1), entry));
        }
    }
    proof {
        if i + 1 < start.len() {
            assert(start.skip(i + 1)[0] == buffer@[i + 1]);
        }
    }
    let ghost before = buffer@;
    buffer.set(i, entry);
    assert(buffer@ =~= before.take(i as int) + (seq![entry] + start.skip(i + 1)));
    buffer[0]
}

/// Placing an entry keeps the order, keeps every entry, and holds one more.
proof fn lemma_placed(rest: Seq<Option<i64>>, entry: Option<i64>)
    requires
        ascending(rest),
    ensures
        ascending(placed(rest, entry)),
        placed(rest, entry).len() == rest.len() + 1,
        placed(rest, entry).to_multiset() == rest.to_multiset().insert(entry),
        seeds(placed(rest, entry)) == seeds(rest) + (if entry is None {
            1nat
        } else {
            0nat
        }),
        forall|i: int| 0 <= i < placed(rest, entry).len() ==> #[trigger] placed(rest, entry)[i] == entry
            || rest.contains(placed(rest, entry)[i]),
    decreases rest.len(),
{
    broadcast use vstd::seq_lib::group_to_multiset_ensures;

    if rest.len() > 0 && later(entry, rest[0]) {
        let tail = rest.skip(1);
        assert forall|i: int, j: int| 0 <= i <= j < tail.len() implies !later(
            #[trigger] tail[i],
            #[trigger] tail[j],
        ) by {
            assert(tail[i] == rest[i + 1] && tail[j] == rest[j + 1]);
        }
        lemma_placed(tail, entry);
        let out = placed(rest, entry);
        let inner = placed(tail, entry);
        assert(out.skip(1) =~= inner);
        assert forall|i: int| 0 <= i < inner.len() implies !later(rest[0], #[trigger] inner[i]) by {
            if inner[i] != entry {
                let k = choose|k: int| 0 <= k < tail.len() && tail[k] == inner[i];
                assert(rest[k + 1] == inner[i]);
            }
        }
        assert forall|i: int, j: int| 0 <= i <= j < out.len() implies !later(
            #[trigger] out[i],
            #[trigger] out[j],
        ) by {
            if i > 0 {
                assert(out[i] == inner[i - 1] && out[j] == inner[j - 1]);
            } else if j > 0 {
                assert(out[j] == inner[j - 1]);
            }
        }
        assert forall|i: int| 0 <= i < out.len() implies #[trigger] out[i] == entry || rest.contains(
            out[i],
        ) by {
            if i > 0 && inner[i - 1] != entry {
                let k = choose|k: int| 0 <= k < tail.len() && tail[k] == inner[i - 1];
                assert(rest[k + 1] == out[i]);
            } else if i == 0 {
                assert(rest[0] == out[0]);
            }
        }
        assert(rest =~= seq![rest[0]] + tail);
        vstd::seq_lib::lemma_multiset_commutative(seq![rest[0]], tail);
        vstd::seq_lib::lemma_multiset_commutative(seq![rest[0]], inner);
        assert(out.to_multiset() =~= rest.to_multiset().insert(entry));
    } else {
        let out = placed(rest, entry);
        assert(out.skip(1) =~= rest);
        assert forall|i: int, j: int| 0 <= i <= j < out.len() implies !later(
            #[trigger] out[i],
            #[trigger] out[j],
        ) by {
            if i > 0 {
                assert(out[i] == rest[i - 1] && out[j] == rest[j - 1]);
            } else if j > 0 {
                assert(out[j] == rest[j - 1]);
                assert(!later(rest[0], rest[j - 1]));
            }
        }
        assert forall|i: int| 0 <= i < out.len() implies #[trigger] out[i] == entry || rest.contains(
            out[i],
        ) by {
            if i > 0 {
                assert(rest[i - 1] == out[i]);
            }
        }
        vstd::seq_lib::lemma_multiset_commutative(seq![entry], rest);
        assert(seq![entry].to_multiset() =~= vstd::multiset::Multiset::singleton(entry)) by {
            assert(seq![entry] =~= Seq::empty().push(entry));
        }
        assert(out.to_multiset() =~= rest.to_multiset().insert(entry));
    }
}

/// Once a PTS has landed the reorder buffer is as long as it was and still in
/// order; it has lost its smallest entry and gained the PTS; and nothing in
/// it comes before the DTS, its first.
pub proof fn lemma_landed(buffer: Seq<Option<i64>>, pts: i64)
    requires
        buffer.len() >= 1,
        ascending(buffer),
    ensures
        landed(buffer, pts).len() == buffer.len(),
        ascending(landed(buffer, pts)),
        landed(buffer, pts).to_multiset() == buffer.skip(1).to_multiset().insert(Some(pts)),
        forall|i: int|
            0 <= i < buffer.len() ==> !later(landed(buffer, pts)[0], #[trigger] landed(buffer, pts)[i]),
        seeds(landed(buffer, pts)) == if seeds(buffer) == 0 {
            0
        } else {
            (seeds(buffer) - 1) as nat
        },
{
    let rest = buffer.skip(1);
    assert forall|i: int, j: int| 0 <= i <= j < rest.len() implies !later(
        #[trigger] rest[i],
        #[trigger] rest[j],
    ) by {
        assert(rest[i] == buffer[i + 1] && rest[j] == buffer[j + 1]);
    }
    lemma_placed(rest, Some(pts));
    if buffer[0] is Some {
        lemma_no_seeds(buffer);
    }
}

/// An ordered buffer that opens with a timestamp holds no seed.
proof fn lemma_no_seeds(buffer: Seq<Option<i64>>)
    requires
        buffer.len() >= 1,
        ascending(buffer),
        buffer[0] is Some,
    ensures
        seeds(buffer) == 0,
    decreases buffer.len(),
{
    let rest = buffer.skip(1);
    if rest.len() > 0 {
        assert(rest[0] == buffer[1]);
        assert(!later(buffer[0], buffer[1]));
        assert forall|i: int, j: int| 0 <= i <= j < rest.len() implies !later(
            #[trigger] rest[i],
            #[trigger] rest[j],
        ) by {
            assert(rest[i] == buffer[i + 1] && rest[j] == buffer[j + 1]);
        }
        lemma_no_seeds(rest);
    } else {
        reveal_with_fuel(seeds, 2);
    }
}

/// The reorder buffer after a run of frames, in decode order.
pub open spec fn after_frames(buffer: Seq<Option<i64>>, frames: Seq<i64>) -> Seq<Option<i64>>
    decreases frames.len(),
{
    if frames.len() == 0 {
        buffer
    } else {
        landed(after_frames(buffer, frames.drop_last()), frames.last())
    }
}

/// The first of some frames may be landed ahead of the rest.
pub proof fn lemma_first_frame(buffer: Seq<Option<i64>>, first: i64, frames: Seq<i64>)
    ensures
        after_frames(landed(buffer, first), frames) == after_frames(buffer, seq![first] + frames),
    decreases frames.len(),
{
    let all = seq![first] + frames;
    if frames.len() == 0 {
        reveal_with_fuel(after_frames, 2);
        assert(all.drop_last() =~= Seq::empty());
        assert(all.last() == first);
    } else {
        assert(all.drop_last() =~= seq![first] + frames.drop_last());
        assert(all.last() == frames.last());
        lemma_first_frame(buffer, first, frames.drop_last());
    }
}

/// A stream that reorders by `delay` has no DTS for its first `delay` frames
/// and one for every frame after them.
pub proof fn lemma_dts_settles(delay: nat, frames: Seq<i64>)
    requires
        frames.len() >= 1,
    ensures
        after_frames(seed(delay + 1), frames)[0] is None <==> frames.len() <= delay,
{
    lemma_after_frames(delay, frames);
    let buffer = after_frames(seed(delay + 1), frames);
    if buffer[0] is Some {
        lemma_no_seeds(buffer);
    }
}

proof fn lemma_after_frames(delay: nat, frames: Seq<i64>)
    ensures
        after_frames(seed(delay + 1), frames).len() == delay + 1,
        ascending(after_frames(seed(delay + 1), frames)),
        seeds(after_frames(seed(delay + 1), frames)) == if frames.len() <= delay {
            (delay + 1 - frames.len()) as nat
        } else {
            0
        },
    decreases frames.len(),
{
    if frames.len() == 0 {
        lemma_seed(delay + 1);
    } else {
        lemma_after_frames(delay, frames.drop_last());
        lemma_landed(after_frames(seed(delay + 1), frames.drop_last()), frames.last());
    }
}

/// How many of some timestamps are no smaller than a number.
pub open spec fn at_least(times: Seq<i64>, x: int) -> nat
    decreases times.len(),
{
    if times.len() == 0 {
        0
    } else {
        at_least(times.drop_last(), x) + (if times.last() >= x {
            1nat
        } else {
            0nat
        })
    }
}

/// Whether a timestamp is the `n`-th largest of some: that many are no smaller,
/// and fewer are larger.
pub open spec fn nth_largest(times: Seq<i64>, n: nat, time: i64) -> bool {
    at_least(times, time + 1) < n <= at_least(times, time as int)
}

/// Whether an entry of a reorder buffer is a timestamp no smaller than a
/// number.
spec fn counts(entry: Option<i64>, x: int) -> nat {
    if entry matches Some(time) && time >= x {
        1
    } else {
        0
    }
}

/// How many entries of a reorder buffer are timestamps no smaller than a
/// number.
spec fn held(buffer: Seq<Option<i64>>, x: int) -> nat
    decreases buffer.len(),
{
    if buffer.len() == 0 {
        0
    } else {
        held(buffer.skip(1), x) + counts(buffer[0], x)
    }
}

proof fn lemma_held_placed(rest: Seq<Option<i64>>, entry: Option<i64>, x: int)
    ensures
        held(placed(rest, entry), x) == held(rest, x) + counts(entry, x),
    decreases rest.len(),
{
    let out = placed(rest, entry);
    if rest.len() > 0 && later(entry, rest[0]) {
        lemma_held_placed(rest.skip(1), entry, x);
        assert(out.skip(1) =~= placed(rest.skip(1), entry));
    } else {
        assert(out.skip(1) =~= rest);
    }
}

/// An ordered buffer holds no more timestamps than entries, and is all of them
/// where its first is one.
proof fn lemma_held(buffer: Seq<Option<i64>>, x: int)
    requires
        ascending(buffer),
    ensures
        held(buffer, x) <= buffer.len(),
        buffer.len() >= 1 && counts(buffer[0], x) == 1 ==> held(buffer, x) == buffer.len(),
    decreases buffer.len(),
{
    if buffer.len() > 0 {
        let rest = buffer.skip(1);
        assert forall|i: int, j: int| 0 <= i <= j < rest.len() implies !later(
            #[trigger] rest[i],
            #[trigger] rest[j],
        ) by {
            assert(rest[i] == buffer[i + 1] && rest[j] == buffer[j + 1]);
        }
        lemma_held(rest, x);
        if rest.len() > 0 {
            assert(rest[0] == buffer[1]);
            assert(!later(buffer[0], buffer[1]));
        }
    }
}

/// The smaller of two counts.
spec fn fewer(a: nat, b: nat) -> nat {
    if a < b {
        a
    } else {
        b
    }
}

/// Behind its first entry a reorder buffer holds the largest timestamps there
/// have been.
proof fn lemma_holds_the_largest(delay: nat, frames: Seq<i64>, x: int)
    ensures
        held(after_frames(seed(delay + 1), frames).skip(1), x) == fewer(delay, at_least(frames, x)),
    decreases frames.len(),
{
    let after = after_frames(seed(delay + 1), frames);
    lemma_after_frames(delay, frames);
    if frames.len() == 0 {
        lemma_held_seed(delay, x);
        assert(after.skip(1) =~= seed(delay));
    } else {
        let before = after_frames(seed(delay + 1), frames.drop_last());
        let entry = Some(frames.last());
        lemma_after_frames(delay, frames.drop_last());
        lemma_holds_the_largest(delay, frames.drop_last(), x);
        lemma_held_placed(before.skip(1), entry, x);
        lemma_held(after, x);
        let rest = after.skip(1);
        assert forall|i: int, j: int| 0 <= i <= j < rest.len() implies !later(
            #[trigger] rest[i],
            #[trigger] rest[j],
        ) by {
            assert(rest[i] == after[i + 1] && rest[j] == after[j + 1]);
        }
        lemma_held(rest, x);
    }
}

proof fn lemma_held_seed(count: nat, x: int)
    ensures
        held(seed(count), x) == 0,
    decreases count,
{
    if count > 0 {
        lemma_held_seed((count - 1) as nat, x);
        assert(seed(count).skip(1) =~= seed((count - 1) as nat));
    }
}

/// Every timestamp is no smaller than the smallest there is.
proof fn lemma_at_least_all(times: Seq<i64>)
    ensures
        at_least(times, i64::MIN as int) == times.len(),
    decreases times.len(),
{
    if times.len() > 0 {
        lemma_at_least_all(times.drop_last());
    }
}

/// The DTS of a frame of a stream that reorders by `delay`, once as many have
/// come before it: the smaller of its own PTS and the `delay`-th largest PTS
/// before it. So a DTS never comes after its own PTS.
pub proof fn lemma_dts_value(delay: nat, frames: Seq<i64>)
    requires
        frames.len() > delay > 0,
    ensures
        exists|time: i64| #[trigger]
            nth_largest(frames.drop_last(), delay, time) && after_frames(seed(delay + 1), frames)[0]
                == Some(
                if frames.last() < time {
                    frames.last()
                } else {
                    time
                },
            ),
        after_frames(seed(delay + 1), frames)[0] matches Some(dts) && dts <= frames.last(),
{
    let prior = frames.drop_last();
    let before = after_frames(seed(delay + 1), prior);
    let top = before.skip(1);
    lemma_after_frames(delay, prior);
    assert forall|i: int, j: int| 0 <= i <= j < top.len() implies !later(
        #[trigger] top[i],
        #[trigger] top[j],
    ) by {
        assert(top[i] == before[i + 1] && top[j] == before[j + 1]);
    }
    lemma_at_least_all(prior);
    lemma_holds_the_largest(delay, prior, i64::MIN as int);
    let under = top.skip(1);
    assert forall|i: int, j: int| 0 <= i <= j < under.len() implies !later(
        #[trigger] under[i],
        #[trigger] under[j],
    ) by {
        assert(under[i] == top[i + 1] && under[j] == top[j + 1]);
    }
    lemma_held(under, i64::MIN as int);
    assert(top[0] is Some);
    let time = top[0]->Some_0;
    lemma_holds_the_largest(delay, prior, time as int);
    lemma_held(top, time as int);
    lemma_holds_the_largest(delay, prior, time + 1);
    lemma_held(under, time + 1);
    assert(nth_largest(prior, delay, time));
}

/// There is one `n`-th largest of some timestamps at most.
pub proof fn lemma_one_nth_largest(times: Seq<i64>, n: nat, a: i64, b: i64)
    requires
        nth_largest(times, n, a),
        nth_largest(times, n, b),
    ensures
        a == b,
{
    if a < b {
        lemma_at_least_falls(times, a + 1, b as int);
    } else if b < a {
        lemma_at_least_falls(times, b + 1, a as int);
    }
}

/// No more timestamps are as large as a larger number.
proof fn lemma_at_least_falls(times: Seq<i64>, x: int, y: int)
    requires
        x <= y,
    ensures
        at_least(times, y) <= at_least(times, x),
    decreases times.len(),
{
    if times.len() > 0 {
        lemma_at_least_falls(times.drop_last(), x, y);
    }
}

/// A fresh reorder buffer is in order and is all seeds.
pub proof fn lemma_seed(count: nat)
    ensures
        ascending(seed(count)),
        seeds(seed(count)) == count,
    decreases count,
{
    if count > 0 {
        lemma_seed((count - 1) as nat);
        assert(seed(count).skip(1) =~= seed((count - 1) as nat));
    }
}

/// Where nothing reorders, a frame's DTS is its PTS.
pub proof fn lemma_dts_without_reordering(buffer: Seq<Option<i64>>, pts: i64)
    requires
        buffer.len() == 1,
    ensures
        landed(buffer, pts) == seq![Some(pts)],
{
    assert(buffer.skip(1) =~= Seq::empty());
    assert(landed(buffer, pts) =~= seq![Some(pts)]);
}

// Presentation timestamps.

/// Whether a number fits in 64 signed bits.
pub open spec fn fits(n: int) -> bool {
    i64::MIN <= n <= i64::MAX
}

/// The number whose low bits a frame coded that lies nearest the last PTS:
/// congruent to the coded bits, and no further than half their range away.
pub open spec fn lifted(last: int, coded: int, range: int) -> int {
    let floor = last - (range - 1) / 2;
    floor + (coded - floor) % range
}

/// The PTS a frame coded: either the whole value, offset, or only its low
/// bits, which are lifted back onto the last PTS seen on that stream.
pub open spec fn coded_pts(last: i64, shift: u32, coded: u64) -> Result<i64, Problem> {
    let range = pow2(shift as nat) as int;
    let pts = if coded >= range {
        coded - range
    } else {
        lifted(last as int, coded as int, range)
    };
    if fits(pts) {
        Ok(pts as i64)
    } else {
        Err(Problem::PtsOverflow)
    }
}

/// A coded PTS is either the whole value, offset, or only its low bits, which
/// are lifted back onto the last PTS seen on that stream.
pub fn decode_pts(last: i64, shift: u32, coded: u64) -> (pts: Result<i64, Problem>)
    requires
        shift < 63,
    ensures
        pts == coded_pts(last, shift, coded),
{
    proof {
        vstd::bits::lemma_u64_pow2_no_overflow(shift as nat);
        vstd::bits::lemma_u64_shl_is_mul(1, shift as u64);
        vstd::arithmetic::power2::lemma_pow2_pos(shift as nat);
    }
    let range: u64 = 1u64 << (shift as u64);
    if coded >= range {
        let pts = coded - range;
        if pts <= i64::MAX as u64 {
            Ok(pts as i64)
        } else {
            Err(Problem::PtsOverflow)
        }
    } else {
        let floor: i128 = last as i128 - ((range - 1) / 2) as i128;
        let over: i128 = coded as i128 - floor;
        let pts: i128 = match over.checked_rem_euclid(range as i128) {
            Some(low) => floor + low,
            None => floor,
        };
        if (i64::MIN as i128) <= pts && pts <= i64::MAX as i128 {
            Ok(pts as i64)
        } else {
            Err(Problem::PtsOverflow)
        }
    }
}

/// Coding only the low bits of a PTS loses nothing while the PTS stays within
/// half their range of the last one.
pub proof fn lemma_low_bits_lift(last: i64, shift: u32, pts: i64)
    requires
        shift < 63,
        last - (pow2(shift as nat) - 1) / 2 <= pts <= last + pow2(shift as nat) / 2,
    ensures
        coded_pts(last, shift, (pts as int % pow2(shift as nat) as int) as u64) == Ok::<i64, Problem>(
            pts,
        ),
{
    let range = pow2(shift as nat) as int;
    vstd::bits::lemma_u64_pow2_no_overflow(shift as nat);
    vstd::arithmetic::power2::lemma_pow2_pos(shift as nat);
    let floor = last - (range - 1) / 2;
    let low = pts as int % range;
    vstd::arithmetic::div_mod::lemma_fundamental_div_mod(pts as int, range);
    let q = pts as int / range;
    // `low` and `pts` differ by a whole number of ranges.
    vstd::arithmetic::div_mod::lemma_mod_multiples_vanish(q, low - floor, range);
    assert(range * q + (low - floor) == pts - floor);
    assert((low - floor) % range == (pts - floor) % range);
    vstd::arithmetic::div_mod::lemma_small_mod((pts - floor) as nat, range as nat);
}

/// A PTS coded whole is read back whole, whatever the clock says.
pub proof fn lemma_whole_pts(last: i64, shift: u32, pts: i64)
    requires
        shift < 63,
        pts >= 0,
    ensures
        pts + pow2(shift as nat) <= u64::MAX,
        coded_pts(last, shift, (pts + pow2(shift as nat)) as u64) == Ok::<i64, Problem>(pts),
{
    vstd::arithmetic::power2::lemma_pow2_strictly_increases(shift as nat, 63);
    vstd::arithmetic::power2::lemma2_to64_rest();
}

// Syncpoints.

/// A wire value as the signed number its writer cast it from.
pub open spec fn as_signed(coded: u64) -> int {
    if coded <= i64::MAX {
        coded as int
    } else {
        coded - 0x1_0000_0000_0000_0000
    }
}

/// A number of ticks of one time base in another, rounded toward zero.
pub open spec fn rescaled(ticks: int, from: TimeBase, to: TimeBase) -> int {
    let up = from.num * to.den;
    let down = from.den * to.num;
    if ticks < 0 {
        -(((-ticks) * up) / down)
    } else {
        (ticks * up) / down
    }
}

/// A number of ticks of one time base and what it comes to in another are the
/// same moment, to within one tick of the other: the one no further from zero.
/// Both sides are in seconds, times the two denominators.
pub proof fn lemma_rescaled_is_the_same_moment(ticks: int, from: TimeBase, to: TimeBase)
    requires
        from.den > 0,
        to.num > 0,
    ensures
        ({
            let r = rescaled(ticks, from, to);
            let moment = ticks * (from.num * to.den);
            let tick = to.num * from.den;
            &&& ticks >= 0 ==> r * tick <= moment < (r + 1) * tick
            &&& ticks <= 0 ==> (r - 1) * tick < moment <= r * tick
        }),
{
    let up = from.num * to.den;
    let tick = to.num * from.den;
    let times = if ticks < 0 {
        -ticks
    } else {
        ticks
    };
    let r = rescaled(ticks, from, to);
    assert(from.den * to.num == tick && tick > 0) by (nonlinear_arith)
        requires
            tick == to.num * from.den,
            from.den > 0,
            to.num > 0,
    ;
    let q = times * up / tick;
    vstd::arithmetic::div_mod::lemma_fundamental_div_mod(times * up, tick);
    let left = times * up % tick;
    assert(q * tick <= times * up < (q + 1) * tick) by (nonlinear_arith)
        requires
            times * up == tick * q + left,
            0 <= left < tick,
    ;
    if ticks < 0 {
        assert(r == -q);
        assert((r - 1) * tick < ticks * up <= r * tick) by (nonlinear_arith)
            requires
                r == -q,
                times == -ticks,
                q * tick <= times * up < (q + 1) * tick,
        ;
    } else if ticks == 0 {
        assert(times * up == 0) by (nonlinear_arith)
            requires
                times == 0,
        ;
        assert(q == 0) by (nonlinear_arith)
            requires
                q * tick <= 0 < (q + 1) * tick,
                tick > 0,
        ;
    }
}

/// There is one number of ticks that close to a moment, so rescaling comes to
/// that one.
pub proof fn lemma_rescaled_is_the_only_one(ticks: int, from: TimeBase, to: TimeBase, r: int)
    requires
        from.den > 0,
        to.num > 0,
        ({
            let moment = ticks * (from.num * to.den);
            let tick = to.num * from.den;
            if ticks >= 0 {
                r * tick <= moment < (r + 1) * tick
            } else {
                (r - 1) * tick < moment <= r * tick
            }
        }),
    ensures
        rescaled(ticks, from, to) == r,
{
    let moment = ticks * (from.num * to.den);
    let tick = to.num * from.den;
    let s = rescaled(ticks, from, to);
    lemma_rescaled_is_the_same_moment(ticks, from, to);
    if ticks >= 0 {
        assert(r == s) by (nonlinear_arith)
            requires
                r * tick <= moment < (r + 1) * tick,
                s * tick <= moment < (s + 1) * tick,
                tick >= 0,
        ;
    } else {
        assert(r == s) by (nonlinear_arith)
            requires
                (r - 1) * tick < moment <= r * tick,
                (s - 1) * tick < moment <= s * tick,
                tick >= 0,
        ;
    }
}

/// `times * up / down`, and what is left over, where the quotient fits.
fn scaled_by(times: u64, up: u128, down: u128) -> (scaled: Option<(u64, u128)>)
    requires
        down > 0,
    ensures
        match scaled {
            Some((quotient, left)) => times * up == quotient * down + left && left < down,
            None => times * up >= 0x1_0000_0000_0000_0000 * down,
        },
    decreases times,
{
    if times == 0 {
        assert(0 * up == 0 && 0 * down == 0) by (nonlinear_arith);
        return Some((0, 0));
    }
    let (half, left) = match scaled_by(times / 2, up, down) {
        Some(scaled) => scaled,
        None => {
            assert(times * up >= (times / 2) * up) by (nonlinear_arith)
                requires
                    times >= times / 2,
                    up >= 0,
            ;
            return None;
        },
    };
    // Twice that, carrying once where the remainder doubles past `down`.
    let mut quotient: u128 = half as u128 * 2;
    let mut over: u128 = left;
    if over >= down - left {
        over = over - (down - left);
        quotient = quotient + 1;
    } else {
        over = over + left;
    }
    assert(2 * ((times / 2) * up) == quotient * down + over) by (nonlinear_arith)
        requires
            (times / 2) * up == half * down + left,
            (quotient == 2 * half + 1 && over == 2 * left - down) || (quotient == 2 * half && over == 2
                * left),
    ;
    if times % 2 == 1 {
        let more = up / down;
        let more_left = up % down;
        proof {
            vstd::arithmetic::div_mod::lemma_fundamental_div_mod(up as int, down as int);
        }
        if more > u64::MAX as u128 {
            assert(times * up >= 0x1_0000_0000_0000_0000 * down) by (nonlinear_arith)
                requires
                    times >= 1,
                    up == down * more + more_left,
                    more >= 0x1_0000_0000_0000_0000,
                    more_left >= 0,
                    down > 0,
            ;
            return None;
        }
        let ghost quotient0 = quotient;
        let ghost over0 = over;
        quotient = quotient + more;
        if over >= down - more_left {
            over = over - (down - more_left);
            quotient = quotient + 1;
        } else {
            over = over + more_left;
        }
        assert(times * up == quotient * down + over) by (nonlinear_arith)
            requires
                2 * ((times / 2) * up) == quotient0 * down + over0,
                up == down * more + more_left,
                times == 2 * (times / 2) + 1,
                (quotient == quotient0 + more + 1 && over == over0 + more_left - down) || (quotient
                    == quotient0 + more && over == over0 + more_left),
        ;
    } else {
        assert(times * up == 2 * ((times / 2) * up)) by (nonlinear_arith)
            requires
                times == 2 * (times / 2),
        ;
    }
    if quotient > u64::MAX as u128 {
        assert(times * up >= 0x1_0000_0000_0000_0000 * down) by (nonlinear_arith)
            requires
                times * up == quotient * down + over,
                quotient >= 0x1_0000_0000_0000_0000,
                over >= 0,
                down > 0,
        ;
        return None;
    }
    Some((quotient as u64, over))
}

/// A number of ticks of one time base in another, rounded toward zero, where
/// that fits in 64 bits.
pub fn rescale(ticks: i64, from: TimeBase, to: TimeBase) -> (pts: Option<i64>)
    requires
        from.den > 0,
        to.num > 0,
    ensures
        match pts {
            Some(pts) => pts == rescaled(ticks as int, from, to),
            None => !fits(rescaled(ticks as int, from, to)),
        },
{
    assert(from.num * to.den <= 0xFFFF_FFFF_FFFF_FFFF * 0xFFFF_FFFF_FFFF_FFFF) by (nonlinear_arith)
        requires
            from.num <= 0xFFFF_FFFF_FFFF_FFFF,
            to.den <= 0xFFFF_FFFF_FFFF_FFFF,
    ;
    assert(0 < from.den * to.num <= 0xFFFF_FFFF_FFFF_FFFF * 0xFFFF_FFFF_FFFF_FFFF) by (
    nonlinear_arith)
        requires
            0 < from.den <= 0xFFFF_FFFF_FFFF_FFFF,
            0 < to.num <= 0xFFFF_FFFF_FFFF_FFFF,
    ;
    let up: u128 = from.num as u128 * to.den as u128;
    let down: u128 = from.den as u128 * to.num as u128;
    let magnitude: u64 = if ticks >= 0 {
        ticks as u64
    } else if ticks == i64::MIN {
        0x8000_0000_0000_0000
    } else {
        (-ticks) as u64
    };
    let scaled = scaled_by(magnitude, up, down);
    proof {
        match scaled {
            Some((quotient, left)) => {
                assert(quotient * down == down * quotient) by (nonlinear_arith);
                vstd::arithmetic::div_mod::lemma_fundamental_div_mod_converse(
                    magnitude * up,
                    down as int,
                    quotient as int,
                    left as int,
                );
            },
            None => {
                vstd::arithmetic::div_mod::lemma_div_is_ordered(
                    0x1_0000_0000_0000_0000 * down,
                    magnitude * up,
                    down as int,
                );
                vstd::arithmetic::div_mod::lemma_div_multiples_vanish(
                    0x1_0000_0000_0000_0000,
                    down as int,
                );
            },
        }
    }
    let quotient = match scaled {
        Some((quotient, _)) => quotient,
        None => {
            return None;
        },
    };
    if ticks >= 0 {
        if quotient <= i64::MAX as u64 {
            Some(quotient as i64)
        } else {
            None
        }
    } else if quotient <= i64::MAX as u64 {
        Some(-(quotient as i64))
    } else if quotient == 0x8000_0000_0000_0000 {
        Some(i64::MIN)
    } else {
        None
    }
}

} // verus!
