//! Info packets as any writer may put them on the wire, and what they read
//! back as.

use vstd::prelude::*;
use vstd::utf8::{
    decode_utf8, encode_utf8, encode_utf8_decode_utf8, encode_utf8_valid_utf8, valid_utf8,
};

use crate::bytes::{
    holds_at, lemma_holds_split, lemma_holds_whole, lemma_s_round_trip, lemma_v_round_trip,
    lemma_vb_round_trip, s_bytes, v_bytes, vb_bytes,
};
use crate::error::Part;
use crate::forms::takes_s;
use crate::info::{
    all_digits, digits_value, has_tag, info_field, info_fields, info_fields_from, number_of,
    rate_of, stated_rate, with_tag, with_tags, StatedV, TagsV, MAX_TAGS, RATE_NAME,
};
use crate::text::{decimal, trimmed};
use crate::written::{lemma_decimal_reads, lemma_number_reads};

verus! {

/// One field of an info packet.
#[allow(inconsistent_fields)]
pub enum Field {
    /// A name and a string.
    Text { name: Seq<u8>, value: Seq<u8> },
    /// A name, and a string of a named type.
    Named { name: Seq<u8>, kind: Seq<u8>, value: Seq<u8> },
    /// A name and a signed number.
    Signed { name: Seq<u8>, value: i64 },
    /// A name and an unsigned number.
    Unsigned { name: Seq<u8>, value: u64 },
    /// A name and a value its type holds itself.
    Bare { name: Seq<u8>, kind: i64 },
}

/// A field on the wire: a name, a type, and what goes with the type.
pub open spec fn field_form(f: Field) -> Seq<u8> {
    match f {
        Field::Text { name, value } => vb_bytes(name) + s_bytes(-1) + vb_bytes(value),
        Field::Named { name, kind, value } => vb_bytes(name) + s_bytes(-2) + vb_bytes(kind)
            + vb_bytes(value),
        Field::Signed { name, value } => vb_bytes(name) + s_bytes(-3) + s_bytes(value as int),
        Field::Unsigned { name, value } => vb_bytes(name) + s_bytes(-4) + v_bytes(value as nat),
        Field::Bare { name, kind } => vb_bytes(name) + s_bytes(kind as int),
    }
}

/// Whether a field is one a reader takes.
pub open spec fn field_ok(f: Field) -> bool {
    match f {
        Field::Text { name, value } => name.len() <= 1048576 && value.len() <= 1048576,
        Field::Named { name, kind, value } => name.len() <= 1048576 && kind.len() <= 1048576
            && value.len() <= 1048576,
        Field::Signed { name, value } => name.len() <= 1048576 && takes_s(value),
        Field::Unsigned { name, .. } => name.len() <= 1048576,
        Field::Bare { name, kind } => name.len() <= 1048576 && takes_s(kind) && !(-4 <= kind <= -1),
    }
}

/// Fields on the wire.
pub open spec fn fields_form(fs: Seq<Field>) -> Seq<u8>
    decreases fs.len(),
{
    if fs.len() == 0 {
        Seq::empty()
    } else {
        fields_form(fs.drop_last()) + field_form(fs.last())
    }
}

/// Whether a field is a string that states the frame rate.
pub open spec fn names_rate(f: Field) -> bool {
    f matches Field::Text { name, .. } && name == seq![
        114u8,
        95,
        102,
        114,
        97,
        109,
        101,
        95,
        114,
        97,
        116,
        101,
    ]
}

/// The metadata some fields state: the strings among them whose name and value
/// are both text, in order.
pub open spec fn told_tags(fs: Seq<Field>) -> TagsV
    decreases fs.len(),
{
    if fs.len() == 0 {
        Seq::empty()
    } else {
        let ahead = told_tags(fs.drop_last());
        match fs.last() {
            Field::Text { name, value } => if valid_utf8(name) && valid_utf8(value) {
                ahead.push((decode_utf8(name), decode_utf8(value)))
            } else {
                ahead
            },
            _ => ahead,
        }
    }
}

/// Whether `rate` is the frame rate some fields state: what the last of them
/// that states it says, wherever it stands, and none where none states it.
pub open spec fn tells_rate(fs: Seq<Field>, rate: Option<(u64, u64)>) -> bool {
    ||| rate is None && forall|i: int| 0 <= i < fs.len() ==> !names_rate(#[trigger] fs[i])
    ||| exists|i: int| {
        &&& 0 <= i < fs.len()
        &&& names_rate(#[trigger] fs[i])
        &&& rate == stated_rate(fs[i]->Text_value)
        &&& forall|j: int| i < j < fs.len() ==> !names_rate(#[trigger] fs[j])
    }
}

proof fn lemma_rate_name()
    ensures
        RATE_NAME@ == seq![114u8, 95, 102, 114, 97, 109, 101, 95, 114, 97, 116, 101],
{
    assert(RATE_NAME@ =~= seq![114u8, 95, 102, 114, 97, 109, 101, 95, 114, 97, 116, 101]);
}

/// One field reads as what it states.
proof fn lemma_field_reads(body: Seq<u8>, at: int, f: Field, stated: StatedV)
    requires
        field_ok(f),
        holds_at(body, at, field_form(f)),
    ensures
        info_field(body, at, stated) matches Some((after, end)) && {
            &&& end == at + field_form(f).len()
            &&& names_rate(f) ==> after.frame_rate == stated_rate(f->Text_value)
            &&& !names_rate(f) ==> after.frame_rate == stated.frame_rate
            &&& match f {
                Field::Text { name, value } => after.tags == if valid_utf8(name) && valid_utf8(
                    value,
                ) {
                    stated.tags.push((decode_utf8(name), decode_utf8(value)))
                } else {
                    stated.tags
                },
                _ => after.tags == stated.tags,
            }
        },
{
    lemma_rate_name();
    match f {
        Field::Text { name, value } => {
            let p1 = vb_bytes(name);
            let p2 = p1 + s_bytes(-1);
            lemma_holds_split(body, at, p2, vb_bytes(value));
            lemma_holds_split(body, at, p1, s_bytes(-1));
            lemma_vb_round_trip(body, at, 0, Part::InfoName, name);
            lemma_s_round_trip(body, at + p1.len(), 0, -1i64 as i64);
            lemma_vb_round_trip(body, at + p2.len(), 0, Part::InfoValue, value);
        },
        Field::Named { name, kind, value } => {
            let p1 = vb_bytes(name);
            let p2 = p1 + s_bytes(-2);
            let p3 = p2 + vb_bytes(kind);
            lemma_holds_split(body, at, p3, vb_bytes(value));
            lemma_holds_split(body, at, p2, vb_bytes(kind));
            lemma_holds_split(body, at, p1, s_bytes(-2));
            lemma_vb_round_trip(body, at, 0, Part::InfoName, name);
            lemma_s_round_trip(body, at + p1.len(), 0, -2i64 as i64);
            lemma_vb_round_trip(body, at + p2.len(), 0, Part::InfoType, kind);
            lemma_vb_round_trip(body, at + p3.len(), 0, Part::InfoValue, value);
        },
        Field::Signed { name, value } => {
            let p1 = vb_bytes(name);
            let p2 = p1 + s_bytes(-3);
            lemma_holds_split(body, at, p2, s_bytes(value as int));
            lemma_holds_split(body, at, p1, s_bytes(-3));
            lemma_vb_round_trip(body, at, 0, Part::InfoName, name);
            lemma_s_round_trip(body, at + p1.len(), 0, -3i64 as i64);
            lemma_s_round_trip(body, at + p2.len(), 0, value);
        },
        Field::Unsigned { name, value } => {
            let p1 = vb_bytes(name);
            let p2 = p1 + s_bytes(-4);
            lemma_holds_split(body, at, p2, v_bytes(value as nat));
            lemma_holds_split(body, at, p1, s_bytes(-4));
            lemma_vb_round_trip(body, at, 0, Part::InfoName, name);
            lemma_s_round_trip(body, at + p1.len(), 0, -4i64 as i64);
            lemma_v_round_trip(body, at + p2.len(), 0, value);
        },
        Field::Bare { name, kind } => {
            let p1 = vb_bytes(name);
            lemma_holds_split(body, at, p1, s_bytes(kind as int));
            lemma_vb_round_trip(body, at, 0, Part::InfoName, name);
            lemma_s_round_trip(body, at + p1.len(), 0, kind);
        },
    }
}

/// One more field states the rate anew or leaves what was stated.
proof fn lemma_rate_goes_on(fs: Seq<Field>, before: Option<(u64, u64)>, after: Option<(u64, u64)>)
    requires
        fs.len() > 0,
        tells_rate(fs.drop_last(), before),
        names_rate(fs.last()) ==> after == stated_rate(fs.last()->Text_value),
        !names_rate(fs.last()) ==> after == before,
    ensures
        tells_rate(fs, after),
{
    let ahead = fs.drop_last();
    let n = fs.len() - 1;
    assert(fs[n] == fs.last());
    if names_rate(fs.last()) {
        assert(names_rate(fs[n]));
    } else {
        assert forall|i: int| 0 <= i < n implies fs[i] == #[trigger] ahead[i] by {
        }
        if before is None && forall|i: int| 0 <= i < n ==> !names_rate(#[trigger] ahead[i]) {
            assert forall|i: int| 0 <= i < fs.len() implies !names_rate(#[trigger] fs[i]) by {
                if i < n {
                    assert(!names_rate(ahead[i]));
                }
            }
        } else {
            let i = choose|i: int| {
                &&& 0 <= i < n
                &&& names_rate(#[trigger] ahead[i])
                &&& before == stated_rate(ahead[i]->Text_value)
                &&& forall|j: int| i < j < n ==> !names_rate(#[trigger] ahead[j])
            };
            assert(names_rate(fs[i]));
            assert forall|j: int| i < j < fs.len() implies !names_rate(#[trigger] fs[j]) by {
                if j < n {
                    assert(!names_rate(ahead[j]));
                }
            }
        }
    }
}

/// Fields are read in order, each on from what those ahead of it stated.
proof fn lemma_fields_read(body: Seq<u8>, at: int, fs: Seq<Field>, left: nat)
    requires
        forall|i: int| 0 <= i < fs.len() ==> field_ok(#[trigger] fs[i]),
        holds_at(body, at, fields_form(fs)),
        fs.len() <= left,
    ensures
        ({
            let none = StatedV { frame_rate: None, tags: Seq::empty() };
            exists|stated: StatedV|
                {
                    &&& info_fields_from(body, at, left, none) == #[trigger] info_fields_from(
                        body,
                        at + fields_form(fs).len(),
                        (left - fs.len()) as nat,
                        stated,
                    )
                    &&& tells_rate(fs, stated.frame_rate)
                    &&& stated.tags == told_tags(fs)
                }
        }),
    decreases fs.len(),
{
    let none = StatedV { frame_rate: None, tags: Seq::empty() };
    if fs.len() == 0 {
        assert(tells_rate(fs, none.frame_rate));
        assert(info_fields_from(body, at, left, none) == info_fields_from(
            body,
            at + fields_form(fs).len(),
            (left - fs.len()) as nat,
            none,
        ));
    } else {
        let ahead = fs.drop_last();
        let f = fs.last();
        assert forall|i: int| 0 <= i < ahead.len() implies field_ok(#[trigger] ahead[i]) by {
            assert(ahead[i] == fs[i]);
        }
        assert(field_ok(fs[fs.len() - 1]));
        lemma_holds_split(body, at, fields_form(ahead), field_form(f));
        lemma_fields_read(body, at, ahead, left);
        let mid = at + fields_form(ahead).len();
        let stated = choose|stated: StatedV|
            {
                &&& info_fields_from(body, at, left, none) == #[trigger] info_fields_from(
                    body,
                    mid,
                    (left - ahead.len()) as nat,
                    stated,
                )
                &&& tells_rate(ahead, stated.frame_rate)
                &&& stated.tags == told_tags(ahead)
            };
        lemma_field_reads(body, mid, f, stated);
        let after = info_field(body, mid, stated)->Some_0.0;
        lemma_rate_goes_on(fs, stated.frame_rate, after.frame_rate);
        assert(after.tags == told_tags(fs));
        assert(info_fields_from(body, mid, (left - ahead.len()) as nat, stated)
            == info_fields_from(
            body,
            at + fields_form(fs).len(),
            (left - fs.len()) as nat,
            after,
        ));
    }
}

/// The body of an info packet: the stream it is against, counted from one, or
/// zero for the file, the chapter, where it starts and how long it is, and the
/// fields.
pub open spec fn info_form(
    stream: u64,
    chapter: i64,
    start: u64,
    length: u64,
    count: u64,
    fs: Seq<Field>,
    more: Seq<u8>,
) -> Seq<u8> {
    v_bytes(stream as nat) + s_bytes(chapter as int) + v_bytes(start as nat) + v_bytes(
        length as nat,
    ) + v_bytes(count as nat) + fields_form(fs) + more
}

/// An info packet, whoever wrote it, is read as its fields: it is against the
/// stream it names or the file, it states the frame rate its last field named
/// `r_frame_rate` states, wherever in the list that stands and whatever stands
/// ahead of it or behind, and its strings are the metadata, in order. Of one
/// with more fields than are read, the first are.
pub proof fn lemma_info_form_reads(
    stream: u64,
    chapter: i64,
    start: u64,
    length: u64,
    count: u64,
    fs: Seq<Field>,
    more: Seq<u8>,
)
    requires
        takes_s(chapter),
        stream <= usize::MAX,
        forall|i: int| 0 <= i < fs.len() ==> field_ok(#[trigger] fs[i]),
        (fs.len() == count && count <= 64) || (fs.len() == 64 && count > 64),
    ensures
        info_fields(info_form(stream, chapter, start, length, count, fs, more)) matches Some(
            (info, tags),
        ) && {
            &&& stream == 0 ==> info.stream is None
            &&& stream > 0 ==> info.stream == Some((stream - 1) as usize)
            &&& tells_rate(fs, info.frame_rate)
            &&& tags == told_tags(fs)
        },
{
    let body = info_form(stream, chapter, start, length, count, fs, more);
    let p1 = v_bytes(stream as nat);
    let p2 = p1 + s_bytes(chapter as int);
    let p3 = p2 + v_bytes(start as nat);
    let p4 = p3 + v_bytes(length as nat);
    let p5 = p4 + v_bytes(count as nat);
    let p6 = p5 + fields_form(fs);
    lemma_holds_whole(body);
    lemma_holds_split(body, 0, p6, more);
    lemma_holds_split(body, 0, p5, fields_form(fs));
    lemma_holds_split(body, 0, p4, v_bytes(count as nat));
    lemma_holds_split(body, 0, p3, v_bytes(length as nat));
    lemma_holds_split(body, 0, p2, v_bytes(start as nat));
    lemma_holds_split(body, 0, p1, s_bytes(chapter as int));
    lemma_v_round_trip(body, 0, 0, stream);
    lemma_s_round_trip(body, p1.len() as int, 0, chapter);
    lemma_v_round_trip(body, p2.len() as int, 0, start);
    lemma_v_round_trip(body, p3.len() as int, 0, length);
    lemma_v_round_trip(body, p4.len() as int, 0, count);
    lemma_fields_read(body, p5.len() as int, fs, fs.len());
    let none = StatedV { frame_rate: None, tags: Seq::empty() };
    let stated = choose|stated: StatedV|
        {
            &&& info_fields_from(body, p5.len() as int, fs.len(), none)
                == #[trigger] info_fields_from(
                body,
                p5.len() + fields_form(fs).len() as int,
                (fs.len() - fs.len()) as nat,
                stated,
            )
            &&& tells_rate(fs, stated.frame_rate)
            &&& stated.tags == told_tags(fs)
        };
    assert(info_fields_from(body, p5.len() as int, fs.len(), none) == Some(stated));
}

// A frame rate in words.

/// White space a writer may put around a number.
pub open spec fn blank(text: Seq<char>) -> bool {
    forall|i: int|
        0 <= i < text.len() ==> (#[trigger] text[i] == ' ' || text[i] == '\t' || text[i] == '\n'
            || text[i] == '\r')
}

/// Trimming takes white space off both ends and leaves what is between.
pub proof fn lemma_trimmed(before: Seq<char>, text: Seq<char>, after: Seq<char>)
    requires
        blank(before),
        blank(after),
        text.len() > 0 ==> !crate::text::is_white(text.first()) && !crate::text::is_white(
            text.last(),
        ),
    ensures
        trimmed(before + text + after) == text,
    decreases before.len() + after.len(),
{
    let all = before + text + after;
    if before.len() > 0 {
        assert(before[0] == ' ' || before[0] == '\t' || before[0] == '\n' || before[0] == '\r');
        assert(all.first() == before[0]);
        assert(all.skip(1) =~= before.skip(1) + text + after);
        assert forall|i: int| 0 <= i < before.skip(1).len() implies (
        #[trigger] before.skip(1)[i] == ' ' || before.skip(1)[i] == '\t' || before.skip(1)[i]
            == '\n' || before.skip(1)[i] == '\r') by {
            assert(before.skip(1)[i] == before[i + 1]);
        }
        lemma_trimmed(before.skip(1), text, after);
    } else if after.len() > 0 {
        let last = after.len() - 1;
        assert(after[last] == ' ' || after[last] == '\t' || after[last] == '\n' || after[last]
            == '\r');
        assert(all.last() == after[last]);
        if text.len() > 0 {
            assert(all.first() == text.first());
            assert(all.drop_last() =~= before + text + after.drop_last());
            assert forall|i: int| 0 <= i < after.drop_last().len() implies (
            #[trigger] after.drop_last()[i] == ' ' || after.drop_last()[i] == '\t'
                || after.drop_last()[i] == '\n' || after.drop_last()[i] == '\r') by {
                assert(after.drop_last()[i] == after[i]);
            }
            lemma_trimmed(before, text, after.drop_last());
        } else {
            assert(all =~= after);
            assert(after[0] == ' ' || after[0] == '\t' || after[0] == '\n' || after[0] == '\r');
            assert(all.skip(1) =~= before + text + after.skip(1));
            assert forall|i: int| 0 <= i < after.skip(1).len() implies (
            #[trigger] after.skip(1)[i] == ' ' || after.skip(1)[i] == '\t' || after.skip(1)[i]
                == '\n' || after.skip(1)[i] == '\r') by {
                assert(after.skip(1)[i] == after[i + 1]);
            }
            lemma_trimmed(before, text, after.skip(1));
        }
    } else {
        assert(all =~= text);
    }
}

/// A frame rate spelled as two numbers around a slash, white space around each
/// of them or none, is those two numbers, where neither is zero, and is none
/// where one is.
pub proof fn lemma_spelled_rate(
    a: Seq<char>,
    num: u64,
    b: Seq<char>,
    c: Seq<char>,
    den: u64,
    d: Seq<char>,
)
    requires
        blank(a),
        blank(b),
        blank(c),
        blank(d),
    ensures
        ({
            let text = a + decimal(num as nat) + b + seq!['/'] + (c + decimal(den as nat) + d);
            let rate = if num > 0 && den > 0 {
                Some((num, den))
            } else {
                None
            };
            &&& rate_of(text) == rate
            &&& stated_rate(encode_utf8(text)) == rate
        }),
{
    let first = a + decimal(num as nat) + b;
    let second = c + decimal(den as nat) + d;
    let text = first + seq!['/'] + second;
    lemma_decimal_reads(num as nat);
    lemma_decimal_reads(den as nat);
    lemma_number_reads(num);
    lemma_number_reads(den);
    let n = decimal(num as nat);
    let m = decimal(den as nat);
    assert(48 <= n[0] as u32 <= 57 && 48 <= n[n.len() - 1] as u32 <= 57);
    assert(48 <= m[0] as u32 <= 57 && 48 <= m[m.len() - 1] as u32 <= 57);
    lemma_trimmed(a, n, b);
    lemma_trimmed(c, m, d);
    let at = first.len() as int;
    assert(text[at] == '/');
    assert(text.contains('/'));
    text.index_of_first_ensures('/');
    let found = text.index_of_first('/')->Some_0;
    assert(found == at) by {
        if found < at {
            assert(text[found] == first[found]);
            if found < a.len() {
                assert(a[found] == ' ' || a[found] == '\t' || a[found] == '\n' || a[found] == '\r');
            } else if found < a.len() + n.len() {
                assert(first[found] == n[found - a.len()]);
                assert(48 <= n[found - a.len()] as u32);
            } else {
                let k = found - a.len() - n.len();
                assert(first[found] == b[k]);
                assert(b[k] == ' ' || b[k] == '\t' || b[k] == '\n' || b[k] == '\r');
            }
        }
    }
    assert(text.take(at) =~= first);
    assert(text.skip(at + 1) =~= second);
    encode_utf8_valid_utf8(text);
    encode_utf8_decode_utf8(text);
}

// Metadata held.

/// Metadata has the value for a name.
pub open spec fn holds_tag(tags: TagsV, name: Seq<char>, value: Seq<char>) -> bool {
    &&& has_tag(tags, name)
    &&& forall|i: int| 0 <= i < tags.len() && (#[trigger] tags[i]).0 == name ==> tags[i].1 == value
}

/// A name not stated has the value it had; and a name that is stated, where it
/// is held already or there is room for all that is stated, has the value
/// stated for it last, whatever is stated ahead of that or behind.
pub proof fn lemma_last_stated(tags: TagsV, stated: TagsV, name: Seq<char>, value: Seq<char>)
    ensures
        (forall|i: int| 0 <= i < stated.len() ==> (#[trigger] stated[i]).0 != name) && holds_tag(
            tags,
            name,
            value,
        ) ==> holds_tag(with_tags(tags, stated), name, value),
        (exists|i: int|
            0 <= i < stated.len() && (#[trigger] stated[i]) == (name, value) && forall|j: int|
                i < j < stated.len() ==> (#[trigger] stated[j]).0 != name) && (has_tag(tags, name)
            || tags.len() + stated.len() <= 64) ==> holds_tag(
            with_tags(tags, stated),
            name,
            value,
        ),
        with_tags(tags, stated).len() <= tags.len() + stated.len(),
        has_tag(tags, name) ==> has_tag(with_tags(tags, stated), name),
    decreases stated.len(),
{
    if stated.len() > 0 {
        let ahead = stated.drop_last();
        let before = with_tags(tags, ahead);
        let (n, v) = stated.last();
        let after = with_tag(before, n, v);
        lemma_last_stated(tags, ahead, name, value);
        assert forall|i: int| 0 <= i < ahead.len() implies #[trigger] ahead[i] == stated[i] by {
        }
        assert(stated[stated.len() - 1] == (n, v));
        if has_tag(before, name) {
            let k = choose|k: int| 0 <= k < before.len() && (#[trigger] before[k]).0 == name;
            assert(after[k].0 == name);
            assert(has_tag(after, name));
        }
        if n != name {
            assert forall|i: int| 0 <= i < after.len() && (#[trigger] after[i]).0 == name implies i
                < before.len() && before[i] == after[i] by {
            }
            if forall|i: int| 0 <= i < stated.len() ==> (#[trigger] stated[i]).0 != name {
                assert forall|i: int| 0 <= i < ahead.len() implies (#[trigger] ahead[i]).0 != name by {
                    assert(stated[i].0 != name);
                }
            }
            if exists|i: int|
                0 <= i < stated.len() && (#[trigger] stated[i]) == (name, value) && forall|j: int|
                    i < j < stated.len() ==> (#[trigger] stated[j]).0 != name {
                let i = choose|i: int|
                    0 <= i < stated.len() && (#[trigger] stated[i]) == (name, value) && forall|
                        j: int,
                    |
                        i < j < stated.len() ==> (#[trigger] stated[j]).0 != name;
                assert(ahead[i] == (name, value));
                assert forall|j: int| i < j < ahead.len() implies (#[trigger] ahead[j]).0
                    != name by {
                    assert(stated[j].0 != name);
                }
            }
        } else {
            if has_tag(before, name) {
                assert(holds_tag(after, name, v));
            } else if before.len() < MAX_TAGS {
                assert(after[before.len() as int] == (name, v));
                assert(holds_tag(after, name, v));
            }
            if exists|i: int|
                0 <= i < stated.len() && (#[trigger] stated[i]) == (name, value) && forall|j: int|
                    i < j < stated.len() ==> (#[trigger] stated[j]).0 != name {
                let i = choose|i: int|
                    0 <= i < stated.len() && (#[trigger] stated[i]) == (name, value) && forall|
                        j: int,
                    |
                        i < j < stated.len() ==> (#[trigger] stated[j]).0 != name;
                if i < stated.len() - 1 {
                    assert(stated[stated.len() - 1].0 != name);
                }
                assert(v == value);
            }
        }
    }
}

/// Digits, behind a plus sign or not, are the number they spell where it fits
/// in 64 bits; text with anything else in it is none.
pub proof fn lemma_number_spelled(digits: Seq<char>)
    ensures
        digits.len() > 0 && all_digits(digits) ==> {
            let number = if digits_value(digits) <= u64::MAX {
                Some(digits_value(digits) as u64)
            } else {
                None
            };
            number_of(digits) == number && number_of(seq!['+'] + digits) == number
        },
        (exists|i: int| 1 <= i < digits.len() && !(48 <= #[trigger] digits[i] as u32 <= 57))
            ==> number_of(digits) is None,
        number_of(Seq::empty()) is None,
        number_of(seq!['+']) is None,
{
    let signed = seq!['+'] + digits;
    assert(signed[0] == '+');
    assert(signed.skip(1) =~= digits);
    if digits.len() > 0 && all_digits(digits) {
        assert(48 <= digits[0] as u32 <= 57);
    }
    if exists|i: int| 1 <= i < digits.len() && !(48 <= #[trigger] digits[i] as u32 <= 57) {
        let i = choose|i: int| 1 <= i < digits.len() && !(48 <= #[trigger] digits[i] as u32 <= 57);
        assert(digits.skip(1)[i - 1] == digits[i]);
    }
    assert(seq!['+'].skip(1) =~= Seq::<char>::empty());
}

/// Text with no slash in it states no rate, nor does text that is no UTF-8.
pub proof fn lemma_no_rate(text: Seq<char>, value: Seq<u8>)
    ensures
        !text.contains('/') ==> rate_of(text) is None && stated_rate(encode_utf8(text)) is None,
        !valid_utf8(value) ==> stated_rate(value) is None,
{
    encode_utf8_valid_utf8(text);
    encode_utf8_decode_utf8(text);
}

// Fields that cannot be read.

/// What stands where a field should and cannot be read as one: nothing at all,
/// a type no signed number is that large, or a signed value that large.
pub open spec fn unreadable(name: Seq<u8>, raw: u64, tail: Seq<u8>) -> bool {
    &&& name.len() <= 1048576
    &&& raw >= 0x7FFF_FFFF_FFFF_FFFF
    &&& {
        ||| tail.len() == 0
        ||| tail == vb_bytes(name) + v_bytes(raw as nat)
        ||| tail == vb_bytes(name) + s_bytes(-3) + v_bytes(raw as nat)
    }
}

/// An info packet one of whose fields cannot be read says nothing, whatever
/// the fields ahead of it said.
pub proof fn lemma_info_unreadable(
    stream: u64,
    chapter: i64,
    start: u64,
    length: u64,
    count: u64,
    fs: Seq<Field>,
    name: Seq<u8>,
    raw: u64,
    tail: Seq<u8>,
)
    requires
        takes_s(chapter),
        forall|i: int| 0 <= i < fs.len() ==> field_ok(#[trigger] fs[i]),
        fs.len() < count,
        fs.len() < 64,
        unreadable(name, raw, tail),
    ensures
        info_fields(info_form(stream, chapter, start, length, count, fs, tail)) is None,
{
    let body = info_form(stream, chapter, start, length, count, fs, tail);
    let p1 = v_bytes(stream as nat);
    let p2 = p1 + s_bytes(chapter as int);
    let p3 = p2 + v_bytes(start as nat);
    let p4 = p3 + v_bytes(length as nat);
    let p5 = p4 + v_bytes(count as nat);
    let p6 = p5 + fields_form(fs);
    lemma_holds_whole(body);
    lemma_holds_split(body, 0, p6, tail);
    lemma_holds_split(body, 0, p5, fields_form(fs));
    lemma_holds_split(body, 0, p4, v_bytes(count as nat));
    lemma_holds_split(body, 0, p3, v_bytes(length as nat));
    lemma_holds_split(body, 0, p2, v_bytes(start as nat));
    lemma_holds_split(body, 0, p1, s_bytes(chapter as int));
    lemma_v_round_trip(body, 0, 0, stream);
    lemma_s_round_trip(body, p1.len() as int, 0, chapter);
    lemma_v_round_trip(body, p2.len() as int, 0, start);
    lemma_v_round_trip(body, p3.len() as int, 0, length);
    lemma_v_round_trip(body, p4.len() as int, 0, count);
    let left: nat = if count < 64 {
        count as nat
    } else {
        64
    };
    lemma_fields_read(body, p5.len() as int, fs, left);
    let none = StatedV { frame_rate: None, tags: Seq::empty() };
    let at = p6.len() as int;
    let stated = choose|stated: StatedV|
        {
            &&& info_fields_from(body, p5.len() as int, left, none) == #[trigger] info_fields_from(
                body,
                p5.len() + fields_form(fs).len() as int,
                (left - fs.len()) as nat,
                stated,
            )
            &&& tells_rate(fs, stated.frame_rate)
            &&& stated.tags == told_tags(fs)
        };
    assert(at == p5.len() + fields_form(fs).len() as int);
    lemma_tail_unread(body, at, name, raw, tail, stated);
    assert(info_fields_from(body, at, (left - fs.len()) as nat, stated) is None);
}

proof fn lemma_tail_unread(
    body: Seq<u8>,
    at: int,
    name: Seq<u8>,
    raw: u64,
    tail: Seq<u8>,
    stated: StatedV,
)
    requires
        unreadable(name, raw, tail),
        holds_at(body, at, tail),
        body.len() == at + tail.len(),
    ensures
        info_field(body, at, stated) is None,
{
    if tail.len() > 0 {
        let p1 = vb_bytes(name);
        if tail == p1 + v_bytes(raw as nat) {
            lemma_holds_split(body, at, p1, v_bytes(raw as nat));
            lemma_vb_round_trip(body, at, 0, Part::InfoName, name);
            lemma_v_round_trip(body, at + p1.len(), 0, raw);
        } else {
            let p2 = p1 + s_bytes(-3);
            lemma_holds_split(body, at, p2, v_bytes(raw as nat));
            lemma_holds_split(body, at, p1, s_bytes(-3));
            lemma_vb_round_trip(body, at, 0, Part::InfoName, name);
            lemma_s_round_trip(body, at + p1.len(), 0, -3i64 as i64);
            lemma_v_round_trip(body, at + p2.len(), 0, raw);
        }
    }
}

} // verus!
