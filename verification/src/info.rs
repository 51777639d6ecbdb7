//! Info packets: the frame rate and the metadata a writer states beside the
//! headers.

use vstd::prelude::*;
use vstd::utf8::{decode_utf8, valid_utf8};

use crate::bytes::{spec_s, spec_vb, Cursor};
use crate::error::Part;
use crate::tables::body_v;
use crate::text::{chars_of, from_utf8, same_bytes, same_text, trim, trimmed};

verus! {

/// The most fields of one info packet that are read.
pub const MAX_INFO_FIELDS: u64 = 64;

/// The most metadata names held for one stream, or for the file.
pub const MAX_TAGS: usize = 64;

/// The name of the field a frame rate is stated in, `r_frame_rate`.
pub const RATE_NAME: [u8; 12] = [114, 95, 102, 114, 97, 109, 101, 95, 114, 97, 116, 101];

/// What an info packet said that this crate understands. Everything else in
/// one is read past: an info packet is advisory, and a writer may put
/// anything in it.
#[derive(Debug, Clone, Copy, PartialEq, Eq)]
pub struct Info {
    /// The stream it was written against, or None for the whole file.
    pub stream: Option<usize>,
    /// `r_frame_rate` as `num/den`. NUT has no per-frame duration field, so
    /// this is the only thing on the wire a duration can be worked out of.
    pub frame_rate: Option<(u64, u64)>,
}

/// Metadata: names and their values.
pub type TagsV = Seq<(Seq<char>, Seq<char>)>;

/// What some metadata says.
pub open spec fn tags_view(tags: Seq<(String, String)>) -> TagsV {
    tags.map_values(|tag: (String, String)| (tag.0@, tag.1@))
}

// A frame rate.

/// What one decimal digit stands for.
pub open spec fn digit_value(c: char) -> nat {
    if 48 <= c as u32 <= 57 {
        (c as u32 - 48) as nat
    } else {
        0
    }
}

/// What a run of decimal digits comes to.
pub open spec fn digits_value(text: Seq<char>) -> nat
    decreases text.len(),
{
    if text.len() == 0 {
        0
    } else {
        digits_value(text.drop_last()) * 10 + digit_value(text.last())
    }
}

/// Whether text is decimal digits and nothing else.
pub open spec fn all_digits(text: Seq<char>) -> bool {
    forall|i: int| 0 <= i < text.len() ==> 48 <= #[trigger] text[i] as u32 <= 57
}

/// The number some text spells: decimal digits, perhaps behind a plus sign.
pub open spec fn number_of(text: Seq<char>) -> Option<u64> {
    let digits = if text.len() > 0 && text[0] == '+' {
        text.skip(1)
    } else {
        text
    };
    if digits.len() > 0 && all_digits(digits) && digits_value(digits) <= u64::MAX {
        Some(digits_value(digits) as u64)
    } else {
        None
    }
}

/// `num/den`, where both are numbers above zero, around the first slash.
pub open spec fn rate_of(text: Seq<char>) -> Option<(u64, u64)> {
    if text.contains('/') {
        let at = text.index_of_first('/')->Some_0;
        let num = number_of(trimmed(text.take(at)));
        let den = number_of(trimmed(text.skip(at + 1)));
        match (num, den) {
            (Some(num), Some(den)) => if num > 0 && den > 0 {
                Some((num, den))
            } else {
                None
            },
            _ => None,
        }
    } else {
        None
    }
}

/// The frame rate a field's value states.
pub open spec fn stated_rate(value: Seq<u8>) -> Option<(u64, u64)> {
    if valid_utf8(value) {
        rate_of(decode_utf8(value))
    } else {
        None
    }
}

/// More digits never make a number smaller.
pub proof fn lemma_digits_grow(text: Seq<char>, count: int)
    requires
        0 <= count <= text.len(),
    ensures
        digits_value(text.take(count)) <= digits_value(text),
    decreases text.len() - count,
{
    if count < text.len() {
        assert(text.take(count + 1).drop_last() =~= text.take(count));
        lemma_digits_grow(text, count + 1);
    } else {
        assert(text.take(count) =~= text);
    }
}

/// The number the text between two places spells.
fn parse_number(text: &Vec<char>, from: usize, to: usize) -> (number: Option<u64>)
    requires
        from <= to <= text@.len(),
    ensures
        number == number_of(text@.subrange(from as int, to as int)),
{
    let ghost piece = text@.subrange(from as int, to as int);
    let first: usize = if from < to && text[from] == '+' {
        from + 1
    } else {
        from
    };
    let ghost digits = text@.subrange(first as int, to as int);
    assert(first > from ==> piece.skip(1) =~= digits);
    assert(from < to ==> piece[0] == text@[from as int]);
    if first == to {
        return None;
    }
    let mut value: u64 = 0;
    let mut at: usize = first;
    assert(digits.take(0) =~= Seq::empty());
    while at < to
        invariant
            from <= first <= at <= to <= text@.len(),
            digits == text@.subrange(first as int, to as int),
            piece == text@.subrange(from as int, to as int),
            number_of(piece) == if digits.len() > 0 && all_digits(digits) && digits_value(digits)
                <= u64::MAX {
                Some(digits_value(digits) as u64)
            } else {
                None
            },
            value == digits_value(digits.take(at - first)),
            forall|i: int| 0 <= i < at - first ==> 48 <= #[trigger] digits[i] as u32 <= 57,
        decreases to - at,
    {
        let c = text[at] as u32;
        assert(digits[at - first] == text@[at as int]);
        if c < 48 || c > 57 {
            return None;
        }
        proof {
            assert(digits.take(at - first + 1).drop_last() =~= digits.take(at - first));
            lemma_digits_grow(digits, at - first + 1);
        }
        let d = (c - 48) as u64;
        if value > (u64::MAX - d) / 10 {
            return None;
        }
        value = value * 10 + d;
        at += 1;
    }
    assert(digits.take(at - first) =~= digits);
    Some(value)
}

/// `num/den` as an info packet spells a frame rate. Both have to be positive
/// for the rate to mean anything.
fn read_rate(value: &[u8]) -> (rate: Option<(u64, u64)>)
    ensures
        rate == stated_rate(value@),
{
    let text = match from_utf8(value) {
        Some(text) => chars_of(text.as_str()),
        None => {
            return None;
        },
    };
    let mut at: usize = 0;
    while at < text.len() && text[at] != '/'
        invariant
            at <= text@.len(),
            forall|i: int| 0 <= i < at ==> text@[i] != '/',
        decreases text@.len() - at,
    {
        at += 1;
    }
    if at == text.len() {
        return None;
    }
    proof {
        assert(text@[at as int] == '/');
        text@.index_of_first_ensures('/');
    }
    let (num_from, num_to) = trim(&text, 0, at);
    let num = parse_number(&text, num_from, num_to);
    let (den_from, den_to) = trim(&text, at + 1, text.len());
    let den = parse_number(&text, den_from, den_to);
    assert(text@.subrange(0, at as int) =~= text@.take(at as int));
    assert(text@.subrange(at + 1, text@.len() as int) =~= text@.skip(at + 1));
    match (num, den) {
        (Some(num), Some(den)) => if num > 0 && den > 0 {
            Some((num, den))
        } else {
            None
        },
        _ => None,
    }
}

// The packet.

/// What the fields of an info packet have said so far.
#[verifier::ext_equal]
pub struct StatedV {
    pub frame_rate: Option<(u64, u64)>,
    pub tags: TagsV,
}

/// The frame rate, once a field has said something.
pub open spec fn rate_after(rate: Option<(u64, u64)>, name: Seq<u8>, value: Seq<u8>) -> Option<
    (u64, u64),
> {
    if name == RATE_NAME@ {
        stated_rate(value)
    } else {
        rate
    }
}

/// The metadata, once a string field has said something.
pub open spec fn tags_after(tags: TagsV, name: Seq<u8>, value: Seq<u8>) -> TagsV {
    if valid_utf8(name) && valid_utf8(value) {
        tags.push((decode_utf8(name), decode_utf8(value)))
    } else {
        tags
    }
}

/// One field of an info packet: a name and a value whose type the leading
/// signed integer picks. -1 is a UTF-8 string, which is all that is taken; -2
/// is a named type and its value, both strings, -3 and -4 a signed and an
/// unsigned number, and any other the value itself, all of which are read
/// past. None where a field cannot be read.
pub open spec fn info_field(body: Seq<u8>, at: int, stated: StatedV) -> Option<(StatedV, int)> {
    let name = spec_vb(body, at, 0, Part::InfoName);
    let kind = spec_s(body, name.1, 0);
    let k = kind.0->Ok_0;
    if name.0 is Err || kind.0 is Err {
        None
    } else if k == -1 {
        match spec_vb(body, kind.1, 0, Part::InfoValue) {
            (Ok(value), next) => Some(
                (
                    StatedV {
                        frame_rate: rate_after(stated.frame_rate, name.0->Ok_0, value),
                        tags: tags_after(stated.tags, name.0->Ok_0, value),
                    },
                    next,
                ),
            ),
            (Err(_), _) => None,
        }
    } else if k == -2 {
        let named = spec_vb(body, kind.1, 0, Part::InfoType);
        match (named.0, spec_vb(body, named.1, 0, Part::InfoValue)) {
            (Ok(_), (Ok(_), next)) => Some((stated, next)),
            _ => None,
        }
    } else if k == -3 {
        match spec_s(body, kind.1, 0) {
            (Ok(_), next) => Some((stated, next)),
            (Err(_), _) => None,
        }
    } else if k == -4 {
        match body_v(body, kind.1) {
            (Ok(_), next) => Some((stated, next)),
            (Err(_), _) => None,
        }
    } else {
        Some((stated, kind.1))
    }
}

/// The fields of an info packet, `left` of which are still to be read.
pub open spec fn info_fields_from(body: Seq<u8>, at: int, left: nat, stated: StatedV) -> Option<
    StatedV,
>
    decreases left,
{
    if left == 0 {
        Some(stated)
    } else {
        match info_field(body, at, stated) {
            Some((stated, next)) => info_fields_from(body, next, (left - 1) as nat, stated),
            None => None,
        }
    }
}

/// The stream an info packet names: none for the whole file, and one no main
/// header declares where the number is wider than an index.
pub open spec fn info_stream(plus_one: u64) -> Option<usize> {
    if plus_one == 0 {
        None
    } else if plus_one - 1 > usize::MAX {
        Some(usize::MAX)
    } else {
        Some((plus_one - 1) as usize)
    }
}

/// An info packet's body, or None where it cannot be read, which is no error:
/// an info packet is advisory.
pub open spec fn info_fields(body: Seq<u8>) -> Option<(Info, TagsV)> {
    let stream = body_v(body, 0);
    let chapter = spec_s(body, stream.1, 0);
    let start = body_v(body, chapter.1);
    let length = body_v(body, start.1);
    let count = body_v(body, length.1);
    let fields = info_fields_from(
        body,
        count.1,
        if count.0->Ok_0 < MAX_INFO_FIELDS {
            count.0->Ok_0 as nat
        } else {
            MAX_INFO_FIELDS as nat
        },
        StatedV { frame_rate: None, tags: Seq::empty() },
    );
    if stream.0 is Err || chapter.0 is Err || start.0 is Err || length.0 is Err || count.0 is Err {
        None
    } else {
        match fields {
            Some(stated) => Some(
                (
                    Info {
                        stream: info_stream(stream.0->Ok_0),
                        frame_rate: stated.frame_rate,
                    },
                    stated.tags,
                ),
            ),
            None => None,
        }
    }
}

/// What the fields of an info packet have said so far.
struct Stated {
    frame_rate: Option<(u64, u64)>,
    tags: Vec<(String, String)>,
}

impl View for Stated {
    type V = StatedV;

    closed spec fn view(&self) -> StatedV {
        StatedV { frame_rate: self.frame_rate, tags: tags_view(self.tags@) }
    }
}

/// Takes the frame rate out of a field, where it is the field that states it.
fn note_rate(stated: &mut Stated, name: &[u8], value: &[u8])
    ensures
        final(stated)@ == (StatedV {
            frame_rate: rate_after(old(stated)@.frame_rate, name@, value@),
            tags: old(stated)@.tags,
        }),
{
    if same_bytes(name, RATE_NAME.as_slice()) {
        stated.frame_rate = read_rate(value);
    }
}

/// Takes a name and its value out of a string field, where both are text.
fn note_tag(stated: &mut Stated, name: &[u8], value: &[u8])
    ensures
        final(stated)@ == (StatedV {
            frame_rate: old(stated)@.frame_rate,
            tags: tags_after(old(stated)@.tags, name@, value@),
        }),
{
    let ghost before = stated.tags@;
    if let Some(name) = from_utf8(name) {
        if let Some(value) = from_utf8(value) {
            let ghost tag = (name@, value@);
            stated.tags.push((name, value));
            assert(tags_view(stated.tags@) =~= tags_view(before).push(tag));
        }
    }
}

/// One field of an info packet.
fn read_info_field(r: &mut Cursor<'_>, stated: &mut Stated) -> (read: bool)
    requires
        old(r).wf(),
        old(r).base == 0,
    ensures
        final(r).wf(),
        match info_field(old(r).bytes@, old(r).at as int, old(stated)@) {
            Some((after, next)) => read && final(stated)@ == after && old(r).moved_to(
                *final(r),
                next,
            ),
            None => !read,
        },
{
    let name = match r.vb(Part::InfoName) {
        Ok(name) => name,
        Err(_) => {
            return false;
        },
    };
    let kind = match r.s() {
        Ok(kind) => kind,
        Err(_) => {
            return false;
        },
    };
    if kind == -1 {
        // A UTF-8 string, which is how ffmpeg writes what it states.
        match r.vb(Part::InfoValue) {
            Ok(value) => {
                note_rate(stated, name.as_slice(), value.as_slice());
                note_tag(stated, name.as_slice(), value.as_slice());
                true
            },
            Err(_) => false,
        }
    } else if kind == -2 {
        // A named type and its value, both strings.
        if r.vb(Part::InfoType).is_err() {
            return false;
        }
        r.vb(Part::InfoValue).is_ok()
    } else if kind == -3 {
        r.s().is_ok()
    } else if kind == -4 {
        r.v().is_ok()
    } else {
        true
    }
}

/// What an info packet says. A field this cannot parse is not an error: an
/// info packet is advisory, and a writer may put anything in one.
pub fn read_info(body: &[u8]) -> (read: Option<(Info, Vec<(String, String)>)>)
    ensures
        match info_fields(body@) {
            Some((info, tags)) => read matches Some(got) && got.0 == info && tags_view(got.1@) == tags,
            None => read is None,
        },
{
    let mut r = Cursor::whole(body);
    let stream = match r.v() {
        Ok(stream) => stream,
        Err(_) => {
            return None;
        },
    };
    if r.s().is_err() {
        return None;
    }
    if r.v().is_err() {
        return None;
    }
    if r.v().is_err() {
        return None;
    }
    let count = match r.v() {
        Ok(count) => count,
        Err(_) => {
            return None;
        },
    };
    let mut left: u64 = if count < MAX_INFO_FIELDS {
        count
    } else {
        MAX_INFO_FIELDS
    };
    let mut stated = Stated { frame_rate: None, tags: Vec::new() };
    assert(stated@ =~= StatedV { frame_rate: None, tags: Seq::empty() });
    let ghost fields = info_fields_from(body@, r.at as int, left as nat, stated@);
    while left > 0
        invariant
            r.wf(),
            r.base == 0,
            r.bytes@ == body@,
            fields == info_fields_from(body@, r.at as int, left as nat, stated@),
            fields is None ==> info_fields(body@) is None,
        decreases left,
    {
        if !read_info_field(&mut r, &mut stated) {
            return None;
        }
        left -= 1;
    }
    let stream = if stream == 0 {
        None
    } else if stream - 1 > usize::MAX as u64 {
        Some(usize::MAX)
    } else {
        Some((stream - 1) as usize)
    };
    Some((Info { stream, frame_rate: stated.frame_rate }, stated.tags))
}

// Metadata held.

/// Whether some metadata has a value for a name.
pub open spec fn has_tag(tags: TagsV, name: Seq<char>) -> bool {
    exists|i: int| 0 <= i < tags.len() && (#[trigger] tags[i]).0 == name
}

/// Metadata once a name has been stated: a name stated again replaces its
/// value, and a new one goes on the end while there is room for it.
pub open spec fn with_tag(tags: TagsV, name: Seq<char>, value: Seq<char>) -> TagsV {
    if has_tag(tags, name) {
        tags.map_values(
            |tag: (Seq<char>, Seq<char>)|
                if tag.0 == name {
                    (name, value)
                } else {
                    tag
                },
        )
    } else if tags.len() < MAX_TAGS {
        tags.push((name, value))
    } else {
        tags
    }
}

/// Metadata once an info packet has stated some of it.
pub open spec fn with_tags(tags: TagsV, stated: TagsV) -> TagsV
    decreases stated.len(),
{
    if stated.len() == 0 {
        tags
    } else {
        let before = with_tags(tags, stated.drop_last());
        with_tag(before, stated.last().0, stated.last().1)
    }
}

/// No name twice, and no more names than are held.
pub open spec fn tags_wf(tags: TagsV) -> bool {
    &&& tags.len() <= MAX_TAGS
    &&& forall|i: int, j: int|
        0 <= i < j < tags.len() ==> (#[trigger] tags[i]).0 != (#[trigger] tags[j]).0
}

/// Holds what one field of an info packet stated.
fn hold_tag(tags: &mut Vec<(String, String)>, name: String, value: String)
    requires
        tags_wf(tags_view(old(tags)@)),
    ensures
        tags_view(final(tags)@) == with_tag(tags_view(old(tags)@), name@, value@),
        tags_wf(tags_view(final(tags)@)),
{
    let ghost before = tags@;
    let ghost held = tags_view(before);
    let mut i: usize = 0;
    while i < tags.len()
        invariant
            i <= tags@.len(),
            tags@ == before,
            before == old(tags)@,
            held == tags_view(before),
            tags_wf(held),
            forall|j: int| 0 <= j < i ==> (#[trigger] held[j]).0 != name@,
        decreases tags@.len() - i,
    {
        assert(held[i as int].0 == tags@[i as int].0@);
        if same_text(tags[i].0.as_str(), name.as_str()) {
            tags.set(i, (name, value));
            proof {
                assert(has_tag(held, name@));
                assert forall|j: int| 0 <= j < held.len() && j != i implies (#[trigger] held[j]).0
                    != name@ by {
                    if j > i {
                        assert(held[i as int].0 != held[j].0);
                    }
                }
                assert(tags_view(tags@) =~= with_tag(held, name@, value@));
            }
            return;
        }
        i += 1;
    }
    if tags.len() < MAX_TAGS {
        let ghost fresh = (name@, value@);
        tags.push((name, value));
        assert(tags_view(tags@) =~= held.push(fresh));
    }
}

/// Holds what an info packet stated.
pub fn hold_tags(tags: &mut Vec<(String, String)>, stated: Vec<(String, String)>)
    requires
        tags_wf(tags_view(old(tags)@)),
    ensures
        tags_view(final(tags)@) == with_tags(tags_view(old(tags)@), tags_view(stated@)),
        tags_wf(tags_view(final(tags)@)),
{
    let ghost before = tags_view(tags@);
    let ghost all = tags_view(stated@);
    let mut i: usize = 0;
    assert(all.take(0) =~= Seq::empty());
    while i < stated.len()
        invariant
            i <= stated@.len(),
            all == tags_view(stated@),
            tags_wf(tags_view(tags@)),
            tags_view(tags@) == with_tags(before, all.take(i as int)),
        decreases stated@.len() - i,
    {
        let name = copy_text(&stated[i].0);
        let value = copy_text(&stated[i].1);
        assert(all.take(i + 1).drop_last() =~= all.take(i as int));
        assert(all.take(i + 1).last() == (name@, value@));
        hold_tag(tags, name, value);
        i += 1;
    }
    assert(all.take(i as int) =~= all);
}

/// A copy of some text.
fn copy_text(text: &String) -> (copy: String)
    ensures
        copy@ == text@,
{
    text.clone()
}

/// However much an info packet states, no name is held twice, no more names
/// than there is room for are held, and every name held before is held still,
/// in the same place.
pub proof fn lemma_with_tags(tags: TagsV, stated: TagsV)
    requires
        tags_wf(tags),
    ensures
        tags_wf(with_tags(tags, stated)),
        tags.len() <= with_tags(tags, stated).len(),
        forall|i: int| 0 <= i < tags.len() ==> (#[trigger] with_tags(tags, stated)[i]).0 == tags[i].0,
    decreases stated.len(),
{
    if stated.len() > 0 {
        lemma_with_tags(tags, stated.drop_last());
        let before = with_tags(tags, stated.drop_last());
        let (name, value) = stated.last();
        let after = with_tag(before, name, value);
        assert forall|i: int| 0 <= i < before.len() implies (#[trigger] after[i]).0 == before[i].0 by {
        }
        assert forall|i: int, j: int| 0 <= i < j < after.len() implies (#[trigger] after[i]).0 != (
        #[trigger] after[j]).0 by {
            if j >= before.len() {
                assert(!has_tag(before, name));
                assert(before[i].0 != name);
            } else {
                assert(before[i].0 != before[j].0);
            }
        }
    }
}

/// A name that is stated while there is room for it, or that is held already,
/// is held with the value last stated for it.
pub proof fn lemma_tag_held(tags: TagsV, name: Seq<char>, value: Seq<char>)
    requires
        tags_wf(tags),
        has_tag(tags, name) || tags.len() < MAX_TAGS,
    ensures
        with_tag(tags, name, value).contains((name, value)),
{
    let after = with_tag(tags, name, value);
    if has_tag(tags, name) {
        let i = choose|i: int| 0 <= i < tags.len() && (#[trigger] tags[i]).0 == name;
        assert(after[i] == (name, value));
    } else {
        assert(after[after.len() - 1] == (name, value));
    }
}

} // verus!
