//! Text as any writer may spell it, and what it reads back as: numbers, lines
//! of messages, rows and the trailing record.

use vstd::prelude::*;

use crate::info::{all_digits, digits_value, lemma_digits_grow};
use crate::info_forms::{blank, lemma_trimmed};
use crate::message::{digits_from, line_message, signed_of, LineProblem};
use crate::rows::{
    ahead_of_white, array, first_newline, hex_value, json_trimmed, lemma_ndjson_push, listed,
    ndjson, one_line, record, past_white, record_value, rows_of, spells, string_end, RowsV,
};
use crate::text::{decimal, digit, hex, is_white, signed, trimmed};
use crate::written::lemma_decimal_reads;
use crate::TRAILING_KEY;

verus! {

// Numbers.

/// Reading on through digits comes to the number all of them spell, on the
/// side of zero the sign says, or is refused where that does not fit.
proof fn lemma_digits_read(text: Seq<char>, from: int, at: int, negative: bool)
    requires
        0 <= from <= at <= text.len(),
        all_digits(text.skip(from)),
        negative ==> digits_value(text.subrange(from, at)) <= 0x8000_0000_0000_0000,
        !negative ==> digits_value(text.subrange(from, at)) <= i64::MAX,
    ensures
        ({
            let whole = digits_value(text.skip(from)) as int;
            let read = digits_value(text.subrange(from, at)) as int;
            let value = if negative {
                -read
            } else {
                read
            };
            digits_from(text, at, negative, value) == if negative && whole > 0x8000_0000_0000_0000 {
                Err::<i64, LineProblem>(LineProblem::TooSmall)
            } else if !negative && whole > i64::MAX {
                Err(LineProblem::TooLarge)
            } else if negative {
                Ok((-whole) as i64)
            } else {
                Ok(whole as i64)
            }
        }),
    decreases text.len() - at,
{
    let digits = text.skip(from);
    assert(text.subrange(from, at) =~= digits.take(at - from));
    if at < text.len() {
        let c = text[at];
        assert(digits[at - from] == c);
        assert(48 <= c as u32 <= 57);
        let more = text.subrange(from, at + 1);
        assert(more.drop_last() =~= text.subrange(from, at));
        assert(more.last() == c);
        assert(more =~= digits.take(at + 1 - from));
        lemma_digits_grow(digits, at + 1 - from);
        let whole = digits_value(digits);
        if negative && digits_value(more) <= 0x8000_0000_0000_0000 || !negative && digits_value(more)
            <= i64::MAX {
            lemma_digits_read(text, from, at + 1, negative);
        }
    } else {
        assert(digits.take(at - from) =~= digits);
    }
}

/// Digits, behind a plus, a minus or no sign, are the number they spell on
/// that side of zero, and are refused by name where it does not fit.
pub proof fn lemma_signed_digits(sign: Seq<char>, digits: Seq<char>)
    requires
        sign.len() == 0 || sign == seq!['+'] || sign == seq!['-'],
        digits.len() > 0,
        all_digits(digits),
    ensures
        ({
            let whole = digits_value(digits) as int;
            signed_of(sign + digits) == if sign == seq!['-'] {
                if whole > 0x8000_0000_0000_0000 {
                    Err::<i64, LineProblem>(LineProblem::TooSmall)
                } else {
                    Ok((-whole) as i64)
                }
            } else {
                if whole > i64::MAX {
                    Err(LineProblem::TooLarge)
                } else {
                    Ok(whole as i64)
                }
            }
        }),
{
    let text = sign + digits;
    assert(48 <= digits[0] as u32 <= 57);
    if sign.len() == 0 {
        assert(text =~= digits);
        assert(text.skip(0) =~= digits);
        assert(text.subrange(0, 0) =~= Seq::empty());
        lemma_digits_read(text, 0, 0, false);
    } else {
        assert(text[0] == sign[0]);
        assert(text.skip(1) =~= digits);
        assert(text.subrange(1, 1) =~= Seq::empty());
        lemma_digits_read(text, 1, 1, sign[0] == '-');
    }
}

/// A signed number spelled in decimal reads back as itself.
pub proof fn lemma_signed_reads(n: i64)
    ensures
        signed_of(signed(n as int)) == Ok::<i64, LineProblem>(n),
{
    reveal_strlit("-");
    let size = if n < 0 {
        -n
    } else {
        n as int
    };
    lemma_decimal_reads(size as nat);
    if n < 0 {
        assert("-"@ =~= seq!['-']);
        lemma_signed_digits(seq!['-'], decimal(size as nat));
    } else {
        lemma_signed_digits(Seq::empty(), decimal(size as nat));
        assert(Seq::<char>::empty() + decimal(size as nat) =~= decimal(size as nat));
    }
}

/// Sixteen, multiplied out.
pub open spec fn pow16(k: nat) -> nat
    decreases k,
{
    if k == 0 {
        1
    } else {
        16 * pow16((k - 1) as nat)
    }
}

/// What hexadecimal digits come to.
pub open spec fn hex_number(text: Seq<char>) -> nat
    decreases text.len(),
{
    if text.len() == 0 {
        0
    } else {
        hex_number(text.drop_last()) * 16 + hex_value(text.last())->Some_0 as nat
    }
}

/// A number in hexadecimal comes to itself where its width is enough for it,
/// and always has that width.
pub proof fn lemma_hex_reads(n: nat, width: nat)
    ensures
        hex(n, width).len() == width,
        n < pow16(width) ==> hex_number(hex(n, width)) == n,
    decreases width,
{
    if width > 0 {
        lemma_hex_reads(n / 16, (width - 1) as nat);
        assert(hex(n, width).drop_last() =~= hex(n / 16, (width - 1) as nat));
    }
}

/// A hexadecimal digit stands for one of sixteen numbers, the letters for the
/// same in either case, and every number has its own.
pub proof fn lemma_hex_digits(a: char, b: char)
    ensures
        hex_value(a) matches Some(n) ==> n < 16 && (a == digit(n as nat) || (65 <= a as u32 <= 70
            && a as u32 + 32 == digit(n as nat) as u32)),
        hex_value(a) is Some && hex_value(a) == hex_value(b) ==> a == b || a as u32 + 32 == b as u32
            || b as u32 + 32 == a as u32,
        forall|n: nat| n < 16 ==> hex_value(#[trigger] digit(n)) == Some(n as u32),
{
}

// Messages.

/// Text with a character in it that is not white space is not all trimmed.
proof fn lemma_trim_keeps(text: Seq<char>, i: int)
    requires
        0 <= i < text.len(),
        !is_white(text[i]),
    ensures
        trimmed(text).len() > 0,
    decreases text.len(),
{
    if is_white(text.first()) {
        assert(text.skip(1)[i - 1] == text[i]);
        lemma_trim_keeps(text.skip(1), i - 1);
    } else if is_white(text.last()) {
        assert(text.drop_last()[i] == text[i]);
        lemma_trim_keeps(text.drop_last(), i);
    }
}

/// A line of a pts, white space around it or none, a tab and anything behind
/// it is that pts and what is behind the tab, as it stands.
pub proof fn lemma_line_reads(before: Seq<char>, pts: i64, after: Seq<char>, message: Seq<char>)
    requires
        blank(before),
        blank(after),
        !before.contains('\t'),
        !after.contains('\t'),
    ensures
        line_message(before + signed(pts as int) + after + seq!['\t'] + message) == Ok::<
            Option<(i64, Seq<char>)>,
            LineProblem,
        >(Some((pts, message))),
{
    reveal_strlit("-");
    let number = signed(pts as int);
    let first = before + number + after;
    let line = first + seq!['\t'] + message;
    let size = if pts < 0 {
        -pts
    } else {
        pts as int
    };
    let digits = decimal(size as nat);
    lemma_decimal_reads(size as nat);
    assert(48 <= digits[digits.len() - 1] as u32 <= 57);
    assert(48 <= digits[0] as u32 <= 57);
    assert(number.last() == digits[digits.len() - 1]);
    assert(number.first() == '-' || number.first() == digits[0]);
    lemma_trimmed(before, number, after);
    lemma_signed_reads(pts);
    let at = first.len() as int;
    assert(line[at] == '\t');
    assert(line.contains('\t'));
    line.index_of_first_ensures('\t');
    let found = line.index_of_first('\t')->Some_0;
    assert(found == at) by {
        if found < at {
            assert(line[found] == first[found]);
            if found < before.len() {
                assert(before[found] == '\t');
            } else if found < before.len() + number.len() {
                let k = found - before.len();
                assert(first[found] == number[k]);
                if pts < 0 {
                    assert(k == 0 ==> number[k] == '-');
                    if k > 0 {
                        assert(number[k] == digits[k - 1]);
                        assert(48 <= digits[k - 1] as u32);
                    }
                } else {
                    assert(48 <= digits[k] as u32);
                }
            } else {
                assert(after[found - before.len() - number.len()] == '\t');
            }
        }
    }
    assert(line.take(at) =~= first);
    assert(line.skip(at + 1) =~= message);
    let k = before.len() as int;
    assert(line[k] == number.first());
    lemma_trim_keeps(line, k);
}

/// A line whose word ahead of the first tab is no number is refused for what is
/// wrong with the word, and one with no word there for want of it.
pub proof fn lemma_line_refused(
    before: Seq<char>,
    word: Seq<char>,
    after: Seq<char>,
    message: Seq<char>,
)
    requires
        blank(before),
        blank(after),
        !before.contains('\t'),
        !after.contains('\t'),
        !word.contains('\t'),
        word.len() > 0 ==> !is_white(word.first()) && !is_white(word.last()),
        word.len() == 0 ==> exists|i: int| 0 <= i < message.len() && !is_white(#[trigger] message[i]),
        signed_of(word) is Err,
    ensures
        line_message(before + word + after + seq!['\t'] + message) == Err::<
            Option<(i64, Seq<char>)>,
            LineProblem,
        >(signed_of(word)->Err_0),
{
    let first = before + word + after;
    let line = first + seq!['\t'] + message;
    lemma_trimmed(before, word, after);
    let at = first.len() as int;
    assert(line[at] == '\t');
    assert(line.contains('\t'));
    line.index_of_first_ensures('\t');
    let found = line.index_of_first('\t')->Some_0;
    assert(found == at) by {
        if found < at {
            assert(line[found] == first[found]);
            if found < before.len() {
                assert(before[found] == '\t');
            } else if found < before.len() + word.len() {
                assert(word[found - before.len()] == '\t');
            } else {
                assert(after[found - before.len() - word.len()] == '\t');
            }
        }
    }
    assert(line.take(at) =~= first);
    if word.len() > 0 {
        assert(line[before.len() as int] == word.first());
        lemma_trim_keeps(line, before.len() as int);
    } else {
        let i = choose|i: int| 0 <= i < message.len() && !is_white(#[trigger] message[i]);
        assert(line[at + 1 + i] == message[i]);
        lemma_trim_keeps(line, at + 1 + i);
    }
}

/// A blank line holds no message, tabs in it or none, and a line that is not
/// blank holds one only behind a tab.
pub proof fn lemma_line_without_a_tab(line: Seq<char>)
    ensures
        blank(line) ==> line_message(line) == Ok::<Option<(i64, Seq<char>)>, LineProblem>(None),
        !line.contains('\t') && (exists|i: int|
            0 <= i < line.len() && !is_white(#[trigger] line[i])) ==> line_message(line) == Err::<
            Option<(i64, Seq<char>)>,
            LineProblem,
        >(LineProblem::NoTab),
{
    if blank(line) {
        lemma_trimmed(line, Seq::empty(), Seq::empty());
        assert(line + Seq::<char>::empty() + Seq::<char>::empty() =~= line);
    }
    if exists|i: int| 0 <= i < line.len() && !is_white(#[trigger] line[i]) {
        let i = choose|i: int| 0 <= i < line.len() && !is_white(#[trigger] line[i]);
        lemma_trim_keeps(line, i);
    }
}

// Rows.

proof fn lemma_newline_at(text: Seq<char>, from: int, at: int)
    requires
        0 <= from <= at < text.len(),
        text[at] == '\n',
        forall|i: int| from <= i < at ==> text[i] != '\n',
    ensures
        first_newline(text, from) == at,
    decreases at - from,
{
    if from < at {
        lemma_newline_at(text, from + 1, at);
    }
}

/// The first line of some text is its first row, and the rows of what is
/// behind it follow; an empty line is no row, and a carriage return ahead of
/// the newline is no part of one. A last line without a newline is a row too,
/// as it stands.
pub proof fn lemma_first_line(line: Seq<char>, rest: Seq<char>)
    requires
        !line.contains('\n'),
    ensures
        line.len() > 0 && line.last() != '\r' ==> rows_of(line + seq!['\n'] + rest) == seq![line]
            + rows_of(rest),
        line.len() > 0 ==> rows_of(line + seq!['\r', '\n'] + rest) == seq![line] + rows_of(rest),
        rows_of(seq!['\n'] + rest) == rows_of(rest),
        rows_of(seq!['\r', '\n'] + rest) == rows_of(rest),
        line.len() > 0 ==> rows_of(line) == seq![line],
        rows_of(Seq::empty()) == RowsV::empty(),
{
    lemma_one_line(line, rest);
    lemma_one_line(line.push('\r'), rest);
    lemma_one_line(Seq::empty(), rest);
    lemma_one_line(Seq::<char>::empty().push('\r'), rest);
    assert(line.push('\r') + seq!['\n'] + rest =~= line + seq!['\r', '\n'] + rest);
    assert(Seq::<char>::empty() + seq!['\n'] + rest =~= seq!['\n'] + rest);
    assert(Seq::<char>::empty().push('\r') + seq!['\n'] + rest =~= seq!['\r', '\n'] + rest);
    assert(line.push('\r').drop_last() =~= line);
    assert(Seq::<char>::empty().push('\r').drop_last() =~= Seq::<char>::empty());
    assert(!Seq::<char>::empty().contains('\n'));
    assert(RowsV::empty() + rows_of(rest) =~= rows_of(rest));
}

proof fn lemma_one_line(line: Seq<char>, rest: Seq<char>)
    ensures
        !line.contains('\n') ==> rows_of(line + seq!['\n'] + rest) == crate::rows::row_of(
            crate::rows::uncarried(line),
        ) + rows_of(rest),
{
    if !line.contains('\n') {
        let text = line + seq!['\n'] + rest;
        let at = line.len() as int;
        assert(text[at] == '\n');
        assert(text.contains('\n'));
        assert forall|i: int| 0 <= i < at implies text[i] != '\n' by {
            assert(text[i] == line[i]);
            assert(line.contains(line[i]));
        }
        lemma_newline_at(text, 0, at);
        assert(text.take(at) =~= line);
        assert(text.skip(at + 1) =~= rest);
    }
}

// The trailing record.

/// One letter of a JSON string: itself, or the `\u` escape of its code, in
/// digits of either case.
pub open spec fn letter_form(letter: char, escape: Option<Seq<char>>) -> Seq<char> {
    match escape {
        Some(digits) => seq!['\\', 'u'] + digits,
        None => seq![letter],
    }
}

/// Whether the digits of an escape stand for a letter.
pub open spec fn escapes(letter: char, escape: Option<Seq<char>>) -> bool {
    escape matches Some(digits) ==> {
        &&& digits.len() == 4
        &&& forall|i: int| 0 <= i < 4 ==> hex_value(#[trigger] digits[i]) is Some
        &&& hex_number(digits) == letter as u32
    }
}

/// The letters of a JSON string, each written one way or the other.
pub open spec fn string_form(letters: Seq<char>, escaped: Seq<Option<Seq<char>>>) -> Seq<char>
    decreases letters.len(),
{
    if letters.len() == 0 {
        Seq::empty()
    } else {
        letter_form(letters[0], escaped[0]) + string_form(letters.skip(1), escaped.skip(1))
    }
}

proof fn lemma_four_digits(digits: Seq<char>)
    requires
        digits.len() == 4,
    ensures
        hex_number(digits) == hex_value(digits[0])->Some_0 * 4096 + hex_value(digits[1])->Some_0 * 256
            + hex_value(digits[2])->Some_0 * 16 + hex_value(digits[3])->Some_0,
{
    let three = digits.drop_last();
    let two = three.drop_last();
    let one = two.drop_last();
    assert(one.drop_last() =~= Seq::empty());
    assert(hex_number(one.drop_last()) == 0);
    assert(hex_number(one) == hex_value(digits[0])->Some_0);
    assert(hex_number(two) == hex_number(one) * 16 + hex_value(digits[1])->Some_0);
    assert(hex_number(three) == hex_number(two) * 16 + hex_value(digits[2])->Some_0);
}

proof fn lemma_string_form(
    text: Seq<char>,
    at: int,
    letters: Seq<char>,
    escaped: Seq<Option<Seq<char>>>,
)
    requires
        0 <= at,
        escaped.len() == letters.len(),
        forall|i: int| 0 <= i < letters.len() ==> escapes(letters[i], #[trigger] escaped[i]),
        forall|i: int| 0 <= i < letters.len() ==> #[trigger] letters[i] != '\\',
        at + string_form(letters, escaped).len() < text.len(),
        text.subrange(at, at + string_form(letters, escaped).len()) == string_form(letters, escaped),
        text[at + string_form(letters, escaped).len()] == '"',
    ensures
        string_end(text, at, letters) == Some(at + string_form(letters, escaped).len() + 1),
    decreases letters.len(),
{
    if letters.len() > 0 {
        let form = string_form(letters, escaped);
        let first = letter_form(letters[0], escaped[0]);
        let others = letters.skip(1);
        let after = escaped.skip(1);
        let rest = string_form(others, after);
        assert(form == first + rest);
        let piece = text.subrange(at, at + form.len());
        assert forall|i: int| 0 <= i < others.len() implies escapes(
            others[i],
            #[trigger] after[i],
        ) by {
            assert(escapes(letters[i + 1], escaped[i + 1]));
        }
        assert forall|i: int| 0 <= i < others.len() implies #[trigger] others[i] != '\\' by {
            assert(letters[i + 1] != '\\');
        }
        assert(text.subrange(at + first.len(), at + form.len()) =~= piece.subrange(
            first.len() as int,
            form.len() as int,
        ));
        assert(piece.subrange(first.len() as int, form.len() as int) =~= rest);
        lemma_string_form(text, at + first.len(), others, after);
        assert(piece[0] == text[at]);
        assert(escapes(letters[0], escaped[0]));
        if let Some(digits) = escaped[0] {
            assert(piece[1] == text[at + 1] && piece[2] == text[at + 2] && piece[3] == text[at + 3]
                && piece[4] == text[at + 4] && piece[5] == text[at + 5]);
            assert(first[2] == digits[0] && first[3] == digits[1] && first[4] == digits[2]
                && first[5] == digits[3]);
            assert(hex_value(digits[0]) is Some && hex_value(digits[1]) is Some && hex_value(
                digits[2],
            ) is Some && hex_value(digits[3]) is Some);
            lemma_four_digits(digits);
            assert(text[at + 2] == digits[0] && text[at + 3] == digits[1] && text[at + 4]
                == digits[2] && text[at + 5] == digits[3]);
            assert(letters[0] != '\\');
            let l = letters[0];
            assert(hex_number(digits) == l as u32);
            assert(spells(text, at + 2, l));
        }
    }
}

proof fn lemma_past_blank(text: Seq<char>, at: int, end: int)
    requires
        0 <= at <= end < text.len(),
        blank(text.subrange(at, end)),
        !blank(seq![text[end]]),
    ensures
        past_white(text, at) == end,
    decreases end - at,
{
    if at < end {
        let piece = text.subrange(at, end);
        assert(piece[0] == ' ' || piece[0] == '\t' || piece[0] == '\n' || piece[0] == '\r');
        let less = text.subrange(at + 1, end);
        assert forall|i: int| 0 <= i < less.len() implies (#[trigger] less[i] == ' ' || less[i]
            == '\t' || less[i] == '\n' || less[i] == '\r') by {
            assert(less[i] == piece[i + 1]);
        }
        lemma_past_blank(text, at + 1, end);
    } else {
        let one = seq![text[end]];
        assert(!(text[end] == ' ' || text[end] == '\t' || text[end] == '\n' || text[end] == '\r'))
            by {
            if text[end] == ' ' || text[end] == '\t' || text[end] == '\n' || text[end] == '\r' {
                assert(blank(one));
            }
        }
    }
}

proof fn lemma_ahead_of_blank(text: Seq<char>, start: int, end: int)
    requires
        0 < start <= end <= text.len(),
        blank(text.subrange(start, end)),
        text[start - 1] == '}',
    ensures
        ahead_of_white(text, end) == start,
    decreases end - start,
{
    if start < end {
        let piece = text.subrange(start, end);
        let last = end - start - 1;
        assert(piece[last] == ' ' || piece[last] == '\t' || piece[last] == '\n' || piece[last]
            == '\r');
        assert(piece[last] == text[end - 1]);
        let less = text.subrange(start, end - 1);
        assert forall|i: int| 0 <= i < less.len() implies (#[trigger] less[i] == ' ' || less[i]
            == '\t' || less[i] == '\n' || less[i] == '\r') by {
            assert(less[i] == piece[i]);
        }
        lemma_ahead_of_blank(text, start, end - 1);
    }
}

/// Text that is an object whose one key is `trailing`, with white space
/// wherever JSON allows some and the key's letters escaped or not, is taken
/// for the trailing record, and its value is what stands between the colon
/// and the brace that closes it.
#[verifier::rlimit(60)]
pub proof fn lemma_record_value(
    a: Seq<char>,
    b: Seq<char>,
    escaped: Seq<Option<Seq<char>>>,
    c: Seq<char>,
    value: Seq<char>,
    d: Seq<char>,
)
    requires
        blank(a),
        blank(b),
        blank(c),
        blank(d),
        escaped.len() == 8,
        forall|i: int| 0 <= i < 8 ==> escapes("trailing"@[i], #[trigger] escaped[i]),
    ensures
        record_value(
            a + seq!['{'] + b + seq!['"'] + string_form("trailing"@, escaped) + seq!['"'] + c
                + seq![':'] + value + seq!['}'] + d,
        ) == Some(value),
{
    reveal_strlit("trailing");
    let key = "trailing"@;
    assert(TRAILING_KEY@ == key);
    let word = string_form(key, escaped);
    let p1 = a + seq!['{'];
    let p2 = p1 + b;
    let p3 = p2 + seq!['"'];
    let p4 = p3 + word;
    let p5 = p4 + seq!['"'];
    let p6 = p5 + c;
    let p7 = p6 + seq![':'];
    let p8 = p7 + value;
    let p9 = p8 + seq!['}'];
    let text = p9 + d;
    let open = a.len() as int;
    let quote = p2.len() as int;
    let colon = p6.len() as int;
    let close = p8.len() as int;
    assert(text[open] == '{');
    assert(text[quote] == '"');
    assert(text[p4.len() as int] == '"');
    assert(text[colon] == ':');
    assert(text[close] == '}');
    assert(text.subrange(0, open) =~= a);
    assert(text.subrange(open + 1, quote) =~= b);
    assert(text.subrange(p3.len() as int, p4.len() as int) =~= word);
    assert(text.subrange(p5.len() as int, colon) =~= c);
    assert(text.subrange(colon + 1, close) =~= value);
    assert(text.subrange(close + 1, text.len() as int) =~= d);
    assert(!blank(seq!['{'])) by {
        assert(seq!['{'][0] == '{');
    }
    assert(!blank(seq!['"'])) by {
        assert(seq!['"'][0] == '"');
    }
    assert(!blank(seq![':'])) by {
        assert(seq![':'][0] == ':');
    }
    lemma_past_blank(text, 0, open);
    lemma_past_blank(text, open + 1, quote);
    assert forall|i: int| 0 <= i < key.len() implies escapes(key[i], #[trigger] escaped[i]) by {
    }
    lemma_string_form(text, quote + 1, key, escaped);
    lemma_past_blank(text, p5.len() as int, colon);
    lemma_ahead_of_blank(text, close + 1, text.len() as int);
}

/// Where some text is taken for the trailing record, it opens with a brace
/// and closes with one, but for white space, and the value is what stands
/// behind a colon and ahead of the last brace.
pub proof fn lemma_record_shape(text: Seq<char>)
    ensures
        record_value(text) matches Some(value) ==> exists|head: Seq<char>, tail: Seq<char>|
            {
                &&& text == #[trigger] (head + seq![':'] + value + seq!['}'] + tail)
                &&& blank(tail)
                &&& exists|i: int|
                    0 <= i < head.len() && head[i] == '{' && blank(#[trigger] head.take(i))
            },
{
    if let Some(value) = record_value(text) {
        let open = past_white(text, 0);
        lemma_past_white(text, 0);
        let close = ahead_of_white(text, text.len() as int) - 1;
        lemma_ahead_of_white(text, text.len() as int);
        let quote = past_white(text, open + 1);
        lemma_past_white(text, open + 1);
        let end = string_end(text, quote + 1, TRAILING_KEY@)->Some_0;
        lemma_string_end_ahead(text, quote + 1, TRAILING_KEY@);
        let colon = past_white(text, end);
        lemma_past_white(text, end);
        let head = text.take(colon);
        let tail = text.skip(close + 1);
        assert(text =~= head + seq![':'] + value + seq!['}'] + tail);
        assert(head.take(open) =~= text.subrange(0, open));
        assert(tail =~= text.subrange(close + 1, text.len() as int));
        assert(head[open] == '{' && blank(head.take(open)));
    }
}

proof fn lemma_past_white(text: Seq<char>, at: int)
    requires
        0 <= at <= text.len(),
    ensures
        at <= past_white(text, at) <= text.len(),
        blank(text.subrange(at, past_white(text, at))),
    decreases text.len() - at,
{
    let end = past_white(text, at);
    if at < text.len() && crate::rows::json_white(text[at]) {
        lemma_past_white(text, at + 1);
        let piece = text.subrange(at, end);
        let less = text.subrange(at + 1, end);
        assert forall|i: int| 0 <= i < piece.len() implies (#[trigger] piece[i] == ' ' || piece[i]
            == '\t' || piece[i] == '\n' || piece[i] == '\r') by {
            if i > 0 {
                assert(piece[i] == less[i - 1]);
            }
        }
    }
}

proof fn lemma_ahead_of_white(text: Seq<char>, end: int)
    requires
        0 <= end <= text.len(),
    ensures
        0 <= ahead_of_white(text, end) <= end,
        blank(text.subrange(ahead_of_white(text, end), end)),
    decreases end,
{
    let start = ahead_of_white(text, end);
    if 0 < end && crate::rows::json_white(text[end - 1]) {
        lemma_ahead_of_white(text, end - 1);
        let piece = text.subrange(start, end);
        let less = text.subrange(start, end - 1);
        assert forall|i: int| 0 <= i < piece.len() implies (#[trigger] piece[i] == ' ' || piece[i]
            == '\t' || piece[i] == '\n' || piece[i] == '\r') by {
            if i < piece.len() - 1 {
                assert(piece[i] == less[i]);
            }
        }
    }
}

proof fn lemma_string_end_ahead(text: Seq<char>, at: int, letters: Seq<char>)
    requires
        0 <= at,
    ensures
        string_end(text, at, letters) matches Some(end) ==> at < end <= text.len(),
    decreases letters.len(),
{
    if at < text.len() && letters.len() > 0 {
        lemma_string_end_ahead(text, at + 1, letters.skip(1));
        lemma_string_end_ahead(text, at + 6, letters.skip(1));
    }
}

/// A row is one line where it is the one row its line holds, and no other text
/// is.
pub proof fn lemma_one_line_iff(row: Seq<char>)
    ensures
        one_line(row) <==> rows_of(row + seq!['\n']) == seq![row],
{
    let text = row + seq!['\n'];
    assert(row + seq!['\n'] + Seq::<char>::empty() =~= text);
    if !row.contains('\n') {
        lemma_one_line(row, Seq::empty());
        assert(rows_of(Seq::empty()) =~= RowsV::empty()) by {
            assert(!Seq::<char>::empty().contains('\n'));
        }
        let left = crate::rows::uncarried(row);
        assert(rows_of(text) =~= crate::rows::row_of(left));
        if rows_of(text) == seq![row] {
            assert(crate::rows::row_of(left)[0] == row);
            assert(left == row);
        }
    } else if rows_of(text) == seq![row] {
        lemma_rows_are_lines(text, 0);
        assert(rows_of(text)[0] == row);
    }
}

proof fn lemma_rows_are_lines(text: Seq<char>, i: int)
    requires
        0 <= i < rows_of(text).len(),
    ensures
        !rows_of(text)[i].contains('\n'),
        rows_of(text)[i].len() > 0,
    decreases text.len(),
{
    if text.contains('\n') {
        let at = first_newline(text, 0);
        lemma_first_newline_first(text, 0);
        if 0 <= at < text.len() {
            let line = text.take(at);
            let first = crate::rows::row_of(crate::rows::uncarried(line));
            let rest = rows_of(text.skip(at + 1));
            if i < first.len() {
                assert(rows_of(text)[i] == crate::rows::uncarried(line));
                assert forall|k: int| 0 <= k < crate::rows::uncarried(line).len() implies
                    #[trigger] crate::rows::uncarried(line)[k] != '\n' by {
                    assert(crate::rows::uncarried(line)[k] == text[k]);
                }
            } else {
                assert(rows_of(text)[i] == rest[i - first.len()]);
                lemma_rows_are_lines(text.skip(at + 1), i - first.len());
            }
        }
    }
}

proof fn lemma_first_newline_first(text: Seq<char>, from: int)
    requires
        0 <= from <= text.len(),
    ensures
        from <= first_newline(text, from) <= text.len(),
        forall|k: int| from <= k < first_newline(text, from) ==> text[k] != '\n',
    decreases text.len() - from,
{
    if from < text.len() && text[from] != '\n' {
        lemma_first_newline_first(text, from + 1);
    }
}

/// Rows without the white space around them are what stands between.
pub proof fn lemma_json_trimmed(before: Seq<char>, text: Seq<char>, after: Seq<char>)
    requires
        blank(before),
        blank(after),
        text.len() > 0,
        !blank(seq![text.first()]),
        !blank(seq![text.last()]),
    ensures
        json_trimmed(before + text + after) == text,
{
    let all = before + text + after;
    let from = before.len() as int;
    let to = from + text.len();
    assert(all.subrange(0, from) =~= before);
    assert(all.subrange(to, all.len() as int) =~= after);
    assert(all[from] == text.first());
    assert(all[to - 1] == text.last());
    lemma_past_blank(all, 0, from);
    lemma_blank_ahead(all, to, all.len() as int);
    assert(all.subrange(from, to) =~= text);
}

proof fn lemma_blank_ahead(text: Seq<char>, start: int, end: int)
    requires
        0 < start <= end <= text.len(),
        blank(text.subrange(start, end)),
        !blank(seq![text[start - 1]]),
    ensures
        ahead_of_white(text, end) == start,
    decreases end - start,
{
    if start < end {
        let piece = text.subrange(start, end);
        let last = end - start - 1;
        assert(piece[last] == ' ' || piece[last] == '\t' || piece[last] == '\n' || piece[last]
            == '\r');
        assert(piece[last] == text[end - 1]);
        let less = text.subrange(start, end - 1);
        assert forall|i: int| 0 <= i < less.len() implies (#[trigger] less[i] == ' ' || less[i]
            == '\t' || less[i] == '\n' || less[i] == '\r') by {
            assert(less[i] == piece[i]);
        }
        lemma_blank_ahead(text, start, end - 1);
    } else {
        let c = text[start - 1];
        if c == ' ' || c == '\t' || c == '\n' || c == '\r' {
            assert(blank(seq![c]));
        }
    }
}

/// Rows as an array stand between brackets, a comma between each and the next
/// and none behind the last.
pub proof fn lemma_array_of_rows(rows: RowsV, row: Seq<char>)
    ensures
        array(RowsV::empty()) == seq!['[', ']'],
        array(seq![row]) == seq!['['] + row + seq![']'],
        rows.len() > 0 ==> array(rows.push(row)) == array(rows).drop_last() + seq![','] + row + seq![
            ']',
        ],
{
    assert(array(RowsV::empty()) =~= seq!['[', ']']);
    let more = rows.push(row);
    assert(more.drop_last() =~= rows);
    if rows.len() > 0 {
        assert(listed(more) == listed(rows) + seq![','] + row);
        assert(array(rows).drop_last() =~= seq!['['] + listed(rows));
        assert(array(more) =~= array(rows).drop_last() + seq![','] + row + seq![']']);
    }
}

/// White space is what Unicode says it is.
pub proof fn lemma_white_space(c: char)
    ensures
        is_white(c) <==> seq![
            0x9u32,
            0xA,
            0xB,
            0xC,
            0xD,
            0x20,
            0x85,
            0xA0,
            0x1680,
            0x2000,
            0x2001,
            0x2002,
            0x2003,
            0x2004,
            0x2005,
            0x2006,
            0x2007,
            0x2008,
            0x2009,
            0x200A,
            0x2028,
            0x2029,
            0x202F,
            0x205F,
            0x3000,
        ].contains(c as u32),
{
    let all = seq![
        0x9u32,
        0xA,
        0xB,
        0xC,
        0xD,
        0x20,
        0x85,
        0xA0,
        0x1680,
        0x2000,
        0x2001,
        0x2002,
        0x2003,
        0x2004,
        0x2005,
        0x2006,
        0x2007,
        0x2008,
        0x2009,
        0x200A,
        0x2028,
        0x2029,
        0x202F,
        0x205F,
        0x3000,
    ];
    let n = c as u32;
    if is_white(c) {
        let k = if n <= 13 {
            n - 9
        } else if n == 0x20 {
            5
        } else if n == 0x85 {
            6
        } else if n == 0xA0 {
            7
        } else if n == 0x1680 {
            8
        } else if n <= 0x200A {
            n - 0x2000 + 9
        } else if n == 0x2028 {
            20
        } else if n == 0x2029 {
            21
        } else if n == 0x202F {
            22
        } else if n == 0x205F {
            23
        } else {
            24
        };
        assert(all[k] == n);
    }
}

/// Text that spells no number says why: there is none, or something in it
/// behind the sign is no digit, ahead of which the digits fit.
pub proof fn lemma_no_number(sign: Seq<char>, digits: Seq<char>, c: char, rest: Seq<char>)
    requires
        sign.len() == 0 || sign == seq!['+'] || sign == seq!['-'],
        all_digits(digits),
        digits_value(digits) <= i64::MAX,
        !(48 <= c as u32 <= 57),
        sign.len() == 0 && digits.len() == 0 ==> c != '+' && c != '-',
    ensures
        signed_of(Seq::empty()) == Err::<i64, LineProblem>(LineProblem::NoNumber),
        signed_of(seq!['+']) == Err::<i64, LineProblem>(LineProblem::NotADigit),
        signed_of(seq!['-']) == Err::<i64, LineProblem>(LineProblem::NotADigit),
        signed_of(sign + digits + seq![c] + rest) == Err::<i64, LineProblem>(
            LineProblem::NotADigit,
        ),
{
    let text = sign + digits + seq![c] + rest;
    let from = sign.len() as int;
    if sign.len() > 0 {
        assert(text[0] == sign[0]);
    } else if digits.len() > 0 {
        assert(text[0] == digits[0]);
        assert(48 <= digits[0] as u32 <= 57);
    } else {
        assert(text[0] == c);
    }
    assert(digits.take(0) =~= Seq::empty());
    assert(text.subrange(from, from + digits.len()) =~= digits);
    assert(text[from + digits.len()] == c);
    lemma_digits_then(text, from, digits, 0, sign == seq!['-']);
}

proof fn lemma_digits_then(text: Seq<char>, from: int, digits: Seq<char>, k: int, negative: bool)
    requires
        0 <= from,
        0 <= k <= digits.len(),
        from + digits.len() < text.len(),
        text.subrange(from, from + digits.len()) == digits,
        all_digits(digits),
        digits_value(digits) <= i64::MAX,
        !(48 <= text[from + digits.len()] as u32 <= 57),
    ensures
        ({
            let read = digits_value(digits.take(k)) as int;
            let value = if negative {
                -read
            } else {
                read
            };
            digits_from(text, from + k, negative, value) == Err::<i64, LineProblem>(
                LineProblem::NotADigit,
            )
        }),
    decreases digits.len() - k,
{
    if k < digits.len() {
        assert(text.subrange(from, from + digits.len())[k] == text[from + k]);
        assert(48 <= digits[k] as u32 <= 57);
        assert(digits.take(k + 1).drop_last() =~= digits.take(k));
        assert(digits.take(k + 1).last() == digits[k]);
        lemma_digits_grow(digits, k + 1);
        lemma_digits_then(text, from, digits, k + 1, negative);
    }
}

/// Rows as NDJSON are one line each, the row as it stands and a newline, and
/// those of more rows are those of the first and then those of the rest.
pub proof fn lemma_ndjson_lines(rows: RowsV, row: Seq<char>, more: RowsV)
    ensures
        ndjson(seq![row]) == row.push('\n'),
        ndjson(rows + more) == ndjson(rows) + ndjson(more),
    decreases more.len(),
{
    lemma_ndjson_push(RowsV::empty(), row);
    assert(RowsV::empty().push(row) =~= seq![row]);
    assert(ndjson(seq![row]) =~= row.push('\n'));
    if more.len() == 0 {
        assert(rows + more =~= rows);
        assert(ndjson(rows) + ndjson(more) =~= ndjson(rows));
    } else {
        let less = more.drop_last();
        lemma_ndjson_lines(rows, row, less);
        lemma_ndjson_push(rows + less, more.last());
        lemma_ndjson_push(less, more.last());
        assert((rows + less).push(more.last()) =~= rows + more);
        assert(less.push(more.last()) =~= more);
        assert(ndjson(rows + more) =~= ndjson(rows) + ndjson(more));
    }
}

/// The trailing record is written with no white space of its own: a brace, the
/// key, a colon, the array of the rows and a brace.
pub proof fn lemma_record_written(rows: RowsV)
    ensures
        record(rows) == "{\"trailing\":"@ + array(rows) + seq!['}'],
{
    reveal_strlit("{\"trailing\":");
    reveal_strlit("{\"");
    reveal_strlit("\":");
    reveal_strlit("}");
    reveal_strlit("trailing");
    assert("{\""@ + TRAILING_KEY@ + "\":"@ =~= "{\"trailing\":"@);
    assert("}"@ =~= seq!['}']);
}

} // verus!
