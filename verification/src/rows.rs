//! The text annotations ride in: rows as NDJSON, one a line, and the record
//! that carries the rows no frame claims.

use vstd::prelude::*;
use vstd::string::StringExecFns;

use crate::text::{chars_of, same_text};
use crate::TRAILING_KEY;

verus! {

/// Rows as values.
pub type RowsV = Seq<Seq<char>>;

/// What some rows say.
pub open spec fn rows_view(rows: Seq<String>) -> RowsV {
    rows.map_values(|row: String| row@)
}

// NDJSON.

/// A line without the carriage return ahead of the newline that ended it.
pub open spec fn uncarried(line: Seq<char>) -> Seq<char> {
    if line.len() > 0 && line.last() == '\r' {
        line.drop_last()
    } else {
        line
    }
}

/// One row, or none where the line is empty.
pub open spec fn row_of(line: Seq<char>) -> RowsV {
    if line.len() > 0 {
        seq![line]
    } else {
        Seq::empty()
    }
}

/// The rows some text holds: its lines, but for the empty ones.
pub open spec fn rows_of(text: Seq<char>) -> RowsV
    decreases text.len(),
{
    if text.contains('\n') {
        let at = first_newline(text, 0);
        if 0 <= at < text.len() {
            row_of(uncarried(text.take(at))) + rows_of(text.skip(at + 1))
        } else {
            Seq::empty()
        }
    } else {
        row_of(text)
    }
}

/// Where the first newline stands, at `from` or behind it.
pub open spec fn first_newline(text: Seq<char>, from: int) -> int
    decreases text.len() - from,
{
    if 0 <= from < text.len() && text[from] != '\n' {
        first_newline(text, from + 1)
    } else {
        from
    }
}

/// Rows as NDJSON, a newline behind each.
pub open spec fn ndjson(rows: RowsV) -> Seq<char>
    decreases rows.len(),
{
    if rows.len() == 0 {
        Seq::empty()
    } else {
        rows[0] + seq!['\n'] + ndjson(rows.skip(1))
    }
}

/// Whether a row is one line, and comes back as it went.
pub open spec fn one_line(row: Seq<char>) -> bool {
    &&& row.len() > 0
    &&& !row.contains('\n')
    &&& row.last() != '\r'
}

/// Rows that are one line each are what their NDJSON holds.
pub proof fn lemma_ndjson_holds_its_rows(rows: RowsV)
    requires
        forall|i: int| 0 <= i < rows.len() ==> one_line(#[trigger] rows[i]),
    ensures
        rows_of(ndjson(rows)) == rows,
    decreases rows.len(),
{
    if rows.len() == 0 {
        assert(!ndjson(rows).contains('\n'));
        assert(rows =~= Seq::empty());
    } else {
        let row = rows[0];
        let rest = rows.skip(1);
        let text = ndjson(rows);
        assert(one_line(row));
        assert(text[row.len() as int] == '\n');
        assert(text.contains('\n'));
        assert forall|i: int| 0 <= i < row.len() implies text[i] != '\n' by {
            assert(row[i] == text[i]);
            assert(row.contains(row[i]));
        }
        lemma_first_newline(text, 0, row.len() as int);
        assert(text.take(row.len() as int) =~= row);
        assert(text.skip(row.len() as int + 1) =~= ndjson(rest));
        assert forall|i: int| 0 <= i < rest.len() implies one_line(#[trigger] rest[i]) by {
            assert(rest[i] == rows[i + 1]);
        }
        lemma_ndjson_holds_its_rows(rest);
        assert(rows =~= seq![row] + rest);
    }
}

proof fn lemma_first_newline(text: Seq<char>, from: int, at: int)
    requires
        0 <= from <= at < text.len(),
        text[at] == '\n',
        forall|i: int| from <= i < at ==> text[i] != '\n',
    ensures
        first_newline(text, from) == at,
    decreases at - from,
{
    if from < at {
        lemma_first_newline(text, from + 1, at);
    }
}

/// One more row is one more line.
pub proof fn lemma_ndjson_push(rows: RowsV, row: Seq<char>)
    ensures
        ndjson(rows.push(row)) == ndjson(rows) + row + seq!['\n'],
    decreases rows.len(),
{
    let more = rows.push(row);
    if rows.len() == 0 {
        assert(more.skip(1) =~= Seq::empty());
        reveal_with_fuel(ndjson, 2);
        assert(ndjson(more) =~= ndjson(rows) + row + seq!['\n']);
    } else {
        assert(more.skip(1) =~= rows.skip(1).push(row));
        lemma_ndjson_push(rows.skip(1), row);
        assert(ndjson(more) =~= ndjson(rows) + row + seq!['\n']);
    }
}

/// The text between two places.
pub fn text_between(chars: &Vec<char>, from: usize, to: usize) -> (text: String)
    requires
        from <= to <= chars@.len(),
    ensures
        text@ == chars@.subrange(from as int, to as int),
{
    let mut text = String::new();
    let mut i: usize = from;
    while i < to
        invariant
            from <= i <= to <= chars@.len(),
            text@ == chars@.subrange(from as int, i as int),
        decreases to - i,
    {
        text.push(chars[i]);
        assert(chars@.subrange(from as int, i + 1) =~= chars@.subrange(from as int, i as int).push(
            chars@[i as int],
        ));
        i += 1;
    }
    text
}

/// The rows some text holds: its lines, but for the empty ones.
pub fn split_rows(text: &str) -> (rows: Vec<String>)
    ensures
        rows_view(rows@) == rows_of(text@),
{
    let chars = chars_of(text);
    let mut rows: Vec<String> = Vec::new();
    let mut from: usize = 0;
    let ghost all = rows_of(chars@);
    proof {
        assert(chars@.skip(0) =~= chars@);
        assert(rows_view(rows@) + all =~= all);
    }
    while from < chars.len()
        invariant
            from <= chars@.len(),
            all == rows_view(rows@) + rows_of(chars@.skip(from as int)),
        decreases chars@.len() - from,
    {
        let ghost rest = chars@.skip(from as int);
        let mut at: usize = from;
        while at < chars.len() && chars[at] != '\n'
            invariant
                from <= at <= chars@.len(),
                forall|i: int| from <= i < at ==> chars@[i] != '\n',
            decreases chars@.len() - at,
        {
            at += 1;
        }
        let ghost width = at - from;
        let mut to: usize = at;
        if at < chars.len() {
            proof {
                assert(rest[width] == '\n');
                assert(rest.contains('\n'));
                lemma_first_newline(rest, 0, width);
                assert(rest.take(width) =~= chars@.subrange(from as int, at as int));
                assert(rest.skip(width + 1) =~= chars@.skip(at + 1));
            }
            if to > from && chars[to - 1] == '\r' {
                to -= 1;
                assert(rest.take(width).drop_last() =~= chars@.subrange(from as int, to as int));
            }
        } else {
            proof {
                assert forall|i: int| 0 <= i < rest.len() implies rest[i] != '\n' by {
                    assert(rest[i] == chars@[from + i]);
                }
                assert(rest =~= chars@.subrange(from as int, to as int));
            }
        }
        let ghost before = rows@;
        let ghost line = chars@.subrange(from as int, to as int);
        if to > from {
            rows.push(text_between(&chars, from, to));
            assert(rows_view(rows@) =~= rows_view(before) + row_of(line));
        } else {
            assert(rows_view(rows@) =~= rows_view(before) + row_of(line));
        }
        if at < chars.len() {
            from = at + 1;
            assert(all =~= rows_view(rows@) + rows_of(chars@.skip(from as int)));
        } else {
            from = at;
            assert(chars@.skip(from as int) =~= Seq::empty());
            assert(!chars@.skip(from as int).contains('\n'));
            assert(all =~= rows_view(rows@) + rows_of(chars@.skip(from as int)));
        }
    }
    proof {
        assert(chars@.skip(from as int) =~= Seq::empty());
        assert(!chars@.skip(from as int).contains('\n'));
        assert(all =~= rows_view(rows@));
    }
    rows
}

/// Whether a row is one line, and comes back as it went.
pub fn is_one_line(row: &str) -> (yes: bool)
    ensures
        yes == one_line(row@),
{
    let chars = chars_of(row);
    if chars.len() == 0 || chars[chars.len() - 1] == '\r' {
        return false;
    }
    let mut i: usize = 0;
    while i < chars.len()
        invariant
            i <= chars@.len(),
            chars@ == row@,
            forall|j: int| 0 <= j < i ==> chars@[j] != '\n',
        decreases chars@.len() - i,
    {
        if chars[i] == '\n' {
            assert(row@.contains('\n'));
            return false;
        }
        i += 1;
    }
    true
}

/// Rows as NDJSON, a newline behind each.
pub fn join_rows(rows: &[String]) -> (text: String)
    ensures
        text@ == ndjson(rows_view(rows@)),
{
    let mut text = String::new();
    let ghost all = rows_view(rows@);
    let mut i: usize = 0;
    assert(all.take(0) =~= Seq::empty());
    while i < rows.len()
        invariant
            i <= rows@.len(),
            all == rows_view(rows@),
            text@ == ndjson(all.take(i as int)),
        decreases rows@.len() - i,
    {
        text.append(rows[i].as_str());
        text.push('\n');
        proof {
            lemma_ndjson_push(all.take(i as int), all[i as int]);
            assert(all.take(i + 1) =~= all.take(i as int).push(all[i as int]));
            assert(text@ =~= ndjson(all.take(i as int)) + all[i as int] + seq!['\n']);
        }
        i += 1;
    }
    assert(all.take(i as int) =~= all);
    text
}

// The trailing record.

/// The characters JSON allows between its tokens.
pub open spec fn json_white(c: char) -> bool {
    c == ' ' || c == '\n' || c == '\t' || c == '\r'
}

/// Where the white space at a place ends.
pub open spec fn past_white(text: Seq<char>, at: int) -> int
    decreases text.len() - at,
{
    if 0 <= at < text.len() && json_white(text[at]) {
        past_white(text, at + 1)
    } else {
        at
    }
}

/// Where the white space ahead of a place starts.
pub open spec fn ahead_of_white(text: Seq<char>, end: int) -> int
    decreases end,
{
    if 0 < end <= text.len() && json_white(text[end - 1]) {
        ahead_of_white(text, end - 1)
    } else {
        end
    }
}

/// Text without the JSON white space at its ends.
pub open spec fn json_trimmed(text: Seq<char>) -> Seq<char> {
    let to = ahead_of_white(text, text.len() as int);
    let from = past_white(text, 0);
    if from < to {
        text.subrange(from, to)
    } else {
        Seq::empty()
    }
}

/// What a hexadecimal digit stands for.
pub open spec fn hex_value(c: char) -> Option<u32> {
    let n = c as u32;
    if 48 <= n <= 57 {
        Some((n - 48) as u32)
    } else if 65 <= n <= 70 {
        Some((n - 55) as u32)
    } else if 97 <= n <= 102 {
        Some((n - 87) as u32)
    } else {
        None
    }
}

/// Whether four hexadecimal digits at a place stand for a letter.
pub open spec fn spells(text: Seq<char>, at: int, letter: char) -> bool {
    match (
        hex_value(text[at]),
        hex_value(text[at + 1]),
        hex_value(text[at + 2]),
        hex_value(text[at + 3]),
    ) {
        (Some(a), Some(b), Some(c), Some(d)) => a * 4096 + b * 256 + c * 16 + d == letter as u32,
        _ => false,
    }
}

/// Where a JSON string ends that holds these letters and stands open at a
/// place: each letter is itself or its `\u` escape.
pub open spec fn string_end(text: Seq<char>, at: int, letters: Seq<char>) -> Option<int>
    decreases letters.len(),
{
    if at >= text.len() {
        None
    } else if letters.len() == 0 {
        if text[at] == '"' {
            Some(at + 1)
        } else {
            None
        }
    } else if text[at] == letters[0] {
        string_end(text, at + 1, letters.skip(1))
    } else if at + 6 <= text.len() && text[at] == '\\' && text[at + 1] == 'u' && spells(
        text,
        at + 2,
        letters[0],
    ) {
        string_end(text, at + 6, letters.skip(1))
    } else {
        None
    }
}

/// The value of the one member of a JSON object whose one key is `trailing`,
/// as its text, where some text opens and closes as such an object does.
pub open spec fn record_value(text: Seq<char>) -> Option<Seq<char>> {
    let open = past_white(text, 0);
    let quote = past_white(text, open + 1);
    let close = ahead_of_white(text, text.len() as int) - 1;
    if open < text.len() && text[open] == '{' && quote < text.len() && text[quote] == '"' {
        match string_end(text, quote + 1, TRAILING_KEY@) {
            Some(end) => {
                let colon = past_white(text, end);
                if colon < close && text[colon] == ':' && text[close] == '}' {
                    Some(text.subrange(colon + 1, close))
                } else {
                    None
                }
            },
            None => None,
        }
    } else {
        None
    }
}

/// `serde_json::from_str::<Vec<Box<RawValue>>>`: the values of a JSON array,
/// each as its own text, where some text is one.
pub uninterp spec fn json_values(text: Seq<char>) -> Option<RowsV>;

/// `serde_json::from_str::<Vec<Box<RawValue>>>`. The result depends on the
/// text alone; what JSON is, and so which texts have one, is left to the name.
#[verifier::external_body]
fn raw_values(text: &str) -> (values: Option<Vec<String>>)
    ensures
        match values {
            Some(values) => json_values(text@) == Some(rows_view(values@)),
            None => json_values(text@) is None,
        },
{
    let values: Vec<Box<serde_json::value::RawValue>> = serde_json::from_str(text).ok()?;
    Some(values.iter().map(|value| value.get().to_string()).collect())
}

/// The rows a trailing record carries, verbatim, or None where some text is a
/// frame's rows instead.
pub open spec fn trailing_of(text: Seq<char>) -> Option<RowsV> {
    match record_value(text) {
        Some(value) => json_values(value),
        None => None,
    }
}

/// Rows with a comma between each and the next.
pub open spec fn listed(rows: RowsV) -> Seq<char>
    decreases rows.len(),
{
    if rows.len() == 0 {
        Seq::empty()
    } else if rows.len() == 1 {
        rows[0]
    } else {
        listed(rows.drop_last()) + seq![','] + rows.last()
    }
}

/// Rows as a JSON array.
pub open spec fn array(rows: RowsV) -> Seq<char> {
    seq!['['] + listed(rows) + seq![']']
}

/// Rows as the record trailing rows ride in.
pub open spec fn record(rows: RowsV) -> Seq<char> {
    "{\""@ + TRAILING_KEY@ + "\":"@ + array(rows) + "}"@
}

/// Rows without the white space at their ends.
pub open spec fn trimmed_rows(rows: RowsV) -> RowsV {
    rows.map_values(|row: Seq<char>| json_trimmed(row))
}

/// Whether rows are JSON: an array of them reads back as those same rows.
pub open spec fn are_json(rows: RowsV) -> bool {
    json_values(array(rows)) == Some(trimmed_rows(rows))
}

/// A record of rows that are JSON carries those rows.
pub proof fn lemma_record_carries_its_rows(rows: RowsV)
    requires
        are_json(rows),
    ensures
        trailing_of(record(rows)) == Some(trimmed_rows(rows)),
{
    reveal_strlit("{\"");
    reveal_strlit("\":");
    reveal_strlit("}");
    reveal_strlit("trailing");
    let text = record(rows);
    let list = array(rows);
    assert(text.len() == 12 + list.len() + 1);
    assert(text[0] == '{');
    assert(text[1] == '"');
    assert(past_white(text, 0) == 0);
    assert(past_white(text, 1) == 1);
    assert(text.subrange(2, 10) =~= TRAILING_KEY@);
    lemma_string_end(text, 2, TRAILING_KEY@);
    assert(text[11] == ':');
    assert(past_white(text, 11) == 11);
    assert(text[text.len() - 1] == '}');
    assert(ahead_of_white(text, text.len() as int) == text.len());
    assert(text.subrange(12, text.len() - 1) =~= list);
}

/// A string that holds its letters unescaped ends behind them.
proof fn lemma_string_end(text: Seq<char>, at: int, letters: Seq<char>)
    requires
        0 <= at,
        at + letters.len() < text.len(),
        text.subrange(at, at + letters.len()) == letters,
        text[at + letters.len()] == '"',
    ensures
        string_end(text, at, letters) == Some(at + letters.len() + 1),
    decreases letters.len(),
{
    if letters.len() > 0 {
        assert(text.subrange(at, at + letters.len())[0] == text[at]);
        assert(text.subrange(at + 1, at + letters.len()) =~= letters.skip(1));
        lemma_string_end(text, at + 1, letters.skip(1));
    }
}

fn is_json_white(c: char) -> (yes: bool)
    ensures
        yes == json_white(c),
{
    c == ' ' || c == '\n' || c == '\t' || c == '\r'
}

/// Where the white space at a place ends.
fn skip_white(text: &Vec<char>, at: usize) -> (end: usize)
    requires
        at <= text@.len(),
    ensures
        at <= end <= text@.len(),
        end == past_white(text@, at as int),
{
    let mut end: usize = at;
    while end < text.len() && is_json_white(text[end])
        invariant
            at <= end <= text@.len(),
            past_white(text@, at as int) == past_white(text@, end as int),
        decreases text@.len() - end,
    {
        end += 1;
    }
    end
}

/// Where the white space the text ends with starts.
fn white_tail(text: &Vec<char>) -> (end: usize)
    ensures
        end <= text@.len(),
        end == ahead_of_white(text@, text@.len() as int),
{
    let mut end: usize = text.len();
    while end > 0 && is_json_white(text[end - 1])
        invariant
            end <= text@.len(),
            ahead_of_white(text@, text@.len() as int) == ahead_of_white(text@, end as int),
        decreases end,
    {
        end -= 1;
    }
    end
}

fn hex_of(c: char) -> (value: Option<u32>)
    ensures
        value == hex_value(c),
        value matches Some(v) ==> v < 16,
{
    let n = c as u32;
    if 48 <= n && n <= 57 {
        Some(n - 48)
    } else if 65 <= n && n <= 70 {
        Some(n - 55)
    } else if 97 <= n && n <= 102 {
        Some(n - 87)
    } else {
        None
    }
}

/// Whether four hexadecimal digits at a place stand for a letter.
fn escapes(text: &Vec<char>, at: usize, letter: char) -> (yes: bool)
    requires
        at + 4 <= text@.len(),
    ensures
        yes == spells(text@, at as int, letter),
{
    assert(text.len() == text@.len());
    match (hex_of(text[at]), hex_of(text[at + 1]), hex_of(text[at + 2]), hex_of(text[at + 3])) {
        (Some(a), Some(b), Some(c), Some(d)) => a * 4096 + b * 256 + c * 16 + d == letter as u32,
        _ => false,
    }
}

/// Where a JSON string ends that holds these letters and stands open at a
/// place.
fn find_string_end(text: &Vec<char>, at: usize, letters: &Vec<char>) -> (end: Option<usize>)
    requires
        at <= text@.len(),
    ensures
        match end {
            Some(end) => string_end(text@, at as int, letters@) == Some(end as int) && end
                <= text@.len(),
            None => string_end(text@, at as int, letters@) is None,
        },
{
    let mut here: usize = at;
    let mut i: usize = 0;
    assert(text.len() == text@.len());
    assert(letters@.skip(0) =~= letters@);
    while i < letters.len()
        invariant
            here <= text@.len() <= usize::MAX,
            i <= letters@.len(),
            string_end(text@, at as int, letters@) == string_end(
                text@,
                here as int,
                letters@.skip(i as int),
            ),
        decreases letters@.len() - i,
    {
        let ghost left = letters@.skip(i as int);
        assert(left[0] == letters@[i as int]);
        assert(left.skip(1) =~= letters@.skip(i + 1));
        if here >= text.len() {
            return None;
        }
        if text[here] == letters[i] {
            here += 1;
        } else if text.len() - here >= 6 && text[here] == '\\' && text[here + 1] == 'u' && escapes(
            text,
            here + 2,
            letters[i],
        ) {
            here += 6;
        } else {
            return None;
        }
        i += 1;
    }
    if here < text.len() && text[here] == '"' {
        Some(here + 1)
    } else {
        None
    }
}

/// The value of the one member of a JSON object whose one key is `trailing`,
/// as its text, where some text opens and closes as such an object does.
pub fn peel_record(text: &str) -> (value: Option<String>)
    ensures
        match value {
            Some(value) => record_value(text@) == Some(value@),
            None => record_value(text@) is None,
        },
{
    let chars = chars_of(text);
    let open = skip_white(&chars, 0);
    if open >= chars.len() || chars[open] != '{' {
        return None;
    }
    let quote = skip_white(&chars, open + 1);
    if quote >= chars.len() || chars[quote] != '"' {
        return None;
    }
    let key = chars_of(TRAILING_KEY);
    let end = match find_string_end(&chars, quote + 1, &key) {
        Some(end) => end,
        None => {
            return None;
        },
    };
    let colon = skip_white(&chars, end);
    let tail = white_tail(&chars);
    if tail == 0 {
        return None;
    }
    let close = tail - 1;
    if colon < close && chars[colon] == ':' && chars[close] == '}' {
        Some(text_between(&chars, colon + 1, close))
    } else {
        None
    }
}

/// The rows a trailing record carries, verbatim, or None when `text` is a
/// frame's rows instead.
pub fn trailing_rows(text: &str) -> (rows: Option<Vec<String>>)
    ensures
        match rows {
            Some(rows) => trailing_of(text@) == Some(rows_view(rows@)),
            None => trailing_of(text@) is None,
        },
{
    match peel_record(text) {
        Some(value) => raw_values(value.as_str()),
        None => None,
    }
}

/// Rows as a JSON array.
pub fn list_rows(rows: &[String]) -> (text: String)
    ensures
        text@ == array(rows_view(rows@)),
{
    let ghost all = rows_view(rows@);
    let mut text = String::new();
    text.push('[');
    let mut i: usize = 0;
    assert(all.take(0) =~= Seq::empty());
    assert(text@ =~= seq!['['] + listed(all.take(0)));
    while i < rows.len()
        invariant
            i <= rows@.len(),
            all == rows_view(rows@),
            text@ == seq!['['] + listed(all.take(i as int)),
        decreases rows@.len() - i,
    {
        let ghost before = text@;
        if i > 0 {
            text.push(',');
        }
        text.append(rows[i].as_str());
        proof {
            assert(all.take(i + 1).drop_last() =~= all.take(i as int));
            assert(all.take(i + 1).last() == all[i as int]);
            assert(text@ =~= seq!['['] + listed(all.take(i + 1)));
        }
        i += 1;
    }
    assert(all.take(i as int) =~= all);
    text.push(']');
    assert(text@ =~= array(all));
    text
}

/// Text without the JSON white space at its ends.
fn trim_json(text: &str) -> (trimmed: String)
    ensures
        trimmed@ == json_trimmed(text@),
{
    let chars = chars_of(text);
    let to = white_tail(&chars);
    let from = skip_white(&chars, 0);
    if from < to {
        text_between(&chars, from, to)
    } else {
        String::new()
    }
}

/// Whether what an array of some rows read back as is those rows, each
/// without the white space at its ends.
pub fn reads_back(values: &Option<Vec<String>>, rows: &[String]) -> (yes: bool)
    ensures
        yes == match *values {
            Some(values) => rows_view(values@) == trimmed_rows(rows_view(rows@)),
            None => false,
        },
{
    let list = match values {
        Some(list) => list,
        None => {
            return false;
        },
    };
    let ghost back = rows_view(list@);
    let ghost want = trimmed_rows(rows_view(rows@));
    if list.len() != rows.len() {
        assert(back.len() != want.len());
        return false;
    }
    let mut i: usize = 0;
    while i < rows.len()
        invariant
            i <= rows@.len(),
            *values == Some(*list),
            list@.len() == rows@.len(),
            back == rows_view(list@),
            want == trimmed_rows(rows_view(rows@)),
            forall|j: int| 0 <= j < i ==> back[j] == want[j],
        decreases rows@.len() - i,
    {
        let trimmed = trim_json(rows[i].as_str());
        assert(want[i as int] == trimmed@);
        assert(back[i as int] == list@[i as int]@);
        if !same_text(list[i].as_str(), trimmed.as_str()) {
            assert(back != want);
            return false;
        }
        i += 1;
    }
    assert(back =~= want);
    true
}

/// Whether rows are JSON: an array of them reads back as those same rows.
pub fn check_json(rows: &[String]) -> (yes: bool)
    ensures
        yes == are_json(rows_view(rows@)),
{
    let list = list_rows(rows);
    let values = raw_values(list.as_str());
    reads_back(&values, rows)
}

/// Rows as the record trailing rows ride in.
pub fn record_rows(rows: &[String]) -> (text: String)
    ensures
        text@ == record(rows_view(rows@)),
{
    let list = list_rows(rows);
    let mut text = String::new();
    text.append("{\"");
    text.append(TRAILING_KEY);
    text.append("\":");
    text.append(list.as_str());
    text.append("}");
    assert(text@ =~= record(rows_view(rows@)));
    text
}

} // verus!
