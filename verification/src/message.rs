//! A data stream of JSON messages as lines of text: its pts in microseconds, a
//! tab, and the JSON object.

use vstd::prelude::*;

use crate::rows::text_between;
use crate::text::{chars_of, trim, trimmed};

verus! {

/// Why a line is not a message.
#[derive(Debug, Clone, Copy, PartialEq, Eq, Structural)]
pub enum LineProblem {
    /// There is no tab in it.
    NoTab,
    /// There is nothing ahead of the tab.
    NoNumber,
    /// Something ahead of the tab is no digit.
    NotADigit,
    /// The number ahead of the tab is above every 64-bit one.
    TooLarge,
    /// The number ahead of the tab is below every 64-bit one.
    TooSmall,
}

impl LineProblem {
    /// What is wrong, in words.
    pub open spec fn spec_text(self) -> Seq<char> {
        match self {
            LineProblem::NoTab => "each line is: pts in microseconds, a tab, the JSON object"@,
            LineProblem::NoNumber => "cannot parse integer from empty string"@,
            LineProblem::NotADigit => "invalid digit found in string"@,
            LineProblem::TooLarge => "number too large to fit in target type"@,
            LineProblem::TooSmall => "number too small to fit in target type"@,
        }
    }

    /// What is wrong, in words.
    pub fn text(self) -> (text: &'static str)
        ensures
            text@ == self.spec_text(),
    {
        match self {
            LineProblem::NoTab => "each line is: pts in microseconds, a tab, the JSON object",
            LineProblem::NoNumber => "cannot parse integer from empty string",
            LineProblem::NotADigit => "invalid digit found in string",
            LineProblem::TooLarge => "number too large to fit in target type",
            LineProblem::TooSmall => "number too small to fit in target type",
        }
    }
}

/// The digits of a number from a place on, `value` read ahead of them.
pub open spec fn digits_from(text: Seq<char>, at: int, negative: bool, value: int) -> Result<
    i64,
    LineProblem,
>
    decreases text.len() - at,
{
    if at >= text.len() {
        Ok(value as i64)
    } else {
        let d = text[at] as u32 - 48;
        let next = if negative {
            value * 10 - d
        } else {
            value * 10 + d
        };
        if d < 0 || d > 9 {
            Err(LineProblem::NotADigit)
        } else if next > i64::MAX {
            Err(LineProblem::TooLarge)
        } else if next < i64::MIN {
            Err(LineProblem::TooSmall)
        } else {
            digits_from(text, at + 1, negative, next)
        }
    }
}

/// The signed number some text spells.
pub open spec fn signed_of(text: Seq<char>) -> Result<i64, LineProblem> {
    if text.len() == 0 {
        Err(LineProblem::NoNumber)
    } else if text[0] == '-' || text[0] == '+' {
        if text.len() == 1 {
            Err(LineProblem::NotADigit)
        } else {
            digits_from(text, 1, text[0] == '-', 0)
        }
    } else {
        digits_from(text, 0, false, 0)
    }
}

/// The message a line holds, none where the line is blank, or why it holds
/// none.
pub open spec fn line_message(line: Seq<char>) -> Result<Option<(i64, Seq<char>)>, LineProblem> {
    if trimmed(line).len() == 0 {
        Ok(None)
    } else if !line.contains('\t') {
        Err(LineProblem::NoTab)
    } else {
        let at = line.index_of_first('\t')->Some_0;
        match signed_of(trimmed(line.take(at))) {
            Ok(pts) => Ok(Some((pts, line.skip(at + 1)))),
            Err(problem) => Err(problem),
        }
    }
}

/// The signed number the text between two places spells.
fn parse_signed(text: &Vec<char>, from: usize, to: usize) -> (number: Result<i64, LineProblem>)
    requires
        from <= to <= text@.len(),
    ensures
        number == signed_of(text@.subrange(from as int, to as int)),
{
    let ghost piece = text@.subrange(from as int, to as int);
    if from == to {
        return Err(LineProblem::NoNumber);
    }
    assert(piece[0] == text@[from as int]);
    let negative = text[from] == '-';
    let mut at: usize = from;
    if text[from] == '-' || text[from] == '+' {
        at += 1;
        if at == to {
            return Err(LineProblem::NotADigit);
        }
    }
    let mut value: i64 = 0;
    while at < to
        invariant
            from <= at <= to <= text@.len(),
            piece == text@.subrange(from as int, to as int),
            negative ==> value <= 0,
            !negative ==> value >= 0,
            signed_of(piece) == digits_from(piece, at - from, negative, value as int),
        decreases to - at,
    {
        assert(piece[at - from] == text@[at as int]);
        let c = text[at] as u32;
        if c < 48 || c > 57 {
            return Err(LineProblem::NotADigit);
        }
        let d = (c - 48) as i64;
        if negative {
            if value < -922_337_203_685_477_580 || (value == -922_337_203_685_477_580 && d > 8) {
                return Err(LineProblem::TooSmall);
            }
            value = value * 10 - d;
        } else {
            if value > 922_337_203_685_477_580 || (value == 922_337_203_685_477_580 && d > 7) {
                return Err(LineProblem::TooLarge);
            }
            value = value * 10 + d;
        }
        at += 1;
    }
    Ok(value)
}

/// The message a line holds, none where the line is blank, or why it holds
/// none.
pub fn read_line(line: &str) -> (read: Result<Option<(i64, String)>, LineProblem>)
    ensures
        match line_message(line@) {
            Ok(Some((pts, message))) => read matches Ok(Some(got)) && got.0 == pts && got.1@
                == message,
            Ok(None) => read matches Ok(None),
            Err(problem) => read matches Err(got) && got == problem,
        },
{
    let text = chars_of(line);
    assert(text@.subrange(0, text@.len() as int) =~= text@);
    let (from, to) = trim(&text, 0, text.len());
    if from == to {
        assert(trimmed(text@) =~= Seq::empty());
        return Ok(None);
    }
    let mut at: usize = 0;
    while at < text.len() && text[at] != '\t'
        invariant
            at <= text@.len(),
            forall|i: int| 0 <= i < at ==> text@[i] != '\t',
        decreases text@.len() - at,
    {
        at += 1;
    }
    if at == text.len() {
        return Err(LineProblem::NoTab);
    }
    proof {
        assert(text@[at as int] == '\t');
        text@.index_of_first_ensures('\t');
        assert(text@.subrange(0, at as int) =~= text@.take(at as int));
        assert(text@.subrange(at + 1, text@.len() as int) =~= text@.skip(at + 1));
    }
    let (low, high) = trim(&text, 0, at);
    let pts = parse_signed(&text, low, high)?;
    Ok(Some((pts, text_between(&text, at + 1, text.len()))))
}

} // verus!
