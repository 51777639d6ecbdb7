//! Messages as lines of text.

use ffrwd_nut::message::{read_line, LineProblem};

#[test]
fn a_line_is_a_pts_a_tab_and_a_message() {
    assert_eq!(read_line("500000\t{\"a\":1}"), Ok(Some((500_000, "{\"a\":1}".to_string()))));
    assert_eq!(read_line(" -7 \t x\ty "), Ok(Some((-7, " x\ty ".to_string()))));
    assert_eq!(read_line("+0\t"), Ok(Some((0, String::new()))));
    assert_eq!(
        read_line("9223372036854775807\tx"),
        Ok(Some((i64::MAX, "x".to_string())))
    );
    assert_eq!(
        read_line("-9223372036854775808\tx"),
        Ok(Some((i64::MIN, "x".to_string())))
    );
}

#[test]
fn a_blank_line_is_no_message() {
    for line in ["", "   ", "\t", " \u{3000}\t\r"] {
        assert_eq!(read_line(line), Ok(None), "{line:?}");
    }
}

#[test]
fn a_line_that_is_no_message_says_why() {
    for (line, problem) in [
        ("12 {}", LineProblem::NoTab),
        ("\t{}", LineProblem::NoNumber),
        ("twelve\t{}", LineProblem::NotADigit),
        ("-\t{}", LineProblem::NotADigit),
        ("1 2\t{}", LineProblem::NotADigit),
        ("9223372036854775808\t{}", LineProblem::TooLarge),
        ("99999999999999999999x\t{}", LineProblem::TooLarge),
        ("9223372036854775807x\t{}", LineProblem::NotADigit),
        ("-9223372036854775809\t{}", LineProblem::TooSmall),
    ] {
        assert_eq!(read_line(line), Err(problem), "{line:?}");
    }
    assert_eq!(
        LineProblem::NoTab.text(),
        "each line is: pts in microseconds, a tab, the JSON object"
    );
    assert_eq!(LineProblem::NoNumber.text(), "cannot parse integer from empty string");
    assert_eq!(LineProblem::NotADigit.text(), "invalid digit found in string");
    assert_eq!(LineProblem::TooLarge.text(), "number too large to fit in target type");
    assert_eq!(LineProblem::TooSmall.text(), "number too small to fit in target type");
    // A number is what the standard library takes for one.
    for text in ["12", "-12", "+12", "1x", "", "99999999999999999999", "-", "--1"] {
        let line = format!("{text}\tm");
        let want = text.parse::<i64>().map_err(|error| error.to_string());
        let got = read_line(&line).map_err(|problem| problem.text().to_string());
        match (want, got) {
            (Ok(want), Ok(Some((got, _)))) => assert_eq!(got, want),
            (Err(want), Err(got)) => assert_eq!(got, want),
            (want, got) => panic!("{text}: {want:?} and {got:?}"),
        }
    }
}
