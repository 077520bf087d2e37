use multidb::goto::{goto_line, parse_goto, GotoForm};

fn target(input: &str, lines: usize, current: usize) -> Option<(usize, usize)> {
    let form = parse_goto(input)?;
    assert!(!(form.line.is_some() && form.percent), "percentages are worked out by the caller");
    Some(goto_line(&form, lines, current, 0))
}

#[test]
fn absolute_relative_and_column_forms() {
    assert_eq!(target("5", 10, 2), Some((5, 0)));
    assert_eq!(target("+3", 10, 2), Some((5, 0)));
    assert_eq!(target("-1", 10, 2), Some((1, 0)));
    assert_eq!(target("4:2", 10, 2), Some((4, 2)));
    assert_eq!(target("nope", 10, 2), None);
}

#[test]
fn targets_stay_inside_the_text() {
    assert_eq!(target("99", 10, 2), Some((10, 0)));
    assert_eq!(target("-9", 10, 2), Some((1, 0)));
    assert_eq!(target("0", 10, 2), Some((1, 0)));
    // Only a column: the current line.
    assert_eq!(target(":7", 10, 4), Some((4, 7)));
    assert_eq!(target("  6 ", 10, 2), Some((6, 0)));
}

#[test]
fn a_percentage_is_read_with_its_parts() {
    assert_eq!(parse_goto("50%"), Some(GotoForm { minus: None, line: Some(50), col: 0, percent: true }));
    assert_eq!(parse_goto("-10%"), Some(GotoForm { minus: Some(true), line: Some(10), col: 0, percent: true }));
    let f = parse_goto("50%").unwrap();
    assert_eq!(goto_line(&f, 10, 2, 5), (5, 0));
}

#[test]
fn numbers_too_big_for_a_line_fall_back() {
    // The line does not parse, so the current line stays.
    let f = parse_goto("99999999999999999999").unwrap();
    assert_eq!(f.line, None);
    assert_eq!(goto_line(&f, 10, 3, 0), (3, 0));
    let c = parse_goto("2:99999999999999999999999").unwrap();
    assert_eq!(c.col, 0);
}

/// The whole entry as the dialog reads it: a percentage is worked out in
/// floating point here, the rest by the library.
fn goto_target(input: &str, doc_lines: usize, current_line: usize) -> Option<(usize, usize)> {
    let form = parse_goto(input)?;
    let mut percent_line: i64 = 0;
    if let (Some(l), true) = (form.line, form.percent) {
        let mut pc = l as f64 / 100.0;
        if let Some(minus) = form.minus {
            pc = pc * if minus { -1.0 } else { 1.0 } + current_line as f64 / doc_lines as f64;
        }
        percent_line = (doc_lines as f64 * pc).round() as i64;
    }
    Some(goto_line(&form, doc_lines, current_line, percent_line))
}

#[test]
fn goto_line_forms() {
    // absolute, relative, with column, percentage
    assert_eq!(goto_target("5", 10, 2), Some((5, 0)));
    assert_eq!(goto_target("+3", 10, 2), Some((5, 0)));
    assert_eq!(goto_target("-1", 10, 2), Some((1, 0)));
    assert_eq!(goto_target("4:2", 10, 2), Some((4, 2)));
    assert_eq!(goto_target("50%", 10, 2), Some((5, 0)));
    assert_eq!(goto_target("nope", 10, 2), None);
}

#[test]
fn the_grammar_takes_each_part_once_and_all_of_the_entry() {
    assert_eq!(parse_goto("5:"), None);
    assert_eq!(parse_goto("5%%"), None);
    assert_eq!(parse_goto("++5"), None);
    assert_eq!(parse_goto("+%"), Some(GotoForm { minus: Some(false), line: None, col: 0, percent: true }));
    assert_eq!(parse_goto(""), Some(GotoForm { minus: None, line: None, col: 0, percent: false }));
    // A decimal digit of another script matches the grammar but is no number.
    assert_eq!(parse_goto("٣"), Some(GotoForm { minus: None, line: None, col: 0, percent: false }));
    assert_eq!(parse_goto("-12:٣"), Some(GotoForm { minus: Some(true), line: Some(12), col: 0, percent: false }));
}
