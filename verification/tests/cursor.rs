use multidb::buffer::cursor::{
    delete_forward, delete_line, delete_line_start, delete_range, delete_word_left, delete_word_right,
    goto_offset, line_start_target, move_to, newline, select_line, select_next, vertical,
};
use multidb::buffer::{Buffer, Selection};

fn buf(text: &str, anchor: usize, head: usize) -> Buffer {
    let mut b = Buffer::new(text);
    b.selection = Selection { anchor, head };
    b
}

#[test]
fn deleting_an_empty_range_does_nothing() {
    let mut b = buf("abc", 1, 1);
    assert!(!delete_range(&mut b, 2, 2));
    assert!(!delete_range(&mut b, 3, 1));
    assert_eq!(b.text(), "abc");
    assert!(delete_range(&mut b, 0, 2));
    assert_eq!(b.text(), "c");
}

#[test]
fn deleting_to_the_line_start() {
    let mut b = buf("ab\ncd", 5, 5);
    assert!(delete_line_start(&mut b));
    assert_eq!(b.text(), "ab\n");
    // At the start of a line the line break goes.
    assert!(delete_line_start(&mut b));
    assert_eq!(b.text(), "ab");
    let mut start = buf("x", 0, 0);
    assert!(!delete_line_start(&mut start));
}

#[test]
fn deleting_lines() {
    let mut b = buf("a\nb\nc", 2, 2);
    assert!(delete_line(&mut b));
    assert_eq!(b.text(), "a\nc");
    let mut last = buf("a\nb\nc", 4, 4);
    assert!(delete_line(&mut last));
    assert_eq!(last.text(), "a\nb");
    let mut only = buf("abc", 1, 1);
    assert!(delete_line(&mut only));
    assert_eq!(only.text(), "");
    let mut none = buf("", 0, 0);
    assert!(!delete_line(&mut none));
}

#[test]
fn moving_down_keeps_the_goal_column() {
    let mut b = buf("abcd\nx\nabcd", 3, 3);
    vertical(&mut b, 1, false);
    assert_eq!(b.selection, Selection::cursor(6));
    assert_eq!(b.goal_column, Some(3));
    vertical(&mut b, 1, false);
    assert_eq!(b.selection, Selection::cursor(10));
    vertical(&mut b, 1, false);
    assert_eq!(b.selection, Selection::cursor(11));
    vertical(&mut b, -5, true);
    assert_eq!(b.selection, Selection { anchor: 11, head: 0 });
}

#[test]
fn moving_a_selection_by_one_line_collapses_it_first() {
    let mut b = buf("ab\ncd\nef", 1, 4);
    vertical(&mut b, -1, false);
    assert_eq!(b.selection, Selection::cursor(0));
    let mut d = buf("ab\ncd\nef", 1, 4);
    vertical(&mut d, 1, false);
    assert_eq!(d.selection, Selection::cursor(7));
}

#[test]
fn selecting_the_next_occurrence_wraps() {
    let mut b = buf("foo bar foo", 1, 1);
    select_next(&mut b);
    assert_eq!(b.selection, Selection { anchor: 0, head: 3 });
    select_next(&mut b);
    assert_eq!(b.selection, Selection { anchor: 8, head: 11 });
    select_next(&mut b);
    assert_eq!(b.selection, Selection { anchor: 0, head: 3 });
    let mut space = buf("a  b", 2, 2);
    select_next(&mut space);
    assert_eq!(space.selection, Selection { anchor: 1, head: 3 });
}

#[test]
fn moving_to_an_offset_clamps_to_a_boundary() {
    let mut b = buf("héllo", 0, 0);
    move_to(&mut b, 2, false);
    assert_eq!(b.selection, Selection::cursor(1));
    move_to(&mut b, 99, true);
    assert_eq!(b.selection, Selection { anchor: 1, head: 6 });
}

#[test]
fn going_to_a_line_and_column() {
    let b = buf("abc\nde\nfghij", 0, 0);
    assert_eq!(goto_offset(&b, 2, 1), 5);
    assert_eq!(goto_offset(&b, 2, 9), 6);
    assert_eq!(goto_offset(&b, 3, 0), 7);
    assert_eq!(goto_offset(&b, 1, 3), 3);
}

#[test]
fn newline_trims_around_the_break_and_indents() {
    let mut b = buf("select  \n", 8, 8);
    newline(&mut b, 2);
    assert_eq!(b.text(), "select\n  \n");
    assert_eq!(b.selection, Selection::cursor(9));
    let mut mid = buf("a   b", 2, 2);
    newline(&mut mid, 0);
    assert_eq!(mid.text(), "a\nb");
    let mut blank = buf("   x", 2, 2);
    newline(&mut blank, 1);
    assert_eq!(blank.text(), "  \n x");
    assert!(mid.undo());
    assert_eq!(mid.text(), "a   b");
}

#[test]
fn line_start_goes_to_the_indentation_then_the_line_start() {
    let b = buf("  abc\n\t\nxyz", 0, 0);
    assert_eq!(line_start_target(&b, 4), 2);
    assert_eq!(line_start_target(&b, 2), 0);
    assert_eq!(line_start_target(&b, 0), 2);
    assert_eq!(line_start_target(&b, 7), 6);
    assert_eq!(line_start_target(&b, 10), 8);
    assert_eq!(line_start_target(&b, 8), 8);
}

#[test]
fn select_line_takes_whole_lines() {
    let mut b = buf("ab\ncd\nef", 4, 1);
    select_line(&mut b);
    assert_eq!(b.selection, Selection { anchor: 0, head: 6 });
    let mut b = buf("ab\ncd\nef", 7, 7);
    select_line(&mut b);
    assert_eq!(b.selection, Selection { anchor: 6, head: 8 });
}

#[test]
fn delete_forward_takes_one_char_or_the_selection() {
    let mut b = buf("aé", 1, 1);
    assert!(delete_forward(&mut b));
    assert_eq!(b.text(), "a");
    let mut b = buf("aé", 3, 3);
    assert!(!delete_forward(&mut b));
    assert_eq!(b.text(), "aé");
    let mut b = buf("aé", 1, 0);
    assert!(delete_forward(&mut b));
    assert_eq!(b.text(), "é");
}

#[test]
fn delete_by_words() {
    let mut b = buf("foo bar", 7, 7);
    assert!(delete_word_left(&mut b));
    assert_eq!(b.text(), "foo ");
    let mut b = buf("foo bar", 0, 0);
    assert!(delete_word_right(&mut b));
    assert_eq!(b.text(), " bar");
}
