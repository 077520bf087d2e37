use multidb::buffer::comment::toggle_comment;
use multidb::buffer::editing::{indent_less, indent_more};
use multidb::buffer::moving::move_lines;
use multidb::buffer::{Buffer, Selection};

fn buf(text: &str, anchor: usize, head: usize) -> Buffer {
    let mut b = Buffer::new(text);
    b.selection = Selection { anchor, head };
    b
}

#[test]
fn indenting_adds_two_spaces_to_each_touched_line() {
    let mut b = buf("a\nb\nc", 0, 3);
    indent_more(&mut b);
    assert_eq!(b.text(), "  a\n  b\nc");
    assert_eq!(b.selection, Selection { anchor: 2, head: 7 });
    assert!(b.undo());
    assert_eq!(b.text(), "a\nb\nc");
}

#[test]
fn outdenting_removes_one_unit_and_keeps_the_cursor_on_its_text() {
    let mut b = buf("    a\n   b\nc", 6, 6);
    assert!(indent_less(&mut b));
    assert_eq!(b.text(), "    a\n  b\nc");
    // the cursor was inside the removed space, so it lands at the line start
    assert_eq!(b.selection, Selection::cursor(6));
    let mut all = buf("    a\n   b\nc", 0, 11);
    assert!(indent_less(&mut all));
    assert_eq!(all.text(), "  a\n  b\nc");
    assert_eq!(all.selection, Selection { anchor: 0, head: 8 });
    let mut none = buf("a\nb", 0, 3);
    assert!(!indent_less(&mut none));
    assert_eq!(none.text(), "a\nb");
    assert!(!none.undo());
}

#[test]
fn toggling_comments_the_block_at_its_smallest_indent() {
    let mut b = buf("  select 1\n\n    from t", 0, 22);
    assert!(toggle_comment(&mut b));
    assert_eq!(b.text(), "  -- select 1\n\n  --   from t");
    assert!(toggle_comment(&mut b));
    assert_eq!(b.text(), "  select 1\n\n    from t");
}

#[test]
fn uncommenting_takes_the_marker_and_one_space() {
    let mut b = buf("-- a\n--b", 0, 0);
    assert!(toggle_comment(&mut b));
    assert_eq!(b.text(), "a\n--b");
    let mut both = buf("-- a\n--b", 0, 8);
    assert!(toggle_comment(&mut both));
    assert_eq!(both.text(), "a\nb");
    let mut blank = buf("   \n", 0, 0);
    assert!(!toggle_comment(&mut blank));
}

#[test]
fn a_selection_ending_at_a_line_start_leaves_that_line_alone() {
    let mut b = buf("a\nb\n", 0, 2);
    assert!(toggle_comment(&mut b));
    assert_eq!(b.text(), "-- a\nb\n");
}

#[test]
fn lines_move_past_their_neighbours() {
    let mut b = buf("one\ntwo\nthree", 5, 5);
    assert!(move_lines(&mut b, true, false));
    assert_eq!(b.text(), "two\none\nthree");
    assert_eq!(b.selection, Selection::cursor(1));
    assert!(move_lines(&mut b, false, false));
    assert_eq!(b.text(), "one\ntwo\nthree");
    assert_eq!(b.selection, Selection::cursor(5));
    let mut top = buf("one\ntwo", 0, 0);
    assert!(!move_lines(&mut top, true, false));
    let mut bottom = buf("one\ntwo", 5, 5);
    assert!(!move_lines(&mut bottom, false, false));
}

#[test]
fn lines_are_copied_above_or_below() {
    let mut b = buf("ab\ncd", 1, 1);
    assert!(move_lines(&mut b, false, true));
    assert_eq!(b.text(), "ab\nab\ncd");
    assert_eq!(b.selection, Selection::cursor(4));
    let mut up = buf("ab\ncd", 4, 4);
    assert!(move_lines(&mut up, true, true));
    assert_eq!(up.text(), "ab\ncd\ncd");
    assert_eq!(up.selection, Selection::cursor(4));
}
