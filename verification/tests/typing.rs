use multidb::buffer::typing::{delete_backward, insert_text, Typed};
use multidb::buffer::{Buffer, Selection};

fn buf(text: &str, anchor: usize, head: usize) -> Buffer {
    let mut b = Buffer::new(text);
    b.selection = Selection { anchor, head };
    b
}

#[test]
fn backspace_deletes_the_selection() {
    let mut b = buf("select 1", 7, 0);
    assert!(delete_backward(&mut b));
    assert_eq!(b.text(), "1");
    assert_eq!(b.selection, Selection::cursor(0));
}

#[test]
fn backspace_at_the_start_does_nothing() {
    let mut b = buf("abc", 0, 0);
    assert!(!delete_backward(&mut b));
    assert_eq!(b.text(), "abc");
    assert!(!b.undo());
}

#[test]
fn backspace_removes_an_empty_pair() {
    let mut b = buf("f()", 2, 2);
    assert!(delete_backward(&mut b));
    assert_eq!(b.text(), "f");
    assert_eq!(b.selection, Selection::cursor(1));
    let mut q = buf("''x", 1, 1);
    assert!(delete_backward(&mut q));
    assert_eq!(q.text(), "x");
}

#[test]
fn backspace_removes_one_char_before_the_cursor() {
    let mut b = buf("héllo", 3, 3);
    assert!(delete_backward(&mut b));
    assert_eq!(b.text(), "hllo");
    assert_eq!(b.selection, Selection::cursor(1));
    assert!(b.undo());
    assert_eq!(b.text(), "héllo");
}

#[test]
fn backspace_in_indentation_goes_back_to_an_even_column() {
    let mut even = buf("x\n    y", 6, 6);
    assert!(delete_backward(&mut even));
    assert_eq!(even.text(), "x\n  y");
    assert_eq!(even.selection, Selection::cursor(4));
    let mut odd = buf("   y", 3, 3);
    assert!(delete_backward(&mut odd));
    assert_eq!(odd.text(), "  y");
    // Not only spaces before the cursor: one char.
    let mut mixed = buf("a  y", 3, 3);
    assert!(delete_backward(&mut mixed));
    assert_eq!(mixed.text(), "a y");
}

#[test]
fn typing_a_bracket_inserts_the_pair() {
    let mut b = buf("select ", 7, 7);
    assert_eq!(insert_text(&mut b, "("), Typed::Edited);
    assert_eq!(b.text(), "select ()");
    assert_eq!(b.selection, Selection::cursor(8));
    // Typing the closer steps over it.
    assert_eq!(insert_text(&mut b, ")"), Typed::Moved);
    assert_eq!(b.text(), "select ()");
    assert_eq!(b.selection, Selection::cursor(9));
}

#[test]
fn a_bracket_before_a_word_is_typed_alone() {
    let mut b = buf("x", 0, 0);
    assert_eq!(insert_text(&mut b, "["), Typed::Edited);
    assert_eq!(b.text(), "[x");
    assert_eq!(b.selection, Selection::cursor(1));
    let mut c = buf("a;", 1, 1);
    insert_text(&mut c, "{");
    assert_eq!(c.text(), "a{};");
}

#[test]
fn a_quote_after_a_word_is_typed_alone() {
    let mut b = buf("it", 2, 2);
    insert_text(&mut b, "'");
    assert_eq!(b.text(), "it'");
    let mut c = buf("= ", 2, 2);
    insert_text(&mut c, "\"");
    assert_eq!(c.text(), "= \"\"");
    assert_eq!(c.selection, Selection::cursor(3));
}

#[test]
fn an_opener_wraps_the_selection() {
    let mut b = buf("a name b", 2, 6);
    assert_eq!(insert_text(&mut b, "`"), Typed::Edited);
    assert_eq!(b.text(), "a `name` b");
    assert_eq!(b.selection, Selection { anchor: 3, head: 7 });
    assert!(b.undo());
    assert_eq!(b.text(), "a name b");
}

#[test]
fn other_text_replaces_the_selection() {
    let mut b = buf("abc", 1, 2);
    assert_eq!(insert_text(&mut b, "XY"), Typed::Edited);
    assert_eq!(b.text(), "aXYc");
    assert_eq!(b.selection, Selection::cursor(3));
    let mut c = buf("ab", 1, 1);
    insert_text(&mut c, ")");
    assert_eq!(c.text(), "a)b");
}
