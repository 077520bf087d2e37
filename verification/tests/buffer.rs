use multidb::buffer::{merges, Buffer, EditKind, Selection, MERGE_WINDOW_MS};

#[test]
fn an_edit_puts_the_cursor_after_the_insert() {
    let mut b = Buffer::new("hello");
    b.edit(5..5, " world", EditKind::Other);
    assert_eq!(b.text(), "hello world");
    assert_eq!(b.selection, Selection::cursor(11));
    assert_eq!(b.line_count(), 1);
}

#[test]
fn undo_restores_what_an_edit_replaced_and_redo_brings_it_back() {
    let mut b = Buffer::new("select 1");
    b.selection = Selection { anchor: 7, head: 8 };
    b.edit(7..8, "2", EditKind::Other);
    assert_eq!(b.text(), "select 2");
    assert!(b.undo());
    assert_eq!(b.text(), "select 1");
    assert_eq!(b.selection, Selection { anchor: 7, head: 8 });
    assert!(b.redo());
    assert_eq!(b.text(), "select 2");
    assert_eq!(b.selection, Selection::cursor(8));
    assert!(!b.redo());
    assert!(b.undo());
    assert!(!b.undo());
}

#[test]
fn a_new_edit_clears_the_redo_history() {
    let mut b = Buffer::new("a");
    b.edit(1..1, "b", EditKind::Other);
    assert!(b.undo());
    b.edit(1..1, "c", EditKind::Other);
    assert!(!b.redo());
    assert_eq!(b.text(), "ac");
}

#[test]
fn the_history_keeps_at_most_500_steps() {
    let mut b = Buffer::new("");
    for _ in 0..600 {
        b.edit(0..0, "x", EditKind::Other);
    }
    let mut undone = 0;
    while b.undo() {
        undone += 1;
    }
    assert_eq!(undone, 500);
    assert_eq!(b.text().len(), 100);
}

#[test]
fn lines_are_indexed_by_their_starts() {
    let b = Buffer::new("ab\ncd\n\nef");
    assert_eq!(b.line_count(), 4);
    assert_eq!((b.line_start(1), b.line_end(1)), (3, 5));
    assert_eq!(b.line_text(2), "");
    assert_eq!(b.line_of(4), 1);
    assert_eq!(b.line_of(6), 2);
    assert_eq!(b.line_start(99), 7);
}

#[test]
fn offsets_are_clamped_to_char_boundaries() {
    let b = Buffer::new("héllo");
    assert_eq!(b.clamp(2), 1);
    assert_eq!(b.clamp(99), 6);
    assert_eq!(b.next_char(1), 3);
    assert_eq!(b.prev_char(3), 1);
    assert_eq!(b.char_at(1), Some('é'));
    assert_eq!(b.char_before(3), Some('é'));
    assert_eq!(b.char_at(6), None);
}

#[test]
fn group_movement_skips_space_then_one_class() {
    let b = Buffer::new("select  user_id, x");
    assert_eq!(b.word_right(0), 6);
    assert_eq!(b.word_right(6), 15);
    assert_eq!(b.word_left(15), 8);
    assert_eq!(b.word_range_at(10), 8..15);
}

#[test]
fn columns_count_chars() {
    let b = Buffer::new("x\n\tæbc");
    assert_eq!(b.column_chars(6), 3);
    assert_eq!(b.offset_at_column(1, 2), 5);
    assert_eq!(b.offset_at_column(1, 99), 7);
    assert_eq!(b.indentation_of_line(1), 4);
}

#[test]
fn several_edits_apply_together_with_a_new_selection() {
    let mut b = Buffer::new("a b c");
    b.edit_many(vec![(0..1, "x".into()), (4..5, "yy".into())], Selection { anchor: 0, head: 99 }, EditKind::Other);
    assert_eq!(b.text(), "x b yy");
    assert_eq!(b.selection, Selection { anchor: 0, head: 6 });
    assert!(b.undo());
    assert_eq!(b.text(), "a b c");
}

#[test]
fn replacing_the_text_keeps_the_cursor_inside_it() {
    let mut b = Buffer::new("long text here");
    b.selection = Selection::cursor(12);
    b.set_text("short");
    assert_eq!(b.selection, Selection::cursor(5));
    assert!(b.undo());
    assert_eq!(b.text(), "long text here");
}

#[test]
fn edits_may_come_in_any_order() {
    let mut b = Buffer::new("abcdef");
    b.selection = Selection { anchor: 1, head: 1 };
    b.edit_many(
        vec![(4..5, "X".to_string()), (0..1, "YY".to_string()), (2..2, "-".to_string())],
        Selection { anchor: 0, head: 0 },
        EditKind::Other,
    );
    assert_eq!(b.text(), "YYb-cdXf");
    assert!(b.undo());
    assert_eq!(b.text(), "abcdef");
    assert_eq!(b.selection, Selection { anchor: 1, head: 1 });
    assert_eq!(b.line_count(), 1);
}

#[test]
fn the_lines_joined_by_newlines_are_the_text() {
    let b = Buffer::new("ab\n\nc é\n");
    let lines: Vec<&str> = (0..b.line_count()).map(|l| b.line_text(l)).collect();
    assert_eq!(lines, vec!["ab", "", "c é", ""]);
    assert_eq!(lines.join("\n"), b.text());
}

#[test]
fn char_steps_move_by_the_char_encoding() {
    let b = Buffer::new("aé😀");
    assert_eq!(b.next_char(1), 1 + 'é'.len_utf8());
    assert_eq!(b.prev_char(b.next_char(1)), 1);
    assert_eq!(b.next_char(3), 7);
    assert_eq!(b.prev_char(7), 3);
    assert_eq!(b.prev_char(0), 0);
    assert_eq!(b.next_char(b.len()), b.len());
}

#[test]
fn columns_find_offsets_again() {
    let b = Buffer::new("xy\naé😀b");
    for o in [3usize, 4, 6, 10, 11] {
        assert_eq!(b.offset_at_column(b.line_of(o), b.column_chars(o)), o);
    }
    assert_eq!(b.offset_at_column(1, 99), b.line_end(1));
}

#[test]
fn quick_typing_of_one_kind_folds_into_one_step() {
    assert!(merges(Some(EditKind::Type), EditKind::Type, false, 0));
    assert!(merges(Some(EditKind::Delete), EditKind::Delete, false, MERGE_WINDOW_MS - 1));
    assert!(!merges(Some(EditKind::Type), EditKind::Type, false, MERGE_WINDOW_MS));
    assert!(!merges(Some(EditKind::Type), EditKind::Delete, false, 0));
    assert!(!merges(Some(EditKind::Other), EditKind::Other, false, 0));
    assert!(!merges(Some(EditKind::Type), EditKind::Type, true, 0));
    assert!(!merges(None, EditKind::Type, false, 0));
}

#[test]
fn quick_typing_is_undone_at_once() {
    let mut b = Buffer::new("");
    b.edit(0..0, "a", EditKind::Type);
    b.edit(1..1, "b", EditKind::Type);
    assert_eq!(b.text(), "ab");
    assert!(b.undo());
    assert_eq!(b.text(), "");
}
