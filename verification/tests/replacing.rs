use multidb::buffer::replacing::{
    find_next, find_previous, replace_all, replace_next, search_highlights, select_all_matches, Replaced,
};
use multidb::buffer::{Buffer, Selection};
use multidb::search::Query;

fn buf(text: &str, anchor: usize, head: usize) -> Buffer {
    let mut b = Buffer::new(text);
    b.selection = Selection { anchor, head };
    b
}

fn query(search: &str, replace: &str) -> Query {
    Query { search: search.into(), replace: replace.into(), ..Default::default() }
}

#[test]
fn replace_next_selects_a_match_first() {
    let mut b = buf("foo bar foo", 1, 1);
    let q = query("foo", "x");
    assert_eq!(replace_next(&mut b, &q), Replaced::Selected);
    assert_eq!(b.text(), "foo bar foo");
    assert_eq!(b.selection, Selection { anchor: 8, head: 11 });
}

#[test]
fn replace_next_replaces_the_selected_match_and_moves_on() {
    let mut b = buf("foo bar foo", 0, 3);
    let q = query("foo", "x");
    assert_eq!(replace_next(&mut b, &q), Replaced::Replaced);
    assert_eq!(b.text(), "x bar foo");
    assert_eq!(b.selection, Selection { anchor: 6, head: 9 });
    assert_eq!(replace_next(&mut b, &q), Replaced::Replaced);
    assert_eq!(b.text(), "x bar x");
    assert_eq!(b.selection, Selection { anchor: 7, head: 7 });
    assert_eq!(replace_next(&mut b, &q), Replaced::Nothing);
    assert_eq!(b.text(), "x bar x");
}

#[test]
fn replace_next_wraps_to_the_first_match() {
    let mut b = buf("foo bar", 5, 5);
    let q = query("foo", "x");
    assert_eq!(replace_next(&mut b, &q), Replaced::Selected);
    assert_eq!(b.selection, Selection { anchor: 0, head: 3 });
}

#[test]
fn replace_next_is_one_undo_step() {
    let mut b = buf("foo foo", 4, 7);
    let q = query("foo", "bar");
    assert_eq!(replace_next(&mut b, &q), Replaced::Replaced);
    assert_eq!(b.text(), "foo bar");
    assert!(b.undo());
    assert_eq!(b.text(), "foo foo");
}

#[test]
fn replace_all_replaces_every_match() {
    let mut b = buf("a.b.c", 0, 0);
    let q = query(".", "--");
    assert!(replace_all(&mut b, &q));
    assert_eq!(b.text(), "a--b--c");
    assert_eq!(b.selection, Selection { anchor: 3, head: 3 });
}

#[test]
fn replace_all_without_matches_changes_nothing() {
    let mut b = buf("abc", 1, 2);
    let q = query("z", "y");
    assert!(!replace_all(&mut b, &q));
    assert_eq!(b.text(), "abc");
    assert_eq!(b.selection, Selection { anchor: 1, head: 2 });
    assert!(!b.undo());
}

#[test]
fn replace_all_leaves_one_undo_step_per_match() {
    let mut b = buf("x x x", 0, 0);
    let q = query("x", "yy");
    assert!(replace_all(&mut b, &q));
    assert_eq!(b.text(), "yy yy yy");
    assert!(b.undo());
    assert_eq!(b.text(), "x yy yy");
    assert!(b.undo());
    assert_eq!(b.text(), "x x yy");
    assert!(b.undo());
    assert_eq!(b.text(), "x x x");
    assert!(!b.undo());
}

#[test]
fn replace_all_expands_groups_against_the_original_text() {
    let mut b = buf("a1 b2", 0, 0);
    let q = Query { regexp: true, ..query(r"([a-z])(\d)", "$2$1") };
    assert!(replace_all(&mut b, &q));
    assert_eq!(b.text(), "1a 2b");
}

#[test]
fn replace_all_handles_multibyte_text() {
    let mut b = buf("é-é", 0, 0);
    let q = query("é", "e");
    assert!(replace_all(&mut b, &q));
    assert_eq!(b.text(), "e-e");
}

#[test]
fn find_next_moves_on_and_wraps() {
    let mut b = buf("foo bar foo", 0, 0);
    let q = query("foo", "");
    assert!(find_next(&mut b, &q));
    assert_eq!(b.selection, Selection { anchor: 8, head: 11 });
    assert!(find_next(&mut b, &q));
    assert_eq!(b.selection, Selection { anchor: 0, head: 3 });
    let mut none = buf("bar", 1, 1);
    assert!(!find_next(&mut none, &q));
    assert_eq!(none.selection, Selection { anchor: 1, head: 1 });
}

#[test]
fn find_previous_moves_back_and_wraps() {
    let mut b = buf("foo bar foo", 8, 11);
    let q = query("foo", "");
    assert!(find_previous(&mut b, &q));
    assert_eq!(b.selection, Selection { anchor: 0, head: 3 });
    assert!(find_previous(&mut b, &q));
    assert_eq!(b.selection, Selection { anchor: 8, head: 11 });
}

#[test]
fn select_all_matches_selects_the_last() {
    let mut b = buf("foo bar foo", 0, 0);
    assert!(select_all_matches(&mut b, &query("foo", "")));
    assert_eq!(b.selection, Selection { anchor: 8, head: 11 });
    assert!(!select_all_matches(&mut b, &query("zzz", "")));
    assert_eq!(b.selection, Selection { anchor: 8, head: 11 });
}

#[test]
fn the_selected_match_is_the_one_the_selection_covers() {
    let ms = vec![0..3, 8..11];
    assert_eq!(search_highlights(&ms, Selection { anchor: 11, head: 8 }), Some(8..11));
    assert_eq!(search_highlights(&ms, Selection { anchor: 1, head: 1 }), None);
}
