use multidb::buffer::input::{
    from_utf16, marked_text_range, range_from_utf16, replace_and_mark_text_in_range, replace_text_in_range,
    selected_text_range, text_for_range, to_utf16,
};
use multidb::buffer::typing::Typed;
use multidb::buffer::{Buffer, Selection};

fn buf(text: &str, anchor: usize, head: usize) -> Buffer {
    let mut b = Buffer::new(text);
    b.selection = Selection { anchor, head };
    b
}

// "a" (1 byte), "é" (2), "😀" (4, two UTF-16 units), "b" (1).
const MIXED: &str = "aé😀b";

#[test]
fn byte_offsets_count_utf16_units() {
    let b = buf(MIXED, 0, 0);
    assert_eq!(to_utf16(&b, 0), 0);
    assert_eq!(to_utf16(&b, 1), 1);
    assert_eq!(to_utf16(&b, 3), 2);
    assert_eq!(to_utf16(&b, 7), 4);
    assert_eq!(to_utf16(&b, 8), 5);
    assert_eq!(to_utf16(&b, 100), 5);
}

#[test]
fn utf16_offsets_land_on_char_boundaries() {
    let b = buf(MIXED, 0, 0);
    assert_eq!(from_utf16(&b, 0), 0);
    assert_eq!(from_utf16(&b, 1), 1);
    assert_eq!(from_utf16(&b, 2), 3);
    assert_eq!(from_utf16(&b, 3), 7);
    assert_eq!(from_utf16(&b, 4), 7);
    assert_eq!(from_utf16(&b, 5), 8);
    assert_eq!(from_utf16(&b, 9), 8);
    assert_eq!(range_from_utf16(&b, &(1..3)), 1..7);
}

#[test]
fn text_for_a_utf16_range_reports_what_it_covers() {
    let b = buf(MIXED, 0, 0);
    let (text, covered) = text_for_range(&b, &(1..3));
    assert_eq!(text, "é😀");
    assert_eq!(covered, 1..4);
}

#[test]
fn selection_in_utf16_units() {
    let b = buf(MIXED, 7, 1);
    assert_eq!(selected_text_range(&b), (1..4, true));
    let b = buf(MIXED, 1, 3);
    assert_eq!(selected_text_range(&b), (1..2, false));
    assert_eq!(marked_text_range(&b, &Some(1..3)), Some(1..2));
    assert_eq!(marked_text_range(&b, &None), None);
}

#[test]
fn platform_input_replaces_its_range() {
    let mut b = buf("abc", 3, 3);
    let mut marked = None;
    assert_eq!(replace_text_in_range(&mut b, &mut marked, Some(0..1), "x"), Typed::Edited);
    assert_eq!(b.text(), "xbc");
    assert_eq!(b.selection, Selection { anchor: 1, head: 1 });
    assert_eq!(marked, None);
}

#[test]
fn composing_marks_text_until_it_is_committed() {
    let mut b = buf("abc", 3, 3);
    let mut marked = None;
    replace_and_mark_text_in_range(&mut b, &mut marked, None, "ka", None);
    assert_eq!(b.text(), "abcka");
    assert_eq!(marked, Some(3..5));
    assert_eq!(b.selection, Selection { anchor: 5, head: 5 });
    replace_and_mark_text_in_range(&mut b, &mut marked, None, "か", Some(3..3));
    assert_eq!(b.text(), "abcか");
    assert_eq!(marked, Some(3..6));
    assert_eq!(b.selection, Selection { anchor: 6, head: 6 });
    replace_text_in_range(&mut b, &mut marked, None, "家");
    assert_eq!(b.text(), "abc家");
    assert_eq!(marked, None);
    assert_eq!(b.selection, Selection { anchor: 6, head: 6 });
}

#[test]
fn composing_nothing_clears_the_mark() {
    let mut b = buf("abcd", 1, 3);
    let mut marked = Some(1..3);
    replace_and_mark_text_in_range(&mut b, &mut marked, None, "", None);
    assert_eq!(b.text(), "ad");
    assert_eq!(marked, None);
    assert_eq!(b.selection, Selection { anchor: 1, head: 1 });
}

#[test]
fn a_new_selection_stays_within_the_text() {
    let mut b = buf("ab", 2, 2);
    let mut marked = None;
    replace_and_mark_text_in_range(&mut b, &mut marked, None, "x", Some(5..9));
    assert_eq!(b.text(), "abx");
    assert_eq!(b.selection, Selection { anchor: 3, head: 3 });
}
