use multidb::grid::{initial_text_len, CellCursor, CellSel, Jump, EXPAND_CHARS};
use multidb::js;

#[test]
fn expanding_measures_at_most_256_characters() {
    // A 5,000-character value measures the same as a 256-character one, so
    // one enormous cell cannot stretch the column past the limit.
    let long = "x".repeat(5000);
    assert_eq!(js::char_len(js::slice_chars(&long, EXPAND_CHARS)), EXPAND_CHARS);
    assert_eq!(js::slice_chars(&long, EXPAND_CHARS), &long[..EXPAND_CHARS]);
}

#[test]
fn a_selection_normalises_to_its_corners() {
    let sel = CellSel { r0: 7, c0: 1, r1: 3, c1: 4 };
    assert_eq!(sel.norm(), (3, 7, 1, 4));
    let one = CellSel { r0: 2, c0: 2, r1: 2, c1: 2 };
    assert_eq!(one.norm(), (2, 2, 2, 2));
}

#[test]
fn explain_columns_start_wide() {
    assert_eq!(initial_text_len("EXPLAIN"), 120);
    assert_eq!(initial_text_len("explain"), 120);
    assert_eq!(initial_text_len("id"), 2);
    assert_eq!(initial_text_len("naïve"), 5);
}

fn cursor_at_origin() -> CellCursor {
    CellCursor { sel: Some(CellSel { r0: 0, c0: 0, r1: 0, c1: 0 }), last_selected: Some((0, 0)) }
}

#[test]
fn a_plain_jump_to_the_last_row_moves_the_whole_selection() {
    let mut c = cursor_at_origin();
    assert_eq!(c.jump_selection(Some(Jump::Last), None, false, 100, 3), Some((99, 0)));
    let sel = c.sel.unwrap();
    assert_eq!((sel.r0, sel.r1), (99, 99));
    assert_eq!(sel.c1, 0);
    assert_eq!(c.last_selected, Some((99, 0)));
}

#[test]
fn an_extending_jump_keeps_the_anchor() {
    let mut c = cursor_at_origin();
    c.jump_selection(None, None, false, 100, 3);
    assert_eq!(c.move_selection(3, 0, false, 100, 3), Some((3, 0)));
    c.jump_selection(Some(Jump::Last), None, true, 100, 3);
    assert_eq!(c.sel.unwrap().norm(), (3, 99, 0, 0));
    assert_eq!(c.head(), (99, 0));
    c.jump_selection(Some(Jump::First), Some(Jump::Last), false, 100, 3);
    assert_eq!(c.sel.unwrap().norm(), (0, 0, 2, 2));
}

#[test]
fn moves_stay_inside_the_grid() {
    let mut c = cursor_at_origin();
    assert_eq!(c.move_selection(-5, 10, false, 4, 3), Some((0, 2)));
    assert_eq!(c.move_selection(100, -1, true, 4, 3), Some((3, 1)));
    assert_eq!(c.sel.unwrap().norm(), (0, 3, 1, 2));
    let before = c;
    assert_eq!(c.move_selection(1, 1, false, 0, 3), None);
    assert_eq!(c, before);
}

#[test]
fn without_a_block_the_last_picked_cell_anchors() {
    let mut c = CellCursor { sel: None, last_selected: Some((2, 1)) };
    assert_eq!(c.head(), (2, 1));
    c.set_head((5, 2), true);
    assert_eq!(c.sel, Some(CellSel { r0: 2, c0: 1, r1: 5, c1: 2 }));
    let mut fresh = CellCursor { sel: None, last_selected: None };
    assert_eq!(fresh.head(), (0, 0));
    fresh.set_head((1, 1), true);
    assert_eq!(fresh.sel, Some(CellSel { r0: 0, c0: 0, r1: 1, c1: 1 }));
    assert_eq!(fresh.last_selected, None);
}

#[test]
fn cmd_down_and_end_go_to_the_last_row() {
    let mut g = cursor_at_origin();
    let target = g.jump_selection(Some(Jump::Last), None, false, 100, 3);
    let sel = g.sel.unwrap();
    assert_eq!((sel.r0, sel.r1), (99, 99), "a plain jump moves the whole selection");
    assert_eq!(sel.c1, 0, "the column is left alone");
    // The last row is the one to scroll into view.
    assert_eq!(target, Some((99, 0)));
}

#[test]
fn shift_cmd_down_selects_everything_below_and_lands_on_the_last_row() {
    let mut g = cursor_at_origin();
    g.jump_selection(None, None, false, 100, 3);
    g.move_selection(3, 0, false, 100, 3); // start on row 3
    let target = g.jump_selection(Some(Jump::Last), None, true, 100, 3);
    let sel = g.sel.unwrap();
    assert_eq!(sel.norm(), (3, 99, 0, 0), "row 3 through the last row stays selected");
    assert_eq!(target, Some((99, 0)), "and the view follows the moving end");
}

#[test]
fn home_returns_to_the_first_row() {
    let mut g = cursor_at_origin();
    g.jump_selection(Some(Jump::Last), None, false, 100, 3);
    let target = g.jump_selection(Some(Jump::First), None, false, 100, 3);
    assert_eq!(g.sel.unwrap().norm(), (0, 0, 0, 0));
    assert_eq!(target, Some((0, 0)));
}

#[test]
fn jumping_sideways_scrolls_the_column_into_view() {
    let mut g = cursor_at_origin();
    let target = g.jump_selection(None, Some(Jump::Last), false, 100, 3);
    assert_eq!(g.sel.unwrap().c1, 2);
    assert_eq!(target, Some((0, 2)), "the last column is the one brought into view");
    let target = g.jump_selection(None, Some(Jump::First), false, 100, 3);
    assert_eq!(g.sel.unwrap().c1, 0);
    assert_eq!(target, Some((0, 0)));
}
