use multidb::popup::rendered_range;

#[test]
fn a_short_list_is_rendered_whole() {
    assert_eq!(rendered_range(5, 3, 10), (0, 5));
    assert_eq!(rendered_range(0, 0, 0), (0, 0));
}

#[test]
fn the_window_holds_the_selected_option() {
    // upper half: blocks counted from the top
    assert_eq!(rendered_range(100, 0, 30), (0, 30));
    assert_eq!(rendered_range(100, 45, 30), (30, 60));
    // lower half: blocks counted from the bottom
    assert_eq!(rendered_range(100, 99, 30), (70, 100));
    assert_eq!(rendered_range(100, 60, 30), (40, 70));
}

#[test]
fn option_kinds_have_their_glyphs() {
    assert_eq!(multidb::popup::icon_glyph("function"), Some("ƒ"));
    assert_eq!(multidb::popup::icon_glyph("method"), Some("ƒ"));
    assert_eq!(multidb::popup::icon_glyph("keyword"), Some("🔑\u{fe0e}"));
    assert_eq!(multidb::popup::icon_glyph("text"), Some("abc"));
    assert_eq!(multidb::popup::icon_glyph("table"), None);
}
