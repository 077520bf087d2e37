use multidb::cell_text::{cell_text, value_to_string, JsonText};

#[test]
fn plain_values_print_as_javascript_prints_them() {
    assert_eq!(value_to_string(&JsonText::Null), "null");
    assert_eq!(value_to_string(&JsonText::Bool(true)), "true");
    assert_eq!(value_to_string(&JsonText::Bool(false)), "false");
    assert_eq!(value_to_string(&JsonText::Str("x,y".into())), "x,y");
    assert_eq!(value_to_string(&JsonText::Float("1.5".into())), "1.5");
    assert_eq!(value_to_string(&JsonText::Object), "[object Object]");
}

#[test]
fn safe_integers_print_in_decimal_and_others_as_doubles() {
    let int = |value: i128, as_double: &str| JsonText::Int { value, as_double: as_double.into() };
    assert_eq!(value_to_string(&int(-42, "-42")), "-42");
    assert_eq!(value_to_string(&int(9007199254740992, "9007199254740992")), "9007199254740992");
    assert_eq!(value_to_string(&int(9007199254740993, "9007199254740992")), "9007199254740992");
    assert_eq!(value_to_string(&int(-9007199254740993, "-9007199254740992")), "-9007199254740992");
    assert_eq!(value_to_string(&int(0, "0")), "0");
}

#[test]
fn arrays_join_their_items_with_null_items_empty() {
    let a = JsonText::Array(vec![Some("1".into()), None, Some("x".into())]);
    assert_eq!(value_to_string(&a), "1,,x");
    assert_eq!(value_to_string(&JsonText::Array(Vec::new())), "");
    assert_eq!(value_to_string(&JsonText::Array(vec![None])), "");
}

#[test]
fn a_null_cell_shows_nothing() {
    assert_eq!(cell_text(&JsonText::Null), None);
    assert_eq!(cell_text(&JsonText::Bool(false)), Some("false".to_string()));
}
