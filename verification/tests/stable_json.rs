use multidb::stable_json::{stable_stringify, JsonTree};

fn s(t: &str) -> String {
    t.to_string()
}

#[test]
fn scalars_print_as_json() {
    assert_eq!(stable_stringify(&JsonTree::Null), "null");
    assert_eq!(stable_stringify(&JsonTree::Bool(true)), "true");
    assert_eq!(stable_stringify(&JsonTree::Bool(false)), "false");
    assert_eq!(stable_stringify(&JsonTree::Number(s("1.5"))), "1.5");
    assert_eq!(stable_stringify(&JsonTree::Str(s("users"))), "\"users\"");
}

#[test]
fn strings_are_escaped_as_json_escapes_them() {
    let v = JsonTree::Str(s("a\"b\\c\nd\te\u{1}f\u{8}\u{c}\r\u{1f}\u{7f}é"));
    assert_eq!(stable_stringify(&v), "\"a\\\"b\\\\c\\nd\\te\\u0001f\\b\\f\\r\\u001f\u{7f}é\"");
}

#[test]
fn object_keys_come_in_locale_order() {
    let v = JsonTree::Object(vec![
        (s("zeta"), JsonTree::Number(s("1"))),
        (s("alpha"), JsonTree::Number(s("2"))),
        (s("Beta"), JsonTree::Number(s("3"))),
    ]);
    assert_eq!(stable_stringify(&v), "{\"alpha\":2,\"Beta\":3,\"zeta\":1}");
}

#[test]
fn nested_values_are_sorted_at_every_level() {
    let inner = JsonTree::Object(vec![(s("b"), JsonTree::Null), (s("a"), JsonTree::Bool(true))]);
    let v = JsonTree::Array(vec![inner, JsonTree::Array(vec![]), JsonTree::Object(vec![])]);
    assert_eq!(stable_stringify(&v), "[{\"a\":true,\"b\":null},[],{}]");
}

#[test]
fn keys_are_escaped_too() {
    let v = JsonTree::Object(vec![(s("a\"b"), JsonTree::Str(s("x")))]);
    assert_eq!(stable_stringify(&v), "{\"a\\\"b\":\"x\"}");
}
