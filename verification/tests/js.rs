use multidb::js::{char_len, locale_compare, locale_compare_numeric, slice_chars};
use std::cmp::Ordering;

#[test]
fn locale_compare_orders_like_icu() {
    assert_eq!(locale_compare("apple", "Banana"), Ordering::Less);
    assert_eq!(locale_compare("a", "A"), Ordering::Less);
    assert_eq!(locale_compare("order_items", "orders"), Ordering::Less);
    assert_eq!(locale_compare_numeric("item2", "item10"), Ordering::Less);
    assert_eq!(locale_compare("item2", "item10"), Ordering::Greater);
    assert_eq!(locale_compare("10", "9"), Ordering::Less);
    assert_eq!(locale_compare_numeric("10", "9"), Ordering::Greater);
}

#[test]
fn collation_is_equal_only_for_the_same_string() {
    assert_eq!(locale_compare("same", "same"), Ordering::Equal);
    assert_ne!(locale_compare("é", "e"), Ordering::Equal);
    assert_ne!(locale_compare_numeric("01", "1"), Ordering::Equal);
}

#[test]
fn collation_is_antisymmetric() {
    let words = ["apple", "Banana", "a", "A", "item2", "item10", "é", "e", "_x", "10", "9"];
    for a in words {
        for b in words {
            assert_eq!(locale_compare(a, b), locale_compare(b, a).reverse(), "{a} {b}");
            assert_eq!(locale_compare_numeric(a, b), locale_compare_numeric(b, a).reverse(), "{a} {b}");
        }
    }
}

#[test]
fn slicing_counts_chars_not_bytes() {
    assert_eq!(slice_chars("héllo", 2), "hé");
    assert_eq!(slice_chars("ab", 5), "ab");
    assert_eq!(char_len("héllo"), 5);
}
