use multidb::row_sort::sort_index;

fn keys(v: &[Option<&str>]) -> Vec<Option<String>> {
    v.iter().map(|k| k.map(String::from)).collect()
}

#[test]
fn rows_sort_by_text_with_numbers_by_value() {
    let k = keys(&[Some("b"), None, Some("a10"), Some("a9")]);
    assert_eq!(sort_index(&k, true), vec![3, 2, 0, 1]);
}

#[test]
fn going_down_reverses_and_puts_empty_cells_first() {
    let k = keys(&[Some("b"), None, Some("a10"), Some("a9")]);
    assert_eq!(sort_index(&k, false), vec![1, 0, 2, 3]);
}

#[test]
fn equal_cells_keep_their_order() {
    let k = keys(&[Some("x"), None, Some("x"), None]);
    assert_eq!(sort_index(&k, true), vec![0, 2, 1, 3]);
    assert_eq!(sort_index(&k, false), vec![1, 3, 0, 2]);
    assert!(sort_index(&Vec::new(), true).is_empty());
}
