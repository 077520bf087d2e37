use multidb::search::Query;

fn q(search: &str) -> Query {
    Query { search: search.into(), ..Default::default() }
}

#[test]
fn literal_search_is_case_insensitive_by_default() {
    let doc = "select * from Users where user_id = 1";
    assert_eq!(q("user").matches(doc).len(), 2);
    let cs = Query { case_sensitive: true, ..q("user") };
    assert_eq!(cs.matches(doc).len(), 1);
}

#[test]
fn whole_word_only_matches_words() {
    let doc = "user user_id";
    let ww = Query { whole_word: true, ..q("user") };
    assert_eq!(ww.matches(doc), vec![0..4]);
}

#[test]
fn regexp_matches_and_expands_groups() {
    let doc = "a1 b2";
    let mut re = Query { regexp: true, ..q(r"([a-z])(\d)") };
    assert_eq!(re.matches(doc).len(), 2);
    re.replace = "$2$1".into();
    assert_eq!(re.replacement(doc, &(0..2)), "1a");
}

#[test]
fn next_and_previous_wrap() {
    let doc = "x .. x .. x";
    let query = q("x");
    assert_eq!(query.next(doc, 1), Some(5..6));
    assert_eq!(query.next(doc, 11), Some(0..1));
    assert_eq!(query.previous(doc, 5), Some(0..1));
    assert_eq!(query.previous(doc, 0), Some(10..11));
}

#[test]
fn matches_come_out_in_order_and_do_not_overlap() {
    let doc = "aaaa";
    let ms = q("aa").matches(doc);
    assert_eq!(ms, vec![0..2, 2..4]);
}

#[test]
fn an_empty_query_matches_nothing() {
    assert!(q("").matches("anything").is_empty());
    assert_eq!(q("").next("anything", 0), None);
}

#[test]
fn a_regexp_that_does_not_compile_is_not_valid() {
    let bad = Query { regexp: true, ..q("(") };
    assert!(!bad.is_valid());
    assert!(bad.matches("((").is_empty());
    assert!(q("(").is_valid());
}

#[test]
fn literal_replacement_is_taken_as_written() {
    let mut lit = q("a");
    lit.replace = "$1".into();
    assert_eq!(lit.replacement("a", &(0..1)), "$1");
}

#[test]
fn escaping_backslashes_every_meta_character() {
    assert_eq!(multidb::pattern::escape("a.b*c"), "a\\.b\\*c");
    assert_eq!(multidb::pattern::escape("(x)-[y]{z}^$#&~|?+\\"), "\\(x\\)\\-\\[y\\]\\{z\\}\\^\\$\\#\\&\\~\\|\\?\\+\\\\");
    assert_eq!(multidb::pattern::escape("é plain"), "é plain");
    assert_eq!(multidb::pattern::escape("a.b"), regex::escape("a.b"));
}
