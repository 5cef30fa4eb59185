use m4doc::order::{js_iter_order, parse_index};

fn keys(v: &[&str]) -> Vec<String> {
    v.iter().map(|s| s.to_string()).collect()
}

#[test]
fn canonical_order_example() {
    let order = js_iter_order(&keys(&["2", "b", "0", "a", "10"]));
    assert_eq!(order, keys(&["0", "2", "10", "b", "a"]));
}

#[test]
fn equal_numeric_values_keep_insertion_order() {
    // "07" and "7" both parse to seven; the sort is stable.
    let order = js_iter_order(&keys(&["07", "3", "7"]));
    assert_eq!(order, keys(&["3", "07", "7"]));
}

#[test]
fn a_leading_plus_counts_as_numeric() {
    let order = js_iter_order(&keys(&["b", "+1", "0"]));
    assert_eq!(order, keys(&["0", "+1", "b"]));
}

#[test]
fn huge_numbers_are_not_indices() {
    // A value beyond the native word is not treated as an index.
    let order = js_iter_order(&keys(&["99999999999999999999999999", "1"]));
    assert_eq!(order, keys(&["1", "99999999999999999999999999"]));
}

fn parse(s: &str) -> Option<usize> {
    parse_index(&s.chars().collect())
}

#[test]
fn index_parsing() {
    assert_eq!(parse("0"), Some(0));
    assert_eq!(parse("007"), Some(7));
    assert_eq!(parse("+0"), Some(0));
    assert_eq!(parse("10"), Some(10));
    assert_eq!(parse(""), None);
    assert_eq!(parse("+"), None);
    assert_eq!(parse("-1"), None);
    assert_eq!(parse("1x"), None);
    assert_eq!(parse(" 1"), None);
}
