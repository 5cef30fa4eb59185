use m4doc::matcher::{is_separator, match_case_sensitive, match_cost_chars};

fn cost(name: &str, pattern: &str) -> Option<u128> {
    let by_str = match_case_sensitive(name, pattern);
    let by_chars = match_cost_chars(&name.chars().collect(), &pattern.chars().collect());
    assert_eq!(by_str, by_chars);
    by_str
}

#[test]
fn separators() {
    assert!(is_separator('.'));
    assert!(is_separator('_'));
    assert!(!is_separator('a'));
    assert!(!is_separator(' '));
}

#[test]
fn exact_match_costs_nothing() {
    assert_eq!(cost("Nat.add", "Nat.add"), Some(0));
    assert_eq!(cost("a_b", "a_b"), Some(0));
    assert_eq!(cost("", ""), Some(0));
}

#[test]
fn case_mismatch_costs_half_a_point_each() {
    // One mismatched position: half a point, i.e. four eighths.
    assert_eq!(cost("Nat.add", "nat.add"), Some(4));
    // Two mismatched positions.
    assert_eq!(cost("AB", "ab"), Some(8));
}

#[test]
fn empty_pattern_costs_an_eighth_per_byte() {
    assert_eq!(cost("abc", ""), Some(3));
    assert_eq!(cost("", ""), Some(0));
    // A two-byte character counts as two bytes.
    assert_eq!(cost("é", ""), Some(2));
}

#[test]
fn gaps_cost_a_point_per_byte() {
    // 'a' matches at no cost, three skipped bytes before 'b' cost a
    // point (eight eighths) each.
    assert_eq!(cost("azzzb", "ab"), Some(24));
}

#[test]
fn unmatched_separator_is_cheap() {
    // Skipping over '.' costs an eighth per byte.
    assert_eq!(cost("a.b", "ab"), Some(1));
}

#[test]
fn matched_separator_gap_is_cheap() {
    // The gap before a matched separator pattern character is weighted an
    // eighth per byte.
    assert_eq!(cost("azz.b", ".b"), Some(3));
}

#[test]
fn trailing_suffix_costs_an_eighth_per_byte() {
    assert_eq!(cost("abzzzz", "ab"), Some(4));
}

#[test]
fn no_subsequence_means_no_match() {
    assert_eq!(cost("Nat.succ", "nat.add"), None);
    assert_eq!(cost("", "a"), None);
    assert_eq!(cost("abc", "abcd"), None);
}
