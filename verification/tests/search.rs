use m4doc::decl::{Decl, DeclData, DeclKind};

fn decl(name: &str, kind: DeclKind, doc: &str) -> (String, Decl) {
    (
        name.to_string(),
        Decl {
            source_link: format!("src/{}", name),
            name: name.to_string(),
            kind,
            doc_link: format!("doc/{}", name),
            doc: doc.to_string(),
        },
    )
}

fn data(decls: Vec<(String, Decl)>) -> DeclData {
    DeclData::from_parts(decls, Vec::new(), Vec::new(), Vec::new(), Vec::new(), Vec::new())
}

fn names(results: &[Decl]) -> Vec<String> {
    results.iter().map(|d| d.name.clone()).collect()
}

#[test]
fn strict_search_finds_exactly_the_key() {
    let d = data(vec![decl("Nat.add", DeclKind::Def, ""), decl("Nat.succ", DeclKind::Ctor, "")]);
    let hit = d.search_strict("Nat.add");
    assert!(hit.is_some());
    assert_eq!(hit.unwrap().doc_link, "doc/Nat.add");
    assert!(d.search_strict("Nat.ad").is_none());
    assert!(d.search_strict("nat.add").is_none());
}

#[test]
fn search_ranks_the_better_name_first() {
    let d = data(vec![decl("Nat.succ", DeclKind::Ctor, ""), decl("Nat.add", DeclKind::Def, "")]);
    let res = d.search("nat.add", None, None);
    assert_eq!(names(&res), vec!["Nat.add".to_string()]);
}

#[test]
fn no_subsequence_is_excluded_whatever_the_kinds() {
    let d = data(vec![decl("Nat.succ", DeclKind::Ctor, "")]);
    assert!(d.search("nat.add", None, None).is_empty());
    let all_kinds = vec![DeclKind::Ctor, DeclKind::Def];
    assert!(d.search("nat.add", Some(&all_kinds), None).is_empty());
}

#[test]
fn empty_pattern_returns_all_by_ascending_name_length() {
    let d = data(vec![
        decl("bbbb", DeclKind::Def, ""),
        decl("aa", DeclKind::Def, ""),
        decl("ccc", DeclKind::Def, ""),
    ]);
    let res = d.search("", None, None);
    assert_eq!(names(&res), vec!["aa".to_string(), "ccc".to_string(), "bbbb".to_string()]);
}

#[test]
fn empty_pattern_ties_keep_canonical_order() {
    let d = data(vec![decl("ab", DeclKind::Def, ""), decl("aa", DeclKind::Def, "")]);
    let res = d.search("", None, None);
    assert_eq!(names(&res), vec!["ab".to_string(), "aa".to_string()]);
}

#[test]
fn kind_filter_excludes_other_kinds() {
    let d = data(vec![decl("Nat.add", DeclKind::Def, ""), decl("Nat.adc", DeclKind::Theorem, "")]);
    let only_theorems = vec![DeclKind::Theorem];
    let res = d.search("nat.ad", Some(&only_theorems), None);
    assert_eq!(names(&res), vec!["Nat.adc".to_string()]);
}

#[test]
fn truncation_respects_the_bound() {
    let mut decls = Vec::new();
    for i in 0..100 {
        decls.push(decl(&format!("name{:03}", i), DeclKind::Def, ""));
    }
    let d = data(decls);
    assert_eq!(d.search("", None, Some(2)).len(), 2);
    assert_eq!(d.search("", None, None).len(), 100);
    // A request defaults to thirty results and is capped at eighty.
    assert_eq!(d.search_request("", false, None, None).len(), 30);
    assert_eq!(d.search_request("", false, None, Some(200)).len(), 80);
    assert_eq!(d.search_request("", false, None, Some(5)).len(), 5);
}

#[test]
fn strict_request_returns_at_most_one() {
    let d = data(vec![decl("Nat.add", DeclKind::Def, ""), decl("Nat.adder", DeclKind::Def, "")]);
    let res = d.search_request("Nat.add", true, None, None);
    assert_eq!(names(&res), vec!["Nat.add".to_string()]);
    assert!(d.search_request("Nat.ad", true, None, None).is_empty());
}

#[test]
fn doc_fallback_clamps_weak_name_matches() {
    // "azzzbzzzczzzd" matches "abcd" at nine points, "azzbzzczzd" at six;
    // without the fallback the second would rank first.  The first one's
    // doc holds every pattern word, so its cost is clamped to exactly
    // three points, ahead of six.
    let d = data(vec![
        decl("azzzbzzzczzzd", DeclKind::Def, "this doc mentions abcd literally"),
        decl("azzbzzczzd", DeclKind::Def, "no hit here"),
    ]);
    let res = d.search("abcd", None, None);
    assert_eq!(names(&res), vec!["azzzbzzzczzzd".to_string(), "azzbzzczzd".to_string()]);
}

#[test]
fn doc_fallback_needs_a_pattern_over_three_bytes() {
    // Same shape with a three-byte pattern: the fallback stays off and the
    // closer name wins.
    let d = data(vec![
        decl("azzzbzzzc", DeclKind::Def, "this doc mentions abc literally"),
        decl("azzbzzc", DeclKind::Def, "no hit here"),
    ]);
    let res = d.search("abc", None, None);
    assert_eq!(names(&res), vec!["azzbzzc".to_string(), "azzzbzzzc".to_string()]);
}

#[test]
fn doc_fallback_never_outranks_strong_name_matches() {
    let d = data(vec![
        decl("azzzbzzzczzzd", DeclKind::Def, "this doc mentions abcd literally"),
        decl("abcd", DeclKind::Def, ""),
    ]);
    let res = d.search("abcd", None, None);
    assert_eq!(names(&res), vec!["abcd".to_string(), "azzzbzzzczzzd".to_string()]);
}

#[test]
fn pattern_whitespace_is_stripped_for_name_matching() {
    let d = data(vec![decl("Nat.add", DeclKind::Def, "")]);
    let res = d.search("nat add", None, None);
    assert_eq!(names(&res), vec!["Nat.add".to_string()]);
}

#[test]
fn duplicate_keys_keep_first_position_and_last_value() {
    let d = data(vec![
        decl("b", DeclKind::Def, "first"),
        decl("a", DeclKind::Def, ""),
        decl("b", DeclKind::Theorem, "second"),
    ]);
    let hit = d.search_strict("b").unwrap();
    assert_eq!(hit.doc, "second");
    // "b" keeps its first place in the enumeration order.
    let res = d.search("", None, None);
    assert_eq!(names(&res), vec!["b".to_string(), "a".to_string()]);
}
