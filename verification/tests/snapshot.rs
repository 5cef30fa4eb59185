use m4doc::decl::{Decl, DeclData, DeclKind};

fn decl(name: &str, doc_link: &str) -> (String, Decl) {
    (
        name.to_string(),
        Decl {
            source_link: String::new(),
            name: name.to_string(),
            kind: DeclKind::Instance,
            doc_link: doc_link.to_string(),
            doc: String::new(),
        },
    )
}

fn strings(v: &[&str]) -> Vec<String> {
    v.iter().map(|s| s.to_string()).collect()
}

fn sample() -> DeclData {
    DeclData::from_parts(
        vec![decl("instA", "doc/instA"), decl("instB", "doc/instB")],
        vec![("MyClass".to_string(), strings(&["instA", "instB", "ghost"]))],
        vec![("MyType".to_string(), strings(&["instB"]))],
        strings(&["Root"]),
        vec![("Mod.A".to_string(), strings(&["Mod.B", "Mod.C"]))],
        vec![
            ("Mod.A".to_string(), "doc/Mod.A".to_string()),
            ("Mod.B".to_string(), "doc/Mod.B".to_string()),
        ],
    )
}

#[test]
fn unknown_class_gives_an_empty_list_not_an_error() {
    let d = sample();
    assert_eq!(d.instances_for_class("UnknownClass"), Vec::<String>::new());
}

#[test]
fn known_class_gives_its_instances_in_order() {
    let d = sample();
    assert_eq!(d.instances_for_class("MyClass"), strings(&["instA", "instB", "ghost"]));
    assert_eq!(d.instances_for_type("MyType"), strings(&["instB"]));
    assert_eq!(d.instances_for_type("NoSuchType"), Vec::<String>::new());
}

#[test]
fn decl_links_resolve_or_default_to_empty() {
    let d = sample();
    assert_eq!(d.decl_name_to_link("instA"), "doc/instA");
    assert_eq!(d.decl_name_to_link("missing"), "");
}

#[test]
fn module_queries() {
    let d = sample();
    assert_eq!(d.module_imported_by("Mod.A"), strings(&["Mod.B", "Mod.C"]));
    assert_eq!(d.module_imported_by("Mod.Z"), Vec::<String>::new());
    assert_eq!(d.module_name_to_link("Mod.A"), "doc/Mod.A");
    assert_eq!(d.module_name_to_link("Mod.Z"), "");
}

#[test]
fn annotate_instances_resolves_links_and_defaults() {
    let d = sample();
    let rows = d.annotate_instances(&strings(&["MyClass", "Nowhere"]));
    assert_eq!(rows.len(), 2);
    let first: Vec<(String, String)> =
        rows[0].iter().map(|l| (l.name.clone(), l.link.clone())).collect();
    // "ghost" resolves to no declaration, so its link defaults to empty.
    assert_eq!(
        first,
        vec![
            ("instA".to_string(), "doc/instA".to_string()),
            ("instB".to_string(), "doc/instB".to_string()),
            ("ghost".to_string(), String::new()),
        ]
    );
    assert!(rows[1].is_empty());
}

#[test]
fn annotate_instances_for_uses_the_type_map() {
    let d = sample();
    let rows = d.annotate_instances_for(&strings(&["MyType"]));
    assert_eq!(rows.len(), 1);
    assert_eq!(rows[0].len(), 1);
    assert_eq!(rows[0][0].name, "instB");
    assert_eq!(rows[0][0].link, "doc/instB");
}

#[test]
fn linked_imported_by_resolves_module_links() {
    let d = sample();
    let rows = d.linked_imported_by("Mod.A");
    let got: Vec<(String, String)> = rows.iter().map(|l| (l.name.clone(), l.link.clone())).collect();
    // "Mod.C" has no module entry, so its link defaults to empty.
    assert_eq!(
        got,
        vec![
            ("Mod.B".to_string(), "doc/Mod.B".to_string()),
            ("Mod.C".to_string(), String::new()),
        ]
    );
    assert!(d.linked_imported_by("Mod.Z").is_empty());
}
