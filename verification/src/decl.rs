//! The declaration snapshot and its query operations.
//!
//! A snapshot is loaded once, is never mutated afterwards, and is shared
//! by every query.  It owns the declaration map, the instance, importer
//! and module-link maps, and the canonical enumeration order over the
//! declaration keys, computed once at construction.

use crate::imap::{
    decl_map_entries, decl_map_get, decl_map_insert, decl_map_keys, decl_map_keys_vec,
    decl_map_with_capacity, link_map_entries, link_map_get, link_map_insert, link_map_with_capacity,
    list_map_entries, list_map_get, list_map_insert, list_map_with_capacity,
};
use crate::matcher::{is_ci_subsequence, match_cost_chars, spec_match_cost};
use crate::order::{
    canonical_order, js_iter_order, lemma_canonical_order_contains, lemma_sort_pairs_map,
    lemma_sort_pairs_permutation, pairs_int, sort_indexed, sort_pairs, string_views,
};
use crate::text::{
    contains_ci, is_ci_substring, remove_whitespace, seq_views, split_whitespace, split_ws,
    str_chars, strip_ws, utf8_len, utf8_len_chars,
};
use vstd::prelude::*;

verus! {

/// The closed set of declaration categories.
#[derive(Clone, Copy, PartialEq, Eq, Structural, Debug)]
pub enum DeclKind {
    Ctor,
    Def,
    Instance,
    Theorem,
    Axiom,
    Inductive,
    Structure,
    Class,
    Opaque,
}

/// A named entity of the documented corpus.
#[derive(Debug)]
pub struct Decl {
    pub source_link: String,
    pub name: String,
    pub kind: DeclKind,
    pub doc_link: String,
    pub doc: String,
}

/// The mathematical value of a declaration.
pub ghost struct DeclView {
    pub source_link: Seq<char>,
    pub name: Seq<char>,
    pub kind: DeclKind,
    pub doc_link: Seq<char>,
    pub doc: Seq<char>,
}

impl View for Decl {
    type V = DeclView;

    open spec fn view(&self) -> DeclView {
        DeclView {
            source_link: self.source_link@,
            name: self.name@,
            kind: self.kind,
            doc_link: self.doc_link@,
            doc: self.doc@,
        }
    }
}

impl DeepView for Decl {
    type V = DeclView;

    open spec fn deep_view(&self) -> DeclView {
        self.view()
    }
}

impl Clone for Decl {
    fn clone(&self) -> (r: Decl)
        ensures
            r@ == self@,
    {
        Decl {
            source_link: self.source_link.clone(),
            name: self.name.clone(),
            kind: self.kind,
            doc_link: self.doc_link.clone(),
            doc: self.doc.clone(),
        }
    }
}

/// A name together with the documentation link it resolves to.
#[derive(Debug)]
pub struct LinkInfo {
    pub name: String,
    pub link: String,
}

impl View for LinkInfo {
    type V = (Seq<char>, Seq<char>);

    open spec fn view(&self) -> (Seq<char>, Seq<char>) {
        (self.name@, self.link@)
    }
}

/// The views of a run of link infos.
pub open spec fn link_info_views(s: Seq<LinkInfo>) -> Seq<(Seq<char>, Seq<char>)> {
    s.map_values(|l: LinkInfo| l@)
}

/// The views of name-and-declaration pairs.
pub open spec fn decl_pairs(s: Seq<(String, Decl)>) -> Seq<(Seq<char>, DeclView)> {
    s.map_values(|p: (String, Decl)| (p.0@, p.1@))
}

/// The views of name-and-name-list pairs.
pub open spec fn list_pairs(s: Seq<(String, Vec<String>)>) -> Seq<(Seq<char>, Seq<Seq<char>>)> {
    s.map_values(|p: (String, Vec<String>)| (p.0@, string_views(p.1@)))
}

/// The views of name-and-link pairs.
pub open spec fn link_pairs(s: Seq<(String, String)>) -> Seq<(Seq<char>, Seq<char>)> {
    s.map_values(|p: (String, String)| (p.0@, p.1@))
}

/// The key order an insertion-ordered map holds after inserting the pairs
/// in turn: a key already present keeps its place, a new key goes last.
pub open spec fn inserted_keys<V>(ps: Seq<(Seq<char>, V)>) -> Seq<Seq<char>>
    decreases ps.len(),
{
    if ps.len() == 0 {
        Seq::empty()
    } else {
        let prior = inserted_keys(ps.drop_last());
        if prior.contains(ps.last().0) {
            prior
        } else {
            prior.push(ps.last().0)
        }
    }
}

/// The mapping an insertion-ordered map holds after inserting the pairs in
/// turn: the last value given for a key wins.
pub open spec fn inserted_map<V>(ps: Seq<(Seq<char>, V)>) -> Map<Seq<char>, V>
    decreases ps.len(),
{
    if ps.len() == 0 {
        Map::empty()
    } else {
        inserted_map(ps.drop_last()).insert(ps.last().0, ps.last().1)
    }
}

/// The loaded, immutable dataset: the declaration index and its companion
/// mappings, with the canonical enumeration order over the declaration
/// keys computed once at construction.
#[derive(Debug)]
pub struct DeclData {
    declarations: indexmap::IndexMap<String, Decl>,
    instances: indexmap::IndexMap<String, Vec<String>>,
    instances_for: indexmap::IndexMap<String, Vec<String>>,
    imports: Vec<String>,
    imported_by: indexmap::IndexMap<String, Vec<String>>,
    modules: indexmap::IndexMap<String, String>,
    iter_order: Vec<String>,
}

impl DeclData {
    /// The declaration keys, in insertion order.
    pub closed spec fn decl_keys(&self) -> Seq<Seq<char>> {
        decl_map_keys(self.declarations)
    }

    /// The declarations, by fully-qualified name.
    pub closed spec fn decls(&self) -> Map<Seq<char>, DeclView> {
        decl_map_entries(self.declarations)
    }

    /// The instance lists, by class name.
    pub closed spec fn instances_map(&self) -> Map<Seq<char>, Seq<Seq<char>>> {
        list_map_entries(self.instances)
    }

    /// The instance lists, by type name.
    pub closed spec fn instances_for_map(&self) -> Map<Seq<char>, Seq<Seq<char>>> {
        list_map_entries(self.instances_for)
    }

    /// The importing modules, by module name.
    pub closed spec fn imported_by_map(&self) -> Map<Seq<char>, Seq<Seq<char>>> {
        list_map_entries(self.imported_by)
    }

    /// The documentation links, by module name.
    pub closed spec fn modules_map(&self) -> Map<Seq<char>, Seq<char>> {
        link_map_entries(self.modules)
    }

    /// The flat import list, retained but not consumed by queries.
    pub closed spec fn imports_view(&self) -> Seq<Seq<char>> {
        string_views(self.imports@)
    }

    /// The canonical enumeration order over the declaration keys.
    pub closed spec fn order_view(&self) -> Seq<Seq<char>> {
        string_views(self.iter_order@)
    }

    /// Well-formedness: the cached order is the canonical enumeration
    /// order of the declaration keys, the keys are unique, and keys and
    /// mapping agree.
    pub open spec fn wf(&self) -> bool {
        &&& self.order_view() == canonical_order(self.decl_keys())
        &&& self.decl_keys().no_duplicates()
        &&& (forall|k: Seq<char>|
            #[trigger] self.decl_keys().contains(k) <==> self.decls().contains_key(k))
        &&& (forall|i: int|
            0 <= i < self.order_view().len() ==> self.decls().contains_key(
                #[trigger] self.order_view()[i],
            ))
    }

    /// Build the snapshot from its loaded parts, inserting each mapping's
    /// pairs in order and computing the canonical enumeration order once.
    pub fn from_parts(
        declarations: Vec<(String, Decl)>,
        instances: Vec<(String, Vec<String>)>,
        instances_for: Vec<(String, Vec<String>)>,
        imports: Vec<String>,
        imported_by: Vec<(String, Vec<String>)>,
        modules: Vec<(String, String)>,
    ) -> (r: DeclData)
        ensures
            r.wf(),
            r.decls() == inserted_map(decl_pairs(declarations@)),
            r.decl_keys() == inserted_keys(decl_pairs(declarations@)),
            r.instances_map() == inserted_map(list_pairs(instances@)),
            r.instances_for_map() == inserted_map(list_pairs(instances_for@)),
            r.imported_by_map() == inserted_map(list_pairs(imported_by@)),
            r.modules_map() == inserted_map(link_pairs(modules@)),
            r.imports_view() == string_views(imports@),
    {
        let mut dm = decl_map_with_capacity(declarations.len());
        let mut di: usize = 0;
        proof {
            assert(decl_pairs(declarations@.take(0)) =~= Seq::<(Seq<char>, DeclView)>::empty());
        }
        while di < declarations.len()
            invariant
                di <= declarations@.len(),
                decl_map_entries(dm) == inserted_map(decl_pairs(declarations@.take(di as int))),
                decl_map_keys(dm) == inserted_keys(decl_pairs(declarations@.take(di as int))),
                decl_map_keys(dm).no_duplicates(),
                forall|k: Seq<char>|
                    #[trigger] decl_map_keys(dm).contains(k) <==> decl_map_entries(
                        dm,
                    ).contains_key(k),
            decreases declarations@.len() - di,
        {
            let p = &declarations[di];
            let ghost prev_keys = decl_map_keys(dm);
            let ghost prev_entries = decl_map_entries(dm);
            decl_map_insert(&mut dm, p.0.clone(), p.1.clone());
            di = di + 1;
            proof {
                let ps = decl_pairs(declarations@.take(di as int));
                assert(ps.drop_last() =~= decl_pairs(declarations@.take(di - 1)));
                assert(ps.last() == (declarations@[di - 1].0@, declarations@[di - 1].1@));
                assert(prev_keys.contains(p.0@) <==> prev_entries.contains_key(p.0@));
                if !prev_keys.contains(p.0@) {
                    assert forall|i: int, j: int|
                        0 <= i < decl_map_keys(dm).len() && 0 <= j < decl_map_keys(dm).len() && i
                            != j implies decl_map_keys(dm)[i] != decl_map_keys(dm)[j] by {
                        if i < prev_keys.len() && j < prev_keys.len() {
                            assert(prev_keys[i] == decl_map_keys(dm)[i]);
                        } else if i == prev_keys.len() {
                            assert(!prev_keys.contains(decl_map_keys(dm)[i]));
                        } else if j == prev_keys.len() {
                            assert(!prev_keys.contains(decl_map_keys(dm)[j]));
                        }
                    }
                    assert(decl_map_keys(dm).no_duplicates());
                }
                assert forall|k: Seq<char>| #[trigger] decl_map_keys(dm).contains(k) implies
                    decl_map_entries(dm).contains_key(k) by {
                    if k != p.0@ {
                        assert(prev_keys.contains(k)) by {
                            let w = choose|w: int|
                                0 <= w < decl_map_keys(dm).len() && decl_map_keys(dm)[w] == k;
                            assert(w < prev_keys.len());
                            assert(prev_keys[w] == k);
                        }
                        assert(prev_entries.contains_key(k));
                    }
                }
                assert forall|k: Seq<char>| #[trigger] decl_map_entries(dm).contains_key(k)
                    implies decl_map_keys(dm).contains(k) by {
                    if k == p.0@ {
                        if prev_entries.contains_key(p.0@) {
                            assert(prev_keys.contains(k));
                            let w = choose|w: int|
                                0 <= w < prev_keys.len() && prev_keys[w] == k;
                            assert(decl_map_keys(dm)[w] == k);
                        } else {
                            assert(decl_map_keys(dm) == prev_keys.push(k));
                            assert(decl_map_keys(dm)[decl_map_keys(dm).len() - 1] == k);
                        }
                    } else {
                        assert(prev_entries.contains_key(k));
                        assert(prev_keys.contains(k));
                        let w = choose|w: int| 0 <= w < prev_keys.len() && prev_keys[w] == k;
                        if prev_entries.contains_key(p.0@) {
                            assert(decl_map_keys(dm)[w] == k);
                        } else {
                            assert(decl_map_keys(dm)[w] == k);
                        }
                    }
                }
            }
        }
        proof {
            assert(declarations@.take(declarations@.len() as int) =~= declarations@);
        }
        let mut im = list_map_with_capacity(instances.len());
        let mut ii: usize = 0;
        proof {
            assert(list_pairs(instances@.take(0)) =~= Seq::<(Seq<char>, Seq<Seq<char>>)>::empty());
        }
        while ii < instances.len()
            invariant
                ii <= instances@.len(),
                list_map_entries(im) == inserted_map(list_pairs(instances@.take(ii as int))),
            decreases instances@.len() - ii,
        {
            let p = &instances[ii];
            list_map_insert(&mut im, p.0.clone(), clone_string_vec(&p.1));
            ii = ii + 1;
            proof {
                let ps = list_pairs(instances@.take(ii as int));
                assert(ps.drop_last() =~= list_pairs(instances@.take(ii - 1)));
                assert(ps.last() == (instances@[ii - 1].0@, string_views(instances@[ii - 1].1@)));
            }
        }
        proof {
            assert(instances@.take(instances@.len() as int) =~= instances@);
        }
        let mut ifm = list_map_with_capacity(instances_for.len());
        let mut fi: usize = 0;
        proof {
            assert(list_pairs(instances_for@.take(0)) =~= Seq::<
                (Seq<char>, Seq<Seq<char>>),
            >::empty());
        }
        while fi < instances_for.len()
            invariant
                fi <= instances_for@.len(),
                list_map_entries(ifm) == inserted_map(list_pairs(instances_for@.take(fi as int))),
            decreases instances_for@.len() - fi,
        {
            let p = &instances_for[fi];
            list_map_insert(&mut ifm, p.0.clone(), clone_string_vec(&p.1));
            fi = fi + 1;
            proof {
                let ps = list_pairs(instances_for@.take(fi as int));
                assert(ps.drop_last() =~= list_pairs(instances_for@.take(fi - 1)));
                assert(ps.last() == (instances_for@[fi - 1].0@, string_views(
                    instances_for@[fi - 1].1@,
                )));
            }
        }
        proof {
            assert(instances_for@.take(instances_for@.len() as int) =~= instances_for@);
        }
        let mut ibm = list_map_with_capacity(imported_by.len());
        let mut bi: usize = 0;
        proof {
            assert(list_pairs(imported_by@.take(0)) =~= Seq::<
                (Seq<char>, Seq<Seq<char>>),
            >::empty());
        }
        while bi < imported_by.len()
            invariant
                bi <= imported_by@.len(),
                list_map_entries(ibm) == inserted_map(list_pairs(imported_by@.take(bi as int))),
            decreases imported_by@.len() - bi,
        {
            let p = &imported_by[bi];
            list_map_insert(&mut ibm, p.0.clone(), clone_string_vec(&p.1));
            bi = bi + 1;
            proof {
                let ps = list_pairs(imported_by@.take(bi as int));
                assert(ps.drop_last() =~= list_pairs(imported_by@.take(bi - 1)));
                assert(ps.last() == (imported_by@[bi - 1].0@, string_views(
                    imported_by@[bi - 1].1@,
                )));
            }
        }
        proof {
            assert(imported_by@.take(imported_by@.len() as int) =~= imported_by@);
        }
        let mut mm = link_map_with_capacity(modules.len());
        let mut mi: usize = 0;
        proof {
            assert(link_pairs(modules@.take(0)) =~= Seq::<(Seq<char>, Seq<char>)>::empty());
        }
        while mi < modules.len()
            invariant
                mi <= modules@.len(),
                link_map_entries(mm) == inserted_map(link_pairs(modules@.take(mi as int))),
            decreases modules@.len() - mi,
        {
            let p = &modules[mi];
            link_map_insert(&mut mm, p.0.clone(), p.1.clone());
            mi = mi + 1;
            proof {
                let ps = link_pairs(modules@.take(mi as int));
                assert(ps.drop_last() =~= link_pairs(modules@.take(mi - 1)));
                assert(ps.last() == (modules@[mi - 1].0@, modules@[mi - 1].1@));
            }
        }
        proof {
            assert(modules@.take(modules@.len() as int) =~= modules@);
        }
        let keys = decl_map_keys_vec(&dm);
        let iter_order = js_iter_order(&keys);
        let r = DeclData {
            declarations: dm,
            instances: im,
            instances_for: ifm,
            imports,
            imported_by: ibm,
            modules: mm,
            iter_order,
        };
        proof {
            assert forall|i: int| 0 <= i < r.order_view().len() implies r.decls().contains_key(
                #[trigger] r.order_view()[i],
            ) by {
                assert(canonical_order(r.decl_keys()).contains(r.order_view()[i]));
                lemma_canonical_order_contains(r.decl_keys(), r.order_view()[i]);
            }
        }
        r
    }

    /// Exact-key lookup: the declaration stored under exactly this name,
    /// bypassing the matcher.
    pub fn search_strict<'s>(&'s self, text: &str) -> (r: Option<&'s Decl>)
        ensures
            r is Some <==> self.decls().contains_key(text@),
            r matches Some(d) ==> d@ == self.decls()[text@],
    {
        decl_map_get(&self.declarations, text)
    }

    /// The instance declarations of a class, or nothing for an unknown
    /// class.
    pub fn instances_for_class(&self, name: &str) -> (r: Vec<String>)
        ensures
            string_views(r@) == (if self.instances_map().contains_key(name@) {
                self.instances_map()[name@]
            } else {
                Seq::<Seq<char>>::empty()
            }),
    {
        match list_map_get(&self.instances, name) {
            Some(v) => clone_string_vec(v),
            None => Vec::new(),
        }
    }

    /// The instance declarations involving a type, or nothing for an
    /// unknown type.
    pub fn instances_for_type(&self, name: &str) -> (r: Vec<String>)
        ensures
            string_views(r@) == (if self.instances_for_map().contains_key(name@) {
                self.instances_for_map()[name@]
            } else {
                Seq::<Seq<char>>::empty()
            }),
    {
        match list_map_get(&self.instances_for, name) {
            Some(v) => clone_string_vec(v),
            None => Vec::new(),
        }
    }

    /// The documentation link of a declaration, or the empty string for an
    /// unknown name.
    pub fn decl_name_to_link(&self, name: &str) -> (r: String)
        ensures
            r@ == doc_link_for(self.decls(), name@),
    {
        match decl_map_get(&self.declarations, name) {
            Some(d) => d.doc_link.clone(),
            None => String::new(),
        }
    }

    /// The modules importing a module, or nothing for an unknown module.
    pub fn module_imported_by(&self, name: &str) -> (r: Vec<String>)
        ensures
            string_views(r@) == (if self.imported_by_map().contains_key(name@) {
                self.imported_by_map()[name@]
            } else {
                Seq::<Seq<char>>::empty()
            }),
    {
        match list_map_get(&self.imported_by, name) {
            Some(v) => clone_string_vec(v),
            None => Vec::new(),
        }
    }

    /// The documentation link of a module, or the empty string for an
    /// unknown module.
    pub fn module_name_to_link(&self, name: &str) -> (r: String)
        ensures
            r@ == module_link_for(self.modules_map(), name@),
    {
        match link_map_get(&self.modules, name) {
            Some(v) => v.clone(),
            None => String::new(),
        }
    }

    /// For each given class name, its instances annotated with the
    /// documentation link of each instance declaration; an unknown name
    /// gets an empty list.
    pub fn annotate_instances(&self, names: &Vec<String>) -> (r: Vec<Vec<LinkInfo>>)
        ensures
            nested_link_views(r@) == annotate_names(
                self.decls(),
                self.instances_map(),
                string_views(names@),
            ),
    {
        annotate_into(&self.declarations, &self.instances, names)
    }

    /// For each given type name, its instances annotated with the
    /// documentation link of each instance declaration; an unknown name
    /// gets an empty list.
    pub fn annotate_instances_for(&self, names: &Vec<String>) -> (r: Vec<Vec<LinkInfo>>)
        ensures
            nested_link_views(r@) == annotate_names(
                self.decls(),
                self.instances_for_map(),
                string_views(names@),
            ),
    {
        annotate_into(&self.declarations, &self.instances_for, names)
    }

    /// The modules importing a module, each annotated with its module
    /// documentation link; an unknown module gets an empty list.
    pub fn linked_imported_by(&self, module_name: &str) -> (r: Vec<LinkInfo>)
        ensures
            link_info_views(r@) == (if self.imported_by_map().contains_key(module_name@) {
                annotate_modules(self.modules_map(), self.imported_by_map()[module_name@])
            } else {
                Seq::<(Seq<char>, Seq<char>)>::empty()
            }),
    {
        let mut r: Vec<LinkInfo> = Vec::new();
        let names = match list_map_get(&self.imported_by, module_name) {
            Some(v) => v,
            None => {
                return r;
            },
        };
        let n = names.len();
        let mut i: usize = 0;
        proof {
            assert(link_info_views(r@) =~= annotate_modules(
                self.modules_map(),
                string_views(names@).take(0),
            ));
        }
        while i < n
            invariant
                i <= n,
                n == names@.len(),
                string_views(names@) == self.imported_by_map()[module_name@],
                link_info_views(r@) == annotate_modules(
                    self.modules_map(),
                    string_views(names@).take(i as int),
                ),
            decreases n - i,
        {
            let name = names[i].clone();
            let link = self.module_name_to_link(name.as_str());
            let ghost prev = r@;
            r.push(LinkInfo { name, link });
            i = i + 1;
            proof {
                assert(link_info_views(r@) =~= link_info_views(prev).push(
                    (names@[i - 1]@, module_link_for(self.modules_map(), names@[i - 1]@)),
                ));
                assert(string_views(names@).take(i as int) =~= string_views(names@).take(
                    i - 1,
                ).push(names@[i - 1]@));
                assert(annotate_modules(self.modules_map(), string_views(names@).take(i as int))
                    =~= annotate_modules(
                    self.modules_map(),
                    string_views(names@).take(i - 1),
                ).push((names@[i - 1]@, module_link_for(self.modules_map(), names@[i - 1]@))));
            }
        }
        proof {
            assert(string_views(names@).take(n as int) =~= string_views(names@));
        }
        r
    }

    /// Fuzzy search: score every declaration of an allowed kind against
    /// the whitespace-stripped pattern, let doc-text hits surface at a
    /// clamped cost, sort by ascending cost with ties in canonical
    /// enumeration order, and truncate to `max_results` when given.
    pub fn search(
        &self,
        pattern: &str,
        allowed_kinds: Option<&Vec<DeclKind>>,
        max_results: Option<usize>,
    ) -> (r: Vec<Decl>)
        requires
            self.wf(),
        ensures
            decl_views(r@) == spec_search(
                self.decls(),
                self.order_view(),
                pattern@,
                kinds_view(allowed_kinds),
                match max_results {
                    Some(m) => Some(m as int),
                    None => None,
                },
            ),
            max_results matches Some(m) ==> r@.len() <= m,
    {
        let pchars = str_chars(pattern);
        let stripped = remove_whitespace(&pchars);
        let words = split_whitespace(&pchars);
        let fallback_on = utf8_len_chars(&pchars) > 3;
        let ghost kv = kinds_view(allowed_kinds);
        let ghost wv = seq_views(words@);
        let mut hits: Vec<Decl> = Vec::new();
        let mut pairs: Vec<(u128, usize)> = Vec::new();
        let n = self.iter_order.len();
        let mut ki: usize = 0;
        proof {
            assert(self.order_view().take(0) =~= Seq::<Seq<char>>::empty());
            assert(pairs_int(pairs@).map_values(
                |p: (int, usize)| (p.0, decl_views(hits@)[p.1 as int]),
            ) =~= scored_candidates(
                self.decls(),
                self.order_view().take(0),
                stripped@,
                wv,
                fallback_on,
                kv,
            ));
        }
        while ki < n
            invariant
                self.wf(),
                ki <= n,
                n == self.order_view().len(),
                stripped@ == strip_ws(pchars@),
                wv == seq_views(words@),
                kv == kinds_view(allowed_kinds),
                hits@.len() == pairs@.len(),
                forall|j: int| 0 <= j < pairs@.len() ==> (#[trigger] pairs@[j]).1 == j,
                pairs_int(pairs@).map_values(
                    |p: (int, usize)| (p.0, decl_views(hits@)[p.1 as int]),
                ) == scored_candidates(
                    self.decls(),
                    self.order_view().take(ki as int),
                    stripped@,
                    wv,
                    fallback_on,
                    kv,
                ),
            decreases n - ki,
        {
            let key = &self.iter_order[ki];
            proof {
                assert(self.order_view()[ki as int] == key@);
                assert(self.decls().contains_key(key@));
            }
            let found = decl_map_get(&self.declarations, key.as_str());
            let d = found.unwrap();
            let allowed = match allowed_kinds {
                Some(ks) => kinds_contains(ks, d.kind),
                None => true,
            };
            let ghost prev_hits = hits@;
            let ghost prev_pairs = pairs@;
            if allowed {
                let name_chars = str_chars(d.name.as_str());
                match match_cost_chars(&name_chars, &stripped) {
                    Some(cost) => {
                        let mut cost = cost;
                        if fallback_on && cost >= 24 {
                            let doc_chars = str_chars(d.doc.as_str());
                            if all_words_hit(&words, &doc_chars) {
                                cost = 24;
                            }
                        }
                        pairs.push((cost, hits.len()));
                        hits.push(d.clone());
                        proof {
                            assert(scored_entry(self.decls()[key@], stripped@, wv, fallback_on)
                                == Some((cost as int, self.decls()[key@])));
                        }
                    },
                    None => {
                        proof {
                            assert(scored_entry(self.decls()[key@], stripped@, wv, fallback_on)
                                is None);
                        }
                    },
                }
            }
            ki = ki + 1;
            proof {
                let f = |p: (int, usize)| (p.0, decl_views(hits@)[p.1 as int]);
                let fp = |p: (int, usize)| (p.0, decl_views(prev_hits)[p.1 as int]);
                assert(self.order_view().take(ki as int).drop_last() =~= self.order_view().take(
                    ki - 1,
                ));
                assert(self.order_view().take(ki as int).last() == self.order_view()[ki - 1]);
                assert forall|j: int| 0 <= j < prev_pairs.len() implies f(
                    #[trigger] pairs_int(prev_pairs)[j],
                ) == fp(pairs_int(prev_pairs)[j]) by {
                    assert(prev_pairs[j].1 == j);
                    assert(decl_views(hits@)[j] == decl_views(prev_hits)[j]);
                }
                if hits@.len() == prev_hits.len() {
                    assert(pairs_int(pairs@).map_values(f) =~= pairs_int(prev_pairs).map_values(
                        fp,
                    ));
                } else {
                    assert(pairs_int(pairs@).drop_last() =~= pairs_int(prev_pairs));
                    assert(pairs_int(pairs@).map_values(f) =~= pairs_int(prev_pairs).map_values(
                        fp,
                    ).push(f(pairs_int(pairs@).last())));
                    assert(decl_views(hits@)[hits@.len() - 1] == self.decls()[self.order_view()[ki
                        - 1]]);
                }
            }
        }
        proof {
            assert(self.order_view().take(n as int) =~= self.order_view());
        }
        let sorted = sort_indexed(&pairs);
        let ghost f = |idx: usize| decl_views(hits@)[idx as int];
        proof {
            lemma_sort_pairs_map(pairs_int(pairs@), f);
            assert(pairs_int(pairs@).map_values(|p: (int, usize)| (p.0, f(p.1))) =~= pairs_int(
                pairs@,
            ).map_values(|p: (int, usize)| (p.0, decl_views(hits@)[p.1 as int])));
            lemma_sort_pairs_permutation(pairs_int(pairs@));
        }
        let ghost scored = scored_candidates(
            self.decls(),
            self.order_view(),
            stripped@,
            wv,
            fallback_on,
            kv,
        );
        let limit: usize = match max_results {
            Some(m) => {
                if m < sorted.len() {
                    m
                } else {
                    sorted.len()
                }
            },
            None => sorted.len(),
        };
        let mut out: Vec<Decl> = Vec::new();
        let mut j: usize = 0;
        proof {
            let mapped = pairs_int(sorted@).map_values(|p: (int, usize)| (p.0, f(p.1)));
            assert(decl_views(out@) =~= mapped.map_values(|p: (int, DeclView)| p.1).take(0));
        }
        while j < limit
            invariant
                j <= limit,
                limit <= sorted@.len(),
                hits@.len() == pairs@.len(),
                f == (|idx: usize| decl_views(hits@)[idx as int]),
                pairs_int(sorted@) == sort_pairs(pairs_int(pairs@)),
                pairs_int(sorted@).to_multiset() == pairs_int(pairs@).to_multiset(),
                forall|w: int| 0 <= w < pairs@.len() ==> (#[trigger] pairs@[w]).1 == w,
                decl_views(out@) == pairs_int(sorted@).map_values(
                    |p: (int, usize)| (p.0, f(p.1)),
                ).map_values(|p: (int, DeclView)| p.1).take(j as int),
            decreases limit - j,
        {
            let idx = sorted[j].1;
            proof {
                broadcast use vstd::seq_lib::group_seq_properties;

                let pj = pairs_int(sorted@)[j as int];
                assert(pairs_int(sorted@).to_multiset().contains(pj));
                assert(pairs_int(pairs@).contains(pj));
                let w = choose|w: int|
                    0 <= w < pairs_int(pairs@).len() && pairs_int(pairs@)[w] == pj;
                assert(pairs@[w].1 == w);
                assert(pj.1 < hits@.len());
            }
            let ghost prev_out = out@;
            out.push(hits[idx].clone());
            j = j + 1;
            proof {
                let mapped = pairs_int(sorted@).map_values(|p: (int, usize)| (p.0, f(p.1)));
                assert(decl_views(out@) =~= decl_views(prev_out).push(hits@[idx as int]@));
                let proj = mapped.map_values(|p: (int, DeclView)| p.1);
                assert(proj.take(j as int) =~= proj.take(j - 1).push(proj[j - 1]));
            }
        }
        proof {
            let mapped = pairs_int(sorted@).map_values(|p: (int, usize)| (p.0, f(p.1)));
            let proj = mapped.map_values(|p: (int, DeclView)| p.1);
            assert(mapped == sort_pairs(scored));
            assert(proj =~= sort_pairs(scored).map_values(|p: (int, DeclView)| p.1));
            assert(proj.len() == sorted@.len());
            match max_results {
                Some(m) => {
                    assert(decl_views(out@) =~= proj.take(
                        if m < proj.len() {
                            m as int
                        } else {
                            proj.len() as int
                        },
                    ));
                },
                None => {
                    assert(decl_views(out@) =~= proj.take(proj.len() as int));
                    assert(proj.take(proj.len() as int) =~= proj);
                },
            }
        }
        out
    }

    /// Answer one search request: a strict request looks the pattern up as
    /// an exact key and returns at most that one declaration; a fuzzy
    /// request searches with the requested result bound, which defaults to
    /// thirty and is capped at eighty.
    pub fn search_request(
        &self,
        pattern: &str,
        strict: bool,
        allowed_kinds: Option<&Vec<DeclKind>>,
        max_results: Option<usize>,
    ) -> (r: Vec<Decl>)
        requires
            self.wf(),
        ensures
            strict && self.decls().contains_key(pattern@) ==> decl_views(r@) == seq![
                self.decls()[pattern@],
            ],
            strict && !self.decls().contains_key(pattern@) ==> r@.len() == 0,
            !strict ==> ({
                let req: int = if max_results is Some {
                    max_results->Some_0 as int
                } else {
                    30
                };
                let lim: int = if req < 80 {
                    req
                } else {
                    80
                };
                decl_views(r@) == spec_search(
                    self.decls(),
                    self.order_view(),
                    pattern@,
                    kinds_view(allowed_kinds),
                    Some(lim),
                ) && r@.len() <= lim
            }),
    {
        if strict {
            let mut r: Vec<Decl> = Vec::new();
            match self.search_strict(pattern) {
                Some(d) => {
                    r.push(d.clone());
                    proof {
                        assert(decl_views(r@) =~= seq![self.decls()[pattern@]]);
                    }
                },
                None => {},
            }
            r
        } else {
            let requested: usize = match max_results {
                Some(m) => m,
                None => 30,
            };
            let limit: usize = if requested < 80 {
                requested
            } else {
                80
            };
            let r = self.search(pattern, allowed_kinds, Some(limit));
            proof {
                assert(decl_views(r@).len() == r@.len());
            }
            r
        }
    }
}

/// The views of a run of declarations.
pub open spec fn decl_views(s: Seq<Decl>) -> Seq<DeclView> {
    s.map_values(|d: Decl| d@)
}

/// The kind filter: absent, it allows everything; present, it allows the
/// kinds it lists.
pub open spec fn kind_allowed(kinds: Option<Seq<DeclKind>>, k: DeclKind) -> bool {
    match kinds {
        Some(ks) => ks.contains(k),
        None => true,
    }
}

/// Every word of the pattern occurs in the documentation text, compared
/// ignoring ASCII case.  (Folding both sides to ASCII lower case and
/// comparing for equality is the same test.)
pub open spec fn doc_words_hit(words: Seq<Seq<char>>, doc: Seq<char>) -> bool {
    forall|i: int| 0 <= i < words.len() ==> is_ci_substring(#[trigger] words[i], doc)
}

/// The scored entry of one candidate: its match cost against the
/// whitespace-stripped pattern, clamped to three points (24 eighths) when
/// the doc fallback applies — the fallback is on for patterns over three
/// bytes long, fires on costs of three points or more, and needs every
/// pattern word in the doc text.
pub open spec fn scored_entry(
    d: DeclView,
    stripped: Seq<char>,
    words: Seq<Seq<char>>,
    fallback_on: bool,
) -> Option<(int, DeclView)> {
    match spec_match_cost(d.name, stripped) {
        Some(c) => Some(
            (
                if fallback_on && c >= 24 && doc_words_hit(words, d.doc) {
                    24int
                } else {
                    c
                },
                d,
            ),
        ),
        None => None,
    }
}

/// The scored candidates: the declarations under the keys of `order`, in
/// that order, those of an allowed kind whose name matches the pattern,
/// each with its (possibly clamped) cost.
pub open spec fn scored_candidates(
    decls: Map<Seq<char>, DeclView>,
    order: Seq<Seq<char>>,
    stripped: Seq<char>,
    words: Seq<Seq<char>>,
    fallback_on: bool,
    kinds: Option<Seq<DeclKind>>,
) -> Seq<(int, DeclView)>
    decreases order.len(),
{
    if order.len() == 0 {
        Seq::empty()
    } else {
        let rest = scored_candidates(decls, order.drop_last(), stripped, words, fallback_on, kinds);
        let k = order.last();
        if decls.contains_key(k) && kind_allowed(kinds, decls[k].kind) {
            match scored_entry(decls[k], stripped, words, fallback_on) {
                Some(p) => rest.push(p),
                None => rest,
            }
        } else {
            rest
        }
    }
}

/// The scored candidates of a search, before sorting.
pub open spec fn search_scored(
    decls: Map<Seq<char>, DeclView>,
    order: Seq<Seq<char>>,
    pattern: Seq<char>,
    kinds: Option<Seq<DeclKind>>,
) -> Seq<(int, DeclView)> {
    scored_candidates(
        decls,
        order,
        strip_ws(pattern),
        split_ws(pattern),
        utf8_len(pattern) > 3,
        kinds,
    )
}

/// The ranked results of a search: the scored candidates, stable-sorted
/// by ascending cost, so that ties keep the canonical enumeration order.
pub open spec fn search_ranked(
    decls: Map<Seq<char>, DeclView>,
    order: Seq<Seq<char>>,
    pattern: Seq<char>,
    kinds: Option<Seq<DeclKind>>,
) -> Seq<DeclView> {
    sort_pairs(search_scored(decls, order, pattern, kinds)).map_values(|p: (int, DeclView)| p.1)
}

/// What a search returns: the ranked results, truncated to `max` results
/// when a bound is given.
pub open spec fn spec_search(
    decls: Map<Seq<char>, DeclView>,
    order: Seq<Seq<char>>,
    pattern: Seq<char>,
    kinds: Option<Seq<DeclKind>>,
    max: Option<int>,
) -> Seq<DeclView> {
    let ranked = search_ranked(decls, order, pattern, kinds);
    match max {
        Some(m) => ranked.take(
            if m < ranked.len() {
                m
            } else {
                ranked.len() as int
            },
        ),
        None => ranked,
    }
}

/// The views of an optional kind filter.
pub open spec fn kinds_view(kinds: Option<&Vec<DeclKind>>) -> Option<Seq<DeclKind>> {
    match kinds {
        Some(ks) => Some(ks@),
        None => None,
    }
}

/// Whether a kind list holds a kind.
fn kinds_contains(ks: &Vec<DeclKind>, k: DeclKind) -> (r: bool)
    ensures
        r == ks@.contains(k),
{
    let n = ks.len();
    let mut i: usize = 0;
    while i < n
        invariant
            i <= n,
            n == ks@.len(),
            forall|j: int| 0 <= j < i ==> ks@[j] != k,
        decreases n - i,
    {
        if ks[i] == k {
            return true;
        }
        i = i + 1;
    }
    false
}

/// Whether every word occurs in the text, ignoring ASCII case.
fn all_words_hit(words: &Vec<Vec<char>>, doc: &Vec<char>) -> (r: bool)
    ensures
        r == doc_words_hit(seq_views(words@), doc@),
{
    let n = words.len();
    let mut i: usize = 0;
    while i < n
        invariant
            i <= n,
            n == words@.len(),
            forall|j: int| 0 <= j < i ==> is_ci_substring(#[trigger] seq_views(words@)[j], doc@),
        decreases n - i,
    {
        if !contains_ci(doc, &words[i]) {
            proof {
                assert(seq_views(words@)[i as int] == words@[i as int]@);
            }
            return false;
        }
        i = i + 1;
    }
    true
}

/// Every scored candidate's name matched the pattern at some cost.
proof fn lemma_scored_candidates_matched(
    decls: Map<Seq<char>, DeclView>,
    order: Seq<Seq<char>>,
    stripped: Seq<char>,
    words: Seq<Seq<char>>,
    fallback_on: bool,
    kinds: Option<Seq<DeclKind>>,
    p: (int, DeclView),
)
    requires
        scored_candidates(decls, order, stripped, words, fallback_on, kinds).contains(p),
    ensures
        spec_match_cost(p.1.name, stripped) is Some,
    decreases order.len(),
{
    let all = scored_candidates(decls, order, stripped, words, fallback_on, kinds);
    let rest = scored_candidates(decls, order.drop_last(), stripped, words, fallback_on, kinds);
    if order.len() > 0 {
        if rest.contains(p) {
            lemma_scored_candidates_matched(
                decls,
                order.drop_last(),
                stripped,
                words,
                fallback_on,
                kinds,
                p,
            );
        } else {
            let i = choose|i: int| 0 <= i < all.len() && all[i] == p;
            assert(all[all.len() - 1] == p);
        }
    }
}

/// THE LAW OF EXCLUSION.  Every declaration a search returns has a name in
/// which the whitespace-stripped pattern appears as an ASCII-case-
/// insensitive ordered subsequence; a declaration whose name does not so
/// contain the pattern is excluded, whatever the kind filter or the result
/// bound.
pub proof fn lemma_search_needs_subsequence(
    decls: Map<Seq<char>, DeclView>,
    order: Seq<Seq<char>>,
    pattern: Seq<char>,
    kinds: Option<Seq<DeclKind>>,
    max: Option<int>,
    d: DeclView,
)
    requires
        spec_search(decls, order, pattern, kinds, max).contains(d),
        max matches Some(m) ==> 0 <= m,
    ensures
        is_ci_subsequence(strip_ws(pattern), d.name),
{
    broadcast use vstd::seq_lib::group_seq_properties;

    let stripped = strip_ws(pattern);
    let words = split_ws(pattern);
    let fallback_on = utf8_len(pattern) > 3;
    let scored = search_scored(decls, order, pattern, kinds);
    let sorted = sort_pairs(scored);
    let proj = search_ranked(decls, order, pattern, kinds);
    let result = spec_search(decls, order, pattern, kinds, max);
    let i = choose|i: int| 0 <= i < result.len() && result[i] == d;
    assert(result[i] == proj[i]);
    let p = sorted[i];
    assert(p.1 == d);
    lemma_sort_pairs_permutation(scored);
    assert(sorted.to_multiset().contains(p));
    assert(scored.contains(p));
    lemma_scored_candidates_matched(decls, order, stripped, words, fallback_on, kinds, p);
    crate::matcher::lemma_match_implies_subsequence(d.name, stripped);
}

/// The documentation link a declaration name resolves to: the stored
/// link, or the empty string for an unknown name.
pub open spec fn doc_link_for(decls: Map<Seq<char>, DeclView>, name: Seq<char>) -> Seq<char> {
    if decls.contains_key(name) {
        decls[name].doc_link
    } else {
        Seq::empty()
    }
}

/// The documentation link a module name resolves to: the stored link, or
/// the empty string for an unknown module.
pub open spec fn module_link_for(mods: Map<Seq<char>, Seq<char>>, name: Seq<char>) -> Seq<char> {
    if mods.contains_key(name) {
        mods[name]
    } else {
        Seq::empty()
    }
}

/// A list of names annotated with their declaration documentation links.
pub open spec fn annotate_list(decls: Map<Seq<char>, DeclView>, insts: Seq<Seq<char>>) -> Seq<
    (Seq<char>, Seq<char>),
> {
    insts.map_values(|n: Seq<char>| (n, doc_link_for(decls, n)))
}

/// A list of module names annotated with their module documentation
/// links.
pub open spec fn annotate_modules(mods: Map<Seq<char>, Seq<char>>, names: Seq<Seq<char>>) -> Seq<
    (Seq<char>, Seq<char>),
> {
    names.map_values(|n: Seq<char>| (n, module_link_for(mods, n)))
}

/// For each name, its stored list annotated with declaration links, or an
/// empty list for a name with no entry.
pub open spec fn annotate_names(
    decls: Map<Seq<char>, DeclView>,
    lists: Map<Seq<char>, Seq<Seq<char>>>,
    names: Seq<Seq<char>>,
) -> Seq<Seq<(Seq<char>, Seq<char>)>> {
    names.map_values(
        |n: Seq<char>|
            if lists.contains_key(n) {
                annotate_list(decls, lists[n])
            } else {
                Seq::empty()
            },
    )
}

/// The views of nested link-info lists.
pub open spec fn nested_link_views(s: Seq<Vec<LinkInfo>>) -> Seq<Seq<(Seq<char>, Seq<char>)>> {
    s.map_values(|v: Vec<LinkInfo>| link_info_views(v@))
}

/// Annotate each given name's stored list with declaration links.
fn annotate_into(
    declarations: &indexmap::IndexMap<String, Decl>,
    targets: &indexmap::IndexMap<String, Vec<String>>,
    names: &Vec<String>,
) -> (r: Vec<Vec<LinkInfo>>)
    ensures
        nested_link_views(r@) == annotate_names(
            decl_map_entries(*declarations),
            list_map_entries(*targets),
            string_views(names@),
        ),
{
    let ghost decls = decl_map_entries(*declarations);
    let ghost lists = list_map_entries(*targets);
    let mut r: Vec<Vec<LinkInfo>> = Vec::new();
    let n = names.len();
    let mut i: usize = 0;
    proof {
        assert(nested_link_views(r@) =~= annotate_names(
            decls,
            lists,
            string_views(names@).take(0),
        ));
    }
    while i < n
        invariant
            i <= n,
            n == names@.len(),
            decls == decl_map_entries(*declarations),
            lists == list_map_entries(*targets),
            nested_link_views(r@) == annotate_names(
                decls,
                lists,
                string_views(names@).take(i as int),
            ),
        decreases n - i,
    {
        let mut row: Vec<LinkInfo> = Vec::new();
        let name = &names[i];
        match list_map_get(targets, name.as_str()) {
            Some(insts) => {
                let m = insts.len();
                let mut j: usize = 0;
                proof {
                    assert(link_info_views(row@) =~= annotate_list(
                        decls,
                        string_views(insts@).take(0),
                    ));
                }
                while j < m
                    invariant
                        j <= m,
                        m == insts@.len(),
                        decls == decl_map_entries(*declarations),
                        link_info_views(row@) == annotate_list(
                            decls,
                            string_views(insts@).take(j as int),
                        ),
                    decreases m - j,
                {
                    let inst = insts[j].clone();
                    let link = match decl_map_get(declarations, inst.as_str()) {
                        Some(d) => d.doc_link.clone(),
                        None => String::new(),
                    };
                    let ghost prev = row@;
                    row.push(LinkInfo { name: inst, link });
                    j = j + 1;
                    proof {
                        assert(link_info_views(row@) =~= link_info_views(prev).push(
                            (insts@[j - 1]@, doc_link_for(decls, insts@[j - 1]@)),
                        ));
                        assert(string_views(insts@).take(j as int) =~= string_views(insts@).take(
                            j - 1,
                        ).push(insts@[j - 1]@));
                        assert(annotate_list(decls, string_views(insts@).take(j as int))
                            =~= annotate_list(decls, string_views(insts@).take(j - 1)).push(
                            (insts@[j - 1]@, doc_link_for(decls, insts@[j - 1]@)),
                        ));
                    }
                }
                proof {
                    assert(string_views(insts@).take(m as int) =~= string_views(insts@));
                    assert(link_info_views(row@) =~= annotate_list(decls, lists[names@[i as int]@]));
                }
            },
            None => {
                proof {
                    assert(link_info_views(row@) =~= Seq::<(Seq<char>, Seq<char>)>::empty());
                }
            },
        }
        let ghost prev = r@;
        let ghost rowv = row@;
        r.push(row);
        i = i + 1;
        proof {
            assert(nested_link_views(r@) =~= nested_link_views(prev).push(link_info_views(rowv)));
            assert(string_views(names@).take(i as int) =~= string_views(names@).take(i - 1).push(
                names@[i - 1]@,
            ));
            assert(annotate_names(decls, lists, string_views(names@).take(i as int))
                =~= annotate_names(decls, lists, string_views(names@).take(i - 1)).push(
                (if lists.contains_key(names@[i - 1]@) {
                    annotate_list(decls, lists[names@[i - 1]@])
                } else {
                    Seq::empty()
                }),
            ));
        }
    }
    proof {
        assert(string_views(names@).take(n as int) =~= string_views(names@));
    }
    r
}

/// Clone a vector of strings, keeping its contents.
pub fn clone_string_vec(v: &Vec<String>) -> (r: Vec<String>)
    ensures
        string_views(r@) == string_views(v@),
{
    let mut r: Vec<String> = Vec::new();
    let mut i: usize = 0;
    while i < v.len()
        invariant
            i <= v@.len(),
            string_views(r@) == string_views(v@).take(i as int),
        decreases v@.len() - i,
    {
        let ghost prev = r@;
        r.push(v[i].clone());
        i = i + 1;
        proof {
            assert(string_views(r@) =~= string_views(prev).push(v@[i - 1]@));
            assert(string_views(v@).take(i as int) =~= string_views(v@).take(i - 1).push(
                v@[i - 1]@,
            ));
        }
    }
    proof {
        assert(string_views(v@).take(v@.len() as int) =~= string_views(v@));
    }
    r
}

} // verus!
