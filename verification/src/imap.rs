//! Trusted interface to the insertion-ordered maps of the `indexmap`
//! crate.
//!
//! The snapshot stores its mappings in `indexmap::IndexMap`, which keeps
//! keys in insertion order.  Verus does not read that crate, so the maps
//! are declared opaque here, their contents are named by uninterpreted
//! functions, and each method the library calls is wrapped in a function
//! whose contract states what the crate's documentation promises of it:
//! `insert` updates the value of a present key in place and appends an
//! absent one last in order, and `get` returns the value stored for the
//! key.

use crate::decl::{Decl, DeclView};
use crate::order::string_views;
use vstd::prelude::*;

verus! {

#[verifier::external_type_specification]
#[verifier::external_body]
#[verifier::reject_recursive_types(K)]
#[verifier::reject_recursive_types(V)]
#[verifier::reject_recursive_types(S)]
pub struct ExIndexMap<K, V, S>(indexmap::IndexMap<K, V, S>);

/// The keys of a declaration map, in insertion order.
pub uninterp spec fn decl_map_keys(m: indexmap::IndexMap<String, Decl>) -> Seq<Seq<char>>;

/// The contents of a declaration map.
pub uninterp spec fn decl_map_entries(m: indexmap::IndexMap<String, Decl>) -> Map<
    Seq<char>,
    DeclView,
>;

/// Relies on `IndexMap::with_capacity`: the new map is empty.
#[verifier::external_body]
pub fn decl_map_with_capacity(n: usize) -> (r: indexmap::IndexMap<String, Decl>)
    ensures
        decl_map_keys(r).len() == 0,
        decl_map_entries(r) =~= Map::empty(),
{
    indexmap::IndexMap::with_capacity(n)
}

/// Relies on `IndexMap::insert`: a present key keeps its place and has its
/// value updated; an absent key is appended last in order.
#[verifier::external_body]
pub fn decl_map_insert(m: &mut indexmap::IndexMap<String, Decl>, k: String, v: Decl)
    ensures
        decl_map_entries(*final(m)) == decl_map_entries(*old(m)).insert(k@, v@),
        decl_map_keys(*final(m)) == (if decl_map_entries(*old(m)).contains_key(k@) {
            decl_map_keys(*old(m))
        } else {
            decl_map_keys(*old(m)).push(k@)
        }),
{
    m.insert(k, v);
}

/// Relies on `IndexMap::get`: the value stored for the key, if the key is
/// present.
#[verifier::external_body]
pub fn decl_map_get<'a>(m: &'a indexmap::IndexMap<String, Decl>, k: &str) -> (r: Option<&'a Decl>)
    ensures
        r is Some <==> decl_map_entries(*m).contains_key(k@),
        r matches Some(d) ==> d@ == decl_map_entries(*m)[k@],
{
    m.get(k)
}

/// Relies on `IndexMap::keys`: the keys come out in insertion order.
#[verifier::external_body]
pub fn decl_map_keys_vec(m: &indexmap::IndexMap<String, Decl>) -> (r: Vec<String>)
    ensures
        string_views(r@) == decl_map_keys(*m),
{
    m.keys().cloned().collect()
}

/// The contents of a map from a name to a list of names.
pub uninterp spec fn list_map_entries(m: indexmap::IndexMap<String, Vec<String>>) -> Map<
    Seq<char>,
    Seq<Seq<char>>,
>;

/// Relies on `IndexMap::with_capacity`: the new map is empty.
#[verifier::external_body]
pub fn list_map_with_capacity(n: usize) -> (m: indexmap::IndexMap<String, Vec<String>>)
    ensures
        list_map_entries(m) =~= Map::empty(),
{
    indexmap::IndexMap::with_capacity(n)
}

/// Relies on `IndexMap::insert`: the value stored for the key afterwards
/// is the one given.
#[verifier::external_body]
pub fn list_map_insert(m: &mut indexmap::IndexMap<String, Vec<String>>, k: String, v: Vec<String>)
    ensures
        list_map_entries(*final(m)) == list_map_entries(*old(m)).insert(k@, string_views(v@)),
{
    m.insert(k, v);
}

/// Relies on `IndexMap::get`: the value stored for the key, if the key is
/// present.
#[verifier::external_body]
pub fn list_map_get<'a>(m: &'a indexmap::IndexMap<String, Vec<String>>, k: &str) -> (r: Option<
    &'a Vec<String>,
>)
    ensures
        r is Some <==> list_map_entries(*m).contains_key(k@),
        r matches Some(v) ==> string_views(v@) == list_map_entries(*m)[k@],
{
    m.get(k)
}

/// The contents of a map from a name to a link.
pub uninterp spec fn link_map_entries(m: indexmap::IndexMap<String, String>) -> Map<
    Seq<char>,
    Seq<char>,
>;

/// Relies on `IndexMap::with_capacity`: the new map is empty.
#[verifier::external_body]
pub fn link_map_with_capacity(n: usize) -> (m: indexmap::IndexMap<String, String>)
    ensures
        link_map_entries(m) =~= Map::empty(),
{
    indexmap::IndexMap::with_capacity(n)
}

/// Relies on `IndexMap::insert`: the value stored for the key afterwards
/// is the one given.
#[verifier::external_body]
pub fn link_map_insert(m: &mut indexmap::IndexMap<String, String>, k: String, v: String)
    ensures
        link_map_entries(*final(m)) == link_map_entries(*old(m)).insert(k@, v@),
{
    m.insert(k, v);
}

/// Relies on `IndexMap::get`: the value stored for the key, if the key is
/// present.
#[verifier::external_body]
pub fn link_map_get<'a>(m: &'a indexmap::IndexMap<String, String>, k: &str) -> (r: Option<
    &'a String,
>)
    ensures
        r is Some <==> link_map_entries(*m).contains_key(k@),
        r matches Some(v) ==> v@ == link_map_entries(*m)[k@],
{
    m.get(k)
}

} // verus!
