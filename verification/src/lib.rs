//! A verified in-memory index over a documentation corpus: exact and fuzzy
//! lookup of named declarations, with a case-aware subsequence matcher and
//! a canonical key-enumeration order that reproduces the object-key
//! iteration rule of the scripting runtime legacy clients rely on.

pub mod decl;
pub mod imap;
pub mod matcher;
pub mod order;
pub mod text;
