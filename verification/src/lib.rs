//! A pedigree engine: an append-only arena of individuals connected by
//! parent/child edges, kept acyclic, with genealogical queries on top of it —
//! ancestor sets, all lineage paths between an ancestor and a descendant,
//! Wright's coefficient of relationship, and shortest degree of separation.

pub mod ancestors;
pub mod individual;
pub mod model;
pub mod paths;
pub mod pedigree;
pub mod relationship;
pub mod separation;
