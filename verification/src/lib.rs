//! A compressed prefix tree that maps ASCII aliases to Unicode characters,
//! with the lookups a text-expansion tool runs on every keystroke.

pub mod alias;
pub mod complete;
pub mod dataset;
pub mod guarantees;
pub mod insert;
pub mod insert_proofs;
pub mod lineage;
pub mod lookup;
pub mod render;
pub mod subtree;
pub mod traverse;
pub mod trie;
pub mod validate;
