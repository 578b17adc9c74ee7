//! A validating UTF-8 decoder that classifies characters as it goes, and the
//! builder of the compact property tables that the classification reads.

pub mod category;
pub mod automaton;
pub mod decode_utf8;
pub mod trie;
pub mod tables;
pub mod emit;
pub mod ucd;
