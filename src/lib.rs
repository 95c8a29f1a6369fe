//! Dictionary lookup structures and the lattice search of a dictionary-driven
//! morphological analyzer.
pub mod character;
pub mod connection;
pub mod error;
pub mod laws;
pub mod prefix_dictionary;
pub mod tokenizer;
pub mod trie;
pub mod viterbi;
pub mod word_entry;
