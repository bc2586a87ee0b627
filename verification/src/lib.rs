//! A path-compressed radix trie keyed by sequences of 64-bit integers,
//! together with a string interning table and a string-to-string map built
//! from the two, plus the text utilities used around them.

pub mod codec;
pub mod language;
pub mod range;
pub mod string_trie_map;
pub mod strings_util;
pub mod symboltable;
pub mod token;
pub mod trie;
