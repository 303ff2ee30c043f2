//! Term-frequency / inverse-document-frequency indexing: a dictionary-driven
//! word segmenter, a nibble trie, small bounded strings and small maps.
pub mod lexer;
pub mod map;
pub mod small_str;
pub mod data;
pub mod trie;
pub mod spacing;

pub use lexer::MAX_TERM_LENGTH;
