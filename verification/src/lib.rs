//! An in-memory text index: a trie over the suffixes of inserted words,
//! answering prefix queries with the set of indexed continuations.

pub mod laws;
pub mod node;
pub mod suffix_trie;

pub use node::Node;
pub use suffix_trie::SuffixTrie;
