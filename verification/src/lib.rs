//! Indexing primitives for a version-control storage engine: content-hash
//! search keys for a radix trie keyed by compound byte-string keys, and the
//! directory-block ordering with binary search used by a working-tree index.

pub mod chk_map;
pub mod dirstate;
