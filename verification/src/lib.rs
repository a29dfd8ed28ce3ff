//! Semantic navigation core for a lazily evaluated, functional configuration
//! language: mapping between textual positions and byte offsets, resolving the
//! identifier under a cursor, computing the lexical scope visible at a tree
//! node, and building nested selection ranges.

pub mod cursor;
pub mod position;
pub mod scope;
pub mod selection;
pub mod uri;
pub mod tree;
