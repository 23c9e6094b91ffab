//! The graph and the structures that carry it: a packed symmetric matrix for
//! the edges and an indexable trie for the vertex labels.

pub mod adj_matrix;
pub mod index_trie;
pub mod lower_triangular;

pub use adj_matrix::AMGraph as Graph;
pub use index_trie::IndexTrie as IndexMap;
