//! Clustering documents by the graphs of their terms.
//!
//! A document becomes a graph whose vertices are its terms and whose edges
//! tell how the terms occur together. The graphs of a batch of documents
//! become one table of features, with a row for each graph and a column for
//! each pair of terms that enough of the graphs share.
//!
//! - [`graph`] holds the graph, the packed symmetric matrix that stores its
//!   edges, and the indexable trie that numbers its vertices.
//! - [`clustering`] turns a batch of graphs into the table of features.
//! - [`construct`] builds the graph of a document.
//! - [`input`] and [`preprocess`] turn text into documents.
//! - [`evaluate`] holds a clustering against the true clusters.
//! - [`bytes`] orders byte strings, which is the order of the terms.

pub mod bytes;
pub mod clustering;
pub mod construct;
pub mod evaluate;
pub mod graph;
pub mod input;
pub mod preprocess;
