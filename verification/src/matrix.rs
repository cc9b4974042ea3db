//! Fixed-size adjacency matrices.
mod dense;

pub use dense::{count_some, lemma_count_update, lemma_edges_counted, some_slots, DenseMatrix};
