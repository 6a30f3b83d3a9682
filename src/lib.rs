//! A mutable directed graph whose nodes and edges carry optional payloads,
//! with referential integrity between the two, incrementally maintained
//! adjacency and degree indices, and a bounded undo history.

pub mod graph_components;
pub mod history;
pub mod graph_ref;
mod seq_lemmas;
pub mod sorted;
pub mod digraph;
