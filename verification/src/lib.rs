//! A long-term notebook for agents: one markdown file per topic holding
//! dated entries, a consolidation policy for near-duplicate entries, and a
//! keyword (BM25) index with a compact saved form.
//!
//! The library computes what is written to and read from the notebook; the
//! files themselves, the embedding model and the embedding database are
//! handled by its caller.
pub mod bm25;
pub mod calendar;
pub mod cli;
pub mod consolidate;
pub mod decimal;
pub mod embeddings;
pub mod store;
pub mod text;
