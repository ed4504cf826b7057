//! Core of a local hybrid code search engine.
//!
//! The crate holds the verified logic of the pipeline: language detection and
//! semantic chunking of source files, the modification-time cache that drives
//! incremental rebuilds, the metadata side of the vector store, the lexical
//! match-line scanner, the hybrid ranker that fuses lexical and semantic
//! result lists, and the watcher's debounce state machine. Filesystem walking,
//! the inverted-index engine, the embedding runtime and the ANN index are
//! collaborators that an application drives around this crate.

pub mod ast;
pub mod cache;
pub mod chunker;
pub mod language;
pub mod lexical;
pub mod ranker;
pub mod semantic;
pub mod text;
pub mod vector_store;
pub mod watcher;
