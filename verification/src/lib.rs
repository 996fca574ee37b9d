//! Indexing and retrieval over local source repositories and note vaults:
//! chunking, a lexical index, an embedding store, hybrid ranking and the
//! change watcher that keeps both indexes in step with the file system.

pub mod cli;
pub mod engine;
pub mod tui;
