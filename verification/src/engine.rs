//! The indexing-and-retrieval engine.

pub mod chunker;
pub mod consistency;
pub mod embedder;
pub mod indexer;
pub mod lexical;
pub mod locks;
pub mod manifest;
pub mod markdown;
pub mod model;
pub mod query;
pub mod rank;
pub mod registry;
pub mod score;
pub mod searcher;
pub mod text;
pub mod vectors;
pub mod watcher;

pub use embedder::{ChunkEmbedding, Embedder, TextChunk};
pub use indexer::Indexer;
pub use markdown::parse_markdown;
pub use markdown::{Heading, MarkdownMeta};
pub use searcher::{SearchMode, Searcher};
pub use watcher::{ChangeType, IndexWatcher, PendingChange, RepoBatch};
