//! A small corpus search engine: an inverted term index over text files and
//! two kinds of relevance queries with bounded snippets.
pub mod text;
pub mod snippet;
pub mod document_index;
pub mod user_config;

pub use document_index::{CodeSnippet, CorpusFile, DocumentIndex, Posting, SearchResult};
pub use user_config::UserProjectConfig;
