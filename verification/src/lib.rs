//! A small full-text search engine: an in-memory inverted index, a compact
//! posting format, immutable segments with their term dictionaries, and the
//! matching that answers queries over them.
//!
//! Text becomes tokens in `parser`; `doctable`, `postings` and `memindex`
//! hold what was indexed; `codec` writes posting lists as bytes; `format`,
//! `store` and `reader` lay a segment out as files and read it back;
//! `posting_iter`, `planner`, `query` and `searcher` match queries; `engine`
//! ties documents and index together; `storage`, `crawler`,
//! `merge_scheduler` and `repl` serve the program around the library.

pub mod assoc;
pub mod codec;
pub mod crawler;
pub mod doctable;
pub mod engine;
pub mod format;
pub mod memindex;
pub mod merge_scheduler;
pub mod parser;
pub mod planner;
pub mod posting_iter;
pub mod postings;
pub mod query;
pub mod reader;
pub mod repl;
pub mod searcher;
pub mod storage;
pub mod store;
