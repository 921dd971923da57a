//! Indexing of a vault of Markdown notes, and search and navigation in it.
//!
//! - [`indexer`]: what a note file contributes to the index, and the operations
//!   that bring the index up to date; [`indexer::roles`] tells current versions of
//!   documents from older ones.
//! - [`db`]: the operations on the index, what they do, and the texts and blobs
//!   that are written into it.
//! - [`config`]: the versioning settings of a vault.
//! - [`mcp`]: the tools, the merging of search results, and the walk over the link
//!   graph.
//! - [`embeddings`]: the embedding models, and the neighborhoods of the graph
//!   embeddings.
//! - [`setup`]: which embedding model a command uses.
//! - [`watcher`]: which changed files are handled, and when.
//! - [`paths`] and [`text`]: paths and texts, character by character; [`lists`]:
//!   what lists hold.
//!
//! Embeddings, scores and weights are floating-point numbers; here they are given
//! by their bits.
use vstd::prelude::*;

pub mod config;
pub mod db;
pub mod embeddings;
pub mod indexer;
pub mod lists;
pub mod mcp;
pub mod paths;
pub mod setup;
pub mod text;
pub mod watcher;

verus! {

} // verus!
