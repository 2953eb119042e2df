//! Note parsing and link-graph engine for a vault of interlinked text notes.
//!
//! The engine answers three questions about a directory of notes: what a
//! note links to, what links to a note, and what a note declares about
//! itself. It reads no file and keeps no state but the link graph that its
//! caller owns.
//!
//! - [`parser`] reads the wikilinks, the tags and the front-matter fields of
//!   a note's text.
//! - [`linker`] keeps the link graph and answers queries on it; [`graph`] is
//!   the mathematical model by which it is specified, and [`graph_lemmas`]
//!   holds what is proved of every graph.
//! - [`indexer`] applies a parsed note to the graph and makes the document
//!   that a search index stores for it.
//! - [`paths`] derives note names from paths; [`text`], [`strings`] and
//!   [`table`] are the sequences of characters, the lists of strings and the
//!   ordered tables that the rest is built on.
//! - [`render`] hands a note's Markdown to the renderer.
//! - [`git_service`], [`files`], [`watcher`] and [`vault`] hold the decisions
//!   that the application makes around version control, the file tree,
//!   change notifications and the vault itself, on plain values.

pub mod files;
pub mod git_service;
pub mod git_status;
pub mod graph;
pub mod graph_lemmas;
pub mod indexer;
pub mod link;
pub mod linker;
pub mod note;
pub mod parser;
pub mod paths;
pub mod render;
pub mod strings;
pub mod table;
pub mod text;
pub mod vault;
pub mod watcher;

pub use link::{GraphData, GraphEdge, GraphNode};
pub use linker::LinkGraph;
pub use parser::{parse_note, ParsedNote};
