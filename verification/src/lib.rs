//! Verified core of an AI-assisted code-completion engine for a text editor.
//!
//! Given a cursor position in a buffer, the library builds a line-windowed
//! context around the cursor, parses a token-delimited model response into a
//! located search/replace pair, turns that pair into a replayable list of
//! character-level edits, projects those edits into post-edit coordinates for
//! highlighting, and tracks per-file snapshot history to summarize recent
//! activity.  All offsets that cross module boundaries are character offsets,
//! never byte offsets.

pub mod coder;
pub mod config;
pub mod diff;
pub mod edits;
pub mod error;
pub mod project;
pub mod prompts;
pub mod strutil;
pub mod tracker;
pub mod utils;
