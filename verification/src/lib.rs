//! A small, verified command-line text-search library.
//!
//! Two components: a flag-parsing engine (`cli`) that turns a raw argument
//! list into a structured option map, and a line-oriented match engine
//! (`matcher`) that evaluates substring patterns against file contents under
//! configurable case-sensitivity and inversion. The `text` module holds the
//! character-level primitives (simple lowering and substring search) that the
//! match engine is specified with.
//!
//! File I/O is not part of the library: the match engine takes each file's
//! lines as plain values and the caller is responsible for producing them.

pub mod cli;
pub mod matcher;
pub mod text;
