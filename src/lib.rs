//! A development file server's core: a filtered, deterministic scan that turns a
//! walk of a directory tree into a path-to-mtime manifest, and a namespace that
//! merges several mounted roots with rank-ordered, first-match-wins lookup.
//!
//! Paths are handled as the UTF-8 bytes of their text; `/` is the separator.

pub mod exclude;
pub mod keys;
pub mod manifest;
pub mod namespace;
