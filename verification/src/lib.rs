//! A personal note manager's core: the note codec, the note store's
//! ordering, the query/search engine, and the index cache that bridges
//! two command invocations.
//!
//! Notes are plain-text files with a fixed metadata header (title, tags,
//! notebook, created/updated timestamps) followed by a free-form body.
//! The surrounding application enumerates files, reads and writes bytes,
//! and talks to the user; this crate holds the parsing, matching and
//! ordering rules, each stated in a contract and proved.

pub mod cache;
pub mod codec;
pub mod config;
pub mod query;
pub mod store;
pub mod matcher;
pub mod note;
pub mod text;
pub mod timestamp;
