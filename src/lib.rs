//! An access-weighted index of filesystem entries: a path trie with
//! per-node metadata, a bounded set of hot directories, the decisions that
//! keep the trie and the persistent store in step with filesystem events,
//! and the query surface built on top of them.

pub mod api;
pub mod backend;
pub mod cache;
pub mod config;
pub mod error;
pub mod hot_dir;
pub mod meta;
pub mod path;
pub mod trie;
pub mod util;
pub mod writer;
