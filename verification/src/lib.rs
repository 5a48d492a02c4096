//! A disk-usage inspector core: an incremental scanner over walk events, a
//! per-root entry cache with scan sessions and aggregate validation, a
//! dirty-propagation protocol for change watching, and an in-memory tree
//! model of the streamed entries.

pub mod cache;
pub mod fs;
pub mod paths;
pub mod query;
pub mod scanner;
pub mod tree;
pub mod ui;
pub mod watcher;
pub mod seq_find;
