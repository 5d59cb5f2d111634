//! A catalog of comic archives: the index that a scan of a directory tree
//! builds, the rules by which request identifiers resolve to entries of it,
//! cover extraction from the archives, and the small state machines that
//! decide when a scan runs.  Input and output stay with the caller; every
//! function here works on plain values.

pub mod auth;
pub mod catalog;
pub mod comic;
pub mod cors;
pub mod cover;
pub mod error;
pub mod folder;
pub mod guarantees;
pub mod names;
pub mod percent;
pub mod response;
pub mod routes;
pub mod scanner;
pub mod service;
pub mod text;
pub mod tree;
pub mod watcher;
