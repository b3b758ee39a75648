//! Locating candidate files and dispatching them to a per-file handler.
//!
//! The crate covers three pieces of logic: path normalization into a
//! canonical absolute form, a depth-first directory walk filtered by file
//! extension, and the routing that classifies a raw input as a directory,
//! a glob pattern, or a single file.  Handler failures are absorbed per
//! candidate; only structural failures abort a run.

pub mod pathnorm;
pub mod walker;
pub mod dispatch;
