//! A package manager core for self-contained application bundles.
//!
//! Packages are discovered through user-declared remote sources, resolved
//! into a unified index, verified by content hash, and installed into a
//! per-user directory layout.  This crate holds the verified core: the
//! manifest format, version ordering and best-match selection, the
//! source-resolution state machine with cycle safety, the incremental
//! cache, the dependency-closure resolver, and install/uninstall planning.
//! Network and filesystem effects live outside the crate; the core decides,
//! callers perform.

pub mod cache;
pub mod config;
pub mod database;
pub mod deps;
pub mod desktop;
pub mod entry;
pub mod index;
pub mod install;
pub mod hashing;
pub mod matching;
pub mod query;
pub mod reqs;
pub mod resolver;
pub mod sources;
pub mod urlutil;
pub mod manifest;
pub mod text;
pub mod version;

use vstd::prelude::*;

verus! {

} // verus!
