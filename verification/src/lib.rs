//! Core storage model of a deduplicating backup archive.
//!
//! An archive is an append-only, content-addressed object graph:
//! `Archive` owns one `BlockDir` (deduplicated content blocks) and any
//! number of `Band`s (one backup generation each), and every band owns an
//! ordered, hunked `Index` of the entries it captured.

pub mod apath;
pub mod archive;
pub mod band;
pub mod backup;
pub mod bandid;
pub mod blockdir;
pub mod hashing;
pub mod bytes;
pub mod cmd;
pub mod codec;
pub mod records;
pub mod error;
pub mod excludes;
pub mod index;
pub mod report;
pub mod restore;

use vstd::prelude::*;

verus! {

/// Format version written into the archive header.
pub const ARCHIVE_VERSION: &'static str = "0.5";

} // verus!
