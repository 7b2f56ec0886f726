//! An incremental filesystem indexer with an attached thumbnail cache.
//!
//! The library keeps an in-memory mirror of a served directory tree — one
//! record per file or directory, keyed by its canonical path relative to
//! the served root — consistent with what periodic scan passes observe on
//! disk. A pass upserts a record for every observed entry, garbage-collects
//! every key the snapshot no longer shows (subtrees included), recomputes
//! aggregate descendant counts bottom-up, and resolves image previews
//! against an on-disk thumbnail store, tracking the keys whose preview is
//! known broken. Request-side code resolves external paths to keys,
//! performs point lookups, and fetches encoded thumbnail data through a
//! bounded in-memory cache.
//!
//! Everything that decides — path resolution, the scan pass, garbage
//! collection, counts, thumbnail naming and bookkeeping — lives here with
//! contracts; the surrounding program only walks the disk, encodes the
//! images, and serves the results.

pub mod cache;
pub mod config;
pub mod db;
pub mod laws;
pub mod paths;
pub mod records;
pub mod scan;
pub mod snapshot;
pub mod strutil;
pub mod thumbs;
