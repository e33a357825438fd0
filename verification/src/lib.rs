//! Corpus traversal and scanning engine for a flat-file registry of versioned
//! package archives.
//!
//! The library holds the decisions of the engine: which archives of a corpus
//! are selected, how one archive is scanned entry by entry, how failures are
//! confined to the unit that produced them, and how the counters add up.
//! Reading directories and files, and spreading work over threads, is left to
//! the caller, who hands in listings, bytes and callbacks.
//!
//! - [`index`]: the archives of a corpus, all of them or the latest of each
//!   package.
//! - [`version`]: versions, parsed and ordered by the `semver` crate.
//! - [`archive`]: the scan of compressed archives with a filter and a
//!   callback.
//! - [`mirror`]: the walk and the scan of a mirror of extracted packages.
//! - [`progress`], [`pool`]: when a progress line is due, and how many
//!   workers a run gets.
//! - [`paths`], [`table`]: byte-string paths, and a table of distinct names.
//!
//! Paths are byte strings with `/` as the separator.

pub mod archive;
pub mod index;
pub mod mirror;
pub mod paths;
pub mod pool;
pub mod progress;
pub mod table;
pub mod version;

pub use archive::scan_compressed;
pub use index::collect_latest_crates;
pub use mirror::scan_uncompressed;
pub use pool::overdrive;

use vstd::prelude::*;

verus! {

/// Which view of the corpus a run operates over.
#[derive(Copy, Clone, Debug, PartialEq, Eq, Structural)]
pub enum Versions {
    /// Every archive under the root.
    All,
    /// One archive per package: the one with the greatest version.
    Latest,
}

} // verus!
