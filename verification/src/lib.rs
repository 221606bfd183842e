//! A library for building, parsing and querying dynamic-linker cache files
//! (the binary index mapping shared-library names to on-disk paths that the
//! loader consults at process start).
//!
//! The crate covers the cache binary codec, the library discovery and
//! classification rules, hardware-capability tier mapping, and the symlink
//! reconciliation algorithm with its glibc-compatible version comparator.

pub mod arch;
pub mod builder;
pub mod cache;
pub mod codec;
pub mod config;
pub mod elf;
pub mod hwcap;
pub mod pathname;
pub mod render;
pub mod scanner;
pub mod symlinks;
pub mod versions;

pub use builder::CacheBuilder;
pub use builder::ScanOptions;
pub use cache::Cache;
pub use cache::CacheEntry;
pub use cache::CacheInfo;
pub use config::LibraryConfig;

use vstd::prelude::*;

verus! {

/// Errors reported while reading or writing a cache image.
#[derive(Debug, Clone, PartialEq, Eq, Structural)]
pub enum Error {
    /// The data is too short to hold the fixed header.
    TruncatedHeader,
    /// The data is too short to hold the declared number of entries.
    TruncatedEntries,
    /// A string offset points outside the data.
    InvalidCacheOffset(u32),
    /// A string in the cache is not valid UTF-8.
    InvalidCacheUtf8,
}

} // verus!
