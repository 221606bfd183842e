//! The cache building interface: collect descriptors, optionally set a
//! root prefix, and serialize them into a cache image.

use vstd::prelude::*;
use vstd::utf8::encode_utf8;
use crate::cache::Cache;
use crate::codec::{build_cache, build_fits, lib_models, spec_build, LibModel};
use crate::elf::ElfLibrary;

verus! {

/// Options for a directory scan.
#[derive(Debug, Clone)]
pub struct ScanOptions {
    /// Update symlinks in the scanned directories.
    pub update_symlinks: bool,
    /// Compute actions but change nothing.
    pub dry_run: bool,
    /// Verbose output.
    pub verbose: bool,
}

impl core::default::Default for ScanOptions {
    fn default() -> (r: ScanOptions)
        ensures
            r.update_symlinks == true,
            r.dry_run == false,
            r.verbose == false,
    {
        ScanOptions { update_symlinks: true, dry_run: false, verbose: false }
    }
}

/// Accumulates descriptors and builds the cache image from them.
pub struct CacheBuilder {
    libraries: Vec<ElfLibrary>,
    prefix: Option<String>,
}

impl CacheBuilder {
    /// The collected descriptors.
    pub closed spec fn libs(&self) -> Seq<ElfLibrary> {
        self.libraries@
    }

    /// The configured root prefix, if any.
    pub closed spec fn prefix_view(&self) -> Option<Seq<char>> {
        match self.prefix {
            Some(p) => Some(p@),
            None => None,
        }
    }

    /// The codec models the collected descriptors build under.
    pub open spec fn build_model(&self) -> Seq<LibModel> {
        lib_models(
            self.libs(),
            match self.prefix_view() {
                Some(p) => Some(encode_utf8(p)),
                None => None,
            },
        )
    }

    /// An empty builder.
    pub fn new() -> (r: CacheBuilder)
        ensures
            r.libs().len() == 0,
            r.prefix_view() is None,
    {
        CacheBuilder { libraries: Vec::new(), prefix: None }
    }

    /// Set the root prefix used to rewrite persisted paths.
    pub fn with_prefix(self, prefix: String) -> (r: CacheBuilder)
        ensures
            r.libs() == self.libs(),
            r.prefix_view() == Some(prefix@),
    {
        CacheBuilder { libraries: self.libraries, prefix: Some(prefix) }
    }

    /// Append scanned descriptors.
    pub fn add_libraries(&mut self, libs: &mut Vec<ElfLibrary>)
        ensures
            final(self).libs() == old(self).libs() + old(libs)@,
            final(self).prefix_view() == old(self).prefix_view(),
            final(libs)@.len() == 0,
    {
        self.libraries.append(libs);
    }

    /// How many descriptors were collected.
    pub fn library_count(&self) -> (r: usize)
        ensures
            r == self.libs().len(),
    {
        self.libraries.len()
    }

    /// Build the cache image from the collected descriptors.
    pub fn build(&self) -> (r: Result<Cache, crate::Error>)
        requires
            build_fits(self.build_model()),
        ensures
            r matches Ok(c) && c.bytes() == spec_build(self.build_model()) && !c.parsed(),
    {
        let pref = match &self.prefix {
            Some(p) => Some(p),
            None => None,
        };
        let data = build_cache(&self.libraries, pref);
        Ok(Cache::from_bytes_raw(data))
    }
}

impl core::default::Default for CacheBuilder {
    fn default() -> (r: CacheBuilder)
        ensures
            r.libs().len() == 0,
            r.prefix_view() is None,
    {
        CacheBuilder::new()
    }
}

} // verus!
