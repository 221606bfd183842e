//! The directory and entry scanner's classification rules: which file
//! names qualify as dynamic shared objects, which symlinks belong in the
//! cache, capability-tier overrides, and the deduplication of descriptors
//! and of scan directories.
//!
//! Directory walking itself is filesystem work and stays with the caller;
//! everything here decides over plain values.

use vstd::prelude::*;
use vstd::string::StrSliceExecFns;
use crate::elf::ElfLibrary;
use crate::hwcap::{spec_bitmask, HwCap};
use crate::pathname::{contains_chars, contains_str, ends_with, ends_with_chars, file_name,
    file_name_chars, parent_dir, parent_dir_chars, starts_with_chars, str_eq};

verus! {

/// Whether a file name looks like a dynamic shared object: a `lib` or
/// `ld-` prefix together with a `.so` marker, or one of the loader's own
/// name patterns.
pub open spec fn spec_is_dso(n: Seq<char>) -> bool {
    ((starts_with_chars(n, "lib"@) || starts_with_chars(n, "ld-"@)) && contains_chars(n, ".so"@))
        || starts_with_chars(n, "ld.so."@) || starts_with_chars(n, "ld64.so."@)
}

/// Decide whether a file name looks like a dynamic shared object.
pub fn is_dso(name: &str) -> (r: bool)
    ensures
        r == spec_is_dso(name@),
{
    let has_lib_or_ld_prefix = crate::pathname::starts_with(name, "lib") || crate::pathname::starts_with(
        name,
        "ld-",
    );
    let has_so = contains_str(name, ".so");
    let is_ld_so = crate::pathname::starts_with(name, "ld.so.");
    let is_ld64_so = crate::pathname::starts_with(name, "ld64.so.");
    (has_lib_or_ld_prefix && has_so) || is_ld_so || is_ld64_so
}

/// Whether a path should be opened and inspected as a library, by its
/// file name alone. Non-matching files are never opened.
pub open spec fn spec_should_scan(p: Seq<char>) -> bool {
    spec_is_dso(file_name_chars(p))
}

/// Decide from a path whether the file should be inspected as a library.
pub fn should_scan_library(path: &str) -> (r: bool)
    ensures
        r == spec_should_scan(path@),
{
    is_dso(file_name(path))
}

/// Whether a symlink belongs in the cache. For a bare `.so` name the
/// decision needs the name its target carries; `target_name` is that name,
/// or `None` when the link could not be read.
pub open spec fn spec_should_include_symlink(
    f: Seq<char>,
    soname: Seq<char>,
    target_name: Option<Seq<char>>,
) -> bool {
    if ends_with_chars(f, ".so"@) && !contains_chars(f, ".so."@) {
        match target_name {
            None => false,
            Some(t) => starts_with_chars(t, f.take(f.len() - 3) + "."@) && contains_chars(
                t,
                ".so."@,
            ),
        }
    } else {
        f == soname
    }
}

/// Decide whether a symlink belongs in the cache: a bare `.so` link is
/// kept only when its target is the same base name with a versioned
/// `.so.` suffix; a versioned link only when its own name equals its
/// declared name.
pub fn should_include_symlink(filename: &str, soname: &str, target_name: Option<&str>) -> (r:
    bool)
    ensures
        ({
            let t = match target_name {
                Some(t) => Some(t@),
                None => None,
            };
            r == spec_should_include_symlink(filename@, soname@, t)
        }),
{
    let fl = filename.unicode_len();
    if ends_with(filename, ".so") && !contains_str(filename, ".so.") {
        match target_name {
            None => false,
            Some(t) => {
                proof {
                    reveal_strlit(".so");
                    reveal_strlit(".");
                }
                let base = filename.substring_char(0, fl - 3);
                let tl = t.unicode_len();
                let bl = base.unicode_len();
                if tl < bl + 1 {
                    proof {
                        assert(!starts_with_chars(t@, filename@.take(filename@.len() - 3) + "."@));
                    }
                    return false;
                }
                let pref_ok = crate::pathname::starts_with(t, base) && t.get_char(bl) == '.';
                proof {
                    let want = filename@.take(filename@.len() - 3) + "."@;
                    assert(base@ == want.take(want.len() - 1));
                    if pref_ok {
                        assert(t@.subrange(0, want.len() as int) =~= want);
                    } else {
                        if starts_with_chars(t@, want) {
                            assert(t@.subrange(0, base@.len() as int) =~= want.take(
                                want.len() - 1,
                            ));
                            assert("."@[0] == '.');
                            assert(want[want.len() - 1] == '.');
                            assert(t@.subrange(0, want.len() as int)[want.len() - 1]
                                == t@[want.len() - 1]);
                            assert(t@[want.len() - 1] == '.');
                        }
                    }
                }
                pref_ok && contains_str(t, ".so.")
            },
        }
    } else {
        str_eq(filename, soname)
    }
}

/// Replace a descriptor's capability bitmask with the architecture-aware
/// value of the tier it was found under, overriding any path-based guess:
/// the final bitmask is always consistent with the true architecture.
pub fn apply_hwcap_override(lib: &mut ElfLibrary, cap: &HwCap)
    ensures
        final(lib).hwcap == Some(spec_bitmask(*cap, old(lib).arch)),
        final(lib).soname == old(lib).soname,
        final(lib).path == old(lib).path,
        final(lib).arch == old(lib).arch,
        final(lib).is_64bit == old(lib).is_64bit,
        final(lib).is_hardfloat == old(lib).is_hardfloat,
        final(lib).osversion == old(lib).osversion,
        final(lib).provenance == old(lib).provenance,
{
    let mask = cap.to_bitmask(lib.arch);
    lib.hwcap = Some(mask);
}

/// The key descriptors are deduplicated by: parent directory and file
/// name.
pub open spec fn lib_key(l: ElfLibrary) -> (Seq<char>, Seq<char>) {
    (parent_dir_chars(l.path@), file_name_chars(l.path@))
}

/// Whether some element of `s` carries the key `k`.
pub open spec fn contains_lib_key(s: Seq<ElfLibrary>, k: (Seq<char>, Seq<char>)) -> bool {
    exists|i: int| 0 <= i < s.len() && lib_key(#[trigger] s[i]) == k
}

/// The descriptor list with later exact duplicates dropped: a descriptor
/// is kept exactly when no earlier one shares its (directory, file name)
/// key, and kept descriptors stay in order.
pub open spec fn dedup_libs_spec(s: Seq<ElfLibrary>) -> Seq<ElfLibrary>
    decreases s.len(),
{
    if s.len() == 0 {
        Seq::empty()
    } else {
        let d = dedup_libs_spec(s.drop_last());
        if contains_lib_key(s.drop_last(), lib_key(s.last())) {
            d
        } else {
            d.push(s.last())
        }
    }
}

/// Deduplicate descriptors by their (parent directory, file name) pair:
/// the first occurrence wins and order is preserved. Two descriptors with
/// the same declared name from different directories are both kept.
pub fn deduplicate_libraries(libraries: &Vec<ElfLibrary>) -> (r: Vec<ElfLibrary>)
    ensures
        r@ == dedup_libs_spec(libraries@),
{
    let mut out: Vec<ElfLibrary> = Vec::new();
    let mut i: usize = 0;
    while i < libraries.len()
        invariant
            0 <= i <= libraries@.len(),
            out@ == dedup_libs_spec(libraries@.take(i as int)),
        decreases libraries@.len() - i,
    {
        let li = &libraries[i];
        let pi = parent_dir(li.path.as_str());
        let fi = file_name(li.path.as_str());
        let mut seen = false;
        let mut j: usize = 0;
        while j < i
            invariant
                0 <= j <= i,
                i < libraries@.len(),
                pi@ == parent_dir_chars(libraries@[i as int].path@),
                fi@ == file_name_chars(libraries@[i as int].path@),
                seen == exists|t: int|
                    0 <= t < j && lib_key(#[trigger] libraries@[t]) == lib_key(
                        libraries@[i as int],
                    ),
            decreases i - j,
        {
            let lj = &libraries[j];
            let pj = parent_dir(lj.path.as_str());
            let fj = file_name(lj.path.as_str());
            if str_eq(pj, pi) && str_eq(fj, fi) {
                proof {
                    assert(lib_key(libraries@[j as int]) == lib_key(libraries@[i as int]));
                }
                seen = true;
            }
            j = j + 1;
        }
        proof {
            let pre = libraries@.take(i as int);
            let k = lib_key(libraries@[i as int]);
            if seen {
                let t = choose|t: int|
                    0 <= t < i && lib_key(#[trigger] libraries@[t]) == lib_key(
                        libraries@[i as int],
                    );
                assert(pre[t] == libraries@[t]);
                assert(contains_lib_key(pre, k));
            } else {
                if contains_lib_key(pre, k) {
                    let t = choose|t: int| 0 <= t < pre.len() && lib_key(#[trigger] pre[t]) == k;
                    assert(pre[t] == libraries@[t]);
                }
            }
            assert(seen == contains_lib_key(pre, k));
            assert(libraries@.take(i + 1).drop_last() =~= pre);
            assert(libraries@.take(i + 1).last() == libraries@[i as int]);
        }
        if !seen {
            out.push(libraries[i].duplicate());
        }
        i = i + 1;
    }
    proof {
        assert(libraries@.take(libraries@.len() as int) =~= libraries@);
    }
    out
}

/// A real file earns a cache entry only when it sits under its own
/// declared name.
pub open spec fn keep_real(l: ElfLibrary) -> bool {
    file_name_chars(l.path@) == l.soname@
}

/// The real files that earn entries, in order.
pub open spec fn filter_reals(s: Seq<ElfLibrary>) -> Seq<ElfLibrary>
    decreases s.len(),
{
    if s.len() == 0 {
        Seq::empty()
    } else {
        let d = filter_reals(s.drop_last());
        if keep_real(s.last()) {
            d.push(s.last())
        } else {
            d
        }
    }
}

/// A symlink descriptor paired with the file name its target carries,
/// when the link could be read.
pub open spec fn keep_link(l: ElfLibrary, target: Option<String>) -> bool {
    spec_should_include_symlink(
        file_name_chars(l.path@),
        l.soname@,
        match target {
            Some(t) => Some(t@),
            None => None,
        },
    )
}

/// The qualifying symlinks, in order.
pub open spec fn filter_links(s: Seq<(ElfLibrary, Option<String>)>) -> Seq<ElfLibrary>
    decreases s.len(),
{
    if s.len() == 0 {
        Seq::empty()
    } else {
        let d = filter_links(s.drop_last());
        if keep_link(s.last().0, s.last().1) {
            d.push(s.last().0)
        } else {
            d
        }
    }
}

/// Assemble the final entry list of a rebuild: the real files that sit
/// under their declared name, the qualifying existing symlinks (each
/// paired with its target's file name, when readable), and the links the
/// reconciler just created — deduplicated by (directory, file name) with
/// the first occurrence winning.
pub fn assemble_cache_entries(
    real_files: &Vec<ElfLibrary>,
    symlinks: &Vec<(ElfLibrary, Option<String>)>,
    new_links: &Vec<ElfLibrary>,
) -> (r: Vec<ElfLibrary>)
    ensures
        r@ == dedup_libs_spec(
            filter_reals(real_files@) + filter_links(symlinks@) + new_links@,
        ),
{
    let mut combined: Vec<ElfLibrary> = Vec::new();
    let mut i: usize = 0;
    while i < real_files.len()
        invariant
            0 <= i <= real_files@.len(),
            combined@ == filter_reals(real_files@.take(i as int)),
        decreases real_files@.len() - i,
    {
        let l = &real_files[i];
        if str_eq(file_name(l.path.as_str()), l.soname.as_str()) {
            combined.push(l.duplicate());
        }
        proof {
            assert(real_files@.take(i + 1).drop_last() =~= real_files@.take(i as int));
            assert(real_files@.take(i + 1).last() == real_files@[i as int]);
        }
        i = i + 1;
    }
    proof {
        assert(real_files@.take(real_files@.len() as int) =~= real_files@);
    }
    let ghost reals = combined@;
    let mut j: usize = 0;
    while j < symlinks.len()
        invariant
            0 <= j <= symlinks@.len(),
            combined@ == reals + filter_links(symlinks@.take(j as int)),
        decreases symlinks@.len() - j,
    {
        let pair = &symlinks[j];
        let l = &pair.0;
        let target = match &pair.1 {
            Some(t) => Some(t.as_str()),
            None => None,
        };
        if should_include_symlink(file_name(l.path.as_str()), l.soname.as_str(), target) {
            combined.push(l.duplicate());
            proof {
                assert(combined@ =~= reals + filter_links(symlinks@.take(j as int)).push(
                    symlinks@[j as int].0,
                ));
            }
        }
        proof {
            assert(symlinks@.take(j + 1).drop_last() =~= symlinks@.take(j as int));
            assert(symlinks@.take(j + 1).last() == symlinks@[j as int]);
        }
        j = j + 1;
    }
    proof {
        assert(symlinks@.take(symlinks@.len() as int) =~= symlinks@);
    }
    let ghost withlinks = combined@;
    let mut k: usize = 0;
    while k < new_links.len()
        invariant
            0 <= k <= new_links@.len(),
            combined@ == withlinks + new_links@.take(k as int),
        decreases new_links@.len() - k,
    {
        combined.push(new_links[k].duplicate());
        proof {
            assert(combined@ =~= withlinks + new_links@.take(k + 1));
        }
        k = k + 1;
    }
    proof {
        assert(new_links@.take(new_links@.len() as int) =~= new_links@);
        assert(combined@ =~= filter_reals(real_files@) + filter_links(symlinks@) + new_links@);
    }
    deduplicate_libraries(&combined)
}

/// Whether some directory of `s` equals `d`.
pub open spec fn contains_dir(s: Seq<String>, d: Seq<char>) -> bool {
    exists|i: int| 0 <= i < s.len() && (#[trigger] s[i])@ == d
}

/// The directory list with later duplicates dropped, keeping order.
pub open spec fn dedup_dirs_spec(s: Seq<String>) -> Seq<String>
    decreases s.len(),
{
    if s.len() == 0 {
        Seq::empty()
    } else {
        let d = dedup_dirs_spec(s.drop_last());
        if contains_dir(s.drop_last(), s.last()@) {
            d
        } else {
            d.push(s.last())
        }
    }
}

/// Deduplicate scan directories, keeping the first occurrence of each.
/// The caller hands in each directory in its canonical form, so that a
/// symlinked spelling of a directory already listed collapses onto it.
pub fn deduplicate_scan_directories(dirs: &Vec<String>) -> (r: Vec<String>)
    ensures
        r@ == dedup_dirs_spec(dirs@),
{
    let mut out: Vec<String> = Vec::new();
    let mut i: usize = 0;
    while i < dirs.len()
        invariant
            0 <= i <= dirs@.len(),
            out@ == dedup_dirs_spec(dirs@.take(i as int)),
        decreases dirs@.len() - i,
    {
        let di = &dirs[i];
        let mut seen = false;
        let mut j: usize = 0;
        while j < i
            invariant
                0 <= j <= i,
                i < dirs@.len(),
                di == &dirs@[i as int],
                seen == exists|t: int| 0 <= t < j && (#[trigger] dirs@[t])@ == dirs@[i as int]@,
            decreases i - j,
        {
            if str_eq(dirs[j].as_str(), di.as_str()) {
                seen = true;
            }
            j = j + 1;
        }
        proof {
            let pre = dirs@.take(i as int);
            let k = dirs@[i as int]@;
            if seen {
                let t = choose|t: int| 0 <= t < i && (#[trigger] dirs@[t])@ == dirs@[i as int]@;
                assert(pre[t] == dirs@[t]);
                assert(contains_dir(pre, k));
            } else {
                if contains_dir(pre, k) {
                    let t = choose|t: int| 0 <= t < pre.len() && (#[trigger] pre[t])@ == k;
                    assert(pre[t] == dirs@[t]);
                }
            }
            assert(seen == contains_dir(pre, k));
            assert(dirs@.take(i + 1).drop_last() =~= pre);
            assert(dirs@.take(i + 1).last() == dirs@[i as int]);
        }
        if !seen {
            out.push(dirs[i].clone());
        }
        i = i + 1;
    }
    proof {
        assert(dirs@.take(dirs@.len() as int) =~= dirs@);
    }
    out
}

} // verus!
