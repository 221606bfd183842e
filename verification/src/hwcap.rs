//! The hardware-capability registry: which directory-name tokens denote a
//! capability tier, and the bitmask each (tier, architecture) pair carries.
//! Higher bitmask values denote more specialized builds; a tag that means
//! nothing on an architecture yields 0, never an error.

use vstd::prelude::*;
use vstd::string::StrSliceExecFns;
use vstd::string::StringExecFns;
use crate::arch::ElfArch;
use crate::pathname::{contains_chars, contains_str, ends_with, ends_with_chars, file_name,
    file_name_chars, str_eq};

verus! {

/// A recognized capability tier.
#[derive(Debug, Clone, PartialEq)]
pub enum HwCap {
    Haswell,
    Avx512,
    Sse,
    Sve2,
    Power9,
    Custom(String),
}

/// Whether `c` is one of the recognized capability-tier tokens.
pub open spec fn spec_is_hwcap_token(c: Seq<char>) -> bool {
    ||| c == "x86-64-v2"@
    ||| c == "x86-64-v3"@
    ||| c == "x86-64-v4"@
    ||| c == "haswell"@
    ||| c == "avx512"@
    ||| c == "sse"@
    ||| c == "asimd"@
    ||| c == "neon"@
    ||| c == "sve2"@
    ||| c == "power9"@
    ||| c == "power10"@
}

impl HwCap {
    /// Recognize a directory-name token as a capability tier. Unrecognized
    /// names yield `None`: they are not treated as capability tiers.
    pub fn from_path_component(component: &str) -> (r: Option<HwCap>)
        ensures
            r is Some <==> spec_is_hwcap_token(component@),
            component@ == "haswell"@ ==> r == Some(HwCap::Haswell),
            component@ == "avx512"@ ==> r == Some(HwCap::Avx512),
            component@ == "sse"@ ==> r == Some(HwCap::Sse),
            component@ == "sve2"@ ==> r == Some(HwCap::Sve2),
            component@ == "power9"@ || component@ == "power10"@ ==> r == Some(HwCap::Power9),
            (component@ == "x86-64-v2"@ || component@ == "x86-64-v3"@ || component@ == "x86-64-v4"@
                || component@ == "asimd"@ || component@ == "neon"@) ==> (r matches Some(h)
                && h matches HwCap::Custom(s) && s@ == component@),
    {
        proof {
            reveal_strlit("x86-64-v2");
            reveal_strlit("x86-64-v3");
            reveal_strlit("x86-64-v4");
            reveal_strlit("haswell");
            reveal_strlit("avx512");
            reveal_strlit("sse");
            reveal_strlit("asimd");
            reveal_strlit("neon");
            reveal_strlit("sve2");
            reveal_strlit("power9");
            reveal_strlit("power10");
            assert("x86-64-v2"@.len() == 9);
            assert("x86-64-v3"@.len() == 9);
            assert("x86-64-v4"@.len() == 9);
            assert("haswell"@.len() == 7);
            assert("avx512"@.len() == 6);
            assert("sse"@.len() == 3);
            assert("asimd"@.len() == 5);
            assert("neon"@.len() == 4);
            assert("sve2"@.len() == 4);
            assert("power9"@.len() == 6);
            assert("power10"@.len() == 7);
            assert("neon"@ != "sve2"@) by {
                assert("neon"@[0] == 'n');
                assert("sve2"@[0] == 's');
            }
            assert("avx512"@ != "power9"@) by {
                assert("avx512"@[0] == 'a');
                assert("power9"@[0] == 'p');
            }
            assert("haswell"@ != "power10"@) by {
                assert("haswell"@[0] == 'h');
                assert("power10"@[0] == 'p');
            }
            assert("x86-64-v2"@ != "x86-64-v3"@) by {
                assert("x86-64-v2"@[8] == '2');
                assert("x86-64-v3"@[8] == '3');
            }
            assert("x86-64-v2"@ != "x86-64-v4"@) by {
                assert("x86-64-v2"@[8] == '2');
                assert("x86-64-v4"@[8] == '4');
            }
            assert("x86-64-v3"@ != "x86-64-v4"@) by {
                assert("x86-64-v3"@[8] == '3');
                assert("x86-64-v4"@[8] == '4');
            }
            assert("power9"@ != "power10"@);
        }
        if str_eq(component, "x86-64-v2") || str_eq(component, "x86-64-v3") || str_eq(
            component,
            "x86-64-v4",
        ) || str_eq(component, "asimd") || str_eq(component, "neon") {
            Some(HwCap::Custom(String::from_str(component)))
        } else if str_eq(component, "haswell") {
            Some(HwCap::Haswell)
        } else if str_eq(component, "avx512") {
            Some(HwCap::Avx512)
        } else if str_eq(component, "sse") {
            Some(HwCap::Sse)
        } else if str_eq(component, "sve2") {
            Some(HwCap::Sve2)
        } else if str_eq(component, "power9") || str_eq(component, "power10") {
            Some(HwCap::Power9)
        } else {
            None
        }
    }

    /// Convert a capability tier to its bitmask on the given architecture.
    pub fn to_bitmask(&self, arch: ElfArch) -> (r: u64)
        ensures
            r == spec_bitmask(*self, arch),
    {
        match self {
            HwCap::Custom(s) => {
                if arch == ElfArch::X86_64 {
                    if str_eq(s.as_str(), "x86-64-v2") {
                        0x01
                    } else if str_eq(s.as_str(), "x86-64-v3") {
                        0x02
                    } else if str_eq(s.as_str(), "x86-64-v4") {
                        0x04
                    } else {
                        0
                    }
                } else if arch == ElfArch::AArch64 {
                    if str_eq(s.as_str(), "asimd") || str_eq(s.as_str(), "neon") {
                        2
                    } else {
                        0
                    }
                } else if arch == ElfArch::PowerPC64 {
                    if str_eq(s.as_str(), "power10") {
                        2
                    } else {
                        0
                    }
                } else {
                    0
                }
            },
            HwCap::Haswell => if arch == ElfArch::X86_64 {
                0x02
            } else {
                0
            },
            HwCap::Avx512 => if arch == ElfArch::X86_64 {
                0x04
            } else {
                0
            },
            HwCap::Sse => 0,
            HwCap::Sve2 => if arch == ElfArch::AArch64 {
                4
            } else {
                0
            },
            HwCap::Power9 => if arch == ElfArch::PowerPC64 {
                1
            } else {
                0
            },
        }
    }
}

/// The bitmask a capability tier carries on an architecture. Pairs that
/// are not defined yield 0.
pub open spec fn spec_bitmask(h: HwCap, arch: ElfArch) -> u64 {
    match h {
        HwCap::Custom(s) => if arch == ElfArch::X86_64 {
            if s@ == "x86-64-v2"@ {
                0x01u64
            } else if s@ == "x86-64-v3"@ {
                0x02u64
            } else if s@ == "x86-64-v4"@ {
                0x04u64
            } else {
                0u64
            }
        } else if arch == ElfArch::AArch64 {
            if s@ == "asimd"@ || s@ == "neon"@ {
                2u64
            } else {
                0u64
            }
        } else if arch == ElfArch::PowerPC64 {
            if s@ == "power10"@ {
                2u64
            } else {
                0u64
            }
        } else {
            0u64
        },
        HwCap::Haswell => if arch == ElfArch::X86_64 {
            0x02u64
        } else {
            0u64
        },
        HwCap::Avx512 => if arch == ElfArch::X86_64 {
            0x04u64
        } else {
            0u64
        },
        HwCap::Sse => 0u64,
        HwCap::Sve2 => if arch == ElfArch::AArch64 {
            4u64
        } else {
            0u64
        },
        HwCap::Power9 => if arch == ElfArch::PowerPC64 {
            1u64
        } else {
            0u64
        },
    }
}

/// Index of the first separator at or after `i`, or the length when none.
pub open spec fn next_sep(p: Seq<char>, i: int) -> int
    decreases p.len() - i when 0 <= i <= p.len()
{
    if i >= p.len() {
        p.len() as int
    } else if p[i] == '/' {
        i
    } else {
        next_sep(p, i + 1)
    }
}

proof fn lemma_next_sep_bounds(p: Seq<char>, i: int)
    requires
        0 <= i <= p.len(),
    ensures
        i <= next_sep(p, i) <= p.len(),
    decreases p.len() - i,
{
    if i < p.len() && p[i] != '/' {
        lemma_next_sep_bounds(p, i + 1);
    }
}

/// The bitmask guessed from a path component, scanning components left to
/// right from position `i`: `haswell`, `avx512` and `sve2` are recognized.
pub open spec fn spec_hwcap_scan(p: Seq<char>, i: int) -> Option<u64>
    decreases p.len() - i when 0 <= i <= p.len()
        via hwcap_scan_decreases
{
    if i >= p.len() {
        None
    } else {
        let j = next_sep(p, i);
        let c = p.subrange(i, j);
        if c == "haswell"@ {
            Some(1u64)
        } else if c == "avx512"@ {
            Some(2u64)
        } else if c == "sve2"@ {
            Some(4u64)
        } else if j >= p.len() {
            None
        } else {
            spec_hwcap_scan(p, j + 1)
        }
    }
}

#[via_fn]
proof fn hwcap_scan_decreases(p: Seq<char>, i: int) {
    if 0 <= i < p.len() {
        lemma_next_sep_bounds(p, i);
    }
}

/// The path-based capability pre-guess of a descriptor path.
pub open spec fn spec_hwcap_from_path(p: Seq<char>) -> Option<u64> {
    spec_hwcap_scan(p, 0)
}

/// Guess a capability bitmask from the components of a path, before the
/// file's architecture is known. The scanner later overwrites this with an
/// architecture-aware recomputation.
pub fn detect_hwcap_from_path(path: &str) -> (r: Option<u64>)
    ensures
        r == spec_hwcap_from_path(path@),
{
    let len = path.unicode_len();
    let mut i: usize = 0;
    loop
        invariant
            0 <= i <= len,
            len == path@.len(),
            spec_hwcap_from_path(path@) == spec_hwcap_scan(path@, i as int),
        decreases len - i,
    {
        if i >= len {
            return None;
        }
        let mut j: usize = i;
        while j < len && path.get_char(j) != '/'
            invariant
                i <= j <= len,
                len == path@.len(),
                forall|t: int| i <= t < j ==> path@[t] != '/',
            decreases len - j,
        {
            j = j + 1;
        }
        proof {
            if j < len {
                lemma_next_sep_exact(path@, i as int, j as int);
            } else {
                lemma_next_sep_exact_end(path@, i as int);
            }
        }
        let c = path.substring_char(i, j);
        if str_eq(c, "haswell") {
            return Some(1);
        }
        if str_eq(c, "avx512") {
            return Some(2);
        }
        if str_eq(c, "sve2") {
            return Some(4);
        }
        if j >= len {
            return None;
        }
        i = j + 1;
    }
}

proof fn lemma_next_sep_exact(p: Seq<char>, i: int, j: int)
    requires
        0 <= i <= j < p.len(),
        p[j] == '/',
        forall|t: int| i <= t < j ==> p[t] != '/',
    ensures
        next_sep(p, i) == j,
    decreases j - i,
{
    if i < j {
        lemma_next_sep_exact(p, i + 1, j);
    }
}

proof fn lemma_next_sep_exact_end(p: Seq<char>, i: int)
    requires
        0 <= i <= p.len(),
        forall|t: int| i <= t < p.len() ==> p[t] != '/',
    ensures
        next_sep(p, i) == p.len(),
    decreases p.len() - i,
{
    if i < p.len() {
        lemma_next_sep_exact_end(p, i + 1);
    }
}

/// Whether a path names a shared-library file by its name alone: a `.so`
/// suffix on a non-empty stem, or a versioned `.so.` marker anywhere in
/// the file name.
pub open spec fn spec_is_shared_library(p: Seq<char>) -> bool {
    let f = file_name_chars(p);
    (f.len() > 3 && ends_with_chars(f, ".so"@)) || contains_chars(f, ".so."@)
}

/// Decide from a path's file name whether it looks like a shared library.
pub fn is_shared_library(path: &str) -> (r: bool)
    ensures
        r == spec_is_shared_library(path@),
{
    let f = file_name(path);
    (f.unicode_len() > 3 && ends_with(f, ".so")) || contains_str(f, ".so.")
}

} // verus!
