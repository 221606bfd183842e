//! Library descriptors and the rules that decide whether an inspected file
//! qualifies as a cache-worthy shared object.
//!
//! The raw decoding of ELF bytes is an external capability; this module
//! holds the verified classification rules applied to what that capability
//! reports: object type, dynamic segment presence, declared name, machine
//! type and ABI flags.

use vstd::prelude::*;
use crate::arch::ElfArch;

verus! {

/// Whether a descriptor was produced from a regular file or from a symlink,
/// as reported by filesystem metadata of the directory entry itself.
#[derive(Debug, Clone, Copy, PartialEq, Eq, Structural)]
pub enum Provenance {
    RealFile,
    Symlink,
}

/// A shared library discovered on disk: the unit of work throughout the
/// scanner, the reconciler and the codec.
#[derive(Debug, Clone)]
pub struct ElfLibrary {
    /// The library's self-declared logical name (its SONAME), used as the
    /// cache lookup key. Never empty.
    pub soname: String,
    /// Path of the file on disk.
    pub path: String,
    /// Whether the object is a 64-bit ELF.
    pub is_64bit: bool,
    /// The machine class.
    pub arch: ElfArch,
    /// Whether the object declares the hard-float ABI.
    pub is_hardfloat: bool,
    /// Minimum OS version; 0 means unconstrained.
    pub osversion: u32,
    /// Capability bitmask, present for files found under a capability-tier
    /// subdirectory or inferred from the path.
    pub hwcap: Option<u64>,
    /// Whether the file itself is a symlink.
    pub provenance: Provenance,
}

impl ElfLibrary {
    /// A field-for-field copy whose value Verus can track, unlike the
    /// derived `Clone`.
    pub fn duplicate(&self) -> (r: ElfLibrary)
        ensures
            r == *self,
    {
        ElfLibrary {
            soname: self.soname.clone(),
            path: self.path.clone(),
            is_64bit: self.is_64bit,
            arch: self.arch,
            is_hardfloat: self.is_hardfloat,
            osversion: self.osversion,
            hwcap: self.hwcap,
            provenance: self.provenance,
        }
    }
}

/// ELF object type tag for a shared object.
pub const ET_DYN: u16 = 3;

/// Program header type tag for the dynamic segment.
pub const PT_DYNAMIC: u32 = 2;

/// ELF machine-type values for the supported architectures.
pub const EM_386: u16 = 3;
pub const EM_PPC64: u16 = 21;
pub const EM_ARM: u16 = 40;
pub const EM_X86_64: u16 = 62;
pub const EM_AARCH64: u16 = 183;
pub const EM_RISCV: u16 = 243;

/// The architecture class a machine-type value maps to, or `None` when the
/// machine type is outside the supported set.
pub open spec fn spec_arch_from_machine(machine: u16) -> Option<ElfArch> {
    if machine == EM_X86_64 {
        Some(ElfArch::X86_64)
    } else if machine == EM_AARCH64 {
        Some(ElfArch::AArch64)
    } else if machine == EM_RISCV {
        Some(ElfArch::RiscV64)
    } else if machine == EM_PPC64 {
        Some(ElfArch::PowerPC64)
    } else if machine == EM_386 {
        Some(ElfArch::I686)
    } else if machine == EM_ARM {
        Some(ElfArch::ARM)
    } else {
        None
    }
}

/// Map an ELF machine-type value to the supported architecture set.
pub fn arch_from_machine(machine: u16) -> (r: Option<ElfArch>)
    ensures
        r == spec_arch_from_machine(machine),
{
    if machine == EM_X86_64 {
        Some(ElfArch::X86_64)
    } else if machine == EM_AARCH64 {
        Some(ElfArch::AArch64)
    } else if machine == EM_RISCV {
        Some(ElfArch::RiscV64)
    } else if machine == EM_PPC64 {
        Some(ElfArch::PowerPC64)
    } else if machine == EM_386 {
        Some(ElfArch::I686)
    } else if machine == EM_ARM {
        Some(ElfArch::ARM)
    } else {
        None
    }
}

/// Whether the flag word of an ARM object declares the hard-float ABI.
pub open spec fn spec_is_hardfloat(machine: u16, e_flags: u32) -> bool {
    machine == EM_ARM && e_flags & 0x400 != 0
}

/// Decide the hard-float ABI flag: only ARM objects carry it, in bit 10 of
/// the ELF header flag word.
pub fn detect_hardfloat(machine: u16, e_flags: u32) -> (r: bool)
    ensures
        r == spec_is_hardfloat(machine, e_flags),
{
    machine == EM_ARM && e_flags & 0x400 != 0
}

/// Minimum OS version of an object. Note-section decoding is not performed;
/// every object is reported as unconstrained.
pub fn extract_osversion() -> (r: u32)
    ensures
        r == 0,
{
    0
}

/// What the external ELF-introspection capability reports about an image:
/// its object type, machine type, flag word, word size, whether a dynamic
/// segment is present, and the declared name.
pub struct ElfReport {
    pub e_type: u16,
    pub e_machine: u16,
    pub e_flags: u32,
    pub is_64: bool,
    pub has_dynamic: bool,
    pub soname: Option<String>,
}

/// Whether a report passes the acceptance rules: a shared object with a
/// dynamic segment, a non-empty declared name, and a supported machine
/// type.
pub open spec fn spec_accepts(rep: ElfReport) -> bool {
    &&& rep.e_type == ET_DYN
    &&& rep.has_dynamic
    &&& match rep.soname {
        Some(s) => s@.len() > 0,
        None => false,
    }
    &&& spec_arch_from_machine(rep.e_machine) is Some
}

/// Build a descriptor from an introspection report. Returns `None`
/// exactly when the report fails the acceptance rules: the object is not
/// a shared object, has no dynamic segment, declares no (or an empty)
/// name, or its machine type is unsupported. Every failure is a silent
/// skip by design.
pub fn describe_from_report(rep: ElfReport, path: String, provenance: Provenance) -> (r: Option<
    ElfLibrary,
>)
    ensures
        r is Some <==> spec_accepts(rep),
        r matches Some(l) ==> {
            &&& match rep.soname {
                Some(s) => l.soname == s,
                None => false,
            }
            &&& l.path == path
            &&& l.is_64bit == rep.is_64
            &&& Some(l.arch) == spec_arch_from_machine(rep.e_machine)
            &&& l.is_hardfloat == spec_is_hardfloat(rep.e_machine, rep.e_flags)
            &&& l.osversion == 0
            &&& l.hwcap == crate::hwcap::spec_hwcap_from_path(path@)
            &&& l.provenance == provenance
        },
{
    if rep.e_type != ET_DYN {
        return None;
    }
    if !rep.has_dynamic {
        return None;
    }
    let soname = match rep.soname {
        Some(s) => s,
        None => {
            return None;
        },
    };
    if soname.as_str().is_empty() {
        return None;
    }
    let arch = match arch_from_machine(rep.e_machine) {
        Some(a) => a,
        None => {
            return None;
        },
    };
    let is_hardfloat = detect_hardfloat(rep.e_machine, rep.e_flags);
    let hwcap = crate::hwcap::detect_hwcap_from_path(path.as_str());
    let osversion = extract_osversion();
    Some(
        ElfLibrary {
            soname,
            path,
            is_64bit: rep.is_64,
            arch,
            is_hardfloat,
            osversion,
            hwcap,
            provenance,
        },
    )
}

/// Whether `goblin::elf::Elf::parse` decodes these bytes. The decoding
/// depends on the byte argument alone.
pub uninterp spec fn elf_parses(b: Seq<u8>) -> bool;

/// The decoded header's object-type field.
pub uninterp spec fn elf_e_type_of(b: Seq<u8>) -> u16;

/// The decoded header's machine-type field.
pub uninterp spec fn elf_e_machine_of(b: Seq<u8>) -> u16;

/// The decoded header's flag word.
pub uninterp spec fn elf_e_flags_of(b: Seq<u8>) -> u32;

/// Whether the decoded image is a 64-bit ELF.
pub uninterp spec fn elf_is_64_of(b: Seq<u8>) -> bool;

/// The type tags of the decoded program headers, in order.
pub uninterp spec fn elf_ptypes_of(b: Seq<u8>) -> Seq<u32>;

/// The declared name the decoded dynamic section carries, if any.
pub uninterp spec fn elf_soname_of(b: Seq<u8>) -> Option<Seq<char>>;

/// Relies on `goblin::elf::Elf::parse` and the fields of the decoded
/// image (`header.e_type`/`e_machine`/`e_flags`, `is_64`,
/// `program_headers[..].p_type`, `soname`): the parser is `Result`-based
/// and bounds-checked on malformed input, and everything it reports is a
/// function of the byte argument alone.
#[verifier::external_body]
fn elf_introspect(bytes: &[u8]) -> (r: Option<(u16, u16, u32, bool, Vec<u32>, Option<String>)>)
    ensures
        r is Some <==> elf_parses(bytes@),
        r matches Some(t) ==> {
            &&& t.0 == elf_e_type_of(bytes@)
            &&& t.1 == elf_e_machine_of(bytes@)
            &&& t.2 == elf_e_flags_of(bytes@)
            &&& t.3 == elf_is_64_of(bytes@)
            &&& t.4@ == elf_ptypes_of(bytes@)
            &&& match t.5 {
                Some(s) => elf_soname_of(bytes@) == Some(s@),
                None => elf_soname_of(bytes@) is None,
            }
        },
{
    match goblin::elf::Elf::parse(bytes) {
        Ok(e) => Some(
            (
                e.header.e_type,
                e.header.e_machine,
                e.header.e_flags,
                e.is_64,
                e.program_headers.iter().map(|ph| ph.p_type).collect(),
                e.soname.map(|s| s.to_string()),
            ),
        ),
        Err(_) => None,
    }
}

/// Whether an image's bytes yield a descriptor: they decode as an ELF
/// image and the decoded fields pass the acceptance rules — a shared
/// object, a dynamic segment among the program headers, a non-empty
/// declared name, and a supported machine type.
pub open spec fn spec_extracts(b: Seq<u8>) -> bool {
    &&& elf_parses(b)
    &&& elf_e_type_of(b) == ET_DYN
    &&& elf_ptypes_of(b).contains(PT_DYNAMIC)
    &&& match elf_soname_of(b) {
        Some(s) => s.len() > 0,
        None => false,
    }
    &&& spec_arch_from_machine(elf_e_machine_of(b)) is Some
}

/// Inspect ELF image bytes and produce a descriptor, exactly when the
/// bytes decode as a supported shared object with a dynamic segment and
/// a non-empty declared name. The raw decoding is goblin's, named by
/// [`elf_parses`] and its field companions; the acceptance rules are
/// verified in [`describe_from_report`]. Any failure is a silent skip.
pub fn parse_elf_bytes(bytes: &[u8], path: String, provenance: Provenance) -> (r: Option<
    ElfLibrary,
>)
    ensures
        r is Some <==> spec_extracts(bytes@),
        r matches Some(l) ==> {
            &&& Some(l.soname@) == elf_soname_of(bytes@)
            &&& l.soname@.len() > 0
            &&& l.path == path
            &&& l.is_64bit == elf_is_64_of(bytes@)
            &&& Some(l.arch) == spec_arch_from_machine(elf_e_machine_of(bytes@))
            &&& l.is_hardfloat == spec_is_hardfloat(
                elf_e_machine_of(bytes@),
                elf_e_flags_of(bytes@),
            )
            &&& l.osversion == 0
            &&& l.hwcap == crate::hwcap::spec_hwcap_from_path(path@)
            &&& l.provenance == provenance
        },
{
    let t = match elf_introspect(bytes) {
        Some(t) => t,
        None => {
            return None;
        },
    };
    let (e_type, e_machine, e_flags, is_64, ptypes, soname) = t;
    let mut has_dynamic = false;
    let mut i: usize = 0;
    while i < ptypes.len()
        invariant
            0 <= i <= ptypes@.len(),
            has_dynamic == exists|t: int| 0 <= t < i && ptypes@[t] == PT_DYNAMIC,
        decreases ptypes@.len() - i,
    {
        if ptypes[i] == PT_DYNAMIC {
            has_dynamic = true;
        }
        i = i + 1;
    }
    proof {
        assert(has_dynamic == ptypes@.contains(PT_DYNAMIC));
    }
    let rep = ElfReport { e_type, e_machine, e_flags, is_64, has_dynamic, soname };
    let ghost b = bytes@;
    proof {
        assert(spec_accepts(rep) == spec_extracts(b));
    }
    describe_from_report(rep, path, provenance)
}

} // verus!
