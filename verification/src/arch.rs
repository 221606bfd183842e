//! Architecture classes and their encoding in cache entry flag words.
//!
//! Every cache entry carries a 32-bit flag word: a base value marking an
//! ELF shared object for the standard C library ABI, combined with an
//! architecture/ABI class field in bits 8-15.

use vstd::prelude::*;

verus! {

/// Base flag: ELF shared object, standard C library ABI.
pub const FLAG_ELF_LIBC6: u32 = 0x0003;

pub const FLAG_SPARC_LIB64: u32 = 0x0100;
pub const FLAG_X8664_LIB64: u32 = 0x0300;
pub const FLAG_S390_LIB64: u32 = 0x0400;
pub const FLAG_POWERPC_LIB64: u32 = 0x0500;
pub const FLAG_MIPS64_LIBN32: u32 = 0x0600;
pub const FLAG_MIPS64_LIBN64: u32 = 0x0700;
pub const FLAG_X8664_LIBX32: u32 = 0x0800;
pub const FLAG_ARM_LIBHF: u32 = 0x0900;
pub const FLAG_AARCH64_LIB64: u32 = 0x0a00;
pub const FLAG_ARM_LIBSF: u32 = 0x0b00;
pub const FLAG_RISCV_FLOAT_ABI_SOFT: u32 = 0x0f00;
pub const FLAG_RISCV_FLOAT_ABI_DOUBLE: u32 = 0x1000;

/// The closed set of architectures a descriptor may carry.
#[derive(Debug, Clone, Copy, PartialEq, Eq, Structural)]
pub enum ElfArch {
    X86_64,
    AArch64,
    RiscV64,
    PowerPC64,
    I686,
    ARM,
}

/// The flag word that `arch_to_flags` computes for a given architecture and
/// its ABI modifiers.
pub open spec fn spec_arch_to_flags(arch: ElfArch, is_64bit: bool, is_hardfloat: bool) -> u32 {
    match arch {
        ElfArch::X86_64 => if is_64bit {
            FLAG_X8664_LIB64 | FLAG_ELF_LIBC6
        } else {
            FLAG_ELF_LIBC6
        },
        ElfArch::AArch64 => FLAG_AARCH64_LIB64 | FLAG_ELF_LIBC6,
        ElfArch::RiscV64 => FLAG_RISCV_FLOAT_ABI_DOUBLE | FLAG_ELF_LIBC6,
        ElfArch::PowerPC64 => FLAG_POWERPC_LIB64 | FLAG_ELF_LIBC6,
        ElfArch::I686 => FLAG_ELF_LIBC6,
        ElfArch::ARM => if is_hardfloat {
            FLAG_ARM_LIBHF | FLAG_ELF_LIBC6
        } else {
            FLAG_ELF_LIBC6
        },
    }
}

/// Convert an architecture with its ABI modifiers to the cache flag word.
///
/// The architecture/ABI class occupies bits 8-15; the base value marks the
/// entry as an ELF object for the standard C library. Two architectures take
/// a secondary modifier: 64-bit-ness for x86, hard-float-ness for ARM.
pub fn arch_to_flags(arch: ElfArch, is_64bit: bool, is_hardfloat: bool) -> (r: u32)
    ensures
        r == spec_arch_to_flags(arch, is_64bit, is_hardfloat),
{
    match arch {
        ElfArch::X86_64 => if is_64bit {
            FLAG_X8664_LIB64 | FLAG_ELF_LIBC6
        } else {
            FLAG_ELF_LIBC6
        },
        ElfArch::AArch64 => FLAG_AARCH64_LIB64 | FLAG_ELF_LIBC6,
        ElfArch::RiscV64 => FLAG_RISCV_FLOAT_ABI_DOUBLE | FLAG_ELF_LIBC6,
        ElfArch::PowerPC64 => FLAG_POWERPC_LIB64 | FLAG_ELF_LIBC6,
        ElfArch::I686 => FLAG_ELF_LIBC6,
        ElfArch::ARM => if is_hardfloat {
            FLAG_ARM_LIBHF | FLAG_ELF_LIBC6
        } else {
            FLAG_ELF_LIBC6
        },
    }
}

/// The label that `flags_to_arch_string` gives a flag word.
pub open spec fn spec_arch_label(flags: u32) -> Seq<char> {
    let arch_flag = flags & 0xff00;
    if arch_flag == FLAG_X8664_LIB64 {
        "x86-64"@
    } else if arch_flag == FLAG_AARCH64_LIB64 {
        "AArch64"@
    } else if arch_flag == FLAG_RISCV_FLOAT_ABI_DOUBLE {
        "RISC-V 64-bit (lp64d)"@
    } else if arch_flag == FLAG_POWERPC_LIB64 {
        "PowerPC 64-bit"@
    } else if arch_flag == FLAG_ARM_LIBHF {
        "ARM hard-float"@
    } else if arch_flag == FLAG_ARM_LIBSF {
        "ARM soft-float"@
    } else if arch_flag == FLAG_SPARC_LIB64 {
        "SPARC 64-bit"@
    } else if arch_flag == FLAG_S390_LIB64 {
        "S390 64-bit"@
    } else if arch_flag == FLAG_MIPS64_LIBN32 {
        "MIPS N32"@
    } else if arch_flag == FLAG_MIPS64_LIBN64 {
        "MIPS 64-bit"@
    } else if arch_flag == FLAG_X8664_LIBX32 {
        "x86-64 x32"@
    } else if arch_flag == FLAG_RISCV_FLOAT_ABI_SOFT {
        "RISC-V soft-float"@
    } else if flags & FLAG_ELF_LIBC6 == FLAG_ELF_LIBC6 {
        "ELF"@
    } else {
        "unknown"@
    }
}

/// Render the architecture/ABI class of a flag word as a human-readable label.
pub fn flags_to_arch_string(flags: u32) -> (r: &'static str)
    ensures
        r@ == spec_arch_label(flags),
{
    let arch_flag = flags & 0xff00;
    if arch_flag == FLAG_X8664_LIB64 {
        "x86-64"
    } else if arch_flag == FLAG_AARCH64_LIB64 {
        "AArch64"
    } else if arch_flag == FLAG_RISCV_FLOAT_ABI_DOUBLE {
        "RISC-V 64-bit (lp64d)"
    } else if arch_flag == FLAG_POWERPC_LIB64 {
        "PowerPC 64-bit"
    } else if arch_flag == FLAG_ARM_LIBHF {
        "ARM hard-float"
    } else if arch_flag == FLAG_ARM_LIBSF {
        "ARM soft-float"
    } else if arch_flag == FLAG_SPARC_LIB64 {
        "SPARC 64-bit"
    } else if arch_flag == FLAG_S390_LIB64 {
        "S390 64-bit"
    } else if arch_flag == FLAG_MIPS64_LIBN32 {
        "MIPS N32"
    } else if arch_flag == FLAG_MIPS64_LIBN64 {
        "MIPS 64-bit"
    } else if arch_flag == FLAG_X8664_LIBX32 {
        "x86-64 x32"
    } else if arch_flag == FLAG_RISCV_FLOAT_ABI_SOFT {
        "RISC-V soft-float"
    } else if flags & FLAG_ELF_LIBC6 == FLAG_ELF_LIBC6 {
        "ELF"
    } else {
        "unknown"
    }
}

/// The label that `decode_arch_flags` gives a flag word, in the loader's
/// own output format.
pub open spec fn spec_decode_arch_flags(flags: u32) -> Seq<char> {
    let arch_bits = (flags >> 8) & 0xff;
    if arch_bits == 0x00 {
        "libc6"@
    } else if arch_bits == 0x01 {
        "libc6,SPARC 64-bit"@
    } else if arch_bits == 0x03 {
        "libc6,x86-64"@
    } else if arch_bits == 0x04 {
        "libc6,64bit"@
    } else if arch_bits == 0x05 {
        "libc6,64bit"@
    } else if arch_bits == 0x06 {
        "libc6,IA-64"@
    } else if arch_bits == 0x07 {
        "libc6,MIPS 64-bit"@
    } else if arch_bits == 0x08 {
        "libc6,x32"@
    } else if arch_bits == 0x09 {
        "libc6,ARM,hard-float"@
    } else if arch_bits == 0x0a {
        "libc6,AArch64"@
    } else if arch_bits == 0x0b {
        "libc6,ARM,soft-float"@
    } else if arch_bits == 0x10 {
        "libc6,RISC-V 64-bit"@
    } else {
        "unknown"@
    }
}

/// Decode the architecture field of a flag word, matching the output format
/// of the system loader's cache printer.
pub fn decode_arch_flags(flags: u32) -> (r: &'static str)
    ensures
        r@ == spec_decode_arch_flags(flags),
{
    let arch_bits = (flags >> 8) & 0xff;
    if arch_bits == 0x00 {
        "libc6"
    } else if arch_bits == 0x01 {
        "libc6,SPARC 64-bit"
    } else if arch_bits == 0x03 {
        "libc6,x86-64"
    } else if arch_bits == 0x04 {
        "libc6,64bit"
    } else if arch_bits == 0x05 {
        "libc6,64bit"
    } else if arch_bits == 0x06 {
        "libc6,IA-64"
    } else if arch_bits == 0x07 {
        "libc6,MIPS 64-bit"
    } else if arch_bits == 0x08 {
        "libc6,x32"
    } else if arch_bits == 0x09 {
        "libc6,ARM,hard-float"
    } else if arch_bits == 0x0a {
        "libc6,AArch64"
    } else if arch_bits == 0x0b {
        "libc6,ARM,soft-float"
    } else if arch_bits == 0x10 {
        "libc6,RISC-V 64-bit"
    } else {
        "unknown"
    }
}

} // verus!
