//! Tests of the capability registry and the architecture flag encoding.

use ldconfig::arch::{arch_to_flags, decode_arch_flags, flags_to_arch_string, ElfArch};
use ldconfig::elf::{arch_from_machine, describe_from_report, detect_hardfloat, ElfReport,
    Provenance};
use ldconfig::hwcap::{detect_hwcap_from_path, is_shared_library, HwCap};

#[test]
fn recognized_tier_tokens() {
    assert_eq!(HwCap::from_path_component("haswell"), Some(HwCap::Haswell));
    assert_eq!(HwCap::from_path_component("avx512"), Some(HwCap::Avx512));
    assert_eq!(HwCap::from_path_component("sse"), Some(HwCap::Sse));
    assert_eq!(HwCap::from_path_component("sve2"), Some(HwCap::Sve2));
    assert_eq!(HwCap::from_path_component("power9"), Some(HwCap::Power9));
    assert_eq!(HwCap::from_path_component("power10"), Some(HwCap::Power9));
    assert_eq!(
        HwCap::from_path_component("x86-64-v3"),
        Some(HwCap::Custom("x86-64-v3".to_string()))
    );
    assert_eq!(HwCap::from_path_component("generic"), None);
    assert_eq!(HwCap::from_path_component(""), None);
}

#[test]
fn bitmasks_are_architecture_aware() {
    assert_eq!(
        HwCap::Custom("x86-64-v2".to_string()).to_bitmask(ElfArch::X86_64),
        0x01
    );
    assert_eq!(
        HwCap::Custom("x86-64-v3".to_string()).to_bitmask(ElfArch::X86_64),
        0x02
    );
    assert_eq!(
        HwCap::Custom("x86-64-v4".to_string()).to_bitmask(ElfArch::X86_64),
        0x04
    );
    assert_eq!(HwCap::Haswell.to_bitmask(ElfArch::X86_64), 0x02);
    assert_eq!(HwCap::Avx512.to_bitmask(ElfArch::X86_64), 0x04);
    assert_eq!(HwCap::Sse.to_bitmask(ElfArch::X86_64), 0);
    assert_eq!(HwCap::Sve2.to_bitmask(ElfArch::AArch64), 4);
    assert_eq!(HwCap::Power9.to_bitmask(ElfArch::PowerPC64), 1);
    // A tier meaningful on one architecture yields 0, not an error, on
    // another.
    assert_eq!(HwCap::Haswell.to_bitmask(ElfArch::AArch64), 0);
    assert_eq!(HwCap::Sve2.to_bitmask(ElfArch::X86_64), 0);
}

#[test]
fn path_guess_takes_the_first_recognized_component() {
    assert_eq!(detect_hwcap_from_path("/usr/lib/haswell/libx.so"), Some(1));
    assert_eq!(detect_hwcap_from_path("/usr/lib/avx512/libx.so"), Some(2));
    assert_eq!(detect_hwcap_from_path("/usr/lib/sve2/libx.so"), Some(4));
    assert_eq!(detect_hwcap_from_path("/usr/lib/libx.so"), None);
}

#[test]
fn shared_library_file_names() {
    assert!(is_shared_library("/lib/libfoo.so"));
    assert!(is_shared_library("/lib/libfoo.so.1.2.3"));
    assert!(!is_shared_library("/lib/libfoo.a"));
    assert!(!is_shared_library("/lib/.so"));
}

#[test]
fn arch_flags_encode_and_decode() {
    assert_eq!(arch_to_flags(ElfArch::X86_64, true, false), 0x0303);
    assert_eq!(arch_to_flags(ElfArch::X86_64, false, false), 0x0003);
    assert_eq!(arch_to_flags(ElfArch::AArch64, true, false), 0x0a03);
    assert_eq!(arch_to_flags(ElfArch::RiscV64, true, false), 0x1003);
    assert_eq!(arch_to_flags(ElfArch::PowerPC64, true, false), 0x0503);
    assert_eq!(arch_to_flags(ElfArch::I686, false, false), 0x0003);
    assert_eq!(arch_to_flags(ElfArch::ARM, false, true), 0x0903);
    assert_eq!(arch_to_flags(ElfArch::ARM, false, false), 0x0003);

    assert_eq!(decode_arch_flags(0x0303), "libc6,x86-64");
    assert_eq!(decode_arch_flags(0x0a03), "libc6,AArch64");
    assert_eq!(decode_arch_flags(0x0903), "libc6,ARM,hard-float");
    assert_eq!(decode_arch_flags(0x0003), "libc6");
    assert_eq!(decode_arch_flags(0x1003), "libc6,RISC-V 64-bit");

    assert_eq!(flags_to_arch_string(0x0303), "x86-64");
    assert_eq!(flags_to_arch_string(0x0a03), "AArch64");
    assert_eq!(flags_to_arch_string(0x0003), "ELF");
}

#[test]
fn machine_types_map_to_the_supported_set() {
    assert_eq!(arch_from_machine(62), Some(ElfArch::X86_64));
    assert_eq!(arch_from_machine(183), Some(ElfArch::AArch64));
    assert_eq!(arch_from_machine(243), Some(ElfArch::RiscV64));
    assert_eq!(arch_from_machine(21), Some(ElfArch::PowerPC64));
    assert_eq!(arch_from_machine(3), Some(ElfArch::I686));
    assert_eq!(arch_from_machine(40), Some(ElfArch::ARM));
    assert_eq!(arch_from_machine(8), None);
    assert!(detect_hardfloat(40, 0x400));
    assert!(!detect_hardfloat(40, 0));
    assert!(!detect_hardfloat(62, 0x400));
}

#[test]
fn descriptor_acceptance_rules() {
    let good = ElfReport {
        e_type: 3,
        e_machine: 62,
        e_flags: 0,
        is_64: true,
        has_dynamic: true,
        soname: Some("libfoo.so.2".to_string()),
    };
    let l = describe_from_report(good, "/usr/lib/haswell/libfoo.so.2".to_string(),
        Provenance::RealFile)
        .unwrap();
    assert_eq!(l.soname, "libfoo.so.2");
    assert_eq!(l.arch, ElfArch::X86_64);
    assert_eq!(l.osversion, 0);
    // The path-derived capability guess is attached.
    assert_eq!(l.hwcap, Some(1));

    // Not a shared object.
    let mut r = ElfReport {
        e_type: 2,
        e_machine: 62,
        e_flags: 0,
        is_64: true,
        has_dynamic: true,
        soname: Some("libfoo.so.2".to_string()),
    };
    assert!(describe_from_report(r, "/x".to_string(), Provenance::RealFile).is_none());
    // No dynamic segment.
    r = ElfReport {
        e_type: 3,
        e_machine: 62,
        e_flags: 0,
        is_64: true,
        has_dynamic: false,
        soname: Some("libfoo.so.2".to_string()),
    };
    assert!(describe_from_report(r, "/x".to_string(), Provenance::RealFile).is_none());
    // Empty or missing declared name.
    r = ElfReport {
        e_type: 3,
        e_machine: 62,
        e_flags: 0,
        is_64: true,
        has_dynamic: true,
        soname: Some(String::new()),
    };
    assert!(describe_from_report(r, "/x".to_string(), Provenance::RealFile).is_none());
    r = ElfReport {
        e_type: 3,
        e_machine: 62,
        e_flags: 0,
        is_64: true,
        has_dynamic: true,
        soname: None,
    };
    assert!(describe_from_report(r, "/x".to_string(), Provenance::RealFile).is_none());
    // Unsupported machine type.
    r = ElfReport {
        e_type: 3,
        e_machine: 8,
        e_flags: 0,
        is_64: true,
        has_dynamic: true,
        soname: Some("libfoo.so.2".to_string()),
    };
    assert!(describe_from_report(r, "/x".to_string(), Provenance::RealFile).is_none());
}
