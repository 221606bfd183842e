//! Tests of the scanner's naming filters, deduplication and the
//! capability-tier override.

use ldconfig::arch::ElfArch;
use ldconfig::elf::{ElfLibrary, Provenance};
use ldconfig::hwcap::HwCap;
use ldconfig::scanner::{
    apply_hwcap_override, deduplicate_libraries, deduplicate_scan_directories, is_dso,
    should_include_symlink, should_scan_library,
};

fn lib(soname: &str, path: &str, arch: ElfArch) -> ElfLibrary {
    ElfLibrary {
        soname: soname.to_string(),
        path: path.to_string(),
        is_64bit: true,
        arch,
        is_hardfloat: false,
        osversion: 0,
        hwcap: None,
        provenance: Provenance::RealFile,
    }
}

#[test]
fn dso_name_patterns() {
    assert!(is_dso("libfoo.so"));
    assert!(is_dso("libfoo.so.1.2"));
    assert!(is_dso("ld-linux-x86-64.so.2"));
    assert!(is_dso("ld.so.1"));
    assert!(is_dso("ld64.so.2"));
    assert!(!is_dso("README"));
    assert!(!is_dso("libfoo.a"));
    assert!(!is_dso("foo.so"));
    assert!(!is_dso("lib"));
}

#[test]
fn scan_decision_looks_at_the_file_name_only() {
    assert!(should_scan_library("/usr/lib/libfoo.so.1"));
    assert!(!should_scan_library("/usr/lib/notalib.txt"));
    assert!(!should_scan_library("/usr/libfoo.so/readme"));
}

#[test]
fn bare_so_symlink_follows_its_target_name() {
    // Standard development link: libfoo.so -> libfoo.so.2 is included.
    assert!(should_include_symlink(
        "libfoo.so",
        "libfoo.so.2",
        Some("libfoo.so.2")
    ));
    // Dash-versioned or unrelated targets are excluded.
    assert!(!should_include_symlink(
        "libfoo.so",
        "libfoo-2.so",
        Some("libfoo-2.so")
    ));
    assert!(!should_include_symlink(
        "libfoo.so",
        "libbar.so.2",
        Some("libbar.so.2")
    ));
    // An unreadable target excludes the link.
    assert!(!should_include_symlink("libfoo.so", "libfoo.so.2", None));
}

#[test]
fn versioned_symlink_must_match_its_declared_name() {
    assert!(should_include_symlink("libfoo.so.2", "libfoo.so.2", None));
    assert!(!should_include_symlink("libfoo.so.2", "libfoo.so.3", None));
}

#[test]
fn duplicate_directory_and_file_name_pairs_collapse() {
    let libs = vec![
        lib("liba.so.1", "/lib/liba.so.1", ElfArch::X86_64),
        lib("liba.so.1", "/lib/liba.so.1", ElfArch::X86_64),
        lib("liba.so.1", "/usr/lib/liba.so.1", ElfArch::X86_64),
    ];
    let unique = deduplicate_libraries(&libs);
    // The exact duplicate is dropped; the same name in another directory
    // is kept.
    assert_eq!(unique.len(), 2);
    assert_eq!(unique[0].path, "/lib/liba.so.1");
    assert_eq!(unique[1].path, "/usr/lib/liba.so.1");
}

#[test]
fn scan_directories_deduplicate_by_first_occurrence() {
    let dirs = vec![
        "/lib".to_string(),
        "/usr/lib".to_string(),
        "/lib".to_string(),
    ];
    let unique = deduplicate_scan_directories(&dirs);
    assert_eq!(unique, vec!["/lib".to_string(), "/usr/lib".to_string()]);
}

#[test]
fn capability_override_recomputes_for_the_true_architecture() {
    // The path-based guess saw "haswell" and guessed 1; once the file's
    // architecture is known, the tier's architecture-aware bitmask wins.
    let mut l = lib("libm.so.6", "/usr/lib/haswell/libm.so.6", ElfArch::X86_64);
    l.hwcap = Some(1);
    let cap = HwCap::from_path_component("haswell").unwrap();
    apply_hwcap_override(&mut l, &cap);
    assert_eq!(l.hwcap, Some(2));
    assert_eq!(l.soname, "libm.so.6");

    // On another architecture the same tier yields 0, not an error.
    let mut l2 = lib("libm.so.6", "/usr/lib/haswell/libm.so.6", ElfArch::ARM);
    apply_hwcap_override(&mut l2, &cap);
    assert_eq!(l2.hwcap, Some(0));
}
