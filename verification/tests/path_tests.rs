//! Tests of the path/name helpers and of descriptor extraction from
//! non-library bytes.

use ldconfig::elf::{parse_elf_bytes, Provenance};
use ldconfig::pathname::{contains_str, ends_with, file_name, join_path, parent_dir, starts_with,
    str_eq};

#[test]
fn file_name_and_parent() {
    assert_eq!(file_name("/usr/lib/libfoo.so.1"), "libfoo.so.1");
    assert_eq!(file_name("libfoo.so.1"), "libfoo.so.1");
    assert_eq!(file_name("/libx.so"), "libx.so");
    assert_eq!(parent_dir("/usr/lib/libfoo.so.1"), "/usr/lib");
    assert_eq!(parent_dir("/libx.so"), "/");
    assert_eq!(parent_dir("libx.so"), "");
}

#[test]
fn join_inserts_a_separator_when_needed() {
    assert_eq!(join_path("/usr/lib", "libfoo.so"), "/usr/lib/libfoo.so");
    assert_eq!(join_path("/usr/lib/", "libfoo.so"), "/usr/lib/libfoo.so");
    assert_eq!(join_path("", "libfoo.so"), "libfoo.so");
}

#[test]
fn string_predicates() {
    assert!(str_eq("abc", "abc"));
    assert!(!str_eq("abc", "abd"));
    assert!(starts_with("libfoo.so", "lib"));
    assert!(!starts_with("lib", "libfoo"));
    assert!(ends_with("libfoo.so", ".so"));
    assert!(!ends_with("libfoo.so.1", ".so"));
    assert!(contains_str("libfoo.so.1", ".so."));
    assert!(!contains_str("libfoo.so", ".so."));
    assert!(contains_str("abc", ""));
}

#[test]
fn non_elf_bytes_yield_no_descriptor() {
    let junk = vec![0u8; 16];
    assert!(parse_elf_bytes(&junk, "/lib/libjunk.so".to_string(), Provenance::RealFile).is_none());
    let text = b"this is not an ELF image at all".to_vec();
    assert!(parse_elf_bytes(&text, "/lib/libtext.so".to_string(), Provenance::RealFile).is_none());
}

fn p16(v: &mut Vec<u8>, x: u16) {
    v.extend_from_slice(&x.to_le_bytes());
}

fn p32(v: &mut Vec<u8>, x: u32) {
    v.extend_from_slice(&x.to_le_bytes());
}

fn p64(v: &mut Vec<u8>, x: u64) {
    v.extend_from_slice(&x.to_le_bytes());
}

/// A minimal 64-bit little-endian shared object: an ELF header, one
/// identity-mapped load segment, a dynamic segment declaring a SONAME,
/// and the dynamic string table.
fn minimal_shared_object(soname: &str, e_type: u16, machine: u16) -> Vec<u8> {
    let strtab: Vec<u8> = {
        let mut s = vec![0u8];
        s.extend_from_slice(soname.as_bytes());
        s.push(0);
        s
    };
    let size = 240 + strtab.len() as u64;
    let mut v: Vec<u8> = Vec::new();
    // ELF header.
    v.extend_from_slice(b"\x7fELF");
    v.extend_from_slice(&[2, 1, 1, 0]);
    v.extend_from_slice(&[0u8; 8]);
    p16(&mut v, e_type);
    p16(&mut v, machine);
    p32(&mut v, 1);
    p64(&mut v, 0); // entry
    p64(&mut v, 64); // phoff
    p64(&mut v, 0); // shoff
    p32(&mut v, 0); // flags
    p16(&mut v, 64); // ehsize
    p16(&mut v, 56); // phentsize
    p16(&mut v, 2); // phnum
    p16(&mut v, 0); // shentsize
    p16(&mut v, 0); // shnum
    p16(&mut v, 0); // shstrndx
    // PT_LOAD, identity-mapped over the whole file.
    p32(&mut v, 1);
    p32(&mut v, 5);
    p64(&mut v, 0);
    p64(&mut v, 0);
    p64(&mut v, 0);
    p64(&mut v, size);
    p64(&mut v, size);
    p64(&mut v, 0x1000);
    // PT_DYNAMIC at offset 176.
    p32(&mut v, 2);
    p32(&mut v, 6);
    p64(&mut v, 176);
    p64(&mut v, 176);
    p64(&mut v, 176);
    p64(&mut v, 64);
    p64(&mut v, 64);
    p64(&mut v, 8);
    // Dynamic entries: DT_STRTAB, DT_STRSZ, DT_SONAME, DT_NULL.
    p64(&mut v, 5);
    p64(&mut v, 240);
    p64(&mut v, 10);
    p64(&mut v, strtab.len() as u64);
    p64(&mut v, 14);
    p64(&mut v, 1);
    p64(&mut v, 0);
    p64(&mut v, 0);
    // The dynamic string table.
    v.extend_from_slice(&strtab);
    v
}

#[test]
fn a_minimal_shared_object_yields_a_descriptor() {
    let bytes = minimal_shared_object("libfoo.so.2", 3, 62);
    let lib = parse_elf_bytes(
        &bytes,
        "/lib/haswell/libfoo.so.2.0.0".to_string(),
        Provenance::RealFile,
    )
    .expect("descriptor for a valid shared object");
    assert_eq!(lib.soname, "libfoo.so.2");
    assert_eq!(lib.path, "/lib/haswell/libfoo.so.2.0.0");
    assert_eq!(lib.arch, ldconfig::arch::ElfArch::X86_64);
    assert!(lib.is_64bit);
    assert!(!lib.is_hardfloat);
    assert_eq!(lib.osversion, 0);
    // The path-derived capability guess is attached.
    assert_eq!(lib.hwcap, Some(1));
    assert_eq!(lib.provenance, Provenance::RealFile);
}

#[test]
fn rejected_objects_yield_no_descriptor() {
    // A relocatable object (not ET_DYN) is rejected.
    let rel = minimal_shared_object("libfoo.so.2", 1, 62);
    assert!(parse_elf_bytes(&rel, "/lib/x".to_string(), Provenance::RealFile).is_none());
    // An unsupported machine type is rejected.
    let sparc = minimal_shared_object("libfoo.so.2", 3, 8);
    assert!(parse_elf_bytes(&sparc, "/lib/x".to_string(), Provenance::RealFile).is_none());
    // An empty declared name is rejected.
    let unnamed = minimal_shared_object("", 3, 62);
    assert!(parse_elf_bytes(&unnamed, "/lib/x".to_string(), Provenance::RealFile).is_none());
}
