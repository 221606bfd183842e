//! Round-trip, ordering, interning and offset tests of the cache codec.

use ldconfig::arch::ElfArch;
use ldconfig::codec::{build_cache, parse_cache_data};
use ldconfig::elf::{ElfLibrary, Provenance};
use ldconfig::Cache;
use ldconfig::Error;

fn lib(soname: &str, path: &str, arch: ElfArch, hwcap: Option<u64>) -> ElfLibrary {
    ElfLibrary {
        soname: soname.to_string(),
        path: path.to_string(),
        is_64bit: true,
        arch,
        is_hardfloat: false,
        osversion: 0,
        hwcap,
        provenance: Provenance::RealFile,
    }
}

#[test]
fn round_trip_reproduces_entries() {
    let libs = vec![
        lib("libfoo.so.2", "/lib/libfoo.so.2", ElfArch::X86_64, None),
        lib("libbar.so.1", "/usr/lib/libbar.so.1", ElfArch::AArch64, Some(4)),
        lib("libbaz.so.9", "/lib/libbaz.so.9", ElfArch::RiscV64, None),
    ];
    let data = build_cache(&libs, None);
    let cache = Cache::from_bytes(&data).expect("parse of built image");
    let entries = cache.entries();
    assert_eq!(entries.len(), 3);

    let mut got: Vec<(String, String, u32, u64)> = entries
        .iter()
        .map(|e| (e.soname.clone(), e.path.clone(), e.flags, e.hwcap))
        .collect();
    got.sort();
    let mut want = vec![
        (
            "libfoo.so.2".to_string(),
            "/lib/libfoo.so.2".to_string(),
            0x0303u32,
            0u64,
        ),
        (
            "libbar.so.1".to_string(),
            "/usr/lib/libbar.so.1".to_string(),
            0x0a03u32,
            4u64,
        ),
        (
            "libbaz.so.9".to_string(),
            "/lib/libbaz.so.9".to_string(),
            0x1003u32,
            0u64,
        ),
    ];
    want.sort();
    assert_eq!(got, want);

    let info = cache.info();
    assert_eq!(info.num_entries, 3);
    assert_eq!(info.generator.as_deref(), Some("ldconfig-rs 0.1.0"));
}

#[test]
fn built_entries_are_sorted_name_descending_then_hwcap_descending() {
    // "libfoo.so.2" must come before "libfoo.so": name descending.
    let libs = vec![
        lib("libfoo.so", "/lib/libfoo.so", ElfArch::X86_64, None),
        lib("libfoo.so.2", "/lib/libfoo.so.2", ElfArch::X86_64, None),
    ];
    let data = build_cache(&libs, None);
    let cache = Cache::from_bytes(&data).unwrap();
    let entries = cache.entries();
    assert_eq!(entries.len(), 2);
    assert_eq!(entries[0].soname, "libfoo.so.2");
    assert_eq!(entries[1].soname, "libfoo.so");
}

#[test]
fn equal_names_order_by_hwcap_descending() {
    let libs = vec![
        lib("libx.so.1", "/a/libx.so.1", ElfArch::X86_64, Some(1)),
        lib("libx.so.1", "/b/libx.so.1", ElfArch::X86_64, Some(4)),
    ];
    let data = build_cache(&libs, None);
    let cache = Cache::from_bytes(&data).unwrap();
    let entries = cache.entries();
    assert_eq!(entries.len(), 2);
    assert_eq!(entries[0].hwcap, 4);
    assert_eq!(entries[1].hwcap, 1);
}

#[test]
fn shared_path_string_is_stored_once() {
    // Two entries resolving to one path string: the table holds one copy.
    let libs = vec![
        lib("liba.so.1", "/lib/libshared.so.1", ElfArch::X86_64, None),
        lib("libb.so.1", "/lib/libshared.so.1", ElfArch::X86_64, None),
    ];
    let data = build_cache(&libs, None);
    let info = parse_cache_data(&data).unwrap();
    let needle: &[u8] = b"/lib/libshared.so.1\0";
    let count = data.windows(needle.len()).filter(|w| *w == needle).count();
    assert_eq!(count, 1);
    assert_eq!(info.header.nlibs, 2);
}

#[test]
fn offsets_fall_inside_the_string_table_region() {
    let libs = vec![
        lib("libfoo.so.2", "/lib/libfoo.so.2", ElfArch::X86_64, None),
        lib("libbar.so.1", "/usr/lib/libbar.so.1", ElfArch::ARM, None),
    ];
    let data = build_cache(&libs, None);
    let info = parse_cache_data(&data).unwrap();
    let n = info.header.nlibs as u32;
    let lo = 48 + n * 24;
    let hi = lo + info.header.len_strings;
    for e in &info.entries {
        assert!(e.key_offset >= lo && e.key_offset < hi);
        assert!(e.value_offset >= lo && e.value_offset < hi);
    }
}

#[test]
fn prefix_rewrites_paths_to_the_new_root() {
    let libs = vec![lib(
        "libfoo.so.2",
        "/sysroot/usr/lib/libfoo.so.2",
        ElfArch::X86_64,
        None,
    )];
    let prefix = "/sysroot".to_string();
    let data = build_cache(&libs, Some(&prefix));
    let cache = Cache::from_bytes(&data).unwrap();
    let entries = cache.entries();
    assert_eq!(entries.len(), 1);
    assert_eq!(entries[0].path, "/usr/lib/libfoo.so.2");
    // The lookup key stays the bare file name.
    assert_eq!(entries[0].soname, "libfoo.so.2");
}

#[test]
fn header_magic_and_layout_are_byte_exact() {
    let libs = vec![lib("libm.so.6", "/lib/libm.so.6", ElfArch::X86_64, None)];
    let data = build_cache(&libs, None);
    assert_eq!(&data[0..20], b"glibc-ld.so.cache1.1");
    // Endianness tag: little-endian content.
    assert_eq!(data[28], 2);
    assert_eq!(&data[29..32], &[0, 0, 0]);
    // nlibs and len_strings, little endian.
    assert_eq!(u32::from_le_bytes([data[20], data[21], data[22], data[23]]), 1);
    // Extension magic at the recorded offset.
    let ext = u32::from_le_bytes([data[32], data[33], data[34], data[35]]) as usize;
    assert!(ext > 0);
    assert_eq!(
        u32::from_le_bytes([data[ext], data[ext + 1], data[ext + 2], data[ext + 3]]),
        0xEAA42174
    );
    assert_eq!(ext % 4, 0);
}

#[test]
fn truncated_header_is_rejected() {
    let data = vec![0u8; 47];
    match parse_cache_data(&data) {
        Err(Error::TruncatedHeader) => {}
        other => panic!("expected TruncatedHeader, got {:?}", other),
    }
}

#[test]
fn truncated_entries_are_rejected() {
    // A valid-size header that declares more entries than the data holds.
    let mut data = vec![0u8; 48];
    data[20..24].copy_from_slice(&1000u32.to_le_bytes());
    match parse_cache_data(&data) {
        Err(Error::TruncatedEntries) => {}
        other => panic!("expected TruncatedEntries, got {:?}", other),
    }
}

#[test]
fn parse_never_panics_on_codec_output_or_junk() {
    let libs = vec![lib("libc.so.6", "/lib/libc.so.6", ElfArch::I686, None)];
    let data = build_cache(&libs, None);
    assert!(parse_cache_data(&data).is_ok());
    // Arbitrary bytes of header size parse without panicking.
    let junk: Vec<u8> = (0u32..96).map(|i| (i * 37 % 256) as u8).collect();
    let _ = parse_cache_data(&junk);
}

#[test]
fn extract_string_reports_structured_errors() {
    let libs = vec![lib("libz.so.1", "/lib/libz.so.1", ElfArch::X86_64, None)];
    let data = build_cache(&libs, None);
    let cache = Cache::from_bytes(&data).unwrap();
    let len = cache.size() as u32;
    match cache.extract_string(len + 10) {
        Err(Error::InvalidCacheOffset(o)) => assert_eq!(o, len + 10),
        other => panic!("expected InvalidCacheOffset, got {:?}", other),
    }
    // A valid offset decodes the text that the wrapper converted.
    let info = parse_cache_data(&data).unwrap();
    let key = info.entries[0].key_offset;
    assert_eq!(cache.extract_string(key).unwrap(), "libz.so.1");
    // Invalid UTF-8 in the image is a structured error too.
    let mut bad = data.clone();
    let key = key as usize;
    bad[key] = 0xff;
    bad[key + 1] = 0xfe;
    let cache2 = Cache::from_bytes(&bad).unwrap();
    match cache2.extract_string(key as u32) {
        Err(Error::InvalidCacheUtf8) => {}
        other => panic!("expected InvalidCacheUtf8, got {:?}", other),
    }
}

#[test]
fn find_filters_by_substring() {
    let libs = vec![
        lib("libfoo.so.2", "/lib/libfoo.so.2", ElfArch::X86_64, None),
        lib("libbar.so.1", "/lib/libbar.so.1", ElfArch::X86_64, None),
    ];
    let data = build_cache(&libs, None);
    let cache = Cache::from_bytes(&data).unwrap();
    let hits = cache.find("foo");
    assert_eq!(hits.len(), 1);
    assert_eq!(hits[0].soname, "libfoo.so.2");
    assert_eq!(cache.find("nothere").len(), 0);
    assert_eq!(cache.find("lib").len(), 2);
}

#[test]
fn empty_descriptor_list_builds_and_parses() {
    let libs: Vec<ElfLibrary> = Vec::new();
    let data = build_cache(&libs, None);
    let cache = Cache::from_bytes(&data).unwrap();
    assert_eq!(cache.info().num_entries, 0);
    assert_eq!(cache.entries().len(), 0);
    assert_eq!(cache.info().generator.as_deref(), Some("ldconfig-rs 0.1.0"));
}

#[test]
fn render_produces_the_conventional_listing() {
    let libs = vec![lib(
        "libbar.so.1",
        "/usr/lib/libbar.so.1",
        ElfArch::AArch64,
        Some(4),
    )];
    let data = build_cache(&libs, None);
    let cache = Cache::from_bytes(&data).unwrap();
    let text = cache.render();
    let want = "1 libs found in cache\n\
        \tlibbar.so.1 (libc6,AArch64), hwcap: 0x0000000000000004 => /usr/lib/libbar.so.1\n\
        Cache generated by: ldconfig-rs 0.1.0\n";
    assert_eq!(text, want);

    let raw = Cache::from_bytes_raw(data);
    assert_eq!(raw.render(), "Cache not parsed (binary only)\n");
}

#[test]
fn a_bad_entry_is_skipped_and_the_rest_still_listed() {
    let libs = vec![
        lib("liba.so.1", "/lib/liba.so.1", ElfArch::X86_64, None),
        lib("libb.so.2", "/lib/libb.so.2", ElfArch::X86_64, None),
    ];
    let mut data = build_cache(&libs, None);
    // Corrupt the first entry's key string in place with invalid UTF-8.
    let info = parse_cache_data(&data).unwrap();
    let bad_key = info.entries[0].key_offset as usize;
    data[bad_key] = 0xff;
    let first_name = String::from_utf8(
        data[info.entries[1].key_offset as usize..]
            .iter()
            .take_while(|b| **b != 0)
            .cloned()
            .collect(),
    )
    .unwrap();
    let cache = Cache::from_bytes(&data).unwrap();
    let entries = cache.entries();
    // The bad entry is passed over; the other entry is still listed.
    assert_eq!(entries.len(), 1);
    assert_eq!(entries[0].soname, first_name);
    // And the rendering still shows the surviving entry with the
    // unchanged count header.
    let text = cache.render();
    assert!(text.starts_with("2 libs found in cache\n"));
    assert!(text.contains(&format!("\t{} (", first_name)));
}
