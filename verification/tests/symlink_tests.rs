//! Tests of the symlink reconciler's planning and decisions.

use ldconfig::arch::ElfArch;
use ldconfig::elf::{ElfLibrary, Provenance};
use ldconfig::codec::build_cache;
use ldconfig::scanner::{deduplicate_libraries, should_include_symlink};
use ldconfig::symlinks::{
    decide_symlink_actions, find_highest_version_library, plan_symlinks, should_create_symlink,
    LinkObservation, LinkState, SymlinkActionType,
};
use ldconfig::Cache;

fn real_file(soname: &str, path: &str) -> ElfLibrary {
    ElfLibrary {
        soname: soname.to_string(),
        path: path.to_string(),
        is_64bit: true,
        arch: ElfArch::X86_64,
        is_hardfloat: false,
        osversion: 0,
        hwcap: None,
        provenance: Provenance::RealFile,
    }
}

fn symlink(soname: &str, path: &str) -> ElfLibrary {
    ElfLibrary {
        provenance: Provenance::Symlink,
        ..real_file(soname, path)
    }
}

#[test]
fn highest_version_member_is_selected() {
    let group = vec![
        real_file("libfoo.so.2", "/lib/libfoo.so.2.0.0"),
        real_file("libfoo.so.2", "/lib/libfoo.so.2.0.10"),
        real_file("libfoo.so.2", "/lib/libfoo.so.2.0.9"),
    ];
    let best = find_highest_version_library(&group);
    assert_eq!(group[best].path, "/lib/libfoo.so.2.0.10");
}

#[test]
fn a_link_is_proposed_when_the_canonical_file_is_named_otherwise() {
    let libs = vec![real_file("libfoo.so.2", "/lib/libfoo.so.2.0.0")];
    let props = plan_symlinks(&libs);
    assert_eq!(props.len(), 1);
    assert_eq!(props[0].directory, "/lib");
    assert_eq!(props[0].link, "/lib/libfoo.so.2");
    assert_eq!(props[0].target_name, "libfoo.so.2.0.0");
}

#[test]
fn no_link_is_proposed_for_a_canonically_named_file() {
    let libs = vec![real_file("libbar.so.1", "/lib/libbar.so.1")];
    let props = plan_symlinks(&libs);
    assert_eq!(props.len(), 0);
}

#[test]
fn symlink_descriptors_do_not_form_groups() {
    let libs = vec![symlink("libfoo.so.2", "/lib/libfoo.so.2.0.0")];
    let props = plan_symlinks(&libs);
    assert_eq!(props.len(), 0);
}

#[test]
fn missing_link_is_created_and_wrong_link_is_updated() {
    let libs = vec![
        real_file("libfoo.so.2", "/lib/libfoo.so.2.0.0"),
        real_file("libbar.so.3", "/lib/libbar.so.3.1.0"),
    ];
    let props = plan_symlinks(&libs);
    assert_eq!(props.len(), 2);
    let obs = vec![
        LinkObservation {
            state: LinkState::Absent,
            target_canonical: format!("{}/{}", props[0].directory, props[0].target_name),
        },
        LinkObservation {
            state: LinkState::ResolvesTo("/lib/libbar.so.0.0.1".to_string()),
            target_canonical: format!("{}/{}", props[1].directory, props[1].target_name),
        },
    ];
    let actions = decide_symlink_actions(&props, &obs);
    assert_eq!(actions.len(), 2);
    assert_eq!(actions[0].action, SymlinkActionType::Create);
    assert_eq!(actions[0].link, props[0].link);
    assert_eq!(actions[0].target, props[0].target_name);
    assert_eq!(actions[1].action, SymlinkActionType::Update);
}

#[test]
fn second_run_over_settled_links_plans_nothing() {
    let libs = vec![
        real_file("libfoo.so.2", "/lib/libfoo.so.2.0.0"),
        real_file("libbar.so.3", "/lib/libbar.so.3.1.0"),
    ];
    // First run: links absent, actions are planned.
    let props = plan_symlinks(&libs);
    assert!(props.len() > 0);
    // After applying them each link resolves to its intended target;
    // the second run proposes the same links and decides no action.
    let props2 = plan_symlinks(&libs);
    assert_eq!(props.len(), props2.len());
    let obs: Vec<LinkObservation> = props2
        .iter()
        .map(|p| {
            let canon = format!("{}/{}", p.directory, p.target_name);
            LinkObservation {
                state: LinkState::ResolvesTo(canon.clone()),
                target_canonical: canon,
            }
        })
        .collect();
    let actions = decide_symlink_actions(&props2, &obs);
    assert_eq!(actions.len(), 0);
}

#[test]
fn should_create_symlink_compares_canonical_targets() {
    let target = "/lib/libfoo.so.2.0.0".to_string();
    assert!(should_create_symlink(false, None, &target));
    assert!(should_create_symlink(true, None, &target));
    let same = "/lib/libfoo.so.2.0.0".to_string();
    assert!(!should_create_symlink(true, Some(&same), &target));
    let other = "/lib/libfoo.so.1.0.0".to_string();
    assert!(should_create_symlink(true, Some(&other), &target));
}

#[test]
fn end_to_end_rebuild_of_a_single_versioned_library() {
    // A directory holding one real file whose declared name differs from
    // its file name.
    let real_files = vec![real_file("libfoo.so.2", "/lib/libfoo.so.2.0.0")];
    let existing_symlinks: Vec<ElfLibrary> = Vec::new();

    // Reconcile: one link libfoo.so.2 -> libfoo.so.2.0.0 is required.
    let props = plan_symlinks(&real_files);
    assert_eq!(props.len(), 1);
    assert_eq!(props[0].link, "/lib/libfoo.so.2");
    assert_eq!(props[0].target_name, "libfoo.so.2.0.0");
    let obs = vec![LinkObservation {
        state: LinkState::Absent,
        target_canonical: "/lib/libfoo.so.2.0.0".to_string(),
    }];
    let actions = decide_symlink_actions(&props, &obs);
    assert_eq!(actions.len(), 1);
    assert_eq!(actions[0].action, SymlinkActionType::Create);

    // Assemble the entry list: the real file is excluded (file name and
    // declared name differ), the created link is re-described and kept.
    let mut entries: Vec<ElfLibrary> = Vec::new();
    for lib in &real_files {
        if lib.path.ends_with(&format!("/{}", lib.soname)) {
            entries.push(lib.clone());
        }
    }
    for lib in &existing_symlinks {
        if should_include_symlink("libfoo.so.2", &lib.soname, None) {
            entries.push(lib.clone());
        }
    }
    // The newly created link, described again.
    entries.push(symlink("libfoo.so.2", "/lib/libfoo.so.2"));
    let unique = deduplicate_libraries(&entries);
    assert_eq!(unique.len(), 1);

    // Build and parse: exactly one entry, keyed by the link's file name,
    // and no bare .so entry.
    let data = build_cache(&unique, None);
    let cache = Cache::from_bytes(&data).unwrap();
    let got = cache.entries();
    assert_eq!(got.len(), 1);
    assert_eq!(got[0].soname, "libfoo.so.2");
    assert_eq!(got[0].path, "/lib/libfoo.so.2");
    assert!(cache.find("libfoo.so").len() == 1);
}
