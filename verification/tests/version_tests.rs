//! Tests of the digit-run-aware version comparator.

use core::cmp::Ordering;
use ldconfig::versions::compare_library_versions;

#[test]
fn numeric_runs_beat_lexicographic_order() {
    // 10 ranks above 9 even though "1" < "9" as characters.
    assert_eq!(
        compare_library_versions("libfoo.so.10", "libfoo.so.9"),
        Ordering::Greater
    );
    assert_eq!(
        compare_library_versions("libfoo.so.9", "libfoo.so.10"),
        Ordering::Less
    );
}

#[test]
fn nested_version_components_compare_numerically() {
    assert_eq!(
        compare_library_versions("libfoo.so.1.10", "libfoo.so.1.2"),
        Ordering::Greater
    );
    assert_eq!(
        compare_library_versions("libfoo.so.1.2", "libfoo.so.1.10"),
        Ordering::Less
    );
}

#[test]
fn a_strict_prefix_ranks_lower() {
    assert_eq!(
        compare_library_versions("libfoo.so", "libfoo.so.1"),
        Ordering::Less
    );
    assert_eq!(
        compare_library_versions("libfoo.so.1", "libfoo.so"),
        Ordering::Greater
    );
}

#[test]
fn equal_names_are_equal() {
    assert_eq!(
        compare_library_versions("libfoo.so.1.2.3", "libfoo.so.1.2.3"),
        Ordering::Equal
    );
    assert_eq!(compare_library_versions("", ""), Ordering::Equal);
}

#[test]
fn leading_zeros_do_not_change_a_run_value() {
    assert_eq!(
        compare_library_versions("libfoo.so.010", "libfoo.so.10"),
        Ordering::Equal
    );
    assert_eq!(
        compare_library_versions("libfoo.so.009", "libfoo.so.10"),
        Ordering::Less
    );
}

#[test]
fn long_digit_runs_compare_exactly() {
    // Runs longer than any machine integer still compare by value.
    assert_eq!(
        compare_library_versions(
            "lib.so.99999999999999999999999999999999999999",
            "lib.so.100000000000000000000000000000000000000"
        ),
        Ordering::Less
    );
}

#[test]
fn non_digit_characters_compare_by_code_point() {
    assert_eq!(compare_library_versions("liba.so", "libb.so"), Ordering::Less);
    assert_eq!(compare_library_versions("libb.so", "liba.so"), Ordering::Greater);
}
