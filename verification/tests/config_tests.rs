//! Tests of search-path configuration parsing.

use ldconfig::config::{parse_config_content, parse_config_content_compat, LibraryConfig};

#[test]
fn directories_comments_and_includes_are_recognized() {
    let content = "# system libraries\n/opt/lib\n\n  /opt/lib64  \ninclude /etc/ld.so.conf.d/*.conf\n";
    let (dirs, includes) = parse_config_content(content);
    assert_eq!(dirs, vec!["/opt/lib".to_string(), "/opt/lib64".to_string()]);
    assert_eq!(includes, vec!["/etc/ld.so.conf.d/*.conf".to_string()]);
}

#[test]
fn compat_parse_prepends_the_default_directories() {
    let cfg = parse_config_content_compat("/opt/lib\n").unwrap();
    let dirs = cfg.directories();
    assert_eq!(
        dirs,
        &vec![
            "/lib".to_string(),
            "/usr/lib".to_string(),
            "/lib64".to_string(),
            "/usr/lib64".to_string(),
            "/opt/lib".to_string(),
        ]
    );
}

#[test]
fn blank_input_yields_only_defaults() {
    let cfg = parse_config_content_compat("").unwrap();
    assert_eq!(cfg.directories().len(), 4);
    let (dirs, includes) = parse_config_content("\n\n# nothing\n");
    assert_eq!(dirs.len(), 0);
    assert_eq!(includes.len(), 0);
}

#[test]
fn explicit_directory_lists_pass_through() {
    let cfg = LibraryConfig::from_directories(vec!["/a".to_string(), "/b".to_string()]);
    assert_eq!(cfg.directories(), &vec!["/a".to_string(), "/b".to_string()]);
    let std_cfg = LibraryConfig::standard();
    assert_eq!(std_cfg.directories()[0], "/lib");
}

#[test]
fn carriage_returns_and_tabs_are_trimmed() {
    let (dirs, _) = parse_config_content("\t/weird/lib\r\n");
    assert_eq!(dirs, vec!["/weird/lib".to_string()]);
}
