use cargo_sift::resolve::{normalize, LiveSet};
use cargo_sift::units::{deps_file_hash, split_name_hash};

#[test]
fn normalizes_names() {
    let live = LiveSet::new(vec!["aho-corasick".into()], vec![]);
    assert!(live.name_is_live("aho_corasick"));
    assert!(live.name_is_live("aho-corasick"));
}

#[test]
fn normalize_replaces_every_hyphen() {
    assert_eq!(normalize("a-b-c"), "a_b_c");
    assert_eq!(normalize("plain"), "plain");
    assert_eq!(normalize(""), "");
}

#[test]
fn registry_identities_are_exact() {
    let live = LiveSet::new(vec![], vec!["anyhow-1.0.104".into()]);
    assert!(live.registry_is_live("anyhow-1.0.104"));
    assert!(!live.registry_is_live("anyhow-1.0.86"));
    assert!(!live.name_is_live("anyhow"));
}

#[test]
fn splits_name_and_hash() {
    assert_eq!(
        split_name_hash("aho-corasick-0123456789abcdef"),
        Some(("aho-corasick".to_string(), "0123456789abcdef".to_string()))
    );
    assert_eq!(split_name_hash("anyhow-0123456789abcde"), None);
    assert_eq!(split_name_hash("anyhow-0123456789abcdeg"), None);
    assert_eq!(split_name_hash("nohash"), None);
}

#[test]
fn finds_deps_file_hash() {
    assert_eq!(
        deps_file_hash("libanyhow-aaaaaaaaaaaaaaaa.rlib"),
        Some("aaaaaaaaaaaaaaaa".to_string())
    );
    assert_eq!(
        deps_file_hash("anyhow-bbbbbbbbbbbbbbbb.d"),
        Some("bbbbbbbbbbbbbbbb".to_string())
    );
    assert_eq!(deps_file_hash("libanyhow-short.rlib"), None);
    assert_eq!(deps_file_hash("nodash"), None);
}
