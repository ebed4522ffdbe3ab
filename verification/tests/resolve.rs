use cargo_sift::resolve::{
    workspace_root, is_within, member_dirs, member_targets, resolve, workspace_members, DirEntryFacts, MemberFacts,
    MemberLayout, MemberStep, ResolveError, member_step,
};
use cargo_sift::toml_doc::parse_document;

fn layout(has_lib_rs: bool, has_main_rs: bool) -> MemberLayout {
    MemberLayout {
        has_lib_rs,
        has_main_rs,
        bins: vec![],
        examples: vec![],
        tests: vec![],
        benches: vec![],
    }
}

fn file(name: &str) -> DirEntryFacts {
    DirEntryFacts { name: name.to_string(), is_file: true, has_main_rs: false }
}

const LOCK: &str = "[[package]]\nname = \"anyhow\"\nversion = \"1.0.104\"\nsource = \"registry+https://github.com/rust-lang/crates.io-index\"\n\n[[package]]\nname = \"my-app\"\nversion = \"0.1.0\"\n";

#[test]
fn resolve_reads_lockfile_and_reconstructs_targets() {
    let mut member = layout(true, false);
    member.tests.push(file("integration.rs"));
    let manifest = "[package]\nname = \"my-app\"\nversion = \"0.1.0\"\n[dependencies]\nanyhow = \"1\"\n";
    let live = resolve(
        LOCK,
        vec![MemberFacts { manifest: Some(manifest.to_string()), layout: member }],
    )
    .unwrap();

    assert!(live.registry_is_live("anyhow-1.0.104"));
    assert!(!live.registry_is_live("anyhow-1.0.86"));
    assert!(live.name_is_live("my-app"));
    assert!(live.name_is_live("integration"));
    assert!(!live.name_is_live("nonexistent"));
}

#[test]
fn f2_empty_lockfile_fails_closed() {
    let manifest = "[package]\nname=\"p\"\nversion=\"0.1.0\"\n";
    let res = resolve(
        "version = 4\n",
        vec![MemberFacts { manifest: Some(manifest.to_string()), layout: layout(false, false) }],
    );
    assert!(res.is_err());
    assert_eq!(res.err(), Some(ResolveError::EmptyLock));
}

#[test]
fn unparseable_lockfile_fails_closed() {
    assert_eq!(resolve("[[package", vec![]).err(), Some(ResolveError::LockSyntax));
}

#[test]
fn f3_workspace_members_cannot_escape_the_tree() {
    let manifest = "[workspace]\nmembers = [\"../outside\"]\n[package]\nname = \"root\"\nversion = \"0.1.0\"\n";
    let members = workspace_members(manifest).unwrap();
    assert!(members.has_package);
    assert!(members.patterns.is_empty());
    let dirs = member_dirs(members.has_package, "/ws", vec![]);
    assert_eq!(dirs, vec!["/ws".to_string()]);

    let lock = "[[package]]\nname = \"root\"\nversion = \"0.1.0\"\n";
    let live = resolve(
        lock,
        vec![MemberFacts { manifest: Some(manifest.to_string()), layout: layout(false, false) }],
    )
    .unwrap();
    assert!(live.name_is_live("root"));
    assert!(!live.name_is_live("secret"));
}

#[test]
fn member_patterns_are_split_into_components() {
    let manifest = "[workspace]\nmembers = [\"crates/*\", \"tools//cli/\", \"a/../b\"]\n";
    let members = workspace_members(manifest).unwrap();
    assert!(!members.has_package);
    assert_eq!(
        members.patterns,
        vec![
            vec!["crates".to_string(), "*".to_string()],
            vec!["tools".to_string(), "cli".to_string()],
        ]
    );
    assert_eq!(workspace_members("not = [toml").err(), Some(ResolveError::ManifestSyntax));
}

#[test]
fn member_dirs_lists_root_and_members_once() {
    assert_eq!(
        member_dirs(true, "/ws", vec!["/ws/a".into(), "/ws".into(), "/ws/a".into()]),
        vec!["/ws".to_string(), "/ws/a".to_string()]
    );
    assert_eq!(member_dirs(false, "/ws", vec![]), vec!["/ws".to_string()]);
    assert_eq!(member_dirs(false, "/ws", vec!["/ws/b".into()]), vec!["/ws/b".to_string()]);
}

#[test]
fn containment_is_by_component() {
    assert!(is_within("/ws", "/ws"));
    assert!(is_within("/ws", "/ws/a/b"));
    assert!(!is_within("/ws", "/wsx"));
    assert!(!is_within("/ws", "/outside"));
    assert!(is_within("/", "/anything"));
}

#[test]
fn member_targets_follow_manifest_and_layout() {
    let manifest = "[package]\nname = \"tool-kit\"\nautoexamples = false\n[lib]\nname = \"toolkit_core\"\n[[bin]]\nname = \"tk\"\n[[test]]\nname = \"smoke\"\n";
    let doc = parse_document(manifest).unwrap();
    let mut l = layout(true, true);
    l.bins.push(file("extra.rs"));
    l.bins.push(file("README.md"));
    l.bins.push(DirEntryFacts { name: "multi".into(), is_file: false, has_main_rs: true });
    l.examples.push(file("demo.rs"));
    l.benches.push(file(".rs"));
    let names = member_targets(&doc, &l);
    assert_eq!(
        names,
        vec![
            "toolkit_core".to_string(),
            "tool_kit".to_string(),
            "tk".to_string(),
            "smoke".to_string(),
            "extra".to_string(),
            "multi".to_string(),
        ]
    );
}

#[test]
fn unreadable_member_contributes_nothing() {
    let lock = "[[package]]\nname = \"root\"\nversion = \"0.1.0\"\n";
    let mut l = layout(false, false);
    l.tests.push(file("it.rs"));
    let live = resolve(lock, vec![MemberFacts { manifest: Some("[[".to_string()), layout: l }]).unwrap();
    assert!(live.name_is_live("root"));
    assert!(!live.name_is_live("it"));
}

#[test]
fn resolve_without_lockfile_fails_closed() {
    let ancestors = vec!["/tmp/x/noproj".to_string(), "/tmp/x".to_string(), "/tmp".to_string(), "/".to_string()];
    assert_eq!(workspace_root(&ancestors, &vec![false, false, false, false]), None);
    assert_eq!(
        workspace_root(&ancestors, &vec![false, true, true, false]),
        Some("/tmp/x".to_string())
    );
}

#[test]
fn sparse_registry_packages_are_live() {
    let lock = "[[package]]\nname = \"anyhow\"\nversion = \"1.0.86\"\nsource = \"sparse+https://index.crates.io/\"\n\n[[package]]\nname = \"serde\"\nversion = \"1.0.0\"\nsource = \"registry+https://github.com/rust-lang/crates.io-index\"\n\n[[package]]\nname = \"local\"\nversion = \"0.1.0\"\n";
    let live = resolve(lock, vec![]).unwrap();
    assert!(live.registry_is_live("anyhow-1.0.86"));
    assert!(live.registry_is_live("serde-1.0.0"));
    assert!(!live.registry_is_live("local-0.1.0"));
    assert!(live.name_is_live("anyhow"));
    assert!(live.name_is_live("local"));
}

#[test]
fn member_pattern_components_step() {
    assert!(matches!(member_step("*"), MemberStep::EverySubdir));
    match member_step("crates") {
        MemberStep::Named(n) => assert_eq!(n, "crates"),
        MemberStep::EverySubdir => panic!("a named component is not a wildcard"),
    }
    match member_step("a*") {
        MemberStep::Named(n) => assert_eq!(n, "a*"),
        MemberStep::EverySubdir => panic!("only a lone `*` is a wildcard"),
    }
}
