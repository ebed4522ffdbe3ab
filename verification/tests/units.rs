use cargo_sift::units::{classify, resolve_version, version_from_depfile, UnitKind, Version};

const REGISTRY: &str = "/root/.cargo/registry/src/index.crates.io-1949cf8c6b5b557f";

#[test]
fn depfile_pins_registry_version() {
    let text = format!("libanyhow-aaaa.rlib: src/x.rs {REGISTRY}/anyhow-1.0.104/src/lib.rs\n");
    assert_eq!(
        version_from_depfile(&text, "anyhow"),
        Some(Version::Registry("anyhow-1.0.104".to_string()))
    );
}

#[test]
fn depfile_with_local_sources_is_local() {
    assert_eq!(
        version_from_depfile("libfoo-1.rlib: src/lib.rs\n", "foo"),
        Some(Version::Local("foo".to_string()))
    );
    assert_eq!(version_from_depfile("nothing here\n", "foo"), None);
    // A registry path of another package does not pin this one.
    let text = format!("x: {REGISTRY}/bar-1.0.0/src/lib.rs\n");
    assert_eq!(version_from_depfile(&text, "foo"), Some(Version::Local("foo".to_string())));
}

#[test]
fn first_pinning_depfile_decides() {
    let texts = vec![
        "nothing\n".to_string(),
        format!("x: {REGISTRY}/foo-2.0.0/src/lib.rs\n"),
        "y: src/lib.rs\n".to_string(),
    ];
    assert_eq!(resolve_version("foo", &texts), Version::Registry("foo-2.0.0".to_string()));
    assert_eq!(resolve_version("foo", &vec![]), Version::Unknown);
}

#[test]
fn markers_classify_units() {
    assert_eq!(classify(&vec!["run-build-script-build-script-build".into()]), UnitKind::BuildScriptRun);
    assert_eq!(classify(&vec!["build-script-build-script-build".into()]), UnitKind::BuildScriptCompile);
    assert_eq!(classify(&vec!["output".into(), "lib-foo".into()]), UnitKind::Lib);
    assert_eq!(classify(&vec!["bin-foo".into(), "lib-foo".into()]), UnitKind::Bin);
    assert_eq!(classify(&vec!["test-foo".into()]), UnitKind::Other);
}
