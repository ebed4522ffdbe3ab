use cargo_sift::gc::{self, outcome_stats, Reason, Session, Stats};
use cargo_sift::resolve::LiveSet;
use cargo_sift::units::{collect_units, DepsEntry, FingerprintDir, ProfileListing, Unit};

const REGISTRY: &str = "/root/.cargo/registry/src/index.crates.io-1949cf8c6b5b557f";

fn empty_profile() -> ProfileListing {
    ProfileListing { deps: vec![], fingerprints: vec![], builds: vec![] }
}

fn crate_name(pkg: &str) -> String {
    pkg.replace('-', "_")
}

/// A library compile unit for a registry crate `pkg` at `version`.
fn add_registry_unit(profile: &mut ProfileListing, root: &str, pkg: &str, version: &str, hash: &str) {
    let cn = crate_name(pkg);
    profile.fingerprints.push(FingerprintDir {
        name: format!("{pkg}-{hash}"),
        path: format!("{root}/.fingerprint/{pkg}-{hash}"),
        markers: vec![format!("lib-{cn}")],
        bytes: 0,
    });
    profile.deps.push(DepsEntry {
        name: format!("lib{cn}-{hash}.rlib"),
        path: format!("{root}/deps/lib{cn}-{hash}.rlib"),
        depfile: None,
        bytes: 4096,
    });
    let text = format!("lib{cn}-{hash}.rlib: {REGISTRY}/{pkg}-{version}/src/lib.rs\n");
    profile.deps.push(DepsEntry {
        name: format!("{cn}-{hash}.d"),
        path: format!("{root}/deps/{cn}-{hash}.d"),
        bytes: text.len() as u64,
        depfile: Some(text),
    });
}

/// A local compile unit whose `marker` file picks the kind and whose depfile
/// has only a local source path.
fn add_local_unit(profile: &mut ProfileListing, root: &str, name: &str, hash: &str, marker: &str) {
    let cn = crate_name(name);
    profile.fingerprints.push(FingerprintDir {
        name: format!("{name}-{hash}"),
        path: format!("{root}/.fingerprint/{name}-{hash}"),
        markers: vec![format!("{marker}-{cn}")],
        bytes: 0,
    });
    profile.deps.push(DepsEntry {
        name: format!("lib{cn}-{hash}.rlib"),
        path: format!("{root}/deps/lib{cn}-{hash}.rlib"),
        depfile: None,
        bytes: 2048,
    });
    let text = format!("lib{cn}-{hash}.rlib: src/lib.rs\n");
    profile.deps.push(DepsEntry {
        name: format!("{cn}-{hash}.d"),
        path: format!("{root}/deps/{cn}-{hash}.d"),
        bytes: text.len() as u64,
        depfile: Some(text),
    });
}

fn plan_for(profiles: Vec<ProfileListing>, sessions: Vec<Session>, live: &LiveSet) -> gc::Plan {
    let units: Vec<Unit> = collect_units(&profiles);
    gc::plan("target", &units, &sessions, 0, live)
}

#[test]
fn removes_dead_dependency_version_keeps_live() {
    let mut debug = empty_profile();
    add_registry_unit(&mut debug, "target/debug", "anyhow", "1.0.104", "aaaaaaaaaaaaaaaa");
    add_registry_unit(&mut debug, "target/debug", "anyhow", "1.0.86", "bbbbbbbbbbbbbbbb");

    let live = LiveSet::new(vec!["anyhow".into()], vec!["anyhow-1.0.104".into()]);
    let plan = plan_for(vec![debug], vec![], &live);

    assert_eq!(plan.removals.len(), 1);
    assert_eq!(plan.removals[0].reason, Reason::DeadVersion);
    assert_eq!(plan.removals[0].label, "anyhow-1.0.86");

    let paths = &plan.removals[0].paths;
    assert!(paths.contains(&"target/debug/.fingerprint/anyhow-bbbbbbbbbbbbbbbb".to_string()));
    assert!(!paths.contains(&"target/debug/.fingerprint/anyhow-aaaaaaaaaaaaaaaa".to_string()));
    assert!(paths.contains(&"target/debug/deps/libanyhow-bbbbbbbbbbbbbbbb.rlib".to_string()));
    assert!(!paths.contains(&"target/debug/deps/libanyhow-aaaaaaaaaaaaaaaa.rlib".to_string()));
    assert!(!paths.iter().any(|p| p.ends_with("CACHEDIR.TAG")));
}

#[test]
fn same_version_variants_are_all_kept() {
    let mut debug = empty_profile();
    add_registry_unit(&mut debug, "target/debug", "hashbrown", "0.15.2", "1111111111111111");
    add_registry_unit(&mut debug, "target/debug", "hashbrown", "0.15.2", "2222222222222222");

    let live = LiveSet::new(vec!["hashbrown".into()], vec!["hashbrown-0.15.2".into()]);
    let plan = plan_for(vec![debug], vec![], &live);
    assert!(plan.removals.is_empty());
}

#[test]
fn handles_cross_compilation_profile_roots() {
    let mut host = empty_profile();
    let mut cross = empty_profile();
    let cross_root = "target/x86_64-unknown-linux-musl/debug";
    add_registry_unit(&mut host, "target/debug", "anyhow", "1.0.86", "aaaaaaaaaaaaaaaa");
    add_registry_unit(&mut cross, cross_root, "anyhow", "1.0.86", "bbbbbbbbbbbbbbbb");
    add_registry_unit(&mut cross, cross_root, "anyhow", "1.0.104", "cccccccccccccccc");

    let live = LiveSet::new(vec!["anyhow".into()], vec!["anyhow-1.0.104".into()]);
    let plan = plan_for(vec![host, cross], vec![], &live);

    assert_eq!(plan.removals.len(), 2);
    assert!(plan.removals.iter().all(|r| r.reason == Reason::DeadVersion));
    let all: Vec<&String> = plan.removals.iter().flat_map(|r| r.paths.iter()).collect();
    assert!(all.contains(&&format!("{cross_root}/.fingerprint/anyhow-bbbbbbbbbbbbbbbb")));
    assert!(!all.contains(&&format!("{cross_root}/.fingerprint/anyhow-cccccccccccccccc")));
}

#[test]
fn removes_removed_package_lib_but_keeps_live_test_target() {
    let mut debug = empty_profile();
    add_local_unit(&mut debug, "target/debug", "ghost", "cccccccccccccccc", "lib");
    add_local_unit(&mut debug, "target/debug", "integration", "dddddddddddddddd", "test");

    let live = LiveSet::new(vec!["my-app".into(), "integration".into()], vec![]);
    let plan = plan_for(vec![debug], vec![], &live);

    assert_eq!(plan.removals.len(), 1);
    assert_eq!(plan.removals[0].reason, Reason::RemovedPackage);
    assert_eq!(plan.removals[0].label, "ghost");
}

#[test]
fn removes_removed_non_lib_target() {
    let mut debug = empty_profile();
    add_local_unit(&mut debug, "target/debug", "old_bench", "eeeeeeeeeeeeeeee", "bench");

    let live = LiveSet::new(vec!["my-app".into()], vec![]);
    let plan = plan_for(vec![debug], vec![], &live);
    assert_eq!(plan.removals.len(), 1);
    assert_eq!(plan.removals[0].reason, Reason::RemovedTarget);
}

#[test]
fn dry_run_changes_nothing() {
    let mut debug = empty_profile();
    add_registry_unit(&mut debug, "target/debug", "anyhow", "1.0.86", "bbbbbbbbbbbbbbbb");

    let live = LiveSet::new(vec!["anyhow".into()], vec!["anyhow-1.0.104".into()]);
    let plan = plan_for(vec![debug], vec![], &live);
    // In a dry run every planned removal counts as done.
    let stats = outcome_stats(&plan, &vec![true; plan.removals.len()]);

    assert_eq!(stats.units_removed, 1);
    assert!(stats.bytes_freed >= 4096);
    assert_eq!(stats.errors, 0);
}

fn session(root: &str, name: &str, bytes: u64) -> Session {
    Session { name: name.to_string(), path: format!("{root}/incremental/{name}"), bytes }
}

#[test]
fn removes_incremental_for_removed_crate_keeps_live() {
    let sessions = vec![
        session("target/debug", "gonecrate-0abc123def456", 1024),
        session("target/debug", "my_app-0live99session", 16),
    ];
    let live = LiveSet::new(vec!["my-app".into()], vec![]);
    let plan = plan_for(vec![empty_profile()], sessions, &live);

    assert_eq!(plan.removals.len(), 1);
    assert_eq!(plan.removals[0].reason, Reason::RemovedIncremental);
    assert_eq!(plan.removals[0].label, "gonecrate (incremental)");
    assert_eq!(plan.removals[0].paths, vec!["target/debug/incremental/gonecrate-0abc123def456".to_string()]);
    assert_eq!(plan.removals[0].bytes, 1024);
}

#[test]
fn build_script_incremental_sessions_are_kept() {
    let sessions = vec![session("target/debug", "build_script_build-0abc123", 32)];
    let live = LiveSet::new(vec!["my-app".into()], vec![]);
    let plan = plan_for(vec![empty_profile()], sessions, &live);
    assert!(plan.removals.is_empty());
}

#[test]
fn f4_hash_collision_skips_both_units() {
    let mut debug = empty_profile();
    add_registry_unit(&mut debug, "target/debug", "serde", "1.0.0", "abcabcabcabcabca");
    debug.fingerprints.push(FingerprintDir {
        name: "evil-abcabcabcabcabca".into(),
        path: "target/debug/.fingerprint/evil-abcabcabcabcabca".into(),
        markers: vec!["lib-evil".into()],
        bytes: 0,
    });

    let live = LiveSet::new(vec!["serde".into()], vec!["serde-1.0.0".into()]);
    let plan = plan_for(vec![debug], vec![], &live);
    assert!(plan.removals.is_empty());
    assert!(!plan
        .removals
        .iter()
        .any(|r| r.paths.contains(&"target/debug/deps/libserde-abcabcabcabcabca.rlib".to_string())));
}

#[test]
fn orphan_build_script_run_unit_is_removed() {
    let mut debug = empty_profile();
    debug.fingerprints.push(FingerprintDir {
        name: "gone-0123456789abcdef".into(),
        path: "target/debug/.fingerprint/gone-0123456789abcdef".into(),
        markers: vec!["run-build-script-build-script-build".into()],
        bytes: 10,
    });
    let live = LiveSet::new(vec!["my-app".into()], vec![]);
    let plan = plan_for(vec![debug], vec![], &live);
    assert_eq!(plan.removals.len(), 1);
    assert_eq!(plan.removals[0].reason, Reason::OrphanBuildScript);
    assert_eq!(plan.removals[0].label, "gone (build script)");
    assert_eq!(plan.remove_bytes, 10);
}

#[test]
fn more_live_names_remove_less() {
    let mut debug = empty_profile();
    add_local_unit(&mut debug, "target/debug", "helper", "1212121212121212", "lib");
    let units = collect_units(&vec![debug]);
    let small = LiveSet::new(vec!["my-app".into()], vec![]);
    let large = LiveSet::new(vec!["my-app".into(), "helper".into()], vec![]);
    assert_eq!(gc::plan("t", &units, &vec![], 0, &small).removals.len(), 1);
    assert_eq!(gc::plan("t", &units, &vec![], 0, &large).removals.len(), 0);
}

#[test]
fn tally_groups_by_reason_in_order() {
    let mut debug = empty_profile();
    add_local_unit(&mut debug, "target/debug", "ghost", "cccccccccccccccc", "lib");
    add_registry_unit(&mut debug, "target/debug", "anyhow", "1.0.86", "bbbbbbbbbbbbbbbb");
    add_registry_unit(&mut debug, "target/debug", "log", "0.4.0", "aaaaaaaaaaaaaaaa");
    let live = LiveSet::new(vec!["my-app".into()], vec![]);
    let plan = plan_for(vec![debug], vec![], &live);
    let tally = plan.tally();
    assert_eq!(tally.len(), 2);
    assert_eq!(tally[0].0, Reason::DeadVersion);
    assert_eq!(tally[0].1, 2);
    assert_eq!(tally[1].0, Reason::RemovedPackage);
    assert_eq!(tally[1].1, 1);
    let counted: usize = tally.iter().map(|t| t.1).sum();
    let bytes: u64 = tally.iter().map(|t| t.2).sum();
    assert_eq!(counted, plan.removals.len());
    assert_eq!(bytes, plan.remove_bytes);
}

#[test]
fn failed_removals_count_as_errors() {
    let mut debug = empty_profile();
    add_registry_unit(&mut debug, "target/debug", "anyhow", "1.0.86", "bbbbbbbbbbbbbbbb");
    add_registry_unit(&mut debug, "target/debug", "log", "0.4.0", "aaaaaaaaaaaaaaaa");
    let live = LiveSet::new(vec!["my-app".into()], vec![]);
    let plan = plan_for(vec![debug], vec![], &live);
    let stats = outcome_stats(&plan, &vec![true, false]);
    assert_eq!(stats.units_removed, 1);
    assert_eq!(stats.errors, 1);
    assert_eq!(stats.bytes_freed, plan.removals[0].bytes);
}

#[test]
fn merge_adds_totals() {
    let mut a = Stats { units_removed: 1, bytes_freed: 10, errors: 0 };
    a.merge(&Stats { units_removed: 2, bytes_freed: 5, errors: 3 });
    assert_eq!((a.units_removed, a.bytes_freed, a.errors), (3, 15, 3));
    let d = Stats::default();
    assert_eq!((d.units_removed, d.bytes_freed, d.errors), (0, 0, 0));
}

#[test]
fn reason_labels() {
    assert_eq!(Reason::DeadVersion.label(), "dead version");
    assert_eq!(Reason::RemovedPackage.label(), "removed package");
    assert_eq!(Reason::RemovedTarget.label(), "removed target");
    assert_eq!(Reason::OrphanBuildScript.label(), "orphan build script");
    assert_eq!(Reason::RemovedIncremental.label(), "removed incremental");
}

#[test]
fn units_of_one_profile_share_no_path() {
    let mut debug = empty_profile();
    add_registry_unit(&mut debug, "target/debug", "anyhow", "1.0.86", "aaaaaaaaaaaaaaaa");
    add_registry_unit(&mut debug, "target/debug", "anyhow", "1.0.104", "bbbbbbbbbbbbbbbb");
    add_local_unit(&mut debug, "target/debug", "my-app", "cccccccccccccccc", "lib");
    let units = collect_units(&vec![debug]);
    assert_eq!(units.len(), 3);
    for (i, a) in units.iter().enumerate() {
        for b in units.iter().skip(i + 1) {
            assert!(a.paths.iter().all(|p| !b.paths.contains(p)));
        }
    }
    assert_eq!(units[0].paths.len(), 3);
}

#[test]
fn live_paths_are_never_in_a_removal_and_dead_units_go_once() {
    let mut debug = empty_profile();
    add_registry_unit(&mut debug, "target/debug", "anyhow", "1.0.86", "aaaaaaaaaaaaaaaa");
    add_registry_unit(&mut debug, "target/debug", "anyhow", "1.0.104", "bbbbbbbbbbbbbbbb");
    add_local_unit(&mut debug, "target/debug", "gone", "cccccccccccccccc", "lib");
    let units = collect_units(&vec![debug]);
    let sessions = vec![session("target/debug", "gone-0abc", 8)];
    let live = LiveSet::new(vec!["anyhow".into()], vec!["anyhow-1.0.104".into()]);
    let plan = gc::plan("target", &units, &sessions, 0, &live);
    let live_unit = units.iter().find(|u| u.hash == "bbbbbbbbbbbbbbbb").unwrap();
    for r in &plan.removals {
        assert!(r.paths.iter().all(|p| !live_unit.paths.contains(p)));
    }
    for dead in units.iter().filter(|u| u.hash != "bbbbbbbbbbbbbbbb") {
        assert_eq!(plan.removals.iter().filter(|r| r.paths == dead.paths).count(), 1);
    }
    assert_eq!(plan.removals.len(), 3);
}
