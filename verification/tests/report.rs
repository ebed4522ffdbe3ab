use cargo_sift::discovery::{
    is_target_dir, resolve_targets, should_descend, target_dir_override, SearchEntry, TargetSearch,
};
use cargo_sift::gc::{self, Reason, Removal, Stats};
use cargo_sift::report::{errors_line, no_targets_line, removal_line, shows_summary, summary_line, target_line};
use cargo_sift::resolve::LiveSet;

const SIGNATURE: &[u8] = b"Signature: 8a477f597d28d172789f06886806bc55\n";

#[test]
fn detects_target_dir_by_marker() {
    assert!(!is_target_dir(None, false));
    assert!(is_target_dir(Some(SIGNATURE), false));
    assert!(is_target_dir(None, true));
    assert!(!is_target_dir(Some(b"Signature: 0000"), false));
}

/// A directory of an in-memory tree: its path, whether it carries a target
/// marker, and its entries as (name, is a directory).
struct Dir {
    path: &'static str,
    marked: bool,
    entries: Vec<(&'static str, bool)>,
}

/// Runs a recursive search over an in-memory tree, as the program does over the
/// file system.
fn search_tree(root: &str, tree: &[Dir]) -> Vec<String> {
    let mut search = TargetSearch::new(root.to_string());
    while let Some(dir) = search.next_dir() {
        let node = tree.iter().find(|d| d.path == dir);
        let marked = node.map(|d| d.marked).unwrap_or(false);
        let entries: Vec<SearchEntry> = node
            .map(|d| {
                d.entries
                    .iter()
                    .map(|(name, is_dir)| SearchEntry {
                        name: name.to_string(),
                        path: format!("{}/{}", dir, name),
                        is_dir: *is_dir,
                    })
                    .collect()
            })
            .unwrap_or_default();
        search.visit(dir, marked, &entries);
    }
    search.found
}

#[test]
fn recursive_finds_marked_targets_only() {
    // a/target and b/nested/target carry a marker; decoy/target/stuff does not.
    let tree = vec![
        Dir { path: "/t", marked: false, entries: vec![("a", true), ("b", true), ("decoy", true)] },
        Dir { path: "/t/a", marked: false, entries: vec![("target", true)] },
        Dir { path: "/t/a/target", marked: true, entries: vec![("CACHEDIR.TAG", false)] },
        Dir { path: "/t/b", marked: false, entries: vec![("nested", true)] },
        Dir { path: "/t/b/nested", marked: false, entries: vec![("target", true)] },
        Dir { path: "/t/b/nested/target", marked: true, entries: vec![("CACHEDIR.TAG", false)] },
        Dir { path: "/t/decoy", marked: false, entries: vec![("target", true)] },
        Dir { path: "/t/decoy/target", marked: false, entries: vec![("stuff", true)] },
        Dir { path: "/t/decoy/target/stuff", marked: false, entries: vec![] },
    ];
    let found = resolve_targets(search_tree("/t", &tree));
    assert_eq!(found.len(), 2);
    assert!(found.contains(&"/t/a/target".to_string()));
    assert!(found.contains(&"/t/b/nested/target".to_string()));
}

#[test]
fn search_skips_git_and_symlinks_and_stops_at_targets() {
    let tree = vec![
        Dir { path: "/r", marked: false, entries: vec![(".git", true), ("link", false), ("target", true)] },
        Dir { path: "/r/.git", marked: false, entries: vec![("target", true)] },
        Dir { path: "/r/.git/target", marked: true, entries: vec![] },
        Dir { path: "/r/link", marked: true, entries: vec![] },
        Dir { path: "/r/target", marked: true, entries: vec![("inner", true)] },
        Dir { path: "/r/target/inner", marked: true, entries: vec![] },
    ];
    assert_eq!(search_tree("/r", &tree), vec!["/r/target".to_string()]);
    assert!(should_descend("src", true));
    assert!(!should_descend(".git", true));
    assert!(!should_descend("link", false));
    assert_eq!(target_dir_override(Some(String::new())), None);
    assert_eq!(target_dir_override(Some("/x".into())), Some("/x".to_string()));
}

#[test]
fn target_lines() {
    let live = LiveSet::new(vec![], vec![]);
    let tidy = gc::plan("/p/target", &vec![], &vec![], 2048, &live);
    let stats = Stats::default();
    assert_eq!(target_line("/p/target", &tidy, &stats, false), "/p/target: 2.00 KiB — already tidy");

    let sessions = vec![gc::Session { name: "gone-1".into(), path: "/p/target/debug/incremental/gone-1".into(), bytes: 1536 }];
    let plan = gc::plan("/p/target", &vec![], &sessions, 5 * 1024 * 1024, &live);
    let stats = gc::outcome_stats(&plan, &vec![true]);
    assert_eq!(
        target_line("/p/target", &plan, &stats, true),
        "/p/target: 5.00 MiB → would free 1.50 KiB (1 units: 1 removed incremental 1.50 KiB)"
    );
}

#[test]
fn summary_lines() {
    let grand = Stats { units_removed: 3, bytes_freed: 1024, errors: 0 };
    assert_eq!(summary_line(&grand, 2, false), "cargo-sift: freed 1.00 KiB across 2 target directories (3 units removed)");
    assert_eq!(summary_line(&grand, 1, true), "cargo-sift: would free 1.00 KiB across 1 target directory (3 units removed)");
    assert!(shows_summary(2, false));
    assert!(shows_summary(1, true));
    assert!(!shows_summary(1, false));
    assert_eq!(errors_line(2), "cargo-sift: 2 unit(s) could not be fully removed");
    assert_eq!(
        no_targets_line(&vec![".".into(), "/src".into()]),
        "cargo-sift: no Cargo target directories found under ., /src"
    );
    let r = Removal { label: "anyhow-1.0.86".into(), reason: Reason::DeadVersion, paths: vec![], bytes: 4096 };
    assert_eq!(removal_line(&r, false), "removing anyhow-1.0.86 [dead version] — 4.00 KiB");
    assert_eq!(removal_line(&r, true), "would remove anyhow-1.0.86 [dead version] — 4.00 KiB");
}
