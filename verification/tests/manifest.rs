use beamup::ignore_rules::IgnoreRules;
use beamup::manifest::{build_manifest, plan_sync, record_files, FsNode};
use beamup::messages::{ManifestEntry, SyncDirection, SyncEntry};
use beamup::states::{FileState, PathMap};

fn file(name: &str, hash: u64) -> FsNode {
    FsNode::File { name: name.to_string(), hash, mtime: 7, size: hash * 10 }
}

fn dir(name: &str, children: Vec<FsNode>) -> FsNode {
    FsNode::Dir { name: name.to_string(), children }
}

fn rules() -> IgnoreRules {
    IgnoreRules::load("/w", Some(vec!["target/".to_string()]), None)
}

fn entry(path: &str, hash: u64, is_dir: bool) -> ManifestEntry {
    ManifestEntry { path: path.to_string(), hash, mtime: 0, size: hash * 10, is_dir }
}

fn paths(entries: &[SyncEntry]) -> Vec<String> {
    entries.iter().map(|e| e.path.clone()).collect()
}

#[test]
fn manifest_lists_directories_before_their_contents() {
    let tree = vec![
        dir("src", vec![file("main.rs", 1), dir("inner", vec![file("x.rs", 2)])]),
        file("README.md", 3),
    ];
    let entries = build_manifest("/w", &tree, &rules());
    let listed: Vec<(&str, bool)> = entries.iter().map(|e| (e.path.as_str(), e.is_dir)).collect();
    assert_eq!(
        listed,
        vec![
            ("src", true),
            ("src/main.rs", false),
            ("src/inner", true),
            ("src/inner/x.rs", false),
            ("README.md", false),
        ]
    );
    assert_eq!((entries[0].hash, entries[0].mtime, entries[0].size), (0, 0, 0));
    assert_eq!((entries[1].hash, entries[1].mtime, entries[1].size), (1, 7, 10));
}

#[test]
fn manifest_leaves_out_what_is_ignored() {
    let tree = vec![
        dir("target", vec![file("a.o", 1)]),
        file("x.beamup-tmp", 2),
        dir(".git", vec![file("index", 3), file("HEAD", 4)]),
    ];
    let entries = build_manifest("/w", &tree, &rules());
    let listed: Vec<&str> = entries.iter().map(|e| e.path.as_str()).collect();
    assert_eq!(listed, vec![".git", ".git/HEAD"]);
}

#[test]
fn files_of_a_manifest_are_remembered() {
    let mut states: PathMap<FileState> = PathMap::new();
    record_files(&mut states, &vec![entry("d", 0, true), entry("d/a", 5, false)]);
    assert!(!states.contains("d"));
    assert_eq!(states.get("d/a"), Some(&FileState { hash: 5, mtime: 0, size: 50 }));
}

#[test]
fn plan_pushes_and_pulls_what_is_missing() {
    let local = vec![entry("d", 0, true), entry("same", 1, false), entry("differs", 2, false),
        entry("only-local", 3, false)];
    let beam = vec![entry("same", 1, false), entry("differs", 9, false),
        entry("only-beam", 4, false), entry("e", 0, true)];
    let plan = plan_sync(&local, &beam, SyncDirection::Bidirectional);
    assert_eq!(plan.create_dirs, vec!["d"]);
    assert_eq!(paths(&plan.to_push), vec!["differs", "only-local"]);
    assert_eq!((plan.to_push[0].hash, plan.to_push[0].size), (2, 20));
    assert_eq!(paths(&plan.to_pull), vec!["only-beam"]);
}

#[test]
fn plan_keeps_to_its_direction() {
    let local = vec![entry("d", 0, true), entry("a", 1, false)];
    let beam = vec![entry("b", 2, false)];
    let up = plan_sync(&local, &beam, SyncDirection::LocalToBeam);
    assert_eq!(paths(&up.to_push), vec!["a"]);
    assert_eq!(paths(&up.to_pull), Vec::<String>::new());
    let down = plan_sync(&local, &beam, SyncDirection::BeamToLocal);
    assert_eq!(paths(&down.to_push), Vec::<String>::new());
    assert_eq!(down.create_dirs, Vec::<String>::new());
    assert_eq!(paths(&down.to_pull), vec!["b"]);
}

#[test]
fn plan_for_equal_sides_is_empty() {
    let side = || vec![entry("d", 0, true), entry("d/a", 1, false)];
    let plan = plan_sync(&side(), &side(), SyncDirection::Bidirectional);
    assert!(plan.to_push.is_empty());
    assert!(plan.to_pull.is_empty());
}

#[test]
fn both_sides_agree_after_the_plan() {
    let local = vec![entry("a", 1, false), entry("b", 2, false)];
    let beam = vec![entry("b", 3, false), entry("c", 4, false)];
    let plan = plan_sync(&local, &beam, SyncDirection::Bidirectional);
    let files = |entries: &Vec<ManifestEntry>| {
        let mut m = std::collections::BTreeMap::new();
        for e in entries {
            m.insert(e.path.clone(), e.hash);
        }
        m
    };
    let mut on_beam = files(&beam);
    for e in &plan.to_push {
        on_beam.insert(e.path.clone(), e.hash);
    }
    let mut on_local = files(&local);
    for e in &plan.to_pull {
        on_local.insert(e.path.clone(), e.hash);
    }
    assert_eq!(on_beam, on_local);
    assert_eq!(on_local.len(), 3);
}

#[test]
fn last_entry_for_a_path_counts() {
    let local = vec![entry("a", 1, false)];
    let beam = vec![entry("a", 1, false), entry("a", 2, false)];
    let plan = plan_sync(&local, &beam, SyncDirection::LocalToBeam);
    assert_eq!(paths(&plan.to_push), vec!["a"]);
}
