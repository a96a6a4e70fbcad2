use beamup::states::{elapsed_nanos, FileState, PathMap, SUPPRESS_NANOS};

fn state(hash: u64) -> FileState {
    FileState { hash, mtime: 0, size: 0 }
}

#[test]
fn entries_come_and_go() {
    let mut m: PathMap<FileState> = PathMap::new();
    m.insert(&"a".to_string(), state(1));
    m.insert(&"a".to_string(), state(2));
    m.insert(&"b".to_string(), state(3));
    assert_eq!(m.get("a"), Some(&state(2)));
    assert!(m.contains("b"));
    m.remove("a");
    m.remove("absent");
    assert_eq!(m.get("a"), None);
    assert_eq!(m.get("b"), Some(&state(3)));
}

#[test]
fn prefix_is_a_prefix_of_the_text() {
    let mut m: PathMap<FileState> = PathMap::new();
    for path in ["src", "src/a", "src2/b", "lib/src"] {
        m.insert(&path.to_string(), state(1));
    }
    m.drop_prefix("src");
    assert!(!m.contains("src"));
    assert!(!m.contains("src/a"));
    assert!(!m.contains("src2/b"));
    assert!(m.contains("lib/src"));
}

#[test]
fn silence_ends_after_half_a_second() {
    let mut m: PathMap<u64> = PathMap::new();
    m.insert(&"old".to_string(), 1_000);
    m.insert(&"young".to_string(), 1_001);
    m.insert(&"ahead".to_string(), u64::MAX);
    m.expire(1_000 + SUPPRESS_NANOS);
    assert!(!m.contains("old"));
    assert!(m.contains("young"));
    assert!(m.contains("ahead"));
    assert_eq!(SUPPRESS_NANOS, 500_000_000);
}

#[test]
fn time_does_not_run_backwards() {
    assert_eq!(elapsed_nanos(10, 25), 15);
    assert_eq!(elapsed_nanos(25, 10), 0);
}
