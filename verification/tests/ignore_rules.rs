use beamup::ignore_rules::IgnoreRules;
use beamup::messages::{Message, SyncEntry};
use beamup::paths::relative_path;

fn lines(text: &str) -> Option<Vec<String>> {
    Some(text.lines().map(|l| l.to_string()).collect())
}

fn root_named(name: &str) -> String {
    format!("/tmp/beamup-test-{name}")
}

#[test]
fn ignores_beamup_temp_files() {
    let root = root_named("ignore-beamup-tmp");
    let rules = IgnoreRules::load(&root, None, None);

    assert!(rules.is_ignored("file.beamup-tmp", false));
    assert!(rules.is_ignored("data.beamup-chunk-0001", false));
    assert!(rules.is_ignored("data.beamup-lz4", false));
    assert!(rules.is_ignored("data.beamup-lz4-chunk-0003", false));
    assert!(rules.is_ignored("foo.beamup-chunk-tmp", false));
}

#[test]
fn does_not_ignore_normal_files() {
    let root = root_named("ignore-normal");
    let rules = IgnoreRules::load(&root, None, None);

    assert!(!rules.is_ignored("src/main.rs", false));
    assert!(!rules.is_ignored("Cargo.toml", false));
    assert!(!rules.is_ignored("README.md", false));
}

#[test]
fn gitignore_target_directory() {
    let root = root_named("ignore-target");
    let rules = IgnoreRules::load(&root, lines("/target\n"), None);

    assert!(rules.is_ignored("target", true));
    assert!(rules.is_ignored("target/debug/deps/foo.o", false));
    assert!(rules.is_ignored("target/release/beamup", false));
    assert!(rules.is_ignored("target/aarch64-unknown-linux-musl/debug/beamup-agent", false));

    assert!(!rules.is_ignored("target_config.toml", false));
}

#[test]
fn gitignore_node_modules() {
    let root = root_named("ignore-node-modules");
    let rules = IgnoreRules::load(&root, lines("node_modules\n"), None);

    assert!(rules.is_ignored("node_modules", true));
    assert!(rules.is_ignored("node_modules/express/index.js", false));
    assert!(rules.is_ignored("node_modules/.package-lock.json", false));
}

#[test]
fn gitignore_wildcard_patterns() {
    let root = root_named("ignore-wildcards");
    let rules = IgnoreRules::load(&root, lines("*.log\n*.tmp\n"), None);

    assert!(rules.is_ignored("app.log", false));
    assert!(rules.is_ignored("debug.tmp", false));
    assert!(rules.is_ignored("logs/server.log", false));
    assert!(!rules.is_ignored("app.rs", false));
}

#[test]
fn beamignore_file() {
    let root = root_named("ignore-beamignore");
    let rules = IgnoreRules::load(&root, None, lines("data/\n*.sqlite\n"));

    assert!(rules.is_ignored("data", true));
    assert!(rules.is_ignored("data/big.bin", false));
    assert!(rules.is_ignored("app.sqlite", false));
    assert!(!rules.is_ignored("src/main.rs", false));
}

#[test]
fn filter_path_strips_prefix() {
    let root = root_named("ignore-filter-path");
    let rules = IgnoreRules::load(&root, None, lines(".git\n"));

    let full_path = format!("{root}/.git/HEAD");
    assert!(rules.filter_path(&root, &full_path, false));

    let full_path = format!("{root}/src/main.rs");
    assert!(!rules.filter_path(&root, &full_path, false));
}

#[test]
fn ignores_git_index_files() {
    let root = root_named("ignore-git-index");
    let rules = IgnoreRules::load(&root, None, None);

    assert!(rules.is_ignored(".git/index", false));
    assert!(rules.is_ignored(".git/index.lock", false));
    assert!(rules.is_ignored(".git/modules/e/index", false));
    assert!(rules.is_ignored(".git/modules/e/index.lock", false));
    assert!(rules.is_ignored(".git/modules/deep/nested/index", false));
    assert!(rules.is_ignored(".git/modules/deep/nested/index.lock", false));

    assert!(!rules.is_ignored(".git/HEAD", false));
    assert!(!rules.is_ignored(".git/config", false));
    assert!(!rules.is_ignored(".git/refs/heads/main", false));
}

#[test]
fn relative_path_strips_prefix() {
    let root = "/home/user/project";
    let full = "/home/user/project/src/main.rs";
    assert_eq!(relative_path(root, full), "src/main.rs");
}

#[test]
fn relative_path_returns_as_is_when_no_prefix() {
    let root = "/home/user/project";
    let full = "/other/path/file.rs";
    assert_eq!(relative_path(root, full), "/other/path/file.rs");
}

#[test]
fn ignored_directory_covers_everything_inside() {
    let rules = IgnoreRules::load("/w", lines("build/\n"), None);
    assert!(rules.is_ignored("build", true));
    assert!(!rules.is_ignored("build", false));
    assert!(rules.is_ignored("build/a/b/c", false));
    assert!(rules.is_ignored("x/build/c", true));
}

#[test]
fn ignore_files_add_up() {
    let rules = IgnoreRules::load("/w", lines("*.dat\n!keep.dat\n"), lines("keep.dat\n"));
    assert!(rules.is_ignored("other.dat", false));
    assert!(rules.is_ignored("keep.dat", false));
    let rules = IgnoreRules::load("/w", lines("*.dat\n!keep.dat\n"), None);
    assert!(rules.is_ignored("other.dat", false));
    assert!(!rules.is_ignored("keep.dat", false));
}

#[test]
fn exempted_directory_decides_nothing_for_what_lies_in_it() {
    let rules = IgnoreRules::load("/w", lines("*.log\n!logs/\n"), None);
    assert!(!rules.is_ignored("logs", true));
    assert!(rules.is_ignored("logs/server.log", false));
    assert!(!rules.is_ignored("logs/readme", false));
    let rules = IgnoreRules::load("/w", lines("*\n!*/\n!*.rs\n"), None);
    assert!(!rules.is_ignored("src/main.rs", false));
    assert!(rules.is_ignored("src/main.o", false));
}

#[test]
fn patterns_of_the_user_add_up_too() {
    let exclude = vec!["*.iso".to_string(), "big/".to_string()];
    let rules = IgnoreRules::load_excluding("/w", lines("!a.iso\n"), None, &exclude);
    assert!(rules.is_ignored("a.iso", false));
    assert!(rules.is_ignored("big/x", false));
    assert!(rules.is_ignored(".git/index", false));
    assert!(!rules.is_ignored("a.txt", false));
    let none = IgnoreRules::load_excluding("/w", None, None, &Vec::new());
    assert!(!none.is_ignored("a.iso", false));
}

#[test]
fn equal_files_give_equal_rules() {
    let first = IgnoreRules::load("/w", lines("/target\nw/x\n"), None);
    let second = IgnoreRules::load("/some/where", lines("/target\nw/x\n"), lines(""));
    for path in ["target", "a/target", "w/x", "./w/x", "some/where/w/x", "src/main.rs"] {
        for is_dir in [false, true] {
            assert_eq!(first.is_ignored(path, is_dir), second.is_ignored(path, is_dir));
        }
    }
    assert!(first.is_ignored("target/x", false));
}

#[test]
fn byte_order_mark_does_not_count() {
    let rules = IgnoreRules::load("/w", lines("\u{feff}secret\n"), None);
    assert!(rules.is_ignored("secret", false));
}

#[test]
fn malformed_pattern_is_passed_over() {
    let rules = IgnoreRules::load("/w", lines("a[\n*.o\n"), None);
    assert!(rules.is_ignored("x.o", false));
    assert!(!rules.is_ignored("x.c", false));
}

#[test]
fn root_itself_is_not_ignored() {
    let rules = IgnoreRules::load("/w", lines("*\n"), None);
    assert!(!rules.filter_path("/w", "/w", true));
    assert!(rules.filter_path("/w", "/w/a", true));
}

#[test]
fn rules_from_no_matchers_ignore_nothing() {
    let rules = IgnoreRules::from_matchers(None, None, None);
    assert!(!rules.is_ignored("x.beamup-tmp", false));
}

#[test]
fn builtin_patterns_always_hold() {
    let rules = IgnoreRules::load("/w", lines("!.git/index\n*\n!*/\n"), lines("!*.beamup-tmp\n"));
    assert!(rules.is_ignored(".git/index", false));
    assert!(rules.is_ignored(".git/index.lock", false));
    assert!(rules.is_ignored("src/a.beamup-tmp", false));
    let rules = IgnoreRules::load("/w", lines("!.git/index\n"), None);
    assert!(rules.is_ignored(".git/index", false));
    assert!(!rules.is_ignored(".git/HEAD", false));
}

#[test]
fn excluded_files_are_left_out_of_what_comes() {
    let rules = IgnoreRules::excluding("/w", &vec!["*.iso".to_string(), "big/".to_string()]);
    let content =
        |path: &str| Message::FileContent { path: path.to_string(), hash: 1, data: vec![] };
    assert!(rules.leaves_out(&content("a.iso")));
    assert!(rules.leaves_out(&content("big/x")));
    assert!(!rules.leaves_out(&content("a.txt")));
    assert!(rules.leaves_out(&Message::DirDeleted { path: "big".to_string() }));
    assert!(!rules.leaves_out(&Message::FileDeleted { path: "big".to_string() }));
    assert!(!rules.leaves_out(&Message::Ping));
    let entry = |path: &str| SyncEntry { path: path.to_string(), hash: 1, size: 1 };
    let kept = rules.admitted(vec![entry("a.iso"), entry("b"), entry("c")]);
    assert_eq!(kept.iter().map(|e| e.path.as_str()).collect::<Vec<_>>(), ["b", "c"]);
}
