use beamup::ignore_rules::IgnoreRules;
use beamup::watch::{classify_local, ChangeKind, KernelMask, WatchEvent, WatchTable};

const NOTHING: KernelMask = KernelMask {
    create: false,
    modify: false,
    close_write: false,
    delete: false,
    moved_from: false,
    moved_to: false,
    is_dir: false,
};

fn rules() -> IgnoreRules {
    IgnoreRules::load("/w", Some(vec!["target/".to_string()]), None)
}

fn table() -> WatchTable {
    let mut t = WatchTable::new();
    t.add_watch(1, "/w".to_string());
    t.add_watch(2, "/w/src".to_string());
    t.add_watch(3, "/w/src/inner".to_string());
    t
}

#[test]
fn local_reports_are_classified() {
    let p = || "/w/a".to_string();
    assert!(matches!(
        classify_local(ChangeKind::FileCreated, p(), false),
        Some(WatchEvent::Modified(x)) if x == "/w/a"
    ));
    assert!(matches!(
        classify_local(ChangeKind::FolderCreated, p(), true),
        Some(WatchEvent::DirCreated(_))
    ));
    assert!(matches!(
        classify_local(ChangeKind::Modified, p(), false),
        Some(WatchEvent::Modified(_))
    ));
    assert!(classify_local(ChangeKind::Modified, p(), true).is_none());
    assert!(matches!(
        classify_local(ChangeKind::FileRemoved, p(), false),
        Some(WatchEvent::Deleted(_))
    ));
    assert!(matches!(
        classify_local(ChangeKind::FolderRemoved, p(), false),
        Some(WatchEvent::DirDeleted(_))
    ));
    assert!(classify_local(ChangeKind::Other, p(), false).is_none());
}

#[test]
fn kernel_reports_on_files() {
    let mut t = table();
    let r = t.report(&rules(), "/w", 2, Some("a"), KernelMask { modify: true, ..NOTHING });
    assert!(matches!(r.event, Some(WatchEvent::Modified(p)) if p == "src/a"));
    assert!(r.watch.is_none());
    let r = t.report(&rules(), "/w", 2, Some("a"), KernelMask { close_write: true, ..NOTHING });
    assert!(matches!(r.event, Some(WatchEvent::Modified(_))));
    let r = t.report(&rules(), "/w", 1, Some("a"), KernelMask { delete: true, ..NOTHING });
    assert!(matches!(r.event, Some(WatchEvent::Deleted(p)) if p == "a"));
    let r = t.report(&rules(), "/w", 1, Some("a"), KernelMask { moved_from: true, ..NOTHING });
    assert!(matches!(r.event, Some(WatchEvent::Deleted(_))));
    let r = t.report(&rules(), "/w", 1, Some("a"), KernelMask { moved_to: true, ..NOTHING });
    assert!(matches!(r.event, Some(WatchEvent::Modified(_))));
    let r = t.report(&rules(), "/w", 1, Some("a"), KernelMask { create: true, ..NOTHING });
    assert!(r.event.is_none());
}

#[test]
fn kernel_reports_on_directories() {
    let mut t = table();
    let created = KernelMask { create: true, is_dir: true, ..NOTHING };
    let r = t.report(&rules(), "/w", 1, Some("new"), created);
    assert!(matches!(r.event, Some(WatchEvent::DirCreated(p)) if p == "new"));
    assert_eq!(r.watch.as_deref(), Some("/w/new"));
    let moved = KernelMask { moved_to: true, is_dir: true, ..NOTHING };
    let r = t.report(&rules(), "/w", 1, Some("new"), moved);
    assert_eq!(r.watch.as_deref(), Some("/w/new"));
    let modified = KernelMask { modify: true, is_dir: true, ..NOTHING };
    assert!(t.report(&rules(), "/w", 1, Some("new"), modified).event.is_none());
}

#[test]
fn watches_of_a_deleted_directory_are_dropped() {
    let mut t = table();
    t.add_watch(4, "/w/src2".to_string());
    let gone = KernelMask { delete: true, is_dir: true, ..NOTHING };
    let r = t.report(&rules(), "/w", 1, Some("src"), gone);
    assert!(matches!(r.event, Some(WatchEvent::DirDeleted(p)) if p == "src"));
    assert_eq!(r.gone.as_deref(), Some("/w/src"));
    assert!(t.get(1).is_some());
    assert!(t.get(2).is_none());
    assert!(t.get(3).is_none());
    assert!(t.get(4).is_some());
}

#[test]
fn ignored_and_unknown_reports_are_passed_over() {
    let mut t = table();
    let modified = KernelMask { modify: true, ..NOTHING };
    assert!(t.report(&rules(), "/w", 1, Some("x.beamup-tmp"), modified).event.is_none());
    assert!(t.report(&rules(), "/w", 9, Some("a"), modified).event.is_none());
    assert!(t.report(&rules(), "/w", 1, None, modified).event.is_none());
    let dir = KernelMask { create: true, is_dir: true, ..NOTHING };
    assert!(t.report(&rules(), "/w", 1, Some("target"), dir).watch.is_none());
}

#[test]
fn watch_numbers_are_reused() {
    let mut t = table();
    t.add_watch(2, "/w/other".to_string());
    assert_eq!(t.get(2).map(|s| s.as_str()), Some("/w/other"));
    t.drop_below("/w/other");
    assert!(t.get(2).is_none());
}
