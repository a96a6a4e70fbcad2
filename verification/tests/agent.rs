use beamup::agent::{accept_hello, AgentAction, AgentEngine, HandshakeError, Probe};
use beamup::ignore_rules::IgnoreRules;
use beamup::manifest::FsNode;
use beamup::messages::{ManifestEntry, Message, SyncDirection, INLINE_THRESHOLD};
use beamup::states::{FileState, SUPPRESS_NANOS};
use beamup::watch::WatchEvent;

const ABSENT: Probe = Probe { exists: false, is_dir: false };
const FILE: Probe = Probe { exists: true, is_dir: false };
const DIR: Probe = Probe { exists: true, is_dir: true };

fn agent() -> AgentEngine {
    AgentEngine::new(SyncDirection::Bidirectional, SyncDirection::Bidirectional)
}

fn modified(path: &str) -> WatchEvent {
    WatchEvent::Modified(path.to_string())
}

fn state(hash: u64, size: u64) -> FileState {
    FileState { hash, mtime: 1, size }
}

#[test]
fn hello_of_this_version_is_accepted() {
    let r = accept_hello(Some(Message::Hello {
        version: 2,
        session_id: "s1".to_string(),
        initial_direction: SyncDirection::LocalToBeam,
        ongoing_direction: SyncDirection::BeamToLocal,
    }));
    match r {
        Ok((Message::HelloAck { version }, request)) => {
            assert_eq!(version, 2);
            assert_eq!(request.session_id, "s1");
            assert_eq!(request.initial_direction, SyncDirection::LocalToBeam);
            assert_eq!(request.ongoing_direction, SyncDirection::BeamToLocal);
        }
        _ => panic!("not accepted"),
    }
}

#[test]
fn hello_of_another_version_is_refused() {
    let r = accept_hello(Some(Message::Hello {
        version: 1,
        session_id: "s1".to_string(),
        initial_direction: SyncDirection::Bidirectional,
        ongoing_direction: SyncDirection::Bidirectional,
    }));
    assert!(matches!(r, Err(HandshakeError::VersionMismatch { version: 1 })));
}

#[test]
fn anything_but_hello_is_refused() {
    assert!(matches!(
        accept_hello(Some(Message::Ping)),
        Err(HandshakeError::Unexpected { got: Some(Message::Ping) })
    ));
    assert!(matches!(accept_hello(None), Err(HandshakeError::Unexpected { got: None })));
}

#[test]
fn agent_answers_pings() {
    let action = agent().handle_message(Message::Ping, ABSENT, 0);
    assert!(matches!(action, Some(AgentAction::Send(Message::Pong))));
    assert!(agent().handle_message(Message::Pong, ABSENT, 0).is_none());
}

#[test]
fn agent_answers_the_last_word_and_shuts_down() {
    let mut a = agent();
    assert!(matches!(
        a.handle_message(Message::ManifestAck, ABSENT, 0),
        Some(AgentAction::Send(Message::ManifestAck))
    ));
    assert!(matches!(a.handle_message(Message::Shutdown, ABSENT, 0), Some(AgentAction::Exit)));
}

#[test]
fn agent_does_not_echo_its_writes() {
    let mut a = agent();
    let msg = Message::FileContent { path: "a".to_string(), hash: 5, data: vec![1, 2] };
    match a.handle_message(msg, ABSENT, 0) {
        Some(AgentAction::Write { path, hash, data }) => {
            assert_eq!((path.as_str(), hash, data), ("a", 5, vec![1, 2]));
            a.written(&path, hash, 2, 9, 1_000);
        }
        _ => panic!("not written"),
    }
    a.expire(1_000 + SUPPRESS_NANOS - 1);
    assert!(a.handle_watch_event(modified("a")).is_none());
    a.expire(1_000 + SUPPRESS_NANOS);
    assert!(matches!(
        a.handle_watch_event(modified("a")),
        Some(AgentAction::Inspect { path }) if path == "a"
    ));
    assert!(a.inspected("a".to_string(), state(5, 2)).is_none());
    assert!(matches!(
        a.inspected("a".to_string(), state(6, 2)),
        Some(AgentAction::SendContent { path, hash: 6 }) if path == "a"
    ));
    assert!(a.inspected("a".to_string(), state(6, 2)).is_none());
}

#[test]
fn agent_announces_large_files() {
    let mut a = agent();
    match a.inspected("big".to_string(), state(8, INLINE_THRESHOLD)) {
        Some(AgentAction::Send(Message::FileChanged { path, hash, mtime, size })) => {
            assert_eq!((path.as_str(), hash, mtime, size), ("big", 8, 1, 65_536));
        }
        _ => panic!("not announced"),
    }
    assert!(matches!(
        a.inspected("small".to_string(), state(8, INLINE_THRESHOLD - 1)),
        Some(AgentAction::SendContent { .. })
    ));
}

#[test]
fn agent_deletes_only_what_is_there() {
    let mut a = agent();
    a.examined(&"a".to_string(), 1, 1, 1);
    let msg = || Message::FileDeleted { path: "a".to_string() };
    assert!(a.handle_message(msg(), ABSENT, 0).is_none());
    assert!(a.inspected("a".to_string(), state(1, 1)).is_none());
    assert!(matches!(
        a.handle_message(msg(), FILE, 0),
        Some(AgentAction::RemoveFile { path }) if path == "a"
    ));
    assert!(a.handle_watch_event(WatchEvent::Deleted("a".to_string())).is_none());
    assert!(a.inspected("a".to_string(), state(1, 1)).is_some());
}

#[test]
fn agent_forgets_a_deleted_directory() {
    let mut a = agent();
    a.examined(&"d/x".to_string(), 1, 1, 1);
    let msg = || Message::DirDeleted { path: "d".to_string() };
    assert!(a.handle_message(msg(), FILE, 0).is_none());
    assert!(matches!(a.handle_message(msg(), DIR, 0), Some(AgentAction::RemoveDir { .. })));
    assert!(a.inspected("d/x".to_string(), state(1, 1)).is_some());
    assert!(a.handle_watch_event(WatchEvent::DirDeleted("d".to_string())).is_none());
}

#[test]
fn agent_expects_announced_files() {
    let mut a = agent();
    let msg = Message::FileChanged { path: "b".to_string(), hash: 1, mtime: 1, size: 1 };
    assert!(a.handle_message(msg, ABSENT, 5).is_none());
    assert!(a.handle_watch_event(modified("b")).is_none());
    let msg = Message::FileReady { path: "b".to_string(), hash: 1, size: 70_000 };
    match a.handle_message(msg, FILE, 6) {
        Some(AgentAction::Examine { path, size }) => a.examined(&path, 1, size, 2),
        _ => panic!("not examined"),
    }
    assert!(a.inspected("b".to_string(), state(1, 70_000)).is_none());
}

#[test]
fn agent_reports_deletions_and_directories() {
    let mut a = agent();
    assert!(matches!(
        a.handle_watch_event(WatchEvent::Deleted("x".to_string())),
        Some(AgentAction::Send(Message::FileDeleted { path })) if path == "x"
    ));
    assert!(matches!(
        a.handle_watch_event(WatchEvent::DirCreated("y".to_string())),
        Some(AgentAction::Send(Message::DirCreated { path })) if path == "y"
    ));
    assert!(matches!(
        a.handle_watch_event(WatchEvent::DirDeleted("z".to_string())),
        Some(AgentAction::Send(Message::DirDeleted { path })) if path == "z"
    ));
    assert!(matches!(
        a.handle_message(Message::DirCreated { path: "n".to_string() }, ABSENT, 0),
        Some(AgentAction::CreateDir { path }) if path == "n"
    ));
}

#[test]
fn agent_of_a_mirror_reports_nothing() {
    let mut a = AgentEngine::new(SyncDirection::Bidirectional, SyncDirection::LocalToBeam);
    assert!(a.handle_watch_event(modified("a")).is_none());
    assert!(a.handle_watch_event(WatchEvent::Deleted("a".to_string())).is_none());
}

#[test]
fn agent_answers_a_manifest_with_a_plan() {
    let mut a = agent();
    let entry = |path: &str, hash: u64, is_dir: bool| ManifestEntry {
        path: path.to_string(),
        hash,
        mtime: 0,
        size: 1,
        is_dir,
    };
    let msg = Message::FileManifest { entries: vec![entry("d", 0, true), entry("d/a", 1, false)] };
    let entries = match a.handle_message(msg, ABSENT, 0) {
        Some(AgentAction::Reconcile { entries }) => entries,
        _ => panic!("not reconciled"),
    };
    let tree = vec![FsNode::File { name: "b".to_string(), hash: 2, mtime: 3, size: 4 }];
    let rules = IgnoreRules::load("/w", None, None);
    let (dirs, answer) = a.reconcile("/w", &tree, &rules, &entries);
    assert_eq!(dirs, vec!["d"]);
    match answer {
        Message::SyncPlan { to_push, to_pull } => {
            assert_eq!(to_push.len(), 1);
            assert_eq!(to_push[0].path, "d/a");
            assert_eq!(to_pull.len(), 1);
            assert_eq!((to_pull[0].path.as_str(), to_pull[0].hash, to_pull[0].size), ("b", 2, 4));
        }
        _ => panic!("no plan"),
    }
    assert!(a.inspected("b".to_string(), state(2, 4)).is_none());
}
