use beamup::agent::{HandshakeError, Probe};
use beamup::engine::{conflict_path, EngineAction, Event, SyncEngine, PING_TIMEOUT_NANOS};
use beamup::ignore_rules::IgnoreRules;
use beamup::manifest::FsNode;
use beamup::messages::{Message, SyncDirection, INLINE_THRESHOLD};
use beamup::states::{FileState, SUPPRESS_NANOS};
use beamup::transfer::{transfer_result, Direction};
use beamup::watch::WatchEvent;

const ABSENT: Probe = Probe { exists: false, is_dir: false };
const FILE: Probe = Probe { exists: true, is_dir: false };
const DIR: Probe = Probe { exists: true, is_dir: true };

fn engine_with(ongoing: SyncDirection) -> SyncEngine {
    SyncEngine::new(
        "beam-1".to_string(),
        "/w".to_string(),
        "/home/beams/sync".to_string(),
        IgnoreRules::load("/w", Some(vec!["target/".to_string()]), None),
        64,
        SyncDirection::Bidirectional,
        ongoing,
    )
}

fn engine() -> SyncEngine {
    engine_with(SyncDirection::Bidirectional)
}

fn state(hash: u64, size: u64) -> FileState {
    FileState { hash, mtime: 1, size }
}

fn remote(msg: Message, probe: Probe, current: Option<u64>) -> Event {
    Event::Remote { msg: Some(msg), probe, current }
}

fn local_modified(path: &str) -> Event {
    Event::Local { event: WatchEvent::Modified(path.to_string()) }
}

fn content(path: &str, hash: u64) -> Message {
    Message::FileContent { path: path.to_string(), hash, data: vec![1] }
}

#[test]
fn hello_names_the_directions() {
    match engine_with(SyncDirection::BeamToLocal).hello("id".to_string()) {
        Message::Hello { version, session_id, initial_direction, ongoing_direction } => {
            assert_eq!(version, 2);
            assert_eq!(session_id, "id");
            assert_eq!(initial_direction, SyncDirection::Bidirectional);
            assert_eq!(ongoing_direction, SyncDirection::BeamToLocal);
        }
        other => panic!("unexpected: {other:?}"),
    }
}

#[test]
fn acknowledgement_must_be_of_this_version() {
    assert!(SyncEngine::accept_ack(Some(Message::HelloAck { version: 2 })).is_ok());
    assert!(matches!(
        SyncEngine::accept_ack(Some(Message::HelloAck { version: 3 })),
        Err(HandshakeError::VersionMismatch { version: 3 })
    ));
    assert!(matches!(
        SyncEngine::accept_ack(Some(Message::Pong)),
        Err(HandshakeError::Unexpected { got: Some(Message::Pong) })
    ));
    assert!(matches!(
        SyncEngine::accept_ack(None),
        Err(HandshakeError::Unexpected { got: None })
    ));
}

#[test]
fn local_manifest_is_remembered() {
    let mut e = engine();
    let tree = vec![FsNode::File { name: "a".to_string(), hash: 4, mtime: 5, size: 6 }];
    let entries = e.build_local_manifest(&tree);
    assert_eq!(entries.len(), 1);
    assert_eq!(entries[0].path, "a");
    assert!(e.inspected("a".to_string(), state(4, 6)).is_empty());
}

#[test]
fn inline_file_is_written() {
    let mut e = engine();
    let actions = e.step(remote(content("a", 7), ABSENT, None), 0);
    assert!(matches!(
        &actions[..],
        [EngineAction::Write { path, hash: 7, data }] if path == "a" && *data == vec![1]
    ));
}

#[test]
fn conflicting_file_is_kept_before_it_is_replaced() {
    let mut e = engine();
    e.written(&"a".to_string(), 1, 1, 1, 0);
    let actions = e.step(remote(content("a", 7), FILE, Some(2)), 0);
    assert!(matches!(
        &actions[..],
        [EngineAction::SaveConflict { path: kept }, EngineAction::Write { path, hash: 7, .. }]
            if kept == "a" && path == "a"
    ));
    let same_as_known = e.step(remote(content("a", 7), FILE, Some(1)), 0);
    assert_eq!(same_as_known.len(), 1);
    let same_as_incoming = e.step(remote(content("a", 7), FILE, Some(7)), 0);
    assert_eq!(same_as_incoming.len(), 1);
    let gone = e.step(remote(content("a", 7), ABSENT, None), 0);
    assert_eq!(gone.len(), 1);
}

#[test]
fn own_writes_are_not_reported() {
    let mut e = engine();
    e.written(&"src/a".to_string(), 1, 1, 1, 1_000);
    e.expire(1_000 + SUPPRESS_NANOS - 1);
    assert!(e.step(local_modified("/w/src/a"), 0).is_empty());
    let deleted = Event::Local { event: WatchEvent::Deleted("/w/src/a".to_string()) };
    assert!(e.step(deleted, 0).is_empty());
    e.expire(1_000 + SUPPRESS_NANOS);
    assert!(matches!(
        &e.step(local_modified("/w/src/a"), 0)[..],
        [EngineAction::Inspect { path }] if path == "src/a"
    ));
    assert!(e.inspected("src/a".to_string(), state(1, 1)).is_empty());
}

#[test]
fn small_change_is_sent_inline() {
    let mut e = engine();
    assert!(matches!(
        &e.inspected("a".to_string(), state(3, INLINE_THRESHOLD - 1))[..],
        [EngineAction::SendContent { path, hash: 3 }] if path == "a"
    ));
    assert!(e.inspected("a".to_string(), state(3, INLINE_THRESHOLD - 1)).is_empty());
}

#[test]
fn large_change_is_pushed_once_at_a_time() {
    let mut e = engine();
    let actions = e.inspected("big".to_string(), state(3, INLINE_THRESHOLD));
    assert!(matches!(
        &actions[..],
        [
            EngineAction::Send(Message::FileChanged { path, hash: 3, mtime: 1, size: 65_536 }),
            EngineAction::StartPush { path: pushed },
        ] if path == "big" && pushed == "big"
    ));
    assert!(e.inspected("big".to_string(), state(4, INLINE_THRESHOLD)).is_empty());
    let done = transfer_result("big".to_string(), Direction::Push, Ok(()), 1, 2);
    assert!(matches!(
        &e.step(Event::Transfer { result: done }, 0)[..],
        [EngineAction::Send(Message::FileReady { path, hash: 4, size: 65_536 })] if path == "big"
    ));
    assert_eq!(e.inspected("big".to_string(), state(5, INLINE_THRESHOLD)).len(), 2);
}

#[test]
fn announced_large_file_is_pulled_once_at_a_time() {
    let mut e = engine();
    let msg = |hash| Message::FileChanged { path: "p".to_string(), hash, mtime: 0, size: 70_000 };
    assert!(matches!(
        &e.step(remote(msg(1), ABSENT, None), 0)[..],
        [EngineAction::StartPull { path }] if path == "p"
    ));
    assert!(e.step(remote(msg(2), ABSENT, None), 0).is_empty());
    let done = transfer_result("p".to_string(), Direction::Pull, Ok(()), 1, 2);
    assert!(matches!(
        &e.step(Event::Transfer { result: done }, 0)[..],
        [EngineAction::Examine { path }] if path == "p"
    ));
    assert!(matches!(
        &e.pulled("p".to_string(), Some(state(2, 70_000)), 9)[..],
        [EngineAction::Send(Message::FileReceived { path, hash: 2 })] if path == "p"
    ));
    assert!(e.step(remote(msg(2), FILE, None), 9).is_empty());
    assert!(e.step(local_modified("/w/p"), 9).is_empty());
    assert!(e.pulled("q".to_string(), None, 9).is_empty());
}

#[test]
fn announced_small_file_comes_by_itself() {
    let mut e = engine();
    let msg = Message::FileChanged { path: "p".to_string(), hash: 1, mtime: 0, size: 65_535 };
    assert!(e.step(remote(msg, ABSENT, None), 0).is_empty());
}

#[test]
fn failed_transfer_is_reported() {
    let mut e = engine();
    e.inspected("big".to_string(), state(3, INLINE_THRESHOLD));
    let failed = transfer_result(
        "big".to_string(),
        Direction::Push,
        Err("no route".to_string()),
        0,
        0,
    );
    assert!(matches!(
        &e.step(Event::Transfer { result: failed }, 0)[..],
        [EngineAction::AlertFailure { path, error: Some(e) }] if path == "big" && e == "no route"
    ));
    assert_eq!(e.inspected("big".to_string(), state(4, INLINE_THRESHOLD)).len(), 2);
}

#[test]
fn remote_deletions() {
    let mut e = engine();
    let file = || Message::FileDeleted { path: "f".to_string() };
    let dir = || Message::DirDeleted { path: "d".to_string() };
    assert!(e.step(remote(file(), ABSENT, None), 0).is_empty());
    assert!(matches!(
        &e.step(remote(file(), FILE, Some(1)), 0)[..],
        [EngineAction::RemoveFile { path }] if path == "f"
    ));
    assert!(e.step(remote(dir(), FILE, Some(1)), 0).is_empty());
    assert!(matches!(
        &e.step(remote(dir(), DIR, None), 0)[..],
        [EngineAction::RemoveDir { path }] if path == "d"
    ));
    assert!(matches!(
        &e.step(remote(Message::DirCreated { path: "n".to_string() }, ABSENT, None), 0)[..],
        [EngineAction::CreateDir { path }] if path == "n"
    ));
    let gone = Event::Local { event: WatchEvent::DirDeleted("/w/d".to_string()) };
    assert!(e.step(gone, 0).is_empty());
}

#[test]
fn local_deletions_and_directories() {
    let mut e = engine();
    let local = |event| Event::Local { event };
    assert!(matches!(
        &e.step(local(WatchEvent::Deleted("/w/a".to_string())), 0)[..],
        [EngineAction::Send(Message::FileDeleted { path })] if path == "a"
    ));
    assert!(matches!(
        &e.step(local(WatchEvent::DirDeleted("/w/b".to_string())), 0)[..],
        [EngineAction::Send(Message::DirDeleted { path })] if path == "b"
    ));
    assert!(matches!(
        &e.step(local(WatchEvent::DirCreated("/w/c".to_string())), 0)[..],
        [EngineAction::Send(Message::DirCreated { path })] if path == "c"
    ));
}

#[test]
fn ignored_changes_are_not_sent() {
    let mut e = engine();
    assert!(e.step(local_modified("/w/target/a.o"), 0).is_empty());
    let dir = Event::Local { event: WatchEvent::DirCreated("/w/target".to_string()) };
    assert!(e.step(dir, 0).is_empty());
}

#[test]
fn directions_are_kept() {
    let mut mirror = engine_with(SyncDirection::LocalToBeam);
    assert!(mirror.step(remote(content("a", 1), ABSENT, None), 0).is_empty());
    assert!(matches!(
        &mirror.step(remote(Message::Ping, ABSENT, None), 0)[..],
        [EngineAction::Send(Message::Pong)]
    ));
    let mut puller = engine_with(SyncDirection::BeamToLocal);
    assert!(puller.step(local_modified("/w/a"), 0).is_empty());
    assert_eq!(puller.step(remote(content("a", 1), ABSENT, None), 0).len(), 1);
}

#[test]
fn reported_conflict_is_shown() {
    let msg = Message::ConflictDetected { path: "a".to_string(), local_hash: 1, remote_hash: 2 };
    assert!(matches!(
        &engine().step(remote(msg, ABSENT, None), 0)[..],
        [EngineAction::AlertConflict { path }] if path == "a"
    ));
}

#[test]
fn silent_beam_is_noticed() {
    let mut e = engine();
    e.begin_loop(100);
    assert!(matches!(
        &e.step(Event::Tick, 99 + PING_TIMEOUT_NANOS)[..],
        [EngineAction::Send(Message::Ping)]
    ));
    assert!(matches!(
        &e.step(Event::Tick, 100 + PING_TIMEOUT_NANOS)[..],
        [EngineAction::Send(Message::Ping), EngineAction::AlertSilence]
    ));
    assert!(e.step(remote(Message::Pong, ABSENT, None), 200).is_empty());
    assert_eq!(e.step(Event::Tick, 199 + PING_TIMEOUT_NANOS).len(), 1);
    assert_eq!(PING_TIMEOUT_NANOS, 15_000_000_000);
}

#[test]
fn alarm_rings_when_the_time_is_up() {
    let mut e = engine();
    e.begin_loop(100);
    assert_eq!(e.alarm(100), Some(15_000_000_000));
    assert_eq!(e.alarm(10_000_000_100), Some(5_000_000_000));
    assert!(e.step(Event::Alarm, 99 + PING_TIMEOUT_NANOS).is_empty());
    assert_eq!(e.alarm(99 + PING_TIMEOUT_NANOS), Some(1));
    assert_eq!(e.alarm(200 + PING_TIMEOUT_NANOS), Some(0));
    assert!(matches!(
        &e.step(Event::Alarm, 100 + PING_TIMEOUT_NANOS)[..],
        [EngineAction::AlertSilence]
    ));
    assert_eq!(e.alarm(101 + PING_TIMEOUT_NANOS), None);
    assert!(e.step(Event::Alarm, 101 + PING_TIMEOUT_NANOS).is_empty());
    e.step(remote(Message::Pong, ABSENT, None), 300);
    assert_eq!(e.alarm(300), Some(PING_TIMEOUT_NANOS));
}

#[test]
fn large_change_does_not_overwrite_a_local_one() {
    let changed = |hash| Message::FileChanged {
        path: "a".to_string(),
        hash,
        mtime: 1,
        size: INLINE_THRESHOLD,
    };
    let mut e = engine();
    e.written(&"a".to_string(), 1, 1, 1, 0);
    assert!(matches!(
        &e.step(remote(changed(7), FILE, Some(2)), 0)[..],
        [EngineAction::SaveConflict { path: kept }, EngineAction::StartPull { path }]
            if kept == "a" && path == "a"
    ));
    let mut e = engine();
    e.written(&"a".to_string(), 1, 1, 1, 0);
    assert!(matches!(
        &e.step(remote(changed(7), FILE, Some(1)), 0)[..],
        [EngineAction::StartPull { .. }]
    ));
    let mut e = engine();
    assert!(matches!(
        &e.step(remote(changed(7), ABSENT, None), 0)[..],
        [EngineAction::StartPull { .. }]
    ));
}

#[test]
fn file_of_which_nothing_is_known_is_no_conflict() {
    let mut e = engine();
    assert!(matches!(
        &e.step(remote(content("new", 7), FILE, Some(2)), 0)[..],
        [EngineAction::Write { .. }]
    ));
}

#[test]
fn ignored_paths_are_not_sent_when_they_go() {
    let mut e = engine();
    for path in ["/w/.git/index.lock", "/w/target/x"] {
        let gone = Event::Local { event: WatchEvent::Deleted(path.to_string()) };
        assert!(e.step(gone, 0).is_empty());
    }
    let gone = Event::Local { event: WatchEvent::DirDeleted("/w/target".to_string()) };
    assert!(e.step(gone, 0).is_empty());
}

#[test]
fn lost_connection_ends_the_loop() {
    let lost = Event::Remote { msg: None, probe: ABSENT, current: None };
    assert!(matches!(&engine().step(lost, 0)[..], [EngineAction::Stop]));
}

#[test]
fn conflicts_are_kept_beside_the_file() {
    assert_eq!(conflict_path("/w/a.txt"), "/w/a.txt.local.conflict");
}
