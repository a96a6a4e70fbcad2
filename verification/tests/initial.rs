use beamup::initial::{
    acknowledge_files, announce_files, await_ack, await_plan, count_failures, make_steps,
    sum_sizes, travels_whole, InitialSync, Step, SyncAction, SyncEvent, SyncProgress, WhileClosing,
    WhilePlanning,
};
use beamup::messages::{Message, SyncDirection, SyncEntry};
use beamup::transfer::{batch_results, Direction};

fn entry(path: &str, size: u64) -> SyncEntry {
    SyncEntry { path: path.to_string(), hash: size + 1, size }
}

fn names(files: &[SyncEntry]) -> Vec<&str> {
    files.iter().map(|f| f.path.as_str()).collect()
}

#[test]
fn plan_is_awaited() {
    let plan = Message::SyncPlan { to_push: vec![entry("a", 1)], to_pull: vec![] };
    assert!(matches!(
        await_plan(Some(plan)),
        WhilePlanning::Plan { to_push, to_pull } if to_push.len() == 1 && to_pull.is_empty()
    ));
    let inline = Message::FileContent { path: "x".to_string(), hash: 1, data: vec![2] };
    assert!(matches!(
        await_plan(Some(inline)),
        WhilePlanning::Inline { path, hash: 1, data } if path == "x" && data == vec![2]
    ));
    assert!(matches!(await_plan(Some(Message::ManifestAck)), WhilePlanning::Ignore));
    assert!(matches!(await_plan(None), WhilePlanning::Closed));
}

#[test]
fn acknowledgement_is_awaited() {
    assert!(matches!(await_ack(Some(Message::ManifestAck)), WhileClosing::Done));
    let inline = Message::FileContent { path: "x".to_string(), hash: 1, data: vec![2] };
    assert!(matches!(await_ack(Some(inline)), WhileClosing::Inline { hash: 1, .. }));
    assert!(matches!(await_ack(Some(Message::Pong)), WhileClosing::Ignore));
    assert!(matches!(await_ack(None), WhileClosing::Closed));
}

#[test]
fn steps_part_files_by_size() {
    let to_push = vec![entry("a", 10), entry("huge", 11), entry("b", 0)];
    let to_pull = vec![entry("c", 99)];
    let steps = make_steps(SyncDirection::Bidirectional, 10, to_push, to_pull);
    assert_eq!(steps.len(), 4);
    assert!(matches!(&steps[0], Step::PushBatched(f) if names(f) == ["a", "b"]));
    assert!(matches!(&steps[1], Step::PushChunked(f) if names(f) == ["huge"]));
    assert!(matches!(&steps[2], Step::PullChunked(f) if names(f) == ["c"]));
    assert!(matches!(&steps[3], Step::Settle(f) if names(f) == ["c"] && f[0].hash == 100));
}

#[test]
fn steps_keep_to_the_direction() {
    let plan = || (vec![entry("a", 1)], vec![entry("b", 1)]);
    let (push, pull) = plan();
    let up = make_steps(SyncDirection::LocalToBeam, 10, push, pull);
    assert_eq!(up.len(), 1);
    assert!(matches!(&up[0], Step::PushBatched(_)));
    let (push, pull) = plan();
    let down = make_steps(SyncDirection::BeamToLocal, 10, push, pull);
    assert_eq!(down.len(), 2);
    assert!(matches!(&down[0], Step::PullBatched(_)));
    assert!(matches!(&down[1], Step::Settle(_)));
    assert!(make_steps(SyncDirection::Bidirectional, 10, vec![], vec![]).is_empty());
}

#[test]
fn one_piece_up_to_the_chunk_size() {
    assert!(travels_whole(10, 10));
    assert!(!travels_whole(11, 10));
}

#[test]
fn pushed_and_pulled_files_are_named_to_the_agent() {
    let files = vec![entry("a", 5), entry("b", 6)];
    let all = batch_results(vec!["b".to_string(), "a".to_string()], Direction::Push, None, 1);
    let ready = announce_files(&files, &all);
    assert_eq!(ready.len(), 2);
    assert!(matches!(
        &ready[1],
        Message::FileReady { path, hash: 7, size: 6 } if path == "b"
    ));
    let received = acknowledge_files(&files, &all);
    assert!(matches!(&received[0], Message::FileReceived { path, hash: 6 } if path == "a"));
}

#[test]
fn failed_transfers_are_not_announced() {
    let files = vec![entry("a", 5), entry("b", 6)];
    let mut results = batch_results(vec!["b".to_string()], Direction::Push, None, 1);
    let error = Some("no".to_string());
    results.extend(batch_results(vec!["a".to_string()], Direction::Push, error, 1));
    let ready = announce_files(&files, &results);
    assert_eq!(ready.len(), 1);
    assert!(matches!(&ready[0], Message::FileReady { path, hash: 7, size: 6 } if path == "b"));
    assert!(announce_files(&files, &Vec::new()).is_empty());
    assert_eq!(acknowledge_files(&files, &results).len(), 1);
}

fn message(msg: Message) -> SyncEvent {
    SyncEvent::Message { msg: Some(msg) }
}

#[test]
fn initial_sync_keeps_its_order() {
    let mut sync = InitialSync::new(SyncDirection::Bidirectional, 10);
    assert!(matches!(
        &sync.step(SyncEvent::Listed { entries: Vec::new() })[..],
        [SyncAction::Send(Message::FileManifest { entries })] if entries.is_empty()
    ));
    assert!(sync.step(message(Message::Pong)).is_empty());
    let inline = Message::FileContent { path: "x".to_string(), hash: 1, data: vec![2] };
    assert!(matches!(
        &sync.step(message(inline))[..],
        [SyncAction::Write { path, hash: 1, data }] if path == "x" && *data == vec![2]
    ));
    let plan = Message::SyncPlan {
        to_push: vec![entry("a", 1), entry("huge", 11)],
        to_pull: vec![entry("c", 2)],
    };
    assert!(matches!(
        &sync.step(message(plan))[..],
        [SyncAction::Work(Step::PushBatched(f))] if names(f) == ["a"]
    ));
    assert!(sync.step(message(Message::ManifestAck)).is_empty());
    let results = batch_results(vec!["a".to_string()], Direction::Push, None, 1);
    assert!(matches!(
        &sync.step(SyncEvent::Worked { results })[..],
        [SyncAction::Send(Message::FileReady { path, .. }), SyncAction::Work(Step::PushChunked(_))]
            if path == "a"
    ));
    let error = Some("no".to_string());
    let results = batch_results(vec!["huge".to_string()], Direction::Push, error, 1);
    assert!(matches!(
        &sync.step(SyncEvent::Worked { results })[..],
        [SyncAction::Work(Step::PullBatched(_))]
    ));
    let pulled = || batch_results(vec!["c".to_string()], Direction::Pull, None, 1);
    assert!(matches!(
        &sync.step(SyncEvent::Worked { results: pulled() })[..],
        [SyncAction::Work(Step::Settle(f))] if names(f) == ["c"]
    ));
    assert!(matches!(
        &sync.step(SyncEvent::Worked { results: pulled() })[..],
        [SyncAction::Send(Message::FileReceived { .. }), SyncAction::Send(Message::ManifestAck)]
    ));
    assert!(matches!(
        &sync.step(message(Message::ManifestAck))[..],
        [SyncAction::Finish { total: 4 }]
    ));
    assert!(sync.step(message(Message::ManifestAck)).is_empty());
}

#[test]
fn closed_connection_ends_the_initial_sync() {
    let mut sync = InitialSync::new(SyncDirection::LocalToBeam, 10);
    sync.step(SyncEvent::Listed { entries: Vec::new() });
    assert!(matches!(&sync.step(SyncEvent::Message { msg: None })[..], [SyncAction::Fail]));
    let mut sync = InitialSync::new(SyncDirection::LocalToBeam, 10);
    sync.step(SyncEvent::Listed { entries: Vec::new() });
    let plan = Message::SyncPlan { to_push: Vec::new(), to_pull: vec![entry("c", 2)] };
    assert!(matches!(
        &sync.step(message(plan))[..],
        [SyncAction::Send(Message::ManifestAck)]
    ));
    assert!(matches!(&sync.step(SyncEvent::Message { msg: None })[..], [SyncAction::Fail]));
}

#[test]
fn sizes_add_up() {
    assert_eq!(sum_sizes(&vec![entry("a", 5), entry("b", 6)]), Some(11));
    let too_much = vec![
        SyncEntry { path: "a".to_string(), hash: 0, size: u64::MAX },
        SyncEntry { path: "b".to_string(), hash: 0, size: 1 },
    ];
    assert_eq!(sum_sizes(&too_much), None);
}

#[test]
fn progress_is_counted() {
    let mut p = SyncProgress::new();
    let to_push = vec![entry("a", 5), entry("b", 6)];
    let to_pull = vec![entry("c", 7)];
    assert_eq!(p.plan(SyncDirection::Bidirectional, &to_push, &to_pull), Some(18));
    assert_eq!(p.total_files, 3);
    assert_eq!(p.plan(SyncDirection::LocalToBeam, &to_push, &to_pull), Some(11));
    assert_eq!(p.message(), "0/2 files");
    p.batched(1);
    p.launch(2);
    p.landed(true);
    p.landed(false);
    assert_eq!((p.files_done, p.waiting), (2, 0));
    assert_eq!(p.message(), "2/2 files");
}

#[test]
fn failures_are_counted() {
    let mut results = batch_results(vec!["a".to_string()], Direction::Push, None, 1);
    results.extend(batch_results(
        vec!["b".to_string(), "c".to_string()],
        Direction::Push,
        Some("broken".to_string()),
        1,
    ));
    assert_eq!(count_failures(&results), 2);
    assert_eq!(results[2].error.as_deref(), Some("broken"));
    assert!(results[0].success);
}

/// Runs an initial sync in which every file of the plan is moved, and `inline` bytes come inline
/// after it. Gives the total it ends with.
fn run_total(to_push: Vec<SyncEntry>, to_pull: Vec<SyncEntry>, inline: usize) -> u64 {
    let mut sync = InitialSync::new(SyncDirection::Bidirectional, 10);
    sync.step(SyncEvent::Listed { entries: Vec::new() });
    let mut actions = sync.step(message(Message::SyncPlan { to_push, to_pull }));
    while let Some(SyncAction::Work(step)) = actions.pop() {
        if let Step::PushChunked(files) | Step::PullChunked(files) = step {
            for file in files {
                assert!(sync.step(SyncEvent::Moved { bytes: 10 }).is_empty());
                assert!(sync.step(SyncEvent::Moved { bytes: file.size - 10 }).is_empty());
            }
        }
        actions = sync.step(SyncEvent::Worked { results: Vec::new() });
    }
    let data = vec![7; inline];
    let file = Message::FileContent { path: "x".to_string(), hash: 1, data };
    assert!(matches!(&sync.step(message(file))[..], [SyncAction::Write { .. }]));
    match &sync.step(message(Message::ManifestAck))[..] {
        [SyncAction::Finish { total }] => *total,
        _ => panic!("the sync goes on"),
    }
}

#[test]
fn total_is_what_moved() {
    let to_push = || vec![entry("a", 10), entry("huge", 11), entry("b", 0)];
    let to_pull = || vec![entry("c", 99), entry("d", 3)];
    let mut done = SyncProgress::new();
    let expected = done.plan(SyncDirection::Bidirectional, &to_push(), &to_pull());
    assert_eq!(Some(run_total(to_push(), to_pull(), 0)), expected);
    assert_eq!(run_total(to_push(), to_pull(), 5), 128);
    assert_eq!(run_total(Vec::new(), Vec::new(), 0), 0);
}

#[test]
fn bytes_have_to_be_countable() {
    let mut sync = InitialSync::new(SyncDirection::LocalToBeam, 10);
    sync.step(SyncEvent::Listed { entries: Vec::new() });
    assert!(sync.step(SyncEvent::Moved { bytes: 5 }).is_empty());
    let plan = Message::SyncPlan { to_push: vec![entry("huge", 11)], to_pull: Vec::new() };
    sync.step(message(plan));
    let most = SyncEvent::Moved { bytes: u64::MAX };
    assert!(sync.can_take(&most));
    sync.step(most);
    assert!(!sync.can_take(&SyncEvent::Moved { bytes: 1 }));
    assert!(sync.can_take(&SyncEvent::Worked { results: Vec::new() }));
    let mut sync = InitialSync::new(SyncDirection::LocalToBeam, usize::MAX);
    sync.step(SyncEvent::Listed { entries: Vec::new() });
    let to_push = vec![
        SyncEntry { path: "a".to_string(), hash: 0, size: u64::MAX },
        SyncEntry { path: "b".to_string(), hash: 0, size: 1 },
    ];
    sync.step(message(Message::SyncPlan { to_push, to_pull: Vec::new() }));
    assert!(!sync.can_take(&SyncEvent::Worked { results: Vec::new() }));
}

#[test]
fn steps_move_what_the_plan_announced() {
    let to_push = vec![entry("a", 10), entry("huge", 11), entry("b", 0)];
    let to_pull = vec![entry("c", 99), entry("d", 3)];
    let mut done = SyncProgress::new();
    let expected = done.plan(SyncDirection::Bidirectional, &to_push, &to_pull);
    assert_eq!(expected, Some(123));
    assert_eq!(done.total_files, 5);
    let mut moved: u64 = 0;
    for step in make_steps(SyncDirection::Bidirectional, 10, to_push, to_pull) {
        match step {
            Step::PushBatched(files) | Step::PullBatched(files) => {
                done.batched(files.len());
                moved += sum_sizes(&files).unwrap();
            }
            Step::PushChunked(files) | Step::PullChunked(files) => {
                done.launch(files.len());
                for file in &files {
                    moved += file.size;
                    done.landed(true);
                }
            }
            Step::Settle(_) => {}
        }
    }
    assert_eq!(done.files_done, done.total_files);
    assert_eq!(Some(moved), expected);
    assert_eq!(done.message(), "5/5 files");
}
