//! The local side of a session: what it does about each message, event and transfer.

use crate::agent::{
    after_event, after_message, event_action, inspection_action, message_action, unchanged,
    AgentActionView, AgentView, HandshakeError, Probe,
};
use crate::ignore_rules::{filtered, IgnoreRules, Patterns};
use crate::manifest::{build_manifest, listing, record_files, recorded, FsNode};
use crate::messages::{
    is_inline, sent_inline, ManifestEntry, Message, MessageView, SyncDirection, PROTOCOL_VERSION,
};
use crate::paths::{relative, relative_path};
use crate::states::{
    elapsed, elapsed_nanos, fresh, without_prefix, FileState, PathMap, SUPPRESS_NANOS,
};
use crate::text::{begins_with, concat, opt_view, views};
use crate::transfer::{Direction, TransferResult, TransferView};
use crate::watch::{local_event, reaction, ChangeKind, KernelMask, WatchEvent, WatchView};
use vstd::hash_set::StringHashSet;
use vstd::prelude::*;

verus! {

/// The time between two pings, in nanoseconds.
pub const PING_INTERVAL_NANOS: u64 = 5_000_000_000;

/// How long the beam may stay silent before the user is warned, in nanoseconds.
pub const PING_TIMEOUT_NANOS: u64 = 15_000_000_000;

/// What the local side has to do next.
pub enum EngineAction {
    /// Send a message to the agent.
    Send(Message),
    /// Keep a copy of the file beside it under the name of a conflict, and alert the user.
    SaveConflict { path: String },
    /// Replace the file's contents, then call `written`.
    Write { path: String, hash: u64, data: Vec<u8> },
    /// Look at the file that changed, then call `inspected`.
    Inspect { path: String },
    /// Read the file and send its contents with this hash.
    SendContent { path: String, hash: u64 },
    /// Look at the file that was pulled, then call `pulled`.
    Examine { path: String },
    CreateDir { path: String },
    RemoveFile { path: String },
    RemoveDir { path: String },
    StartPush { path: String },
    StartPull { path: String },
    /// Alert the user that both sides changed the file.
    AlertConflict { path: String },
    /// Tell the user that a transfer failed.
    AlertFailure { path: String, error: Option<String> },
    /// Tell the user that the beam does not answer.
    AlertSilence,
    /// Tell the user that the connection was lost, and end the session.
    Stop,
}

/// What an [`EngineAction`] says.
#[verifier::ext_equal]
pub enum EngineActionView {
    Send(MessageView),
    SaveConflict { path: Seq<char> },
    Write { path: Seq<char>, hash: u64, data: Seq<u8> },
    Inspect { path: Seq<char> },
    SendContent { path: Seq<char>, hash: u64 },
    Examine { path: Seq<char> },
    CreateDir { path: Seq<char> },
    RemoveFile { path: Seq<char> },
    RemoveDir { path: Seq<char> },
    StartPush { path: Seq<char> },
    StartPull { path: Seq<char> },
    AlertConflict { path: Seq<char> },
    AlertFailure { path: Seq<char>, error: Option<Seq<char>> },
    AlertSilence,
    Stop,
}

impl View for EngineAction {
    type V = EngineActionView;

    open spec fn view(&self) -> EngineActionView {
        match *self {
            EngineAction::Send(msg) => EngineActionView::Send(msg@),
            EngineAction::SaveConflict { path } => EngineActionView::SaveConflict { path: path@ },
            EngineAction::Write { path, hash, data } => EngineActionView::Write {
                path: path@,
                hash,
                data: data@,
            },
            EngineAction::Inspect { path } => EngineActionView::Inspect { path: path@ },
            EngineAction::SendContent { path, hash } => EngineActionView::SendContent {
                path: path@,
                hash,
            },
            EngineAction::Examine { path } => EngineActionView::Examine { path: path@ },
            EngineAction::CreateDir { path } => EngineActionView::CreateDir { path: path@ },
            EngineAction::RemoveFile { path } => EngineActionView::RemoveFile { path: path@ },
            EngineAction::RemoveDir { path } => EngineActionView::RemoveDir { path: path@ },
            EngineAction::StartPush { path } => EngineActionView::StartPush { path: path@ },
            EngineAction::StartPull { path } => EngineActionView::StartPull { path: path@ },
            EngineAction::AlertConflict { path } => EngineActionView::AlertConflict { path: path@ },
            EngineAction::AlertFailure { path, error } => EngineActionView::AlertFailure {
                path: path@,
                error: opt_view(error),
            },
            EngineAction::AlertSilence => EngineActionView::AlertSilence,
            EngineAction::Stop => EngineActionView::Stop,
        }
    }
}

/// What the local side remembers.
#[verifier::ext_equal]
pub struct EngineView {
    pub beam_id: Seq<char>,
    pub local_dir: Seq<char>,
    pub remote_dir: Seq<char>,
    pub rules: Seq<Patterns>,
    /// The files as this side last saw or wrote them.
    pub states: Map<Seq<char>, FileState>,
    /// The paths that this side keeps silent about, each with the time since when.
    pub quiet: Map<Seq<char>, u64>,
    /// The files that are being transferred.
    pub in_flight: Set<Seq<char>>,
    pub chunk_size: usize,
    pub initial_direction: SyncDirection,
    pub ongoing_direction: SyncDirection,
    /// When the beam last answered a ping.
    pub last_pong: u64,
    /// Whether the user was told since then that the beam does not answer.
    pub alerted: bool,
}

impl EngineView {
    /// Silent about `path` from `now` on.
    pub open spec fn hushed(self, path: Seq<char>, now: u64) -> EngineView {
        EngineView { quiet: self.quiet.insert(path, now), ..self }
    }

    /// With `state` remembered for `path`.
    pub open spec fn knowing(self, path: Seq<char>, state: FileState) -> EngineView {
        EngineView { states: self.states.insert(path, state), ..self }
    }

    /// With the file `path` forgotten.
    pub open spec fn forgetting(self, path: Seq<char>) -> EngineView {
        EngineView { states: self.states.remove(path), ..self }
    }

    /// With all files forgotten whose path begins with the text `prefix`.
    pub open spec fn forgetting_all(self, prefix: Seq<char>) -> EngineView {
        EngineView { states: without_prefix(self.states, prefix), ..self }
    }

    /// With a transfer of `path` under way.
    pub open spec fn launching(self, path: Seq<char>) -> EngineView {
        EngineView { in_flight: self.in_flight.insert(path), ..self }
    }

    /// With no transfer of `path` under way.
    pub open spec fn landing(self, path: Seq<char>) -> EngineView {
        EngineView { in_flight: self.in_flight.remove(path), ..self }
    }

    /// Silent only about what it has been silent about for a short time.
    pub open spec fn refreshed(self, now: u64) -> EngineView {
        EngineView { quiet: fresh(self.quiet, now), ..self }
    }

    /// Whether replacing the contents `current` of `path` by contents with the hash `incoming`
    /// would lose a local change: the file is known, is there, and holds neither what is
    /// remembered of it nor what comes.
    pub open spec fn conflicts(self, path: Seq<char>, incoming: u64, current: Option<u64>) -> bool {
        self.states.contains_key(path) && match current {
            Some(hash) => hash != self.states[path].hash && hash != incoming,
            None => false,
        }
    }

    /// Whether the beam has been silent for as long as it may be.
    pub open spec fn overdue(self, now: u64) -> bool {
        elapsed(self.last_pong, now) >= PING_TIMEOUT_NANOS
    }

    /// How long to wait until the user is to be told that the beam does not answer; `None` where
    /// that was done.
    pub open spec fn alarm(self, now: u64) -> Option<u64> {
        if self.alerted {
            None
        } else if self.overdue(now) {
            Some(0)
        } else {
            Some((PING_TIMEOUT_NANOS - elapsed(self.last_pong, now)) as u64)
        }
    }
}

/// What the local side does about a file that came inline.
pub open spec fn inline_actions(
    s: EngineView,
    path: Seq<char>,
    hash: u64,
    data: Seq<u8>,
    current: Option<u64>,
) -> Seq<EngineActionView> {
    let write = EngineActionView::Write { path, hash, data };
    if s.conflicts(path, hash, current) {
        seq![EngineActionView::SaveConflict { path }, write]
    } else {
        seq![write]
    }
}

/// Whether the file announced in a message has to be pulled.
pub open spec fn pull_wanted(s: EngineView, path: Seq<char>, hash: u64, size: u64) -> bool {
    &&& !(s.states.contains_key(path) && s.states[path].hash == hash)
    &&& !sent_inline(size)
    &&& !s.in_flight.contains(path)
}

/// What the local side does about a message. `current` is the hash of the file at the path of the
/// message, where there is one.
pub open spec fn remote_actions(
    s: EngineView,
    msg: MessageView,
    probe: Probe,
    current: Option<u64>,
) -> Seq<EngineActionView> {
    if msg is Ping {
        seq![EngineActionView::Send(MessageView::Pong)]
    } else if !s.ongoing_direction.pulls() {
        Seq::empty()
    } else {
        match msg {
            MessageView::FileContent { path, hash, data } => inline_actions(
                s,
                path,
                hash,
                data,
                current,
            ),
            MessageView::FileChanged { path, hash, mtime, size } => if pull_wanted(
                s,
                path,
                hash,
                size,
            ) {
                if s.conflicts(path, hash, current) {
                    seq![
                        EngineActionView::SaveConflict { path },
                        EngineActionView::StartPull { path },
                    ]
                } else {
                    seq![EngineActionView::StartPull { path }]
                }
            } else {
                Seq::empty()
            },
            MessageView::FileDeleted { path } => if probe.exists {
                seq![EngineActionView::RemoveFile { path }]
            } else {
                Seq::empty()
            },
            MessageView::DirCreated { path } => seq![EngineActionView::CreateDir { path }],
            MessageView::DirDeleted { path } => if probe.is_dir {
                seq![EngineActionView::RemoveDir { path }]
            } else {
                Seq::empty()
            },
            MessageView::ConflictDetected { path, local_hash, remote_hash } => seq![
                EngineActionView::AlertConflict { path },
            ],
            _ => Seq::empty(),
        }
    }
}

/// What the local side remembers after a message.
pub open spec fn after_remote(
    s: EngineView,
    msg: MessageView,
    probe: Probe,
    now: u64,
) -> EngineView {
    if msg is Ping || !s.ongoing_direction.pulls() {
        s
    } else {
        match msg {
            MessageView::FileChanged { path, hash, mtime, size } => if pull_wanted(
                s,
                path,
                hash,
                size,
            ) {
                s.launching(path)
            } else {
                s
            },
            MessageView::FileDeleted { path } => if probe.exists {
                s.hushed(path, now).forgetting(path)
            } else {
                s
            },
            MessageView::DirDeleted { path } => if probe.is_dir {
                s.hushed(path, now).forgetting_all(path)
            } else {
                s
            },
            _ => s,
        }
    }
}

/// Whether the local side keeps silent about an event.
pub open spec fn passes_over(s: EngineView, event: WatchView) -> bool {
    !s.ongoing_direction.pushes() || match event {
        WatchView::Modified(path) => filtered(s.rules, s.local_dir, path, false)
            || s.quiet.contains_key(relative(s.local_dir, path)),
        WatchView::Deleted(path) => filtered(s.rules, s.local_dir, path, false)
            || s.quiet.contains_key(relative(s.local_dir, path)),
        WatchView::DirCreated(path) => filtered(s.rules, s.local_dir, path, true),
        WatchView::DirDeleted(path) => filtered(s.rules, s.local_dir, path, true)
            || s.quiet.contains_key(relative(s.local_dir, path)),
    }
}

/// What the local side does about an event.
pub open spec fn local_actions(s: EngineView, event: WatchView) -> Seq<EngineActionView> {
    if passes_over(s, event) {
        Seq::empty()
    } else {
        seq![
            match event {
                WatchView::Modified(path) => EngineActionView::Inspect {
                    path: relative(s.local_dir, path),
                },
                WatchView::Deleted(path) => EngineActionView::Send(
                    MessageView::FileDeleted { path: relative(s.local_dir, path) },
                ),
                WatchView::DirCreated(path) => EngineActionView::Send(
                    MessageView::DirCreated { path: relative(s.local_dir, path) },
                ),
                WatchView::DirDeleted(path) => EngineActionView::Send(
                    MessageView::DirDeleted { path: relative(s.local_dir, path) },
                ),
            },
        ]
    }
}

/// What the local side remembers after an event.
pub open spec fn after_local(s: EngineView, event: WatchView) -> EngineView {
    if passes_over(s, event) {
        s
    } else {
        match event {
            WatchView::Deleted(path) => s.forgetting(relative(s.local_dir, path)),
            WatchView::DirDeleted(path) => s.forgetting_all(relative(s.local_dir, path)),
            _ => s,
        }
    }
}

/// What the local side does about a file in which it found `found`.
pub open spec fn inspection_actions(
    s: EngineView,
    path: Seq<char>,
    found: FileState,
) -> Seq<EngineActionView> {
    if unchanged(s.states, path, found) {
        Seq::empty()
    } else if sent_inline(found.size) {
        seq![EngineActionView::SendContent { path, hash: found.hash }]
    } else if s.in_flight.contains(path) {
        Seq::empty()
    } else {
        seq![
            EngineActionView::Send(
                MessageView::FileChanged {
                    path,
                    hash: found.hash,
                    mtime: found.mtime,
                    size: found.size,
                },
            ),
            EngineActionView::StartPush { path },
        ]
    }
}

/// What the local side remembers after it looked at a file.
pub open spec fn after_inspection(s: EngineView, path: Seq<char>, found: FileState) -> EngineView {
    if unchanged(s.states, path, found) {
        s
    } else if sent_inline(found.size) {
        s.knowing(path, found)
    } else {
        s.knowing(path, found).launching(path)
    }
}

/// What the local side does about the end of a transfer.
pub open spec fn result_actions(s: EngineView, result: TransferView) -> Seq<EngineActionView> {
    if !result.success {
        seq![EngineActionView::AlertFailure { path: result.path, error: result.error }]
    } else {
        match result.direction {
            Direction::Push => if s.states.contains_key(result.path) {
                seq![
                    EngineActionView::Send(
                        MessageView::FileReady {
                            path: result.path,
                            hash: s.states[result.path].hash,
                            size: s.states[result.path].size,
                        },
                    ),
                ]
            } else {
                Seq::empty()
            },
            Direction::Pull => seq![EngineActionView::Examine { path: result.path }],
        }
    }
}

/// What the local side does about a pulled file in which it found `found`.
pub open spec fn pulled_actions(path: Seq<char>, found: Option<FileState>) -> Seq<EngineActionView> {
    match found {
        Some(state) => seq![
            EngineActionView::Send(MessageView::FileReceived { path, hash: state.hash }),
        ],
        None => Seq::empty(),
    }
}

/// What the local side remembers after it looked at a pulled file.
pub open spec fn after_pulled(
    s: EngineView,
    path: Seq<char>,
    found: Option<FileState>,
    now: u64,
) -> EngineView {
    match found {
        Some(state) => s.knowing(path, state).hushed(path, now),
        None => s,
    }
}

/// Where the copy of the file at `path` is kept in a conflict: beside it, under a longer name.
pub fn conflict_path(path: &str) -> (copy: String)
    ensures
        copy@ == path@ + ".local.conflict"@,
{
    concat(path, ".local.conflict")
}

/// One thing that happens in the main loop.
pub enum Event {
    /// A message came, or none will come any more. `probe` and `current` tell what is on disk at
    /// the path of the message.
    Remote { msg: Option<Message>, probe: Probe, current: Option<u64> },
    /// Something happened to a local path.
    Local { event: WatchEvent },
    /// A transfer ended.
    Transfer { result: TransferResult },
    /// It is time to ping the beam.
    Tick,
    /// The time that `alarm` told has passed.
    Alarm,
}

/// What an [`Event`] says.
#[verifier::ext_equal]
pub enum LoopEventView {
    Remote { msg: Option<MessageView>, probe: Probe, current: Option<u64> },
    Local { event: WatchView },
    Transfer { result: TransferView },
    Tick,
    Alarm,
}

impl View for Event {
    type V = LoopEventView;

    open spec fn view(&self) -> LoopEventView {
        match *self {
            Event::Remote { msg, probe, current } => LoopEventView::Remote {
                msg: opt_view(msg),
                probe,
                current,
            },
            Event::Local { event } => LoopEventView::Local { event: event@ },
            Event::Transfer { result } => LoopEventView::Transfer { result: result@ },
            Event::Tick => LoopEventView::Tick,
            Event::Alarm => LoopEventView::Alarm,
        }
    }
}

/// What the local side does about something that happens in the main loop.
pub open spec fn loop_actions(s: EngineView, event: LoopEventView, now: u64) -> Seq<
    EngineActionView,
> {
    match event {
        LoopEventView::Remote { msg: Some(msg), probe, current } => if msg is Pong {
            Seq::empty()
        } else {
            remote_actions(s, msg, probe, current)
        },
        LoopEventView::Remote { msg: None, probe, current } => seq![EngineActionView::Stop],
        LoopEventView::Local { event } => local_actions(s, event),
        LoopEventView::Transfer { result } => result_actions(s, result),
        LoopEventView::Tick => if s.overdue(now) {
            seq![EngineActionView::Send(MessageView::Ping), EngineActionView::AlertSilence]
        } else {
            seq![EngineActionView::Send(MessageView::Ping)]
        },
        LoopEventView::Alarm => if s.overdue(now) && !s.alerted {
            seq![EngineActionView::AlertSilence]
        } else {
            Seq::empty()
        },
    }
}

/// What the local side remembers after something that happened in the main loop.
pub open spec fn after_loop(s: EngineView, event: LoopEventView, now: u64) -> EngineView {
    match event {
        LoopEventView::Remote { msg: Some(msg), probe, current } => if msg is Pong {
            EngineView { last_pong: now, alerted: false, ..s }
        } else {
            after_remote(s, msg, probe, now)
        },
        LoopEventView::Remote { msg: None, probe, current } => s,
        LoopEventView::Local { event } => after_local(s, event),
        LoopEventView::Transfer { result } => s.landing(result.path),
        LoopEventView::Tick | LoopEventView::Alarm => EngineView {
            alerted: s.alerted || s.overdue(now),
            ..s
        },
    }
}

/// The local side of a session.
pub struct SyncEngine {
    beam_id: String,
    local_dir: String,
    remote_dir: String,
    ignore_rules: IgnoreRules,
    file_states: PathMap<FileState>,
    suppress_set: PathMap<u64>,
    in_flight: StringHashSet,
    chunk_size: usize,
    initial_direction: SyncDirection,
    ongoing_direction: SyncDirection,
    last_pong: u64,
    alerted: bool,
}

impl View for SyncEngine {
    type V = EngineView;

    closed spec fn view(&self) -> EngineView {
        EngineView {
            beam_id: self.beam_id@,
            local_dir: self.local_dir@,
            remote_dir: self.remote_dir@,
            rules: self.ignore_rules@,
            states: self.file_states@,
            quiet: self.suppress_set@,
            in_flight: self.in_flight@,
            chunk_size: self.chunk_size,
            initial_direction: self.initial_direction,
            ongoing_direction: self.ongoing_direction,
            last_pong: self.last_pong,
            alerted: self.alerted,
        }
    }
}

fn one(action: EngineAction) -> (actions: Vec<EngineAction>)
    ensures
        views(actions@) == seq![action@],
{
    let mut actions: Vec<EngineAction> = Vec::new();
    actions.push(action);
    assert(views(actions@) =~= seq![action@]);
    actions
}

fn none() -> (actions: Vec<EngineAction>)
    ensures
        views(actions@) == Seq::<EngineActionView>::empty(),
{
    let actions: Vec<EngineAction> = Vec::new();
    assert(views(actions@) =~= Seq::<EngineActionView>::empty());
    actions
}

fn two(first: EngineAction, second: EngineAction) -> (actions: Vec<EngineAction>)
    ensures
        views(actions@) == seq![first@, second@],
{
    let mut actions: Vec<EngineAction> = Vec::new();
    actions.push(first);
    actions.push(second);
    assert(views(actions@) =~= seq![first@, second@]);
    actions
}

impl SyncEngine {
    /// Whether the tables are in order.
    pub closed spec fn wf(&self) -> bool {
        self.file_states.wf() && self.suppress_set.wf()
    }

    /// The local side of a session that has not begun yet.
    pub fn new(
        beam_id: String,
        local_dir: String,
        remote_dir: String,
        ignore_rules: IgnoreRules,
        chunk_size: usize,
        initial_direction: SyncDirection,
        ongoing_direction: SyncDirection,
    ) -> (engine: SyncEngine)
        ensures
            engine.wf(),
            engine@ == (EngineView {
                beam_id: beam_id@,
                local_dir: local_dir@,
                remote_dir: remote_dir@,
                rules: ignore_rules@,
                states: Map::empty(),
                quiet: Map::empty(),
                in_flight: Set::empty(),
                chunk_size,
                initial_direction,
                ongoing_direction,
                last_pong: 0,
                alerted: false,
            }),
    {
        SyncEngine {
            beam_id,
            local_dir,
            remote_dir,
            ignore_rules,
            file_states: PathMap::new(),
            suppress_set: PathMap::new(),
            in_flight: StringHashSet::new(),
            chunk_size,
            initial_direction,
            ongoing_direction,
            last_pong: 0,
            alerted: false,
        }
    }

    /// The message that opens the session.
    pub fn hello(&self, session_id: String) -> (msg: Message)
        ensures
            msg@ == (MessageView::Hello {
                version: PROTOCOL_VERSION,
                session_id: session_id@,
                initial_direction: self@.initial_direction,
                ongoing_direction: self@.ongoing_direction,
            }),
    {
        Message::Hello {
            version: PROTOCOL_VERSION,
            session_id,
            initial_direction: self.initial_direction,
            ongoing_direction: self.ongoing_direction,
        }
    }

    /// Takes the agent's answer to the message that opened the session.
    pub fn accept_ack(answer: Option<Message>) -> (r: Result<(), HandshakeError>)
        ensures
            match opt_view(answer) {
                Some(MessageView::HelloAck { version }) => if version == PROTOCOL_VERSION {
                    r is Ok
                } else {
                    r == Err::<(), HandshakeError>(HandshakeError::VersionMismatch { version })
                },
                _ => r == Err::<(), HandshakeError>(HandshakeError::Unexpected { got: answer }),
            },
    {
        match answer {
            Some(Message::HelloAck { version }) => {
                if version != PROTOCOL_VERSION {
                    return Err(HandshakeError::VersionMismatch { version });
                }
                Ok(())
            },
            got => Err(HandshakeError::Unexpected { got }),
        }
    }

    /// The manifest of the local tree, whose files are remembered.
    pub fn build_local_manifest(&mut self, nodes: &Vec<FsNode>) -> (entries: Vec<ManifestEntry>)
        requires
            old(self).wf(),
        ensures
            final(self).wf(),
            views(entries@) == listing(
                old(self)@.rules,
                old(self)@.local_dir,
                old(self)@.local_dir,
                nodes@,
            ),
            final(self)@ == (EngineView {
                states: recorded(old(self)@.states, views(entries@)),
                ..old(self)@
            }),
    {
        let entries = build_manifest(self.local_dir.as_str(), nodes, &self.ignore_rules);
        record_files(&mut self.file_states, &entries);
        entries
    }

    /// Begins the main loop.
    pub fn begin_loop(&mut self, now: u64)
        requires
            old(self).wf(),
        ensures
            final(self).wf(),
            final(self)@ == (EngineView { last_pong: now, alerted: false, ..old(self)@ }),
    {
        self.last_pong = now;
        self.alerted = false;
    }

    /// Whether the beam has been silent for as long as it may be.
    fn is_overdue(&self, now: u64) -> (r: bool)
        ensures
            r == self@.overdue(now),
    {
        elapsed_nanos(self.last_pong, now) >= PING_TIMEOUT_NANOS
    }

    /// How long to wait for the alarm, after which the user is to be told that the beam does not
    /// answer; `None` where that was done.
    pub fn alarm(&self, now: u64) -> (wait: Option<u64>)
        ensures
            wait == self@.alarm(now),
    {
        if self.alerted {
            None
        } else if self.is_overdue(now) {
            Some(0)
        } else {
            Some(PING_TIMEOUT_NANOS - elapsed_nanos(self.last_pong, now))
        }
    }

    /// Whether replacing the contents `current` of `path` would lose a local change.
    fn has_conflict(&self, path: &str, incoming: u64, current: Option<u64>) -> (r: bool)
        ensures
            r == self@.conflicts(path@, incoming, current),
    {
        match (self.file_states.get(path), current) {
            (Some(state), Some(present)) => present != state.hash && present != incoming,
            _ => false,
        }
    }

    /// What to do about a file that came inline, where the file on disk has the hash `current`.
    pub fn receive_inline(&self, path: String, hash: u64, data: Vec<u8>, current: Option<u64>) -> (
    actions: Vec<EngineAction>)
        ensures
            views(actions@) == inline_actions(self@, path@, hash, data@, current),
    {
        if self.has_conflict(path.as_str(), hash, current) {
            let kept = path.clone();
            two(EngineAction::SaveConflict { path: kept }, EngineAction::Write { path, hash, data })
        } else {
            one(EngineAction::Write { path, hash, data })
        }
    }

    /// Notes that the contents of `path` were replaced by `size` bytes with this hash.
    pub fn written(&mut self, path: &String, hash: u64, size: u64, mtime: u64, now: u64)
        requires
            old(self).wf(),
        ensures
            final(self).wf(),
            final(self)@ == old(self)@.hushed(path@, now).knowing(
                path@,
                FileState { hash, mtime, size },
            ),
    {
        self.suppress_set.insert(path, now);
        self.file_states.insert(path, FileState { hash, mtime, size });
    }

    /// Takes a message of the agent, and says what to do about it.
    pub fn handle_remote_message(
        &mut self,
        msg: Message,
        probe: Probe,
        current: Option<u64>,
        now: u64,
    ) -> (actions: Vec<EngineAction>)
        requires
            old(self).wf(),
        ensures
            final(self).wf(),
            final(self)@ == after_remote(old(self)@, msg@, probe, now),
            views(actions@) == remote_actions(old(self)@, msg@, probe, current),
    {
        match &msg {
            Message::Ping => {
                return one(EngineAction::Send(Message::Pong));
            },
            _ => {
                if !self.ongoing_direction.should_pull() {
                    return none();
                }
            },
        }
        match msg {
            Message::FileContent { path, hash, data } => self.receive_inline(
                path,
                hash,
                data,
                current,
            ),
            Message::FileChanged { path, hash, mtime, size } => {
                let needs_content = match self.file_states.get(path.as_str()) {
                    Some(state) => state.hash != hash,
                    None => true,
                };
                if needs_content && !is_inline(size) && !self.in_flight.contains(path.as_str()) {
                    let conflict = self.has_conflict(path.as_str(), hash, current);
                    self.in_flight.insert(path.clone());
                    if conflict {
                        let kept = path.clone();
                        two(
                            EngineAction::SaveConflict { path: kept },
                            EngineAction::StartPull { path },
                        )
                    } else {
                        one(EngineAction::StartPull { path })
                    }
                } else {
                    none()
                }
            },
            Message::FileDeleted { path } => {
                if !probe.exists {
                    return none();
                }
                self.suppress_set.insert(&path, now);
                self.file_states.remove(path.as_str());
                one(EngineAction::RemoveFile { path })
            },
            Message::DirCreated { path } => one(EngineAction::CreateDir { path }),
            Message::DirDeleted { path } => {
                if !probe.is_dir {
                    return none();
                }
                self.suppress_set.insert(&path, now);
                self.file_states.drop_prefix(path.as_str());
                one(EngineAction::RemoveDir { path })
            },
            Message::ConflictDetected { path, local_hash, remote_hash } => one(
                EngineAction::AlertConflict { path },
            ),
            _ => none(),
        }
    }

    /// Takes an event of the local tree, and says what to do about it.
    pub fn handle_local_event(&mut self, event: WatchEvent) -> (actions: Vec<EngineAction>)
        requires
            old(self).wf(),
        ensures
            final(self).wf(),
            final(self)@ == after_local(old(self)@, event@),
            views(actions@) == local_actions(old(self)@, event@),
    {
        if !self.ongoing_direction.should_push() {
            return none();
        }
        match event {
            WatchEvent::Modified(path) => {
                let name = relative_path(self.local_dir.as_str(), path.as_str());
                if self.ignore_rules.filter_path(self.local_dir.as_str(), path.as_str(), false) {
                    return none();
                }
                if self.suppress_set.contains(name.as_str()) {
                    return none();
                }
                one(EngineAction::Inspect { path: name })
            },
            WatchEvent::Deleted(path) => {
                let name = relative_path(self.local_dir.as_str(), path.as_str());
                if self.ignore_rules.filter_path(self.local_dir.as_str(), path.as_str(), false) {
                    return none();
                }
                if self.suppress_set.contains(name.as_str()) {
                    return none();
                }
                self.file_states.remove(name.as_str());
                one(EngineAction::Send(Message::FileDeleted { path: name }))
            },
            WatchEvent::DirCreated(path) => {
                let name = relative_path(self.local_dir.as_str(), path.as_str());
                if self.ignore_rules.filter_path(self.local_dir.as_str(), path.as_str(), true) {
                    return none();
                }
                one(EngineAction::Send(Message::DirCreated { path: name }))
            },
            WatchEvent::DirDeleted(path) => {
                let name = relative_path(self.local_dir.as_str(), path.as_str());
                if self.ignore_rules.filter_path(self.local_dir.as_str(), path.as_str(), true) {
                    return none();
                }
                if self.suppress_set.contains(name.as_str()) {
                    return none();
                }
                self.file_states.drop_prefix(name.as_str());
                one(EngineAction::Send(Message::DirDeleted { path: name }))
            },
        }
    }

    /// Takes what was found in a file that changed, and says what to do about it.
    pub fn inspected(&mut self, path: String, found: FileState) -> (actions: Vec<EngineAction>)
        requires
            old(self).wf(),
        ensures
            final(self).wf(),
            final(self)@ == after_inspection(old(self)@, path@, found),
            views(actions@) == inspection_actions(old(self)@, path@, found),
    {
        match self.file_states.get(path.as_str()) {
            Some(state) => {
                if state.hash == found.hash {
                    return none();
                }
            },
            None => {},
        }
        self.file_states.insert(&path, found);
        if is_inline(found.size) {
            return one(EngineAction::SendContent { path, hash: found.hash });
        }
        if self.in_flight.contains(path.as_str()) {
            assert(self@.in_flight.insert(path@) =~= self@.in_flight);
            return none();
        }
        self.in_flight.insert(path.clone());
        let name = path.clone();
        two(
            EngineAction::Send(
                Message::FileChanged {
                    path: name,
                    hash: found.hash,
                    mtime: found.mtime,
                    size: found.size,
                },
            ),
            EngineAction::StartPush { path },
        )
    }

    /// Takes the end of a transfer, and says what to do about it.
    pub fn handle_transfer_result(&mut self, result: TransferResult) -> (actions: Vec<EngineAction>)
        requires
            old(self).wf(),
        ensures
            final(self).wf(),
            final(self)@ == old(self)@.landing(result@.path),
            views(actions@) == result_actions(old(self)@, result@),
    {
        self.in_flight.remove(result.path.as_str());
        if !result.success {
            return one(EngineAction::AlertFailure { path: result.path, error: result.error });
        }
        match result.direction {
            Direction::Push => match self.file_states.get(result.path.as_str()) {
                Some(state) => one(
                    EngineAction::Send(
                        Message::FileReady {
                            path: result.path,
                            hash: state.hash,
                            size: state.size,
                        },
                    ),
                ),
                None => none(),
            },
            Direction::Pull => one(EngineAction::Examine { path: result.path }),
        }
    }

    /// Notes what was found in a pulled file, where it is there.
    pub fn note_pulled(&mut self, path: &String, found: Option<FileState>, now: u64)
        requires
            old(self).wf(),
        ensures
            final(self).wf(),
            final(self)@ == after_pulled(old(self)@, path@, found, now),
    {
        match found {
            Some(state) => {
                self.file_states.insert(path, state);
                self.suppress_set.insert(path, now);
            },
            None => {},
        }
    }

    /// Takes what was found in a pulled file, where it is there, and says what to do about it.
    pub fn pulled(&mut self, path: String, found: Option<FileState>, now: u64) -> (actions: Vec<
        EngineAction,
    >)
        requires
            old(self).wf(),
        ensures
            final(self).wf(),
            final(self)@ == after_pulled(old(self)@, path@, found, now),
            views(actions@) == pulled_actions(path@, found),
    {
        self.note_pulled(&path, found, now);
        match found {
            Some(state) => one(
                EngineAction::Send(Message::FileReceived { path, hash: state.hash }),
            ),
            None => none(),
        }
    }

    /// Ends the silence about the paths that have been quiet long enough. The main loop does so
    /// before it waits for the next thing to happen.
    pub fn expire(&mut self, now: u64)
        requires
            old(self).wf(),
        ensures
            final(self).wf(),
            final(self)@ == old(self)@.refreshed(now),
    {
        self.suppress_set.expire(now);
    }

    /// Takes one thing that happens in the main loop, and says what to do about it.
    pub fn step(&mut self, event: Event, now: u64) -> (actions: Vec<EngineAction>)
        requires
            old(self).wf(),
        ensures
            final(self).wf(),
            final(self)@ == after_loop(old(self)@, event@, now),
            views(actions@) == loop_actions(old(self)@, event@, now),
    {
        match event {
            Event::Remote { msg: Some(msg), probe, current } => match msg {
                Message::Pong => {
                    self.last_pong = now;
                    self.alerted = false;
                    none()
                },
                msg => self.handle_remote_message(msg, probe, current, now),
            },
            Event::Remote { msg: None, probe, current } => one(EngineAction::Stop),
            Event::Local { event } => self.handle_local_event(event),
            Event::Transfer { result } => self.handle_transfer_result(result),
            Event::Tick => {
                if self.is_overdue(now) {
                    self.alerted = true;
                    two(EngineAction::Send(Message::Ping), EngineAction::AlertSilence)
                } else {
                    one(EngineAction::Send(Message::Ping))
                }
            },
            Event::Alarm => {
                if self.is_overdue(now) && !self.alerted {
                    self.alerted = true;
                    one(EngineAction::AlertSilence)
                } else {
                    none()
                }
            },
        }
    }
}

// ---------------------------------------------------------------------------------------------
// What holds of every session
// ---------------------------------------------------------------------------------------------

/// The full path that an event of the local tree is about.
pub open spec fn event_path(event: WatchView) -> Seq<char> {
    match event {
        WatchView::Modified(path) => path,
        WatchView::Deleted(path) => path,
        WatchView::DirCreated(path) => path,
        WatchView::DirDeleted(path) => path,
    }
}

/// The local side does not report its own writes: while the silence about a path lasts, nothing is
/// sent about it but that a directory was created, and nothing remembered changes. A silence that
/// began less than `SUPPRESS_NANOS` ago lasts.
pub proof fn lemma_engine_silence(s: EngineView, event: WatchView, now: u64)
    requires
        s.quiet.contains_key(relative(s.local_dir, event_path(event))),
        !(event is DirCreated),
    ensures
        local_actions(s, event) == Seq::<EngineActionView>::empty(),
        after_local(s, event) == s,
        elapsed(s.quiet[relative(s.local_dir, event_path(event))], now) < SUPPRESS_NANOS
            ==> s.refreshed(now).quiet.contains_key(relative(s.local_dir, event_path(event))),
{
}

/// A file that holds what the local side wrote, or already reported, is not reported (again).
pub proof fn lemma_engine_unchanged_is_silent(
    s: EngineView,
    path: Seq<char>,
    known: FileState,
    found: FileState,
)
    requires
        known.hash == found.hash,
    ensures
        inspection_actions(s.knowing(path, known), path, found) == Seq::<EngineActionView>::empty(),
        after_inspection(s.knowing(path, known), path, found) == s.knowing(path, known),
{
}

/// Where files only come from the beam, local events lead to nothing.
pub proof fn lemma_engine_pull_only(s: EngineView, event: WatchView)
    requires
        s.ongoing_direction is BeamToLocal,
    ensures
        local_actions(s, event) == Seq::<EngineActionView>::empty(),
        after_local(s, event) == s,
{
}

/// Where files only go to the beam, no message but a ping leads to anything.
pub proof fn lemma_engine_push_only(
    s: EngineView,
    msg: MessageView,
    probe: Probe,
    current: Option<u64>,
    now: u64,
)
    requires
        s.ongoing_direction is LocalToBeam,
        !(msg is Ping),
    ensures
        remote_actions(s, msg, probe, current) == Seq::<EngineActionView>::empty(),
        after_remote(s, msg, probe, now) == s,
{
}

/// What the rules ignore is not sent, neither when it appears or changes nor when it goes, and
/// nothing remembered changes.
pub proof fn lemma_engine_respects_rules(s: EngineView, event: WatchView)
    requires
        filtered(s.rules, s.local_dir, event_path(event), event is DirCreated || event is DirDeleted),
    ensures
        local_actions(s, event) == Seq::<EngineActionView>::empty(),
        after_local(s, event) == s,
{
}

/// Whether the actions begin a transfer of `path`.
pub open spec fn begins_transfer(actions: Seq<EngineActionView>, path: Seq<char>) -> bool {
    actions.contains(EngineActionView::StartPush { path }) || actions.contains(
        EngineActionView::StartPull { path },
    )
}

/// No file is transferred twice at a time: a transfer begins only where none is under way, it is
/// under way from then on, and it stays so until its result comes.
pub proof fn lemma_one_transfer_per_file(
    s: EngineView,
    path: Seq<char>,
    event: LoopEventView,
    name: Seq<char>,
    found: FileState,
    now: u64,
)
    ensures
        begins_transfer(loop_actions(s, event, now), path) ==> !s.in_flight.contains(path)
            && after_loop(s, event, now).in_flight.contains(path),
        begins_transfer(inspection_actions(s, name, found), path) ==> !s.in_flight.contains(path)
            && after_inspection(s, name, found).in_flight.contains(path),
        s.in_flight.contains(path) && !(event is Transfer && event->result.path == path)
            ==> after_loop(s, event, now).in_flight.contains(path),
        s.in_flight.contains(path) ==> after_inspection(s, name, found).in_flight.contains(path),
        event is Transfer ==> !after_loop(s, event, now).in_flight.contains(event->result.path),
{
    let actions = loop_actions(s, event, now);
    if begins_transfer(actions, path) {
        let k = if actions.contains(EngineActionView::StartPush { path }) {
            actions.index_of(EngineActionView::StartPush { path })
        } else {
            actions.index_of(EngineActionView::StartPull { path })
        };
        assert(actions[k] is StartPush || actions[k] is StartPull);
    }
    let looked = inspection_actions(s, name, found);
    if begins_transfer(looked, path) {
        let k = if looked.contains(EngineActionView::StartPush { path }) {
            looked.index_of(EngineActionView::StartPush { path })
        } else {
            looked.index_of(EngineActionView::StartPull { path })
        };
        assert(looked[k] is StartPush || looked[k] is StartPull);
    }
}

/// A local change is never overwritten without a copy: where a known file holds neither what is
/// remembered of it nor what comes, a copy is kept before the file is replaced, whether its new
/// contents came inline or are to be pulled.
pub proof fn lemma_conflict_is_kept(
    s: EngineView,
    path: Seq<char>,
    hash: u64,
    data: Seq<u8>,
    mtime: u64,
    size: u64,
    probe: Probe,
    present: u64,
)
    requires
        s.states.contains_key(path),
        present != s.states[path].hash,
        present != hash,
    ensures
        inline_actions(s, path, hash, data, Some(present)) == seq![
            EngineActionView::SaveConflict { path },
            EngineActionView::Write { path, hash, data },
        ],
        ({
            let actions = remote_actions(
                s,
                MessageView::FileChanged { path, hash, mtime, size },
                probe,
                Some(present),
            );
            actions.len() > 0 ==> actions == seq![
                EngineActionView::SaveConflict { path },
                EngineActionView::StartPull { path },
            ]
        }),
{
}

/// Contents that came inline are written in any case, and last.
pub proof fn lemma_inline_is_written(
    s: EngineView,
    path: Seq<char>,
    hash: u64,
    data: Seq<u8>,
    current: Option<u64>,
)
    ensures
        inline_actions(s, path, hash, data, current).last() == (EngineActionView::Write {
            path,
            hash,
            data,
        }),
{
}

/// A beam that answers a ping is not called silent before `PING_TIMEOUT_NANOS` have passed from
/// then on, and the alarm is set for the end of that time: whoever waits for it learns of the
/// silence exactly then.
pub proof fn lemma_heartbeat(
    s: EngineView,
    probe: Probe,
    current: Option<u64>,
    answered: u64,
    now: u64,
)
    requires
        answered <= now,
    ensures
        ({
            let pong = LoopEventView::Remote { msg: Some(MessageView::Pong), probe, current };
            let after = after_loop(s, pong, answered);
            let ticked = loop_actions(after, LoopEventView::Tick, now);
            let rung = loop_actions(after, LoopEventView::Alarm, now);
            &&& ticked[0] == EngineActionView::Send(MessageView::Ping)
            &&& ticked.contains(EngineActionView::AlertSilence) <==> now - answered
                >= PING_TIMEOUT_NANOS
            &&& rung.contains(EngineActionView::AlertSilence) <==> now - answered
                >= PING_TIMEOUT_NANOS
            &&& after.alarm(now) is Some
            &&& now - answered <= PING_TIMEOUT_NANOS ==> now + after.alarm(now)->0 == answered
                + PING_TIMEOUT_NANOS
            &&& now - answered > PING_TIMEOUT_NANOS ==> after.alarm(now) == Some(0u64)
        }),
{
    let pong = LoopEventView::Remote { msg: Some(MessageView::Pong), probe, current };
    let after = after_loop(s, pong, answered);
    let ticked = loop_actions(after, LoopEventView::Tick, now);
    let rung = loop_actions(after, LoopEventView::Alarm, now);
    if now - answered >= PING_TIMEOUT_NANOS {
        assert(ticked[1] == EngineActionView::AlertSilence);
        assert(rung[0] == EngineActionView::AlertSilence);
    }
}

/// The alarm stays set until it has rung: whatever happens that is no answer of the beam, either the
/// user is told that the beam does not answer, or the alarm is set for the same time as before.
pub proof fn lemma_alarm_stays_set(s: EngineView, event: LoopEventView, now: u64, later: u64)
    requires
        !(event matches LoopEventView::Remote { msg: Some(msg), .. } && msg is Pong),
    ensures
        loop_actions(s, event, now).contains(EngineActionView::AlertSilence) || after_loop(
            s,
            event,
            now,
        ).alarm(later) == s.alarm(later),
{
    let actions = loop_actions(s, event, now);
    if event is Tick && s.overdue(now) {
        assert(actions[1] == EngineActionView::AlertSilence);
    }
    if event is Alarm && s.overdue(now) && !s.alerted {
        assert(actions[0] == EngineActionView::AlertSilence);
    }
}

/// A small local change reaches the beam and stops there: it is sent, the agent writes it, and
/// whatever the agent's watcher then says of the file, it reports nothing as long as the file holds
/// these contents.
pub proof fn lemma_local_change_settles(
    s: EngineView,
    a: AgentView,
    path: Seq<char>,
    found: FileState,
    data: Seq<u8>,
    probe: Probe,
    seen: FileState,
    mtime: u64,
    size: u64,
    now: u64,
)
    requires
        !unchanged(s.states, path, found),
        sent_inline(found.size),
        seen.hash == found.hash,
    ensures
        inspection_actions(s, path, found) == seq![
            EngineActionView::SendContent { path, hash: found.hash },
        ],
        message_action(
            MessageView::FileContent { path, hash: found.hash, data },
            probe,
        ) == Some(AgentActionView::Write { path, hash: found.hash, data }),
        ({
            let after = a.hushed(path, now).knowing(
                path,
                FileState { hash: found.hash, mtime, size },
            );
            &&& event_action(after, WatchView::Modified(path)) is None
            &&& inspection_action(after, path, seen) is None
        }),
{
}

/// A small change on the beam reaches the local side and stops there.
pub proof fn lemma_beam_change_settles(
    s: EngineView,
    a: AgentView,
    path: Seq<char>,
    found: FileState,
    data: Seq<u8>,
    probe: Probe,
    current: Option<u64>,
    seen: FileState,
    full_path: Seq<char>,
    mtime: u64,
    size: u64,
    now: u64,
)
    requires
        s.ongoing_direction.pulls(),
        !unchanged(a.states, path, found),
        sent_inline(found.size),
        seen.hash == found.hash,
        relative(s.local_dir, full_path) == path,
    ensures
        inspection_action(a, path, found) == Some(
            AgentActionView::SendContent { path, hash: found.hash },
        ),
        remote_actions(
            s,
            MessageView::FileContent { path, hash: found.hash, data },
            probe,
            current,
        ).last() == (EngineActionView::Write { path, hash: found.hash, data }),
        ({
            let after = s.hushed(path, now).knowing(
                path,
                FileState { hash: found.hash, mtime, size },
            );
            &&& local_actions(after, WatchView::Modified(full_path)).len() == 0
            &&& inspection_actions(after, path, seen).len() == 0
        }),
{
}

/// A large change on the beam is announced, and the local side pulls it where it does not have
/// these contents and no transfer of the file is under way.
pub proof fn lemma_large_beam_change_is_pulled(
    s: EngineView,
    a: AgentView,
    path: Seq<char>,
    found: FileState,
    probe: Probe,
    current: Option<u64>,
)
    requires
        s.ongoing_direction.pulls(),
        !unchanged(a.states, path, found),
        !unchanged(s.states, path, found),
        !sent_inline(found.size),
        !s.in_flight.contains(path),
    ensures
        ({
            let msg = MessageView::FileChanged {
                path,
                hash: found.hash,
                mtime: found.mtime,
                size: found.size,
            };
            &&& inspection_action(a, path, found) == Some(AgentActionView::Send(msg))
            &&& remote_actions(s, msg, probe, current).last() == (EngineActionView::StartPull {
                path,
            })
            &&& !s.conflicts(path, found.hash, current) ==> remote_actions(s, msg, probe, current)
                == seq![EngineActionView::StartPull { path }]
        }),
{
}

/// A local deletion reaches the beam and stops there: the agent is told, removes the file where it
/// has one, forgets it, and keeps silent about its own deletion.
pub proof fn lemma_local_deletion_settles(
    s: EngineView,
    a: AgentView,
    full_path: Seq<char>,
    probe: Probe,
    now: u64,
)
    requires
        s.ongoing_direction.pushes(),
        !filtered(s.rules, s.local_dir, full_path, false),
        !s.quiet.contains_key(relative(s.local_dir, full_path)),
        probe.exists,
    ensures
        ({
            let path = relative(s.local_dir, full_path);
            let msg = MessageView::FileDeleted { path };
            let after = after_message(a, msg, probe, now);
            &&& local_actions(s, WatchView::Deleted(full_path)) == seq![EngineActionView::Send(msg)]
            &&& !after_local(s, WatchView::Deleted(full_path)).states.contains_key(path)
            &&& message_action(msg, probe) == Some(AgentActionView::RemoveFile { path })
            &&& !after.states.contains_key(path)
            &&& event_action(after, WatchView::Deleted(path)) is None
        }),
{
}

/// A deletion on the beam reaches the local side and stops there.
pub proof fn lemma_beam_deletion_settles(
    s: EngineView,
    a: AgentView,
    full_path: Seq<char>,
    probe: Probe,
    current: Option<u64>,
    now: u64,
)
    requires
        a.ongoing_direction.pulls(),
        s.ongoing_direction.pulls(),
        !a.quiet.contains_key(relative(s.local_dir, full_path)),
        probe.exists,
    ensures
        ({
            let path = relative(s.local_dir, full_path);
            let msg = MessageView::FileDeleted { path };
            let after = after_remote(s, msg, probe, now);
            &&& event_action(a, WatchView::Deleted(path)) == Some(AgentActionView::Send(msg))
            &&& remote_actions(s, msg, probe, current) == seq![
                EngineActionView::RemoveFile { path },
            ]
            &&& !after.states.contains_key(path)
            &&& local_actions(after, WatchView::Deleted(full_path)).len() == 0
        }),
{
}

/// A directory that is deleted locally is removed on the beam, and what was known of the files in it
/// is forgotten on both sides.
pub proof fn lemma_local_directory_deletion_settles(
    s: EngineView,
    a: AgentView,
    full_path: Seq<char>,
    inside: Seq<char>,
    probe: Probe,
    now: u64,
)
    requires
        s.ongoing_direction.pushes(),
        !filtered(s.rules, s.local_dir, full_path, true),
        !s.quiet.contains_key(relative(s.local_dir, full_path)),
        probe.is_dir,
        begins_with(inside, relative(s.local_dir, full_path)),
    ensures
        ({
            let path = relative(s.local_dir, full_path);
            let msg = MessageView::DirDeleted { path };
            let after = after_message(a, msg, probe, now);
            &&& local_actions(s, WatchView::DirDeleted(full_path)) == seq![
                EngineActionView::Send(msg),
            ]
            &&& !after_local(s, WatchView::DirDeleted(full_path)).states.contains_key(inside)
            &&& message_action(msg, probe) == Some(AgentActionView::RemoveDir { path })
            &&& !after.states.contains_key(inside)
            &&& event_action(after, WatchView::DirDeleted(path)) is None
        }),
{
}

/// A directory that is deleted on the beam is removed locally, and what was known of the files in it
/// is forgotten on both sides.
pub proof fn lemma_beam_directory_deletion_settles(
    s: EngineView,
    a: AgentView,
    full_path: Seq<char>,
    inside: Seq<char>,
    probe: Probe,
    current: Option<u64>,
    now: u64,
)
    requires
        a.ongoing_direction.pulls(),
        s.ongoing_direction.pulls(),
        !a.quiet.contains_key(relative(s.local_dir, full_path)),
        probe.is_dir,
        begins_with(inside, relative(s.local_dir, full_path)),
    ensures
        ({
            let path = relative(s.local_dir, full_path);
            let msg = MessageView::DirDeleted { path };
            let after = after_remote(s, msg, probe, now);
            &&& event_action(a, WatchView::DirDeleted(path)) == Some(AgentActionView::Send(msg))
            &&& !after_event(a, WatchView::DirDeleted(path)).states.contains_key(inside)
            &&& remote_actions(s, msg, probe, current) == seq![EngineActionView::RemoveDir { path }]
            &&& !after.states.contains_key(inside)
            &&& local_actions(after, WatchView::DirDeleted(full_path)).len() == 0
        }),
{
}

/// A large local change is announced and pushed; once it has arrived the agent is told, and it
/// keeps silent about the file from the announcement on.
pub proof fn lemma_large_local_change_is_pushed(
    s: EngineView,
    a: AgentView,
    path: Seq<char>,
    found: FileState,
    result: TransferView,
    probe: Probe,
    now: u64,
    later: u64,
)
    requires
        !unchanged(s.states, path, found),
        !sent_inline(found.size),
        !s.in_flight.contains(path),
        result.path == path,
        result.direction is Push,
        result.success,
    ensures
        ({
            let announced = MessageView::FileChanged {
                path,
                hash: found.hash,
                mtime: found.mtime,
                size: found.size,
            };
            let ready = MessageView::FileReady { path, hash: found.hash, size: found.size };
            let during = after_inspection(s, path, found);
            let expecting = after_message(a, announced, probe, now);
            &&& inspection_actions(s, path, found) == seq![
                EngineActionView::Send(announced),
                EngineActionView::StartPush { path },
            ]
            &&& result_actions(during, result) == seq![EngineActionView::Send(ready)]
            &&& event_action(expecting, WatchView::Modified(path)) is None
            &&& message_action(ready, probe) == Some(
                AgentActionView::Examine { path, size: found.size },
            )
            &&& event_action(
                after_message(expecting, ready, probe, later),
                WatchView::Modified(path),
            ) is None
        }),
{
}

/// A pulled file is not sent back: what was pulled is known, and the local side keeps silent about
/// it.
pub proof fn lemma_pulled_file_is_silent(
    s: EngineView,
    full_path: Seq<char>,
    state: FileState,
    seen: FileState,
    now: u64,
)
    requires
        seen.hash == state.hash,
    ensures
        ({
            let path = relative(s.local_dir, full_path);
            let after = after_pulled(s, path, Some(state), now);
            &&& local_actions(after, WatchView::Modified(full_path)).len() == 0
            &&& inspection_actions(after, path, seen).len() == 0
        }),
{
}

// ---------------------------------------------------------------------------------------------
// What comes of each thing that happens
// ---------------------------------------------------------------------------------------------

/// Every change that the user makes to a file is looked at, whatever is or is not remembered of the
/// file, unless the rules ignore it or the local side is silent about it.
pub proof fn lemma_local_change_is_looked_at(s: EngineView, full_path: Seq<char>)
    requires
        s.ongoing_direction != SyncDirection::BeamToLocal,
        !filtered(s.rules, s.local_dir, full_path, false),
        !s.quiet.contains_key(relative(s.local_dir, full_path)),
    ensures
        local_actions(s, WatchView::Modified(full_path)) == seq![
            EngineActionView::Inspect { path: relative(s.local_dir, full_path) },
        ],
        after_local(s, WatchView::Modified(full_path)) == s,
{
}

/// Every deletion of a file by the user is sent, whatever is or is not remembered of the file, and
/// the file is forgotten, and no other.
pub proof fn lemma_local_deletion_is_sent(s: EngineView, full_path: Seq<char>, other: Seq<char>)
    requires
        s.ongoing_direction != SyncDirection::BeamToLocal,
        !filtered(s.rules, s.local_dir, full_path, false),
        !s.quiet.contains_key(relative(s.local_dir, full_path)),
    ensures
        ({
            let path = relative(s.local_dir, full_path);
            let after = after_local(s, WatchView::Deleted(full_path));
            &&& local_actions(s, WatchView::Deleted(full_path)) == seq![
                EngineActionView::Send(MessageView::FileDeleted { path }),
            ]
            &&& after == (EngineView { states: after.states, ..s })
            &&& after.states.contains_key(other) <==> s.states.contains_key(other) && other != path
            &&& after.states.contains_key(other) ==> after.states[other] == s.states[other]
        }),
{
}

/// Every directory that the user makes is sent, also while the local side is silent about it.
pub proof fn lemma_local_directory_is_sent(s: EngineView, full_path: Seq<char>)
    requires
        s.ongoing_direction != SyncDirection::BeamToLocal,
        !filtered(s.rules, s.local_dir, full_path, true),
    ensures
        local_actions(s, WatchView::DirCreated(full_path)) == seq![
            EngineActionView::Send(
                MessageView::DirCreated { path: relative(s.local_dir, full_path) },
            ),
        ],
        after_local(s, WatchView::DirCreated(full_path)) == s,
{
}

/// Every directory that the user deletes is sent, and what was known of the paths that begin with
/// its text is forgotten, and nothing else.
pub proof fn lemma_local_directory_deletion_is_sent(
    s: EngineView,
    full_path: Seq<char>,
    other: Seq<char>,
)
    requires
        s.ongoing_direction != SyncDirection::BeamToLocal,
        !filtered(s.rules, s.local_dir, full_path, true),
        !s.quiet.contains_key(relative(s.local_dir, full_path)),
    ensures
        ({
            let path = relative(s.local_dir, full_path);
            let after = after_local(s, WatchView::DirDeleted(full_path));
            &&& local_actions(s, WatchView::DirDeleted(full_path)) == seq![
                EngineActionView::Send(MessageView::DirDeleted { path }),
            ]
            &&& after == (EngineView { states: after.states, ..s })
            &&& after.states.contains_key(other) <==> s.states.contains_key(other) && !(path.len()
                <= other.len() && other.take(path.len() as int) == path)
            &&& after.states.contains_key(other) ==> after.states[other] == s.states[other]
        }),
{
}

/// A file that was looked at and does not hold what is remembered of it goes to the beam and is
/// remembered as it is now: below 64 KiB its contents are sent, and from there on it is announced and
/// pushed, unless a transfer of it is under way. One that holds what is remembered stays where it is.
pub proof fn lemma_changed_file_is_sent(s: EngineView, path: Seq<char>, found: FileState)
    ensures
        ({
            let actions = inspection_actions(s, path, found);
            let after = after_inspection(s, path, found);
            let same = s.states.contains_key(path) && s.states[path].hash == found.hash;
            &&& same ==> actions.len() == 0 && after == s
            &&& !same ==> after.states == s.states.insert(path, found)
            &&& after == (EngineView { states: after.states, in_flight: after.in_flight, ..s })
            &&& !same && found.size < 65_536 ==> actions == seq![
                EngineActionView::SendContent { path, hash: found.hash },
            ] && after.in_flight == s.in_flight
            &&& !same && found.size >= 65_536 && !s.in_flight.contains(path) ==> actions == seq![
                EngineActionView::Send(
                    MessageView::FileChanged {
                        path,
                        hash: found.hash,
                        mtime: found.mtime,
                        size: found.size,
                    },
                ),
                EngineActionView::StartPush { path },
            ] && after.in_flight == s.in_flight.insert(path)
            &&& !same && found.size >= 65_536 && s.in_flight.contains(path) ==> actions.len() == 0
                && after.in_flight == s.in_flight
        }),
{
    if s.in_flight.contains(path) {
        assert(s.in_flight.insert(path) =~= s.in_flight);
    }
}

/// A file that the user makes reaches the beam: it is looked at, its contents are sent, or it is
/// announced and pushed, and the agent writes what was sent under the same path.
pub proof fn lemma_new_local_file_reaches_the_beam(
    s: EngineView,
    full_path: Seq<char>,
    found: FileState,
    data: Seq<u8>,
    probe: Probe,
)
    requires
        s.ongoing_direction != SyncDirection::BeamToLocal,
        !filtered(s.rules, s.local_dir, full_path, false),
        !s.quiet.contains_key(relative(s.local_dir, full_path)),
        !s.states.contains_key(relative(s.local_dir, full_path)),
        !s.in_flight.contains(relative(s.local_dir, full_path)),
    ensures
        ({
            let path = relative(s.local_dir, full_path);
            let event = WatchView::Modified(full_path);
            let actions = inspection_actions(after_local(s, event), path, found);
            &&& local_actions(s, event) == seq![EngineActionView::Inspect { path }]
            &&& found.size < 65_536 ==> actions == seq![
                EngineActionView::SendContent { path, hash: found.hash },
            ]
            &&& found.size >= 65_536 ==> actions.contains(EngineActionView::StartPush { path })
            &&& message_action(MessageView::FileContent { path, hash: found.hash, data }, probe)
                == Some(AgentActionView::Write { path, hash: found.hash, data })
        }),
{
    let path = relative(s.local_dir, full_path);
    let actions = inspection_actions(after_local(s, WatchView::Modified(full_path)), path, found);
    if found.size >= 65_536 {
        assert(actions[1] == (EngineActionView::StartPush { path }));
    }
}

/// Contents that come from the beam are written as they came, after a copy of the file where it is
/// known and holds neither what is remembered of it nor what comes; nothing else is done, and nothing
/// is remembered before they are written.
pub proof fn lemma_beam_contents_are_written(
    s: EngineView,
    path: Seq<char>,
    hash: u64,
    data: Seq<u8>,
    probe: Probe,
    current: Option<u64>,
    now: u64,
)
    requires
        s.ongoing_direction != SyncDirection::LocalToBeam,
    ensures
        ({
            let msg = MessageView::FileContent { path, hash, data };
            let write = EngineActionView::Write { path, hash, data };
            let conflict = s.states.contains_key(path) && current is Some && current->0
                != s.states[path].hash && current->0 != hash;
            &&& conflict ==> remote_actions(s, msg, probe, current) == seq![
                EngineActionView::SaveConflict { path },
                write,
            ]
            &&& !conflict ==> remote_actions(s, msg, probe, current) == seq![write]
            &&& remote_actions(s, msg, probe, current) == inline_actions(
                s,
                path,
                hash,
                data,
                current,
            )
            &&& after_remote(s, msg, probe, now) == s
        }),
{
}

/// A large file that changed on the beam is pulled, unless it is known with these contents or a
/// transfer of it is under way; a small one is not, since its contents come by themselves.
pub proof fn lemma_beam_change_is_pulled(
    s: EngineView,
    path: Seq<char>,
    hash: u64,
    mtime: u64,
    size: u64,
    probe: Probe,
    current: Option<u64>,
    now: u64,
)
    requires
        s.ongoing_direction != SyncDirection::LocalToBeam,
    ensures
        ({
            let msg = MessageView::FileChanged { path, hash, mtime, size };
            let actions = remote_actions(s, msg, probe, current);
            let after = after_remote(s, msg, probe, now);
            let same = s.states.contains_key(path) && s.states[path].hash == hash;
            let wanted = !same && size >= 65_536 && !s.in_flight.contains(path);
            let conflict = s.states.contains_key(path) && current is Some && current->0
                != s.states[path].hash && current->0 != hash;
            &&& !wanted ==> actions.len() == 0 && after == s
            &&& wanted && !conflict ==> actions == seq![EngineActionView::StartPull { path }]
            &&& wanted && conflict ==> actions == seq![
                EngineActionView::SaveConflict { path },
                EngineActionView::StartPull { path },
            ]
            &&& wanted ==> after == (EngineView { in_flight: s.in_flight.insert(path), ..s })
        }),
{
}

/// What is deleted or made on the beam is deleted or made here. What is deleted is forgotten, with
/// the paths that begin with its text where it is a directory, and the local side is silent about it;
/// where there is nothing to delete, nothing happens.
pub proof fn lemma_beam_deletions_and_directories(
    s: EngineView,
    path: Seq<char>,
    other: Seq<char>,
    probe: Probe,
    current: Option<u64>,
    now: u64,
)
    requires
        s.ongoing_direction != SyncDirection::LocalToBeam,
    ensures
        ({
            let msg = MessageView::FileDeleted { path };
            let actions = remote_actions(s, msg, probe, current);
            &&& probe.exists ==> actions == seq![EngineActionView::RemoveFile { path }]
                && after_remote(s, msg, probe, now) == (EngineView {
                states: s.states.remove(path),
                quiet: s.quiet.insert(path, now),
                ..s
            })
            &&& !probe.exists ==> actions.len() == 0 && after_remote(s, msg, probe, now) == s
        }),
        ({
            let msg = MessageView::DirDeleted { path };
            let actions = remote_actions(s, msg, probe, current);
            let after = after_remote(s, msg, probe, now);
            &&& probe.is_dir ==> {
                &&& actions == seq![EngineActionView::RemoveDir { path }]
                &&& after == (EngineView {
                    states: after.states,
                    quiet: s.quiet.insert(path, now),
                    ..s
                })
                &&& after.states.contains_key(other) <==> s.states.contains_key(other) && !(
                path.len() <= other.len() && other.take(path.len() as int) == path)
                &&& after.states.contains_key(other) ==> after.states[other] == s.states[other]
            }
            &&& !probe.is_dir ==> actions.len() == 0 && after == s
        }),
        remote_actions(s, MessageView::DirCreated { path }, probe, current) == seq![
            EngineActionView::CreateDir { path },
        ],
        after_remote(s, MessageView::DirCreated { path }, probe, now) == s,
{
}

/// A conflict that the agent saw is told to the user. Whatever the direction, a ping is answered. No
/// other message leads to anything.
pub proof fn lemma_other_beam_messages(
    s: EngineView,
    msg: MessageView,
    path: Seq<char>,
    local_hash: u64,
    remote_hash: u64,
    probe: Probe,
    current: Option<u64>,
    now: u64,
)
    requires
        !(msg is FileContent),
        !(msg is FileChanged),
        !(msg is FileDeleted),
        !(msg is DirCreated),
        !(msg is DirDeleted),
    ensures
        remote_actions(s, MessageView::Ping, probe, current) == seq![
            EngineActionView::Send(MessageView::Pong),
        ],
        s.ongoing_direction != SyncDirection::LocalToBeam ==> remote_actions(
            s,
            MessageView::ConflictDetected { path, local_hash, remote_hash },
            probe,
            current,
        ) == seq![EngineActionView::AlertConflict { path }],
        !(msg is Ping) && !(msg is ConflictDetected) ==> remote_actions(s, msg, probe, current).len()
            == 0,
        after_remote(s, msg, probe, now) == s,
{
}

/// When a transfer ends, the user is told where it failed. A pushed file is announced with what is
/// remembered of it, and a pulled file is looked at. Whatever came of it, the transfer is no longer
/// under way, and nothing else changes.
pub proof fn lemma_transfer_ends(s: EngineView, result: TransferView, now: u64)
    ensures
        ({
            let event = LoopEventView::Transfer { result };
            let actions = loop_actions(s, event, now);
            let known = s.states.contains_key(result.path);
            &&& actions == result_actions(s, result)
            &&& !result.success ==> actions == seq![
                EngineActionView::AlertFailure { path: result.path, error: result.error },
            ]
            &&& result.success && result.direction is Push && known ==> actions == seq![
                EngineActionView::Send(
                    MessageView::FileReady {
                        path: result.path,
                        hash: s.states[result.path].hash,
                        size: s.states[result.path].size,
                    },
                ),
            ]
            &&& result.success && result.direction is Push && !known ==> actions.len() == 0
            &&& result.success && result.direction is Pull ==> actions == seq![
                EngineActionView::Examine { path: result.path },
            ]
            &&& after_loop(s, event, now) == s.landing(result.path)
            &&& s.landing(result.path) == (EngineView {
                in_flight: s.in_flight.remove(result.path),
                ..s
            })
        }),
{
}

/// A pulled file that is there is remembered as it was found, the local side is silent about it, and
/// the agent is told; of one that is not there nothing is said and nothing remembered.
pub proof fn lemma_pulled_file_is_noted(
    s: EngineView,
    path: Seq<char>,
    state: FileState,
    now: u64,
)
    ensures
        pulled_actions(path, Some(state)) == seq![
            EngineActionView::Send(MessageView::FileReceived { path, hash: state.hash }),
        ],
        after_pulled(s, path, Some(state), now) == (EngineView {
            states: s.states.insert(path, state),
            quiet: s.quiet.insert(path, now),
            ..s
        }),
        pulled_actions(path, None).len() == 0,
        after_pulled(s, path, None, now) == s,
{
}

/// A file that was written is remembered as it was written, and the local side is silent about it;
/// nothing else changes.
pub proof fn lemma_written_file_is_noted(
    s: EngineView,
    path: Seq<char>,
    state: FileState,
    now: u64,
)
    ensures
        s.hushed(path, now).knowing(path, state) == (EngineView {
            states: s.states.insert(path, state),
            quiet: s.quiet.insert(path, now),
            ..s
        }),
        s.knowing(path, state) == (EngineView { states: s.states.insert(path, state), ..s }),
{
}

/// The session ends when the connection does, and with nothing else. Every message but the answer to
/// a ping, and every local event, is taken for what it is.
pub proof fn lemma_loop_passes_on(
    s: EngineView,
    msg: MessageView,
    event: WatchView,
    probe: Probe,
    current: Option<u64>,
    now: u64,
)
    ensures
        loop_actions(s, LoopEventView::Remote { msg: None, probe, current }, now) == seq![
            EngineActionView::Stop,
        ],
        after_loop(s, LoopEventView::Remote { msg: None, probe, current }, now) == s,
        loop_actions(s, LoopEventView::Local { event }, now) == local_actions(s, event),
        after_loop(s, LoopEventView::Local { event }, now) == after_local(s, event),
        !(msg is Pong) ==> loop_actions(
            s,
            LoopEventView::Remote { msg: Some(msg), probe, current },
            now,
        ) == remote_actions(s, msg, probe, current),
        !(msg is Pong) ==> after_loop(
            s,
            LoopEventView::Remote { msg: Some(msg), probe, current },
            now,
        ) == after_remote(s, msg, probe, now),
        !remote_actions(s, msg, probe, current).contains(EngineActionView::Stop),
        !local_actions(s, event).contains(EngineActionView::Stop),
{
}

/// The time that passes changes nothing but the silences, of which those stay that are younger than
/// half a second.
pub proof fn lemma_silences_end(s: EngineView, path: Seq<char>, now: u64)
    ensures
        s.refreshed(now) == (EngineView { quiet: s.refreshed(now).quiet, ..s }),
        s.refreshed(now).quiet.contains_key(path) <==> s.quiet.contains_key(path) && now
            - s.quiet[path] < 500_000_000,
        s.refreshed(now).quiet.contains_key(path) ==> s.refreshed(now).quiet[path] == s.quiet[path],
{
}

/// The beam is pinged at every tick, the user is told of its silence from fifteen seconds on, for
/// which the alarm is set until that was done, and the beam's answer ends the silence; nothing else
/// changes.
pub proof fn lemma_ticks(s: EngineView, probe: Probe, current: Option<u64>, now: u64)
    requires
        s.last_pong <= now,
    ensures
        ({
            let ticked = loop_actions(s, LoopEventView::Tick, now);
            let rung = loop_actions(s, LoopEventView::Alarm, now);
            let silent = now - s.last_pong >= 15_000_000_000;
            let pong = LoopEventView::Remote { msg: Some(MessageView::Pong), probe, current };
            &&& silent ==> ticked == seq![
                EngineActionView::Send(MessageView::Ping),
                EngineActionView::AlertSilence,
            ]
            &&& !silent ==> ticked == seq![EngineActionView::Send(MessageView::Ping)]
            &&& silent && !s.alerted ==> rung == seq![EngineActionView::AlertSilence]
            &&& !silent || s.alerted ==> rung.len() == 0
            &&& after_loop(s, LoopEventView::Tick, now) == (EngineView {
                alerted: s.alerted || silent,
                ..s
            })
            &&& after_loop(s, LoopEventView::Alarm, now) == (EngineView {
                alerted: s.alerted || silent,
                ..s
            })
            &&& s.alerted ==> s.alarm(now) is None
            &&& !s.alerted && silent ==> s.alarm(now) == Some(0u64)
            &&& !s.alerted && !silent ==> s.alarm(now) is Some && now + s.alarm(now)->0 == s.last_pong
                + 15_000_000_000
            &&& loop_actions(s, pong, now).len() == 0
            &&& after_loop(s, pong, now) == (EngineView { last_pong: now, alerted: false, ..s })
        }),
{
}

/// An action says what it carries, all of it.
pub proof fn lemma_engine_action_views(
    msg: Message,
    path: String,
    hash: u64,
    data: Vec<u8>,
    error: Option<String>,
)
    ensures
        EngineAction::Send(msg)@ == EngineActionView::Send(msg@),
        (EngineAction::Write { path, hash, data })@ == (EngineActionView::Write {
            path: path@,
            hash,
            data: data@,
        }),
        (EngineAction::SaveConflict { path })@ == (EngineActionView::SaveConflict { path: path@ }),
        (EngineAction::Inspect { path })@ == (EngineActionView::Inspect { path: path@ }),
        (EngineAction::SendContent { path, hash })@ == (EngineActionView::SendContent {
            path: path@,
            hash,
        }),
        (EngineAction::Examine { path })@ == (EngineActionView::Examine { path: path@ }),
        (EngineAction::CreateDir { path })@ == (EngineActionView::CreateDir { path: path@ }),
        (EngineAction::RemoveFile { path })@ == (EngineActionView::RemoveFile { path: path@ }),
        (EngineAction::RemoveDir { path })@ == (EngineActionView::RemoveDir { path: path@ }),
        (EngineAction::StartPush { path })@ == (EngineActionView::StartPush { path: path@ }),
        (EngineAction::StartPull { path })@ == (EngineActionView::StartPull { path: path@ }),
        (EngineAction::AlertConflict { path })@ == (EngineActionView::AlertConflict {
            path: path@,
        }),
        (EngineAction::AlertFailure { path, error })@ == (EngineActionView::AlertFailure {
            path: path@,
            error: match error {
                Some(text) => Some(text@),
                None => None,
            },
        }),
        EngineAction::AlertSilence@ is AlertSilence,
        EngineAction::Stop@ is Stop,
{
}

/// Contents that came inline are written as they came, whatever the direction of the sync, after a
/// copy of the file where it is known and holds neither what is remembered of it nor what comes.
pub proof fn lemma_inline_contents_are_written(
    s: EngineView,
    path: Seq<char>,
    hash: u64,
    data: Seq<u8>,
    current: Option<u64>,
)
    ensures
        ({
            let write = EngineActionView::Write { path, hash, data };
            let conflict = s.states.contains_key(path) && current is Some && current->0
                != s.states[path].hash && current->0 != hash;
            &&& conflict ==> inline_actions(s, path, hash, data, current) == seq![
                EngineActionView::SaveConflict { path },
                write,
            ]
            &&& !conflict ==> inline_actions(s, path, hash, data, current) == seq![write]
        }),
{
}

/// A file that is made, changed or moved in on the beam reaches the local side: the kernel's report is
/// passed on, the agent looks at the file and sends it or announces it, and the local side writes or
/// pulls it under the same path.
pub proof fn lemma_beam_file_reaches_the_local_side(
    rules: Seq<Patterns>,
    root: Seq<char>,
    full_path: Seq<char>,
    mask: KernelMask,
    a: AgentView,
    s: EngineView,
    found: FileState,
    data: Seq<u8>,
    probe: Probe,
    current: Option<u64>,
)
    requires
        !filtered(rules, root, full_path, false),
        !mask.is_dir,
        mask.close_write || mask.modify || (mask.moved_to && !mask.delete && !mask.moved_from),
        a.ongoing_direction != SyncDirection::LocalToBeam,
        s.ongoing_direction != SyncDirection::LocalToBeam,
        !a.quiet.contains_key(relative(root, full_path)),
        !a.states.contains_key(relative(root, full_path)),
        !s.states.contains_key(relative(root, full_path)),
        !s.in_flight.contains(relative(root, full_path)),
    ensures
        ({
            let path = relative(root, full_path);
            let sent = MessageView::FileContent { path, hash: found.hash, data };
            let announced = MessageView::FileChanged {
                path,
                hash: found.hash,
                mtime: found.mtime,
                size: found.size,
            };
            let event = reaction(rules, root, full_path, mask).event;
            &&& event is Some
            &&& event_action(a, event->0) == Some(AgentActionView::Inspect { path })
            &&& found.size < 65_536 ==> inspection_action(a, path, found) == Some(
                AgentActionView::SendContent { path, hash: found.hash },
            ) && remote_actions(s, sent, probe, current) == seq![
                EngineActionView::Write { path, hash: found.hash, data },
            ]
            &&& found.size >= 65_536 ==> inspection_action(a, path, found) == Some(
                AgentActionView::Send(announced),
            ) && remote_actions(s, announced, probe, current) == seq![
                EngineActionView::StartPull { path },
            ]
        }),
{
}

/// What is deleted or moved away on the beam, file or directory, goes on the local side too.
pub proof fn lemma_beam_removal_reaches_the_local_side(
    rules: Seq<Patterns>,
    root: Seq<char>,
    full_path: Seq<char>,
    mask: KernelMask,
    a: AgentView,
    s: EngineView,
    probe: Probe,
    current: Option<u64>,
)
    requires
        !filtered(rules, root, full_path, mask.is_dir),
        !mask.create,
        !mask.close_write,
        !mask.modify,
        mask.delete || mask.moved_from,
        a.ongoing_direction != SyncDirection::LocalToBeam,
        s.ongoing_direction != SyncDirection::LocalToBeam,
        !a.quiet.contains_key(relative(root, full_path)),
        probe.exists,
        probe.is_dir == mask.is_dir,
    ensures
        ({
            let path = relative(root, full_path);
            let told = if mask.is_dir {
                MessageView::DirDeleted { path }
            } else {
                MessageView::FileDeleted { path }
            };
            let event = reaction(rules, root, full_path, mask).event;
            &&& event is Some
            &&& event_action(a, event->0) == Some(AgentActionView::Send(told))
            &&& remote_actions(s, told, probe, current) == seq![
                if mask.is_dir {
                    EngineActionView::RemoveDir { path }
                } else {
                    EngineActionView::RemoveFile { path }
                },
            ]
        }),
{
}

/// What the user deletes, file or directory, goes on the beam too, and a directory that the user makes
/// is made there.
pub proof fn lemma_local_removal_reaches_the_beam(
    s: EngineView,
    full_path: Seq<char>,
    is_dir: bool,
    probe: Probe,
)
    requires
        s.ongoing_direction != SyncDirection::BeamToLocal,
        !filtered(s.rules, s.local_dir, full_path, is_dir),
        !s.quiet.contains_key(relative(s.local_dir, full_path)),
        probe.exists,
        probe.is_dir == is_dir,
    ensures
        ({
            let path = relative(s.local_dir, full_path);
            let kind = if is_dir {
                ChangeKind::FolderRemoved
            } else {
                ChangeKind::FileRemoved
            };
            let event = local_event(kind, full_path, false);
            let told = if is_dir {
                MessageView::DirDeleted { path }
            } else {
                MessageView::FileDeleted { path }
            };
            &&& event is Some
            &&& local_actions(s, event->0) == seq![EngineActionView::Send(told)]
            &&& message_action(told, probe) == Some(
                if is_dir {
                    AgentActionView::RemoveDir { path }
                } else {
                    AgentActionView::RemoveFile { path }
                },
            )
        }),
        is_dir ==> {
            let path = relative(s.local_dir, full_path);
            let event = local_event(ChangeKind::FolderCreated, full_path, true);
            let told = MessageView::DirCreated { path };
            &&& event is Some
            &&& local_actions(s, event->0) == seq![EngineActionView::Send(told)]
            &&& message_action(told, probe) == Some(AgentActionView::CreateDir { path })
        },
{
}

} // verus!
