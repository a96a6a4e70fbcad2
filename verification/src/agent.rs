//! The agent's side of a session: what it does about each message and each event.

use crate::ignore_rules::IgnoreRules;
use crate::manifest::{build_manifest, listing, plan, plan_sync, record_files, recorded, FsNode};
use crate::messages::{
    is_inline, sent_inline, EntryView, ManifestEntry, Message, MessageView, SyncDirection,
    PROTOCOL_VERSION,
};
use crate::states::{fresh, without_prefix, FileState, PathMap, SUPPRESS_NANOS};
use crate::text::{opt_view, views};
use crate::watch::{WatchEvent, WatchView};
use vstd::prelude::*;

verus! {

/// What was found on disk at the path of a message.
#[derive(Debug, Clone, Copy, PartialEq, Eq, Structural)]
pub struct Probe {
    /// Whether there is anything.
    pub exists: bool,
    /// Whether it is a directory.
    pub is_dir: bool,
}

/// What the agent has to do next.
pub enum AgentAction {
    /// Send a message to the local side.
    Send(Message),
    /// Replace the file's contents, then call `written`.
    Write { path: String, hash: u64, data: Vec<u8> },
    /// Hash the file that was copied here, then call `examined`.
    Examine { path: String, size: u64 },
    /// Look at the file that changed, then call `inspected`.
    Inspect { path: String },
    /// Read the file and send its contents with this hash.
    SendContent { path: String, hash: u64 },
    CreateDir { path: String },
    RemoveFile { path: String },
    RemoveDir { path: String },
    /// Read the tree, then call `reconcile` with these entries of the local side.
    Reconcile { entries: Vec<ManifestEntry> },
    /// End the process.
    Exit,
}

/// What an [`AgentAction`] says.
#[verifier::ext_equal]
pub enum AgentActionView {
    Send(MessageView),
    Write { path: Seq<char>, hash: u64, data: Seq<u8> },
    Examine { path: Seq<char>, size: u64 },
    Inspect { path: Seq<char> },
    SendContent { path: Seq<char>, hash: u64 },
    CreateDir { path: Seq<char> },
    RemoveFile { path: Seq<char> },
    RemoveDir { path: Seq<char> },
    Reconcile { entries: Seq<EntryView> },
    Exit,
}

impl View for AgentAction {
    type V = AgentActionView;

    open spec fn view(&self) -> AgentActionView {
        match *self {
            AgentAction::Send(msg) => AgentActionView::Send(msg@),
            AgentAction::Write { path, hash, data } => AgentActionView::Write {
                path: path@,
                hash,
                data: data@,
            },
            AgentAction::Examine { path, size } => AgentActionView::Examine { path: path@, size },
            AgentAction::Inspect { path } => AgentActionView::Inspect { path: path@ },
            AgentAction::SendContent { path, hash } => AgentActionView::SendContent {
                path: path@,
                hash,
            },
            AgentAction::CreateDir { path } => AgentActionView::CreateDir { path: path@ },
            AgentAction::RemoveFile { path } => AgentActionView::RemoveFile { path: path@ },
            AgentAction::RemoveDir { path } => AgentActionView::RemoveDir { path: path@ },
            AgentAction::Reconcile { entries } => AgentActionView::Reconcile {
                entries: views(entries@),
            },
            AgentAction::Exit => AgentActionView::Exit,
        }
    }
}

/// Why a session did not come about.
pub enum HandshakeError {
    /// The other side speaks another version of the protocol.
    VersionMismatch { version: u32 },
    /// Something else came, or the connection was closed.
    Unexpected { got: Option<Message> },
}

/// What the local side asked for when it opened the session.
pub struct SessionRequest {
    pub session_id: String,
    pub initial_direction: SyncDirection,
    pub ongoing_direction: SyncDirection,
}

/// Takes the first message of the local side. Where it opens a session, the answer to send comes
/// with what was asked for.
pub fn accept_hello(first: Option<Message>) -> (r: Result<(Message, SessionRequest), HandshakeError>)
    ensures
        match opt_view(first) {
            Some(
                MessageView::Hello { version, session_id, initial_direction, ongoing_direction },
            ) => if version == PROTOCOL_VERSION {
                r matches Ok((answer, session)) && answer@ == (MessageView::HelloAck {
                    version: PROTOCOL_VERSION,
                }) && session.session_id@ == session_id && session.initial_direction
                    == initial_direction && session.ongoing_direction == ongoing_direction
            } else {
                r == Err::<(Message, SessionRequest), HandshakeError>(
                    HandshakeError::VersionMismatch { version },
                )
            },
            _ => r == Err::<(Message, SessionRequest), HandshakeError>(
                HandshakeError::Unexpected { got: first },
            ),
        },
{
    match first {
        Some(Message::Hello { version, session_id, initial_direction, ongoing_direction }) => {
            if version != PROTOCOL_VERSION {
                return Err(HandshakeError::VersionMismatch { version });
            }
            Ok(
                (
                    Message::HelloAck { version: PROTOCOL_VERSION },
                    SessionRequest { session_id, initial_direction, ongoing_direction },
                ),
            )
        },
        got => Err(HandshakeError::Unexpected { got }),
    }
}

/// What the agent remembers.
#[verifier::ext_equal]
pub struct AgentView {
    /// The files as the agent last saw or wrote them.
    pub states: Map<Seq<char>, FileState>,
    /// The paths that the agent keeps silent about, each with the time since when.
    pub quiet: Map<Seq<char>, u64>,
    pub initial_direction: SyncDirection,
    pub ongoing_direction: SyncDirection,
}

impl AgentView {
    /// Silent about `path` from `now` on.
    pub open spec fn hushed(self, path: Seq<char>, now: u64) -> AgentView {
        AgentView { quiet: self.quiet.insert(path, now), ..self }
    }

    /// With `state` remembered for `path`.
    pub open spec fn knowing(self, path: Seq<char>, state: FileState) -> AgentView {
        AgentView { states: self.states.insert(path, state), ..self }
    }

    /// With the file `path` forgotten.
    pub open spec fn forgetting(self, path: Seq<char>) -> AgentView {
        AgentView { states: self.states.remove(path), ..self }
    }

    /// With all files forgotten whose path begins with the text `prefix`.
    pub open spec fn forgetting_all(self, prefix: Seq<char>) -> AgentView {
        AgentView { states: without_prefix(self.states, prefix), ..self }
    }
}

/// What the agent remembers after a message.
pub open spec fn after_message(
    s: AgentView,
    msg: MessageView,
    probe: Probe,
    now: u64,
) -> AgentView {
    match msg {
        MessageView::FileReady { path, hash, size } => s.hushed(path, now),
        MessageView::FileChanged { path, hash, mtime, size } => s.hushed(path, now),
        MessageView::FileDeleted { path } => if probe.exists {
            s.hushed(path, now).forgetting(path)
        } else {
            s
        },
        MessageView::DirDeleted { path } => if probe.is_dir {
            s.hushed(path, now).forgetting_all(path)
        } else {
            s
        },
        _ => s,
    }
}

/// What the agent does about a message.
pub open spec fn message_action(msg: MessageView, probe: Probe) -> Option<AgentActionView> {
    match msg {
        MessageView::Ping => Some(AgentActionView::Send(MessageView::Pong)),
        MessageView::FileManifest { entries } => Some(AgentActionView::Reconcile { entries }),
        MessageView::FileContent { path, hash, data } => Some(
            AgentActionView::Write { path, hash, data },
        ),
        MessageView::FileReady { path, hash, size } => Some(AgentActionView::Examine { path, size }),
        MessageView::FileDeleted { path } => if probe.exists {
            Some(AgentActionView::RemoveFile { path })
        } else {
            None
        },
        MessageView::DirCreated { path } => Some(AgentActionView::CreateDir { path }),
        MessageView::DirDeleted { path } => if probe.is_dir {
            Some(AgentActionView::RemoveDir { path })
        } else {
            None
        },
        MessageView::ManifestAck => Some(AgentActionView::Send(MessageView::ManifestAck)),
        MessageView::Shutdown => Some(AgentActionView::Exit),
        _ => None,
    }
}

/// Whether the agent keeps silent about an event.
pub open spec fn passes_over(s: AgentView, event: WatchView) -> bool {
    !s.ongoing_direction.pulls() || match event {
        WatchView::Modified(path) => s.quiet.contains_key(path),
        WatchView::Deleted(path) => s.quiet.contains_key(path),
        WatchView::DirCreated(path) => false,
        WatchView::DirDeleted(path) => s.quiet.contains_key(path),
    }
}

/// What the agent remembers after an event.
pub open spec fn after_event(s: AgentView, event: WatchView) -> AgentView {
    if passes_over(s, event) {
        s
    } else {
        match event {
            WatchView::Deleted(path) => s.forgetting(path),
            WatchView::DirDeleted(path) => s.forgetting_all(path),
            _ => s,
        }
    }
}

/// What the agent does about an event.
pub open spec fn event_action(s: AgentView, event: WatchView) -> Option<AgentActionView> {
    if passes_over(s, event) {
        None
    } else {
        Some(
            match event {
                WatchView::Modified(path) => AgentActionView::Inspect { path },
                WatchView::Deleted(path) => AgentActionView::Send(MessageView::FileDeleted { path }),
                WatchView::DirCreated(path) => AgentActionView::Send(
                    MessageView::DirCreated { path },
                ),
                WatchView::DirDeleted(path) => AgentActionView::Send(
                    MessageView::DirDeleted { path },
                ),
            },
        )
    }
}

/// Whether a file holds what is remembered of it.
pub open spec fn unchanged(
    states: Map<Seq<char>, FileState>,
    path: Seq<char>,
    found: FileState,
) -> bool {
    states.contains_key(path) && states[path].hash == found.hash
}

/// What the agent does about a file in which it found `found`.
pub open spec fn inspection_action(
    s: AgentView,
    path: Seq<char>,
    found: FileState,
) -> Option<AgentActionView> {
    if unchanged(s.states, path, found) {
        None
    } else if sent_inline(found.size) {
        Some(AgentActionView::SendContent { path, hash: found.hash })
    } else {
        Some(
            AgentActionView::Send(
                MessageView::FileChanged {
                    path,
                    hash: found.hash,
                    mtime: found.mtime,
                    size: found.size,
                },
            ),
        )
    }
}

/// The agent of a session.
pub struct AgentEngine {
    states: PathMap<FileState>,
    quiet: PathMap<u64>,
    initial_direction: SyncDirection,
    ongoing_direction: SyncDirection,
}

impl View for AgentEngine {
    type V = AgentView;

    closed spec fn view(&self) -> AgentView {
        AgentView {
            states: self.states@,
            quiet: self.quiet@,
            initial_direction: self.initial_direction,
            ongoing_direction: self.ongoing_direction,
        }
    }
}

impl AgentEngine {
    /// Whether the agent's tables are in order.
    pub closed spec fn wf(&self) -> bool {
        self.states.wf() && self.quiet.wf()
    }

    /// An agent that has seen nothing yet.
    pub fn new(initial_direction: SyncDirection, ongoing_direction: SyncDirection) -> (agent:
        AgentEngine)
        ensures
            agent.wf(),
            agent@ == (AgentView {
                states: Map::empty(),
                quiet: Map::empty(),
                initial_direction,
                ongoing_direction,
            }),
    {
        AgentEngine {
            states: PathMap::new(),
            quiet: PathMap::new(),
            initial_direction,
            ongoing_direction,
        }
    }

    /// Takes a message of the local side, and says what to do about it. `probe` tells what is on
    /// disk at the path of the message.
    pub fn handle_message(&mut self, msg: Message, probe: Probe, now: u64) -> (action: Option<
        AgentAction,
    >)
        requires
            old(self).wf(),
        ensures
            final(self).wf(),
            final(self)@ == after_message(old(self)@, msg@, probe, now),
            opt_view(action) == message_action(msg@, probe),
    {
        match msg {
            Message::Ping => Some(AgentAction::Send(Message::Pong)),
            Message::FileManifest { entries } => Some(AgentAction::Reconcile { entries }),
            Message::FileContent { path, hash, data } => Some(
                AgentAction::Write { path, hash, data },
            ),
            Message::FileReady { path, hash, size } => {
                self.quiet.insert(&path, now);
                Some(AgentAction::Examine { path, size })
            },
            Message::FileChanged { path, hash, mtime, size } => {
                self.quiet.insert(&path, now);
                None
            },
            Message::FileDeleted { path } => {
                if !probe.exists {
                    return None;
                }
                self.quiet.insert(&path, now);
                self.states.remove(path.as_str());
                Some(AgentAction::RemoveFile { path })
            },
            Message::DirCreated { path } => Some(AgentAction::CreateDir { path }),
            Message::DirDeleted { path } => {
                if !probe.is_dir {
                    return None;
                }
                self.quiet.insert(&path, now);
                self.states.drop_prefix(path.as_str());
                Some(AgentAction::RemoveDir { path })
            },
            Message::ManifestAck => Some(AgentAction::Send(Message::ManifestAck)),
            Message::Shutdown => Some(AgentAction::Exit),
            _ => None,
        }
    }

    /// Answers the manifest of the local side, once the tree at `root` has been read: the
    /// directories to create, and the plan to send.
    pub fn reconcile(
        &mut self,
        root: &str,
        nodes: &Vec<FsNode>,
        ignore_rules: &IgnoreRules,
        entries: &Vec<ManifestEntry>,
    ) -> (r: (Vec<String>, Message))
        requires
            old(self).wf(),
        ensures
            final(self).wf(),
            ({
                let held = listing(ignore_rules@, root@, root@, nodes@);
                let p = plan(views(entries@), held, old(self)@.initial_direction);
                &&& views(r.0@) == p.create_dirs
                &&& r.1@ == (MessageView::SyncPlan { to_push: p.to_push, to_pull: p.to_pull })
                &&& final(self)@ == (AgentView {
                    states: recorded(old(self)@.states, held),
                    ..old(self)@
                })
            }),
    {
        let held = build_manifest(root, nodes, ignore_rules);
        let p = plan_sync(entries, &held, self.initial_direction);
        record_files(&mut self.states, &held);
        (p.create_dirs, Message::SyncPlan { to_push: p.to_push, to_pull: p.to_pull })
    }

    /// Notes that the contents of `path` were replaced by `size` bytes with this hash.
    pub fn written(&mut self, path: &String, hash: u64, size: u64, mtime: u64, now: u64)
        requires
            old(self).wf(),
        ensures
            final(self).wf(),
            final(self)@ == old(self)@.hushed(path@, now).knowing(
                path@,
                FileState { hash, mtime, size },
            ),
    {
        self.quiet.insert(path, now);
        self.states.insert(path, FileState { hash, mtime, size });
    }

    /// Notes what was found in a file that was copied here and announced with `size` bytes.
    pub fn examined(&mut self, path: &String, hash: u64, size: u64, mtime: u64)
        requires
            old(self).wf(),
        ensures
            final(self).wf(),
            final(self)@ == old(self)@.knowing(path@, FileState { hash, mtime, size }),
    {
        self.states.insert(path, FileState { hash, mtime, size });
    }

    /// Takes an event of the watched tree, and says what to do about it.
    pub fn handle_watch_event(&mut self, event: WatchEvent) -> (action: Option<AgentAction>)
        requires
            old(self).wf(),
        ensures
            final(self).wf(),
            final(self)@ == after_event(old(self)@, event@),
            opt_view(action) == event_action(old(self)@, event@),
    {
        if !self.ongoing_direction.should_pull() {
            return None;
        }
        match event {
            WatchEvent::Modified(path) => {
                if self.quiet.contains(path.as_str()) {
                    return None;
                }
                Some(AgentAction::Inspect { path })
            },
            WatchEvent::Deleted(path) => {
                if self.quiet.contains(path.as_str()) {
                    return None;
                }
                self.states.remove(path.as_str());
                Some(AgentAction::Send(Message::FileDeleted { path }))
            },
            WatchEvent::DirCreated(path) => Some(AgentAction::Send(Message::DirCreated { path })),
            WatchEvent::DirDeleted(path) => {
                if self.quiet.contains(path.as_str()) {
                    return None;
                }
                self.states.drop_prefix(path.as_str());
                Some(AgentAction::Send(Message::DirDeleted { path }))
            },
        }
    }

    /// Takes what was found in a file that changed, and says what to do about it.
    pub fn inspected(&mut self, path: String, found: FileState) -> (action: Option<AgentAction>)
        requires
            old(self).wf(),
        ensures
            final(self).wf(),
            opt_view(action) == inspection_action(old(self)@, path@, found),
            final(self)@ == if unchanged(old(self)@.states, path@, found) {
                old(self)@
            } else {
                old(self)@.knowing(path@, found)
            },
    {
        match self.states.get(path.as_str()) {
            Some(state) => {
                if state.hash == found.hash {
                    return None;
                }
            },
            None => {},
        }
        self.states.insert(&path, found);
        if is_inline(found.size) {
            Some(AgentAction::SendContent { path, hash: found.hash })
        } else {
            Some(
                AgentAction::Send(
                    Message::FileChanged {
                        path,
                        hash: found.hash,
                        mtime: found.mtime,
                        size: found.size,
                    },
                ),
            )
        }
    }

    /// Ends the silence about the paths that have been quiet long enough.
    pub fn expire(&mut self, now: u64)
        requires
            old(self).wf(),
        ensures
            final(self).wf(),
            final(self)@ == (AgentView { quiet: fresh(old(self)@.quiet, now), ..old(self)@ }),
    {
        self.quiet.expire(now);
    }
}

/// The path that an event is about.
pub open spec fn event_path(event: WatchView) -> Seq<char> {
    match event {
        WatchView::Modified(path) => path,
        WatchView::Deleted(path) => path,
        WatchView::DirCreated(path) => path,
        WatchView::DirDeleted(path) => path,
    }
}

/// The agent does not report its own writes: while the silence about a path lasts, nothing is sent
/// about it but that a directory was created, and nothing remembered changes.
pub proof fn lemma_agent_silence(s: AgentView, event: WatchView, since: u64, now: u64)
    requires
        s.quiet.contains_key(event_path(event)),
        s.quiet[event_path(event)] == since,
        crate::states::elapsed(since, now) < SUPPRESS_NANOS,
        !(event is DirCreated),
    ensures
        ({
            let later = AgentView { quiet: fresh(s.quiet, now), ..s };
            &&& event_action(later, event) is None
            &&& after_event(later, event) == later
        }),
{
}

/// Messages and events never end a silence: a path that was quiet stays so, since the same time or
/// since now.
pub proof fn lemma_agent_silence_lasts(
    s: AgentView,
    path: Seq<char>,
    msg: MessageView,
    probe: Probe,
    event: WatchView,
    now: u64,
)
    requires
        s.quiet.contains_key(path),
    ensures
        after_message(s, msg, probe, now).quiet.contains_key(path),
        after_message(s, msg, probe, now).quiet[path] == s.quiet[path] || after_message(
            s,
            msg,
            probe,
            now,
        ).quiet[path] == now,
        after_event(s, event).quiet == s.quiet,
{
}

/// A file that holds what the agent wrote, or already reported, is not reported (again).
pub proof fn lemma_agent_unchanged_is_silent(
    s: AgentView,
    path: Seq<char>,
    known: FileState,
    found: FileState,
)
    requires
        known.hash == found.hash,
    ensures
        inspection_action(s.knowing(path, known), path, found) is None,
{
}

/// Where the beam's changes travel, a change that is not the agent's own is reported: the file is
/// looked at, and where it differs from what is remembered, the local side is told.
pub proof fn lemma_agent_reports_changes(s: AgentView, path: Seq<char>, found: FileState)
    requires
        s.ongoing_direction.pulls(),
        !s.quiet.contains_key(path),
        !unchanged(s.states, path, found),
    ensures
        event_action(s, WatchView::Modified(path)) == Some(AgentActionView::Inspect { path }),
        inspection_action(s, path, found) == Some(
            if sent_inline(found.size) {
                AgentActionView::SendContent { path, hash: found.hash }
            } else {
                AgentActionView::Send(
                    MessageView::FileChanged {
                        path,
                        hash: found.hash,
                        mtime: found.mtime,
                        size: found.size,
                    },
                )
            },
        ),
{
}

/// Where files only go to the beam, the agent reports nothing.
pub proof fn lemma_agent_push_only(s: AgentView, event: WatchView)
    requires
        s.ongoing_direction is LocalToBeam,
    ensures
        event_action(s, event) is None,
        after_event(s, event) == s,
{
}

/// What the agent does about the messages that bring files and directories to it: contents are
/// written as they came, a file that was copied here is examined, directories are made, and files
/// and directories that are there are removed.
pub proof fn lemma_agent_takes_changes(
    path: Seq<char>,
    hash: u64,
    mtime: u64,
    size: u64,
    data: Seq<u8>,
    probe: Probe,
)
    ensures
        message_action(MessageView::FileContent { path, hash, data }, probe) == Some(
            AgentActionView::Write { path, hash, data },
        ),
        message_action(MessageView::FileReady { path, hash, size }, probe) == Some(
            AgentActionView::Examine { path, size },
        ),
        message_action(MessageView::FileChanged { path, hash, mtime, size }, probe) is None,
        message_action(MessageView::DirCreated { path }, probe) == Some(
            AgentActionView::CreateDir { path },
        ),
        probe.exists ==> message_action(MessageView::FileDeleted { path }, probe) == Some(
            AgentActionView::RemoveFile { path },
        ),
        !probe.exists ==> message_action(MessageView::FileDeleted { path }, probe) is None,
        probe.is_dir ==> message_action(MessageView::DirDeleted { path }, probe) == Some(
            AgentActionView::RemoveDir { path },
        ),
        !probe.is_dir ==> message_action(MessageView::DirDeleted { path }, probe) is None,
{
}

/// What the agent does about the other messages: it answers a manifest, a ping and an
/// acknowledgement, ends where it is told to, and passes over all others.
pub proof fn lemma_agent_answers(entries: Seq<EntryView>, msg: MessageView, probe: Probe)
    ensures
        message_action(MessageView::FileManifest { entries }, probe) == Some(
            AgentActionView::Reconcile { entries },
        ),
        message_action(MessageView::Ping, probe) == Some(AgentActionView::Send(MessageView::Pong)),
        message_action(MessageView::ManifestAck, probe) == Some(
            AgentActionView::Send(MessageView::ManifestAck),
        ),
        message_action(MessageView::Shutdown, probe) == Some(AgentActionView::Exit),
        msg is Hello || msg is HelloAck || msg is SyncPlan || msg is FileReceived || msg
            is ConflictDetected || msg is Pong ==> message_action(msg, probe) is None,
        message_action(msg, probe) == Some(AgentActionView::Exit) ==> msg is Shutdown,
{
}

/// What the agent remembers after a message: it is silent about a file that is copied here, from the
/// announcement on, and about what it deletes, which it forgets, with the paths that begin with its
/// text where it is a directory. Nothing else changes.
pub proof fn lemma_agent_remembers_messages(
    s: AgentView,
    path: Seq<char>,
    other: Seq<char>,
    hash: u64,
    mtime: u64,
    size: u64,
    msg: MessageView,
    probe: Probe,
    now: u64,
)
    ensures
        after_message(s, MessageView::FileReady { path, hash, size }, probe, now) == (AgentView {
            quiet: s.quiet.insert(path, now),
            ..s
        }),
        after_message(s, MessageView::FileChanged { path, hash, mtime, size }, probe, now) == (
        AgentView { quiet: s.quiet.insert(path, now), ..s }),
        probe.exists ==> after_message(s, MessageView::FileDeleted { path }, probe, now) == (
        AgentView { states: s.states.remove(path), quiet: s.quiet.insert(path, now), ..s }),
        !probe.exists ==> after_message(s, MessageView::FileDeleted { path }, probe, now) == s,
        ({
            let after = after_message(s, MessageView::DirDeleted { path }, probe, now);
            &&& !probe.is_dir ==> after == s
            &&& probe.is_dir ==> {
                &&& after == (AgentView {
                    states: after.states,
                    quiet: s.quiet.insert(path, now),
                    ..s
                })
                &&& after.states.contains_key(other) <==> s.states.contains_key(other) && !(
                path.len() <= other.len() && other.take(path.len() as int) == path)
                &&& after.states.contains_key(other) ==> after.states[other] == s.states[other]
            }
        }),
        !(msg is FileReady) && !(msg is FileChanged) && !(msg is FileDeleted) && !(msg
            is DirDeleted) ==> after_message(s, msg, probe, now) == s,
{
}

/// Where the beam's changes travel, everything that happens to a path that the agent is not silent
/// about is passed on, whatever is or is not remembered of it: a changed file is looked at, and
/// deletions are sent. A new directory is sent in any case.
pub proof fn lemma_agent_passes_on(s: AgentView, path: Seq<char>, other: Seq<char>)
    requires
        s.ongoing_direction != SyncDirection::LocalToBeam,
    ensures
        event_action(s, WatchView::DirCreated(path)) == Some(
            AgentActionView::Send(MessageView::DirCreated { path }),
        ),
        after_event(s, WatchView::DirCreated(path)) == s,
        !s.quiet.contains_key(path) ==> {
            let undone = after_event(s, WatchView::DirDeleted(path));
            &&& event_action(s, WatchView::Modified(path)) == Some(AgentActionView::Inspect { path })
            &&& after_event(s, WatchView::Modified(path)) == s
            &&& event_action(s, WatchView::Deleted(path)) == Some(
                AgentActionView::Send(MessageView::FileDeleted { path }),
            )
            &&& after_event(s, WatchView::Deleted(path)) == (AgentView {
                states: s.states.remove(path),
                ..s
            })
            &&& event_action(s, WatchView::DirDeleted(path)) == Some(
                AgentActionView::Send(MessageView::DirDeleted { path }),
            )
            &&& undone == (AgentView { states: undone.states, ..s })
            &&& undone.states.contains_key(other) <==> s.states.contains_key(other) && !(path.len()
                <= other.len() && other.take(path.len() as int) == path)
            &&& undone.states.contains_key(other) ==> undone.states[other] == s.states[other]
        },
{
}

/// A file that was looked at on the beam is sent where it does not hold what is remembered of it, and
/// only there: below 64 KiB with its contents, and from there on as an announcement.
pub proof fn lemma_agent_sends_what_changed(s: AgentView, path: Seq<char>, found: FileState)
    ensures
        ({
            let same = s.states.contains_key(path) && s.states[path].hash == found.hash;
            let action = inspection_action(s, path, found);
            &&& unchanged(s.states, path, found) <==> same
            &&& same ==> action is None
            &&& !same && found.size < 65_536 ==> action == Some(
                AgentActionView::SendContent { path, hash: found.hash },
            )
            &&& !same && found.size >= 65_536 ==> action == Some(
                AgentActionView::Send(
                    MessageView::FileChanged {
                        path,
                        hash: found.hash,
                        mtime: found.mtime,
                        size: found.size,
                    },
                ),
            )
        }),
{
}

/// A file that was written is remembered as it was written, and the agent is silent about it; nothing
/// else changes.
pub proof fn lemma_agent_notes_files(s: AgentView, path: Seq<char>, state: FileState, now: u64)
    ensures
        s.hushed(path, now).knowing(path, state) == (AgentView {
            states: s.states.insert(path, state),
            quiet: s.quiet.insert(path, now),
            ..s
        }),
        s.knowing(path, state) == (AgentView { states: s.states.insert(path, state), ..s }),
{
}

/// An action says what it carries, all of it.
pub proof fn lemma_agent_action_views(
    msg: Message,
    path: String,
    hash: u64,
    size: u64,
    data: Vec<u8>,
    entries: Vec<ManifestEntry>,
)
    ensures
        AgentAction::Send(msg)@ == AgentActionView::Send(msg@),
        (AgentAction::Write { path, hash, data })@ == (AgentActionView::Write {
            path: path@,
            hash,
            data: data@,
        }),
        (AgentAction::Examine { path, size })@ == (AgentActionView::Examine { path: path@, size }),
        (AgentAction::Inspect { path })@ == (AgentActionView::Inspect { path: path@ }),
        (AgentAction::SendContent { path, hash })@ == (AgentActionView::SendContent {
            path: path@,
            hash,
        }),
        (AgentAction::CreateDir { path })@ == (AgentActionView::CreateDir { path: path@ }),
        (AgentAction::RemoveFile { path })@ == (AgentActionView::RemoveFile { path: path@ }),
        (AgentAction::RemoveDir { path })@ == (AgentActionView::RemoveDir { path: path@ }),
        (AgentAction::Reconcile { entries })@ == (AgentActionView::Reconcile {
            entries: entries@.map_values(|e: ManifestEntry| e@),
        }),
        AgentAction::Exit@ is Exit,
{
}

} // verus!
