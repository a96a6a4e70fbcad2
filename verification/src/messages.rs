//! The messages that the two sides exchange, and the direction of a sync.

use crate::text::views;
use vstd::prelude::*;

verus! {

/// The version of the protocol that this side speaks.
pub const PROTOCOL_VERSION: u32 = 2;

/// Files below this many bytes are sent inline; the others are transferred apart.
pub const INLINE_THRESHOLD: u64 = 64 * 1024;

/// Which way files travel.
#[derive(Debug, Clone, Copy, PartialEq, Eq, Structural)]
pub enum SyncDirection {
    /// Only from the local machine to the beam.
    LocalToBeam,
    /// Only from the beam to the local machine.
    BeamToLocal,
    /// Both ways.
    Bidirectional,
}

impl SyncDirection {
    /// Whether local files go to the beam.
    pub open spec fn pushes(self) -> bool {
        self is LocalToBeam || self is Bidirectional
    }

    /// Whether the beam's files come to the local machine.
    pub open spec fn pulls(self) -> bool {
        self is BeamToLocal || self is Bidirectional
    }

    /// Whether local files go to the beam.
    pub fn should_push(&self) -> (r: bool)
        ensures
            r == self.pushes(),
    {
        match self {
            SyncDirection::BeamToLocal => false,
            _ => true,
        }
    }

    /// Whether the beam's files come to the local machine.
    pub fn should_pull(&self) -> (r: bool)
        ensures
            r == self.pulls(),
    {
        match self {
            SyncDirection::LocalToBeam => false,
            _ => true,
        }
    }
}

/// A message between the local side and the agent on the beam.
#[derive(Debug, Clone)]
pub enum Message {
    /// The local side opens the session.
    Hello {
        version: u32,
        session_id: String,
        initial_direction: SyncDirection,
        ongoing_direction: SyncDirection,
    },
    /// The agent accepts the session.
    HelloAck { version: u32 },
    /// Everything that the local side holds.
    FileManifest { entries: Vec<ManifestEntry> },
    /// The agent's answer to a manifest: what to push to it and what to pull from it.
    SyncPlan { to_push: Vec<SyncEntry>, to_pull: Vec<SyncEntry> },
    /// The initial sync is done.
    ManifestAck,
    /// A file changed; its contents travel apart.
    FileChanged { path: String, hash: u64, mtime: u64, size: u64 },
    /// A file was deleted.
    FileDeleted { path: String },
    /// A directory was created.
    DirCreated { path: String },
    /// A directory was deleted.
    DirDeleted { path: String },
    /// A small file, sent inline.
    FileContent { path: String, hash: u64, data: Vec<u8> },
    /// A file has been copied to the beam.
    FileReady { path: String, hash: u64, size: u64 },
    /// A file has been copied from the beam.
    FileReceived { path: String, hash: u64 },
    /// Both sides changed the same file.
    ConflictDetected { path: String, local_hash: u64, remote_hash: u64 },
    /// Asks for a `Pong`.
    Ping,
    /// Answers a `Ping`.
    Pong,
    /// Ends the session.
    Shutdown,
}

/// One file or directory of a manifest.
#[derive(Debug, Clone)]
pub struct ManifestEntry {
    pub path: String,
    pub hash: u64,
    pub mtime: u64,
    pub size: u64,
    pub is_dir: bool,
}

/// One file of a sync plan.
#[derive(Debug, Clone)]
pub struct SyncEntry {
    pub path: String,
    pub hash: u64,
    pub size: u64,
}

/// What a [`ManifestEntry`] says.
#[verifier::ext_equal]
pub struct EntryView {
    pub path: Seq<char>,
    pub hash: u64,
    pub mtime: u64,
    pub size: u64,
    pub is_dir: bool,
}

/// What a [`SyncEntry`] says.
#[verifier::ext_equal]
pub struct SyncView {
    pub path: Seq<char>,
    pub hash: u64,
    pub size: u64,
}

/// What a [`Message`] says.
#[verifier::ext_equal]
pub enum MessageView {
    Hello {
        version: u32,
        session_id: Seq<char>,
        initial_direction: SyncDirection,
        ongoing_direction: SyncDirection,
    },
    HelloAck { version: u32 },
    FileManifest { entries: Seq<EntryView> },
    SyncPlan { to_push: Seq<SyncView>, to_pull: Seq<SyncView> },
    ManifestAck,
    FileChanged { path: Seq<char>, hash: u64, mtime: u64, size: u64 },
    FileDeleted { path: Seq<char> },
    DirCreated { path: Seq<char> },
    DirDeleted { path: Seq<char> },
    FileContent { path: Seq<char>, hash: u64, data: Seq<u8> },
    FileReady { path: Seq<char>, hash: u64, size: u64 },
    FileReceived { path: Seq<char>, hash: u64 },
    ConflictDetected { path: Seq<char>, local_hash: u64, remote_hash: u64 },
    Ping,
    Pong,
    Shutdown,
}

impl View for ManifestEntry {
    type V = EntryView;

    open spec fn view(&self) -> EntryView {
        EntryView {
            path: self.path@,
            hash: self.hash,
            mtime: self.mtime,
            size: self.size,
            is_dir: self.is_dir,
        }
    }
}

impl View for SyncEntry {
    type V = SyncView;

    open spec fn view(&self) -> SyncView {
        SyncView { path: self.path@, hash: self.hash, size: self.size }
    }
}

impl View for Message {
    type V = MessageView;

    open spec fn view(&self) -> MessageView {
        match *self {
            Message::Hello { version, session_id, initial_direction, ongoing_direction } =>
                MessageView::Hello {
                version,
                session_id: session_id@,
                initial_direction,
                ongoing_direction,
            },
            Message::HelloAck { version } => MessageView::HelloAck { version },
            Message::FileManifest { entries } => MessageView::FileManifest {
                entries: views(entries@),
            },
            Message::SyncPlan { to_push, to_pull } => MessageView::SyncPlan {
                to_push: views(to_push@),
                to_pull: views(to_pull@),
            },
            Message::ManifestAck => MessageView::ManifestAck,
            Message::FileChanged { path, hash, mtime, size } => MessageView::FileChanged {
                path: path@,
                hash,
                mtime,
                size,
            },
            Message::FileDeleted { path } => MessageView::FileDeleted { path: path@ },
            Message::DirCreated { path } => MessageView::DirCreated { path: path@ },
            Message::DirDeleted { path } => MessageView::DirDeleted { path: path@ },
            Message::FileContent { path, hash, data } => MessageView::FileContent {
                path: path@,
                hash,
                data: data@,
            },
            Message::FileReady { path, hash, size } => MessageView::FileReady {
                path: path@,
                hash,
                size,
            },
            Message::FileReceived { path, hash } => MessageView::FileReceived { path: path@, hash },
            Message::ConflictDetected { path, local_hash, remote_hash } =>
                MessageView::ConflictDetected { path: path@, local_hash, remote_hash },
            Message::Ping => MessageView::Ping,
            Message::Pong => MessageView::Pong,
            Message::Shutdown => MessageView::Shutdown,
        }
    }
}

/// Whether a file of `size` bytes is sent inline.
pub open spec fn sent_inline(size: u64) -> bool {
    size < INLINE_THRESHOLD
}

/// Whether a file of `size` bytes is sent inline.
pub fn is_inline(size: u64) -> (r: bool)
    ensures
        r == sent_inline(size),
{
    size < INLINE_THRESHOLD
}

/// Files go to the beam unless they only come from it, and come from it unless they only go there.
pub proof fn lemma_directions(direction: SyncDirection)
    ensures
        direction.pushes() <==> direction != SyncDirection::BeamToLocal,
        direction.pulls() <==> direction != SyncDirection::LocalToBeam,
{
}

/// A file is sent inline exactly where it is smaller than 64 KiB.
pub proof fn lemma_inline_sizes(size: u64)
    ensures
        sent_inline(size) <==> size < 65_536,
{
}

/// Nothing that a message carries is lost in what it says.
pub proof fn lemma_message_views(
    path: String,
    hash: u64,
    mtime: u64,
    size: u64,
    data: Vec<u8>,
    entries: Vec<ManifestEntry>,
    to_push: Vec<SyncEntry>,
    to_pull: Vec<SyncEntry>,
)
    ensures
        (Message::FileContent { path, hash, data })@ == (MessageView::FileContent {
            path: path@,
            hash,
            data: data@,
        }),
        (Message::FileChanged { path, hash, mtime, size })@ == (MessageView::FileChanged {
            path: path@,
            hash,
            mtime,
            size,
        }),
        (Message::FileReady { path, hash, size })@ == (MessageView::FileReady {
            path: path@,
            hash,
            size,
        }),
        (Message::FileReceived { path, hash })@ == (MessageView::FileReceived { path: path@, hash }),
        (Message::FileDeleted { path })@ == (MessageView::FileDeleted { path: path@ }),
        (Message::DirCreated { path })@ == (MessageView::DirCreated { path: path@ }),
        (Message::DirDeleted { path })@ == (MessageView::DirDeleted { path: path@ }),
        (Message::FileManifest { entries })@ == (MessageView::FileManifest {
            entries: entries@.map_values(|e: ManifestEntry| e@),
        }),
        (Message::SyncPlan { to_push, to_pull })@ == (MessageView::SyncPlan {
            to_push: to_push@.map_values(|e: SyncEntry| e@),
            to_pull: to_pull@.map_values(|e: SyncEntry| e@),
        }),
        forall|e: ManifestEntry|
            (#[trigger] e@).path == e.path@ && e@.hash == e.hash && e@.mtime == e.mtime && e@.size
                == e.size && e@.is_dir == e.is_dir,
        forall|e: SyncEntry|
            (#[trigger] e@).path == e.path@ && e@.hash == e.hash && e@.size == e.size,
{
}

} // verus!
