//! The transfer of one file: in one piece, or in chunks that are compressed one by one.

use crate::agent_cli::{appends, parts, PartingView, ReassemblyView};
use crate::compress::{
    can_decompress, compress, concatenated, decodable_here, decompress, lz4_contents, within_limits,
    DecompressFailed,
};
use crate::initial::{in_one_piece, travels_whole};
use crate::text::{lemma_views_push, numeral, views};
use crate::transfer::{
    announced_chunks, chunk_count, chunk_dir, chunk_file_name, chunk_name, chunk_path, file_id,
    lemma_chunk_count_round_trip, lemma_chunk_paths_distinct, make_chunk_dir_command, parting,
    parting_command, reassembly, reassembly_command, remote_chunk_path, remove_chunk_dir_command,
    transfer_id,
};
use vstd::prelude::*;

verus! {

/// A chunk that is to be copied: its local name, its path on the beam, and the bytes of the file
/// that it stands for.
pub struct ChunkCopy {
    pub name: String,
    pub remote: String,
    pub bytes: u64,
}

/// What a [`ChunkCopy`] says.
#[verifier::ext_equal]
pub struct ChunkCopyView {
    pub name: Seq<char>,
    pub remote: Seq<char>,
    pub bytes: u64,
}

impl View for ChunkCopy {
    type V = ChunkCopyView;

    open spec fn view(&self) -> ChunkCopyView {
        ChunkCopyView { name: self.name@, remote: self.remote@, bytes: self.bytes }
    }
}

/// The chunk number `i` of the transfer `id`.
pub open spec fn chunk_copy(id: Seq<char>, i: nat, bytes: u64) -> ChunkCopyView {
    ChunkCopyView { name: chunk_name(i), remote: chunk_path(id, i), bytes }
}

/// The chunks of the transfer `id`, where the file was read in pieces of these sizes.
pub open spec fn chunk_copies(id: Seq<char>, sizes: Seq<u64>) -> Seq<ChunkCopyView> {
    Seq::new(sizes.len(), |i: int| chunk_copy(id, i as nat, sizes[i]))
}

fn list_copy(id: &str, i: usize, bytes: u64) -> (copy: ChunkCopy)
    ensures
        copy@ == chunk_copy(id@, i as nat, bytes),
{
    ChunkCopy { name: chunk_file_name(i), remote: remote_chunk_path(id, i), bytes }
}

fn list_copies(id: &str, sizes: &Vec<u64>) -> (copies: Vec<ChunkCopy>)
    ensures
        views(copies@) == chunk_copies(id@, sizes@),
{
    let ghost all = chunk_copies(id@, sizes@);
    let mut copies: Vec<ChunkCopy> = Vec::new();
    let mut i: usize = 0;
    while i < sizes.len()
        invariant
            i <= sizes@.len(),
            all == chunk_copies(id@, sizes@),
            views(copies@) == all.take(i as int),
        decreases sizes@.len() - i,
    {
        let copy = list_copy(id, i, sizes[i]);
        proof {
            lemma_views_push(copies@, copy);
            assert(all.take(i + 1) =~= all.take(i as int).push(copy@));
        }
        copies.push(copy);
        i = i + 1;
    }
    assert(all.take(i as int) =~= all);
    copies
}

// ---------------------------------------------------------------------------------------------
// Pushing
// ---------------------------------------------------------------------------------------------

/// How far a push has come.
#[derive(Debug, Clone, Copy, PartialEq, Eq, Structural)]
pub enum PushPhase {
    /// The size of the file is awaited.
    Begin,
    /// The file is being copied in one piece.
    Whole { size: u64 },
    /// The directory for the chunks is being made.
    MakingDir,
    /// The next piece of the file is awaited.
    Reading,
    /// A chunk is being stored.
    Storing,
    /// The chunks are being copied.
    Copying,
    /// The agent is putting the file together.
    Reassembling,
    /// It is over.
    Over,
}

/// What a push needs next.
pub enum PushAction {
    /// Copy the file as it is.
    CopyWhole,
    /// Run a shell command on the beam.
    MakeDir { command: String },
    /// Read the next piece of the file, at most a chunk long, and call `piece_read`.
    Read,
    /// Store a chunk under this name.
    Store { name: String, block: Vec<u8> },
    /// Copy the chunks to the beam.
    CopyChunks { chunks: Vec<ChunkCopy> },
    /// Run a command on the beam.
    Reassemble { command: Vec<String> },
    /// It is over. `moved` bytes are still to be reported.
    Done { moved: Option<u64> },
}

/// What a [`PushJob`] remembers.
#[verifier::ext_equal]
pub struct PushView {
    pub remote_path: Seq<char>,
    pub chunk_size: usize,
    /// The sizes of the pieces that were read.
    pub sizes: Seq<u64>,
    pub phase: PushPhase,
}

/// Whether a push that was given the piece `data` of the file stores `block` under `name` and goes on
/// as `after`.
pub open spec fn stores(
    before: PushView,
    data: Seq<u8>,
    name: Seq<char>,
    block: Seq<u8>,
    after: PushView,
) -> bool {
    &&& name == chunk_name(before.sizes.len())
    &&& data.len() <= u32::MAX ==> lz4_contents(block) == Some(data)
    &&& after == (PushView {
        sizes: before.sizes.push(data.len() as u64),
        phase: PushPhase::Storing,
        ..before
    })
}

/// The push of one file.
pub struct PushJob {
    remote_path: String,
    chunk_size: usize,
    id: String,
    sizes: Vec<u64>,
    phase: PushPhase,
}

impl View for PushJob {
    type V = PushView;

    closed spec fn view(&self) -> PushView {
        PushView {
            remote_path: self.remote_path@,
            chunk_size: self.chunk_size,
            sizes: self.sizes@,
            phase: self.phase,
        }
    }
}

impl PushJob {
    /// Whether the transfer goes by the right name.
    pub closed spec fn wf(&self) -> bool {
        self.id@ == transfer_id(self.remote_path@)
    }

    /// The push of a file to `remote_path`.
    pub fn new(remote_path: String, chunk_size: usize) -> (job: PushJob)
        ensures
            job.wf(),
            job@ == (PushView {
                remote_path: remote_path@,
                chunk_size,
                sizes: Seq::empty(),
                phase: PushPhase::Begin,
            }),
    {
        let id = file_id(remote_path.as_str());
        PushJob { remote_path, chunk_size, id, sizes: Vec::new(), phase: PushPhase::Begin }
    }

    /// The name by which the transfer goes.
    pub fn id(&self) -> (id: &String)
        requires
            self.wf(),
        ensures
            id@ == transfer_id(self@.remote_path),
    {
        &self.id
    }

    /// Begins with a file of `size` bytes.
    pub fn begin(&mut self, size: u64) -> (action: PushAction)
        requires
            old(self).wf(),
            old(self)@.phase is Begin,
        ensures
            final(self).wf(),
            if in_one_piece(size, old(self)@.chunk_size) {
                action is CopyWhole && final(self)@ == (PushView {
                    phase: PushPhase::Whole { size },
                    ..old(self)@
                })
            } else {
                action matches PushAction::MakeDir { command } && command@ == "mkdir -p '"@
                    + chunk_dir(transfer_id(old(self)@.remote_path)) + "'"@ && final(self)@ == (
                PushView { phase: PushPhase::MakingDir, ..old(self)@ })
            },
    {
        if travels_whole(size, self.chunk_size) {
            self.phase = PushPhase::Whole { size };
            PushAction::CopyWhole
        } else {
            self.phase = PushPhase::MakingDir;
            PushAction::MakeDir { command: make_chunk_dir_command(self.id.as_str()) }
        }
    }

    /// Goes on after the last action succeeded.
    pub fn proceed(&mut self) -> (action: PushAction)
        requires
            old(self).wf(),
            !(old(self)@.phase is Begin),
            !(old(self)@.phase is Reading),
        ensures
            final(self).wf(),
            match old(self)@.phase {
                PushPhase::Whole { size } => action == (PushAction::Done { moved: Some(size) })
                    && final(self)@ == (PushView { phase: PushPhase::Over, ..old(self)@ }),
                PushPhase::MakingDir => action is Read && final(self)@ == (PushView {
                    phase: PushPhase::Reading,
                    ..old(self)@
                }),
                PushPhase::Storing => action is Read && final(self)@ == (PushView {
                    phase: PushPhase::Reading,
                    ..old(self)@
                }),
                PushPhase::Copying => action matches PushAction::Reassemble { command } && views(
                    command@,
                ) == reassembly(
                    old(self)@.remote_path,
                    old(self)@.sizes.len(),
                    transfer_id(old(self)@.remote_path),
                ) && final(self)@ == (PushView { phase: PushPhase::Reassembling, ..old(self)@ }),
                _ => action == (PushAction::Done { moved: None }) && final(self)@ == (PushView {
                    phase: PushPhase::Over,
                    ..old(self)@
                }),
            },
    {
        match self.phase {
            PushPhase::Whole { size } => {
                self.phase = PushPhase::Over;
                PushAction::Done { moved: Some(size) }
            },
            PushPhase::MakingDir | PushPhase::Storing => {
                self.phase = PushPhase::Reading;
                PushAction::Read
            },
            PushPhase::Copying => {
                self.phase = PushPhase::Reassembling;
                PushAction::Reassemble {
                    command: reassembly_command(
                        self.remote_path.as_str(),
                        self.sizes.len(),
                        self.id.as_str(),
                    ),
                }
            },
            _ => {
                self.phase = PushPhase::Over;
                PushAction::Done { moved: None }
            },
        }
    }

    /// Takes the next piece of the file; the empty piece is the end of it.
    pub fn piece_read(&mut self, data: &[u8]) -> (action: PushAction)
        requires
            old(self).wf(),
            old(self)@.phase is Reading,
            data@.len() * 110 <= usize::MAX,
        ensures
            final(self).wf(),
            if data@.len() == 0 {
                action matches PushAction::CopyChunks { chunks } && views(chunks@) == chunk_copies(
                    transfer_id(old(self)@.remote_path),
                    old(self)@.sizes,
                ) && final(self)@ == (PushView { phase: PushPhase::Copying, ..old(self)@ })
            } else {
                action matches PushAction::Store { name, block } && stores(
                    old(self)@,
                    data@,
                    name@,
                    block@,
                    final(self)@,
                )
            },
    {
        if data.len() == 0 {
            self.phase = PushPhase::Copying;
            return PushAction::CopyChunks { chunks: list_copies(self.id.as_str(), &self.sizes) };
        }
        let name = chunk_file_name(self.sizes.len());
        let block = compress(data);
        self.sizes.push(data.len() as u64);
        self.phase = PushPhase::Storing;
        PushAction::Store { name, block }
    }
}

// ---------------------------------------------------------------------------------------------
// Pulling
// ---------------------------------------------------------------------------------------------

/// How far a pull has come.
#[derive(Debug, Clone, Copy, PartialEq, Eq, Structural)]
pub enum PullPhase {
    /// Nothing was done yet.
    Begin,
    /// The agent is parting the file.
    Parting,
    /// The file is being copied in one piece.
    Whole,
    /// The chunks are being copied.
    Copying,
    /// The next chunk is awaited.
    Reading,
    /// The contents of a chunk are being appended.
    Appending,
    /// The new contents are taking the place of the old.
    Replacing { chunked: bool },
    /// It is over.
    Over,
    /// It ended with a chunk that could not be decompressed.
    Failed,
}

/// What a pull needs next.
pub enum PullAction {
    /// Run a command on the beam, and call `parted` with what it says.
    Part { command: Vec<String> },
    /// Copy the file as it is beside its place, and call `whole_copied`.
    CopyWhole,
    /// Copy the chunks from the beam.
    CopyChunks { chunks: Vec<ChunkCopy> },
    /// Read the chunk of this name, and call `chunk_read`.
    Read { name: String },
    /// Append to the new contents.
    Append { data: Vec<u8> },
    /// Let the new contents take the place of the old, then report `moved` bytes.
    Replace { moved: Option<u64> },
    /// Run a shell command on the beam; whether it succeeds does not matter.
    CleanUp { command: String },
    /// A chunk could not be decompressed; there is nothing more to do.
    Fail { error: DecompressFailed },
    /// It is over.
    Done,
}

/// What a [`PullJob`] remembers.
#[verifier::ext_equal]
pub struct PullView {
    pub remote_path: Seq<char>,
    pub chunk_size: usize,
    /// How many chunks there are.
    pub chunks: usize,
    /// How many of them were read.
    pub read: usize,
    pub phase: PullPhase,
}

/// Whether a pull that was given `block` appends `data` to the new contents and goes on as `after`.
pub open spec fn receives(
    before: PullView,
    block: Seq<u8>,
    data: Seq<u8>,
    after: PullView,
) -> bool {
    &&& lz4_contents(block) == Some(data)
    &&& after == (PullView {
        read: (before.read + 1) as usize,
        phase: PullPhase::Appending,
        ..before
    })
}

/// The pull of one file.
pub struct PullJob {
    remote_path: String,
    chunk_size: usize,
    id: String,
    chunks: usize,
    read: usize,
    phase: PullPhase,
}

impl View for PullJob {
    type V = PullView;

    closed spec fn view(&self) -> PullView {
        PullView {
            remote_path: self.remote_path@,
            chunk_size: self.chunk_size,
            chunks: self.chunks,
            read: self.read,
            phase: self.phase,
        }
    }
}

/// The chunks of the transfer `id`, each of which stands for `chunk_size` bytes.
pub open spec fn even_copies(id: Seq<char>, chunks: nat, chunk_size: usize) -> Seq<ChunkCopyView> {
    Seq::new(chunks, |i: int| chunk_copy(id, i as nat, chunk_size as u64))
}

fn list_even_copies(id: &str, chunks: usize, chunk_size: usize) -> (copies: Vec<ChunkCopy>)
    ensures
        views(copies@) == even_copies(id@, chunks as nat, chunk_size),
{
    let ghost all = even_copies(id@, chunks as nat, chunk_size);
    let mut copies: Vec<ChunkCopy> = Vec::new();
    let mut i: usize = 0;
    while i < chunks
        invariant
            i <= chunks,
            all == even_copies(id@, chunks as nat, chunk_size),
            views(copies@) == all.take(i as int),
        decreases chunks - i,
    {
        let copy = list_copy(id, i, chunk_size as u64);
        proof {
            lemma_views_push(copies@, copy);
            assert(all.take(i + 1) =~= all.take(i as int).push(copy@));
        }
        copies.push(copy);
        i = i + 1;
    }
    assert(all.take(i as int) =~= all);
    copies
}

impl PullJob {
    /// Whether the transfer goes by the right name, and the number of chunks that were read goes
    /// with the phase.
    pub closed spec fn wf(&self) -> bool {
        &&& self.id@ == transfer_id(self.remote_path@)
        &&& self.read <= self.chunks
        &&& self.phase is Reading ==> self.read < self.chunks
        &&& self.phase is Begin || self.phase is Parting || self.phase is Whole || self.phase
            is Copying ==> self.read == 0
    }

    /// The pull of the file at `remote_path`.
    pub fn new(remote_path: String, chunk_size: usize) -> (job: PullJob)
        ensures
            job.wf(),
            job@ == (PullView {
                remote_path: remote_path@,
                chunk_size,
                chunks: 0,
                read: 0,
                phase: PullPhase::Begin,
            }),
    {
        let id = file_id(remote_path.as_str());
        PullJob { remote_path, chunk_size, id, chunks: 0, read: 0, phase: PullPhase::Begin }
    }

    /// The name by which the transfer goes.
    pub fn id(&self) -> (id: &String)
        requires
            self.wf(),
        ensures
            id@ == transfer_id(self@.remote_path),
    {
        &self.id
    }

    /// Begins.
    pub fn begin(&mut self) -> (action: PullAction)
        requires
            old(self).wf(),
            old(self)@.phase is Begin,
        ensures
            final(self).wf(),
            action matches PullAction::Part { command } && views(command@) == parting(
                old(self)@.remote_path,
                transfer_id(old(self)@.remote_path),
                old(self)@.chunk_size as nat,
            ),
            final(self)@ == (PullView { phase: PullPhase::Parting, ..old(self)@ }),
    {
        self.phase = PullPhase::Parting;
        PullAction::Part {
            command: parting_command(
                self.remote_path.as_str(),
                self.id.as_str(),
                self.chunk_size,
            ),
        }
    }

    /// Takes what the agent said when it parted the file.
    pub fn parted(&mut self, output: &str) -> (action: PullAction)
        requires
            old(self).wf(),
            old(self)@.phase is Parting,
        ensures
            final(self).wf(),
            ({
                let n = announced_chunks(output@);
                if n == 0 {
                    action is CopyWhole && final(self)@ == (PullView {
                        chunks: 0,
                        phase: PullPhase::Whole,
                        ..old(self)@
                    })
                } else {
                    action matches PullAction::CopyChunks { chunks } && views(chunks@)
                        == even_copies(
                        transfer_id(old(self)@.remote_path),
                        n as nat,
                        old(self)@.chunk_size,
                    ) && final(self)@ == (PullView {
                        chunks: n,
                        phase: PullPhase::Copying,
                        ..old(self)@
                    })
                }
            }),
    {
        let n: usize = chunk_count(output);
        self.chunks = n;
        if n == 0 {
            self.phase = PullPhase::Whole;
            PullAction::CopyWhole
        } else {
            self.phase = PullPhase::Copying;
            PullAction::CopyChunks {
                chunks: list_even_copies(self.id.as_str(), n, self.chunk_size),
            }
        }
    }

    /// Takes the size of the file that was copied in one piece.
    pub fn whole_copied(&mut self, size: u64) -> (action: PullAction)
        requires
            old(self).wf(),
            old(self)@.phase is Whole,
        ensures
            final(self).wf(),
            action == (PullAction::Replace { moved: Some(size) }),
            final(self)@ == (PullView {
                phase: PullPhase::Replacing { chunked: false },
                ..old(self)@
            }),
    {
        self.phase = PullPhase::Replacing { chunked: false };
        PullAction::Replace { moved: Some(size) }
    }

    /// Takes the next chunk, as it was found.
    pub fn chunk_found(&mut self, block: &[u8]) -> (action: PullAction)
        requires
            old(self).wf(),
            old(self)@.phase is Reading,
        ensures
            final(self).wf(),
            if within_limits(block@) {
                match lz4_contents(block@) {
                    Some(_) => action matches PullAction::Append { data } && receives(
                        old(self)@,
                        block@,
                        data@,
                        final(self)@,
                    ),
                    None => action matches PullAction::Fail { error } && !(error is BeyondLimits)
                        && final(self)@ == (PullView { phase: PullPhase::Failed, ..old(self)@ }),
                }
            } else {
                action matches PullAction::Fail { error } && error is BeyondLimits && final(self)@
                    == (PullView { phase: PullPhase::Failed, ..old(self)@ })
            },
    {
        if can_decompress(block) {
            return self.chunk_read(block);
        }
        self.phase = PullPhase::Failed;
        PullAction::Fail { error: DecompressFailed::BeyondLimits }
    }

    /// Takes the next chunk, which can be decompressed here.
    pub fn chunk_read(&mut self, block: &[u8]) -> (action: PullAction)
        requires
            old(self).wf(),
            old(self)@.phase is Reading,
            decodable_here(block@),
        ensures
            final(self).wf(),
            match lz4_contents(block@) {
                Some(_) => action matches PullAction::Append { data } && receives(
                    old(self)@,
                    block@,
                    data@,
                    final(self)@,
                ),
                None => action matches PullAction::Fail { error } && !(error is BeyondLimits)
                    && final(self)@ == (PullView { phase: PullPhase::Failed, ..old(self)@ }),
            },
    {
        match decompress(block) {
            Ok(data) => {
                self.read = self.read + 1;
                self.phase = PullPhase::Appending;
                PullAction::Append { data }
            },
            Err(error) => {
                self.phase = PullPhase::Failed;
                PullAction::Fail { error }
            },
        }
    }

    /// Goes on after the last action succeeded.
    pub fn proceed(&mut self) -> (action: PullAction)
        requires
            old(self).wf(),
            old(self)@.phase is Copying || old(self)@.phase is Appending || old(self)@.phase
                is Replacing || old(self)@.phase is Over,
        ensures
            final(self).wf(),
            match old(self)@.phase {
                PullPhase::Replacing { chunked } => final(self)@ == (PullView {
                    phase: PullPhase::Over,
                    ..old(self)@
                }) && if chunked {
                    action matches PullAction::CleanUp { command } && command@ == "rm -rf '"@
                        + chunk_dir(transfer_id(old(self)@.remote_path)) + "'"@
                } else {
                    action is Done
                },
                PullPhase::Over => action is Done && final(self)@ == old(self)@,
                _ => if old(self)@.read < old(self)@.chunks {
                    action matches PullAction::Read { name } && name@ == chunk_name(
                        old(self)@.read as nat,
                    ) && final(self)@ == (PullView { phase: PullPhase::Reading, ..old(self)@ })
                } else {
                    action == (PullAction::Replace { moved: None }) && final(self)@ == (PullView {
                        phase: PullPhase::Replacing { chunked: true },
                        ..old(self)@
                    })
                },
            },
    {
        match self.phase {
            PullPhase::Replacing { chunked } => {
                self.phase = PullPhase::Over;
                if chunked {
                    PullAction::CleanUp { command: remove_chunk_dir_command(self.id.as_str()) }
                } else {
                    PullAction::Done
                }
            },
            PullPhase::Over => PullAction::Done,
            _ => {
                if self.read < self.chunks {
                    self.phase = PullPhase::Reading;
                    PullAction::Read { name: chunk_file_name(self.read) }
                } else {
                    self.phase = PullPhase::Replacing { chunked: true };
                    PullAction::Replace { moved: None }
                }
            },
        }
    }
}

/// The local side and the agent mean the same chunks: what the agent parted and announced is what
/// the local side copies, and what the local side copies is what the agent puts together.
pub proof fn lemma_chunks_are_understood(
    id: Seq<char>,
    n: usize,
    chunk_size: usize,
    sizes: Seq<u64>,
    i: int,
)
    requires
        0 <= i < n,
        sizes.len() == n,
    ensures
        announced_chunks(numeral(n as nat, 10).push('\n')) == n,
        even_copies(id, n as nat, chunk_size)[i].remote == chunk_path(id, i as nat),
        chunk_copies(id, sizes)[i].remote == chunk_path(id, i as nat),
{
    lemma_chunk_count_round_trip(n);
}

// ---------------------------------------------------------------------------------------------
// Whole transfers
// ---------------------------------------------------------------------------------------------

/// The files of a directory after `blocks` were written to `names`, one after the other.
pub open spec fn filed(names: Seq<Seq<char>>, blocks: Seq<Seq<u8>>) -> Map<Seq<char>, Seq<u8>>
    decreases names.len(),
{
    if names.len() == 0 {
        Map::empty()
    } else {
        filed(names.drop_last(), blocks.drop_last()).insert(names.last(), blocks.last())
    }
}

/// What is on the beam after chunks were copied there.
pub open spec fn copied_up(
    local: Map<Seq<char>, Seq<u8>>,
    copies: Seq<ChunkCopyView>,
) -> Map<Seq<char>, Seq<u8>> {
    filed(
        copies.map_values(|c: ChunkCopyView| c.remote),
        copies.map_values(|c: ChunkCopyView| local[c.name]),
    )
}

/// What is in the local directory after chunks were copied there.
pub open spec fn copied_down(
    beam: Map<Seq<char>, Seq<u8>>,
    copies: Seq<ChunkCopyView>,
) -> Map<Seq<char>, Seq<u8>> {
    filed(
        copies.map_values(|c: ChunkCopyView| c.name),
        copies.map_values(|c: ChunkCopyView| beam[c.remote]),
    )
}

/// What was written to different names is found there.
proof fn lemma_filed(names: Seq<Seq<char>>, blocks: Seq<Seq<u8>>, i: int)
    requires
        names.len() == blocks.len(),
        0 <= i < names.len(),
        forall|a: int, b: int| 0 <= a < b < names.len() ==> names[a] != names[b],
    ensures
        filed(names, blocks)[names[i]] == blocks[i],
    decreases names.len(),
{
    let fewer = names.drop_last();
    if i < fewer.len() {
        assert forall|a: int, b: int| 0 <= a < b < fewer.len() implies fewer[a] != fewer[b] by {
            assert(names[a] != names[b]);
        }
        lemma_filed(fewer, blocks.drop_last(), i);
        assert(names[i] != names[names.len() - 1]);
    }
}

/// Whether a push that reads its file in `pieces` goes through `states`, storing `blocks` under
/// `names`.
pub open spec fn push_run(
    states: Seq<PushView>,
    pieces: Seq<Seq<u8>>,
    names: Seq<Seq<char>>,
    blocks: Seq<Seq<u8>>,
) -> bool {
    &&& states.len() == pieces.len() + 1
    &&& names.len() == pieces.len()
    &&& blocks.len() == pieces.len()
    &&& states[0].sizes.len() == 0
    &&& forall|i: int|
        0 <= i < pieces.len() ==> {
            &&& 0 < (#[trigger] pieces[i]).len() <= u32::MAX
            &&& states[i + 1].phase is Reading
            &&& stores(
                states[i],
                pieces[i],
                names[i],
                blocks[i],
                PushView { phase: PushPhase::Storing, ..states[i + 1] },
            )
        }
}

/// Whether a reassembly that reads its chunks from `beam` goes through `states`, appending `outputs`
/// to the file.
pub open spec fn reassembly_run(
    states: Seq<ReassemblyView>,
    beam: Map<Seq<char>, Seq<u8>>,
    outputs: Seq<Seq<u8>>,
) -> bool {
    &&& states.len() == outputs.len() + 1
    &&& states[0].next == 0
    &&& states[0].chunks == outputs.len()
    &&& forall|i: int|
        0 <= i < outputs.len() ==> appends(
            states[i],
            beam[chunk_path(states[i].id, states[i].next as nat)],
            #[trigger] outputs[i],
            states[i + 1],
        )
}

proof fn lemma_push_run(
    states: Seq<PushView>,
    pieces: Seq<Seq<u8>>,
    names: Seq<Seq<char>>,
    blocks: Seq<Seq<u8>>,
    i: int,
)
    requires
        push_run(states, pieces, names, blocks),
        0 <= i <= pieces.len(),
    ensures
        states[i].sizes.len() == i,
        states[i].remote_path == states[0].remote_path,
        i < pieces.len() ==> names[i] == chunk_name(i as nat),
    decreases i,
{
    if i > 0 {
        lemma_push_run(states, pieces, names, blocks, i - 1);
        assert(0 < pieces[i - 1].len());
    }
    if i < pieces.len() {
        assert(0 < pieces[i].len());
    }
}

proof fn lemma_reassembly_run(
    states: Seq<ReassemblyView>,
    beam: Map<Seq<char>, Seq<u8>>,
    outputs: Seq<Seq<u8>>,
    i: int,
)
    requires
        reassembly_run(states, beam, outputs),
        0 <= i <= outputs.len(),
    ensures
        states[i].next == i,
        states[i].id == states[0].id,
        states[i].chunks == states[0].chunks,
    decreases i,
{
    if i > 0 {
        lemma_reassembly_run(states, beam, outputs, i - 1);
        assert(lz4_contents(
            beam[chunk_path(states[i - 1].id, states[i - 1].next as nat)],
        ) == Some(outputs[i - 1]));
    }
}

/// After a push in chunks the beam holds, under the number of each piece, a block that can be
/// decompressed and holds that piece.
pub proof fn lemma_pushed_chunks(
    states: Seq<PushView>,
    pieces: Seq<Seq<u8>>,
    names: Seq<Seq<char>>,
    blocks: Seq<Seq<u8>>,
    i: int,
)
    requires
        push_run(states, pieces, names, blocks),
        0 <= i < pieces.len(),
    ensures
        ({
            let id = transfer_id(states[0].remote_path);
            let beam = copied_up(filed(names, blocks), chunk_copies(id, states.last().sizes));
            &&& lz4_contents(beam[chunk_path(id, i as nat)]) == Some(pieces[i])
            &&& decodable_here(beam[chunk_path(id, i as nat)])
        }),
{
    let n = pieces.len() as int;
    let id = transfer_id(states[0].remote_path);
    let local = filed(names, blocks);
    let copies = chunk_copies(id, states.last().sizes);
    let remotes = copies.map_values(|c: ChunkCopyView| c.remote);
    let contents = copies.map_values(|c: ChunkCopyView| local[c.name]);
    lemma_push_run(states, pieces, names, blocks, n);
    lemma_push_run(states, pieces, names, blocks, i);
    assert forall|a: int, b: int| 0 <= a < b < names.len() implies names[a] != names[b] by {
        lemma_push_run(states, pieces, names, blocks, a);
        lemma_push_run(states, pieces, names, blocks, b);
        lemma_chunk_paths_distinct(id, a as nat, b as nat);
    }
    lemma_filed(names, blocks, i);
    assert forall|a: int, b: int| 0 <= a < b < remotes.len() implies remotes[a] != remotes[b] by {
        lemma_chunk_paths_distinct(id, a as nat, b as nat);
    }
    lemma_filed(remotes, contents, i);
    assert(remotes[i] == chunk_path(id, i as nat));
    assert(contents[i] == local[chunk_name(i as nat)]);
    assert(0 < pieces[i].len());
}

/// A file that is pushed in chunks arrives: where it was read in pieces of at most `u32::MAX` bytes,
/// and the chunks that the push stored were copied to where it said, what the agent appends from
/// them, one after the other, is the file, and no chunk is left over.
pub proof fn lemma_pushed_file_arrives(
    states: Seq<PushView>,
    pieces: Seq<Seq<u8>>,
    names: Seq<Seq<char>>,
    blocks: Seq<Seq<u8>>,
    agent: Seq<ReassemblyView>,
    outputs: Seq<Seq<u8>>,
)
    requires
        push_run(states, pieces, names, blocks),
        agent.len() > 0,
        agent[0].id == transfer_id(states[0].remote_path),
        agent[0].chunks == pieces.len(),
        reassembly_run(
            agent,
            copied_up(
                filed(names, blocks),
                chunk_copies(transfer_id(states[0].remote_path), states.last().sizes),
            ),
            outputs,
        ),
    ensures
        concatenated(outputs) == concatenated(pieces),
        agent.last().next == agent.last().chunks,
{
    let id = transfer_id(states[0].remote_path);
    let beam = copied_up(filed(names, blocks), chunk_copies(id, states.last().sizes));
    assert forall|i: int| 0 <= i < pieces.len() implies outputs[i] == pieces[i] by {
        lemma_pushed_chunks(states, pieces, names, blocks, i);
        lemma_reassembly_run(agent, beam, outputs, i);
        assert(appends(agent[i], beam[chunk_path(id, i as nat)], outputs[i], agent[i + 1]));
    }
    assert(outputs =~= pieces);
    lemma_reassembly_run(agent, beam, outputs, outputs.len() as int);
}

/// Whether a parting that reads its file in `pieces` goes through `states`, writing `blocks` to
/// `paths`.
pub open spec fn parting_run(
    states: Seq<PartingView>,
    pieces: Seq<Seq<u8>>,
    paths: Seq<Seq<char>>,
    blocks: Seq<Seq<u8>>,
) -> bool {
    &&& states.len() == pieces.len() + 1
    &&& paths.len() == pieces.len()
    &&& blocks.len() == pieces.len()
    &&& pieces.len() <= usize::MAX
    &&& states[0].count == 0
    &&& forall|i: int|
        0 <= i < pieces.len() ==> {
            &&& 0 < (#[trigger] pieces[i]).len() <= u32::MAX
            &&& parts(states[i], pieces[i], paths[i], blocks[i], states[i + 1])
        }
}

/// Whether a pull that reads its chunks from `local` goes through `states`, appending `outputs` to
/// the new contents.
pub open spec fn pull_run(
    states: Seq<PullView>,
    local: Map<Seq<char>, Seq<u8>>,
    outputs: Seq<Seq<u8>>,
) -> bool {
    &&& states.len() == outputs.len() + 1
    &&& states[0].read == 0
    &&& states[0].chunks == outputs.len()
    &&& forall|i: int|
        0 <= i < outputs.len() ==> {
            &&& states[i].phase is Reading
            &&& receives(
                states[i],
                local[chunk_name(states[i].read as nat)],
                #[trigger] outputs[i],
                PullView { phase: PullPhase::Appending, ..states[i + 1] },
            )
        }
}

proof fn lemma_parting_run(
    states: Seq<PartingView>,
    pieces: Seq<Seq<u8>>,
    paths: Seq<Seq<char>>,
    blocks: Seq<Seq<u8>>,
    i: int,
)
    requires
        parting_run(states, pieces, paths, blocks),
        0 <= i <= pieces.len(),
    ensures
        states[i].count == i,
        states[i].id == states[0].id,
        i < pieces.len() ==> paths[i] == chunk_path(states[0].id, i as nat),
    decreases i,
{
    if i > 0 {
        lemma_parting_run(states, pieces, paths, blocks, i - 1);
        assert(0 < pieces[i - 1].len());
    }
    if i < pieces.len() {
        assert(0 < pieces[i].len());
    }
}

proof fn lemma_pull_run(
    states: Seq<PullView>,
    local: Map<Seq<char>, Seq<u8>>,
    outputs: Seq<Seq<u8>>,
    i: int,
)
    requires
        pull_run(states, local, outputs),
        0 <= i <= outputs.len(),
    ensures
        states[i].read == i,
        states[i].chunks == states[0].chunks,
    decreases i,
{
    if i > 0 {
        lemma_pull_run(states, local, outputs, i - 1);
        assert(lz4_contents(local[chunk_name(states[i - 1].read as nat)]) == Some(outputs[i - 1]));
    }
}

/// After a pull has copied the chunks that the agent parted a file into, the local directory holds,
/// under the number of each piece, a block that can be decompressed and holds that piece.
pub proof fn lemma_pulled_chunks(
    agent: Seq<PartingView>,
    pieces: Seq<Seq<u8>>,
    paths: Seq<Seq<char>>,
    blocks: Seq<Seq<u8>>,
    chunk_size: usize,
    i: int,
)
    requires
        parting_run(agent, pieces, paths, blocks),
        0 <= i < pieces.len(),
    ensures
        ({
            let local = copied_down(
                filed(paths, blocks),
                even_copies(agent[0].id, agent.last().count as nat, chunk_size),
            );
            &&& lz4_contents(local[chunk_name(i as nat)]) == Some(pieces[i])
            &&& decodable_here(local[chunk_name(i as nat)])
        }),
{
    let n = pieces.len() as int;
    let id = agent[0].id;
    let beam = filed(paths, blocks);
    let copies = even_copies(id, agent.last().count as nat, chunk_size);
    let names = copies.map_values(|c: ChunkCopyView| c.name);
    let contents = copies.map_values(|c: ChunkCopyView| beam[c.remote]);
    lemma_parting_run(agent, pieces, paths, blocks, n);
    lemma_parting_run(agent, pieces, paths, blocks, i);
    assert forall|a: int, b: int| 0 <= a < b < paths.len() implies paths[a] != paths[b] by {
        lemma_parting_run(agent, pieces, paths, blocks, a);
        lemma_parting_run(agent, pieces, paths, blocks, b);
        lemma_chunk_paths_distinct(id, a as nat, b as nat);
    }
    lemma_filed(paths, blocks, i);
    assert forall|a: int, b: int| 0 <= a < b < names.len() implies names[a] != names[b] by {
        lemma_chunk_paths_distinct(id, a as nat, b as nat);
    }
    lemma_filed(names, contents, i);
    assert(names[i] == chunk_name(i as nat));
    assert(contents[i] == beam[chunk_path(id, i as nat)]);
    assert(0 < pieces[i].len());
}

/// A file that is pulled in chunks arrives: where the agent read it in pieces of at most `u32::MAX`
/// bytes, and the chunks that it wrote were copied to where the pull said, what the pull appends from
/// them, one after the other, is the file, and no chunk is left over.
pub proof fn lemma_pulled_file_arrives(
    agent: Seq<PartingView>,
    pieces: Seq<Seq<u8>>,
    paths: Seq<Seq<char>>,
    blocks: Seq<Seq<u8>>,
    states: Seq<PullView>,
    outputs: Seq<Seq<u8>>,
)
    requires
        parting_run(agent, pieces, paths, blocks),
        states.len() > 0,
        agent[0].id == transfer_id(states[0].remote_path),
        states[0].chunks == pieces.len(),
        pull_run(
            states,
            copied_down(
                filed(paths, blocks),
                even_copies(
                    transfer_id(states[0].remote_path),
                    states[0].chunks as nat,
                    states[0].chunk_size,
                ),
            ),
            outputs,
        ),
    ensures
        concatenated(outputs) == concatenated(pieces),
        states.last().read == states.last().chunks,
{
    let chunk_size = states[0].chunk_size;
    let copies = even_copies(agent[0].id, states[0].chunks as nat, chunk_size);
    let local = copied_down(filed(paths, blocks), copies);
    lemma_parting_run(agent, pieces, paths, blocks, pieces.len() as int);
    assert forall|i: int| 0 <= i < pieces.len() implies outputs[i] == pieces[i] by {
        lemma_pulled_chunks(agent, pieces, paths, blocks, chunk_size, i);
        lemma_pull_run(states, local, outputs, i);
        assert(lz4_contents(local[chunk_name(i as nat)]) == Some(outputs[i]));
    }
    assert(outputs =~= pieces);
    lemma_pull_run(states, local, outputs, outputs.len() as int);
}

/// There is one copy for each piece of the file, under its number, and together they stand for as
/// many bytes as were read.
pub proof fn lemma_copies_of_pieces(id: Seq<char>, sizes: Seq<u64>, i: int)
    requires
        0 <= i < sizes.len(),
    ensures
        chunk_copies(id, sizes).len() == sizes.len(),
        chunk_copies(id, sizes)[i].name == chunk_name(i as nat),
        chunk_copies(id, sizes)[i].remote == chunk_path(id, i as nat),
        chunk_copies(id, sizes)[i].bytes == sizes[i],
{
}

/// There is one copy for each chunk that the agent made, under its number, and each stands for the
/// size of a chunk.
pub proof fn lemma_copies_of_chunks(id: Seq<char>, chunks: nat, chunk_size: usize, i: int)
    requires
        0 <= i < chunks,
    ensures
        even_copies(id, chunks, chunk_size).len() == chunks,
        even_copies(id, chunks, chunk_size)[i].name == chunk_name(i as nat),
        even_copies(id, chunks, chunk_size)[i].remote == chunk_path(id, i as nat),
        even_copies(id, chunks, chunk_size)[i].bytes == chunk_size,
{
}

/// A file travels in one piece exactly where it is not larger than a chunk.
pub proof fn lemma_large_files_are_parted(size: u64, chunk_size: usize)
    ensures
        in_one_piece(size, chunk_size) <==> size <= chunk_size,
{
}

} // verus!
