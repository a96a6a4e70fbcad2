//! What the agent is asked to do on its command line.

use crate::compress::{
    can_decompress, compress, decodable_here, decompress, lz4_contents, within_limits,
    DecompressFailed, CHUNK_SIZE,
};
use crate::text::{
    lemma_usize_round_trip, numeral, numeral_text, opt_view, read_usize, usize_reading, usize_value,
    views, NumeralError,
};
use crate::transfer::{chunk_path, remote_chunk_path};
use vstd::prelude::*;

verus! {

/// The agent's command line.
pub struct AgentArgs {
    pub serve: bool,
    pub watch_dir: String,
    pub decompress: Option<String>,
    pub compress: Option<String>,
    pub decompress_chunks: Option<String>,
    pub chunk_size: Option<usize>,
    pub positional: Vec<String>,
}

/// What the agent is asked to do.
pub enum AgentMode {
    /// Decompress the file `input` to `output`, and remove it.
    Decompress { input: String, output: String },
    /// Put the file `output` together from the chunks of a transfer.
    Reassemble { output: String, chunks: usize, id: String },
    /// Part the file `input` into chunks of a transfer.
    Part { input: String, id: String, chunk_size: usize },
    /// Sync the directory.
    Serve { watch_dir: String },
}

/// What an [`AgentMode`] says.
#[verifier::ext_equal]
pub enum AgentModeView {
    Decompress { input: Seq<char>, output: Seq<char> },
    Reassemble { output: Seq<char>, chunks: usize, id: Seq<char> },
    Part { input: Seq<char>, id: Seq<char>, chunk_size: usize },
    Serve { watch_dir: Seq<char> },
}

impl View for AgentMode {
    type V = AgentModeView;

    open spec fn view(&self) -> AgentModeView {
        match *self {
            AgentMode::Decompress { input, output } => AgentModeView::Decompress {
                input: input@,
                output: output@,
            },
            AgentMode::Reassemble { output, chunks, id } => AgentModeView::Reassemble {
                output: output@,
                chunks,
                id: id@,
            },
            AgentMode::Part { input, id, chunk_size } => AgentModeView::Part {
                input: input@,
                id: id@,
                chunk_size,
            },
            AgentMode::Serve { watch_dir } => AgentModeView::Serve { watch_dir: watch_dir@ },
        }
    }
}

/// What is wrong with the agent's command line.
#[derive(Debug, Clone, Copy, PartialEq, Eq, Structural)]
pub enum UsageError {
    DecompressNeedsOutput,
    ReassembleNeedsMore,
    BadChunkCount(NumeralError),
    CompressNeedsId,
    NoMode,
}

impl UsageError {
    /// What to tell the user.
    pub open spec fn text(self) -> Seq<char> {
        match self {
            UsageError::DecompressNeedsOutput => "--decompress requires: <input> <output>"@,
            UsageError::ReassembleNeedsMore =>
                "--decompress-chunks requires: <output> <num_chunks> <file_id>"@,
            UsageError::BadChunkCount(e) => e.text(),
            UsageError::CompressNeedsId => "--compress requires: <file> <file_id>"@,
            UsageError::NoMode =>
                "agent must be run with --serve, --decompress, --compress, or --decompress-chunks"@,
        }
    }

    /// What to tell the user.
    pub fn message(&self) -> (s: &'static str)
        ensures
            s@ == self.text(),
    {
        match self {
            UsageError::DecompressNeedsOutput => "--decompress requires: <input> <output>",
            UsageError::ReassembleNeedsMore =>
                "--decompress-chunks requires: <output> <num_chunks> <file_id>",
            UsageError::BadChunkCount(e) => e.message(),
            UsageError::CompressNeedsId => "--compress requires: <file> <file_id>",
            UsageError::NoMode =>
                "agent must be run with --serve, --decompress, --compress, or --decompress-chunks",
        }
    }
}

/// What a command line asks for.
pub open spec fn mode_of(args: AgentArgs) -> Result<AgentModeView, UsageError> {
    let positional = views(args.positional@);
    if args.decompress is Some {
        if positional.len() < 1 {
            Err(UsageError::DecompressNeedsOutput)
        } else {
            Ok(AgentModeView::Decompress { input: args.decompress->0@, output: positional[0] })
        }
    } else if args.decompress_chunks is Some {
        if positional.len() < 2 {
            Err(UsageError::ReassembleNeedsMore)
        } else {
            match usize_reading(positional[0]) {
                Ok(chunks) => Ok(
                    AgentModeView::Reassemble {
                        output: args.decompress_chunks->0@,
                        chunks,
                        id: positional[1],
                    },
                ),
                Err(e) => Err(UsageError::BadChunkCount(e)),
            }
        }
    } else if args.compress is Some {
        if positional.len() < 1 {
            Err(UsageError::CompressNeedsId)
        } else {
            Ok(
                AgentModeView::Part {
                    input: args.compress->0@,
                    id: positional[0],
                    chunk_size: match args.chunk_size {
                        Some(n) => n,
                        None => CHUNK_SIZE,
                    },
                },
            )
        }
    } else if args.serve {
        Ok(AgentModeView::Serve { watch_dir: args.watch_dir@ })
    } else {
        Err(UsageError::NoMode)
    }
}

/// What a command line asks for.
pub fn agent_mode(args: AgentArgs) -> (r: Result<AgentMode, UsageError>)
    ensures
        match r {
            Ok(mode) => mode_of(args) == Ok::<AgentModeView, UsageError>(mode@),
            Err(e) => mode_of(args) == Err::<AgentModeView, UsageError>(e),
        },
{
    let positional = &args.positional;
    match &args.decompress {
        Some(input) => {
            if positional.len() < 1 {
                return Err(UsageError::DecompressNeedsOutput);
            }
            return Ok(
                AgentMode::Decompress { input: input.clone(), output: positional[0].clone() },
            );
        },
        None => {},
    }
    match &args.decompress_chunks {
        Some(output) => {
            if positional.len() < 2 {
                return Err(UsageError::ReassembleNeedsMore);
            }
            return match read_usize(positional[0].as_str()) {
                Ok(chunks) => Ok(
                    AgentMode::Reassemble {
                        output: output.clone(),
                        chunks,
                        id: positional[1].clone(),
                    },
                ),
                Err(e) => Err(UsageError::BadChunkCount(e)),
            };
        },
        None => {},
    }
    match &args.compress {
        Some(input) => {
            if positional.len() < 1 {
                return Err(UsageError::CompressNeedsId);
            }
            let chunk_size: usize = match args.chunk_size {
                Some(n) => n,
                None => CHUNK_SIZE,
            };
            return Ok(
                AgentMode::Part { input: input.clone(), id: positional[0].clone(), chunk_size },
            );
        },
        None => {},
    }
    if args.serve {
        Ok(AgentMode::Serve { watch_dir: args.watch_dir })
    } else {
        Err(UsageError::NoMode)
    }
}

/// The agent understands the command by which the local side has it put a file together: the
/// number of chunks that is written on the command line is the number that is read.
pub proof fn lemma_reassembly_is_understood(args: AgentArgs, path: String, chunks: usize)
    requires
        args.decompress is None,
        args.decompress_chunks == Some(path),
        args.positional@.len() == 2,
        args.positional@[0]@ == numeral(chunks as nat, 10),
    ensures
        mode_of(args) == Ok::<AgentModeView, UsageError>(
            AgentModeView::Reassemble { output: path@, chunks, id: args.positional@[1]@ },
        ),
{
    lemma_usize_round_trip(chunks);
    assert(views(args.positional@)[0] == args.positional@[0]@);
}

// ---------------------------------------------------------------------------------------------
// Parting and reassembling
// ---------------------------------------------------------------------------------------------

/// The parting of a file into chunks.
pub struct Parting {
    id: String,
    count: usize,
}

/// What a [`Parting`] remembers.
#[verifier::ext_equal]
pub struct PartingView {
    pub id: Seq<char>,
    /// How many chunks there are so far.
    pub count: usize,
}

impl View for Parting {
    type V = PartingView;

    closed spec fn view(&self) -> PartingView {
        PartingView { id: self.id@, count: self.count }
    }
}

/// Whether a parting that was given the piece `data` of the file writes `block` to `path` and goes on
/// as `after`.
pub open spec fn parts(
    before: PartingView,
    data: Seq<u8>,
    path: Seq<char>,
    block: Seq<u8>,
    after: PartingView,
) -> bool {
    &&& path == chunk_path(before.id, before.count as nat)
    &&& data.len() <= u32::MAX ==> lz4_contents(block) == Some(data)
    &&& after == (PartingView { count: (before.count + 1) as usize, ..before })
}

impl Parting {
    /// No chunk yet.
    pub fn new(id: String) -> (p: Parting)
        ensures
            p@ == (PartingView { id: id@, count: 0 }),
    {
        Parting { id, count: 0 }
    }

    /// Takes the next piece of the file, and tells where to write which chunk; `None` at the end
    /// of the file, which is the empty piece.
    pub fn piece_read(&mut self, data: &[u8]) -> (r: Option<(String, Vec<u8>)>)
        requires
            data@.len() * 110 <= usize::MAX,
            old(self)@.count < usize::MAX,
        ensures
            if data@.len() == 0 {
                r is None && final(self)@ == old(self)@
            } else {
                r matches Some((path, block)) && parts(
                    old(self)@,
                    data@,
                    path@,
                    block@,
                    final(self)@,
                )
            },
    {
        if data.len() == 0 {
            return None;
        }
        let path = remote_chunk_path(self.id.as_str(), self.count);
        let block = compress(data);
        self.count = self.count + 1;
        Some((path, block))
    }

    /// How many chunks there are, as the agent says it.
    pub fn announcement(&self) -> (text: String)
        ensures
            text@ == numeral(self@.count as nat, 10),
    {
        numeral_text(self.count as u128, 10)
    }
}

/// The putting together of a file from its chunks.
pub struct Reassembly {
    id: String,
    chunks: usize,
    next: usize,
}

/// What a [`Reassembly`] remembers.
#[verifier::ext_equal]
pub struct ReassemblyView {
    pub id: Seq<char>,
    /// How many chunks there are.
    pub chunks: usize,
    /// The number of the next chunk.
    pub next: usize,
}

impl View for Reassembly {
    type V = ReassemblyView;

    closed spec fn view(&self) -> ReassemblyView {
        ReassemblyView { id: self.id@, chunks: self.chunks, next: self.next }
    }
}

/// Whether a reassembly that was given `block` appends `data` to the file and goes on as `after`.
pub open spec fn appends(
    before: ReassemblyView,
    block: Seq<u8>,
    data: Seq<u8>,
    after: ReassemblyView,
) -> bool {
    &&& lz4_contents(block) == Some(data)
    &&& after == (ReassemblyView { next: (before.next + 1) as usize, ..before })
}

impl Reassembly {
    /// Nothing was read yet.
    pub fn new(id: String, chunks: usize) -> (r: Reassembly)
        ensures
            r@ == (ReassemblyView { id: id@, chunks, next: 0 }),
    {
        Reassembly { id, chunks, next: 0 }
    }

    /// The chunk to read next; `None` where all were read.
    pub fn next_chunk(&self) -> (path: Option<String>)
        ensures
            opt_view(path) == if self@.next < self@.chunks {
                Some(chunk_path(self@.id, self@.next as nat))
            } else {
                None
            },
    {
        if self.next < self.chunks {
            Some(remote_chunk_path(self.id.as_str(), self.next))
        } else {
            None
        }
    }

    /// Takes the next chunk, as it was found, and gives what to append to the file.
    pub fn chunk_found(&mut self, block: &[u8]) -> (r: Result<Vec<u8>, DecompressFailed>)
        requires
            old(self)@.next < old(self)@.chunks,
        ensures
            if within_limits(block@) && lz4_contents(block@) is Some {
                r matches Ok(data) && appends(old(self)@, block@, data@, final(self)@)
            } else {
                r matches Err(e) && (e is BeyondLimits <==> !within_limits(block@)) && final(self)@
                    == old(self)@
            },
    {
        if can_decompress(block) {
            self.chunk_read(block)
        } else {
            Err(DecompressFailed::BeyondLimits)
        }
    }

    /// Takes the next chunk, which can be decompressed here, and gives what to append to the file.
    pub fn chunk_read(&mut self, block: &[u8]) -> (r: Result<Vec<u8>, DecompressFailed>)
        requires
            old(self)@.next < old(self)@.chunks,
            decodable_here(block@),
        ensures
            match lz4_contents(block@) {
                Some(_) => r matches Ok(data) && appends(old(self)@, block@, data@, final(self)@),
                None => r matches Err(e) && !(e is BeyondLimits) && final(self)@ == old(self)@,
            },
    {
        match decompress(block) {
            Ok(data) => {
                self.next = self.next + 1;
                Ok(data)
            },
            Err(e) => Err(e),
        }
    }
}

/// What each command line asks for. Decompressing goes before reassembling, that before parting, and
/// that before serving; each takes what it works on from its own option and the rest from the
/// positional arguments, in their order.
pub proof fn lemma_modes(args: AgentArgs)
    ensures
        ({
            let given = args.positional@;
            let mode = mode_of(args);
            &&& args.decompress is Some && given.len() >= 1 ==> mode == Ok::<
                AgentModeView,
                UsageError,
            >(AgentModeView::Decompress { input: args.decompress->0@, output: given[0]@ })
            &&& args.decompress is Some && given.len() == 0 ==> mode == Err::<
                AgentModeView,
                UsageError,
            >(UsageError::DecompressNeedsOutput)
            &&& args.decompress is None && args.decompress_chunks is Some ==> {
                &&& given.len() < 2 ==> mode == Err::<AgentModeView, UsageError>(
                    UsageError::ReassembleNeedsMore,
                )
                &&& given.len() >= 2 && usize_value(given[0]@) is Some ==> mode == Ok::<
                    AgentModeView,
                    UsageError,
                >(
                    AgentModeView::Reassemble {
                        output: args.decompress_chunks->0@,
                        chunks: usize_value(given[0]@)->0,
                        id: given[1]@,
                    },
                )
                &&& given.len() >= 2 && usize_value(given[0]@) is None ==> mode is Err
                    && mode->Err_0 is BadChunkCount
            }
            &&& args.decompress is None && args.decompress_chunks is None && args.compress
                is Some ==> {
                &&& given.len() == 0 ==> mode == Err::<AgentModeView, UsageError>(
                    UsageError::CompressNeedsId,
                )
                &&& given.len() >= 1 ==> mode == Ok::<AgentModeView, UsageError>(
                    AgentModeView::Part {
                        input: args.compress->0@,
                        id: given[0]@,
                        chunk_size: if args.chunk_size is Some {
                            args.chunk_size->0
                        } else {
                            67_108_864
                        },
                    },
                )
            }
            &&& args.decompress is None && args.decompress_chunks is None && args.compress
                is None ==> {
                &&& args.serve ==> mode == Ok::<AgentModeView, UsageError>(
                    AgentModeView::Serve { watch_dir: args.watch_dir@ },
                )
                &&& !args.serve ==> mode == Err::<AgentModeView, UsageError>(UsageError::NoMode)
            }
        }),
{
    let given = views(args.positional@);
    assert(given.len() == args.positional@.len());
    if given.len() >= 1 {
        assert(given[0] == args.positional@[0]@);
    }
    if given.len() >= 2 {
        assert(given[1] == args.positional@[1]@);
    }
}

} // verus!
