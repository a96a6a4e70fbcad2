//! Transfers of whole files: batches, chunks, names and results.

use crate::hash::{hash_content, xxh3};
use crate::text::{
    begins_with, concat, concat3, join, join_text, lemma_numeral_injective, lemma_padded_value,
    lemma_split_join, lemma_trim_numeral_line,
    lemma_usize_round_trip, lemma_views_push, numeral, numeral_text, opt_view, padded, padded_text,
    parse_usize, split, trim, trim_text, usize_value, views,
};
use vstd::prelude::*;
use vstd::string::StringExecFns;

verus! {

/// Which way a file travels.
#[derive(Debug, Clone, Copy, PartialEq, Eq, Structural)]
pub enum Direction {
    Push,
    Pull,
}

/// What became of a transfer.
#[derive(Debug)]
pub struct TransferResult {
    pub path: String,
    pub direction: Direction,
    pub success: bool,
    pub error: Option<String>,
    pub bytes: u64,
    pub duration_ms: u64,
}

/// What a [`TransferResult`] says.
#[verifier::ext_equal]
pub struct TransferView {
    pub path: Seq<char>,
    pub direction: Direction,
    pub success: bool,
    pub error: Option<Seq<char>>,
    pub bytes: u64,
    pub duration_ms: u64,
}

impl View for TransferResult {
    type V = TransferView;

    open spec fn view(&self) -> TransferView {
        TransferView {
            path: self.path@,
            direction: self.direction,
            success: self.success,
            error: opt_view(self.error),
            bytes: self.bytes,
            duration_ms: self.duration_ms,
        }
    }
}

// ---------------------------------------------------------------------------------------------
// Batches
// ---------------------------------------------------------------------------------------------

/// How many bytes a batch holds, unless it is a single file.
pub const TAR_BATCH_SIZE: u64 = 256 * 1024 * 1024;

/// Files that travel together.
pub struct Batch {
    pub paths: Vec<String>,
    pub total_bytes: u64,
}

/// What a [`Batch`] holds.
#[verifier::ext_equal]
pub struct BatchView {
    pub paths: Seq<Seq<char>>,
    pub total_bytes: u64,
}

impl View for Batch {
    type V = BatchView;

    open spec fn view(&self) -> BatchView {
        BatchView { paths: views(self.paths@), total_bytes: self.total_bytes }
    }
}

/// The files, each with its size, in batches: a file joins the last batch where it fits, and
/// begins a new one where it does not.
pub open spec fn batches(files: Seq<(Seq<char>, u64)>) -> Seq<BatchView>
    decreases files.len(),
{
    if files.len() == 0 {
        Seq::empty()
    } else {
        let before = batches(files.drop_last());
        let (path, size) = files.last();
        if before.len() > 0 && before.last().total_bytes + size <= TAR_BATCH_SIZE {
            before.drop_last().push(
                BatchView {
                    paths: before.last().paths.push(path),
                    total_bytes: (before.last().total_bytes + size) as u64,
                },
            )
        } else {
            before.push(BatchView { paths: seq![path], total_bytes: size })
        }
    }
}

/// Each path with the size at the same place, as far as both go.
pub open spec fn zipped(paths: Seq<Seq<char>>, sizes: Seq<u64>) -> Seq<(Seq<char>, u64)> {
    let n = if paths.len() <= sizes.len() {
        paths.len()
    } else {
        sizes.len()
    };
    Seq::new(n, |i: int| (paths[i], sizes[i]))
}

/// Groups files into batches.
pub fn make_batches(paths: &Vec<String>, sizes: &Vec<u64>) -> (r: Vec<Batch>)
    ensures
        views(r@) == batches(zipped(views(paths@), sizes@)),
{
    let ghost files = zipped(views(paths@), sizes@);
    let mut done: Vec<Batch> = Vec::new();
    let mut current = Batch { paths: Vec::new(), total_bytes: 0 };
    let mut i: usize = 0;
    assert(views(done@) =~= batches(files.take(0)));
    while i < paths.len() && i < sizes.len()
        invariant
            i <= files.len(),
            i <= paths@.len(),
            i <= sizes@.len(),
            files == zipped(views(paths@), sizes@),
            current.paths@.len() == 0 ==> views(done@) == batches(files.take(i as int))
                && current.total_bytes == 0 && i == 0 && done@.len() == 0,
            current.paths@.len() > 0 ==> views(done@).push(current@) == batches(
                files.take(i as int),
            ),
        decreases paths@.len() - i,
    {
        let path = paths[i].clone();
        let size: u64 = sizes[i];
        let ghost before = batches(files.take(i as int));
        proof {
            assert(files.take(i + 1).drop_last() =~= files.take(i as int));
            assert(files.take(i + 1).last() == (path@, size));
        }
        if current.paths.len() > 0 && (current.total_bytes > TAR_BATCH_SIZE || size
            > TAR_BATCH_SIZE - current.total_bytes) {
            proof {
                lemma_views_push(done@, current);
            }
            done.push(current);
            current = Batch { paths: Vec::new(), total_bytes: 0 };
            assert(views(done@) == before);
        } else {
            assert(before =~= if current.paths@.len() > 0 {
                views(done@).push(current@)
            } else {
                views(done@)
            });
            assert(current.paths@.len() > 0 ==> before.drop_last() =~= views(done@));
        }
        let ghost held = current.paths@;
        current.total_bytes = current.total_bytes + size;
        current.paths.push(path);
        proof {
            lemma_views_push(held, path);
            assert(held.len() == 0 ==> views(current.paths@) =~= seq![path@]);
            assert(views(done@).push(current@) =~= batches(files.take(i + 1)));
        }
        i = i + 1;
    }
    assert(files.take(i as int) =~= files);
    if current.paths.len() > 0 {
        proof {
            lemma_views_push(done@, current);
        }
        done.push(current);
    }
    done
}

/// The number of bytes in these files.
pub open spec fn bytes_of(files: Seq<(Seq<char>, u64)>) -> nat
    decreases files.len(),
{
    if files.len() == 0 {
        0
    } else {
        bytes_of(files.drop_last()) + files.last().1 as nat
    }
}

/// Whether `b` holds exactly `files`: in order, with their number of bytes, and more than
/// `TAR_BATCH_SIZE` only where it is a single file.
pub open spec fn holds(b: BatchView, files: Seq<(Seq<char>, u64)>) -> bool {
    &&& files.len() > 0
    &&& b.paths == files.map_values(|f: (Seq<char>, u64)| f.0)
    &&& b.total_bytes == bytes_of(files)
    &&& b.total_bytes <= TAR_BATCH_SIZE || files.len() == 1
}

/// Whether the batches hold `files`, one after the other, without any left out.
pub open spec fn covers(bs: Seq<BatchView>, files: Seq<(Seq<char>, u64)>) -> bool
    decreases bs.len(),
{
    if bs.len() == 0 {
        files.len() == 0
    } else {
        let n = files.len() - bs.last().paths.len();
        &&& 0 <= n
        &&& holds(bs.last(), files.skip(n))
        &&& covers(bs.drop_last(), files.take(n))
    }
}

/// Batching loses, repeats and reorders no file, and no batch is empty or over the limit, except
/// for a single file that is.
pub proof fn lemma_batches_cover(files: Seq<(Seq<char>, u64)>)
    ensures
        covers(batches(files), files),
    decreases files.len(),
{
    if files.len() > 0 {
        let earlier = files.drop_last();
        let before = batches(earlier);
        let file = files.last();
        lemma_batches_cover(earlier);
        let name = |f: (Seq<char>, u64)| f.0;
        if before.len() > 0 && before.last().total_bytes + file.1 <= TAR_BATCH_SIZE {
            let n = earlier.len() - before.last().paths.len();
            let part = earlier.skip(n);
            let bs = batches(files);
            assert(bs.drop_last() =~= before.drop_last());
            assert(files.skip(n) =~= part.push(file));
            assert(part.push(file).map_values(name) =~= part.map_values(name).push(file.0));
            assert(part.push(file).drop_last() =~= part);
            assert(files.take(n) =~= earlier.take(n));
            assert(bs.last().paths.len() == part.len() + 1);
        } else {
            let bs = batches(files);
            let n = files.len() - 1;
            assert(bs.drop_last() =~= before);
            assert(files.skip(n) =~= seq![file]);
            assert(seq![file].map_values(name) =~= seq![file.0]);
            assert(seq![file].drop_last() =~= Seq::<(Seq<char>, u64)>::empty());
            assert(bytes_of(seq![file]) == file.1) by {
                reveal_with_fuel(bytes_of, 2);
            }
            assert(files.take(n) =~= earlier);
        }
    }
}

// ---------------------------------------------------------------------------------------------
// Results
// ---------------------------------------------------------------------------------------------

/// What became of the transfer of one file that took part in a session.
pub fn transfer_result(
    path: String,
    direction: Direction,
    outcome: Result<(), String>,
    bytes: u64,
    duration_ms: u64,
) -> (r: TransferResult)
    ensures
        r@ == (TransferView {
            path: path@,
            direction,
            success: outcome is Ok,
            error: match outcome {
                Ok(_) => None,
                Err(e) => Some(e@),
            },
            bytes,
            duration_ms,
        }),
{
    match outcome {
        Ok(_) => TransferResult { path, direction, success: true, error: None, bytes, duration_ms },
        Err(e) => TransferResult {
            path,
            direction,
            success: false,
            error: Some(e),
            bytes,
            duration_ms,
        },
    }
}

/// What became of the file `path` of a batch.
pub open spec fn batched_result(
    path: Seq<char>,
    direction: Direction,
    error: Option<Seq<char>>,
    duration_ms: u64,
) -> TransferView {
    TransferView { path, direction, success: error is None, error, bytes: 0, duration_ms }
}

/// What became of the files of a batch: the same for all of them.
pub fn batch_results(
    paths: Vec<String>,
    direction: Direction,
    error: Option<String>,
    duration_ms: u64,
) -> (r: Vec<TransferResult>)
    ensures
        views(r@) == views(paths@).map_values(
            |p: Seq<char>| batched_result(p, direction, opt_view(error), duration_ms),
        ),
{
    let ghost all = views(paths@).map_values(
        |p: Seq<char>| batched_result(p, direction, opt_view(error), duration_ms),
    );
    let mut r: Vec<TransferResult> = Vec::new();
    let mut i: usize = 0;
    while i < paths.len()
        invariant
            i <= paths@.len(),
            all == views(paths@).map_values(
                |p: Seq<char>| batched_result(p, direction, opt_view(error), duration_ms),
            ),
            views(r@) == all.take(i as int),
        decreases paths@.len() - i,
    {
        let (success, text) = match &error {
            Some(e) => (false, Some(e.clone())),
            None => (true, None),
        };
        let result = TransferResult {
            path: paths[i].clone(),
            direction,
            success,
            error: text,
            bytes: 0,
            duration_ms,
        };
        proof {
            lemma_views_push(r@, result);
            assert(result@ =~= all[i as int]);
            assert(all.take(i + 1) =~= all.take(i as int).push(result@));
        }
        r.push(result);
        i = i + 1;
    }
    assert(all.take(i as int) =~= all);
    r
}

// ---------------------------------------------------------------------------------------------
// Names
// ---------------------------------------------------------------------------------------------

/// Where the file `path` of the synced directory lies on the beam.
pub open spec fn beam_path(remote_dir: Seq<char>, path: Seq<char>) -> Seq<char> {
    remote_dir + "/"@ + path
}

/// Where the file `path` of the synced directory lies on the beam.
pub fn remote_path(remote_dir: &str, path: &str) -> (r: String)
    ensures
        r@ == beam_path(remote_dir@, path@),
{
    concat3(remote_dir, "/", path)
}

/// The name by which the transfer of the file at `path` goes: the hash of the path.
pub open spec fn transfer_id(path: Seq<char>) -> Seq<char> {
    numeral(xxh3(vstd::utf8::encode_utf8(path)) as nat, 16)
}

/// The name by which the transfer of the file at `path` goes.
pub fn file_id(path: &str) -> (id: String)
    ensures
        id@ == transfer_id(path@),
{
    let hash: u64 = hash_content(path.as_bytes());
    numeral_text(hash as u128, 16)
}

/// The name of the chunk number `i`.
pub open spec fn chunk_name(i: nat) -> Seq<char> {
    "chunk-"@ + padded(i, 4)
}

/// The name of the chunk number `i`.
pub fn chunk_file_name(i: usize) -> (name: String)
    ensures
        name@ == chunk_name(i as nat),
{
    concat("chunk-", padded_text(i, 4).as_str())
}

/// The directory on the beam for the chunks of the transfer `id`.
pub open spec fn chunk_dir(id: Seq<char>) -> Seq<char> {
    "/tmp/beamup-xfer/"@ + id
}

/// The directory on the beam for the chunks of the transfer `id`.
pub fn remote_chunk_dir(id: &str) -> (dir: String)
    ensures
        dir@ == chunk_dir(id@),
{
    concat("/tmp/beamup-xfer/", id)
}

/// The chunk number `i` of the transfer `id` on the beam.
pub open spec fn chunk_path(id: Seq<char>, i: nat) -> Seq<char> {
    chunk_dir(id) + "/"@ + chunk_name(i)
}

/// The chunk number `i` of the transfer `id` on the beam.
pub fn remote_chunk_path(id: &str, i: usize) -> (path: String)
    ensures
        path@ == chunk_path(id@, i as nat),
{
    concat3(remote_chunk_dir(id).as_str(), "/", chunk_file_name(i).as_str())
}

/// The local directory, below that for temporary files, for the chunks of the transfer `id`.
pub open spec fn staging_name(direction: Direction, id: Seq<char>) -> Seq<char> {
    match direction {
        Direction::Push => "beamup-push-"@ + id,
        Direction::Pull => "beamup-pull-"@ + id,
    }
}

/// The local directory, below that for temporary files, for the chunks of the transfer `id`.
pub fn staging_dir_name(direction: Direction, id: &str) -> (name: String)
    ensures
        name@ == staging_name(direction, id@),
{
    match direction {
        Direction::Push => concat("beamup-push-", id),
        Direction::Pull => concat("beamup-pull-", id),
    }
}

/// The shell command that makes the directory for the chunks of the transfer `id`.
pub fn make_chunk_dir_command(id: &str) -> (command: String)
    ensures
        command@ == "mkdir -p '"@ + chunk_dir(id@) + "'"@,
{
    concat3("mkdir -p '", remote_chunk_dir(id).as_str(), "'")
}

/// The shell command that removes the directory for the chunks of the transfer `id`.
pub fn remove_chunk_dir_command(id: &str) -> (command: String)
    ensures
        command@ == "rm -rf '"@ + chunk_dir(id@) + "'"@,
{
    concat3("rm -rf '", remote_chunk_dir(id).as_str(), "'")
}

/// The command that makes the agent put the file at `path` together from its chunks.
pub open spec fn reassembly(path: Seq<char>, chunks: nat, id: Seq<char>) -> Seq<Seq<char>> {
    seq!["/tmp/beamup-agent"@, "--decompress-chunks"@, path, numeral(chunks, 10), id]
}

/// The command that makes the agent put the file at `path` together from its chunks.
pub fn reassembly_command(path: &str, chunks: usize, id: &str) -> (command: Vec<String>)
    ensures
        views(command@) == reassembly(path@, chunks as nat, id@),
{
    let mut command: Vec<String> = Vec::new();
    command.push(String::from_str("/tmp/beamup-agent"));
    command.push(String::from_str("--decompress-chunks"));
    command.push(String::from_str(path));
    command.push(numeral_text(chunks as u128, 10));
    command.push(String::from_str(id));
    assert(views(command@) =~= reassembly(path@, chunks as nat, id@));
    command
}

/// The command that makes the agent part the file at `path` into chunks.
pub open spec fn parting(path: Seq<char>, id: Seq<char>, chunk_size: nat) -> Seq<Seq<char>> {
    seq![
        "/tmp/beamup-agent"@,
        "--compress"@,
        path,
        id,
        "--chunk-size"@,
        numeral(chunk_size, 10),
    ]
}

/// The command that makes the agent part the file at `path` into chunks.
pub fn parting_command(path: &str, id: &str, chunk_size: usize) -> (command: Vec<String>)
    ensures
        views(command@) == parting(path@, id@, chunk_size as nat),
{
    let mut command: Vec<String> = Vec::new();
    command.push(String::from_str("/tmp/beamup-agent"));
    command.push(String::from_str("--compress"));
    command.push(String::from_str(path));
    command.push(String::from_str(id));
    command.push(String::from_str("--chunk-size"));
    command.push(numeral_text(chunk_size as u128, 10));
    assert(views(command@) =~= parting(path@, id@, chunk_size as nat));
    command
}

/// How many chunks the agent says it made. Where it says anything else, there are none.
pub open spec fn announced_chunks(output: Seq<char>) -> usize {
    match usize_value(trim(output)) {
        Some(n) => n,
        None => 0,
    }
}

/// How many chunks the agent says it made.
pub fn chunk_count(output: &str) -> (n: usize)
    ensures
        n == announced_chunks(output@),
{
    match parse_usize(trim_text(output).as_str()) {
        Some(n) => n,
        None => 0,
    }
}

/// The local side reads the number of chunks that the agent writes.
pub proof fn lemma_chunk_count_round_trip(n: usize)
    ensures
        announced_chunks(numeral(n as nat, 10).push('\n')) == n,
{
    lemma_trim_numeral_line(n as nat);
    lemma_usize_round_trip(n);
}

/// No two chunks of a transfer share a file.
pub proof fn lemma_chunk_paths_distinct(id: Seq<char>, i: nat, j: nat)
    requires
        i != j,
    ensures
        chunk_name(i) != chunk_name(j),
        chunk_path(id, i) != chunk_path(id, j),
{
    lemma_padded_value(i, 4);
    lemma_padded_value(j, 4);
    if chunk_name(i) == chunk_name(j) {
        let head = "chunk-"@;
        assert(chunk_name(i).skip(head.len() as int) =~= padded(i, 4));
        assert(chunk_name(j).skip(head.len() as int) =~= padded(j, 4));
    }
    if chunk_path(id, i) == chunk_path(id, j) {
        let head = chunk_dir(id) + "/"@;
        assert(chunk_path(id, i).skip(head.len() as int) =~= chunk_name(i));
        assert(chunk_path(id, j).skip(head.len() as int) =~= chunk_name(j));
    }
}

// ---------------------------------------------------------------------------------------------
// Archives
// ---------------------------------------------------------------------------------------------

/// What became of one file that was to go into an archive.
#[derive(Debug, Clone, Copy, PartialEq, Eq, Structural)]
pub enum Fate {
    /// It is not there.
    Missing,
    /// It could not be opened.
    Unreadable,
    /// It went in.
    Archived,
    /// It could not be added.
    Refused,
    /// The other end of the pipe is gone.
    PipeBroke,
}

/// What has gone into an archive so far.
#[derive(Debug, Clone, Copy, PartialEq, Eq, Structural)]
pub struct ArchiveTally {
    pub bytes_written: u64,
    pub skipped: usize,
}

impl ArchiveTally {
    /// Nothing yet.
    pub fn new() -> (t: ArchiveTally)
        ensures
            t == (ArchiveTally { bytes_written: 0, skipped: 0 }),
    {
        ArchiveTally { bytes_written: 0, skipped: 0 }
    }

    /// The bytes that count for a file: its length, where it is there and its length is known.
    pub open spec fn counted(len: Option<u64>, fate: Fate) -> u64 {
        match len {
            Some(n) => if fate is Missing {
                0
            } else {
                n
            },
            None => 0,
        }
    }

    /// Counts one file, and tells whether to go on.
    pub fn note(&mut self, len: Option<u64>, fate: Fate) -> (go_on: bool)
        requires
            old(self).bytes_written + Self::counted(len, fate) <= u64::MAX,
            old(self).skipped < usize::MAX,
        ensures
            go_on == !(fate is PipeBroke),
            final(self).bytes_written == old(self).bytes_written + Self::counted(len, fate),
            final(self).skipped == old(self).skipped + if fate is Missing || fate is Unreadable
                || fate is Refused {
                1int
            } else {
                0int
            },
    {
        match len {
            Some(n) => match fate {
                Fate::Missing => {},
                _ => {
                    self.bytes_written = self.bytes_written + n;
                },
            },
            None => {},
        }
        match fate {
            Fate::Missing | Fate::Unreadable | Fate::Refused => {
                self.skipped = self.skipped + 1;
            },
            _ => {},
        }
        match fate {
            Fate::PipeBroke => false,
            _ => true,
        }
    }

    /// Why a push ended when the pipe broke.
    pub fn pipe_error(&self, stderr: &str) -> (text: String)
        ensures
            text@ == "tar pipe broke ("@ + numeral(self.skipped as nat, 10) + " skipped): "@
                + stderr@,
    {
        let mut text = concat3(
            "tar pipe broke (",
            numeral_text(self.skipped as u128, 10).as_str(),
            " skipped): ",
        );
        text.append(stderr);
        text
    }

    /// What a push comes to, once the remote end has finished.
    pub fn finish(&self, success: bool, stderr: &str) -> (r: Result<u64, String>)
        ensures
            match r {
                Ok(bytes) => success && bytes == self.bytes_written,
                Err(text) => !success && text@ == "tar push exec failed: "@ + stderr@,
            },
    {
        if success {
            Ok(self.bytes_written)
        } else {
            Err(concat("tar push exec failed: ", stderr))
        }
    }
}

/// The list of files that a pull hands to the remote end: one path per line.
pub fn file_list(paths: &Vec<String>) -> (text: String)
    ensures
        text@ == join(views(paths@), "\n"@) + "\n"@,
{
    concat(join_text(paths, "\n").as_str(), "\n")
}

/// What a pull comes to, once the remote end has finished after `received` bytes. Where it failed
/// but sent something, some files may have been missing, and the others count.
pub fn pull_outcome(success: bool, received: u64, stderr: &str) -> (r: Result<u64, String>)
    ensures
        match r {
            Ok(bytes) => (success || received > 0) && bytes == received,
            Err(text) => !success && received == 0 && text@ == "tar pull exec failed: "@ + stderr@,
        },
{
    if !success && received == 0 {
        Err(concat("tar pull exec failed: ", stderr))
    } else {
        Ok(received)
    }
}

/// The command that unpacks an archive in the synced directory of the beam.
pub fn unpack_command(beam_id: &str, remote_dir: &str) -> (args: Vec<String>)
    ensures
        views(args@) == seq![
            "beams"@,
            "exec"@,
            beam_id@,
            "--"@,
            "tar"@,
            "xf"@,
            "-"@,
            "-C"@,
            remote_dir@,
        ],
{
    let mut args: Vec<String> = Vec::new();
    args.push(String::from_str("beams"));
    args.push(String::from_str("exec"));
    args.push(String::from_str(beam_id));
    args.push(String::from_str("--"));
    args.push(String::from_str("tar"));
    args.push(String::from_str("xf"));
    args.push(String::from_str("-"));
    args.push(String::from_str("-C"));
    args.push(String::from_str(remote_dir));
    assert(views(args@) =~= seq![
        "beams"@,
        "exec"@,
        beam_id@,
        "--"@,
        "tar"@,
        "xf"@,
        "-"@,
        "-C"@,
        remote_dir@,
    ]);
    args
}

/// The command that packs the files listed on its input from the synced directory of the beam.
pub fn pack_command(beam_id: &str, remote_dir: &str) -> (args: Vec<String>)
    ensures
        views(args@) == seq![
            "beams"@,
            "exec"@,
            beam_id@,
            "--"@,
            "tar"@,
            "cf"@,
            "-"@,
            "-C"@,
            remote_dir@,
            "-T"@,
            "-"@,
        ],
{
    let mut args: Vec<String> = Vec::new();
    args.push(String::from_str("beams"));
    args.push(String::from_str("exec"));
    args.push(String::from_str(beam_id));
    args.push(String::from_str("--"));
    args.push(String::from_str("tar"));
    args.push(String::from_str("cf"));
    args.push(String::from_str("-"));
    args.push(String::from_str("-C"));
    args.push(String::from_str(remote_dir));
    args.push(String::from_str("-T"));
    args.push(String::from_str("-"));
    assert(views(args@) =~= seq![
        "beams"@,
        "exec"@,
        beam_id@,
        "--"@,
        "tar"@,
        "cf"@,
        "-"@,
        "-C"@,
        remote_dir@,
        "-T"@,
        "-"@,
    ]);
    args
}

/// The paths of all batches, one after the other.
pub open spec fn batched_paths(bs: Seq<BatchView>) -> Seq<Seq<char>>
    decreases bs.len(),
{
    if bs.len() == 0 {
        Seq::empty()
    } else {
        batched_paths(bs.drop_last()) + bs.last().paths
    }
}

/// The bytes of all batches together.
pub open spec fn batched_total(bs: Seq<BatchView>) -> nat
    decreases bs.len(),
{
    if bs.len() == 0 {
        0
    } else {
        batched_total(bs.drop_last()) + bs.last().total_bytes as nat
    }
}

/// The sum of sizes.
pub open spec fn sum_of(sizes: Seq<u64>) -> nat
    decreases sizes.len(),
{
    if sizes.len() == 0 {
        0
    } else {
        sum_of(sizes.drop_last()) + sizes.last() as nat
    }
}

proof fn lemma_covered(bs: Seq<BatchView>, files: Seq<(Seq<char>, u64)>)
    requires
        covers(bs, files),
    ensures
        batched_paths(bs) == files.map_values(|f: (Seq<char>, u64)| f.0),
        batched_total(bs) == bytes_of(files),
        forall|i: int|
            0 <= i < bs.len() ==> (#[trigger] bs[i]).paths.len() > 0 && (bs[i].total_bytes
                <= TAR_BATCH_SIZE || bs[i].paths.len() == 1),
    decreases bs.len(),
{
    let name = |f: (Seq<char>, u64)| f.0;
    if bs.len() == 0 {
        assert(batched_paths(bs) =~= files.map_values(name));
    } else {
        let n = files.len() - bs.last().paths.len();
        lemma_covered(bs.drop_last(), files.take(n));
        assert(files.take(n) + files.skip(n) =~= files);
        lemma_bytes_append(files.take(n), files.skip(n));
        assert(batched_paths(bs) =~= files.map_values(name));
        assert(bs.last().paths.len() == files.skip(n).len());
        assert forall|i: int| 0 <= i < bs.len() implies (#[trigger] bs[i]).paths.len() > 0 && (
        bs[i].total_bytes <= TAR_BATCH_SIZE || bs[i].paths.len() == 1) by {
            if i < bs.len() - 1 {
                assert(bs[i] == bs.drop_last()[i]);
            }
        }
    }
}

proof fn lemma_bytes_append(a: Seq<(Seq<char>, u64)>, b: Seq<(Seq<char>, u64)>)
    ensures
        bytes_of(a + b) == bytes_of(a) + bytes_of(b),
    decreases b.len(),
{
    if b.len() == 0 {
        assert(a + b =~= a);
    } else {
        lemma_bytes_append(a, b.drop_last());
        assert((a + b).drop_last() =~= a + b.drop_last());
    }
}

proof fn lemma_zipped_bytes(paths: Seq<Seq<char>>, sizes: Seq<u64>)
    requires
        paths.len() == sizes.len(),
    ensures
        bytes_of(zipped(paths, sizes)) == sum_of(sizes),
    decreases sizes.len(),
{
    if sizes.len() > 0 {
        lemma_zipped_bytes(paths.drop_last(), sizes.drop_last());
        assert(zipped(paths, sizes).drop_last() =~= zipped(paths.drop_last(), sizes.drop_last()));
    }
}

/// Whatever is given to be moved is moved: the batches hold the given paths, each once and in their
/// order, and as many bytes as were given. No batch is empty, and none holds more than
/// `TAR_BATCH_SIZE` bytes unless it is a single file.
pub proof fn lemma_batches_hold_everything(paths: Seq<Seq<char>>, sizes: Seq<u64>)
    requires
        paths.len() == sizes.len(),
    ensures
        batched_paths(batches(zipped(paths, sizes))) == paths,
        batched_total(batches(zipped(paths, sizes))) == sum_of(sizes),
        forall|i: int|
            0 <= i < batches(zipped(paths, sizes)).len() ==> (#[trigger] batches(
                zipped(paths, sizes),
            )[i]).paths.len() > 0 && (batches(zipped(paths, sizes))[i].total_bytes
                <= 268_435_456 || batches(zipped(paths, sizes))[i].paths.len() == 1),
{
    let files = zipped(paths, sizes);
    lemma_batches_cover(files);
    lemma_covered(batches(files), files);
    lemma_zipped_bytes(paths, sizes);
    assert(files.map_values(|f: (Seq<char>, u64)| f.0) =~= paths);
}

/// Where the two lists differ in length, what is moved is what both have.
pub proof fn lemma_batches_hold_what_both_have(paths: Seq<Seq<char>>, sizes: Seq<u64>, n: int)
    requires
        0 <= n <= paths.len(),
        n <= sizes.len(),
        n == paths.len() || n == sizes.len(),
    ensures
        batched_paths(batches(zipped(paths, sizes))) == paths.take(n),
        batched_total(batches(zipped(paths, sizes))) == sum_of(sizes.take(n)),
{
    lemma_batches_hold_everything(paths.take(n), sizes.take(n));
    assert(zipped(paths, sizes) =~= zipped(paths.take(n), sizes.take(n)));
}

proof fn lemma_paths_count(bs: Seq<BatchView>, b: BatchView)
    ensures
        batched_paths(bs.push(b)) == batched_paths(bs) + b.paths,
{
    assert(bs.push(b).drop_last() =~= bs);
}

/// Files travel together as far as they fit: a batch ends only where the next file would make it
/// too large.
pub proof fn lemma_batches_are_full(paths: Seq<Seq<char>>, sizes: Seq<u64>, i: int)
    requires
        paths.len() == sizes.len(),
        0 <= i < batches(zipped(paths, sizes)).len() - 1,
    ensures
        ({
            let bs = batches(zipped(paths, sizes));
            let next = batched_paths(bs.take(i + 1)).len() as int;
            &&& 0 <= next < sizes.len()
            &&& bs[i].total_bytes + sizes[next] > 268_435_456
        }),
    decreases paths.len(),
{
    let files = zipped(paths, sizes);
    let bs = batches(files);
    let before = batches(files.drop_last());
    let fewer = paths.drop_last();
    let rest = sizes.drop_last();
    assert(files.drop_last() =~= zipped(fewer, rest));
    let file = files.last();
    lemma_batches_hold_everything(fewer, rest);
    if before.len() > 0 && before.last().total_bytes + file.1 <= TAR_BATCH_SIZE {
        assert(bs.drop_last() =~= before.drop_last());
        lemma_batches_are_full(fewer, rest, i);
        assert(bs.take(i + 1) =~= before.take(i + 1));
        assert(bs[i] == before[i]);
    } else {
        assert(bs.drop_last() =~= before);
        assert(bs.take(i + 1) =~= before.take(i + 1));
        assert(bs[i] == before[i]);
        if i < before.len() - 1 {
            lemma_batches_are_full(fewer, rest, i);
        } else {
            assert(before.take(i + 1) =~= before);
        }
    }
}

/// What a batch comes to is what each of its files comes to: a file has succeeded if and only if
/// there was no error, and carries the error where there was one.
pub proof fn lemma_batch_shares_its_fate(
    paths: Seq<Seq<char>>,
    direction: Direction,
    error: Option<Seq<char>>,
    duration_ms: u64,
    i: int,
)
    requires
        0 <= i < paths.len(),
    ensures
        ({
            let results = paths.map_values(
                |p: Seq<char>| batched_result(p, direction, error, duration_ms),
            );
            &&& results.len() == paths.len()
            &&& results[i].path == paths[i]
            &&& results[i].direction == direction
            &&& results[i].success <==> error is None
            &&& results[i].error == error
            &&& results[i].bytes == 0
            &&& results[i].duration_ms == duration_ms
        }),
{
}

/// A file of the synced directory lies on the beam below the synced directory there, under the same
/// path, and no two files share a place.
pub proof fn lemma_beam_paths(remote_dir: Seq<char>, path: Seq<char>, other: Seq<char>)
    ensures
        beam_path(remote_dir, path) == remote_dir.push('/') + path,
        beam_path(remote_dir, path) == beam_path(remote_dir, other) ==> path == other,
{
    reveal_strlit("/");
    assert(beam_path(remote_dir, path) =~= remote_dir.push('/') + path);
    assert(beam_path(remote_dir, other) =~= remote_dir.push('/') + other);
    let k = remote_dir.len() + 1;
    assert((remote_dir.push('/') + path).skip(k as int) =~= path);
    assert((remote_dir.push('/') + other).skip(k as int) =~= other);
}

/// Transfers of files whose paths have different hashes go by different names, and share no chunk,
/// neither on the beam nor here, where those that are pushed lie apart from those that are pulled.
pub proof fn lemma_transfers_lie_apart(path: Seq<char>, other: Seq<char>)
    requires
        xxh3(vstd::utf8::encode_utf8(path)) != xxh3(vstd::utf8::encode_utf8(other)),
    ensures
        transfer_id(path) != transfer_id(other),
        chunk_dir(transfer_id(path)) != chunk_dir(transfer_id(other)),
        staging_name(Direction::Push, transfer_id(path)) != staging_name(
            Direction::Push,
            transfer_id(other),
        ),
        staging_name(Direction::Pull, transfer_id(path)) != staging_name(
            Direction::Pull,
            transfer_id(other),
        ),
        staging_name(Direction::Push, transfer_id(path)) != staging_name(
            Direction::Pull,
            transfer_id(other),
        ),
{
    let a = transfer_id(path);
    let b = transfer_id(other);
    if a == b {
        lemma_numeral_injective(
            xxh3(vstd::utf8::encode_utf8(path)) as nat,
            xxh3(vstd::utf8::encode_utf8(other)) as nat,
            16,
        );
    }
    let root = "/tmp/beamup-xfer/"@;
    assert((root + a).skip(root.len() as int) =~= a);
    assert((root + b).skip(root.len() as int) =~= b);
    let push = "beamup-push-"@;
    let pull = "beamup-pull-"@;
    reveal_strlit("beamup-push-");
    reveal_strlit("beamup-pull-");
    assert((push + a).skip(push.len() as int) =~= a);
    assert((push + b).skip(push.len() as int) =~= b);
    assert((pull + a).skip(pull.len() as int) =~= a);
    assert((pull + b).skip(pull.len() as int) =~= b);
    assert((push + a)[9] == push[9] && (pull + b)[9] == pull[9]);
}

/// A chunk lies in the directory of its transfer.
pub proof fn lemma_chunks_lie_in_their_directory(id: Seq<char>, i: nat)
    ensures
        begins_with(chunk_path(id, i), chunk_dir(id).push('/')),
        chunk_path(id, i).skip(chunk_dir(id).len() as int + 1) == chunk_name(i),
        begins_with(chunk_dir(id), "/tmp/beamup-xfer/"@),
        chunk_dir(id).skip("/tmp/beamup-xfer/"@.len() as int) == id,
{
    reveal_strlit("/");
    let dir = chunk_dir(id);
    assert(chunk_path(id, i) =~= dir.push('/') + chunk_name(i));
    assert(chunk_path(id, i).take(dir.len() as int + 1) =~= dir.push('/'));
    assert(chunk_path(id, i).skip(dir.len() as int + 1) =~= chunk_name(i));
    assert(dir.take("/tmp/beamup-xfer/"@.len() as int) =~= "/tmp/beamup-xfer/"@);
    assert(dir.skip("/tmp/beamup-xfer/"@.len() as int) =~= id);
}

/// What the agent says counts by the number in it: white space around it does not matter, and where
/// there is no number there are no chunks.
pub proof fn lemma_announced_by_number(output: Seq<char>, n: usize)
    ensures
        usize_value(trim(output)) == Some(n) ==> announced_chunks(output) == n,
        usize_value(trim(output)) is None ==> announced_chunks(output) == 0,
{
}

/// The list of files that a pull hands over names them all, in order, and can be taken apart again.
pub proof fn lemma_file_list_names_all(paths: Seq<Seq<char>>)
    requires
        paths.len() > 0,
        forall|i: int| 0 <= i < paths.len() ==> !(#[trigger] paths[i]).contains('\n'),
    ensures
        split(join(paths, "\n"@) + "\n"@, '\n') == paths.push(Seq::empty()),
{
    reveal_strlit("\n");
    assert("\n"@ =~= seq!['\n']);
    let text = join(paths, seq!['\n']);
    lemma_split_join(paths, '\n');
    assert((text + seq!['\n']).drop_last() =~= text);
    assert(split(text + seq!['\n'], '\n') =~= paths.push(Seq::empty()));
}

/// Every file that is there counts with its length, whatever else became of it; one that is not
/// there counts for nothing.
pub proof fn lemma_counted_bytes(len: u64, fate: Fate)
    ensures
        fate is Missing ==> ArchiveTally::counted(Some(len), fate) == 0,
        !(fate is Missing) ==> ArchiveTally::counted(Some(len), fate) == len,
        ArchiveTally::counted(None, fate) == 0,
{
}

/// A result and a batch say what they carry, all of it.
pub proof fn lemma_transfer_views(result: TransferResult, batch: Batch)
    ensures
        result@.path == result.path@,
        result@.direction == result.direction,
        result@.success == result.success,
        result@.error is Some <==> result.error is Some,
        result.error is Some ==> result@.error->0 == result.error->0@,
        result@.bytes == result.bytes,
        result@.duration_ms == result.duration_ms,
        batch@.paths == batch.paths@.map_values(|p: String| p@),
        batch@.total_bytes == batch.total_bytes,
{
}

/// The commands tell the agent the file, the transfer, and the number that goes with them, which it
/// reads as it was written.
pub proof fn lemma_commands_are_readable(path: Seq<char>, id: Seq<char>, n: usize)
    ensures
        ({
            let put = reassembly(path, n as nat, id);
            let cut = parting(path, id, n as nat);
            &&& put.len() == 5
            &&& put[0] == "/tmp/beamup-agent"@
            &&& put[1] == "--decompress-chunks"@
            &&& put[2] == path
            &&& usize_value(put[3]) == Some(n)
            &&& put[4] == id
            &&& cut.len() == 6
            &&& cut[0] == "/tmp/beamup-agent"@
            &&& cut[1] == "--compress"@
            &&& cut[2] == path
            &&& cut[3] == id
            &&& cut[4] == "--chunk-size"@
            &&& usize_value(cut[5]) == Some(n)
        }),
{
    lemma_usize_round_trip(n);
}

} // verus!
