//! The initial sync: what is transferred in which order, and how far it has come.

use crate::ignore_rules::{ignored, Patterns};
use crate::manifest::{
    applied, distinct, files, item_at, lemma_applied, lemma_listed_file_is_held,
    lemma_lookup_lists, lemma_manifest_is_distinct, lemma_plan_converges, lemma_pull_adds,
    lemma_pulled_paths, lemma_push_mirrors, lemma_pushed_paths, lemma_tree_is_listed_by_names,
    listing, lists, names_on, orderly, plan, same_kinds, tells_of, transfers_path, FsNode,
};
use crate::messages::{
    EntryView, ManifestEntry, Message, MessageView, SyncDirection, SyncEntry, SyncView,
};
use crate::text::{join, lemma_views_push, numeral, numeral_text, opt_view, views};
use crate::transfer::{TransferResult, TransferView};
use vstd::hash_set::StringHashSet;
use vstd::prelude::*;
use vstd::string::StringExecFns;

verus! {

/// What a message means to the local side while it waits for the agent's plan.
pub enum WhilePlanning {
    /// The plan came.
    Plan { to_push: Vec<SyncEntry>, to_pull: Vec<SyncEntry> },
    /// A file came inline.
    Inline { path: String, hash: u64, data: Vec<u8> },
    /// Nothing to do.
    Ignore,
    /// The connection was closed.
    Closed,
}

/// Takes a message while the agent's plan is awaited.
pub fn await_plan(msg: Option<Message>) -> (r: WhilePlanning)
    ensures
        match opt_view(msg) {
            Some(MessageView::SyncPlan { to_push, to_pull }) => r matches WhilePlanning::Plan {
                to_push: push,
                to_pull: pull,
            } && views(push@) == to_push && views(pull@) == to_pull,
            Some(MessageView::FileContent { path, hash, data }) => r
                matches WhilePlanning::Inline { path: p, hash: h, data: d } && p@ == path && h
                == hash && d@ == data,
            Some(_) => r is Ignore,
            None => r is Closed,
        },
{
    match msg {
        Some(Message::SyncPlan { to_push, to_pull }) => WhilePlanning::Plan { to_push, to_pull },
        Some(Message::FileContent { path, hash, data }) => WhilePlanning::Inline {
            path,
            hash,
            data,
        },
        Some(_) => WhilePlanning::Ignore,
        None => WhilePlanning::Closed,
    }
}

/// What a message means to the local side while it waits for the agent's last word.
pub enum WhileClosing {
    /// The agent is done.
    Done,
    /// A file came inline.
    Inline { path: String, hash: u64, data: Vec<u8> },
    /// Nothing to do.
    Ignore,
    /// The connection was closed.
    Closed,
}

/// Takes a message while the agent's acknowledgement is awaited.
pub fn await_ack(msg: Option<Message>) -> (r: WhileClosing)
    ensures
        match opt_view(msg) {
            Some(MessageView::ManifestAck) => r is Done,
            Some(MessageView::FileContent { path, hash, data }) => r matches WhileClosing::Inline {
                path: p,
                hash: h,
                data: d,
            } && p@ == path && h == hash && d@ == data,
            Some(_) => r is Ignore,
            None => r is Closed,
        },
{
    match msg {
        Some(Message::ManifestAck) => WhileClosing::Done,
        Some(Message::FileContent { path, hash, data }) => WhileClosing::Inline {
            path,
            hash,
            data,
        },
        Some(_) => WhileClosing::Ignore,
        None => WhileClosing::Closed,
    }
}

// ---------------------------------------------------------------------------------------------
// Steps
// ---------------------------------------------------------------------------------------------

/// One step of the initial sync.
pub enum Step {
    /// Push the files in batches, then announce each.
    PushBatched(Vec<SyncEntry>),
    /// Push the files one by one in chunks, then announce each.
    PushChunked(Vec<SyncEntry>),
    /// Pull the files in batches.
    PullBatched(Vec<SyncEntry>),
    /// Pull the files one by one in chunks.
    PullChunked(Vec<SyncEntry>),
    /// Take note of the pulled files, then acknowledge each.
    Settle(Vec<SyncEntry>),
}

/// What a [`Step`] says.
#[verifier::ext_equal]
pub enum StepView {
    PushBatched(Seq<SyncView>),
    PushChunked(Seq<SyncView>),
    PullBatched(Seq<SyncView>),
    PullChunked(Seq<SyncView>),
    Settle(Seq<SyncView>),
}

impl View for Step {
    type V = StepView;

    open spec fn view(&self) -> StepView {
        match *self {
            Step::PushBatched(files) => StepView::PushBatched(views(files@)),
            Step::PushChunked(files) => StepView::PushChunked(views(files@)),
            Step::PullBatched(files) => StepView::PullBatched(views(files@)),
            Step::PullChunked(files) => StepView::PullChunked(views(files@)),
            Step::Settle(files) => StepView::Settle(views(files@)),
        }
    }
}

/// Whether a file of `size` bytes travels in one piece.
pub open spec fn in_one_piece(size: u64, chunk_size: usize) -> bool {
    size <= chunk_size
}

/// Whether a file of `size` bytes travels in one piece.
pub fn travels_whole(size: u64, chunk_size: usize) -> (r: bool)
    ensures
        r == in_one_piece(size, chunk_size),
{
    size <= chunk_size as u64
}

/// The files that travel in one piece.
pub open spec fn whole_files(files: Seq<SyncView>, chunk_size: usize) -> Seq<SyncView> {
    files.filter(|f: SyncView| in_one_piece(f.size, chunk_size))
}

/// The files that travel in chunks.
pub open spec fn huge_files(files: Seq<SyncView>, chunk_size: usize) -> Seq<SyncView> {
    files.filter(|f: SyncView| !in_one_piece(f.size, chunk_size))
}

/// The step, unless there is no file in it.
pub open spec fn unless_empty(files: Seq<SyncView>, step: StepView) -> Seq<StepView> {
    if files.len() == 0 {
        Seq::empty()
    } else {
        seq![step]
    }
}

/// The steps that push `files`.
pub open spec fn push_steps(files: Seq<SyncView>, chunk_size: usize) -> Seq<StepView> {
    let whole = whole_files(files, chunk_size);
    let huge = huge_files(files, chunk_size);
    unless_empty(whole, StepView::PushBatched(whole)) + unless_empty(
        huge,
        StepView::PushChunked(huge),
    )
}

/// The steps that pull `files`.
pub open spec fn pull_steps(files: Seq<SyncView>, chunk_size: usize) -> Seq<StepView> {
    let whole = whole_files(files, chunk_size);
    let huge = huge_files(files, chunk_size);
    unless_empty(whole, StepView::PullBatched(whole)) + unless_empty(
        huge,
        StepView::PullChunked(huge),
    ) + unless_empty(files, StepView::Settle(files))
}

/// The steps of the initial sync.
pub open spec fn sync_steps(
    direction: SyncDirection,
    chunk_size: usize,
    to_push: Seq<SyncView>,
    to_pull: Seq<SyncView>,
) -> Seq<StepView> {
    (if direction.pushes() {
        push_steps(to_push, chunk_size)
    } else {
        Seq::empty()
    }) + (if direction.pulls() {
        pull_steps(to_pull, chunk_size)
    } else {
        Seq::empty()
    })
}

fn copy_entry(entry: &SyncEntry) -> (r: SyncEntry)
    ensures
        r@ == entry@,
{
    SyncEntry { path: entry.path.clone(), hash: entry.hash, size: entry.size }
}

/// Parts the files that travel in one piece from those that travel in chunks.
fn part_by_size(files: &Vec<SyncEntry>, chunk_size: usize) -> (r: (Vec<SyncEntry>, Vec<SyncEntry>))
    ensures
        views(r.0@) == whole_files(views(files@), chunk_size),
        views(r.1@) == huge_files(views(files@), chunk_size),
{
    let ghost all = views(files@);
    let ghost is_whole = |f: SyncView| in_one_piece(f.size, chunk_size);
    let ghost is_huge = |f: SyncView| !in_one_piece(f.size, chunk_size);
    let mut whole: Vec<SyncEntry> = Vec::new();
    let mut huge: Vec<SyncEntry> = Vec::new();
    let mut i: usize = 0;
    proof {
        reveal(Seq::filter);
        assert(views(whole@) =~= all.take(0).filter(is_whole));
        assert(views(huge@) =~= all.take(0).filter(is_huge));
    }
    while i < files.len()
        invariant
            i <= files@.len(),
            all == views(files@),
            is_whole == (|f: SyncView| in_one_piece(f.size, chunk_size)),
            is_huge == (|f: SyncView| !in_one_piece(f.size, chunk_size)),
            views(whole@) == all.take(i as int).filter(is_whole),
            views(huge@) == all.take(i as int).filter(is_huge),
        decreases files@.len() - i,
    {
        let entry = copy_entry(&files[i]);
        proof {
            assert(all.take(i + 1) =~= all.take(i as int).push(entry@));
            all.take(i as int).lemma_filter_push(entry@, is_whole);
            all.take(i as int).lemma_filter_push(entry@, is_huge);
        }
        if travels_whole(entry.size, chunk_size) {
            proof {
                lemma_views_push(whole@, entry);
            }
            whole.push(entry);
        } else {
            proof {
                lemma_views_push(huge@, entry);
            }
            huge.push(entry);
        }
        i = i + 1;
    }
    assert(all.take(i as int) =~= all);
    (whole, huge)
}

/// The steps of the initial sync for the agent's plan.
pub fn make_steps(
    direction: SyncDirection,
    chunk_size: usize,
    to_push: Vec<SyncEntry>,
    to_pull: Vec<SyncEntry>,
) -> (steps: Vec<Step>)
    ensures
        views(steps@) == sync_steps(direction, chunk_size, views(to_push@), views(to_pull@)),
{
    let mut steps: Vec<Step> = Vec::new();
    if direction.should_push() {
        let (whole, huge) = part_by_size(&to_push, chunk_size);
        if whole.len() > 0 {
            steps.push(Step::PushBatched(whole));
        }
        if huge.len() > 0 {
            steps.push(Step::PushChunked(huge));
        }
        assert(views(steps@) =~= push_steps(views(to_push@), chunk_size));
    }
    let ghost pushing = views(steps@);
    if direction.should_pull() {
        let (whole, huge) = part_by_size(&to_pull, chunk_size);
        if whole.len() > 0 {
            steps.push(Step::PullBatched(whole));
        }
        if huge.len() > 0 {
            steps.push(Step::PullChunked(huge));
        }
        if to_pull.len() > 0 {
            steps.push(Step::Settle(to_pull));
        }
        assert(views(steps@) =~= pushing + pull_steps(views(to_pull@), chunk_size));
    }
    assert(views(steps@) =~= sync_steps(direction, chunk_size, views(to_push@), views(to_pull@)));
    steps
}

/// Whether the file at `path` arrived: one of the transfers moved it.
pub open spec fn moved(results: Seq<TransferView>, path: Seq<char>) -> bool {
    exists|i: int|
        0 <= i < results.len() && (#[trigger] results[i]).path == path && results[i].success
}

/// The files that arrived.
pub open spec fn arrived(files: Seq<SyncView>, results: Seq<TransferView>) -> Seq<SyncView> {
    files.filter(|f: SyncView| moved(results, f.path))
}

/// The paths of the files that arrived.
fn moved_paths(results: &Vec<TransferResult>) -> (paths: StringHashSet)
    ensures
        forall|path: Seq<char>| #[trigger]
            paths@.contains(path) <==> moved(views(results@), path),
{
    let ghost all = views(results@);
    let mut paths = StringHashSet::new();
    let mut i: usize = 0;
    while i < results.len()
        invariant
            i <= results@.len(),
            all == views(results@),
            forall|path: Seq<char>| #[trigger]
                paths@.contains(path) <==> moved(all.take(i as int), path),
        decreases results@.len() - i,
    {
        let ghost before = all.take(i as int);
        let ghost now = all.take(i + 1);
        let ghost had = paths@;
        proof {
            assert(all[i as int] == results@[i as int]@);
            assert forall|path: Seq<char>|
                moved(now, path) <==> moved(before, path) || (all[i as int].path == path
                    && all[i as int].success) by {
                if moved(before, path) {
                    let k = choose|k: int|
                        0 <= k < before.len() && (#[trigger] before[k]).path == path
                            && before[k].success;
                    assert(now[k] == before[k]);
                }
                if all[i as int].path == path && all[i as int].success {
                    assert(now[i as int] == all[i as int]);
                }
                if moved(now, path) {
                    let k = choose|k: int|
                        0 <= k < now.len() && (#[trigger] now[k]).path == path && now[k].success;
                    if k < i {
                        assert(before[k] == now[k]);
                    }
                }
            }
        }
        if results[i].success {
            paths.insert(results[i].path.clone());
        }
        i = i + 1;
    }
    assert(all.take(i as int) =~= all);
    paths
}

/// The files that arrived.
fn keep_arrived(files: &Vec<SyncEntry>, results: &Vec<TransferResult>) -> (kept: Vec<SyncEntry>)
    ensures
        views(kept@) == arrived(views(files@), views(results@)),
{
    let ghost all = views(files@);
    let ghost keep = |f: SyncView| moved(views(results@), f.path);
    let paths = moved_paths(results);
    let mut kept: Vec<SyncEntry> = Vec::new();
    let mut i: usize = 0;
    proof {
        reveal(Seq::filter);
        assert(views(kept@) =~= all.take(0).filter(keep));
    }
    while i < files.len()
        invariant
            i <= files@.len(),
            all == views(files@),
            keep == (|f: SyncView| moved(views(results@), f.path)),
            forall|path: Seq<char>| #[trigger]
                paths@.contains(path) <==> moved(views(results@), path),
            views(kept@) == all.take(i as int).filter(keep),
        decreases files@.len() - i,
    {
        let entry = copy_entry(&files[i]);
        proof {
            assert(all.take(i + 1) =~= all.take(i as int).push(entry@));
            all.take(i as int).lemma_filter_push(entry@, keep);
        }
        if paths.contains(entry.path.as_str()) {
            proof {
                lemma_views_push(kept@, entry);
            }
            kept.push(entry);
        }
        i = i + 1;
    }
    assert(all.take(i as int) =~= all);
    kept
}

/// The messages that tell the agent that files were pushed.
pub open spec fn announcements(files: Seq<SyncView>) -> Seq<MessageView> {
    files.map_values(
        |f: SyncView| MessageView::FileReady { path: f.path, hash: f.hash, size: f.size },
    )
}

/// The messages that tell the agent which of `files` were pushed: those whose transfer succeeded,
/// and no others.
pub fn announce_files(files: &Vec<SyncEntry>, results: &Vec<TransferResult>) -> (messages: Vec<
    Message,
>)
    ensures
        views(messages@) == announcements(arrived(views(files@), views(results@))),
{
    let files = keep_arrived(files, results);
    let ghost all = announcements(views(files@));
    let mut messages: Vec<Message> = Vec::new();
    let mut i: usize = 0;
    while i < files.len()
        invariant
            i <= files@.len(),
            all == announcements(views(files@)),
            views(messages@) == all.take(i as int),
        decreases files@.len() - i,
    {
        let file = &files[i];
        let msg = Message::FileReady { path: file.path.clone(), hash: file.hash, size: file.size };
        proof {
            lemma_views_push(messages@, msg);
            assert(all.take(i + 1) =~= all.take(i as int).push(msg@));
        }
        messages.push(msg);
        i = i + 1;
    }
    assert(all.take(i as int) =~= all);
    messages
}

/// The messages that tell the agent that files were pulled.
pub open spec fn acknowledgements(files: Seq<SyncView>) -> Seq<MessageView> {
    files.map_values(|f: SyncView| MessageView::FileReceived { path: f.path, hash: f.hash })
}

/// The messages that tell the agent which of `files` were pulled: those that were found here, and
/// no others.
pub fn acknowledge_files(files: &Vec<SyncEntry>, results: &Vec<TransferResult>) -> (messages: Vec<
    Message,
>)
    ensures
        views(messages@) == acknowledgements(arrived(views(files@), views(results@))),
{
    let files = keep_arrived(files, results);
    let ghost all = acknowledgements(views(files@));
    let mut messages: Vec<Message> = Vec::new();
    let mut i: usize = 0;
    while i < files.len()
        invariant
            i <= files@.len(),
            all == acknowledgements(views(files@)),
            views(messages@) == all.take(i as int),
        decreases files@.len() - i,
    {
        let file = &files[i];
        let msg = Message::FileReceived { path: file.path.clone(), hash: file.hash };
        proof {
            lemma_views_push(messages@, msg);
            assert(all.take(i + 1) =~= all.take(i as int).push(msg@));
        }
        messages.push(msg);
        i = i + 1;
    }
    assert(all.take(i as int) =~= all);
    messages
}

// ---------------------------------------------------------------------------------------------
// Progress
// ---------------------------------------------------------------------------------------------

/// The number of bytes in these files.
pub open spec fn sizes_sum(files: Seq<SyncView>) -> nat
    decreases files.len(),
{
    if files.len() == 0 {
        0
    } else {
        sizes_sum(files.drop_last()) + files.last().size as nat
    }
}

proof fn lemma_sizes_sum_grows(files: Seq<SyncView>, i: int)
    requires
        0 <= i <= files.len(),
    ensures
        sizes_sum(files.take(i)) <= sizes_sum(files),
    decreases files.len() - i,
{
    if i == files.len() {
        assert(files.take(i) =~= files);
    } else {
        lemma_sizes_sum_grows(files, i + 1);
        assert(files.take(i + 1).drop_last() =~= files.take(i));
    }
}

/// The number of bytes in these files, where it can be counted.
pub fn sum_sizes(files: &Vec<SyncEntry>) -> (r: Option<u64>)
    ensures
        match r {
            Some(n) => n == sizes_sum(views(files@)),
            None => sizes_sum(views(files@)) > u64::MAX,
        },
{
    let ghost all = views(files@);
    let mut total: u64 = 0;
    let mut i: usize = 0;
    while i < files.len()
        invariant
            i <= files@.len(),
            all == views(files@),
            total == sizes_sum(all.take(i as int)),
        decreases files@.len() - i,
    {
        proof {
            assert(all.take(i + 1).drop_last() =~= all.take(i as int));
            assert(all.take(i + 1).last() == files@[i as int]@);
            lemma_sizes_sum_grows(all, i + 1);
        }
        match total.checked_add(files[i].size) {
            Some(n) => {
                total = n;
            },
            None => {
                return None;
            },
        }
        i = i + 1;
    }
    assert(all.take(i as int) =~= all);
    Some(total)
}

/// How far the initial sync has come.
#[derive(Debug, Clone, Copy, PartialEq, Eq, Structural)]
pub struct SyncProgress {
    /// The files that have been moved.
    pub files_done: usize,
    /// The files that the plan moves.
    pub total_files: usize,
    /// The files whose transfer is under way.
    pub waiting: usize,
}

/// The bytes that a plan moves in the active directions.
pub open spec fn expected_bytes(
    direction: SyncDirection,
    to_push: Seq<SyncView>,
    to_pull: Seq<SyncView>,
) -> nat {
    (if direction.pushes() {
        sizes_sum(to_push)
    } else {
        0
    }) + (if direction.pulls() {
        sizes_sum(to_pull)
    } else {
        0
    })
}

/// The files that a plan moves in the active directions.
pub open spec fn expected_files(direction: SyncDirection, to_push: nat, to_pull: nat) -> nat {
    (if direction.pushes() {
        to_push
    } else {
        0
    }) + (if direction.pulls() {
        to_pull
    } else {
        0
    })
}

impl SyncProgress {
    /// Nothing has been moved yet.
    pub fn new() -> (p: SyncProgress)
        ensures
            p == (SyncProgress { files_done: 0, total_files: 0, waiting: 0 }),
    {
        SyncProgress { files_done: 0, total_files: 0, waiting: 0 }
    }

    /// Takes the agent's plan, and tells how many bytes it moves; `None` where they cannot be
    /// counted.
    pub fn plan(
        &mut self,
        direction: SyncDirection,
        to_push: &Vec<SyncEntry>,
        to_pull: &Vec<SyncEntry>,
    ) -> (r: Option<u64>)
        requires
            to_push@.len() + to_pull@.len() <= usize::MAX,
        ensures
            match r {
                Some(n) => n == expected_bytes(direction, views(to_push@), views(to_pull@)),
                None => expected_bytes(direction, views(to_push@), views(to_pull@)) > u64::MAX,
            },
            *final(self) == (SyncProgress {
                total_files: expected_files(direction, to_push@.len(), to_pull@.len()) as usize,
                ..*old(self)
            }),
    {
        let push_files: usize = if direction.should_push() {
            to_push.len()
        } else {
            0
        };
        let pull_files: usize = if direction.should_pull() {
            to_pull.len()
        } else {
            0
        };
        self.total_files = push_files + pull_files;
        let push_bytes: u64 = if direction.should_push() {
            match sum_sizes(to_push) {
                Some(n) => n,
                None => {
                    return None;
                },
            }
        } else {
            0
        };
        let pull_bytes: u64 = if direction.should_pull() {
            match sum_sizes(to_pull) {
                Some(n) => n,
                None => {
                    return None;
                },
            }
        } else {
            0
        };
        push_bytes.checked_add(pull_bytes)
    }

    /// Counts files that were moved in batches.
    pub fn batched(&mut self, count: usize)
        requires
            old(self).files_done + count <= usize::MAX,
        ensures
            *final(self) == (SyncProgress {
                files_done: (old(self).files_done + count) as usize,
                ..*old(self)
            }),
    {
        self.files_done = self.files_done + count;
    }

    /// Begins to wait for the transfers of `count` files.
    pub fn launch(&mut self, count: usize)
        ensures
            *final(self) == (SyncProgress { waiting: count, ..*old(self) }),
    {
        self.waiting = count;
    }

    /// Counts the end of a transfer that was waited for.
    pub fn landed(&mut self, success: bool)
        requires
            old(self).waiting > 0,
            old(self).files_done < usize::MAX,
        ensures
            *final(self) == (SyncProgress {
                waiting: (old(self).waiting - 1) as usize,
                files_done: if success {
                    (old(self).files_done + 1) as usize
                } else {
                    old(self).files_done
                },
                ..*old(self)
            }),
    {
        self.waiting = self.waiting - 1;
        if success {
            self.files_done = self.files_done + 1;
        }
    }

    /// How many files have been moved, for the user.
    pub fn message(&self) -> (s: String)
        ensures
            s@ == numeral(self.files_done as nat, 10) + "/"@ + numeral(self.total_files as nat, 10)
                + " files"@,
    {
        let mut s = numeral_text(self.files_done as u128, 10);
        s.append("/");
        s.append(numeral_text(self.total_files as u128, 10).as_str());
        s.append(" files");
        s
    }
}

/// The transfers that failed.
pub open spec fn failures(results: Seq<TransferView>) -> Seq<TransferView> {
    results.filter(|r: TransferView| !r.success)
}

/// How many transfers failed.
pub fn count_failures(results: &Vec<TransferResult>) -> (n: usize)
    ensures
        n == failures(views(results@)).len(),
{
    let ghost all = views(results@);
    let ghost failed = |r: TransferView| !r.success;
    let mut n: usize = 0;
    let mut i: usize = 0;
    proof {
        reveal(Seq::filter);
        assert(all.take(0).filter(failed) =~= Seq::<TransferView>::empty());
    }
    while i < results.len()
        invariant
            i <= results@.len(),
            all == views(results@),
            failed == (|r: TransferView| !r.success),
            n == all.take(i as int).filter(failed).len(),
            n <= i,
        decreases results@.len() - i,
    {
        proof {
            assert(all.take(i + 1) =~= all.take(i as int).push(results@[i as int]@));
            all.take(i as int).lemma_filter_push(results@[i as int]@, failed);
        }
        if !results[i].success {
            n = n + 1;
        }
        i = i + 1;
    }
    assert(all.take(i as int) =~= all);
    n
}

// ---------------------------------------------------------------------------------------------
// What the steps bring about
// ---------------------------------------------------------------------------------------------

/// The files that a step pushes.
pub open spec fn step_pushes(step: StepView) -> Seq<SyncView> {
    match step {
        StepView::PushBatched(files) => files,
        StepView::PushChunked(files) => files,
        _ => Seq::empty(),
    }
}

/// The files that a step pulls.
pub open spec fn step_pulls(step: StepView) -> Seq<SyncView> {
    match step {
        StepView::PullBatched(files) => files,
        StepView::PullChunked(files) => files,
        _ => Seq::empty(),
    }
}

/// Whether some step pushes `file`.
pub open spec fn some_push(steps: Seq<StepView>, file: SyncView) -> bool {
    exists|i: int| 0 <= i < steps.len() && step_pushes(#[trigger] steps[i]).contains(file)
}

/// Whether some step pulls `file`.
pub open spec fn some_pull(steps: Seq<StepView>, file: SyncView) -> bool {
    exists|i: int| 0 <= i < steps.len() && step_pulls(#[trigger] steps[i]).contains(file)
}

proof fn lemma_parted(files: Seq<SyncView>, chunk_size: usize, file: SyncView)
    ensures
        whole_files(files, chunk_size).contains(file) <==> files.contains(file) && in_one_piece(
            file.size,
            chunk_size,
        ),
        huge_files(files, chunk_size).contains(file) <==> files.contains(file) && !in_one_piece(
            file.size,
            chunk_size,
        ),
{
    lemma_filter_contains_iff(files, |f: SyncView| in_one_piece(f.size, chunk_size), file);
    lemma_filter_contains_iff(files, |f: SyncView| !in_one_piece(f.size, chunk_size), file);
}

proof fn lemma_filter_contains_iff<A>(s: Seq<A>, keep: spec_fn(A) -> bool, a: A)
    ensures
        s.filter(keep).contains(a) <==> s.contains(a) && keep(a),
    decreases s.len(),
{
    reveal(Seq::filter);
    if s.len() > 0 {
        let before = s.drop_last();
        lemma_filter_contains_iff(before, keep, a);
        assert(before.push(s.last()) =~= s);
        before.lemma_filter_push(s.last(), keep);
        if before.contains(a) {
            let i = before.index_of(a);
            assert(s[i] == a);
        }
        if s.contains(a) && a != s.last() {
            let i = s.index_of(a);
            assert(before[i] == a);
        }
        if before.filter(keep).contains(a) {
            let i = before.filter(keep).index_of(a);
            assert(s.filter(keep)[i] == a);
        }
        if s.filter(keep).contains(a) {
            let i = s.filter(keep).index_of(a);
            if i < before.filter(keep).len() {
                assert(before.filter(keep)[i] == a);
            }
        }
        if keep(s.last()) && a == s.last() {
            assert(s.filter(keep).last() == a);
        }
        if a == s.last() {
            assert(s[s.len() - 1] == a);
        }
    }
}

/// The steps move exactly the files of the plan: a file is pushed by some step if and only if the
/// plan pushes it and files go that way, and likewise for pulling.
pub proof fn lemma_steps_follow_plan(
    direction: SyncDirection,
    chunk_size: usize,
    to_push: Seq<SyncView>,
    to_pull: Seq<SyncView>,
    file: SyncView,
)
    ensures
        some_push(sync_steps(direction, chunk_size, to_push, to_pull), file) <==> direction.pushes()
            && to_push.contains(file),
        some_pull(sync_steps(direction, chunk_size, to_push, to_pull), file) <==> direction.pulls()
            && to_pull.contains(file),
{
    let steps = sync_steps(direction, chunk_size, to_push, to_pull);
    lemma_parted(to_push, chunk_size, file);
    lemma_parted(to_pull, chunk_size, file);
    let first = if direction.pushes() {
        push_steps(to_push, chunk_size)
    } else {
        Seq::empty()
    };
    let second = if direction.pulls() {
        pull_steps(to_pull, chunk_size)
    } else {
        Seq::empty()
    };
    assert(steps == first + second);
    if direction.pushes() && to_push.contains(file) {
        if in_one_piece(file.size, chunk_size) {
            assert(step_pushes(first[0]).contains(file));
            assert(steps[0] == first[0]);
        } else {
            assert(step_pushes(first[first.len() - 1]).contains(file));
            assert(steps[first.len() - 1] == first[first.len() - 1]);
        }
    }
    if direction.pulls() && to_pull.contains(file) {
        if in_one_piece(file.size, chunk_size) {
            assert(step_pulls(second[0]).contains(file));
            assert(steps[first.len() as int] == second[0]);
        } else {
            assert(second.last() is Settle);
            assert(step_pulls(second[second.len() - 2]).contains(file));
            assert(steps[first.len() + second.len() - 2] == second[second.len() - 2]);
        }
    }
}

/// All files that the steps push, step by step.
pub open spec fn all_pushes(steps: Seq<StepView>) -> Seq<SyncView>
    decreases steps.len(),
{
    if steps.len() == 0 {
        Seq::empty()
    } else {
        all_pushes(steps.drop_last()) + step_pushes(steps.last())
    }
}

/// All files that the steps pull, step by step.
pub open spec fn all_pulls(steps: Seq<StepView>) -> Seq<SyncView>
    decreases steps.len(),
{
    if steps.len() == 0 {
        Seq::empty()
    } else {
        all_pulls(steps.drop_last()) + step_pulls(steps.last())
    }
}

proof fn lemma_append_contains<A>(a: Seq<A>, b: Seq<A>, x: A)
    ensures
        (a + b).contains(x) <==> a.contains(x) || b.contains(x),
{
    if a.contains(x) {
        let i = a.index_of(x);
        assert((a + b)[i] == x);
    }
    if b.contains(x) {
        let i = b.index_of(x);
        assert((a + b)[a.len() + i] == x);
    }
    if (a + b).contains(x) {
        let i = (a + b).index_of(x);
        if i < a.len() {
            assert(a[i] == x);
        } else {
            assert(b[i - a.len()] == x);
        }
    }
}

proof fn lemma_all_moves(steps: Seq<StepView>, file: SyncView)
    ensures
        all_pushes(steps).contains(file) <==> some_push(steps, file),
        all_pulls(steps).contains(file) <==> some_pull(steps, file),
    decreases steps.len(),
{
    if steps.len() > 0 {
        let before = steps.drop_last();
        let last = steps.last();
        lemma_all_moves(before, file);
        lemma_append_contains(all_pushes(before), step_pushes(last), file);
        lemma_append_contains(all_pulls(before), step_pulls(last), file);
        assert(steps[steps.len() - 1] == last);
        if some_push(before, file) {
            let i = choose|i: int|
                0 <= i < before.len() && step_pushes(#[trigger] before[i]).contains(file);
            assert(steps[i] == before[i]);
        }
        if some_pull(before, file) {
            let i = choose|i: int|
                0 <= i < before.len() && step_pulls(#[trigger] before[i]).contains(file);
            assert(steps[i] == before[i]);
        }
        if some_push(steps, file) && !step_pushes(last).contains(file) {
            let i = choose|i: int|
                0 <= i < steps.len() && step_pushes(#[trigger] steps[i]).contains(file);
            assert(before[i] == steps[i]);
        }
        if some_pull(steps, file) && !step_pulls(last).contains(file) {
            let i = choose|i: int|
                0 <= i < steps.len() && step_pulls(#[trigger] steps[i]).contains(file);
            assert(before[i] == steps[i]);
        }
    }
}

proof fn lemma_sizes_sum_append(a: Seq<SyncView>, b: Seq<SyncView>)
    ensures
        sizes_sum(a + b) == sizes_sum(a) + sizes_sum(b),
    decreases b.len(),
{
    if b.len() == 0 {
        assert(a + b =~= a);
    } else {
        lemma_sizes_sum_append(a, b.drop_last());
        assert((a + b).drop_last() =~= a + b.drop_last());
    }
}

/// Parting files by size loses none of them.
proof fn lemma_parts_sum(files: Seq<SyncView>, chunk_size: usize)
    ensures
        whole_files(files, chunk_size).len() + huge_files(files, chunk_size).len() == files.len(),
        sizes_sum(whole_files(files, chunk_size)) + sizes_sum(huge_files(files, chunk_size))
            == sizes_sum(files),
    decreases files.len(),
{
    reveal(Seq::filter);
    if files.len() > 0 {
        let before = files.drop_last();
        let last = files.last();
        let is_whole = |f: SyncView| in_one_piece(f.size, chunk_size);
        let is_huge = |f: SyncView| !in_one_piece(f.size, chunk_size);
        lemma_parts_sum(before, chunk_size);
        assert(before.push(last) =~= files);
        before.lemma_filter_push(last, is_whole);
        before.lemma_filter_push(last, is_huge);
        if in_one_piece(last.size, chunk_size) {
            assert(whole_files(files, chunk_size).drop_last() =~= whole_files(before, chunk_size));
        } else {
            assert(huge_files(files, chunk_size).drop_last() =~= huge_files(before, chunk_size));
        }
    }
}

proof fn lemma_all_moves_append(a: Seq<StepView>, b: Seq<StepView>)
    ensures
        all_pushes(a + b) == all_pushes(a) + all_pushes(b),
        all_pulls(a + b) == all_pulls(a) + all_pulls(b),
    decreases b.len(),
{
    if b.len() == 0 {
        assert(a + b =~= a);
    } else {
        lemma_all_moves_append(a, b.drop_last());
        assert((a + b).drop_last() =~= a + b.drop_last());
    }
}

/// What a step that is left out when it holds no file moves is what it moves.
proof fn lemma_unless_empty_moves(files: Seq<SyncView>, step: StepView)
    requires
        files.len() == 0 ==> step_pushes(step).len() == 0 && step_pulls(step).len() == 0,
    ensures
        all_pushes(unless_empty(files, step)) == step_pushes(step),
        all_pulls(unless_empty(files, step)) == step_pulls(step),
{
    reveal_with_fuel(all_pushes, 2);
    reveal_with_fuel(all_pulls, 2);
    assert(seq![step].drop_last() =~= Seq::<StepView>::empty());
    assert(all_pushes(unless_empty(files, step)) =~= step_pushes(step));
    assert(all_pulls(unless_empty(files, step)) =~= step_pulls(step));
}

proof fn lemma_push_steps_move(files: Seq<SyncView>, chunk_size: usize)
    ensures
        all_pushes(push_steps(files, chunk_size)).len() == files.len(),
        sizes_sum(all_pushes(push_steps(files, chunk_size))) == sizes_sum(files),
        all_pulls(push_steps(files, chunk_size)).len() == 0,
{
    let whole = whole_files(files, chunk_size);
    let huge = huge_files(files, chunk_size);
    lemma_parts_sum(files, chunk_size);
    lemma_unless_empty_moves(whole, StepView::PushBatched(whole));
    lemma_unless_empty_moves(huge, StepView::PushChunked(huge));
    lemma_all_moves_append(
        unless_empty(whole, StepView::PushBatched(whole)),
        unless_empty(huge, StepView::PushChunked(huge)),
    );
    lemma_sizes_sum_append(whole, huge);
}

proof fn lemma_pull_steps_move(files: Seq<SyncView>, chunk_size: usize)
    ensures
        all_pulls(pull_steps(files, chunk_size)).len() == files.len(),
        sizes_sum(all_pulls(pull_steps(files, chunk_size))) == sizes_sum(files),
        all_pushes(pull_steps(files, chunk_size)).len() == 0,
{
    let whole = whole_files(files, chunk_size);
    let huge = huge_files(files, chunk_size);
    let batched = unless_empty(whole, StepView::PullBatched(whole));
    let chunked = unless_empty(huge, StepView::PullChunked(huge));
    let settled = unless_empty(files, StepView::Settle(files));
    lemma_parts_sum(files, chunk_size);
    lemma_unless_empty_moves(whole, StepView::PullBatched(whole));
    lemma_unless_empty_moves(huge, StepView::PullChunked(huge));
    lemma_unless_empty_moves(files, StepView::Settle(files));
    lemma_all_moves_append(batched, chunked);
    lemma_all_moves_append(batched + chunked, settled);
    lemma_sizes_sum_append(whole, huge);
    lemma_sizes_sum_append(whole + huge, Seq::empty());
}

/// The steps move as many files and as many bytes as the plan was announced with.
pub proof fn lemma_steps_move_the_plan(
    direction: SyncDirection,
    chunk_size: usize,
    to_push: Seq<SyncView>,
    to_pull: Seq<SyncView>,
)
    ensures
        ({
            let steps = sync_steps(direction, chunk_size, to_push, to_pull);
            &&& all_pushes(steps).len() + all_pulls(steps).len() == expected_files(
                direction,
                to_push.len(),
                to_pull.len(),
            )
            &&& sizes_sum(all_pushes(steps)) + sizes_sum(all_pulls(steps)) == expected_bytes(
                direction,
                to_push,
                to_pull,
            )
        }),
{
    let first = if direction.pushes() {
        push_steps(to_push, chunk_size)
    } else {
        Seq::empty()
    };
    let second = if direction.pulls() {
        pull_steps(to_pull, chunk_size)
    } else {
        Seq::empty()
    };
    lemma_push_steps_move(to_push, chunk_size);
    lemma_pull_steps_move(to_pull, chunk_size);
    lemma_all_moves_append(first, second);
    lemma_sizes_sum_append(all_pushes(first), all_pushes(second));
    lemma_sizes_sum_append(all_pulls(first), all_pulls(second));
}

/// Transfers of the same files in another order bring about the same.
proof fn lemma_order_does_not_matter(
    held: Map<Seq<char>, u64>,
    a: Seq<SyncView>,
    b: Seq<SyncView>,
    source: Map<Seq<char>, u64>,
)
    requires
        forall|file: SyncView| #[trigger] a.contains(file) <==> b.contains(file),
        forall|i: int| 0 <= i < a.len() ==> source[(#[trigger] a[i]).path] == a[i].hash,
    ensures
        applied(held, a) == applied(held, b),
{
    assert forall|i: int| 0 <= i < b.len() implies source[(#[trigger] b[i]).path] == b[i].hash by {
        assert(b.contains(b[i]));
        assert(a.contains(b[i]));
        let k = a.index_of(b[i]);
        assert(a[k] == b[i]);
    }
    lemma_applied(held, a, source);
    lemma_applied(held, b, source);
    assert forall|path: Seq<char>| transfers_path(a, path) <==> transfers_path(b, path) by {
        if transfers_path(a, path) {
            let i = choose|i: int| 0 <= i < a.len() && (#[trigger] a[i]).path == path;
            assert(a.contains(a[i]));
            let k = b.index_of(a[i]);
            assert(b[k].path == path);
        }
        if transfers_path(b, path) {
            let i = choose|i: int| 0 <= i < b.len() && (#[trigger] b[i]).path == path;
            assert(b.contains(b[i]));
            assert(a.contains(b[i]));
            let k = a.index_of(b[i]);
            assert(a[k].path == path);
        }
    }
    assert(applied(held, a) =~= applied(held, b));
}

/// The initial sync brings the two sides together: once the steps for the agent's plan have moved
/// their files, both sides hold the same files with the same contents.
pub proof fn lemma_initial_sync_converges(
    local: Seq<EntryView>,
    beam: Seq<EntryView>,
    chunk_size: usize,
)
    requires
        distinct(local),
        distinct(beam),
        same_kinds(local, beam),
    ensures
        ({
            let direction = SyncDirection::Bidirectional;
            let p = plan(local, beam, direction);
            let steps = sync_steps(direction, chunk_size, p.to_push, p.to_pull);
            applied(files(beam), all_pushes(steps)) == applied(files(local), all_pulls(steps))
        }),
{
    let direction = SyncDirection::Bidirectional;
    let p = plan(local, beam, direction);
    let steps = sync_steps(direction, chunk_size, p.to_push, p.to_pull);
    assert forall|file: SyncView| #[trigger]
        p.to_push.contains(file) <==> all_pushes(steps).contains(file) by {
        lemma_steps_follow_plan(direction, chunk_size, p.to_push, p.to_pull, file);
        lemma_all_moves(steps, file);
    }
    assert forall|file: SyncView| #[trigger]
        p.to_pull.contains(file) <==> all_pulls(steps).contains(file) by {
        lemma_steps_follow_plan(direction, chunk_size, p.to_push, p.to_pull, file);
        lemma_all_moves(steps, file);
    }
    lemma_pushed_paths(local, beam, direction);
    lemma_pulled_paths(local, beam, direction);
    lemma_order_does_not_matter(files(beam), p.to_push, all_pushes(steps), files(local));
    lemma_order_does_not_matter(files(local), p.to_pull, all_pulls(steps), files(beam));
    lemma_plan_converges(local, beam);
}

/// The initial sync of two trees, whatever each side's rules ignore, brings together what takes
/// part in it, unless a path is a file on one side and a directory on the other.
pub proof fn lemma_trees_converge(
    local_rules: Seq<Patterns>,
    local_root: Seq<char>,
    local_nodes: Seq<FsNode>,
    beam_rules: Seq<Patterns>,
    beam_root: Seq<char>,
    beam_nodes: Seq<FsNode>,
    chunk_size: usize,
)
    requires
        orderly(local_nodes),
        orderly(beam_nodes),
        same_kinds(
            listing(local_rules, local_root, local_root, local_nodes),
            listing(beam_rules, beam_root, beam_root, beam_nodes),
        ),
    ensures
        ({
            let local = listing(local_rules, local_root, local_root, local_nodes);
            let beam = listing(beam_rules, beam_root, beam_root, beam_nodes);
            let direction = SyncDirection::Bidirectional;
            let p = plan(local, beam, direction);
            let steps = sync_steps(direction, chunk_size, p.to_push, p.to_pull);
            applied(files(beam), all_pushes(steps)) == applied(files(local), all_pulls(steps))
        }),
{
    lemma_manifest_is_distinct(local_rules, local_root, local_nodes);
    lemma_manifest_is_distinct(beam_rules, beam_root, beam_nodes);
    lemma_initial_sync_converges(
        listing(local_rules, local_root, local_root, local_nodes),
        listing(beam_rules, beam_root, beam_root, beam_nodes),
        chunk_size,
    );
}

// ---------------------------------------------------------------------------------------------
// The order of the initial sync
// ---------------------------------------------------------------------------------------------

/// How far the initial sync has come.
#[derive(Debug, Clone, Copy, PartialEq, Eq, Structural)]
pub enum SyncPhase {
    /// The local tree is awaited.
    Begin,
    /// The agent's plan is awaited.
    Planning,
    /// A step is under way.
    Working,
    /// The agent's last word is awaited.
    Closing,
    /// It is over.
    Over,
    /// The connection was closed too early.
    Lost,
}

/// What happens in the initial sync.
pub enum SyncEvent {
    /// The local tree was read; these are its entries.
    Listed { entries: Vec<ManifestEntry> },
    /// A message came, or none will come any more.
    Message { msg: Option<Message> },
    /// The step that is under way has moved some bytes of its chunked files.
    Moved { bytes: u64 },
    /// The step that was under way is done. `results` tell which files it moved, or which of the
    /// pulled files were found.
    Worked { results: Vec<TransferResult> },
}

/// What a [`SyncEvent`] says.
#[verifier::ext_equal]
pub enum SyncEventView {
    Listed { entries: Seq<EntryView> },
    Message { msg: Option<MessageView> },
    Moved { bytes: u64 },
    Worked { results: Seq<TransferView> },
}

impl View for SyncEvent {
    type V = SyncEventView;

    open spec fn view(&self) -> SyncEventView {
        match *self {
            SyncEvent::Listed { entries } => SyncEventView::Listed { entries: views(entries@) },
            SyncEvent::Message { msg } => SyncEventView::Message { msg: opt_view(msg) },
            SyncEvent::Moved { bytes } => SyncEventView::Moved { bytes },
            SyncEvent::Worked { results } => SyncEventView::Worked { results: views(results@) },
        }
    }
}

/// What the initial sync needs next.
pub enum SyncAction {
    /// Send a message to the agent.
    Send(Message),
    /// Take the contents of a file that came inline.
    Write { path: String, hash: u64, data: Vec<u8> },
    /// Perform a step, and tell what came of it.
    Work(Step),
    /// It is over, and has moved `total` bytes.
    Finish { total: u64 },
    /// The connection was closed too early.
    Fail,
}

/// What a [`SyncAction`] says.
#[verifier::ext_equal]
pub enum SyncActionView {
    Send(MessageView),
    Write { path: Seq<char>, hash: u64, data: Seq<u8> },
    Work(StepView),
    Finish { total: nat },
    Fail,
}

impl View for SyncAction {
    type V = SyncActionView;

    open spec fn view(&self) -> SyncActionView {
        match *self {
            SyncAction::Send(msg) => SyncActionView::Send(msg@),
            SyncAction::Write { path, hash, data } => SyncActionView::Write {
                path: path@,
                hash,
                data: data@,
            },
            SyncAction::Work(step) => SyncActionView::Work(step@),
            SyncAction::Finish { total } => SyncActionView::Finish { total: total as nat },
            SyncAction::Fail => SyncActionView::Fail,
        }
    }
}

/// What an [`InitialSync`] remembers.
#[verifier::ext_equal]
pub struct InitialView {
    pub direction: SyncDirection,
    pub chunk_size: usize,
    pub phase: SyncPhase,
    /// The steps that are not done, the one under way first.
    pub left: Seq<StepView>,
    /// The bytes that have been moved.
    pub total: nat,
}

/// What follows where these steps are left: the first of them, or the end of the sync.
pub open spec fn going_on(left: Seq<StepView>) -> Seq<SyncActionView> {
    if left.len() == 0 {
        seq![SyncActionView::Send(MessageView::ManifestAck)]
    } else {
        seq![SyncActionView::Work(left[0])]
    }
}

impl InitialView {
    /// With these steps left.
    pub open spec fn with_left(self, left: Seq<StepView>) -> InitialView {
        InitialView {
            phase: if left.len() == 0 {
                SyncPhase::Closing
            } else {
                SyncPhase::Working
            },
            left,
            ..self
        }
    }

    /// In another phase.
    pub open spec fn in_phase(self, phase: SyncPhase) -> InitialView {
        InitialView { phase, ..self }
    }
}

/// What the agent is told once a step is done.
pub open spec fn reports(step: StepView, results: Seq<TransferView>) -> Seq<MessageView> {
    match step {
        StepView::PushBatched(files) => announcements(arrived(files, results)),
        StepView::PushChunked(files) => announcements(arrived(files, results)),
        StepView::PullBatched(_) => Seq::empty(),
        StepView::PullChunked(_) => Seq::empty(),
        StepView::Settle(files) => acknowledgements(arrived(files, results)),
    }
}

/// Sending these messages, one after the other.
pub open spec fn sending(messages: Seq<MessageView>) -> Seq<SyncActionView> {
    messages.map_values(|msg: MessageView| SyncActionView::Send(msg))
}

/// What is done about something that happens in the initial sync.
pub open spec fn initial_actions(s: InitialView, event: SyncEventView) -> Seq<SyncActionView> {
    match (s.phase, event) {
        (SyncPhase::Begin, SyncEventView::Listed { entries }) => seq![
            SyncActionView::Send(MessageView::FileManifest { entries }),
        ],
        (SyncPhase::Planning, SyncEventView::Message { msg }) => match msg {
            Some(MessageView::SyncPlan { to_push, to_pull }) => going_on(
                sync_steps(s.direction, s.chunk_size, to_push, to_pull),
            ),
            Some(MessageView::FileContent { path, hash, data }) => seq![
                SyncActionView::Write { path, hash, data },
            ],
            Some(_) => Seq::empty(),
            None => seq![SyncActionView::Fail],
        },
        (SyncPhase::Working, SyncEventView::Worked { results }) => sending(
            reports(s.left[0], results),
        ) + going_on(s.left.drop_first()),
        (SyncPhase::Closing, SyncEventView::Message { msg }) => match msg {
            Some(MessageView::ManifestAck) => seq![SyncActionView::Finish { total: s.total }],
            Some(MessageView::FileContent { path, hash, data }) => seq![
                SyncActionView::Write { path, hash, data },
            ],
            Some(_) => Seq::empty(),
            None => seq![SyncActionView::Fail],
        },
        _ => Seq::empty(),
    }
}

/// The bytes of the files that a step moves in batches.
pub open spec fn batched_bytes(step: StepView) -> nat {
    match step {
        StepView::PushBatched(files) => sizes_sum(files),
        StepView::PullBatched(files) => sizes_sum(files),
        _ => 0,
    }
}

/// The bytes that something that happens in the initial sync has moved: those of a file that came
/// inline, those of the files of a step that moves them in batches, and those of chunks.
pub open spec fn gained(s: InitialView, event: SyncEventView) -> nat {
    match (s.phase, event) {
        (
            SyncPhase::Planning,
            SyncEventView::Message { msg: Some(MessageView::FileContent { path, hash, data }) },
        ) => data.len(),
        (
            SyncPhase::Closing,
            SyncEventView::Message { msg: Some(MessageView::FileContent { path, hash, data }) },
        ) => data.len(),
        (SyncPhase::Working, SyncEventView::Moved { bytes }) => bytes as nat,
        (SyncPhase::Working, SyncEventView::Worked { results }) => batched_bytes(s.left[0]),
        _ => 0,
    }
}

/// What is remembered after something that happened in the initial sync.
pub open spec fn after_initial(s: InitialView, event: SyncEventView) -> InitialView {
    InitialView { total: s.total + gained(s, event), ..moved_on(s, event) }
}

/// How the initial sync goes on after something that happened, but for the bytes it has moved.
pub open spec fn moved_on(s: InitialView, event: SyncEventView) -> InitialView {
    match (s.phase, event) {
        (SyncPhase::Begin, SyncEventView::Listed { entries }) => s.in_phase(SyncPhase::Planning),
        (SyncPhase::Planning, SyncEventView::Message { msg }) => match msg {
            Some(MessageView::SyncPlan { to_push, to_pull }) => s.with_left(
                sync_steps(s.direction, s.chunk_size, to_push, to_pull),
            ),
            Some(_) => s,
            None => s.in_phase(SyncPhase::Lost),
        },
        (SyncPhase::Working, SyncEventView::Worked { results }) => s.with_left(
            s.left.drop_first(),
        ),
        (SyncPhase::Closing, SyncEventView::Message { msg }) => match msg {
            Some(MessageView::ManifestAck) => s.in_phase(SyncPhase::Over),
            Some(_) => s,
            None => s.in_phase(SyncPhase::Lost),
        },
        _ => s,
    }
}

/// The initial sync on the local side.
pub struct InitialSync {
    direction: SyncDirection,
    chunk_size: usize,
    phase: SyncPhase,
    left: Vec<Step>,
    total: u64,
}

impl View for InitialSync {
    type V = InitialView;

    closed spec fn view(&self) -> InitialView {
        InitialView {
            direction: self.direction,
            chunk_size: self.chunk_size,
            phase: self.phase,
            left: views(self.left@),
            total: self.total as nat,
        }
    }
}

fn copy_entries(files: &Vec<SyncEntry>) -> (r: Vec<SyncEntry>)
    ensures
        views(r@) == views(files@),
{
    let ghost all = views(files@);
    let mut r: Vec<SyncEntry> = Vec::new();
    let mut i: usize = 0;
    while i < files.len()
        invariant
            i <= files@.len(),
            all == views(files@),
            views(r@) == all.take(i as int),
        decreases files@.len() - i,
    {
        let entry = copy_entry(&files[i]);
        proof {
            lemma_views_push(r@, entry);
            assert(all.take(i + 1) =~= all.take(i as int).push(entry@));
        }
        r.push(entry);
        i = i + 1;
    }
    assert(all.take(i as int) =~= all);
    r
}

fn copy_step(step: &Step) -> (r: Step)
    ensures
        r@ == step@,
{
    match step {
        Step::PushBatched(files) => Step::PushBatched(copy_entries(files)),
        Step::PushChunked(files) => Step::PushChunked(copy_entries(files)),
        Step::PullBatched(files) => Step::PullBatched(copy_entries(files)),
        Step::PullChunked(files) => Step::PullChunked(copy_entries(files)),
        Step::Settle(files) => Step::Settle(copy_entries(files)),
    }
}

fn list_reports(step: &Step, results: &Vec<TransferResult>) -> (messages: Vec<Message>)
    ensures
        views(messages@) == reports(step@, views(results@)),
{
    match step {
        Step::PushBatched(files) => announce_files(files, results),
        Step::PushChunked(files) => announce_files(files, results),
        Step::Settle(files) => acknowledge_files(files, results),
        _ => {
            let none: Vec<Message> = Vec::new();
            assert(views(none@) =~= Seq::<MessageView>::empty());
            none
        },
    }
}

fn send_all(messages: Vec<Message>) -> (actions: Vec<SyncAction>)
    ensures
        views(actions@) == sending(views(messages@)),
{
    let ghost all = sending(views(messages@));
    let mut actions: Vec<SyncAction> = Vec::new();
    for msg in it: messages
        invariant
            it.seq() == messages@,
            all == sending(views(messages@)),
            views(actions@) == all.take(it.index() as int),
    {
        let action = SyncAction::Send(msg);
        proof {
            lemma_views_push(actions@, action);
            assert(all.take(it.index() + 1) =~= all.take(it.index() as int).push(action@));
        }
        actions.push(action);
    }
    assert(all.take(messages@.len() as int) =~= all);
    actions
}

fn one_action(action: SyncAction) -> (actions: Vec<SyncAction>)
    ensures
        views(actions@) == seq![action@],
{
    let mut actions: Vec<SyncAction> = Vec::new();
    actions.push(action);
    assert(views(actions@) =~= seq![action@]);
    actions
}

fn no_action() -> (actions: Vec<SyncAction>)
    ensures
        views(actions@) == Seq::<SyncActionView>::empty(),
{
    let actions: Vec<SyncAction> = Vec::new();
    assert(views(actions@) =~= Seq::<SyncActionView>::empty());
    actions
}

impl InitialSync {
    /// Whether there is a step under way where there has to be one.
    pub closed spec fn wf(&self) -> bool {
        self.phase is Working ==> self.left@.len() > 0
    }

    /// An initial sync that has not begun yet.
    pub fn new(direction: SyncDirection, chunk_size: usize) -> (sync: InitialSync)
        ensures
            sync.wf(),
            sync@ == (InitialView {
                direction,
                chunk_size,
                phase: SyncPhase::Begin,
                left: Seq::empty(),
                total: 0,
            }),
    {
        let sync = InitialSync {
            direction,
            chunk_size,
            phase: SyncPhase::Begin,
            left: Vec::new(),
            total: 0,
        };
        assert(sync@.left =~= Seq::<StepView>::empty());
        sync
    }

    /// Goes on with the first of the steps that are left, or to the end.
    fn go_on(&mut self) -> (action: SyncAction)
        ensures
            final(self).wf(),
            final(self)@ == old(self)@.with_left(old(self)@.left),
            seq![action@] == going_on(old(self)@.left),
    {
        if self.left.len() == 0 {
            self.phase = SyncPhase::Closing;
            SyncAction::Send(Message::ManifestAck)
        } else {
            self.phase = SyncPhase::Working;
            SyncAction::Work(copy_step(&self.left[0]))
        }
    }

    /// Takes a message while the plan is awaited.
    fn take_plan(&mut self, msg: Option<Message>) -> (actions: Vec<SyncAction>)
        requires
            old(self).wf(),
            old(self)@.phase is Planning,
        ensures
            final(self).wf(),
            final(self)@ == moved_on(
                old(self)@,
                SyncEventView::Message { msg: opt_view(msg) },
            ),
            views(actions@) == initial_actions(
                old(self)@,
                SyncEventView::Message { msg: opt_view(msg) },
            ),
    {
        match await_plan(msg) {
            WhilePlanning::Plan { to_push, to_pull } => {
                self.left = make_steps(self.direction, self.chunk_size, to_push, to_pull);
                let action = self.go_on();
                one_action(action)
            },
            WhilePlanning::Inline { path, hash, data } => one_action(
                SyncAction::Write { path, hash, data },
            ),
            WhilePlanning::Ignore => no_action(),
            WhilePlanning::Closed => {
                self.phase = SyncPhase::Lost;
                one_action(SyncAction::Fail)
            },
        }
    }

    /// Takes a message while the agent's last word is awaited.
    fn take_ack(&mut self, msg: Option<Message>) -> (actions: Vec<SyncAction>)
        requires
            old(self).wf(),
            old(self)@.phase is Closing,
        ensures
            final(self).wf(),
            final(self)@ == moved_on(
                old(self)@,
                SyncEventView::Message { msg: opt_view(msg) },
            ),
            views(actions@) == initial_actions(
                old(self)@,
                SyncEventView::Message { msg: opt_view(msg) },
            ),
    {
        match await_ack(msg) {
            WhileClosing::Done => {
                self.phase = SyncPhase::Over;
                one_action(SyncAction::Finish { total: self.total })
            },
            WhileClosing::Inline { path, hash, data } => one_action(
                SyncAction::Write { path, hash, data },
            ),
            WhileClosing::Ignore => no_action(),
            WhileClosing::Closed => {
                self.phase = SyncPhase::Lost;
                one_action(SyncAction::Fail)
            },
        }
    }

    /// Takes what came of the step that was under way.
    fn take_results(&mut self, results: &Vec<TransferResult>) -> (actions: Vec<SyncAction>)
        requires
            old(self).wf(),
            old(self)@.phase is Working,
        ensures
            final(self).wf(),
            final(self)@ == moved_on(
                old(self)@,
                SyncEventView::Worked { results: views(results@) },
            ),
            views(actions@) == initial_actions(
                old(self)@,
                SyncEventView::Worked { results: views(results@) },
            ),
    {
        let ghost all = self@.left;
        let step = self.left.remove(0);
        assert(views(self.left@) =~= all.drop_first());
        let mut actions = send_all(list_reports(&step, results));
        let action = self.go_on();
        proof {
            lemma_views_push(actions@, action);
            assert(views(actions@).push(action@) =~= views(actions@) + seq![action@]);
        }
        actions.push(action);
        actions
    }

    /// The bytes that `event` has moved, where they can be counted.
    fn count(&self, event: &SyncEvent) -> (r: Option<u64>)
        requires
            self.wf(),
        ensures
            match r {
                Some(n) => n == gained(self@, event@),
                None => gained(self@, event@) > u64::MAX,
            },
    {
        match (self.phase, event) {
            (
                SyncPhase::Planning,
                SyncEvent::Message { msg: Some(Message::FileContent { path: _, hash: _, data }) },
            ) => Some(data.len() as u64),
            (
                SyncPhase::Closing,
                SyncEvent::Message { msg: Some(Message::FileContent { path: _, hash: _, data }) },
            ) => Some(data.len() as u64),
            (SyncPhase::Working, SyncEvent::Moved { bytes }) => Some(*bytes),
            (SyncPhase::Working, SyncEvent::Worked { results: _ }) => match &self.left[0] {
                Step::PushBatched(files) => sum_sizes(files),
                Step::PullBatched(files) => sum_sizes(files),
                _ => Some(0),
            },
            _ => Some(0),
        }
    }

    /// Whether the bytes can still be counted after `event`.
    pub fn can_take(&self, event: &SyncEvent) -> (r: bool)
        requires
            self.wf(),
        ensures
            r == (self@.total + gained(self@, event@) <= u64::MAX),
    {
        match self.count(event) {
            Some(n) => n <= u64::MAX - self.total,
            None => false,
        }
    }

    /// Takes one thing that happens, and says what to do about it. The bytes that have been moved
    /// have to be countable.
    pub fn step(&mut self, event: SyncEvent) -> (actions: Vec<SyncAction>)
        requires
            old(self).wf(),
            old(self)@.total + gained(old(self)@, event@) <= u64::MAX,
        ensures
            final(self).wf(),
            final(self)@ == after_initial(old(self)@, event@),
            views(actions@) == initial_actions(old(self)@, event@),
    {
        let gain: u64 = match self.count(&event) {
            Some(n) => n,
            None => 0,
        };
        let actions = match (self.phase, event) {
            (SyncPhase::Begin, SyncEvent::Listed { entries }) => {
                self.phase = SyncPhase::Planning;
                one_action(SyncAction::Send(Message::FileManifest { entries }))
            },
            (SyncPhase::Planning, SyncEvent::Message { msg }) => self.take_plan(msg),
            (SyncPhase::Working, SyncEvent::Worked { results }) => self.take_results(&results),
            (SyncPhase::Closing, SyncEvent::Message { msg }) => self.take_ack(msg),
            _ => no_action(),
        };
        self.total = self.total + gain;
        actions
    }
}

/// What is done about things that happen one after the other.
pub open spec fn run_actions(s: InitialView, events: Seq<SyncEventView>) -> Seq<SyncActionView>
    decreases events.len(),
{
    if events.len() == 0 {
        Seq::empty()
    } else {
        initial_actions(s, events[0]) + run_actions(
            after_initial(s, events[0]),
            events.drop_first(),
        )
    }
}

/// The steps, each followed by its reports, and the acknowledgement at the end.
pub open spec fn work_in_order(
    steps: Seq<StepView>,
    results: Seq<Seq<TransferView>>,
) -> Seq<SyncActionView>
    decreases steps.len(),
{
    if steps.len() == 0 {
        seq![SyncActionView::Send(MessageView::ManifestAck)]
    } else {
        seq![SyncActionView::Work(steps[0])] + sending(reports(steps[0], results[0]))
            + work_in_order(steps.drop_first(), results.drop_first())
    }
}

/// What is remembered after things that happen one after the other.
pub open spec fn after_run(s: InitialView, events: Seq<SyncEventView>) -> InitialView
    decreases events.len(),
{
    if events.len() == 0 {
        s
    } else {
        after_run(after_initial(s, events[0]), events.drop_first())
    }
}

/// The bytes that things that happen one after the other have moved.
pub open spec fn run_gained(s: InitialView, events: Seq<SyncEventView>) -> nat
    decreases events.len(),
{
    if events.len() == 0 {
        0
    } else {
        gained(s, events[0]) + run_gained(after_initial(s, events[0]), events.drop_first())
    }
}

proof fn lemma_run_gained(s: InitialView, events: Seq<SyncEventView>)
    ensures
        after_run(s, events).total == s.total + run_gained(s, events),
    decreases events.len(),
{
    if events.len() > 0 {
        lemma_run_gained(after_initial(s, events[0]), events.drop_first());
    }
}

/// The total with which the initial sync ends is the number of bytes that were moved in all that
/// happened before.
pub proof fn lemma_total_is_what_moved(
    s: InitialView,
    events: Seq<SyncEventView>,
    last: SyncEventView,
    total: nat,
)
    requires
        initial_actions(after_run(s, events), last).contains(SyncActionView::Finish { total }),
    ensures
        total == s.total + run_gained(s, events),
{
    let t = after_run(s, events);
    let finish = SyncActionView::Finish { total };
    let actions = initial_actions(t, last);
    let i = actions.index_of(finish);
    assert(actions[i] == finish);
    lemma_run_gained(s, events);
    if let SyncEventView::Worked { results } = last {
        if t.phase is Working {
            let told = reports(t.left[0], results);
            if i < told.len() {
                assert(actions[i] == sending(told)[i]);
            } else {
                assert(actions[i] == going_on(t.left.drop_first())[i - told.len()]);
            }
        }
    }
}

/// The sum of numbers of bytes.
pub open spec fn amount(moved: Seq<u64>) -> nat
    decreases moved.len(),
{
    if moved.len() == 0 {
        0
    } else {
        moved[0] as nat + amount(moved.drop_first())
    }
}

/// That bytes of chunked files are moved, one number of them after the other.
pub open spec fn moving(moved: Seq<u64>) -> Seq<SyncEventView> {
    moved.map_values(|bytes: u64| SyncEventView::Moved { bytes })
}

/// That steps are done, one after the other, with these results, and with these numbers of bytes
/// moved in chunks while each was under way.
pub open spec fn worked(
    moves: Seq<Seq<u64>>,
    results: Seq<Seq<TransferView>>,
) -> Seq<SyncEventView>
    decreases results.len(),
{
    if results.len() == 0 {
        Seq::empty()
    } else {
        moving(moves[0]).push(SyncEventView::Worked { results: results[0] }) + worked(
            moves.drop_first(),
            results.drop_first(),
        )
    }
}

/// The bytes that steps move: in batches, and in chunks while each was under way.
pub open spec fn work_bytes(steps: Seq<StepView>, moves: Seq<Seq<u64>>) -> nat
    decreases steps.len(),
{
    if steps.len() == 0 {
        0
    } else {
        amount(moves[0]) + batched_bytes(steps[0]) + work_bytes(
            steps.drop_first(),
            moves.drop_first(),
        )
    }
}

proof fn lemma_run_append(s: InitialView, a: Seq<SyncEventView>, b: Seq<SyncEventView>)
    ensures
        run_actions(s, a + b) == run_actions(s, a) + run_actions(after_run(s, a), b),
    decreases a.len(),
{
    if a.len() == 0 {
        assert(a + b =~= b);
        assert(run_actions(s, a) + run_actions(s, b) =~= run_actions(s, b));
    } else {
        let next = after_initial(s, a[0]);
        lemma_run_append(next, a.drop_first(), b);
        assert((a + b).drop_first() =~= a.drop_first() + b);
        assert((a + b)[0] == a[0]);
        assert(run_actions(s, a + b) =~= run_actions(s, a) + run_actions(after_run(s, a), b));
    }
}

/// Bytes that are moved in chunks are counted, and nothing else comes of them.
proof fn lemma_moving(s: InitialView, moved: Seq<u64>)
    requires
        s.phase is Working,
    ensures
        run_actions(s, moving(moved)) == Seq::<SyncActionView>::empty(),
        after_run(s, moving(moved)) == (InitialView { total: s.total + amount(moved), ..s }),
    decreases moved.len(),
{
    if moved.len() > 0 {
        let event = SyncEventView::Moved { bytes: moved[0] };
        lemma_moving(after_initial(s, event), moved.drop_first());
        assert(moving(moved)[0] == event);
        assert(moving(moved).drop_first() =~= moving(moved.drop_first()));
    }
    assert(run_actions(s, moving(moved)) =~= Seq::<SyncActionView>::empty());
}

/// While steps are left they are performed in order, each is reported before the next begins, the
/// acknowledgement is sent once all are done, and the end tells what was moved.
proof fn lemma_work_in_order(
    s: InitialView,
    steps: Seq<StepView>,
    moves: Seq<Seq<u64>>,
    results: Seq<Seq<TransferView>>,
)
    requires
        moves.len() == steps.len(),
        results.len() == steps.len(),
    ensures
        going_on(steps) + run_actions(
            s.with_left(steps),
            worked(moves, results).push(
                SyncEventView::Message { msg: Some(MessageView::ManifestAck) },
            ),
        ) == work_in_order(steps, results).push(
            SyncActionView::Finish { total: s.total + work_bytes(steps, moves) },
        ),
    decreases steps.len(),
{
    let ack = SyncEventView::Message { msg: Some(MessageView::ManifestAck) };
    let finish = SyncActionView::Finish { total: s.total + work_bytes(steps, moves) };
    let events = worked(moves, results).push(ack);
    let state = s.with_left(steps);
    if steps.len() == 0 {
        reveal_with_fuel(run_actions, 2);
        assert(events[0] == ack);
        assert(events.drop_first() =~= Seq::<SyncEventView>::empty());
        assert(going_on(steps) + run_actions(state, events) =~= work_in_order(steps, results).push(
            finish,
        ));
    } else {
        let rest = steps.drop_first();
        let later = results.drop_first();
        let done = SyncEventView::Worked { results: results[0] };
        let tail = worked(moves.drop_first(), later).push(ack);
        let counted = InitialView { total: state.total + amount(moves[0]), ..state };
        let next = InitialView { total: counted.total + batched_bytes(steps[0]), ..s };
        lemma_work_in_order(next, rest, moves.drop_first(), later);
        lemma_moving(state, moves[0]);
        assert(events =~= moving(moves[0]) + (seq![done] + tail));
        lemma_run_append(state, moving(moves[0]), seq![done] + tail);
        assert((seq![done] + tail).drop_first() =~= tail);
        assert((seq![done] + tail)[0] == done);
        assert(after_initial(counted, done) == next.with_left(rest));
        let told = sending(reports(steps[0], results[0]));
        assert(run_actions(counted, seq![done] + tail) == told + going_on(rest) + run_actions(
            next.with_left(rest),
            tail,
        ));
        assert(going_on(steps) + run_actions(state, events) =~= going_on(steps) + told + (going_on(
            rest,
        ) + run_actions(next.with_left(rest), tail)));
        assert(work_in_order(steps, results).push(finish) =~= seq![SyncActionView::Work(steps[0])]
            + told + work_in_order(rest, later).push(finish));
    }
}

/// The order of the initial sync: the manifest is sent first, the plan is answered by its steps, each
/// is performed before what came of it is reported, the acknowledgement is sent last, and the sync
/// ends with that of the agent, having moved the bytes of the batches and of the chunks.
pub proof fn lemma_sync_order(
    direction: SyncDirection,
    chunk_size: usize,
    entries: Seq<EntryView>,
    to_push: Seq<SyncView>,
    to_pull: Seq<SyncView>,
    moves: Seq<Seq<u64>>,
    results: Seq<Seq<TransferView>>,
)
    requires
        moves.len() == sync_steps(direction, chunk_size, to_push, to_pull).len(),
        results.len() == sync_steps(direction, chunk_size, to_push, to_pull).len(),
    ensures
        ({
            let begin = InitialView {
                direction,
                chunk_size,
                phase: SyncPhase::Begin,
                left: Seq::empty(),
                total: 0,
            };
            let plan = SyncEventView::Message {
                msg: Some(MessageView::SyncPlan { to_push, to_pull }),
            };
            let ack = SyncEventView::Message { msg: Some(MessageView::ManifestAck) };
            let steps = sync_steps(direction, chunk_size, to_push, to_pull);
            run_actions(
                begin,
                seq![SyncEventView::Listed { entries }, plan] + worked(moves, results).push(ack),
            ) == seq![SyncActionView::Send(MessageView::FileManifest { entries })] + work_in_order(
                steps,
                results,
            ).push(SyncActionView::Finish { total: work_bytes(steps, moves) })
        }),
{
    let begin = InitialView {
        direction,
        chunk_size,
        phase: SyncPhase::Begin,
        left: Seq::empty(),
        total: 0,
    };
    let listed = SyncEventView::Listed { entries };
    let plan = SyncEventView::Message { msg: Some(MessageView::SyncPlan { to_push, to_pull }) };
    let ack = SyncEventView::Message { msg: Some(MessageView::ManifestAck) };
    let rest = worked(moves, results).push(ack);
    let events = seq![listed, plan] + rest;
    let steps = sync_steps(direction, chunk_size, to_push, to_pull);
    let planning = after_initial(begin, listed);
    reveal_with_fuel(run_actions, 3);
    assert(events.drop_first() =~= seq![plan] + rest);
    assert((seq![plan] + rest).drop_first() =~= rest);
    assert(events[0] == listed);
    assert((seq![plan] + rest)[0] == plan);
    assert(after_initial(planning, plan) == planning.with_left(steps));
    lemma_work_in_order(planning, steps, moves, results);
    assert(run_actions(begin, events) =~= seq![
        SyncActionView::Send(MessageView::FileManifest { entries }),
    ] + (going_on(steps) + run_actions(planning.with_left(steps), rest)));
}

/// Whether the bytes that were moved in chunks while a step was under way are those of the files
/// that it moves in chunks.
pub open spec fn moved_fully(step: StepView, moved: Seq<u64>) -> bool {
    match step {
        StepView::PushChunked(files) => amount(moved) == sizes_sum(files),
        StepView::PullChunked(files) => amount(moved) == sizes_sum(files),
        _ => amount(moved) == 0,
    }
}

proof fn lemma_work_bytes(steps: Seq<StepView>, moves: Seq<Seq<u64>>)
    requires
        moves.len() == steps.len(),
        forall|i: int| 0 <= i < steps.len() ==> moved_fully(#[trigger] steps[i], moves[i]),
    ensures
        work_bytes(steps, moves) == sizes_sum(all_pushes(steps)) + sizes_sum(all_pulls(steps)),
    decreases steps.len(),
{
    if steps.len() > 0 {
        let first = steps[0];
        let rest = steps.drop_first();
        let later = moves.drop_first();
        assert forall|i: int| 0 <= i < rest.len() implies moved_fully(
            #[trigger] rest[i],
            later[i],
        ) by {
            assert(rest[i] == steps[i + 1]);
        }
        lemma_work_bytes(rest, later);
        assert(steps =~= seq![first] + rest);
        lemma_all_moves_append(seq![first], rest);
        reveal_with_fuel(all_pushes, 2);
        reveal_with_fuel(all_pulls, 2);
        assert(seq![first].drop_last() =~= Seq::<StepView>::empty());
        assert(all_pushes(seq![first]) =~= step_pushes(first));
        assert(all_pulls(seq![first]) =~= step_pulls(first));
        lemma_sizes_sum_append(step_pushes(first), all_pushes(rest));
        lemma_sizes_sum_append(step_pulls(first), all_pulls(rest));
        assert(moved_fully(steps[0], moves[0]));
    }
}

/// Where every chunked file is moved whole, the steps move as many bytes as the plan was announced
/// with.
pub proof fn lemma_total_is_the_plan(
    direction: SyncDirection,
    chunk_size: usize,
    to_push: Seq<SyncView>,
    to_pull: Seq<SyncView>,
    moves: Seq<Seq<u64>>,
)
    requires
        ({
            let steps = sync_steps(direction, chunk_size, to_push, to_pull);
            &&& moves.len() == steps.len()
            &&& forall|i: int| 0 <= i < steps.len() ==> moved_fully(#[trigger] steps[i], moves[i])
        }),
    ensures
        work_bytes(sync_steps(direction, chunk_size, to_push, to_pull), moves) == expected_bytes(
            direction,
            to_push,
            to_pull,
        ),
{
    lemma_steps_move_the_plan(direction, chunk_size, to_push, to_pull);
    lemma_work_bytes(sync_steps(direction, chunk_size, to_push, to_pull), moves);
}

/// A file is announced as ready only once a push of it succeeded, and with what the plan says of it.
pub proof fn lemma_ready_means_moved(
    s: InitialView,
    event: SyncEventView,
    path: Seq<char>,
    hash: u64,
    size: u64,
)
    requires
        s.phase is Working ==> s.left.len() > 0,
        initial_actions(s, event).contains(
            SyncActionView::Send(MessageView::FileReady { path, hash, size }),
        ),
    ensures
        s.phase is Working,
        event matches SyncEventView::Worked { results } && moved(results, path) && step_pushes(
            s.left[0],
        ).contains(SyncView { path, hash, size }),
{
    let ready = SyncActionView::Send(MessageView::FileReady { path, hash, size });
    let actions = initial_actions(s, event);
    let i = actions.index_of(ready);
    assert(actions[i] == ready);
    if let SyncEventView::Worked { results } = event {
        if s.phase is Working {
            let told = reports(s.left[0], results);
            if i < told.len() {
                assert(actions[i] == sending(told)[i]);
                assert(told[i] == (MessageView::FileReady { path, hash, size }));
                let files = step_pushes(s.left[0]);
                let kept = arrived(files, results);
                let keep = |f: SyncView| moved(results, f.path);
                assert(told == announcements(kept));
                let file = kept[i];
                assert(file == (SyncView { path, hash, size }));
                files.lemma_filter_pred(keep, i);
                assert(kept.contains(file));
                lemma_filter_contains_iff(files, keep, file);
            } else {
                assert(actions[i] == going_on(s.left.drop_first())[i - told.len()]);
            }
        }
    }
}

/// Every file whose push succeeded is announced once its step is done.
pub proof fn lemma_moved_means_ready(
    s: InitialView,
    results: Seq<TransferView>,
    file: SyncView,
)
    requires
        s.phase is Working,
        s.left.len() > 0,
        step_pushes(s.left[0]).contains(file),
        moved(results, file.path),
    ensures
        initial_actions(s, SyncEventView::Worked { results }).contains(
            SyncActionView::Send(
                MessageView::FileReady { path: file.path, hash: file.hash, size: file.size },
            ),
        ),
{
    let files = step_pushes(s.left[0]);
    let keep = |f: SyncView| moved(results, f.path);
    let kept = arrived(files, results);
    lemma_filter_contains_iff(files, keep, file);
    let i = kept.index_of(file);
    assert(kept[i] == file);
    let told = reports(s.left[0], results);
    let actions = initial_actions(s, SyncEventView::Worked { results });
    assert(told == announcements(kept));
    assert(actions[i] == sending(told)[i]);
    assert(actions[i] == SyncActionView::Send(
        MessageView::FileReady { path: file.path, hash: file.hash, size: file.size },
    ));
}

// ---------------------------------------------------------------------------------------------
// What comes of each thing that happens
// ---------------------------------------------------------------------------------------------

/// A file that comes inline while the plan or the last word is awaited is written as it came, and its
/// bytes count; the sync goes on waiting.
pub proof fn lemma_inline_file_is_taken(
    s: InitialView,
    path: Seq<char>,
    hash: u64,
    data: Seq<u8>,
)
    requires
        s.phase is Planning || s.phase is Closing,
    ensures
        ({
            let event = SyncEventView::Message {
                msg: Some(MessageView::FileContent { path, hash, data }),
            };
            &&& initial_actions(s, event) == seq![SyncActionView::Write { path, hash, data }]
            &&& after_initial(s, event) == (InitialView { total: s.total + data.len(), ..s })
        }),
{
}

/// The manifest is sent as the tree was listed. The plan is followed whatever is in it, the end of
/// the connection ends the sync, and no other message while the plan is awaited leads to anything.
pub proof fn lemma_plan_is_followed(
    s: InitialView,
    entries: Seq<EntryView>,
    to_push: Seq<SyncView>,
    to_pull: Seq<SyncView>,
    msg: MessageView,
)
    requires
        !(msg is SyncPlan),
        !(msg is FileContent),
    ensures
        s.phase is Begin ==> {
            let event = SyncEventView::Listed { entries };
            &&& initial_actions(s, event) == seq![
                SyncActionView::Send(MessageView::FileManifest { entries }),
            ]
            &&& after_initial(s, event) == (InitialView { phase: SyncPhase::Planning, ..s })
        },
        s.phase is Planning ==> {
            let event = SyncEventView::Message {
                msg: Some(MessageView::SyncPlan { to_push, to_pull }),
            };
            let steps = sync_steps(s.direction, s.chunk_size, to_push, to_pull);
            let closed = SyncEventView::Message { msg: None };
            let other = SyncEventView::Message { msg: Some(msg) };
            &&& steps.len() > 0 ==> initial_actions(s, event) == seq![
                SyncActionView::Work(steps[0]),
            ] && after_initial(s, event) == (InitialView {
                phase: SyncPhase::Working,
                left: steps,
                ..s
            })
            &&& steps.len() == 0 ==> initial_actions(s, event) == seq![
                SyncActionView::Send(MessageView::ManifestAck),
            ] && after_initial(s, event) == (InitialView {
                phase: SyncPhase::Closing,
                left: steps,
                ..s
            })
            &&& initial_actions(s, closed) == seq![SyncActionView::Fail]
            &&& after_initial(s, closed) == (InitialView { phase: SyncPhase::Lost, ..s })
            &&& initial_actions(s, other).len() == 0
            &&& after_initial(s, other) == s
        },
{
}

/// While the last word is awaited, the agent's acknowledgement ends the sync with the total, the end
/// of the connection ends it too early, and no other message leads to anything.
pub proof fn lemma_last_word_is_awaited(s: InitialView, msg: MessageView)
    requires
        s.phase is Closing,
        !(msg is ManifestAck),
        !(msg is FileContent),
    ensures
        ({
            let ack = SyncEventView::Message { msg: Some(MessageView::ManifestAck) };
            let closed = SyncEventView::Message { msg: None };
            let other = SyncEventView::Message { msg: Some(msg) };
            &&& initial_actions(s, ack) == seq![SyncActionView::Finish { total: s.total }]
            &&& after_initial(s, ack) == (InitialView { phase: SyncPhase::Over, ..s })
            &&& initial_actions(s, closed) == seq![SyncActionView::Fail]
            &&& after_initial(s, closed) == (InitialView { phase: SyncPhase::Lost, ..s })
            &&& initial_actions(s, other).len() == 0
            &&& after_initial(s, other) == s
        }),
{
}

/// While a step is under way, bytes that it moves in chunks count and nothing else comes of them, and
/// messages wait. Once it is done, what came of it is reported, and the next step begins or, after the
/// last, the acknowledgement is sent.
pub proof fn lemma_step_is_performed(
    s: InitialView,
    results: Seq<TransferView>,
    bytes: u64,
    msg: Option<MessageView>,
)
    requires
        s.phase is Working,
        s.left.len() > 0,
    ensures
        initial_actions(s, SyncEventView::Moved { bytes }).len() == 0,
        after_initial(s, SyncEventView::Moved { bytes }) == (InitialView {
            total: s.total + bytes as nat,
            ..s
        }),
        initial_actions(s, SyncEventView::Message { msg }).len() == 0,
        after_initial(s, SyncEventView::Message { msg }) == s,
        ({
            let done = SyncEventView::Worked { results };
            let told = reports(s.left[0], results);
            let actions = initial_actions(s, done);
            let rest = s.left.drop_first();
            &&& actions.len() == told.len() + 1
            &&& forall|i: int|
                0 <= i < told.len() ==> #[trigger] actions[i] == SyncActionView::Send(told[i])
            &&& rest.len() > 0 ==> actions.last() == SyncActionView::Work(rest[0])
                && after_initial(s, done).phase is Working
            &&& rest.len() == 0 ==> actions.last() == SyncActionView::Send(MessageView::ManifestAck)
                && after_initial(s, done).phase is Closing
            &&& after_initial(s, done).left == rest
            &&& after_initial(s, done).direction == s.direction
            &&& after_initial(s, done).chunk_size == s.chunk_size
            &&& (s.left[0] is PushBatched ==> after_initial(s, done).total == s.total + sizes_sum(
                step_pushes(s.left[0]),
            ))
            &&& (s.left[0] is PullBatched ==> after_initial(s, done).total == s.total + sizes_sum(
                step_pulls(s.left[0]),
            ))
            &&& (s.left[0] is PushChunked || s.left[0] is PullChunked || s.left[0] is Settle
                ==> after_initial(s, done).total == s.total)
        }),
{
    let told = reports(s.left[0], results);
    let actions = initial_actions(s, SyncEventView::Worked { results });
    assert forall|i: int| 0 <= i < told.len() implies #[trigger] actions[i]
        == SyncActionView::Send(told[i]) by {
        assert(actions[i] == sending(told)[i]);
    }
    assert(actions.last() == going_on(s.left.drop_first())[0]);
}

/// A sync that is over, or was lost, does nothing more.
pub proof fn lemma_over_is_over(s: InitialView, event: SyncEventView)
    requires
        s.phase is Over || s.phase is Lost,
    ensures
        initial_actions(s, event).len() == 0,
        after_initial(s, event) == s,
{
}

/// Of the files of a step that pushes, those that one of its transfers moved are announced with what
/// the plan says of them, in their order, and no others; of those that settle, likewise acknowledged.
/// A step that pulls is not reported by itself.
pub proof fn lemma_reports_one_more(
    files: Seq<SyncView>,
    file: SyncView,
    results: Seq<TransferView>,
)
    ensures
        ({
            let here = exists|i: int|
                0 <= i < results.len() && (#[trigger] results[i]).path == file.path
                    && results[i].success;
            let more = files.push(file);
            let ready = MessageView::FileReady {
                path: file.path,
                hash: file.hash,
                size: file.size,
            };
            let received = MessageView::FileReceived { path: file.path, hash: file.hash };
            let before = reports(StepView::PushBatched(files), results);
            let settled = reports(StepView::Settle(files), results);
            &&& reports(StepView::PushBatched(more), results) == if here {
                before.push(ready)
            } else {
                before
            }
            &&& reports(StepView::PushChunked(more), results) == reports(
                StepView::PushBatched(more),
                results,
            )
            &&& reports(StepView::Settle(more), results) == if here {
                settled.push(received)
            } else {
                settled
            }
        }),
        reports(StepView::PushBatched(Seq::empty()), results).len() == 0,
        reports(StepView::PushChunked(Seq::empty()), results).len() == 0,
        reports(StepView::Settle(Seq::empty()), results).len() == 0,
        reports(StepView::PullBatched(files), results).len() == 0,
        reports(StepView::PullChunked(files), results).len() == 0,
{
    let keep = |f: SyncView| moved(results, f.path);
    let more = files.push(file);
    files.lemma_filter_push(file, keep);
    let kept = arrived(files, results);
    assert(announcements(kept.push(file)) =~= announcements(kept).push(
        MessageView::FileReady { path: file.path, hash: file.hash, size: file.size },
    ));
    assert(acknowledgements(kept.push(file)) =~= acknowledgements(kept).push(
        MessageView::FileReceived { path: file.path, hash: file.hash },
    ));
    reveal(Seq::filter);
}

/// The bytes of files are the sum of their sizes.
pub proof fn lemma_sizes_add_up(files: Seq<SyncView>, file: SyncView)
    ensures
        sizes_sum(Seq::empty()) == 0,
        sizes_sum(files.push(file)) == sizes_sum(files) + file.size,
{
    assert(files.push(file).drop_last() =~= files);
}

/// What is to be moved is what goes the ways that are open.
pub proof fn lemma_expected(
    direction: SyncDirection,
    to_push: Seq<SyncView>,
    to_pull: Seq<SyncView>,
)
    ensures
        direction is Bidirectional ==> expected_bytes(direction, to_push, to_pull) == sizes_sum(
            to_push,
        ) + sizes_sum(to_pull),
        direction is LocalToBeam ==> expected_bytes(direction, to_push, to_pull) == sizes_sum(
            to_push,
        ),
        direction is BeamToLocal ==> expected_bytes(direction, to_push, to_pull) == sizes_sum(
            to_pull,
        ),
        direction is Bidirectional ==> expected_files(direction, to_push.len(), to_pull.len())
            == to_push.len() + to_pull.len(),
        direction is LocalToBeam ==> expected_files(direction, to_push.len(), to_pull.len())
            == to_push.len(),
        direction is BeamToLocal ==> expected_files(direction, to_push.len(), to_pull.len())
            == to_pull.len(),
{
}

/// Every transfer that failed counts as a failure, and no other.
pub proof fn lemma_failures_one_more(results: Seq<TransferView>, result: TransferView)
    ensures
        failures(Seq::empty()).len() == 0,
        failures(results.push(result)).len() == failures(results).len() + if result.success {
            0int
        } else {
            1int
        },
{
    results.lemma_filter_push(result, |r: TransferView| !r.success);
    reveal(Seq::filter);
}

/// A file travels in a batch exactly where it is not larger than a chunk, and in chunks otherwise.
pub proof fn lemma_steps_by_size(
    direction: SyncDirection,
    chunk_size: usize,
    to_push: Seq<SyncView>,
    to_pull: Seq<SyncView>,
    i: int,
    file: SyncView,
)
    requires
        0 <= i < sync_steps(direction, chunk_size, to_push, to_pull).len(),
    ensures
        ({
            let step = sync_steps(direction, chunk_size, to_push, to_pull)[i];
            let moved = step_pushes(step).contains(file) || step_pulls(step).contains(file);
            &&& step is PushBatched || step is PullBatched ==> (moved ==> file.size <= chunk_size)
            &&& step is PushChunked || step is PullChunked ==> (moved ==> file.size > chunk_size)
            &&& step matches StepView::Settle(files) ==> files == to_pull
        }),
{
    let steps = sync_steps(direction, chunk_size, to_push, to_pull);
    let step = steps[i];
    let first = if direction.pushes() {
        push_steps(to_push, chunk_size)
    } else {
        Seq::empty()
    };
    let second = if direction.pulls() {
        pull_steps(to_pull, chunk_size)
    } else {
        Seq::empty()
    };
    assert(steps == first + second);
    assert(step == if i < first.len() {
        first[i]
    } else {
        second[i - first.len()]
    });
    let small = |f: SyncView| in_one_piece(f.size, chunk_size);
    let large = |f: SyncView| !in_one_piece(f.size, chunk_size);
    lemma_filter_contains_iff(to_push, small, file);
    lemma_filter_contains_iff(to_push, large, file);
    lemma_filter_contains_iff(to_pull, small, file);
    lemma_filter_contains_iff(to_pull, large, file);
}

/// The place of a kind of step in the order of the initial sync.
pub open spec fn rank(step: StepView) -> int {
    match step {
        StepView::PushBatched(_) => 0,
        StepView::PushChunked(_) => 1,
        StepView::PullBatched(_) => 2,
        StepView::PullChunked(_) => 3,
        StepView::Settle(_) => 4,
    }
}

proof fn lemma_push_ranks(files: Seq<SyncView>, chunk_size: usize, i: int, j: int)
    requires
        0 <= i < j < push_steps(files, chunk_size).len() || (0 <= i == j < push_steps(
            files,
            chunk_size,
        ).len()),
    ensures
        rank(push_steps(files, chunk_size)[i]) <= 1,
        i < j ==> rank(push_steps(files, chunk_size)[i]) < rank(push_steps(files, chunk_size)[j]),
{
    let whole = whole_files(files, chunk_size);
    let huge = huge_files(files, chunk_size);
    let a = unless_empty(whole, StepView::PushBatched(whole));
    let b = unless_empty(huge, StepView::PushChunked(huge));
    assert(push_steps(files, chunk_size) == a + b);
}

proof fn lemma_pull_ranks(files: Seq<SyncView>, chunk_size: usize, i: int, j: int)
    requires
        0 <= i < j < pull_steps(files, chunk_size).len() || (0 <= i == j < pull_steps(
            files,
            chunk_size,
        ).len()),
    ensures
        rank(pull_steps(files, chunk_size)[i]) >= 2,
        i < j ==> rank(pull_steps(files, chunk_size)[i]) < rank(pull_steps(files, chunk_size)[j]),
{
    let whole = whole_files(files, chunk_size);
    let huge = huge_files(files, chunk_size);
    let a = unless_empty(whole, StepView::PullBatched(whole));
    let b = unless_empty(huge, StepView::PullChunked(huge));
    let c = unless_empty(files, StepView::Settle(files));
    assert(pull_steps(files, chunk_size) == a + b + c);
    assert(a.len() <= 1 && b.len() <= 1 && c.len() <= 1);
}

/// Whatever is pushed is pushed before anything is pulled, and batches go before chunks.
pub proof fn lemma_steps_in_order(
    direction: SyncDirection,
    chunk_size: usize,
    to_push: Seq<SyncView>,
    to_pull: Seq<SyncView>,
    i: int,
    j: int,
)
    requires
        0 <= i < j < sync_steps(direction, chunk_size, to_push, to_pull).len(),
    ensures
        rank(sync_steps(direction, chunk_size, to_push, to_pull)[i]) < rank(
            sync_steps(direction, chunk_size, to_push, to_pull)[j],
        ),
{
    let steps = sync_steps(direction, chunk_size, to_push, to_pull);
    let first = if direction.pushes() {
        push_steps(to_push, chunk_size)
    } else {
        Seq::empty()
    };
    let n = first.len() as int;
    if j < n {
        lemma_push_ranks(to_push, chunk_size, i, j);
    } else if i >= n {
        lemma_pull_ranks(to_pull, chunk_size, i - n, j - n);
    } else {
        lemma_push_ranks(to_push, chunk_size, i, i);
        lemma_pull_ranks(to_pull, chunk_size, j - n, j - n);
    }
}

/// The pulled files, all of them, are settled at the end, where there are any.
pub proof fn lemma_settled_at_the_end(
    direction: SyncDirection,
    chunk_size: usize,
    to_push: Seq<SyncView>,
    to_pull: Seq<SyncView>,
)
    requires
        direction != SyncDirection::LocalToBeam,
        to_pull.len() > 0,
    ensures
        sync_steps(direction, chunk_size, to_push, to_pull).len() > 0,
        sync_steps(direction, chunk_size, to_push, to_pull).last() == StepView::Settle(to_pull),
{
    let second = pull_steps(to_pull, chunk_size);
    assert(second.last() == StepView::Settle(to_pull));
    assert(sync_steps(direction, chunk_size, to_push, to_pull).last() == second.last());
}

/// A step, an event and an action of the initial sync say what they carry, all of it.
pub proof fn lemma_initial_views(
    files: Vec<SyncEntry>,
    entries: Vec<ManifestEntry>,
    msg: Message,
    results: Vec<TransferResult>,
    path: String,
    hash: u64,
    data: Vec<u8>,
    step: Step,
    total: u64,
)
    ensures
        ({
            let all = files@.map_values(|f: SyncEntry| f@);
            &&& Step::PushBatched(files)@ == StepView::PushBatched(all)
            &&& Step::PushChunked(files)@ == StepView::PushChunked(all)
            &&& Step::PullBatched(files)@ == StepView::PullBatched(all)
            &&& Step::PullChunked(files)@ == StepView::PullChunked(all)
            &&& Step::Settle(files)@ == StepView::Settle(all)
        }),
        (SyncEvent::Listed { entries })@ == (SyncEventView::Listed {
            entries: entries@.map_values(|e: ManifestEntry| e@),
        }),
        (SyncEvent::Message { msg: Some(msg) })@ == (SyncEventView::Message { msg: Some(msg@) }),
        (SyncEvent::Message { msg: None })@ == (SyncEventView::Message { msg: None }),
        (SyncEvent::Moved { bytes: total })@ == (SyncEventView::Moved { bytes: total }),
        (SyncEvent::Worked { results })@ == (SyncEventView::Worked {
            results: results@.map_values(|r: TransferResult| r@),
        }),
        SyncAction::Send(msg)@ == SyncActionView::Send(msg@),
        (SyncAction::Write { path, hash, data })@ == (SyncActionView::Write {
            path: path@,
            hash,
            data: data@,
        }),
        SyncAction::Work(step)@ == SyncActionView::Work(step@),
        (SyncAction::Finish { total })@ == (SyncActionView::Finish { total: total as nat }),
        SyncAction::Fail@ is Fail,
{
}

/// The steps for a plan bring about what the plan does, in whichever order they move its files.
proof fn lemma_steps_apply_the_plan(
    local: Seq<EntryView>,
    beam: Seq<EntryView>,
    direction: SyncDirection,
    chunk_size: usize,
)
    requires
        distinct(local),
        distinct(beam),
    ensures
        ({
            let p = plan(local, beam, direction);
            let steps = sync_steps(direction, chunk_size, p.to_push, p.to_pull);
            &&& direction.pushes() ==> applied(files(beam), all_pushes(steps)) == applied(
                files(beam),
                p.to_push,
            )
            &&& direction.pulls() ==> applied(files(local), all_pulls(steps)) == applied(
                files(local),
                p.to_pull,
            )
        }),
{
    let p = plan(local, beam, direction);
    let steps = sync_steps(direction, chunk_size, p.to_push, p.to_pull);
    assert forall|file: SyncView| #[trigger]
        p.to_push.contains(file) && direction.pushes() <==> all_pushes(steps).contains(file) by {
        lemma_steps_follow_plan(direction, chunk_size, p.to_push, p.to_pull, file);
        lemma_all_moves(steps, file);
    }
    assert forall|file: SyncView| #[trigger]
        p.to_pull.contains(file) && direction.pulls() <==> all_pulls(steps).contains(file) by {
        lemma_steps_follow_plan(direction, chunk_size, p.to_push, p.to_pull, file);
        lemma_all_moves(steps, file);
    }
    if direction.pushes() {
        lemma_pushed_paths(local, beam, direction);
        lemma_order_does_not_matter(files(beam), p.to_push, all_pushes(steps), files(local));
    }
    if direction.pulls() {
        lemma_pulled_paths(local, beam, direction);
        lemma_order_does_not_matter(files(local), p.to_pull, all_pulls(steps), files(beam));
    }
}

/// Every local file that takes part in the sync is on the beam after the initial sync, under its names
/// and with its contents, whatever its size, how deep it lies and what the beam held before, where
/// files go that way and no path is a file on one side and a directory on the other.
pub proof fn lemma_local_file_is_synced(
    local_rules: Seq<Patterns>,
    local_root: Seq<char>,
    local_nodes: Seq<FsNode>,
    beam_rules: Seq<Patterns>,
    beam_root: Seq<char>,
    beam_nodes: Seq<FsNode>,
    direction: SyncDirection,
    chunk_size: usize,
    trail: Seq<int>,
)
    requires
        orderly(local_nodes),
        orderly(beam_nodes),
        direction != SyncDirection::BeamToLocal,
        same_kinds(
            listing(local_rules, local_root, local_root, local_nodes),
            listing(beam_rules, beam_root, beam_root, beam_nodes),
        ),
        item_at(local_nodes, trail) is Some,
        item_at(local_nodes, trail)->0 is File,
        !ignored(local_rules, names_on(local_nodes, trail), false),
        forall|k: int|
            1 <= k < names_on(local_nodes, trail).len() ==> !ignored(
                local_rules,
                #[trigger] names_on(local_nodes, trail).take(k),
                true,
            ),
    ensures
        ({
            let local = listing(local_rules, local_root, local_root, local_nodes);
            let beam = listing(beam_rules, beam_root, beam_root, beam_nodes);
            let p = plan(local, beam, direction);
            let steps = sync_steps(direction, chunk_size, p.to_push, p.to_pull);
            let after = applied(files(beam), all_pushes(steps));
            let path = join(names_on(local_nodes, trail), seq!['/']);
            &&& after.contains_key(path)
            &&& after[path] == item_at(local_nodes, trail)->0->File_hash
        }),
{
    let local = listing(local_rules, local_root, local_root, local_nodes);
    let beam = listing(beam_rules, beam_root, beam_root, beam_nodes);
    let path = join(names_on(local_nodes, trail), seq!['/']);
    let node = item_at(local_nodes, trail)->0;
    lemma_manifest_is_distinct(local_rules, local_root, local_nodes);
    lemma_manifest_is_distinct(beam_rules, beam_root, beam_nodes);
    lemma_tree_is_listed_by_names(local_rules, local_root, local_nodes, trail);
    let i = choose|i: int|
        0 <= i < local.len() && (#[trigger] local[i]).path == path && tells_of(local[i], node);
    lemma_listed_file_is_held(local, i);
    lemma_push_mirrors(local, beam, direction, path);
    lemma_steps_apply_the_plan(local, beam, direction, chunk_size);
}

/// Every file that only the beam has, and that takes part in the sync, is on the local side after the
/// initial sync, under its names and with its contents, where files come that way.
pub proof fn lemma_beam_file_is_synced(
    local: Seq<EntryView>,
    beam_rules: Seq<Patterns>,
    beam_root: Seq<char>,
    beam_nodes: Seq<FsNode>,
    direction: SyncDirection,
    chunk_size: usize,
    trail: Seq<int>,
)
    requires
        distinct(local),
        orderly(beam_nodes),
        direction != SyncDirection::LocalToBeam,
        item_at(beam_nodes, trail) is Some,
        item_at(beam_nodes, trail)->0 is File,
        !lists(local, join(names_on(beam_nodes, trail), seq!['/'])),
        !ignored(beam_rules, names_on(beam_nodes, trail), false),
        forall|k: int|
            1 <= k < names_on(beam_nodes, trail).len() ==> !ignored(
                beam_rules,
                #[trigger] names_on(beam_nodes, trail).take(k),
                true,
            ),
    ensures
        ({
            let beam = listing(beam_rules, beam_root, beam_root, beam_nodes);
            let p = plan(local, beam, direction);
            let steps = sync_steps(direction, chunk_size, p.to_push, p.to_pull);
            let after = applied(files(local), all_pulls(steps));
            let path = join(names_on(beam_nodes, trail), seq!['/']);
            &&& after.contains_key(path)
            &&& after[path] == item_at(beam_nodes, trail)->0->File_hash
        }),
{
    let beam = listing(beam_rules, beam_root, beam_root, beam_nodes);
    let path = join(names_on(beam_nodes, trail), seq!['/']);
    let node = item_at(beam_nodes, trail)->0;
    lemma_manifest_is_distinct(beam_rules, beam_root, beam_nodes);
    lemma_tree_is_listed_by_names(beam_rules, beam_root, beam_nodes, trail);
    let i = choose|i: int|
        0 <= i < beam.len() && (#[trigger] beam[i]).path == path && tells_of(beam[i], node);
    lemma_listed_file_is_held(beam, i);
    lemma_lookup_lists(local, path);
    lemma_pull_adds(local, beam, direction, path);
    lemma_steps_apply_the_plan(local, beam, direction, chunk_size);
}

} // verus!
