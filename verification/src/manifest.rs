//! Manifests of a directory tree, and the plan that reconciles two of them.

use crate::ignore_rules::{filtered, ignored, lemma_filtered_by_names, IgnoreRules, Patterns};
use crate::messages::{EntryView, ManifestEntry, SyncDirection, SyncEntry, SyncView};
use crate::paths::{
    below, components, join_path, lemma_pushed_along, lemma_pushed_relative,
    lemma_relative_components, lemma_relative_is_the_rest, proper, pushed, relative,
    relative_components, relative_path,
};
use crate::states::{FileState, PathMap};
use crate::text::{join, lemma_views_push, views};
use vstd::hash_map::StringHashMap;
use vstd::prelude::*;

verus! {

/// A file or a directory, as it was found on disk.
pub enum FsNode {
    File { name: String, hash: u64, mtime: u64, size: u64 },
    Dir { name: String, children: Vec<FsNode> },
}

/// What a manifest says of the items `nodes` of the directory `dir`, for the tree at `base`: each
/// item that the rules let through, in order, and behind a directory what lies in it.
pub open spec fn listing(
    rules: Seq<Patterns>,
    base: Seq<char>,
    dir: Seq<char>,
    nodes: Seq<FsNode>,
) -> Seq<EntryView>
    decreases nodes,
{
    if nodes.len() == 0 {
        Seq::empty()
    } else {
        listing(rules, base, dir, nodes.drop_last()) + node_entries(rules, base, dir, nodes.last())
    }
}

/// What a manifest says of one item of the directory `dir`.
pub open spec fn node_entries(
    rules: Seq<Patterns>,
    base: Seq<char>,
    dir: Seq<char>,
    node: FsNode,
) -> Seq<EntryView>
    decreases node,
{
    match node {
        FsNode::File { name, hash, mtime, size } => {
            let path = pushed(dir, name@);
            if filtered(rules, base, path, false) {
                Seq::empty()
            } else {
                seq![EntryView { path: relative(base, path), hash, mtime, size, is_dir: false }]
            }
        },
        FsNode::Dir { name, children } => {
            let path = pushed(dir, name@);
            if filtered(rules, base, path, true) {
                Seq::empty()
            } else {
                seq![
                    EntryView {
                        path: relative(base, path),
                        hash: 0,
                        mtime: 0,
                        size: 0,
                        is_dir: true,
                    },
                ] + listing(rules, base, path, children@)
            }
        },
    }
}

/// The manifest of the tree at `root`, whose items are `nodes`.
pub fn build_manifest(root: &str, nodes: &Vec<FsNode>, ignore_rules: &IgnoreRules) -> (entries: Vec<
    ManifestEntry,
>)
    ensures
        views(entries@) == listing(ignore_rules@, root@, root@, nodes@),
{
    let mut entries: Vec<ManifestEntry> = Vec::new();
    walk_dir(root, root, nodes, ignore_rules, &mut entries);
    assert(views(Seq::<ManifestEntry>::empty()) =~= Seq::<EntryView>::empty());
    entries
}

fn walk_dir(
    base: &str,
    dir: &str,
    nodes: &Vec<FsNode>,
    ignore_rules: &IgnoreRules,
    entries: &mut Vec<ManifestEntry>,
)
    ensures
        views(final(entries)@) == views(old(entries)@) + listing(
            ignore_rules@,
            base@,
            dir@,
            nodes@,
        ),
    decreases nodes,
{
    let mut i: usize = 0;
    assert(views(entries@) =~= views(old(entries)@) + listing(
        ignore_rules@,
        base@,
        dir@,
        nodes@.take(0),
    ));
    while i < nodes.len()
        invariant
            i <= nodes@.len(),
            views(entries@) == views(old(entries)@) + listing(
                ignore_rules@,
                base@,
                dir@,
                nodes@.take(i as int),
            ),
        decreases nodes@.len() - i,
    {
        let ghost before = views(entries@);
        let ghost node = nodes@[i as int];
        proof {
            assert(nodes@.take(i + 1).drop_last() =~= nodes@.take(i as int));
            assert(nodes@.take(i + 1).last() == node);
        }
        match &nodes[i] {
            FsNode::File { name, hash, mtime, size } => {
                let path = join_path(dir, name.as_str());
                if !ignore_rules.filter_path(base, path.as_str(), false) {
                    let entry = ManifestEntry {
                        path: relative_path(base, path.as_str()),
                        hash: *hash,
                        mtime: *mtime,
                        size: *size,
                        is_dir: false,
                    };
                    proof {
                        lemma_views_push(entries@, entry);
                    }
                    entries.push(entry);
                }
            },
            FsNode::Dir { name, children } => {
                let path = join_path(dir, name.as_str());
                if !ignore_rules.filter_path(base, path.as_str(), true) {
                    let entry = ManifestEntry {
                        path: relative_path(base, path.as_str()),
                        hash: 0,
                        mtime: 0,
                        size: 0,
                        is_dir: true,
                    };
                    proof {
                        lemma_views_push(entries@, entry);
                    }
                    entries.push(entry);
                    walk_dir(base, path.as_str(), children, ignore_rules, entries);
                }
            },
        }
        assert(views(entries@) =~= before + node_entries(ignore_rules@, base@, dir@, node));
        assert(views(entries@) =~= views(old(entries)@) + listing(
            ignore_rules@,
            base@,
            dir@,
            nodes@.take(i + 1),
        ));
        i = i + 1;
    }
    assert(nodes@.take(i as int) =~= nodes@);
}

/// Whether `entry` stands for `path`, and the rules let `path` through.
pub open spec fn lets_through(
    rules: Seq<Patterns>,
    base: Seq<char>,
    path: Seq<char>,
    entry: EntryView,
) -> bool {
    entry.path == relative(base, path) && !filtered(rules, base, path, entry.is_dir)
}

/// Everything in a manifest is something that the rules let through.
pub proof fn lemma_manifest_respects_rules(
    rules: Seq<Patterns>,
    base: Seq<char>,
    dir: Seq<char>,
    nodes: Seq<FsNode>,
    i: int,
)
    requires
        0 <= i < listing(rules, base, dir, nodes).len(),
    ensures
        exists|path: Seq<char>|
            #[trigger] lets_through(rules, base, path, listing(rules, base, dir, nodes)[i]),
    decreases nodes,
{
    let before = listing(rules, base, dir, nodes.drop_last());
    let entries = node_entries(rules, base, dir, nodes.last());
    let entry = listing(rules, base, dir, nodes)[i];
    assert(listing(rules, base, dir, nodes) == before + entries);
    if i < before.len() {
        lemma_manifest_respects_rules(rules, base, dir, nodes.drop_last(), i);
        let path = choose|path: Seq<char>| #[trigger] lets_through(rules, base, path, before[i]);
        assert(lets_through(rules, base, path, entry));
    } else {
        let k = i - before.len();
        assert(entry == entries[k]);
        match nodes.last() {
            FsNode::File { name, hash, mtime, size } => {
                assert(lets_through(rules, base, pushed(dir, name@), entry));
            },
            FsNode::Dir { name, children } => {
                let inner = pushed(dir, name@);
                if k == 0 {
                    assert(lets_through(rules, base, inner, entry));
                } else {
                    let below = listing(rules, base, inner, children@);
                    assert(entry == below[k - 1]);
                    lemma_manifest_respects_rules(rules, base, inner, children@, k - 1);
                    let path = choose|path: Seq<char>| #[trigger]
                        lets_through(rules, base, path, below[k - 1]);
                    assert(lets_through(rules, base, path, entry));
                }
            },
        }
    }
}

/// What the files of a manifest are known by.
pub open spec fn recorded(
    states: Map<Seq<char>, FileState>,
    entries: Seq<EntryView>,
) -> Map<Seq<char>, FileState>
    decreases entries.len(),
{
    if entries.len() == 0 {
        states
    } else {
        let earlier = recorded(states, entries.drop_last());
        let last = entries.last();
        if last.is_dir {
            earlier
        } else {
            earlier.insert(
                last.path,
                FileState { hash: last.hash, mtime: last.mtime, size: last.size },
            )
        }
    }
}

/// Remembers the files of a manifest.
pub fn record_files(states: &mut PathMap<FileState>, entries: &Vec<ManifestEntry>)
    requires
        old(states).wf(),
    ensures
        final(states).wf(),
        final(states)@ == recorded(old(states)@, views(entries@)),
{
    let ghost all = views(entries@);
    let mut i: usize = 0;
    while i < entries.len()
        invariant
            i <= entries@.len(),
            all == views(entries@),
            states.wf(),
            states@ == recorded(old(states)@, all.take(i as int)),
        decreases entries@.len() - i,
    {
        proof {
            assert(all.take(i + 1).drop_last() =~= all.take(i as int));
            assert(all.take(i + 1).last() == entries@[i as int]@);
        }
        let entry = &entries[i];
        if !entry.is_dir {
            states.insert(
                &entry.path,
                FileState { hash: entry.hash, mtime: entry.mtime, size: entry.size },
            );
        }
        i = i + 1;
    }
    assert(all.take(i as int) =~= all);
}

/// Each file of a manifest is remembered as it stands there.
pub proof fn lemma_recorded_files(
    states: Map<Seq<char>, FileState>,
    entries: Seq<EntryView>,
    i: int,
)
    requires
        distinct(entries),
        0 <= i < entries.len(),
        !entries[i].is_dir,
    ensures
        recorded(states, entries).contains_key(entries[i].path),
        recorded(states, entries)[entries[i].path] == (FileState {
            hash: entries[i].hash,
            mtime: entries[i].mtime,
            size: entries[i].size,
        }),
    decreases entries.len(),
{
    if i < entries.len() - 1 {
        lemma_distinct_shorter(entries);
        assert(entries.drop_last()[i] == entries[i]);
        assert(entries.last() == entries[entries.len() - 1]);
        lemma_recorded_files(states, entries.drop_last(), i);
    }
}

proof fn lemma_distinct_shorter(entries: Seq<EntryView>)
    requires
        distinct(entries),
        entries.len() > 0,
    ensures
        distinct(entries.drop_last()),
{
    assert forall|a: int, b: int| 0 <= a < b < entries.drop_last().len() implies (
    #[trigger] entries.drop_last()[a]).path != (#[trigger] entries.drop_last()[b]).path by {
        assert(entries[a].path != entries[b].path);
    }
}

/// What a manifest says of `path`: the last entry for it.
pub open spec fn lookup(entries: Seq<EntryView>, path: Seq<char>) -> Option<EntryView>
    decreases entries.len(),
{
    if entries.len() == 0 {
        None
    } else if entries.last().path == path {
        Some(entries.last())
    } else {
        lookup(entries.drop_last(), path)
    }
}

/// What a plan says of a manifest entry.
pub open spec fn sync_view(entry: EntryView) -> SyncView {
    SyncView { path: entry.path, hash: entry.hash, size: entry.size }
}

/// Whether the file `entry` has to go to a side that holds `held`: it is not there, or differs.
pub open spec fn to_send(held: Seq<EntryView>, entry: EntryView) -> bool {
    !entry.is_dir && match lookup(held, entry.path) {
        Some(other) => other.hash != entry.hash,
        None => true,
    }
}

/// Whether the file `entry` is unknown to a side that holds `held`.
pub open spec fn to_fetch(held: Seq<EntryView>, entry: EntryView) -> bool {
    !entry.is_dir && lookup(held, entry.path) is None
}

/// The plan that reconciles the beam with the local side.
#[verifier::ext_equal]
pub struct PlanView {
    /// The directories that the beam is to create.
    pub create_dirs: Seq<Seq<char>>,
    /// The files that the local side is to push to the beam.
    pub to_push: Seq<SyncView>,
    /// The files that the local side is to pull from the beam.
    pub to_pull: Seq<SyncView>,
}

/// The plan for the manifest `local` of the local side and the manifest `beam` of the beam.
pub open spec fn plan(
    local: Seq<EntryView>,
    beam: Seq<EntryView>,
    direction: SyncDirection,
) -> PlanView {
    PlanView {
        create_dirs: if direction.pushes() {
            local.filter(|e: EntryView| e.is_dir).map_values(|e: EntryView| e.path)
        } else {
            Seq::empty()
        },
        to_push: if direction.pushes() {
            local.filter(|e: EntryView| to_send(beam, e)).map_values(|e: EntryView| sync_view(e))
        } else {
            Seq::empty()
        },
        to_pull: if direction.pulls() {
            beam.filter(|e: EntryView| to_fetch(local, e)).map_values(|e: EntryView| sync_view(e))
        } else {
            Seq::empty()
        },
    }
}

/// The plan that reconciles the beam with the local side.
pub struct Plan {
    /// The directories that the beam is to create.
    pub create_dirs: Vec<String>,
    /// The files that the local side is to push to the beam.
    pub to_push: Vec<SyncEntry>,
    /// The files that the local side is to pull from the beam.
    pub to_pull: Vec<SyncEntry>,
}

impl View for Plan {
    type V = PlanView;

    open spec fn view(&self) -> PlanView {
        PlanView {
            create_dirs: views(self.create_dirs@),
            to_push: views(self.to_push@),
            to_pull: views(self.to_pull@),
        }
    }
}

/// Whether `index` tells for each path the position of the entry that `lookup` finds.
spec fn indexes(index: Map<Seq<char>, usize>, entries: Seq<EntryView>) -> bool {
    forall|path: Seq<char>| #[trigger]
        lookup(entries, path) == if index.contains_key(path) {
            Some(entries[index[path] as int])
        } else {
            None
        }
}

/// Whether all positions in `index` are those of entries.
spec fn in_range(index: Map<Seq<char>, usize>, len: nat) -> bool {
    forall|path: Seq<char>| #[trigger] index.contains_key(path) ==> index[path] < len
}

fn index_entries(entries: &Vec<ManifestEntry>) -> (index: StringHashMap<usize>)
    ensures
        indexes(index@, views(entries@)),
        in_range(index@, entries@.len()),
{
    let ghost all = views(entries@);
    let mut index: StringHashMap<usize> = StringHashMap::new();
    let mut i: usize = 0;
    while i < entries.len()
        invariant
            i <= entries@.len(),
            all == views(entries@),
            indexes(index@, all.take(i as int)),
            in_range(index@, i as nat),
        decreases entries@.len() - i,
    {
        let ghost before = index@;
        index.insert(entries[i].path.clone(), i);
        proof {
            let next = all.take(i + 1);
            assert(next.drop_last() =~= all.take(i as int));
            assert(next.last() == entries@[i as int]@);
            assert forall|path: Seq<char>| #[trigger]
                lookup(next, path) == if index@.contains_key(path) {
                    Some(next[index@[path] as int])
                } else {
                    None
                } by {
                assert(lookup(all.take(i as int), path) == if before.contains_key(path) {
                    Some(all.take(i as int)[before[path] as int])
                } else {
                    None
                });
            }
        }
        i = i + 1;
    }
    assert(all.take(i as int) =~= all);
    index
}

/// The hash that the indexed manifest gives for `path`.
fn indexed_hash(entries: &Vec<ManifestEntry>, index: &StringHashMap<usize>, path: &str) -> (r: Option<
    u64,
>)
    requires
        indexes(index@, views(entries@)),
        in_range(index@, entries@.len()),
    ensures
        r == match lookup(views(entries@), path@) {
            Some(entry) => Some(entry.hash),
            None => None,
        },
{
    match index.get(path) {
        Some(i) => {
            assert(views(entries@)[*i as int] == entries@[*i as int]@);
            Some(entries[*i].hash)
        },
        None => None,
    }
}

fn sync_entry(entry: &ManifestEntry) -> (r: SyncEntry)
    ensures
        r@ == sync_view(entry@),
{
    SyncEntry { path: entry.path.clone(), hash: entry.hash, size: entry.size }
}

/// How a filtered and mapped sequence grows with the sequence it is made of.
proof fn lemma_selected_push<A, B>(
    s: Seq<A>,
    a: A,
    keep: spec_fn(A) -> bool,
    f: spec_fn(A) -> B,
)
    ensures
        s.push(a).filter(keep).map_values(f) == if keep(a) {
            s.filter(keep).map_values(f).push(f(a))
        } else {
            s.filter(keep).map_values(f)
        },
{
    s.lemma_filter_push(a, keep);
    if keep(a) {
        assert(s.filter(keep).push(a).map_values(f) =~= s.filter(keep).map_values(f).push(f(a)));
    }
}

/// Makes the plan for the manifests of the two sides.
pub fn plan_sync(
    local: &Vec<ManifestEntry>,
    beam: &Vec<ManifestEntry>,
    direction: SyncDirection,
) -> (r: Plan)
    ensures
        r@ == plan(views(local@), views(beam@), direction),
{
    let ghost theirs = views(local@);
    let ghost ours = views(beam@);
    let ghost is_dir = |e: EntryView| e.is_dir;
    let ghost send = |e: EntryView| to_send(ours, e);
    let ghost fetch = |e: EntryView| to_fetch(theirs, e);
    let ghost path_of = |e: EntryView| e.path;
    let ghost sync_of = |e: EntryView| sync_view(e);
    let local_index = index_entries(local);
    let beam_index = index_entries(beam);
    let mut create_dirs: Vec<String> = Vec::new();
    let mut to_push: Vec<SyncEntry> = Vec::new();
    let mut to_pull: Vec<SyncEntry> = Vec::new();
    proof {
        reveal(Seq::filter);
        assert(views(create_dirs@) =~= theirs.take(0).filter(is_dir).map_values(path_of));
        assert(views(to_push@) =~= theirs.take(0).filter(send).map_values(sync_of));
        assert(views(to_pull@) =~= ours.take(0).filter(fetch).map_values(sync_of));
    }
    if direction.should_push() {
        let mut i: usize = 0;
        while i < local.len()
            invariant
                i <= local@.len(),
                theirs == views(local@),
                ours == views(beam@),
                is_dir == (|e: EntryView| e.is_dir),
                send == (|e: EntryView| to_send(ours, e)),
                path_of == (|e: EntryView| e.path),
                sync_of == (|e: EntryView| sync_view(e)),
                indexes(beam_index@, ours),
                in_range(beam_index@, beam@.len()),
                views(create_dirs@) == theirs.take(i as int).filter(is_dir).map_values(path_of),
                views(to_push@) == theirs.take(i as int).filter(send).map_values(sync_of),
            decreases local@.len() - i,
        {
            let entry = &local[i];
            proof {
                assert(theirs.take(i + 1) =~= theirs.take(i as int).push(entry@));
                lemma_selected_push(theirs.take(i as int), entry@, is_dir, path_of);
                lemma_selected_push(theirs.take(i as int), entry@, send, sync_of);
            }
            if entry.is_dir {
                let path = entry.path.clone();
                proof {
                    lemma_views_push(create_dirs@, path);
                }
                create_dirs.push(path);
            } else {
                let wanted = match indexed_hash(beam, &beam_index, entry.path.as_str()) {
                    Some(hash) => hash != entry.hash,
                    None => true,
                };
                if wanted {
                    let sync = sync_entry(entry);
                    proof {
                        lemma_views_push(to_push@, sync);
                    }
                    to_push.push(sync);
                }
            }
            i = i + 1;
        }
        assert(theirs.take(i as int) =~= theirs);
    }
    if direction.should_pull() {
        let mut i: usize = 0;
        while i < beam.len()
            invariant
                i <= beam@.len(),
                theirs == views(local@),
                ours == views(beam@),
                fetch == (|e: EntryView| to_fetch(theirs, e)),
                sync_of == (|e: EntryView| sync_view(e)),
                indexes(local_index@, theirs),
                in_range(local_index@, local@.len()),
                views(to_pull@) == ours.take(i as int).filter(fetch).map_values(sync_of),
            decreases beam@.len() - i,
        {
            let entry = &beam[i];
            proof {
                assert(ours.take(i + 1) =~= ours.take(i as int).push(entry@));
                lemma_selected_push(ours.take(i as int), entry@, fetch, sync_of);
            }
            if !entry.is_dir && indexed_hash(local, &local_index, entry.path.as_str()).is_none() {
                let sync = sync_entry(entry);
                proof {
                    lemma_views_push(to_pull@, sync);
                }
                to_pull.push(sync);
            }
            i = i + 1;
        }
        assert(ours.take(i as int) =~= ours);
    }
    let r = Plan { create_dirs, to_push, to_pull };
    proof {
        let p = plan(theirs, ours, direction);
        assert(r@.create_dirs =~= p.create_dirs);
        assert(r@.to_push =~= p.to_push);
        assert(r@.to_pull =~= p.to_pull);
    }
    r
}

// ---------------------------------------------------------------------------------------------
// What a plan brings about
// ---------------------------------------------------------------------------------------------

/// Whether no path occurs twice in a manifest.
pub open spec fn distinct(entries: Seq<EntryView>) -> bool {
    forall|i: int, j: int|
        0 <= i < j < entries.len() ==> (#[trigger] entries[i]).path != (#[trigger] entries[j]).path
}

/// Whether no path is a file in the one manifest and a directory in the other.
pub open spec fn same_kinds(a: Seq<EntryView>, b: Seq<EntryView>) -> bool {
    forall|path: Seq<char>|
        (#[trigger] lookup(a, path)) is Some && (#[trigger] lookup(b, path)) is Some ==> lookup(
            a,
            path,
        )->0.is_dir == lookup(b, path)->0.is_dir
}

/// The files of a manifest, each with the hash of its contents.
pub open spec fn files(entries: Seq<EntryView>) -> Map<Seq<char>, u64> {
    Map::new(
        |path: Seq<char>| lookup(entries, path) is Some && !lookup(entries, path)->0.is_dir,
        |path: Seq<char>| lookup(entries, path)->0.hash,
    )
}

/// The files of a side after the files in `transfers` have reached it.
pub open spec fn applied(held: Map<Seq<char>, u64>, transfers: Seq<SyncView>) -> Map<Seq<char>, u64>
    decreases transfers.len(),
{
    if transfers.len() == 0 {
        held
    } else {
        applied(held, transfers.drop_last()).insert(transfers.last().path, transfers.last().hash)
    }
}

/// Whether `path` is among the transfers.
pub open spec fn transfers_path(transfers: Seq<SyncView>, path: Seq<char>) -> bool {
    exists|i: int| 0 <= i < transfers.len() && (#[trigger] transfers[i]).path == path
}

proof fn lemma_lookup_distinct(entries: Seq<EntryView>, i: int)
    requires
        distinct(entries),
        0 <= i < entries.len(),
    ensures
        lookup(entries, entries[i].path) == Some(entries[i]),
    decreases entries.len(),
{
    if i < entries.len() - 1 {
        assert(entries.last() == entries[entries.len() - 1]);
        assert(entries.drop_last()[i] == entries[i]);
        lemma_distinct_shorter(entries);
        lemma_lookup_distinct(entries.drop_last(), i);
    }
}

proof fn lemma_lookup_found(entries: Seq<EntryView>, path: Seq<char>) -> (i: int)
    requires
        lookup(entries, path) is Some,
    ensures
        0 <= i < entries.len(),
        lookup(entries, path) == Some(entries[i]),
        entries[i].path == path,
    decreases entries.len(),
{
    if entries.last().path == path {
        entries.len() - 1
    } else {
        lemma_lookup_found(entries.drop_last(), path)
    }
}

/// Where each transfer agrees with `source`, a side holds the source's contents for the
/// transferred paths afterwards, and its own for the others.
pub proof fn lemma_applied(
    held: Map<Seq<char>, u64>,
    transfers: Seq<SyncView>,
    source: Map<Seq<char>, u64>,
)
    requires
        forall|i: int|
            0 <= i < transfers.len() ==> source[(#[trigger] transfers[i]).path]
                == transfers[i].hash,
    ensures
        forall|path: Seq<char>| #[trigger]
            applied(held, transfers).contains_key(path) <==> held.contains_key(path)
                || transfers_path(transfers, path),
        forall|path: Seq<char>| #[trigger]
            applied(held, transfers)[path] == if transfers_path(transfers, path) {
                source[path]
            } else {
                held[path]
            },
    decreases transfers.len(),
{
    if transfers.len() > 0 {
        let shorter = transfers.drop_last();
        let last = transfers.last();
        assert forall|i: int| 0 <= i < shorter.len() implies source[(#[trigger] shorter[i]).path]
            == shorter[i].hash by {
            assert(shorter[i] == transfers[i]);
        }
        lemma_applied(held, shorter, source);
        assert forall|path: Seq<char>| #[trigger]
            transfers_path(transfers, path) <==> transfers_path(shorter, path) || last.path
                == path by {
            if transfers_path(shorter, path) {
                let i = choose|i: int|
                    0 <= i < shorter.len() && (#[trigger] shorter[i]).path == path;
                assert(transfers[i].path == path);
            }
            if transfers_path(transfers, path) && last.path != path {
                let i = choose|i: int|
                    0 <= i < transfers.len() && (#[trigger] transfers[i]).path == path;
                assert(shorter[i].path == path);
            }
            if last.path == path {
                assert(transfers[transfers.len() - 1].path == path);
            }
        }
        assert(transfers[transfers.len() - 1] == last);
        let before = applied(held, shorter);
        let after = applied(held, transfers);
        assert(after == before.insert(last.path, last.hash));
        assert forall|path: Seq<char>| #[trigger]
            after.contains_key(path) <==> held.contains_key(path) || transfers_path(
                transfers,
                path,
            ) by {
            assert(before.contains_key(path) <==> held.contains_key(path) || transfers_path(
                shorter,
                path,
            ));
        }
        assert forall|path: Seq<char>| #[trigger]
            after[path] == if transfers_path(transfers, path) {
                source[path]
            } else {
                held[path]
            } by {
            assert(before[path] == if transfers_path(shorter, path) {
                source[path]
            } else {
                held[path]
            });
        }
    } else {
        assert forall|path: Seq<char>| !#[trigger] transfers_path(transfers, path) by {}
    }
}

/// What a selection from a sequence holds.
proof fn lemma_selected_contains<A, B>(s: Seq<A>, keep: spec_fn(A) -> bool, f: spec_fn(A) -> B)
    ensures
        forall|b: B| #[trigger]
            s.filter(keep).map_values(f).contains(b) <==> exists|i: int|
                0 <= i < s.len() && keep(#[trigger] s[i]) && f(s[i]) == b,
    decreases s.len(),
{
    reveal(Seq::filter);
    let selected = s.filter(keep).map_values(f);
    if s.len() == 0 {
        assert(selected =~= Seq::<B>::empty());
    } else {
        let before = s.drop_last().filter(keep).map_values(f);
        lemma_selected_contains(s.drop_last(), keep, f);
        lemma_selected_push(s.drop_last(), s.last(), keep, f);
        assert(s.drop_last().push(s.last()) =~= s);
        assert forall|b: B| #[trigger]
            selected.contains(b) <==> exists|i: int|
                0 <= i < s.len() && keep(#[trigger] s[i]) && f(s[i]) == b by {
            if selected.contains(b) {
                let k = selected.index_of(b);
                if k < before.len() {
                    assert(before[k] == b);
                    assert(before.contains(b));
                    let i = choose|i: int|
                        0 <= i < s.drop_last().len() && keep(#[trigger] s.drop_last()[i]) && f(
                            s.drop_last()[i],
                        ) == b;
                    assert(s[i] == s.drop_last()[i]);
                } else {
                    assert(s[s.len() - 1] == s.last());
                }
            }
            if exists|i: int| 0 <= i < s.len() && keep(#[trigger] s[i]) && f(s[i]) == b {
                let i = choose|i: int| 0 <= i < s.len() && keep(#[trigger] s[i]) && f(s[i]) == b;
                if i < s.len() - 1 {
                    assert(s.drop_last()[i] == s[i]);
                    assert(before.contains(b));
                    let k = before.index_of(b);
                    assert(selected[k] == b);
                } else {
                    assert(selected[before.len() as int] == b);
                }
            }
        }
    }
}

/// Which paths a plan pushes: those of the local files that the beam lacks or has otherwise.
pub proof fn lemma_pushed_paths(local: Seq<EntryView>, beam: Seq<EntryView>, direction: SyncDirection)
    requires
        distinct(local),
        direction.pushes(),
    ensures
        forall|path: Seq<char>| #[trigger]
            transfers_path(plan(local, beam, direction).to_push, path) <==> lookup(local, path)
                is Some && to_send(beam, lookup(local, path)->0),
        forall|i: int|
            0 <= i < plan(local, beam, direction).to_push.len() ==> files(
                local,
            )[(#[trigger] plan(local, beam, direction).to_push[i]).path] == plan(
                local,
                beam,
                direction,
            ).to_push[i].hash,
{
    let send = |e: EntryView| to_send(beam, e);
    let sync_of = |e: EntryView| sync_view(e);
    let to_push = plan(local, beam, direction).to_push;
    assert(to_push == local.filter(send).map_values(sync_of));
    lemma_selected_contains(local, send, sync_of);
    assert forall|path: Seq<char>| #[trigger]
        transfers_path(to_push, path) <==> lookup(local, path) is Some && to_send(
            beam,
            lookup(local, path)->0,
        ) by {
        if transfers_path(to_push, path) {
            let k = choose|k: int| 0 <= k < to_push.len() && (#[trigger] to_push[k]).path == path;
            assert(to_push.contains(to_push[k]));
            let i = choose|i: int|
                0 <= i < local.len() && send(#[trigger] local[i]) && sync_of(local[i])
                    == to_push[k];
            lemma_lookup_distinct(local, i);
        }
        if lookup(local, path) is Some && to_send(beam, lookup(local, path)->0) {
            let i = lemma_lookup_found(local, path);
            assert(send(local[i]));
            assert(to_push.contains(sync_of(local[i])));
            let k = to_push.index_of(sync_of(local[i]));
            assert(to_push[k].path == path);
        }
    }
    assert forall|k: int| 0 <= k < to_push.len() implies files(local)[(#[trigger] to_push[k]).path]
        == to_push[k].hash by {
        assert(to_push.contains(to_push[k]));
        let i = choose|i: int|
            0 <= i < local.len() && send(#[trigger] local[i]) && sync_of(local[i]) == to_push[k];
        lemma_lookup_distinct(local, i);
        assert(files(local).contains_key(local[i].path));
    }
}

/// Which paths a plan pulls: those of the beam's files that the local side does not know.
pub proof fn lemma_pulled_paths(local: Seq<EntryView>, beam: Seq<EntryView>, direction: SyncDirection)
    requires
        distinct(beam),
        direction.pulls(),
    ensures
        forall|path: Seq<char>| #[trigger]
            transfers_path(plan(local, beam, direction).to_pull, path) <==> lookup(beam, path)
                is Some && to_fetch(local, lookup(beam, path)->0),
        forall|i: int|
            0 <= i < plan(local, beam, direction).to_pull.len() ==> files(
                beam,
            )[(#[trigger] plan(local, beam, direction).to_pull[i]).path] == plan(
                local,
                beam,
                direction,
            ).to_pull[i].hash,
{
    let fetch = |e: EntryView| to_fetch(local, e);
    let sync_of = |e: EntryView| sync_view(e);
    let to_pull = plan(local, beam, direction).to_pull;
    assert(to_pull == beam.filter(fetch).map_values(sync_of));
    lemma_selected_contains(beam, fetch, sync_of);
    assert forall|path: Seq<char>| #[trigger]
        transfers_path(to_pull, path) <==> lookup(beam, path) is Some && to_fetch(
            local,
            lookup(beam, path)->0,
        ) by {
        if transfers_path(to_pull, path) {
            let k = choose|k: int| 0 <= k < to_pull.len() && (#[trigger] to_pull[k]).path == path;
            assert(to_pull.contains(to_pull[k]));
            let i = choose|i: int|
                0 <= i < beam.len() && fetch(#[trigger] beam[i]) && sync_of(beam[i]) == to_pull[k];
            lemma_lookup_distinct(beam, i);
        }
        if lookup(beam, path) is Some && to_fetch(local, lookup(beam, path)->0) {
            let i = lemma_lookup_found(beam, path);
            assert(fetch(beam[i]));
            assert(to_pull.contains(sync_of(beam[i])));
            let k = to_pull.index_of(sync_of(beam[i]));
            assert(to_pull[k].path == path);
        }
    }
    assert forall|k: int| 0 <= k < to_pull.len() implies files(beam)[(#[trigger] to_pull[k]).path]
        == to_pull[k].hash by {
        assert(to_pull.contains(to_pull[k]));
        let i = choose|i: int|
            0 <= i < beam.len() && fetch(#[trigger] beam[i]) && sync_of(beam[i]) == to_pull[k];
        lemma_lookup_distinct(beam, i);
        assert(files(beam).contains_key(beam[i].path));
    }
}

/// A plan for both directions brings the two sides together: once its files have been pushed and
/// pulled, both sides hold the same files with the same contents.
pub proof fn lemma_plan_converges(local: Seq<EntryView>, beam: Seq<EntryView>)
    requires
        distinct(local),
        distinct(beam),
        same_kinds(local, beam),
    ensures
        ({
            let p = plan(local, beam, SyncDirection::Bidirectional);
            applied(files(beam), p.to_push) == applied(files(local), p.to_pull)
        }),
{
    let direction = SyncDirection::Bidirectional;
    let p = plan(local, beam, direction);
    lemma_pushed_paths(local, beam, direction);
    lemma_pulled_paths(local, beam, direction);
    lemma_applied(files(beam), p.to_push, files(local));
    lemma_applied(files(local), p.to_pull, files(beam));
    let on_beam = applied(files(beam), p.to_push);
    let on_local = applied(files(local), p.to_pull);
    assert forall|path: Seq<char>| on_beam.contains_key(path) <==> on_local.contains_key(path) by {
        assert(lookup(local, path) is Some || lookup(local, path) is None);
        assert(lookup(beam, path) is Some || lookup(beam, path) is None);
        if lookup(local, path) is Some {
            let i = lemma_lookup_found(local, path);
        }
        if lookup(beam, path) is Some {
            let i = lemma_lookup_found(beam, path);
        }
    }
    assert forall|path: Seq<char>| on_beam.contains_key(path) implies #[trigger] on_beam[path]
        == on_local[path] by {
        if lookup(local, path) is Some {
            let i = lemma_lookup_found(local, path);
        }
        if lookup(beam, path) is Some {
            let i = lemma_lookup_found(beam, path);
        }
    }
    assert(on_beam =~= on_local);
}

/// A plan that pushes gives the beam every local file as it is, and takes no other file away.
pub proof fn lemma_push_mirrors(
    local: Seq<EntryView>,
    beam: Seq<EntryView>,
    direction: SyncDirection,
    path: Seq<char>,
)
    requires
        distinct(local),
        same_kinds(local, beam),
        direction.pushes(),
    ensures
        ({
            let after = applied(files(beam), plan(local, beam, direction).to_push);
            &&& files(local).contains_key(path) ==> after.contains_key(path) && after[path]
                == files(local)[path]
            &&& files(beam).contains_key(path) ==> after.contains_key(path)
            &&& !files(local).contains_key(path) && files(beam).contains_key(path) ==> after[path]
                == files(beam)[path]
        }),
{
    let p = plan(local, beam, direction);
    lemma_pushed_paths(local, beam, direction);
    lemma_applied(files(beam), p.to_push, files(local));
    assert(transfers_path(p.to_push, path) <==> lookup(local, path) is Some && to_send(
        beam,
        lookup(local, path)->0,
    ));
    if lookup(local, path) is Some {
        let i = lemma_lookup_found(local, path);
        assert(lookup(beam, path) is Some || lookup(beam, path) is None);
    }
    assert(applied(files(beam), p.to_push).contains_key(path) <==> files(beam).contains_key(path)
        || transfers_path(p.to_push, path));
}

/// A plan that pulls gives the local side every file that only the beam has, and changes none of
/// the local files.
pub proof fn lemma_pull_adds(
    local: Seq<EntryView>,
    beam: Seq<EntryView>,
    direction: SyncDirection,
    path: Seq<char>,
)
    requires
        distinct(beam),
        direction.pulls(),
    ensures
        ({
            let after = applied(files(local), plan(local, beam, direction).to_pull);
            &&& files(local).contains_key(path) ==> after.contains_key(path) && after[path]
                == files(local)[path]
            &&& files(beam).contains_key(path) && lookup(local, path) is None
                ==> after.contains_key(path) && after[path] == files(beam)[path]
        }),
{
    let p = plan(local, beam, direction);
    lemma_pulled_paths(local, beam, direction);
    lemma_applied(files(local), p.to_pull, files(beam));
    assert(transfers_path(p.to_pull, path) <==> lookup(beam, path) is Some && to_fetch(
        local,
        lookup(beam, path)->0,
    ));
    if lookup(beam, path) is Some {
        let i = lemma_lookup_found(beam, path);
    }
    assert(applied(files(local), p.to_pull).contains_key(path) <==> files(local).contains_key(path)
        || transfers_path(p.to_pull, path));
}

/// No file is both pushed and pulled.
pub proof fn lemma_plan_disjoint(
    local: Seq<EntryView>,
    beam: Seq<EntryView>,
    direction: SyncDirection,
    path: Seq<char>,
)
    ensures
        !(transfers_path(plan(local, beam, direction).to_push, path) && transfers_path(
            plan(local, beam, direction).to_pull,
            path,
        )),
{
    let p = plan(local, beam, direction);
    if transfers_path(p.to_push, path) && transfers_path(p.to_pull, path) {
        let send = |e: EntryView| to_send(beam, e);
        let fetch = |e: EntryView| to_fetch(local, e);
        let sync_of = |e: EntryView| sync_view(e);
        lemma_selected_contains(local, send, sync_of);
        lemma_selected_contains(beam, fetch, sync_of);
        let a = choose|a: int| 0 <= a < p.to_push.len() && (#[trigger] p.to_push[a]).path == path;
        let b = choose|b: int| 0 <= b < p.to_pull.len() && (#[trigger] p.to_pull[b]).path == path;
        assert(p.to_push.contains(p.to_push[a]));
        assert(p.to_pull.contains(p.to_pull[b]));
        let i = choose|i: int|
            0 <= i < local.len() && send(#[trigger] local[i]) && sync_of(local[i]) == p.to_push[a];
        let j = choose|j: int|
            0 <= j < beam.len() && fetch(#[trigger] beam[j]) && sync_of(beam[j]) == p.to_pull[b];
        lemma_lookup_some(local, i);
        assert(lookup(local, path) is None);
    }
}

proof fn lemma_lookup_some(entries: Seq<EntryView>, i: int)
    requires
        0 <= i < entries.len(),
    ensures
        lookup(entries, entries[i].path) is Some,
    decreases entries.len(),
{
    if i < entries.len() - 1 {
        assert(entries.drop_last()[i] == entries[i]);
        lemma_lookup_some(entries.drop_last(), i);
    }
}

/// Two sides that hold the same files with the same contents have nothing to transfer.
pub proof fn lemma_agreeing_sides_are_done(
    local: Seq<EntryView>,
    beam: Seq<EntryView>,
    direction: SyncDirection,
)
    requires
        distinct(local),
        distinct(beam),
        files(local) == files(beam),
    ensures
        plan(local, beam, direction).to_push.len() == 0,
        plan(local, beam, direction).to_pull.len() == 0,
{
    let p = plan(local, beam, direction);
    if p.to_push.len() > 0 {
        lemma_pushed_paths(local, beam, direction);
        let path = p.to_push[0].path;
        assert(transfers_path(p.to_push, path));
        let i = lemma_lookup_found(local, path);
        assert(files(local).contains_key(path));
        assert(files(beam).contains_key(path));
        assert(files(local)[path] == files(beam)[path]);
        let j = lemma_lookup_found(beam, path);
    }
    if p.to_pull.len() > 0 {
        lemma_pulled_paths(local, beam, direction);
        let path = p.to_pull[0].path;
        assert(transfers_path(p.to_pull, path));
        let i = lemma_lookup_found(beam, path);
        assert(files(beam).contains_key(path));
        assert(files(local).contains_key(path));
    }
}

/// A plan keeps to its direction.
pub proof fn lemma_plan_direction(
    local: Seq<EntryView>,
    beam: Seq<EntryView>,
    direction: SyncDirection,
)
    ensures
        direction is BeamToLocal ==> plan(local, beam, direction).to_push.len() == 0 && plan(
            local,
            beam,
            direction,
        ).create_dirs.len() == 0,
        direction is LocalToBeam ==> plan(local, beam, direction).to_pull.len() == 0,
{
}

// ---------------------------------------------------------------------------------------------
// Manifests of real trees
// ---------------------------------------------------------------------------------------------

/// The name of an item.
pub open spec fn node_name(node: FsNode) -> Seq<char> {
    match node {
        FsNode::File { name, hash, mtime, size } => name@,
        FsNode::Dir { name, children } => name@,
    }
}

/// Whether some item has this name.
pub open spec fn has_name(nodes: Seq<FsNode>, name: Seq<char>) -> bool {
    exists|i: int| 0 <= i < nodes.len() && node_name(#[trigger] nodes[i]) == name
}

/// Whether the items can be those of a directory: each has a proper name, no two of them the same,
/// and the same holds inside each directory among them.
pub open spec fn orderly(nodes: Seq<FsNode>) -> bool
    decreases nodes,
{
    nodes.len() == 0 || {
        &&& orderly(nodes.drop_last())
        &&& orderly_node(nodes.last())
        &&& !has_name(nodes.drop_last(), node_name(nodes.last()))
    }
}

/// Whether an item has a proper name and is orderly inside.
pub open spec fn orderly_node(node: FsNode) -> bool
    decreases node,
{
    proper(node_name(node)) && match node {
        FsNode::File { name, hash, mtime, size } => true,
        FsNode::Dir { name, children } => orderly(children@),
    }
}

/// The components below `base` of each entry of `listing`.
spec fn listing_parts(
    rules: Seq<Patterns>,
    base: Seq<char>,
    dir: Seq<char>,
    nodes: Seq<FsNode>,
) -> Seq<Seq<Seq<char>>>
    decreases nodes,
{
    if nodes.len() == 0 {
        Seq::empty()
    } else {
        listing_parts(rules, base, dir, nodes.drop_last()) + node_parts(
            rules,
            base,
            dir,
            nodes.last(),
        )
    }
}

spec fn node_parts(
    rules: Seq<Patterns>,
    base: Seq<char>,
    dir: Seq<char>,
    node: FsNode,
) -> Seq<Seq<Seq<char>>>
    decreases node,
{
    match node {
        FsNode::File { name, hash, mtime, size } => {
            let path = pushed(dir, name@);
            if filtered(rules, base, path, false) {
                Seq::empty()
            } else {
                seq![relative_components(base, path)]
            }
        },
        FsNode::Dir { name, children } => {
            let path = pushed(dir, name@);
            if filtered(rules, base, path, true) {
                Seq::empty()
            } else {
                seq![relative_components(base, path)] + listing_parts(
                    rules,
                    base,
                    path,
                    children@,
                )
            }
        },
    }
}

/// Whether `parts` are proper names that go on from `prefix`.
spec fn extends(parts: Seq<Seq<char>>, prefix: Seq<Seq<char>>) -> bool {
    &&& parts.len() > prefix.len()
    &&& parts.take(prefix.len() as int) == prefix
    &&& forall|i: int| 0 <= i < parts.len() ==> proper(#[trigger] parts[i])
}

/// Whether `parts` go on from `prefix` with `name`.
spec fn goes_on_with(parts: Seq<Seq<char>>, prefix: Seq<Seq<char>>, name: Seq<char>) -> bool {
    extends(parts, prefix) && parts[prefix.len() as int] == name
}

/// What the parts of the entries for a directory's items are like: each belongs to the entry at
/// the same place, goes on from the directory with the name of one of the items, and no two are
/// the same.
proof fn lemma_listing_parts(
    rules: Seq<Patterns>,
    base: Seq<char>,
    dir: Seq<char>,
    nodes: Seq<FsNode>,
)
    requires
        below(base, dir),
        orderly(nodes),
        forall|i: int|
            0 <= i < relative_components(base, dir).len() ==> proper(
                #[trigger] relative_components(base, dir)[i],
            ),
    ensures
        ({
            let entries = listing(rules, base, dir, nodes);
            let parts = listing_parts(rules, base, dir, nodes);
            let prefix = relative_components(base, dir);
            &&& entries.len() == parts.len()
            &&& forall|i: int|
                0 <= i < parts.len() ==> components((#[trigger] entries[i]).path) == parts[i]
            &&& forall|i: int|
                0 <= i < parts.len() ==> extends(#[trigger] parts[i], prefix) && has_name(
                    nodes,
                    parts[i][prefix.len() as int],
                )
            &&& forall|i: int, j: int|
                0 <= i < j < parts.len() ==> #[trigger] parts[i] != #[trigger] parts[j]
        }),
    decreases nodes,
{
    let entries = listing(rules, base, dir, nodes);
    let parts = listing_parts(rules, base, dir, nodes);
    let prefix = relative_components(base, dir);
    if nodes.len() > 0 {
        let before = nodes.drop_last();
        let last = nodes.last();
        let name = node_name(last);
        let early = listing(rules, base, dir, before);
        let early_parts = listing_parts(rules, base, dir, before);
        let late = node_entries(rules, base, dir, last);
        let late_parts = node_parts(rules, base, dir, last);
        assert(entries == early + late);
        assert(parts == early_parts + late_parts);
        assert(orderly_node(last));
        lemma_listing_parts(rules, base, dir, before);
        lemma_node_parts(rules, base, dir, last);
        assert forall|i: int| 0 <= i < parts.len() implies extends(#[trigger] parts[i], prefix)
            && has_name(nodes, parts[i][prefix.len() as int]) by {
            if i < early_parts.len() {
                assert(parts[i] == early_parts[i]);
                let k = choose|k: int|
                    0 <= k < before.len() && node_name(#[trigger] before[k])
                        == early_parts[i][prefix.len() as int];
                assert(nodes[k] == before[k]);
            } else {
                assert(parts[i] == late_parts[i - early_parts.len()]);
                assert(goes_on_with(late_parts[i - early_parts.len()], prefix, name));
                assert(nodes[nodes.len() - 1] == last);
            }
        }
        assert forall|i: int| 0 <= i < parts.len() implies components(
            (#[trigger] entries[i]).path,
        ) == parts[i] by {
            if i < early_parts.len() {
                assert(entries[i] == early[i]);
                assert(parts[i] == early_parts[i]);
            } else {
                assert(entries[i] == late[i - early_parts.len()]);
                assert(parts[i] == late_parts[i - early_parts.len()]);
            }
        }
        assert forall|i: int, j: int| 0 <= i < j < parts.len() implies #[trigger] parts[i]
            != #[trigger] parts[j] by {
            if j < early_parts.len() {
                assert(parts[i] == early_parts[i] && parts[j] == early_parts[j]);
            } else if i >= early_parts.len() {
                assert(parts[i] == late_parts[i - early_parts.len()]);
                assert(parts[j] == late_parts[j - early_parts.len()]);
            } else {
                assert(parts[i] == early_parts[i]);
                assert(parts[j] == late_parts[j - early_parts.len()]);
                assert(goes_on_with(late_parts[j - early_parts.len()], prefix, name));
                assert(has_name(before, early_parts[i][prefix.len() as int]));
                assert(!has_name(before, name));
            }
        }
    }
}

/// What the parts of the entries for one item are like.
proof fn lemma_node_parts(rules: Seq<Patterns>, base: Seq<char>, dir: Seq<char>, node: FsNode)
    requires
        below(base, dir),
        orderly_node(node),
        forall|i: int|
            0 <= i < relative_components(base, dir).len() ==> proper(
                #[trigger] relative_components(base, dir)[i],
            ),
    ensures
        ({
            let entries = node_entries(rules, base, dir, node);
            let parts = node_parts(rules, base, dir, node);
            let prefix = relative_components(base, dir);
            &&& entries.len() == parts.len()
            &&& forall|i: int|
                0 <= i < parts.len() ==> components((#[trigger] entries[i]).path) == parts[i]
            &&& forall|i: int|
                0 <= i < parts.len() ==> goes_on_with(
                    #[trigger] parts[i],
                    prefix,
                    node_name(node),
                )
            &&& forall|i: int, j: int|
                0 <= i < j < parts.len() ==> #[trigger] parts[i] != #[trigger] parts[j]
        }),
    decreases node,
{
    let entries = node_entries(rules, base, dir, node);
    let parts = node_parts(rules, base, dir, node);
    let prefix = relative_components(base, dir);
    let name = node_name(node);
    let path = pushed(dir, name);
    lemma_pushed_relative(base, dir, name);
    let own = prefix.push(name);
    assert(relative_components(base, path) == own);
    lemma_relative_components(base, path);
    assert(goes_on_with(own, prefix, name)) by {
        assert(own.take(prefix.len() as int) =~= prefix);
        assert forall|i: int| 0 <= i < own.len() implies proper(#[trigger] own[i]) by {
            if i < prefix.len() {
                assert(own[i] == prefix[i]);
            }
        }
    }
    match node {
        FsNode::File { name: n, hash, mtime, size } => {},
        FsNode::Dir { name: n, children } => {
            if !filtered(rules, base, path, true) {
                let inner = listing(rules, base, path, children@);
                let inner_parts = listing_parts(rules, base, path, children@);
                assert(orderly(children@));
                assert forall|i: int| 0 <= i < relative_components(base, path).len() implies proper(
                    #[trigger] relative_components(base, path)[i],
                ) by {
                    assert(proper(own[i]));
                }
                lemma_listing_parts(rules, base, path, children@);
                assert(entries.len() == 1 + inner.len());
                assert(parts == seq![own] + inner_parts);
                assert forall|i: int| 0 <= i < parts.len() implies goes_on_with(
                    #[trigger] parts[i],
                    prefix,
                    name,
                ) by {
                    if i > 0 {
                        let p = inner_parts[i - 1];
                        assert(parts[i] == p);
                        assert(extends(p, own));
                        assert(p.take(prefix.len() as int) =~= p.take(own.len() as int).take(
                            prefix.len() as int,
                        ));
                        assert(own.take(prefix.len() as int) =~= prefix);
                        assert(p.take(own.len() as int)[prefix.len() as int]
                            == p[prefix.len() as int]);
                    }
                }
                assert forall|i: int| 0 <= i < parts.len() implies components(
                    (#[trigger] entries[i]).path,
                ) == parts[i] by {
                    if i > 0 {
                        assert(entries[i] == inner[i - 1]);
                        assert(parts[i] == inner_parts[i - 1]);
                    }
                }
                assert forall|i: int, j: int| 0 <= i < j < parts.len() implies #[trigger] parts[i]
                    != #[trigger] parts[j] by {
                    assert(parts[j] == inner_parts[j - 1]);
                    if i == 0 {
                        assert(extends(inner_parts[j - 1], own));
                    } else {
                        assert(parts[i] == inner_parts[i - 1]);
                    }
                }
            }
        },
    }
}

/// No path occurs twice in the manifest of a tree.
pub proof fn lemma_manifest_is_distinct(
    rules: Seq<Patterns>,
    base: Seq<char>,
    nodes: Seq<FsNode>,
)
    requires
        orderly(nodes),
    ensures
        distinct(listing(rules, base, base, nodes)),
{
    let entries = listing(rules, base, base, nodes);
    let parts = listing_parts(rules, base, base, nodes);
    assert(components(base).subrange(0, components(base).len() as int) =~= components(base));
    assert(relative_components(base, base) =~= Seq::<Seq<char>>::empty());
    lemma_listing_parts(rules, base, base, nodes);
    assert forall|i: int, j: int| 0 <= i < j < entries.len() implies (#[trigger] entries[i]).path
        != (#[trigger] entries[j]).path by {
        assert(parts[i] != parts[j]);
    }
}

// ---------------------------------------------------------------------------------------------
// What a manifest and a plan hold
// ---------------------------------------------------------------------------------------------

/// The item that a trail leads to: the first number says which of `nodes`, and each further one
/// which of the items in the directory so far.
pub open spec fn item_at(nodes: Seq<FsNode>, trail: Seq<int>) -> Option<FsNode>
    decreases trail.len(),
{
    if trail.len() == 0 || !(0 <= trail[0] < nodes.len()) {
        None
    } else if trail.len() == 1 {
        Some(nodes[trail[0]])
    } else {
        match nodes[trail[0]] {
            FsNode::File { name, hash, mtime, size } => None,
            FsNode::Dir { name, children } => item_at(children@, trail.drop_first()),
        }
    }
}

/// The names on a trail, that of the item last.
pub open spec fn names_on(nodes: Seq<FsNode>, trail: Seq<int>) -> Seq<Seq<char>>
    decreases trail.len(),
{
    if trail.len() == 0 || !(0 <= trail[0] < nodes.len()) {
        Seq::empty()
    } else {
        seq![node_name(nodes[trail[0]])] + match nodes[trail[0]] {
            FsNode::File { name, hash, mtime, size } => Seq::empty(),
            FsNode::Dir { name, children } => names_on(children@, trail.drop_first()),
        }
    }
}

/// Where the names on a trail lead from the directory `dir`.
pub open spec fn path_along(dir: Seq<char>, names: Seq<Seq<char>>) -> Seq<char>
    decreases names.len(),
{
    if names.len() == 0 {
        dir
    } else {
        path_along(pushed(dir, names[0]), names.drop_first())
    }
}

/// Whether the rules let every directory on the way through: those that the names but the last lead
/// to.
pub open spec fn way_is_open(
    rules: Seq<Patterns>,
    base: Seq<char>,
    dir: Seq<char>,
    names: Seq<Seq<char>>,
) -> bool {
    forall|k: int|
        1 <= k < names.len() ==> !filtered(
            rules,
            base,
            #[trigger] path_along(dir, names.take(k)),
            true,
        )
}

/// Whether `entry` tells what is known of `node`: of a file its hash, its time and its size.
pub open spec fn tells_of(entry: EntryView, node: FsNode) -> bool {
    match node {
        FsNode::File { name, hash, mtime, size } => entry.hash == hash && entry.mtime == mtime
            && entry.size == size && !entry.is_dir,
        FsNode::Dir { name, children } => entry.hash == 0 && entry.mtime == 0 && entry.size == 0
            && entry.is_dir,
    }
}

/// Whether a manifest holds an entry for `path` that tells of `node`.
pub open spec fn has_entry(entries: Seq<EntryView>, path: Seq<char>, node: FsNode) -> bool {
    exists|i: int|
        0 <= i < entries.len() && (#[trigger] entries[i]).path == path && tells_of(entries[i], node)
}

proof fn lemma_has_entry_append(
    a: Seq<EntryView>,
    b: Seq<EntryView>,
    path: Seq<char>,
    node: FsNode,
)
    ensures
        has_entry(a, path, node) ==> has_entry(a + b, path, node),
        has_entry(b, path, node) ==> has_entry(a + b, path, node),
{
    if has_entry(a, path, node) {
        let i = choose|i: int|
            0 <= i < a.len() && (#[trigger] a[i]).path == path && tells_of(a[i], node);
        assert((a + b)[i] == a[i]);
    }
    if has_entry(b, path, node) {
        let i = choose|i: int|
            0 <= i < b.len() && (#[trigger] b[i]).path == path && tells_of(b[i], node);
        assert((a + b)[a.len() + i] == b[i]);
    }
}

proof fn lemma_item_has_a_name(nodes: Seq<FsNode>, trail: Seq<int>)
    requires
        item_at(nodes, trail) is Some,
    ensures
        names_on(nodes, trail).len() > 0,
{
}

/// What a manifest says of one of the items is in the manifest of them all.
proof fn lemma_node_is_listed(
    rules: Seq<Patterns>,
    base: Seq<char>,
    dir: Seq<char>,
    nodes: Seq<FsNode>,
    i: int,
    path: Seq<char>,
    node: FsNode,
)
    requires
        0 <= i < nodes.len(),
        has_entry(node_entries(rules, base, dir, nodes[i]), path, node),
    ensures
        has_entry(listing(rules, base, dir, nodes), path, node),
    decreases nodes.len(),
{
    let before = nodes.drop_last();
    lemma_has_entry_append(
        listing(rules, base, dir, before),
        node_entries(rules, base, dir, nodes.last()),
        path,
        node,
    );
    if i < nodes.len() - 1 {
        assert(before[i] == nodes[i]);
        lemma_node_is_listed(rules, base, dir, before, i, path, node);
    }
}

/// A manifest is complete: every file and every directory, however deep, that the rules let through,
/// with all directories on the way to it, is listed, under its path below `base` and with what is
/// known of it.
pub proof fn lemma_manifest_is_complete(
    rules: Seq<Patterns>,
    base: Seq<char>,
    dir: Seq<char>,
    nodes: Seq<FsNode>,
    trail: Seq<int>,
)
    requires
        item_at(nodes, trail) is Some,
        way_is_open(rules, base, dir, names_on(nodes, trail)),
        !filtered(
            rules,
            base,
            path_along(dir, names_on(nodes, trail)),
            item_at(nodes, trail)->0 is Dir,
        ),
    ensures
        has_entry(
            listing(rules, base, dir, nodes),
            relative(base, path_along(dir, names_on(nodes, trail))),
            item_at(nodes, trail)->0,
        ),
    decreases trail.len(),
{
    let node = item_at(nodes, trail)->0;
    let first = nodes[trail[0]];
    let name = node_name(first);
    let own = pushed(dir, name);
    let names = names_on(nodes, trail);
    let path = relative(base, path_along(dir, names));
    let entries = node_entries(rules, base, dir, first);
    if trail.len() == 1 {
        match first {
            FsNode::File { name: n, hash, mtime, size } => {},
            FsNode::Dir { name: n, children } => {
                assert(names_on(children@, trail.drop_first()) =~= Seq::<Seq<char>>::empty());
            },
        }
        assert(names =~= seq![name]);
        reveal_with_fuel(path_along, 2);
        assert(names.drop_first() =~= Seq::<Seq<char>>::empty());
        assert(path_along(dir, names) == own);
        assert(entries[0].path == path && tells_of(entries[0], node));
        assert(has_entry(entries, path, node));
    } else {
        match first {
            FsNode::File { name: n, hash, mtime, size } => {},
            FsNode::Dir { name: n, children } => {
                let rest = trail.drop_first();
                let inner = names_on(children@, rest);
                assert(names == seq![name] + inner);
                assert(names.drop_first() =~= inner);
                assert(names[0] == name);
                assert(path_along(dir, names) == path_along(own, inner));
                assert(item_at(nodes, trail) == item_at(children@, rest));
                lemma_item_has_a_name(children@, rest);
                assert(!filtered(rules, base, own, true)) by {
                    assert(names.take(1) =~= seq![name]);
                    reveal_with_fuel(path_along, 2);
                    assert(names.take(1).drop_first() =~= Seq::<Seq<char>>::empty());
                    assert(path_along(dir, names.take(1)) == own);
                }
                assert forall|k: int| 1 <= k < inner.len() implies !filtered(
                    rules,
                    base,
                    #[trigger] path_along(own, inner.take(k)),
                    true,
                ) by {
                    let longer = names.take(k + 1);
                    assert(longer.drop_first() =~= inner.take(k));
                    assert(longer[0] == name);
                    assert(path_along(dir, longer) == path_along(own, inner.take(k)));
                    assert(!filtered(rules, base, path_along(dir, names.take(k + 1)), true));
                }
                lemma_manifest_is_complete(rules, base, own, children@, rest);
                lemma_has_entry_append(
                    seq![
                        EntryView {
                            path: relative(base, own),
                            hash: 0,
                            mtime: 0,
                            size: 0,
                            is_dir: true,
                        },
                    ],
                    listing(rules, base, own, children@),
                    path,
                    node,
                );
                assert(has_entry(entries, path, node));
            },
        }
    }
    lemma_node_is_listed(rules, base, dir, nodes, trail[0], path, node);
}

/// A manifest is sound: every entry is that of a file or a directory that is there, under its path
/// below `base`, with what is known of it, and the rules let it through.
pub proof fn lemma_manifest_is_sound(
    rules: Seq<Patterns>,
    base: Seq<char>,
    dir: Seq<char>,
    nodes: Seq<FsNode>,
    i: int,
) -> (trail: Seq<int>)
    requires
        0 <= i < listing(rules, base, dir, nodes).len(),
    ensures
        item_at(nodes, trail) is Some,
        tells_of(listing(rules, base, dir, nodes)[i], item_at(nodes, trail)->0),
        listing(rules, base, dir, nodes)[i].path == relative(
            base,
            path_along(dir, names_on(nodes, trail)),
        ),
        !filtered(
            rules,
            base,
            path_along(dir, names_on(nodes, trail)),
            item_at(nodes, trail)->0 is Dir,
        ),
    decreases nodes,
{
    let shorter = nodes.drop_last();
    let before = listing(rules, base, dir, shorter);
    let last = nodes.last();
    let entries = node_entries(rules, base, dir, last);
    if i < before.len() {
        let trail = lemma_manifest_is_sound(rules, base, dir, shorter, i);
        assert(shorter[trail[0]] == nodes[trail[0]]);
        assert(listing(rules, base, dir, nodes)[i] == before[i]);
        trail
    } else {
        let k = i - before.len();
        let at = nodes.len() - 1;
        let own = pushed(dir, node_name(last));
        assert(listing(rules, base, dir, nodes)[i] == entries[k]);
        reveal_with_fuel(path_along, 2);
        if k == 0 {
            let trail = seq![at];
            match last {
                FsNode::File { name, hash, mtime, size } => {},
                FsNode::Dir { name, children } => {
                    assert(names_on(children@, trail.drop_first()) =~= Seq::<Seq<char>>::empty());
                },
            }
            assert(names_on(nodes, trail) =~= seq![node_name(last)]);
            assert(names_on(nodes, trail).drop_first() =~= Seq::<Seq<char>>::empty());
            assert(path_along(dir, names_on(nodes, trail)) == own);
            trail
        } else {
            match last {
                FsNode::File { name, hash, mtime, size } => seq![at],
                FsNode::Dir { name, children } => {
                    let below = listing(rules, base, own, children@);
                    assert(entries[k] == below[k - 1]);
                    let inner = lemma_manifest_is_sound(rules, base, own, children@, k - 1);
                    let trail = seq![at] + inner;
                    assert(trail.drop_first() =~= inner);
                    assert(trail.len() > 1);
                    let names = names_on(nodes, trail);
                    assert(names.drop_first() =~= names_on(children@, inner));
                    assert(names[0] == node_name(last));
                    assert(path_along(dir, names) == path_along(own, names_on(children@, inner)));
                    trail
                },
            }
        }
    }
}

/// Whether all names are proper.
spec fn all_proper(names: Seq<Seq<char>>) -> bool {
    forall|i: int| 0 <= i < names.len() ==> proper(#[trigger] names[i])
}

proof fn lemma_names_are_proper(nodes: Seq<FsNode>, trail: Seq<int>)
    requires
        orderly(nodes),
    ensures
        all_proper(names_on(nodes, trail)),
        item_at(nodes, trail) is Some ==> names_on(nodes, trail).len() > 0,
    decreases trail.len(),
{
    if trail.len() > 0 && 0 <= trail[0] < nodes.len() {
        lemma_orderly_at(nodes, trail[0]);
        let first = nodes[trail[0]];
        match first {
            FsNode::File { name, hash, mtime, size } => {},
            FsNode::Dir { name, children } => {
                lemma_names_are_proper(children@, trail.drop_first());
            },
        }
    }
}

proof fn lemma_orderly_at(nodes: Seq<FsNode>, i: int)
    requires
        orderly(nodes),
        0 <= i < nodes.len(),
    ensures
        orderly_node(nodes[i]),
    decreases nodes.len(),
{
    if i < nodes.len() - 1 {
        lemma_orderly_at(nodes.drop_last(), i);
        assert(nodes.drop_last()[i] == nodes[i]);
    }
}

proof fn lemma_path_along_push(dir: Seq<char>, names: Seq<Seq<char>>)
    requires
        names.len() > 0,
    ensures
        path_along(dir, names) == pushed(path_along(dir, names.drop_last()), names.last()),
    decreases names.len(),
{
    if names.len() == 1 {
        reveal_with_fuel(path_along, 2);
        assert(names.drop_first() =~= Seq::<Seq<char>>::empty());
        assert(names.drop_last() =~= Seq::<Seq<char>>::empty());
    } else {
        lemma_path_along_push(pushed(dir, names[0]), names.drop_first());
        assert(names.drop_first().drop_last() =~= names.drop_last().drop_first());
        assert(names.drop_last()[0] == names[0]);
    }
}

/// Where proper names lead is behind the directory, joined by separators.
proof fn lemma_path_along_names(dir: Seq<char>, names: Seq<Seq<char>>)
    requires
        names.len() > 0,
        all_proper(names),
    ensures
        path_along(dir, names) == pushed(dir, join(names, seq!['/'])),
    decreases names.len(),
{
    lemma_path_along_push(dir, names);
    let before = names.drop_last();
    assert(before.push(names.last()) =~= names);
    assert(proper(names[names.len() - 1]));
    if before.len() > 0 {
        assert forall|i: int| 0 <= i < before.len() implies proper(#[trigger] before[i]) by {
            assert(before[i] == names[i]);
        }
        lemma_path_along_names(dir, before);
        lemma_pushed_along(dir, before, names.last());
    }
}

/// In the manifest of a real tree, every file and every directory is listed under its names, joined
/// by separators, with what is known of it, where the rules ignore neither these names nor the first
/// of them, as those of a directory.
pub proof fn lemma_tree_is_listed_by_names(
    rules: Seq<Patterns>,
    root: Seq<char>,
    nodes: Seq<FsNode>,
    trail: Seq<int>,
)
    requires
        orderly(nodes),
        item_at(nodes, trail) is Some,
        !ignored(rules, names_on(nodes, trail), item_at(nodes, trail)->0 is Dir),
        forall|k: int|
            1 <= k < names_on(nodes, trail).len() ==> !ignored(
                rules,
                #[trigger] names_on(nodes, trail).take(k),
                true,
            ),
    ensures
        has_entry(
            listing(rules, root, root, nodes),
            join(names_on(nodes, trail), seq!['/']),
            item_at(nodes, trail)->0,
        ),
{
    let names = names_on(nodes, trail);
    lemma_names_are_proper(nodes, trail);
    lemma_path_along_names(root, names);
    lemma_relative_is_the_rest(root, names);
    lemma_filtered_by_names(
        rules,
        root,
        path_along(root, names),
        names,
        item_at(nodes, trail)->0 is Dir,
    );
    assert forall|k: int| 1 <= k < names.len() implies !filtered(
        rules,
        root,
        #[trigger] path_along(root, names.take(k)),
        true,
    ) by {
        let some = names.take(k);
        assert forall|i: int| 0 <= i < some.len() implies proper(#[trigger] some[i]) by {
            assert(some[i] == names[i]);
        }
        lemma_path_along_names(root, some);
        lemma_relative_is_the_rest(root, some);
        lemma_filtered_by_names(rules, root, path_along(root, some), some, true);
        assert(!ignored(rules, names.take(k), true));
    }
    lemma_manifest_is_complete(rules, root, root, nodes, trail);
}

/// In the manifest of a real tree, every entry is that of a file or a directory that is there, under
/// its names, joined by separators, which the rules do not ignore.
pub proof fn lemma_listed_names_are_there(
    rules: Seq<Patterns>,
    root: Seq<char>,
    nodes: Seq<FsNode>,
    i: int,
) -> (trail: Seq<int>)
    requires
        orderly(nodes),
        0 <= i < listing(rules, root, root, nodes).len(),
    ensures
        item_at(nodes, trail) is Some,
        tells_of(listing(rules, root, root, nodes)[i], item_at(nodes, trail)->0),
        listing(rules, root, root, nodes)[i].path == join(names_on(nodes, trail), seq!['/']),
        !ignored(rules, names_on(nodes, trail), item_at(nodes, trail)->0 is Dir),
{
    let trail = lemma_manifest_is_sound(rules, root, root, nodes, i);
    let names = names_on(nodes, trail);
    lemma_names_are_proper(nodes, trail);
    lemma_path_along_names(root, names);
    lemma_relative_is_the_rest(root, names);
    lemma_filtered_by_names(
        rules,
        root,
        path_along(root, names),
        names,
        item_at(nodes, trail)->0 is Dir,
    );
    trail
}

/// Whether some entry of a manifest is about `path`.
pub open spec fn lists(entries: Seq<EntryView>, path: Seq<char>) -> bool {
    exists|i: int| 0 <= i < entries.len() && (#[trigger] entries[i]).path == path
}

/// A file that a manifest lists, with different paths only, is held with its hash.
pub proof fn lemma_listed_file_is_held(entries: Seq<EntryView>, i: int)
    requires
        distinct(entries),
        0 <= i < entries.len(),
        !entries[i].is_dir,
    ensures
        files(entries).contains_key(entries[i].path),
        files(entries)[entries[i].path] == entries[i].hash,
{
    lemma_lookup_distinct(entries, i);
}

/// A path can be looked up exactly where it is listed.
pub proof fn lemma_lookup_lists(entries: Seq<EntryView>, path: Seq<char>)
    ensures
        lookup(entries, path) is Some <==> lists(entries, path),
{
    if lookup(entries, path) is Some {
        let i = lemma_lookup_found(entries, path);
        assert(entries[i].path == path);
    }
    if lists(entries, path) {
        let i = choose|i: int| 0 <= i < entries.len() && (#[trigger] entries[i]).path == path;
        lemma_lookup_some(entries, i);
    }
}

/// A local file is pushed, with its hash and its size, exactly where files go that way and the beam
/// does not list its path, or lists it with other contents; a directory is not pushed.
pub proof fn lemma_plan_pushes_what_differs(
    local: Seq<EntryView>,
    beam: Seq<EntryView>,
    direction: SyncDirection,
    i: int,
)
    requires
        distinct(local),
        distinct(beam),
        0 <= i < local.len(),
    ensures
        ({
            let to_push = plan(local, beam, direction).to_push;
            let wanted = direction != SyncDirection::BeamToLocal && !local[i].is_dir && forall|k: int|
                0 <= k < beam.len() && (#[trigger] beam[k]).path == local[i].path ==> beam[k].hash
                    != local[i].hash;
            &&& wanted ==> to_push.contains(
                SyncView { path: local[i].path, hash: local[i].hash, size: local[i].size },
            )
            &&& !wanted ==> !transfers_path(to_push, local[i].path)
        }),
{
    let send = |e: EntryView| to_send(beam, e);
    let sync_of = |e: EntryView| sync_view(e);
    let to_push = plan(local, beam, direction).to_push;
    let wanted = direction != SyncDirection::BeamToLocal && !local[i].is_dir && forall|k: int|
        0 <= k < beam.len() && (#[trigger] beam[k]).path == local[i].path ==> beam[k].hash
            != local[i].hash;
    lemma_lookup_distinct(local, i);
    if lookup(beam, local[i].path) is Some {
        let k = lemma_lookup_found(beam, local[i].path);
        assert(beam[k].path == local[i].path);
        assert forall|j: int| 0 <= j < beam.len() && (#[trigger] beam[j]).path == local[i].path
            implies j == k by {
            lemma_lookup_distinct(beam, j);
            if j < k {
                assert(beam[j].path != beam[k].path);
            }
            if k < j {
                assert(beam[k].path != beam[j].path);
            }
        }
    } else {
        lemma_lookup_lists(beam, local[i].path);
    }
    if direction.pushes() {
        lemma_selected_contains(local, send, sync_of);
        lemma_pushed_paths(local, beam, direction);
        assert(transfers_path(to_push, local[i].path) <==> to_send(beam, local[i]));
        if wanted {
            assert(send(local[i]) && sync_of(local[i]) == sync_view(local[i]));
            assert(to_push.contains(sync_of(local[i])));
        }
    }
}

/// A file of the beam is pulled, with its hash and its size, exactly where files come that way and
/// the local side does not list its path; a directory is not pulled.
pub proof fn lemma_plan_pulls_what_is_missing(
    local: Seq<EntryView>,
    beam: Seq<EntryView>,
    direction: SyncDirection,
    i: int,
)
    requires
        distinct(beam),
        0 <= i < beam.len(),
    ensures
        ({
            let to_pull = plan(local, beam, direction).to_pull;
            let wanted = direction != SyncDirection::LocalToBeam && !beam[i].is_dir && !lists(
                local,
                beam[i].path,
            );
            &&& wanted ==> to_pull.contains(
                SyncView { path: beam[i].path, hash: beam[i].hash, size: beam[i].size },
            )
            &&& !wanted ==> !transfers_path(to_pull, beam[i].path)
        }),
{
    let fetch = |e: EntryView| to_fetch(local, e);
    let sync_of = |e: EntryView| sync_view(e);
    let to_pull = plan(local, beam, direction).to_pull;
    lemma_lookup_distinct(beam, i);
    lemma_lookup_lists(local, beam[i].path);
    if direction.pulls() {
        lemma_selected_contains(beam, fetch, sync_of);
        lemma_pulled_paths(local, beam, direction);
        assert(transfers_path(to_pull, beam[i].path) <==> to_fetch(local, beam[i]));
        if to_fetch(local, beam[i]) {
            assert(fetch(beam[i]) && sync_of(beam[i]) == sync_view(beam[i]));
            assert(to_pull.contains(sync_of(beam[i])));
        }
    }
}

/// Nothing else is transferred: what a plan pushes is a local file, and what it pulls a file of the
/// beam, each with its own hash and size.
pub proof fn lemma_plan_is_sound(
    local: Seq<EntryView>,
    beam: Seq<EntryView>,
    direction: SyncDirection,
    i: int,
)
    ensures
        0 <= i < plan(local, beam, direction).to_push.len() ==> exists|k: int|
            0 <= k < local.len() && !(#[trigger] local[k]).is_dir && plan(
                local,
                beam,
                direction,
            ).to_push[i] == (SyncView {
                path: local[k].path,
                hash: local[k].hash,
                size: local[k].size,
            }),
        0 <= i < plan(local, beam, direction).to_pull.len() ==> exists|k: int|
            0 <= k < beam.len() && !(#[trigger] beam[k]).is_dir && plan(
                local,
                beam,
                direction,
            ).to_pull[i] == (SyncView { path: beam[k].path, hash: beam[k].hash, size: beam[k].size }),
{
    let send = |e: EntryView| to_send(beam, e);
    let fetch = |e: EntryView| to_fetch(local, e);
    let sync_of = |e: EntryView| sync_view(e);
    let p = plan(local, beam, direction);
    lemma_selected_contains(local, send, sync_of);
    lemma_selected_contains(beam, fetch, sync_of);
    if 0 <= i < p.to_push.len() {
        assert(p.to_push.contains(p.to_push[i]));
        let k = choose|k: int|
            0 <= k < local.len() && send(#[trigger] local[k]) && sync_of(local[k]) == p.to_push[i];
        assert(!local[k].is_dir);
    }
    if 0 <= i < p.to_pull.len() {
        assert(p.to_pull.contains(p.to_pull[i]));
        let k = choose|k: int|
            0 <= k < beam.len() && fetch(#[trigger] beam[k]) && sync_of(beam[k]) == p.to_pull[i];
        assert(!beam[k].is_dir);
    }
}

/// A selection of entries with different paths holds no path twice.
proof fn lemma_selected_once(s: Seq<EntryView>, keep: spec_fn(EntryView) -> bool, i: int, j: int)
    requires
        distinct(s),
        0 <= i < j < s.filter(keep).len(),
    ensures
        s.filter(keep)[i].path != s.filter(keep)[j].path,
    decreases s.len(),
{
    reveal(Seq::filter);
    if s.len() > 0 {
        let before = s.drop_last();
        let kept = before.filter(keep);
        lemma_distinct_shorter(s);
        assert(before.push(s.last()) =~= s);
        before.lemma_filter_push(s.last(), keep);
        if j < kept.len() {
            lemma_selected_once(before, keep, i, j);
        } else {
            before.lemma_filter_pred(keep, i);
            assert(kept.contains(kept[i]));
            before.lemma_filter_contains_rev(keep, kept[i]);
            let k = before.index_of(kept[i]);
            assert(s[k] == kept[i]);
            assert(s[k].path != s[s.len() - 1].path);
        }
    }
}

/// No file is pushed twice, none is pulled twice, and no directory is made twice.
pub proof fn lemma_plan_moves_once(
    local: Seq<EntryView>,
    beam: Seq<EntryView>,
    direction: SyncDirection,
    i: int,
    j: int,
)
    requires
        distinct(local),
        distinct(beam),
        0 <= i < j,
    ensures
        j < plan(local, beam, direction).to_push.len() ==> plan(local, beam, direction).to_push[i].path
            != plan(local, beam, direction).to_push[j].path,
        j < plan(local, beam, direction).to_pull.len() ==> plan(local, beam, direction).to_pull[i].path
            != plan(local, beam, direction).to_pull[j].path,
        j < plan(local, beam, direction).create_dirs.len() ==> plan(
            local,
            beam,
            direction,
        ).create_dirs[i] != plan(local, beam, direction).create_dirs[j],
{
    let p = plan(local, beam, direction);
    if j < p.to_push.len() {
        lemma_selected_once(local, |e: EntryView| to_send(beam, e), i, j);
    }
    if j < p.to_pull.len() {
        lemma_selected_once(beam, |e: EntryView| to_fetch(local, e), i, j);
    }
    if j < p.create_dirs.len() {
        lemma_selected_once(local, |e: EntryView| e.is_dir, i, j);
    }
}

/// The beam is to make exactly the directories that the local side lists, where files go that way.
pub proof fn lemma_plan_makes_directories(
    local: Seq<EntryView>,
    beam: Seq<EntryView>,
    direction: SyncDirection,
    path: Seq<char>,
)
    ensures
        plan(local, beam, direction).create_dirs.contains(path) <==> direction
            != SyncDirection::BeamToLocal && exists|i: int|
            0 <= i < local.len() && (#[trigger] local[i]).is_dir && local[i].path == path,
{
    let is_dir = |e: EntryView| e.is_dir;
    let path_of = |e: EntryView| e.path;
    let dirs = plan(local, beam, direction).create_dirs;
    lemma_selected_contains(local, is_dir, path_of);
    if direction.pushes() {
        if dirs.contains(path) {
            let i = choose|i: int|
                0 <= i < local.len() && is_dir(#[trigger] local[i]) && path_of(local[i]) == path;
            assert(local[i].is_dir && local[i].path == path);
        }
        if exists|i: int|
            0 <= i < local.len() && (#[trigger] local[i]).is_dir && local[i].path == path {
            let i = choose|i: int|
                0 <= i < local.len() && (#[trigger] local[i]).is_dir && local[i].path == path;
            assert(is_dir(local[i]) && path_of(local[i]) == path);
        }
    }
}

/// Recording a manifest remembers its files, each as it stands in the last entry for it, and leaves
/// what is known of all other paths as it was.
pub proof fn lemma_recorded_one_more(
    states: Map<Seq<char>, FileState>,
    entries: Seq<EntryView>,
    entry: EntryView,
)
    ensures
        recorded(states, Seq::empty()) == states,
        entry.is_dir ==> recorded(states, entries.push(entry)) == recorded(states, entries),
        !entry.is_dir ==> recorded(states, entries.push(entry)) == recorded(states, entries).insert(
            entry.path,
            FileState { hash: entry.hash, mtime: entry.mtime, size: entry.size },
        ),
{
    assert(entries.push(entry).drop_last() =~= entries);
}

/// A path that a manifest does not list as a file is known as before.
pub proof fn lemma_recorded_leaves_others(
    states: Map<Seq<char>, FileState>,
    entries: Seq<EntryView>,
    path: Seq<char>,
)
    requires
        forall|i: int|
            0 <= i < entries.len() && (#[trigger] entries[i]).path == path ==> entries[i].is_dir,
    ensures
        recorded(states, entries).contains_key(path) <==> states.contains_key(path),
        recorded(states, entries)[path] == states[path],
    decreases entries.len(),
{
    if entries.len() > 0 {
        let before = entries.drop_last();
        assert forall|i: int|
            0 <= i < before.len() && (#[trigger] before[i]).path == path implies before[i].is_dir by {
            assert(before[i] == entries[i]);
        }
        lemma_recorded_leaves_others(states, before, path);
        assert(entries[entries.len() - 1] == entries.last());
    }
}

} // verus!
