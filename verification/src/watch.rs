//! Events of a watched directory tree.

use crate::ignore_rules::{filtered, IgnoreRules, Patterns};
use crate::paths::{below, is_below, join_path, pushed, relative, relative_path};
use crate::text::opt_view;
use vstd::prelude::*;

verus! {

/// Something that happened to a path.
#[derive(Debug)]
pub enum WatchEvent {
    Modified(String),
    Deleted(String),
    DirCreated(String),
    DirDeleted(String),
}

/// What a [`WatchEvent`] says.
#[verifier::ext_equal]
pub enum WatchView {
    Modified(Seq<char>),
    Deleted(Seq<char>),
    DirCreated(Seq<char>),
    DirDeleted(Seq<char>),
}

impl View for WatchEvent {
    type V = WatchView;

    open spec fn view(&self) -> WatchView {
        match *self {
            WatchEvent::Modified(path) => WatchView::Modified(path@),
            WatchEvent::Deleted(path) => WatchView::Deleted(path@),
            WatchEvent::DirCreated(path) => WatchView::DirCreated(path@),
            WatchEvent::DirDeleted(path) => WatchView::DirDeleted(path@),
        }
    }
}

/// What the local watcher reports of a path.
#[derive(Debug, Clone, Copy, PartialEq, Eq, Structural)]
pub enum ChangeKind {
    FileCreated,
    FolderCreated,
    Modified,
    FileRemoved,
    FolderRemoved,
    /// Anything else.
    Other,
}

/// The event that a report of the local watcher stands for.
pub open spec fn local_event(kind: ChangeKind, path: Seq<char>, is_dir: bool) -> Option<WatchView> {
    match kind {
        ChangeKind::FileCreated => Some(WatchView::Modified(path)),
        ChangeKind::FolderCreated => Some(WatchView::DirCreated(path)),
        ChangeKind::Modified => if is_dir {
            None
        } else {
            Some(WatchView::Modified(path))
        },
        ChangeKind::FileRemoved => Some(WatchView::Deleted(path)),
        ChangeKind::FolderRemoved => Some(WatchView::DirDeleted(path)),
        ChangeKind::Other => None,
    }
}

/// The event that a report of the local watcher stands for; `is_dir` tells whether the path is
/// that of a directory now.
pub fn classify_local(kind: ChangeKind, path: String, is_dir: bool) -> (event: Option<WatchEvent>)
    ensures
        opt_view(event) == local_event(kind, path@, is_dir),
{
    match kind {
        ChangeKind::FileCreated => Some(WatchEvent::Modified(path)),
        ChangeKind::FolderCreated => Some(WatchEvent::DirCreated(path)),
        ChangeKind::Modified => {
            if is_dir {
                None
            } else {
                Some(WatchEvent::Modified(path))
            }
        },
        ChangeKind::FileRemoved => Some(WatchEvent::Deleted(path)),
        ChangeKind::FolderRemoved => Some(WatchEvent::DirDeleted(path)),
        ChangeKind::Other => None,
    }
}

/// What the kernel reports of an item of a watched directory.
#[derive(Debug, Clone, Copy, PartialEq, Eq, Structural)]
pub struct KernelMask {
    pub create: bool,
    pub modify: bool,
    pub close_write: bool,
    pub delete: bool,
    pub moved_from: bool,
    pub moved_to: bool,
    pub is_dir: bool,
}

/// What follows from a report of the kernel.
#[verifier::ext_equal]
pub struct ReactionView {
    /// The event to pass on.
    pub event: Option<WatchView>,
    /// The directory that is to be watched from now on.
    pub watch: Option<Seq<char>>,
    /// The directory that is gone, with everything in it.
    pub gone: Option<Seq<char>>,
}

/// What follows from a report of the kernel.
pub struct Reaction {
    /// The event to pass on.
    pub event: Option<WatchEvent>,
    /// The directory that is to be watched from now on.
    pub watch: Option<String>,
    /// The directory that is gone, with everything in it.
    pub gone: Option<String>,
}

impl View for Reaction {
    type V = ReactionView;

    open spec fn view(&self) -> ReactionView {
        ReactionView {
            event: opt_view(self.event),
            watch: opt_view(self.watch),
            gone: opt_view(self.gone),
        }
    }
}

/// Nothing follows.
pub open spec fn no_reaction() -> ReactionView {
    ReactionView { event: None, watch: None, gone: None }
}

/// What follows from the report `mask` on the item at `path` of the tree at `root`.
pub open spec fn reaction(
    rules: Seq<Patterns>,
    root: Seq<char>,
    path: Seq<char>,
    mask: KernelMask,
) -> ReactionView {
    let name = relative(root, path);
    let dir_appears = ReactionView {
        event: Some(WatchView::DirCreated(name)),
        watch: Some(path),
        gone: None,
    };
    let file_changes = ReactionView {
        event: Some(WatchView::Modified(name)),
        watch: None,
        gone: None,
    };
    if filtered(rules, root, path, mask.is_dir) {
        no_reaction()
    } else if mask.create && mask.is_dir {
        dir_appears
    } else if mask.close_write || mask.modify {
        if mask.is_dir {
            no_reaction()
        } else {
            file_changes
        }
    } else if mask.delete || mask.moved_from {
        if mask.is_dir {
            ReactionView {
                event: Some(WatchView::DirDeleted(name)),
                watch: None,
                gone: Some(path),
            }
        } else {
            ReactionView { event: Some(WatchView::Deleted(name)), watch: None, gone: None }
        }
    } else if mask.moved_to {
        if mask.is_dir {
            dir_appears
        } else {
            file_changes
        }
    } else {
        no_reaction()
    }
}

/// What follows from the report `mask` on the item at `path` of the tree at `root`.
fn react(rules: &IgnoreRules, root: &str, path: String, mask: KernelMask) -> (r: Reaction)
    ensures
        r@ == reaction(rules@, root@, path@, mask),
{
    let nothing = Reaction { event: None, watch: None, gone: None };
    if rules.filter_path(root, path.as_str(), mask.is_dir) {
        return nothing;
    }
    let name = relative_path(root, path.as_str());
    if mask.create && mask.is_dir {
        Reaction { event: Some(WatchEvent::DirCreated(name)), watch: Some(path), gone: None }
    } else if mask.close_write || mask.modify {
        if mask.is_dir {
            nothing
        } else {
            Reaction { event: Some(WatchEvent::Modified(name)), watch: None, gone: None }
        }
    } else if mask.delete || mask.moved_from {
        if mask.is_dir {
            Reaction { event: Some(WatchEvent::DirDeleted(name)), watch: None, gone: Some(path) }
        } else {
            Reaction { event: Some(WatchEvent::Deleted(name)), watch: None, gone: None }
        }
    } else if mask.moved_to {
        if mask.is_dir {
            Reaction { event: Some(WatchEvent::DirCreated(name)), watch: Some(path), gone: None }
        } else {
            Reaction { event: Some(WatchEvent::Modified(name)), watch: None, gone: None }
        }
    } else {
        nothing
    }
}

/// The watched directories, by the number that the kernel gave each watch.
pub struct WatchTable {
    dirs: Vec<(i32, String)>,
}

/// The directory that was last entered under the number `id`.
pub open spec fn watched(dirs: Seq<(i32, Seq<char>)>, id: i32) -> Option<Seq<char>>
    decreases dirs.len(),
{
    if dirs.len() == 0 {
        None
    } else if dirs.last().0 == id {
        Some(dirs.last().1)
    } else {
        watched(dirs.drop_last(), id)
    }
}

/// The watches of directories that do not lie in `dir`.
pub open spec fn watches_outside(dirs: Seq<(i32, Seq<char>)>, dir: Seq<char>) -> Seq<(i32, Seq<char>)> {
    dirs.filter(|w: (i32, Seq<char>)| !below(dir, w.1))
}

/// Whether a watch has another number than `id`.
pub open spec fn other_than(id: i32) -> spec_fn((i32, Seq<char>)) -> bool {
    |watch: (i32, Seq<char>)| watch.0 != id
}

/// The watches with another number than `id`.
pub open spec fn other_watches(dirs: Seq<(i32, Seq<char>)>, id: i32) -> Seq<(i32, Seq<char>)> {
    dirs.filter(other_than(id))
}

spec fn watch_views(dirs: Seq<(i32, String)>) -> Seq<(i32, Seq<char>)> {
    dirs.map_values(|w: (i32, String)| (w.0, w.1@))
}

impl View for WatchTable {
    type V = Seq<(i32, Seq<char>)>;

    closed spec fn view(&self) -> Seq<(i32, Seq<char>)> {
        watch_views(self.dirs@)
    }
}

impl WatchTable {
    /// A table without any watch.
    pub fn new() -> (table: WatchTable)
        ensures
            table@ == Seq::<(i32, Seq<char>)>::empty(),
    {
        let table = WatchTable { dirs: Vec::new() };
        assert(table@ =~= Seq::<(i32, Seq<char>)>::empty());
        table
    }

    /// Enters the watch `id` of the directory `dir`, in place of an earlier one of that number.
    pub fn add_watch(&mut self, id: i32, dir: String)
        ensures
            final(self)@ == other_watches(old(self)@, id).push((id, dir@)),
    {
        let ghost all = self@;
        let ghost keep = other_than(id);
        let mut kept: Vec<(i32, String)> = Vec::new();
        let mut i: usize = 0;
        proof {
            reveal(Seq::filter);
            assert(watch_views(kept@) =~= all.take(0).filter(keep));
        }
        while i < self.dirs.len()
            invariant
                *self == *old(self),
                all == self@,
                keep == other_than(id),
                i <= self.dirs@.len(),
                watch_views(kept@) == all.take(i as int).filter(keep),
            decreases self.dirs@.len() - i,
        {
            let other: i32 = self.dirs[i].0;
            let ghost watch = (other, self.dirs@[i as int].1@);
            proof {
                assert(all.take(i + 1) =~= all.take(i as int).push(watch));
                all.take(i as int).lemma_filter_push(watch, keep);
            }
            if other != id {
                let ghost before = kept@;
                kept.push((other, self.dirs[i].1.clone()));
                assert(watch_views(kept@) =~= watch_views(before).push(watch));
            }
            i = i + 1;
        }
        assert(all.take(i as int) =~= all);
        let ghost before = kept@;
        kept.push((id, dir));
        assert(watch_views(kept@) =~= watch_views(before).push((id, dir@)));
        self.dirs = kept;
    }

    /// The directory of the watch `id`.
    pub fn get(&self, id: i32) -> (r: Option<&String>)
        ensures
            match r {
                Some(dir) => watched(self@, id) == Some(dir@),
                None => watched(self@, id) is None,
            },
    {
        let mut n: usize = self.dirs.len();
        assert(self@.take(n as int) =~= self@);
        while n > 0
            invariant
                n <= self.dirs@.len(),
                watched(self@, id) == watched(self@.take(n as int), id),
            decreases n,
        {
            proof {
                assert(self@.take(n as int).last() == (
                    self.dirs@[n - 1].0,
                    self.dirs@[n - 1].1@,
                ));
                assert(self@.take(n as int).drop_last() =~= self@.take(n - 1));
            }
            if self.dirs[n - 1].0 == id {
                return Some(&self.dirs[n - 1].1);
            }
            n = n - 1;
        }
        None
    }

    /// Forgets the watches of `dir` and of everything in it.
    pub fn drop_below(&mut self, dir: &str)
        ensures
            final(self)@ == watches_outside(old(self)@, dir@),
    {
        let ghost all = self@;
        let ghost keep = |w: (i32, Seq<char>)| !below(dir@, w.1);
        let mut kept: Vec<(i32, String)> = Vec::new();
        let mut i: usize = 0;
        proof {
            reveal(Seq::filter);
            assert(watch_views(kept@) =~= all.take(0).filter(keep));
        }
        while i < self.dirs.len()
            invariant
                *self == *old(self),
                all == self@,
                keep == (|w: (i32, Seq<char>)| !below(dir@, w.1)),
                i <= self.dirs@.len(),
                watch_views(kept@) == all.take(i as int).filter(keep),
            decreases self.dirs@.len() - i,
        {
            let id: i32 = self.dirs[i].0;
            let watched_dir = &self.dirs[i].1;
            proof {
                assert(all.take(i + 1) =~= all.take(i as int).push((id, watched_dir@)));
                all.take(i as int).lemma_filter_push((id, watched_dir@), keep);
            }
            if !is_below(dir, watched_dir.as_str()) {
                let ghost before = kept@;
                kept.push((id, watched_dir.clone()));
                assert(watch_views(kept@) =~= watch_views(before).push((id, watched_dir@)));
            }
            i = i + 1;
        }
        assert(all.take(i as int) =~= all);
        self.dirs = kept;
    }

    /// What follows from the report `mask` of the watch `id` on the item `name` of its directory.
    /// The watches of a directory that is gone are forgotten.
    pub fn report(
        &mut self,
        rules: &IgnoreRules,
        root: &str,
        id: i32,
        name: Option<&str>,
        mask: KernelMask,
    ) -> (r: Reaction)
        ensures
            match (watched(old(self)@, id), name) {
                (Some(dir), Some(item)) => {
                    &&& r@ == reaction(rules@, root@, pushed(dir, item@), mask)
                    &&& final(self)@ == match r@.gone {
                        Some(gone) => watches_outside(old(self)@, gone),
                        None => old(self)@,
                    }
                },
                _ => r@ == no_reaction() && final(self)@ == old(self)@,
            },
    {
        let path = match (self.get(id), name) {
            (Some(dir), Some(item)) => join_path(dir.as_str(), item),
            _ => {
                return Reaction { event: None, watch: None, gone: None };
            },
        };
        let r = react(rules, root, path, mask);
        match &r.gone {
            Some(gone) => {
                self.drop_below(gone.as_str());
            },
            None => {},
        }
        r
    }
}

/// What the rules ignore is not reported.
pub proof fn lemma_reports_respect_rules(
    rules: Seq<Patterns>,
    root: Seq<char>,
    path: Seq<char>,
    mask: KernelMask,
)
    requires
        filtered(rules, root, path, mask.is_dir),
    ensures
        reaction(rules, root, path, mask) == no_reaction(),
{
}

/// A new watch is found under its number, and the others under theirs.
pub proof fn lemma_watch_is_found(
    dirs: Seq<(i32, Seq<char>)>,
    id: i32,
    dir: Seq<char>,
    other: i32,
)
    ensures
        watched(other_watches(dirs, id).push((id, dir)), id) == Some(dir),
        other != id ==> watched(other_watches(dirs, id).push((id, dir)), other) == watched(
            dirs,
            other,
        ),
{
    let kept = other_watches(dirs, id);
    assert(kept.push((id, dir)).drop_last() =~= kept);
    if other != id {
        lemma_others_stay(dirs, id, other);
    }
}

proof fn lemma_others_stay(dirs: Seq<(i32, Seq<char>)>, id: i32, other: i32)
    requires
        other != id,
    ensures
        watched(other_watches(dirs, id), other) == watched(dirs, other),
    decreases dirs.len(),
{
    reveal(Seq::filter);
    if dirs.len() > 0 {
        let before = dirs.drop_last();
        lemma_others_stay(before, id, other);
        assert(before.push(dirs.last()) =~= dirs);
        before.lemma_filter_push(dirs.last(), other_than(id));
        if dirs.last().0 != id {
            assert(other_watches(dirs, id).drop_last() =~= other_watches(before, id));
        }
    }
}

/// After a directory is gone, no watch lies in it, and the watches elsewhere stay.
pub proof fn lemma_gone_directory_is_not_watched(dirs: Seq<(i32, Seq<char>)>, dir: Seq<char>)
    ensures
        forall|i: int|
            0 <= i < watches_outside(dirs, dir).len() ==> !below(
                dir,
                (#[trigger] watches_outside(dirs, dir)[i]).1,
            ),
        forall|i: int|
            0 <= i < dirs.len() && !below(dir, (#[trigger] dirs[i]).1) ==> watches_outside(
                dirs,
                dir,
            ).contains(dirs[i]),
{
    broadcast use Seq::lemma_filter_pred, Seq::lemma_filter_contains;

    let keep = |w: (i32, Seq<char>)| !below(dir, w.1);
    assert forall|i: int| 0 <= i < watches_outside(dirs, dir).len() implies !below(
        dir,
        (#[trigger] watches_outside(dirs, dir)[i]).1,
    ) by {
        assert(keep(dirs.filter(keep)[i]));
    }
    assert forall|i: int| 0 <= i < dirs.len() && !below(dir, (#[trigger] dirs[i]).1) implies
        watches_outside(dirs, dir).contains(dirs[i]) by {
        assert(keep(dirs[i]));
        assert(dirs.filter(keep).contains(dirs[i]));
    }
}

/// A directory that appears, because it was made or moved here, is reported and watched from then
/// on.
pub proof fn lemma_directory_appears(
    rules: Seq<Patterns>,
    root: Seq<char>,
    path: Seq<char>,
    mask: KernelMask,
)
    requires
        !filtered(rules, root, path, true),
        mask.is_dir,
        mask.create || (mask.moved_to && !mask.close_write && !mask.modify && !mask.delete
            && !mask.moved_from),
    ensures
        reaction(rules, root, path, mask).event == Some(WatchView::DirCreated(relative(root, path))),
        reaction(rules, root, path, mask).watch == Some(path),
        reaction(rules, root, path, mask).gone is None,
{
}

/// A directory that goes, because it was deleted or moved away, is reported, and is gone with
/// everything in it.
pub proof fn lemma_directory_goes(
    rules: Seq<Patterns>,
    root: Seq<char>,
    path: Seq<char>,
    mask: KernelMask,
)
    requires
        !filtered(rules, root, path, true),
        mask.is_dir,
        !mask.create,
        !mask.close_write,
        !mask.modify,
        mask.delete || mask.moved_from,
    ensures
        reaction(rules, root, path, mask).event == Some(WatchView::DirDeleted(relative(root, path))),
        reaction(rules, root, path, mask).watch is None,
        reaction(rules, root, path, mask).gone == Some(path),
{
}

/// A file that was written, or moved here, is reported as changed.
pub proof fn lemma_file_changes(
    rules: Seq<Patterns>,
    root: Seq<char>,
    path: Seq<char>,
    mask: KernelMask,
)
    requires
        !filtered(rules, root, path, false),
        !mask.is_dir,
        mask.close_write || mask.modify || (mask.moved_to && !mask.delete && !mask.moved_from),
    ensures
        reaction(rules, root, path, mask).event == Some(WatchView::Modified(relative(root, path))),
        reaction(rules, root, path, mask).watch is None,
        reaction(rules, root, path, mask).gone is None,
{
}

/// A file that goes, because it was deleted or moved away, is reported as deleted.
pub proof fn lemma_file_goes(
    rules: Seq<Patterns>,
    root: Seq<char>,
    path: Seq<char>,
    mask: KernelMask,
)
    requires
        !filtered(rules, root, path, false),
        !mask.is_dir,
        !mask.close_write,
        !mask.modify,
        mask.delete || mask.moved_from,
    ensures
        reaction(rules, root, path, mask).event == Some(WatchView::Deleted(relative(root, path))),
        reaction(rules, root, path, mask).watch is None,
        reaction(rules, root, path, mask).gone is None,
{
}

/// Nothing follows from a change of a directory itself, nor from a file that was made and not
/// written yet, nor from a report of nothing.
pub proof fn lemma_nothing_happens(
    rules: Seq<Patterns>,
    root: Seq<char>,
    path: Seq<char>,
    mask: KernelMask,
)
    requires
        !mask.is_dir || !mask.create,
        (mask.is_dir && (mask.close_write || mask.modify)) || (!mask.close_write && !mask.modify
            && !mask.delete && !mask.moved_from && !mask.moved_to),
    ensures
        reaction(rules, root, path, mask).event is None,
        reaction(rules, root, path, mask).watch is None,
        reaction(rules, root, path, mask).gone is None,
{
}

/// A directory that is renamed goes under its old name and appears under its new one: the old one is
/// reported as deleted and no longer watched, nor is anything in it, and the new one is reported as
/// made and watched.
pub proof fn lemma_directory_is_renamed(
    rules: Seq<Patterns>,
    root: Seq<char>,
    from: Seq<char>,
    to: Seq<char>,
    dirs: Seq<(i32, Seq<char>)>,
    i: int,
)
    requires
        !filtered(rules, root, from, true),
        !filtered(rules, root, to, true),
        0 <= i < dirs.len(),
    ensures
        ({
            let none = KernelMask {
                create: false,
                modify: false,
                close_write: false,
                delete: false,
                moved_from: false,
                moved_to: false,
                is_dir: true,
            };
            let left = reaction(rules, root, from, KernelMask { moved_from: true, ..none });
            let came = reaction(rules, root, to, KernelMask { moved_to: true, ..none });
            &&& left.event == Some(WatchView::DirDeleted(relative(root, from)))
            &&& left.gone is Some
            &&& watches_outside(dirs, left.gone->0).contains(dirs[i]) <==> !below(from, dirs[i].1)
            &&& came.event == Some(WatchView::DirCreated(relative(root, to)))
            &&& came.watch == Some(to)
        }),
{
    lemma_gone_directory_is_not_watched(dirs, from);
    let kept = watches_outside(dirs, from);
    if kept.contains(dirs[i]) {
        let k = kept.index_of(dirs[i]);
        assert(!below(from, kept[k].1));
    }
}

/// Forgetting the watches of a directory adds none, and keeps the others in their order.
pub proof fn lemma_other_watches_stay(
    dirs: Seq<(i32, Seq<char>)>,
    dir: Seq<char>,
    watch: (i32, Seq<char>),
)
    ensures
        watches_outside(dirs.push(watch), dir) == if below(dir, watch.1) {
            watches_outside(dirs, dir)
        } else {
            watches_outside(dirs, dir).push(watch)
        },
        watches_outside(Seq::empty(), dir) == Seq::<(i32, Seq<char>)>::empty(),
{
    dirs.lemma_filter_push(watch, |w: (i32, Seq<char>)| !below(dir, w.1));
    reveal(Seq::filter);
}

/// A watch is found under its number as long as no later one has the same, and under no other.
pub proof fn lemma_watched_last(dirs: Seq<(i32, Seq<char>)>, id: i32, dir: Seq<char>, other: i32)
    ensures
        watched(dirs.push((id, dir)), other) == if other == id {
            Some(dir)
        } else {
            watched(dirs, other)
        },
        watched(Seq::empty(), other) is None,
{
    assert(dirs.push((id, dir)).drop_last() =~= dirs);
}

/// What the local watcher reports of a path is passed on as what happened to that path: a file that
/// was made or changed is changed, and whatever goes is deleted. A change of a directory itself, and
/// whatever else is reported, is passed over.
pub proof fn lemma_local_reports(path: Seq<char>, is_dir: bool)
    ensures
        local_event(ChangeKind::FileCreated, path, is_dir) == Some(WatchView::Modified(path)),
        local_event(ChangeKind::FolderCreated, path, is_dir) == Some(WatchView::DirCreated(path)),
        local_event(ChangeKind::FileRemoved, path, is_dir) == Some(WatchView::Deleted(path)),
        local_event(ChangeKind::FolderRemoved, path, is_dir) == Some(WatchView::DirDeleted(path)),
        local_event(ChangeKind::Modified, path, false) == Some(WatchView::Modified(path)),
        local_event(ChangeKind::Modified, path, true) is None,
        local_event(ChangeKind::Other, path, is_dir) is None,
{
}

/// An event and what follows from it say what they carry, all of it.
pub proof fn lemma_watch_views(path: String, reaction: Reaction)
    ensures
        WatchEvent::Modified(path)@ == WatchView::Modified(path@),
        WatchEvent::Deleted(path)@ == WatchView::Deleted(path@),
        WatchEvent::DirCreated(path)@ == WatchView::DirCreated(path@),
        WatchEvent::DirDeleted(path)@ == WatchView::DirDeleted(path@),
        reaction.event is Some ==> reaction@.event == Some(reaction.event->0@),
        reaction.event is None ==> reaction@.event is None,
        reaction.watch is Some ==> reaction@.watch == Some(reaction.watch->0@),
        reaction.watch is None ==> reaction@.watch is None,
        reaction.gone is Some ==> reaction@.gone == Some(reaction.gone->0@),
        reaction.gone is None ==> reaction@.gone is None,
{
}

} // verus!
