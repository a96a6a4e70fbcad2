//! What a side remembers of its files, and which paths it keeps silent about.

use crate::text::{begins_with, lemma_views_push, same_text, starts_with_chars, to_chars, views};
use vstd::hash_map::StringHashMap;
use vstd::prelude::*;

verus! {

/// How long after writing a file a side keeps silent about events on it, in nanoseconds.
pub const SUPPRESS_NANOS: u64 = 500_000_000;

/// What a side knows of a file's contents.
#[derive(Debug, Clone, Copy, PartialEq, Eq, Structural)]
pub struct FileState {
    pub hash: u64,
    pub mtime: u64,
    pub size: u64,
}

/// The time from `since` to `now`; none where `since` lies ahead.
pub open spec fn elapsed(since: u64, now: u64) -> u64 {
    if since <= now {
        (now - since) as u64
    } else {
        0
    }
}

/// The time from `since` to `now`; none where `since` lies ahead.
pub fn elapsed_nanos(since: u64, now: u64) -> (r: u64)
    ensures
        r == elapsed(since, now),
{
    if since <= now {
        now - since
    } else {
        0
    }
}

/// The entries of `m` whose path does not begin with the text `prefix`.
pub open spec fn without_prefix<V>(m: Map<Seq<char>, V>, prefix: Seq<char>) -> Map<Seq<char>, V> {
    m.restrict(Set::new(|k: Seq<char>| !begins_with(k, prefix)))
}

/// The entries of `m` that are younger than `SUPPRESS_NANOS`.
pub open spec fn fresh(m: Map<Seq<char>, u64>, now: u64) -> Map<Seq<char>, u64> {
    m.restrict(Set::new(|k: Seq<char>| elapsed(m[k], now) < SUPPRESS_NANOS))
}

/// A map from paths that can be walked.
#[verifier::reject_recursive_types(V)]
pub struct PathMap<V> {
    map: StringHashMap<V>,
    keys: Vec<String>,
}

impl<V> View for PathMap<V> {
    type V = Map<Seq<char>, V>;

    closed spec fn view(&self) -> Map<Seq<char>, V> {
        self.map@
    }
}

impl<V> PathMap<V> {
    /// Whether the list of paths is that of the map.
    pub closed spec fn wf(&self) -> bool {
        forall|k: Seq<char>| #[trigger]
            self.map@.contains_key(k) <==> views(self.keys@).contains(k)
    }

    /// The empty map.
    pub fn new() -> (m: PathMap<V>)
        ensures
            m.wf(),
            m@ == Map::<Seq<char>, V>::empty(),
    {
        PathMap { map: StringHashMap::new(), keys: Vec::new() }
    }

    /// Whether `path` has an entry.
    pub fn contains(&self, path: &str) -> (r: bool)
        ensures
            r == self@.contains_key(path@),
    {
        self.map.contains_key(path)
    }

    /// The entry of `path`.
    pub fn get(&self, path: &str) -> (r: Option<&V>)
        ensures
            match r {
                Some(v) => self@.contains_key(path@) && *v == self@[path@],
                None => !self@.contains_key(path@),
            },
    {
        self.map.get(path)
    }

    /// Gives `path` the entry `value`.
    pub fn insert(&mut self, path: &String, value: V)
        requires
            old(self).wf(),
        ensures
            final(self).wf(),
            final(self)@ == old(self)@.insert(path@, value),
    {
        if !self.map.contains_key(path.as_str()) {
            let key = path.clone();
            let ghost before = self.keys@;
            self.keys.push(key);
            proof {
                lemma_views_push(before, key);
                lemma_push_contains(views(before), path@);
            }
        }
        self.map.insert(path.clone(), value);
    }

    /// Takes the entry of `path` away.
    pub fn remove(&mut self, path: &str)
        requires
            old(self).wf(),
        ensures
            final(self).wf(),
            final(self)@ == old(self)@.remove(path@),
    {
        if !self.map.contains_key(path) {
            assert(self.map@.remove(path@) =~= self.map@);
            return;
        }
        self.map.remove(path);
        let mut kept: Vec<String> = Vec::new();
        let ghost all = views(self.keys@);
        while self.keys.len() > 0
            invariant
                self.map@ == old(self).map@.remove(path@),
                forall|k: Seq<char>| #[trigger]
                    all.contains(k) <==> views(self.keys@).contains(k) || views(kept@).contains(k)
                        || (k == path@ && all.contains(path@)),
                !views(kept@).contains(path@),
            decreases self.keys@.len(),
        {
            let ghost before = self.keys@;
            let ghost kept_before = kept@;
            match self.keys.pop() {
                Some(key) => {
                    proof {
                        lemma_views_push(self.keys@, key);
                        assert(self.keys@.push(key) =~= before);
                        lemma_push_contains(views(self.keys@), key@);
                    }
                    if !same_text(key.as_str(), path) {
                        kept.push(key);
                        proof {
                            lemma_views_push(kept_before, key);
                            lemma_push_contains(views(kept_before), key@);
                        }
                    }
                },
                None => {},
            }
        }
        assert(self.keys@.len() == 0);
        self.keys = kept;
    }
}

impl<V: Copy> PathMap<V> {
    /// Takes away the entries of all paths that begin with the text `prefix`.
    pub fn drop_prefix(&mut self, prefix: &str)
        requires
            old(self).wf(),
        ensures
            final(self).wf(),
            final(self)@ == without_prefix(old(self)@, prefix@),
    {
        let chars = to_chars(prefix);
        let mut kept: PathMap<V> = PathMap::new();
        let mut i: usize = 0;
        while i < self.keys.len()
            invariant
                *self == *old(self),
                self.wf(),
                kept.wf(),
                chars@ == prefix@,
                i <= self.keys@.len(),
                forall|k: Seq<char>| #[trigger]
                    kept@.contains_key(k) ==> self@.contains_key(k) && kept@[k] == self@[k]
                        && !begins_with(k, prefix@),
                forall|j: int|
                    0 <= j < i && !begins_with(self.keys@[j]@, prefix@) ==> kept@.contains_key(
                        #[trigger] self.keys@[j]@,
                    ),
            decreases self.keys@.len() - i,
        {
            let key = &self.keys[i];
            assert(views(self.keys@)[i as int] == key@);
            assert(self.map@.contains_key(key@));
            if !starts_with_chars(key.as_str(), &chars) {
                match self.map.get(key.as_str()) {
                    Some(value) => {
                        kept.insert(key, *value);
                    },
                    None => {},
                }
            }
            i = i + 1;
        }
        proof {
            assert forall|k: Seq<char>| #[trigger]
                self@.contains_key(k) && !begins_with(k, prefix@) implies kept@.contains_key(k) by {
                let j = views(self.keys@).index_of(k);
                assert(self.keys@[j]@ == k);
            }
            assert(kept@ =~= without_prefix(old(self)@, prefix@));
        }
        *self = kept;
    }
}

impl PathMap<u64> {
    /// Takes away the entries that are as old as `SUPPRESS_NANOS`, or older.
    pub fn expire(&mut self, now: u64)
        requires
            old(self).wf(),
        ensures
            final(self).wf(),
            final(self)@ == fresh(old(self)@, now),
    {
        let mut kept: PathMap<u64> = PathMap::new();
        let mut i: usize = 0;
        while i < self.keys.len()
            invariant
                *self == *old(self),
                self.wf(),
                kept.wf(),
                i <= self.keys@.len(),
                forall|k: Seq<char>| #[trigger]
                    kept@.contains_key(k) ==> self@.contains_key(k) && kept@[k] == self@[k]
                        && elapsed(self@[k], now) < SUPPRESS_NANOS,
                forall|j: int|
                    0 <= j < i && elapsed(self@[self.keys@[j]@], now) < SUPPRESS_NANOS
                        ==> kept@.contains_key(#[trigger] self.keys@[j]@),
            decreases self.keys@.len() - i,
        {
            let key = &self.keys[i];
            assert(views(self.keys@)[i as int] == key@);
            assert(self.map@.contains_key(key@));
            match self.map.get(key.as_str()) {
                Some(since) => {
                    if elapsed_nanos(*since, now) < SUPPRESS_NANOS {
                        kept.insert(key, *since);
                    }
                },
                None => {},
            }
            i = i + 1;
        }
        proof {
            assert forall|k: Seq<char>| #[trigger]
                self@.contains_key(k) && elapsed(self@[k], now) < SUPPRESS_NANOS implies
                kept@.contains_key(k) by {
                let j = views(self.keys@).index_of(k);
                assert(self.keys@[j]@ == k);
            }
            assert(kept@ =~= fresh(old(self)@, now));
        }
        *self = kept;
    }
}

/// What a sequence contains after one more item.
proof fn lemma_push_contains<A>(s: Seq<A>, a: A)
    ensures
        forall|x: A| #[trigger] s.push(a).contains(x) <==> s.contains(x) || x == a,
{
    assert forall|x: A| #[trigger] s.push(a).contains(x) <==> s.contains(x) || x == a by {
        if s.contains(x) {
            let i = s.index_of(x);
            assert(s.push(a)[i] == x);
        }
        if x == a {
            assert(s.push(a)[s.len() as int] == x);
        }
    }
}

/// The time that has passed, added to when it began, gives the present; nothing has passed of what
/// lies ahead.
pub proof fn lemma_elapsed(since: u64, now: u64)
    ensures
        since <= now ==> since + elapsed(since, now) == now,
        since > now ==> elapsed(since, now) == 0,
{
}

/// Forgetting a directory forgets exactly the paths that begin with its text, and keeps what is
/// known of all others as it is.
pub proof fn lemma_without_prefix<V>(m: Map<Seq<char>, V>, prefix: Seq<char>, path: Seq<char>)
    ensures
        without_prefix(m, prefix).contains_key(path) <==> m.contains_key(path) && !(prefix.len()
            <= path.len() && path.take(prefix.len() as int) == prefix),
        without_prefix(m, prefix).contains_key(path) ==> without_prefix(m, prefix)[path] == m[path],
{
}

/// A silence lasts for half a second, no longer and no shorter, and keeps the time of its beginning.
pub proof fn lemma_silence_lasts(m: Map<Seq<char>, u64>, path: Seq<char>, now: u64)
    ensures
        fresh(m, now).contains_key(path) <==> m.contains_key(path) && now - m[path] < 500_000_000,
        fresh(m, now).contains_key(path) ==> fresh(m, now)[path] == m[path],
{
}

} // verus!
