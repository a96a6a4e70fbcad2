//! Paths as text: their components, joining, and the part below a root.

use crate::text::{
    concat, join, join_text, lemma_split_append, lemma_split_first, lemma_split_join,
    lemma_split_nonempty, lemma_split_pieces, lemma_split_tail, lemma_views_push, same_text, split,
    split_text, views,
};
use vstd::prelude::*;
use vstd::string::StringExecFns;

verus! {

/// Whether a piece between separators names something: it is neither empty nor the current
/// directory.
pub open spec fn names(piece: Seq<char>) -> bool {
    piece.len() > 0 && piece != seq!['.']
}

/// What a path begins with before its names: the root, a leading current directory, or nothing.
pub open spec fn anchor(path: Seq<char>) -> Seq<Seq<char>> {
    if path.len() > 0 && path[0] == '/' {
        seq![seq!['/']]
    } else if split(path, '/')[0] == seq!['.'] {
        seq![seq!['.']]
    } else {
        Seq::empty()
    }
}

/// The components of a path. Repeated and trailing separators do not count, nor does a current
/// directory that is not at the beginning.
pub open spec fn components(path: Seq<char>) -> Seq<Seq<char>> {
    anchor(path) + split(path, '/').filter(|piece: Seq<char>| names(piece))
}

/// `base` extended by one component or relative path; an absolute one replaces it.
pub open spec fn pushed(base: Seq<char>, next: Seq<char>) -> Seq<char> {
    if next.len() > 0 && next[0] == '/' {
        next
    } else if base.len() > 0 && base.last() != '/' {
        base.push('/') + next
    } else {
        base + next
    }
}

/// The path made of `parts`.
pub open spec fn joined(parts: Seq<Seq<char>>) -> Seq<char>
    decreases parts.len(),
{
    if parts.len() == 0 {
        Seq::empty()
    } else {
        pushed(joined(parts.drop_last()), parts.last())
    }
}

/// Whether `path` lies below `root`, or is `root`: by components, not by characters.
pub open spec fn below(root: Seq<char>, path: Seq<char>) -> bool {
    components(root).is_prefix_of(components(path))
}

/// The components of `path` below `root`; those of the whole path where it does not lie below.
pub open spec fn relative_components(root: Seq<char>, path: Seq<char>) -> Seq<Seq<char>> {
    if below(root, path) {
        components(path).skip(components(root).len() as int)
    } else {
        components(path)
    }
}

/// The pieces of a path from its name number `k` on.
pub open spec fn from_name(pieces: Seq<Seq<char>>, k: nat) -> Seq<Seq<char>>
    decreases pieces.len(),
{
    if pieces.len() == 0 {
        pieces
    } else if !names(pieces[0]) {
        from_name(pieces.drop_first(), k)
    } else if k == 0 {
        pieces
    } else {
        from_name(pieces.drop_first(), (k - 1) as nat)
    }
}

/// The pieces of a path up to its last name.
pub open spec fn to_last_name(pieces: Seq<Seq<char>>) -> Seq<Seq<char>>
    decreases pieces.len(),
{
    if pieces.len() == 0 || names(pieces.last()) {
        pieces
    } else {
        to_last_name(pieces.drop_last())
    }
}

/// The text of `path` from its component number `k` on, without separators at its ends.
pub open spec fn text_from(path: Seq<char>, k: nat) -> Seq<char> {
    let pieces = split(path, '/');
    if k >= anchor(path).len() {
        join(to_last_name(from_name(pieces, (k - anchor(path).len()) as nat)), seq!['/'])
    } else if to_last_name(pieces).len() > 0 {
        join(to_last_name(pieces), seq!['/'])
    } else {
        joined(anchor(path))
    }
}

/// The part of `path` below `root`, as it is written there; the path as it is where it does not
/// lie below.
pub open spec fn relative(root: Seq<char>, path: Seq<char>) -> Seq<char> {
    if below(root, path) {
        text_from(path, components(root).len())
    } else {
        path
    }
}

/// Whether `text` is the path of the current directory.
fn is_dot(text: &str) -> (r: bool)
    ensures
        r == (text@ == seq!['.']),
{
    proof {
        reveal_strlit(".");
        assert("."@ =~= seq!['.']);
    }
    same_text(text, ".")
}

/// The components of `path`.
pub fn path_components(path: &str) -> (parts: Vec<String>)
    ensures
        views(parts@) == components(path@),
{
    let pieces = split_text(path, '/');
    let ghost all = split(path@, '/');
    let ghost keep = |piece: Seq<char>| names(piece);
    let mut parts: Vec<String> = Vec::new();
    proof {
        reveal_strlit("/");
        reveal_strlit(".");
        assert("/"@ =~= seq!['/']);
        assert("."@ =~= seq!['.']);
        assert(all[0] == pieces@[0]@);
    }
    if begins_with_separator(path) {
        parts.push(String::from_str("/"));
    } else if is_dot(pieces[0].as_str()) {
        parts.push(String::from_str("."));
    }
    assert(views(parts@) =~= anchor(path@));
    assert(all.take(0).filter(keep) =~= Seq::<Seq<char>>::empty()) by {
        reveal(Seq::filter);
    }
    let mut i: usize = 0;
    while i < pieces.len()
        invariant
            i <= pieces@.len(),
            all == views(pieces@),
            keep == (|piece: Seq<char>| names(piece)),
            views(parts@) == anchor(path@) + all.take(i as int).filter(keep),
        decreases pieces@.len() - i,
    {
        proof {
            assert(all.take(i + 1) =~= all.take(i as int).push(pieces@[i as int]@));
            all.take(i as int).lemma_filter_push(pieces@[i as int]@, keep);
        }
        if !pieces[i].as_str().is_empty() && !is_dot(pieces[i].as_str()) {
            proof {
                lemma_views_push(parts@, pieces@[i as int]);
            }
            parts.push(pieces[i].clone());
            assert(views(parts@) =~= anchor(path@) + all.take(i + 1).filter(keep));
        }
        i = i + 1;
    }
    assert(all.take(i as int) =~= all);
    parts
}

fn begins_with_separator(path: &str) -> (r: bool)
    ensures
        r == (path@.len() > 0 && path@[0] == '/'),
{
    let mut chars = path.chars();
    match chars.next() {
        Some(c) => c == '/',
        None => false,
    }
}

fn ends_with_separator(path: &str) -> (r: bool)
    ensures
        r == (path@.len() > 0 && path@.last() == '/'),
{
    let v = crate::text::to_chars(path);
    v.len() > 0 && v[v.len() - 1] == '/'
}

/// `base` extended by `next`.
pub fn join_path(base: &str, next: &str) -> (path: String)
    ensures
        path@ == pushed(base@, next@),
{
    if begins_with_separator(next) {
        String::from_str(next)
    } else if !base.is_empty() && !ends_with_separator(base) {
        proof {
            reveal_strlit("/");
        }
        let path = crate::text::concat3(base, "/", next);
        assert(path@ =~= base@.push('/') + next@);
        path
    } else {
        concat(base, next)
    }
}

/// Whether the components `prefix` are the first of `parts`.
fn components_begin_with(parts: &Vec<String>, prefix: &Vec<String>) -> (r: bool)
    ensures
        r == views(prefix@).is_prefix_of(views(parts@)),
{
    if parts.len() < prefix.len() {
        return false;
    }
    let ghost all = views(parts@);
    let ghost first = views(prefix@);
    let mut i: usize = 0;
    while i < prefix.len()
        invariant
            i <= prefix@.len() <= parts@.len(),
            all == views(parts@),
            first == views(prefix@),
            forall|k: int| 0 <= k < i ==> all[k] == first[k],
        decreases prefix@.len() - i,
    {
        if !same_text(parts[i].as_str(), prefix[i].as_str()) {
            assert(all[i as int] != first[i as int]);
            assert(all.subrange(0, first.len() as int)[i as int] == all[i as int]);
            return false;
        }
        i = i + 1;
    }
    assert(first =~= all.subrange(0, first.len() as int));
    true
}

/// Whether `path` lies below `root`, or is `root`.
pub fn is_below(root: &str, path: &str) -> (r: bool)
    ensures
        r == below(root@, path@),
{
    let prefix = path_components(root);
    let parts = path_components(path);
    components_begin_with(&parts, &prefix)
}

/// The components of `path` below `root`, or of the whole path where it does not lie below.
pub fn components_below(root: &str, path: &str) -> (parts: Vec<String>)
    ensures
        views(parts@) == relative_components(root@, path@),
{
    let prefix = path_components(root);
    let parts = path_components(path);
    if !components_begin_with(&parts, &prefix) {
        return parts;
    }
    let ghost all = views(parts@);
    let mut rest: Vec<String> = Vec::new();
    let mut i: usize = prefix.len();
    assert(views(rest@) =~= all.subrange(prefix@.len() as int, i as int));
    assert(views(prefix@).len() <= all.len());
    while i < parts.len()
        invariant
            prefix@.len() <= i <= parts@.len(),
            all == views(parts@),
            views(rest@) == all.subrange(prefix@.len() as int, i as int),
        decreases parts@.len() - i,
    {
        proof {
            lemma_views_push(rest@, parts@[i as int]);
            assert(all.subrange(prefix@.len() as int, i + 1) =~= all.subrange(
                prefix@.len() as int,
                i as int,
            ).push(all[i as int]));
        }
        rest.push(parts[i].clone());
        i = i + 1;
    }
    assert(all.subrange(prefix@.len() as int, i as int) =~= all.skip(prefix@.len() as int));
    rest
}

/// Whether a piece between separators names something.
fn is_name(piece: &str) -> (r: bool)
    ensures
        r == names(piece@),
{
    !piece.is_empty() && !is_dot(piece)
}

/// Where the pieces of a path from its name number `k` on begin.
fn first_from(pieces: &Vec<String>, k: usize) -> (from: usize)
    ensures
        from <= pieces@.len(),
        from_name(views(pieces@), k as nat) == views(pieces@).skip(from as int),
{
    let ghost all = views(pieces@);
    let mut left: usize = k;
    let mut i: usize = 0;
    assert(all.skip(0) =~= all);
    while i < pieces.len()
        invariant
            i <= pieces@.len(),
            all == views(pieces@),
            from_name(all, k as nat) == from_name(all.skip(i as int), left as nat),
        decreases pieces@.len() - i,
    {
        assert(all.skip(i as int)[0] == pieces@[i as int]@);
        assert(all.skip(i as int).drop_first() =~= all.skip(i + 1));
        if is_name(pieces[i].as_str()) {
            if left == 0 {
                return i;
            }
            left = left - 1;
        }
        i = i + 1;
    }
    i
}

/// Where the pieces of a path from number `from` up to its last name end.
fn last_name_end(pieces: &Vec<String>, from: usize) -> (to: usize)
    requires
        from <= pieces@.len(),
    ensures
        from <= to <= pieces@.len(),
        to_last_name(views(pieces@).skip(from as int)) == views(pieces@).subrange(
            from as int,
            to as int,
        ),
{
    let ghost all = views(pieces@);
    let mut to: usize = pieces.len();
    assert(all.subrange(from as int, to as int) =~= all.skip(from as int));
    while to > from
        invariant
            from <= to <= pieces@.len(),
            all == views(pieces@),
            to_last_name(all.skip(from as int)) == to_last_name(
                all.subrange(from as int, to as int),
            ),
        decreases to,
    {
        assert(all.subrange(from as int, to as int).last() == pieces@[to - 1]@);
        assert(all.subrange(from as int, to as int).drop_last() =~= all.subrange(
            from as int,
            to - 1,
        ));
        if is_name(pieces[to - 1].as_str()) {
            return to;
        }
        to = to - 1;
    }
    to
}

/// The text of the pieces `from` to `to`, with separators between them.
fn joined_pieces(pieces: &Vec<String>, from: usize, to: usize) -> (text: String)
    requires
        from <= to <= pieces@.len(),
    ensures
        text@ == join(views(pieces@).subrange(from as int, to as int), seq!['/']),
{
    let ghost all = views(pieces@);
    let mut chosen: Vec<String> = Vec::new();
    let mut i: usize = from;
    assert(views(chosen@) =~= all.subrange(from as int, i as int));
    while i < to
        invariant
            from <= i <= to <= pieces@.len(),
            all == views(pieces@),
            views(chosen@) == all.subrange(from as int, i as int),
        decreases to - i,
    {
        proof {
            lemma_views_push(chosen@, pieces@[i as int]);
            assert(all.subrange(from as int, i + 1) =~= all.subrange(from as int, i as int).push(
                all[i as int],
            ));
        }
        chosen.push(pieces[i].clone());
        i = i + 1;
    }
    proof {
        reveal_strlit("/");
        assert("/"@ =~= seq!['/']);
    }
    join_text(&chosen, "/")
}

/// The part of `full_path` below `root`; the path as it is where it does not lie below.
pub fn relative_path(root: &str, full_path: &str) -> (path: String)
    ensures
        path@ == relative(root@, full_path@),
{
    if !is_below(root, full_path) {
        return String::from_str(full_path);
    }
    let k: usize = path_components(root).len();
    let pieces = split_text(full_path, '/');
    let ghost all = views(pieces@);
    proof {
        reveal_strlit("/");
        reveal_strlit(".");
        assert("/"@ =~= seq!['/']);
        assert("."@ =~= seq!['.']);
        assert(all[0] == pieces@[0]@);
        assert(all.skip(0) =~= all);
        reveal_with_fuel(joined, 2);
        assert(Seq::<char>::empty() + seq!['.'] =~= seq!['.']);
        assert(seq![seq!['/']].drop_last() =~= Seq::<Seq<char>>::empty());
        assert(seq![seq!['.']].drop_last() =~= Seq::<Seq<char>>::empty());
    }
    let rooted = begins_with_separator(full_path);
    let anchored: usize = if rooted || is_dot(pieces[0].as_str()) {
        1
    } else {
        0
    };
    let from: usize = if k >= anchored {
        first_from(&pieces, k - anchored)
    } else {
        0
    };
    let to: usize = last_name_end(&pieces, from);
    if k < anchored && to == 0 {
        return if rooted {
            String::from_str("/")
        } else {
            String::from_str(".")
        };
    }
    joined_pieces(&pieces, from, to)
}

/// Whether `name` is the name of an item of a directory: one component, and not the directory
/// itself.
pub open spec fn proper(name: Seq<char>) -> bool {
    names(name) && !name.contains('/')
}

/// Extending a path by the name of an item adds one component.
pub proof fn lemma_pushed_components(dir: Seq<char>, name: Seq<char>)
    requires
        proper(name),
    ensures
        components(pushed(dir, name)) == components(dir).push(name),
{
    let keep = |piece: Seq<char>| names(piece);
    let path = pushed(dir, name);
    lemma_split_nonempty(dir, '/');
    assert(name[0] != '/') by {
        if name[0] == '/' {
            assert(name.contains('/'));
        }
    }
    lemma_split_tail(Seq::empty(), name, '/');
    assert(Seq::<char>::empty() + name =~= name);
    assert(split(Seq::<char>::empty(), '/') =~= seq![Seq::<char>::empty()]);
    if dir.len() == 0 {
        assert(dir =~= Seq::<char>::empty());
        assert(split(name, '/') =~= seq![name]);
        let none = Seq::<Seq<char>>::empty();
        none.lemma_filter_push(name, keep);
        none.lemma_filter_push(Seq::empty(), keep);
        assert(none.push(name) =~= split(name, '/'));
        assert(none.push(Seq::<char>::empty()) =~= split(dir, '/'));
        assert(none.filter(keep) =~= none) by {
            reveal(Seq::filter);
        }
        assert(components(dir) =~= none);
        assert(components(path) =~= none.push(name));
    } else if dir.last() != '/' {
        let slashed = dir.push('/');
        assert(slashed.drop_last() =~= dir);
        assert(split(slashed, '/') == split(dir, '/').push(Seq::empty()));
        lemma_split_tail(slashed, name, '/');
        assert(split(slashed, '/').drop_last() =~= split(dir, '/'));
        assert(split(path, '/') =~= split(dir, '/').push(name));
        split(dir, '/').lemma_filter_push(name, keep);
        assert(path[0] == dir[0]);
        assert(split(path, '/')[0] == split(dir, '/')[0]);
        assert(components(path) =~= components(dir).push(name));
    } else {
        let before = split(dir.drop_last(), '/');
        lemma_split_nonempty(dir.drop_last(), '/');
        assert(split(dir, '/') == before.push(Seq::empty()));
        lemma_split_tail(dir, name, '/');
        assert(split(dir, '/').drop_last() =~= before);
        assert(split(path, '/') =~= before.push(name));
        before.lemma_filter_push(name, keep);
        before.lemma_filter_push(Seq::empty(), keep);
        assert(path[0] == dir[0]);
        assert(split(path, '/')[0] == before[0]);
        assert(split(dir, '/')[0] == before[0]);
        assert(components(path) =~= components(dir).push(name));
    }
}

/// The components of a path that was made of names are those names.
pub proof fn lemma_joined_components(parts: Seq<Seq<char>>)
    requires
        forall|i: int| 0 <= i < parts.len() ==> proper(#[trigger] parts[i]),
    ensures
        components(joined(parts)) == parts,
    decreases parts.len(),
{
    if parts.len() == 0 {
        let keep = |piece: Seq<char>| names(piece);
        let none = Seq::<Seq<char>>::empty();
        assert(split(Seq::<char>::empty(), '/') =~= none.push(Seq::<char>::empty()));
        none.lemma_filter_push(Seq::empty(), keep);
        assert(none.filter(keep) =~= none) by {
            reveal(Seq::filter);
        }
        assert(components(joined(parts)) =~= parts);
    } else {
        let before = parts.drop_last();
        assert forall|i: int| 0 <= i < before.len() implies proper(#[trigger] before[i]) by {
            assert(before[i] == parts[i]);
        }
        lemma_joined_components(before);
        assert(parts.last() == parts[parts.len() - 1]);
        lemma_pushed_components(joined(before), parts.last());
        assert(before.push(parts.last()) =~= parts);
    }
}

/// What lies in a directory below `root` lies below `root` too, one component deeper.
pub proof fn lemma_pushed_relative(root: Seq<char>, dir: Seq<char>, name: Seq<char>)
    requires
        below(root, dir),
        proper(name),
    ensures
        below(root, pushed(dir, name)),
        relative_components(root, pushed(dir, name)) == relative_components(root, dir).push(name),
{
    lemma_pushed_components(dir, name);
    let k = components(root).len() as int;
    assert(components(dir).push(name).take(k) =~= components(dir).take(k));
    assert(components(root) =~= components(dir).push(name).take(k));
    assert(components(dir).push(name).skip(k) =~= components(dir).skip(k).push(name));
}

// ---------------------------------------------------------------------------------------------
// What lies below a root
// ---------------------------------------------------------------------------------------------

/// The names among the pieces of a path.
pub open spec fn named(pieces: Seq<Seq<char>>) -> Seq<Seq<char>> {
    pieces.filter(|piece: Seq<char>| names(piece))
}

proof fn lemma_named_push(pieces: Seq<Seq<char>>, piece: Seq<char>)
    ensures
        named(pieces.push(piece)) == if names(piece) {
            named(pieces).push(piece)
        } else {
            named(pieces)
        },
{
    pieces.lemma_filter_push(piece, |piece: Seq<char>| names(piece));
}

proof fn lemma_named_empty()
    ensures
        named(Seq::empty()) == Seq::<Seq<char>>::empty(),
{
    reveal(Seq::filter);
}

proof fn lemma_named_append(a: Seq<Seq<char>>, b: Seq<Seq<char>>)
    ensures
        named(a + b) == named(a) + named(b),
    decreases b.len(),
{
    if b.len() == 0 {
        lemma_named_empty();
        assert(b =~= Seq::<Seq<char>>::empty());
        assert(a + b =~= a);
        assert(named(a) + named(b) =~= named(a));
    } else {
        let c = b.drop_last();
        lemma_named_append(a, c);
        assert(a + b =~= (a + c).push(b.last()));
        assert(c.push(b.last()) =~= b);
        lemma_named_push(a + c, b.last());
        lemma_named_push(c, b.last());
        assert(named(a + b) =~= named(a) + named(b));
    }
}

proof fn lemma_named_one(piece: Seq<char>)
    ensures
        named(seq![piece]) == if names(piece) {
            seq![piece]
        } else {
            Seq::empty()
        },
{
    lemma_named_empty();
    lemma_named_push(Seq::empty(), piece);
    assert(Seq::empty().push(piece) =~= seq![piece]);
}

/// The components of a path are names without separators, but for the root.
pub proof fn lemma_component_is_a_name(path: Seq<char>, i: int)
    requires
        0 <= i < components(path).len(),
    ensures
        components(path)[i].len() > 0,
        !(path.len() > 0 && path[0] == '/') ==> !components(path)[i].contains('/'),
{
    let n = anchor(path).len() as int;
    if i >= n {
        let keep = |piece: Seq<char>| names(piece);
        let pieces = split(path, '/');
        pieces.lemma_filter_pred(keep, i - n);
        let piece = pieces.filter(keep)[i - n];
        assert(pieces.filter(keep).contains(piece));
        pieces.lemma_filter_contains_rev(keep, piece);
        lemma_split_pieces(path, '/');
        let k = pieces.index_of(piece);
        assert(pieces[k] == piece);
    }
}

/// Components without separators are joined without two separators in a row, and with none at
/// either end.
pub proof fn lemma_joined_is_tidy(parts: Seq<Seq<char>>)
    requires
        parts.len() > 0,
        forall|i: int|
            0 <= i < parts.len() ==> (#[trigger] parts[i]).len() > 0 && !parts[i].contains('/'),
    ensures
        joined(parts).len() > 0,
        joined(parts)[0] != '/',
        joined(parts).last() != '/',
        forall|i: int|
            0 < i < joined(parts).len() && #[trigger] joined(parts)[i] == '/' ==> joined(
                parts,
            )[i - 1] != '/',
    decreases parts.len(),
{
    let before = parts.drop_last();
    let last = parts.last();
    assert(last == parts[parts.len() - 1]);
    assert forall|i: int| 0 <= i < last.len() implies #[trigger] last[i] != '/' by {
        if last[i] == '/' {
            assert(last.contains('/'));
        }
    }
    if before.len() == 0 {
        assert(before =~= Seq::<Seq<char>>::empty());
        assert(joined(before) =~= Seq::<char>::empty());
        assert(last[0] != '/');
        assert(joined(parts) =~= last);
    } else {
        assert forall|i: int| 0 <= i < before.len() implies (#[trigger] before[i]).len() > 0
            && !before[i].contains('/') by {
            assert(before[i] == parts[i]);
        }
        lemma_joined_is_tidy(before);
        let text = joined(before);
        assert(joined(parts) == text.push('/') + last);
        assert forall|i: int|
            0 < i < joined(parts).len() && #[trigger] joined(parts)[i] == '/' implies joined(
            parts,
        )[i - 1] != '/' by {
            if i < text.len() {
                assert(joined(parts)[i] == text[i]);
                assert(joined(parts)[i - 1] == text[i - 1]);
            } else if i > text.len() {
                assert(joined(parts)[i] == last[i - text.len() - 1]);
            }
        }
    }
}

proof fn lemma_from_name(pieces: Seq<Seq<char>>, k: nat)
    requires
        k <= named(pieces).len(),
    ensures
        named(from_name(pieces, k)) == named(pieces).skip(k as int),
        from_name(pieces, k).len() > 0 ==> names(from_name(pieces, k)[0]),
        forall|piece: Seq<char>| #[trigger]
            from_name(pieces, k).contains(piece) ==> pieces.contains(piece),
    decreases pieces.len(),
{
    lemma_named_empty();
    if pieces.len() == 0 {
        assert(pieces =~= Seq::<Seq<char>>::empty());
        assert(named(pieces).skip(k as int) =~= named(pieces));
    } else {
        let rest = pieces.drop_first();
        assert(seq![pieces[0]] + rest =~= pieces);
        lemma_named_append(seq![pieces[0]], rest);
        lemma_named_one(pieces[0]);
        assert forall|piece: Seq<char>| rest.contains(piece) implies pieces.contains(piece) by {
            let i = rest.index_of(piece);
            assert(pieces[i + 1] == piece);
        }
        if !names(pieces[0]) {
            assert(named(pieces) =~= named(rest));
            lemma_from_name(rest, k);
        } else if k == 0 {
            assert(named(pieces).skip(0) =~= named(pieces));
        } else {
            lemma_from_name(rest, (k - 1) as nat);
            assert(named(pieces).skip(k as int) =~= named(rest).skip(k - 1));
        }
    }
}

proof fn lemma_to_last_name(pieces: Seq<Seq<char>>)
    ensures
        named(to_last_name(pieces)) == named(pieces),
        to_last_name(pieces).len() > 0 <==> named(pieces).len() > 0,
        to_last_name(pieces).len() > 0 ==> to_last_name(pieces)[0] == pieces[0],
        forall|piece: Seq<char>| #[trigger]
            to_last_name(pieces).contains(piece) ==> pieces.contains(piece),
    decreases pieces.len(),
{
    lemma_named_empty();
    if pieces.len() == 0 {
        assert(pieces =~= Seq::<Seq<char>>::empty());
    } else {
        let before = pieces.drop_last();
        assert(before.push(pieces.last()) =~= pieces);
        lemma_named_push(before, pieces.last());
        if !names(pieces.last()) {
            lemma_to_last_name(before);
            assert forall|piece: Seq<char>| before.contains(piece) implies pieces.contains(
                piece,
            ) by {
                let i = before.index_of(piece);
                assert(pieces[i] == piece);
            }
        }
    }
}

/// Joined pieces of a path are a path with these names.
proof fn lemma_joined_pieces(path: Seq<char>, pieces: Seq<Seq<char>>)
    requires
        pieces.len() > 0,
        forall|piece: Seq<char>| #[trigger]
            pieces.contains(piece) ==> split(path, '/').contains(piece),
    ensures
        split(join(pieces, seq!['/']), '/') == pieces,
{
    lemma_split_pieces(path, '/');
    assert forall|i: int| 0 <= i < pieces.len() implies !(#[trigger] pieces[i]).contains('/') by {
        assert(pieces.contains(pieces[i]));
        let k = split(path, '/').index_of(pieces[i]);
        assert(split(path, '/')[k] == pieces[i]);
    }
    lemma_split_join(pieces, '/');
}

/// The part of a path below a root is a path with the components below the root.
pub proof fn lemma_relative_components(root: Seq<char>, path: Seq<char>)
    requires
        below(root, path),
    ensures
        components(relative(root, path)) == relative_components(root, path),
        components(root).len() > 0 ==> anchor(relative(root, path)).len() == 0,
{
    let k = components(root).len();
    let text = relative(root, path);
    let pieces = split(path, '/');
    let fixed = anchor(path);
    assert(components(path) == fixed + named(pieces));
    assert(k <= components(path).len());
    lemma_split_nonempty(path, '/');
    if k >= fixed.len() {
        let j = (k - fixed.len()) as nat;
        let tail = from_name(pieces, j);
        let chosen = to_last_name(tail);
        lemma_from_name(pieces, j);
        lemma_to_last_name(tail);
        assert(named(pieces).skip(j as int) =~= components(path).skip(k as int));
        if chosen.len() == 0 {
            lemma_empty_components();
            assert(text =~= Seq::<char>::empty());
            assert(components(path).skip(k as int) =~= Seq::<Seq<char>>::empty());
        } else {
            lemma_joined_pieces(path, chosen);
            assert(names(split(text, '/')[0]));
            if text.len() > 0 {
                lemma_split_first(text, '/');
            }
            assert(anchor(text) =~= Seq::<Seq<char>>::empty());
            assert(components(text) =~= named(chosen));
        }
    } else {
        let chosen = to_last_name(pieces);
        lemma_to_last_name(pieces);
        assert(components(path).skip(0) =~= components(path));
        if chosen.len() > 0 {
            lemma_joined_pieces(path, chosen);
            assert(split(text, '/')[0] == pieces[0]);
            if path.len() > 0 {
                lemma_split_first(path, '/');
            }
            if text.len() > 0 {
                lemma_split_first(text, '/');
            } else {
                assert(split(text, '/') =~= seq![Seq::<char>::empty()]);
                lemma_named_one(Seq::empty());
            }
            assert(anchor(text) == fixed);
        } else {
            lemma_anchor_components(path);
            assert(components(path) =~= fixed);
        }
    }
}

proof fn lemma_empty_components()
    ensures
        components(Seq::empty()) == Seq::<Seq<char>>::empty(),
{
    assert(split(Seq::<char>::empty(), '/') =~= seq![Seq::<char>::empty()]);
    lemma_named_one(Seq::empty());
    assert(components(Seq::empty()) =~= Seq::<Seq<char>>::empty());
}

/// What a path begins with before its names is a path of one component.
proof fn lemma_anchor_components(path: Seq<char>)
    requires
        anchor(path).len() > 0,
    ensures
        components(joined(anchor(path))) == anchor(path),
{
    let fixed = anchor(path);
    reveal_with_fuel(joined, 2);
    assert(fixed.drop_last() =~= Seq::<Seq<char>>::empty());
    assert(Seq::<char>::empty() + fixed[0] =~= fixed[0]);
    let text = joined(fixed);
    assert(text == fixed[0]);
    let none = Seq::<char>::empty();
    assert(split(none, '/') =~= seq![none]);
    assert(text.drop_last() =~= none);
    lemma_named_one(none);
    if text[0] == '/' {
        assert(split(text, '/') =~= seq![none].push(none));
        lemma_named_push(seq![none], none);
    } else {
        assert(none.push('.') =~= seq!['.']);
        assert(split(text, '/') =~= seq![seq!['.']]);
        lemma_named_one(seq!['.']);
    }
    assert(components(text) =~= fixed);
}

/// Extending a path by a relative one adds the components of that.
pub proof fn lemma_pushed_path_components(base: Seq<char>, next: Seq<char>)
    requires
        base.len() > 0,
        anchor(next).len() == 0,
    ensures
        components(pushed(base, next)) == components(base) + components(next),
{
    let path = pushed(base, next);
    let a = split(base, '/');
    let b = split(next, '/');
    lemma_split_nonempty(base, '/');
    lemma_split_nonempty(next, '/');
    assert(seq![b[0]] + b.drop_first() =~= b);
    if base.last() != '/' {
        let slashed = base.push('/');
        assert(slashed.drop_last() =~= base);
        assert(split(slashed, '/') == a.push(Seq::empty()));
        lemma_split_append(slashed, next, '/');
        assert(a.push(Seq::empty()).drop_last() =~= a);
        assert(Seq::<char>::empty() + b[0] =~= b[0]);
        assert(split(path, '/') =~= a + b);
        lemma_named_append(a, b);
    } else {
        let before = split(base.drop_last(), '/');
        lemma_split_nonempty(base.drop_last(), '/');
        assert(a == before.push(Seq::empty()));
        lemma_split_append(base, next, '/');
        assert(a.drop_last() =~= before);
        assert(Seq::<char>::empty() + b[0] =~= b[0]);
        assert(split(path, '/') =~= before + b);
        lemma_named_append(before, b);
        lemma_named_push(before, Seq::empty());
    }
    assert(path[0] == base[0]);
    assert(split(path, '/')[0] == a[0]);
    assert(components(path) =~= components(base) + components(next));
}

/// Joining a root and the part of a path below it gives the path again, by components.
pub proof fn lemma_root_and_relative(root: Seq<char>, path: Seq<char>)
    requires
        below(root, path),
    ensures
        components(pushed(root, relative(root, path))) == components(path),
{
    let text = relative(root, path);
    lemma_relative_components(root, path);
    let k = components(root).len() as int;
    assert(components(root) + components(path).skip(k) =~= components(path));
    if root.len() > 0 {
        if k == 0 {
            lemma_split_first(root, '/');
            lemma_split_nonempty(root, '/');
            assert(names(split(root, '/')[0]));
            let keep = |piece: Seq<char>| names(piece);
            split(root, '/').lemma_filter_contains(keep, 0);
            assert(false);
        }
        lemma_pushed_path_components(root, text);
    } else {
        assert(root =~= Seq::<char>::empty());
        lemma_empty_components();
        assert(pushed(root, text) =~= text);
    }
}

/// A name goes behind a directory with one separator between them, and an absolute path stands for
/// itself.
pub proof fn lemma_pushed_text(base: Seq<char>, next: Seq<char>)
    ensures
        next.len() > 0 && next[0] == '/' ==> pushed(base, next) == next,
        !(next.len() > 0 && next[0] == '/') ==> {
            &&& base.len() == 0 ==> pushed(base, next) == next
            &&& base.len() > 0 && base.last() == '/' ==> pushed(base, next) == base + next
            &&& base.len() > 0 && base.last() != '/' ==> pushed(base, next) == base + seq!['/'] + next
        },
{
    assert(base.push('/') + next =~= base + seq!['/'] + next);
    if base.len() == 0 {
        assert(base + next =~= next);
    }
}

/// A proper name neither begins nor ends with a separator.
proof fn lemma_proper_ends(name: Seq<char>)
    requires
        proper(name),
    ensures
        name.len() > 0,
        name[0] != '/',
        name.last() != '/',
{
    if name[0] == '/' {
        assert(name.contains('/'));
    }
    if name.last() == '/' {
        assert(name.contains('/'));
    }
}

/// Proper names joined by separators neither begin nor end with one.
proof fn lemma_join_ends(names: Seq<Seq<char>>)
    requires
        names.len() > 0,
        forall|i: int| 0 <= i < names.len() ==> proper(#[trigger] names[i]),
    ensures
        join(names, seq!['/']).len() > 0,
        join(names, seq!['/'])[0] != '/',
        join(names, seq!['/']).last() != '/',
    decreases names.len(),
{
    lemma_proper_ends(names[names.len() - 1]);
    if names.len() > 1 {
        let before = names.drop_last();
        assert forall|i: int| 0 <= i < before.len() implies proper(#[trigger] before[i]) by {
            assert(before[i] == names[i]);
        }
        lemma_join_ends(before);
        let all = join(names, seq!['/']);
        assert(all[0] == join(before, seq!['/'])[0]);
        assert(all.last() == names.last().last());
    }
}

/// Going into one directory after the other is going to the place that their names lead to, joined
/// by separators.
pub proof fn lemma_pushed_along(base: Seq<char>, names: Seq<Seq<char>>, name: Seq<char>)
    requires
        names.len() > 0,
        forall|i: int| 0 <= i < names.len() ==> proper(#[trigger] names[i]),
        proper(name),
    ensures
        pushed(pushed(base, join(names, seq!['/'])), name) == pushed(
            base,
            join(names.push(name), seq!['/']),
        ),
{
    lemma_join_ends(names);
    lemma_proper_ends(name);
    let text = join(names, seq!['/']);
    let all = names.push(name);
    assert(all.drop_last() =~= names);
    assert(join(all, seq!['/']) == text + seq!['/'] + name);
    assert(join(all, seq!['/'])[0] == text[0]);
    let dir = pushed(base, text);
    assert(dir.last() == text.last());
    assert(dir.push('/') + name =~= pushed(base, join(all, seq!['/'])));
}

/// Proper names are joined by separators.
pub proof fn lemma_joined_names(names: Seq<Seq<char>>)
    requires
        forall|i: int| 0 <= i < names.len() ==> proper(#[trigger] names[i]),
    ensures
        joined(names) == join(names, seq!['/']),
    decreases names.len(),
{
    if names.len() > 0 {
        let before = names.drop_last();
        assert forall|i: int| 0 <= i < before.len() implies proper(#[trigger] before[i]) by {
            assert(before[i] == names[i]);
        }
        lemma_joined_names(before);
        lemma_proper_ends(names[names.len() - 1]);
        if before.len() == 0 {
            assert(joined(before) + names.last() =~= names.last());
        } else {
            lemma_join_ends(before);
            assert(joined(before).push('/') + names.last() =~= join(before, seq!['/']) + seq!['/']
                + names.last());
        }
    }
}

/// A path is its names: a relative one has those that are joined in it, an absolute one has the root
/// before them, and a separator at the end does not count.
pub proof fn lemma_components_are_names(names: Seq<Seq<char>>, path: Seq<char>)
    requires
        names.len() > 0,
        forall|i: int| 0 <= i < names.len() ==> proper(#[trigger] names[i]),
        path.len() > 0,
    ensures
        components(join(names, seq!['/'])) == names,
        components(seq!['/'] + join(names, seq!['/'])) == seq![seq!['/']] + names,
        components(path.push('/')) == components(path),
{
    let text = join(names, seq!['/']);
    let root = seq!['/'];
    lemma_joined_names(names);
    lemma_joined_components(names);
    lemma_join_ends(names);
    lemma_anchor_of_names(names);
    lemma_pushed_path_components(root, text);
    assert(pushed(root, text) =~= root + text);
    lemma_anchor_components(root);
    reveal_with_fuel(joined, 2);
    assert(anchor(root).drop_last() =~= Seq::<Seq<char>>::empty());
    assert(joined(anchor(root)) =~= root);
    lemma_split_nonempty(path, '/');
    assert(path.push('/').drop_last() =~= path);
    assert(split(path.push('/'), '/') == split(path, '/').push(Seq::empty()));
    lemma_named_push(split(path, '/'), Seq::empty());
    assert(anchor(path.push('/')) == anchor(path));
}

/// Proper names joined by separators begin with neither the root nor the current directory.
proof fn lemma_anchor_of_names(names: Seq<Seq<char>>)
    requires
        names.len() > 0,
        forall|i: int| 0 <= i < names.len() ==> proper(#[trigger] names[i]),
    ensures
        anchor(join(names, seq!['/'])).len() == 0,
        split(join(names, seq!['/']), '/') == names,
{
    lemma_join_ends(names);
    assert forall|i: int| 0 <= i < names.len() implies !(#[trigger] names[i]).contains('/') by {
        assert(proper(names[i]));
    }
    lemma_split_join(names, '/');
    assert(proper(names[0]));
}

/// From the first name behind the names in `a` on, the pieces `a + b` are those of `b`.
proof fn lemma_from_name_behind(a: Seq<Seq<char>>, b: Seq<Seq<char>>)
    requires
        b.len() > 0,
        names(b[0]),
    ensures
        from_name(a + b, named(a).len()) == b,
    decreases a.len(),
{
    lemma_named_empty();
    if a.len() == 0 {
        assert(a =~= Seq::<Seq<char>>::empty());
        assert(a + b =~= b);
    } else {
        let rest = a.drop_first();
        assert(seq![a[0]] + rest =~= a);
        lemma_named_append(seq![a[0]], rest);
        lemma_named_one(a[0]);
        assert((a + b).drop_first() =~= rest + b);
        assert((a + b)[0] == a[0]);
        lemma_from_name_behind(rest, b);
    }
}

/// Behind a root stand its own pieces, and then the names that lead on from it.
proof fn lemma_split_behind(root: Seq<char>, rest: Seq<Seq<char>>) -> (own: Seq<Seq<char>>)
    requires
        root.len() > 0,
        rest.len() > 0,
        forall|i: int| 0 <= i < rest.len() ==> proper(#[trigger] rest[i]),
    ensures
        split(pushed(root, join(rest, seq!['/'])), '/') == own + rest,
        named(own) == named(split(root, '/')),
        anchor(pushed(root, join(rest, seq!['/']))) == anchor(root),
{
    let text = join(rest, seq!['/']);
    let path = pushed(root, text);
    let a = split(root, '/');
    lemma_join_ends(rest);
    lemma_anchor_of_names(rest);
    lemma_split_nonempty(root, '/');
    assert(Seq::<char>::empty() + rest[0] =~= rest[0]);
    assert(seq![rest[0]] + rest.drop_first() =~= rest);
    assert(path[0] == root[0]);
    if root.last() != '/' {
        let slashed = root.push('/');
        assert(slashed.drop_last() =~= root);
        assert(split(slashed, '/') == a.push(Seq::empty()));
        lemma_split_append(slashed, text, '/');
        assert(a.push(Seq::empty()).drop_last() =~= a);
        assert(split(path, '/') =~= a + rest);
        assert(split(path, '/')[0] == a[0]);
        a
    } else {
        let own = a.drop_last();
        lemma_split_nonempty(root.drop_last(), '/');
        assert(a == split(root.drop_last(), '/').push(Seq::empty()));
        assert(own =~= split(root.drop_last(), '/'));
        lemma_split_append(root, text, '/');
        assert(split(path, '/') =~= own + rest);
        lemma_named_push(own, Seq::empty());
        assert(split(path, '/')[0] == own[0]);
        own
    }
}

/// What lies in a root under some names is known, relative to the root, by just these names, joined
/// by separators, wherever the root is.
pub proof fn lemma_relative_is_the_rest(root: Seq<char>, rest: Seq<Seq<char>>)
    requires
        rest.len() > 0,
        forall|i: int| 0 <= i < rest.len() ==> proper(#[trigger] rest[i]),
    ensures
        relative(root, pushed(root, join(rest, seq!['/']))) == join(rest, seq!['/']),
        components(pushed(root, join(rest, seq!['/']))) == components(root) + rest,
{
    let text = join(rest, seq!['/']);
    let path = pushed(root, text);
    lemma_anchor_of_names(rest);
    assert(names(rest[0])) by {
        assert(proper(rest[0]));
    }
    assert(to_last_name(rest) == rest) by {
        assert(proper(rest[rest.len() - 1]));
    }
    if root.len() == 0 {
        lemma_components_are_names(rest, seq!['/']);
        assert(root =~= Seq::<char>::empty());
        assert(path == text) by {
            lemma_join_ends(rest);
            lemma_pushed_text(root, text);
        }
        lemma_empty_components();
        assert(components(root) + rest =~= rest);
        assert(components(root) =~= rest.take(0));
        let none = Seq::<Seq<char>>::empty();
        lemma_from_name_behind(none, rest);
        lemma_named_empty();
        assert(none + rest =~= rest);
        assert(below(root, path));
    } else {
        lemma_pushed_path_components(root, text);
        lemma_components_are_names(rest, root);
        assert((components(root) + rest).take(components(root).len() as int) =~= components(root));
        let own = lemma_split_behind(root, rest);
        lemma_from_name_behind(own, rest);
        assert(components(root).len() == anchor(root).len() + named(split(root, '/')).len());
        assert(below(root, path));
    }
}

/// A path that does not lie below a root is known as it is written, and lies below it exactly where
/// its components begin with those of the root.
pub proof fn lemma_outside_stays(root: Seq<char>, path: Seq<char>)
    ensures
        below(root, path) <==> components(root).len() <= components(path).len() && components(
            path,
        ).take(components(root).len() as int) == components(root),
        !below(root, path) ==> relative(root, path) == path && relative_components(root, path)
            == components(path),
        below(root, path) ==> components(root) + relative_components(root, path) == components(path),
        below(root, root),
        relative_components(root, root).len() == 0,
{
    let k = components(root).len() as int;
    assert(components(root).take(k) =~= components(root));
    if below(root, path) {
        assert(components(path).take(k) =~= components(root));
        assert(components(root) + components(path).skip(k) =~= components(path));
    }
    if components(path).len() >= k && components(path).take(k) == components(root) {
        assert(below(root, path));
    }
}

/// Everything is a name but the empty text and that of the current directory, and a proper one unless
/// it holds a separator.
pub proof fn lemma_proper_names(name: Seq<char>)
    ensures
        names(name) <==> name.len() > 0 && !(name.len() == 1 && name[0] == '.'),
        proper(name) <==> name.len() > 0 && !(name.len() == 1 && name[0] == '.') && (forall|i: int|
            0 <= i < name.len() ==> #[trigger] name[i] != '/'),
{
    if name.len() == 1 && name[0] == '.' {
        assert(name =~= seq!['.']);
    }
    if forall|i: int| 0 <= i < name.len() ==> #[trigger] name[i] != '/' {
        assert(!name.contains('/'));
    }
    if !name.contains('/') {
        assert forall|i: int| 0 <= i < name.len() implies #[trigger] name[i] != '/' by {
            if name[i] == '/' {
                assert(name.contains('/'));
            }
        }
    }
}

/// The current directory counts at the beginning of a path, before the names.
pub proof fn lemma_leading_dot(rest: Seq<Seq<char>>)
    requires
        rest.len() > 0,
        forall|i: int| 0 <= i < rest.len() ==> proper(#[trigger] rest[i]),
    ensures
        components(seq!['.', '/'] + join(rest, seq!['/'])) == seq![seq!['.']] + rest,
{
    let dot = seq!['.'];
    let text = join(rest, seq!['/']);
    lemma_components_are_names(rest, dot);
    lemma_join_ends(rest);
    lemma_anchor_of_names(rest);
    lemma_pushed_path_components(dot, text);
    assert(pushed(dot, text) =~= seq!['.', '/'] + text);
    let none = Seq::<char>::empty();
    assert(split(none, '/') =~= seq![none]);
    assert(dot.drop_last() =~= none);
    assert(split(dot, '/') =~= seq![dot]) by {
        assert(none.push('.') =~= dot);
    }
    lemma_named_one(dot);
    assert(components(dot) =~= seq![dot]);
}

} // verus!
