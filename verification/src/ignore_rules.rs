//! Which paths take no part in a sync.

use crate::messages::{Message, MessageView, SyncEntry, SyncView};
use crate::paths::{
    components, components_below, join_path, joined, lemma_component_is_a_name,
    lemma_joined_is_tidy, path_components, relative_components,
};
use crate::text::{
    begins_with, lemma_stripped_leading, lemma_views_push, strip_leading, strip_leading_char, views,
};
use ignore::gitignore::{Gitignore, GitignoreBuilder};
use ignore::Match;
use vstd::prelude::*;
use vstd::string::StringExecFns;

verus! {

/// The builder of the `ignore` crate, which collects the lines of an ignore file.
#[verifier::external_type_specification]
#[verifier::external_body]
pub struct ExGitignoreBuilder(GitignoreBuilder);

/// The matcher of the `ignore` crate, which holds the patterns of an ignore file.
#[verifier::external_type_specification]
#[verifier::external_body]
pub struct ExGitignore(Gitignore);

/// The error of the `ignore` crate.
#[verifier::external_type_specification]
#[verifier::external_body]
pub struct ExIgnoreError(ignore::Error);

/// The lines that a builder was given, in order.
pub uninterp spec fn builder_lines(builder: GitignoreBuilder) -> Seq<Seq<char>>;

/// The directory that a builder was made for.
pub uninterp spec fn builder_root(builder: GitignoreBuilder) -> Seq<char>;

/// The lines that a matcher was built from, in order.
pub uninterp spec fn matcher_lines(matcher: Gitignore) -> Seq<Seq<char>>;

/// The directory that a matcher was built for.
pub uninterp spec fn matcher_root(matcher: Gitignore) -> Seq<char>;

/// Whether the patterns in `lines` compile where a machine word has `word` bits: the compiled
/// patterns are limited to a number of bytes, and their size in bytes depends on that of a word.
pub uninterp spec fn gitignore_compiles(lines: Seq<Seq<char>>, word: nat) -> bool;

/// What the patterns in `lines`, for the directory `root`, say of a path: `Some(true)` where they
/// ignore it, `Some(false)` where they exempt it, `None` where none of them matches.
pub uninterp spec fn gitignore_verdict(
    root: Seq<char>,
    lines: Seq<Seq<char>>,
    path: Seq<char>,
    is_dir: bool,
) -> Option<bool>;

/// Whether a path begins with a separator.
pub open spec fn absolute(path: Seq<char>) -> bool {
    path.len() > 0 && path[0] == '/'
}

/// Whether a path is relative, also once a leading current directory is taken away.
pub open spec fn plainly_relative(path: Seq<char>) -> bool {
    !absolute(path) && !(path.len() > 2 && path[0] == '.' && path[1] == '/' && path[2] == '/')
}

/// The directory that matters to what patterns for `root` say of `path`: an absolute directory is
/// nothing that a relative path could begin with.
pub open spec fn verdict_root(root: Seq<char>, path: Seq<char>) -> Seq<char> {
    if absolute(root) && plainly_relative(path) {
        Seq::empty()
    } else {
        root
    }
}

/// `GitignoreBuilder::new` makes a builder for a directory, without any line.
#[verifier::external_body]
fn new_builder(root: &str) -> (builder: GitignoreBuilder)
    ensures
        builder_root(builder) == root@,
        builder_lines(builder) == Seq::<Seq<char>>::empty(),
{
    GitignoreBuilder::new(root)
}

/// `GitignoreBuilder::add_line` takes one line of an ignore file. A line that is no valid pattern
/// contributes nothing, and the error that tells of it is not looked at.
#[verifier::external_body]
fn add_line(builder: &mut GitignoreBuilder, line: &str)
    ensures
        builder_root(*final(builder)) == builder_root(*old(builder)),
        builder_lines(*final(builder)) == builder_lines(*old(builder)).push(line@),
{
    let _ = builder.add_line(None, line);
}

/// `GitignoreBuilder::build` makes a matcher of the lines so far. It fails where the patterns are
/// too large to compile, which rests with the lines alone and the width of a machine word; without
/// any line it does not.
#[verifier::external_body]
fn build_matcher(builder: &GitignoreBuilder) -> (r: Result<Gitignore, ignore::Error>)
    ensures
        r is Ok <==> gitignore_compiles(builder_lines(*builder), usize::BITS as nat),
        builder_lines(*builder).len() == 0 ==> r is Ok,
        r matches Ok(matcher) ==> matcher_root(matcher) == builder_root(*builder) && matcher_lines(
            matcher,
        ) == builder_lines(*builder),
{
    builder.build()
}

/// `Gitignore::matched` says what the patterns of a matcher say of a path. Without any line they
/// say nothing. The directory of the matcher is taken off the front of the path where it stands
/// there, and matters in no other way.
#[verifier::external_body]
fn matched(matcher: &Gitignore, path: &str, is_dir: bool) -> (r: Option<bool>)
    ensures
        r == gitignore_verdict(
            verdict_root(matcher_root(*matcher), path@),
            matcher_lines(*matcher),
            path@,
            is_dir,
        ),
        matcher_lines(*matcher).len() == 0 ==> r is None,
{
    match matcher.matched(path, is_dir) {
        Match::None => None,
        Match::Ignore(_) => Some(true),
        Match::Whitelist(_) => Some(false),
    }
}

/// The patterns of one ignore file: its lines, and the directory that it is for.
#[verifier::ext_equal]
pub struct Patterns {
    pub root: Seq<char>,
    pub lines: Seq<Seq<char>>,
}

/// The patterns of a matcher.
pub open spec fn patterns_of(matcher: Gitignore) -> Patterns {
    Patterns { root: matcher_root(matcher), lines: matcher_lines(matcher) }
}

/// Whether the patterns ignore the path itself.
pub open spec fn ignores_itself(patterns: Patterns, path: Seq<char>, is_dir: bool) -> bool {
    patterns.lines.len() > 0 && gitignore_verdict(
        verdict_root(patterns.root, path),
        patterns.lines,
        path,
        is_dir,
    ) == Some(true)
}

/// Whether the patterns ignore what the first `n` components of a path lead to.
pub open spec fn ignores_at(
    patterns: Patterns,
    parts: Seq<Seq<char>>,
    is_dir: bool,
    n: int,
) -> bool {
    ignores_itself(patterns, joined(parts.take(n)), n < parts.len() || is_dir)
}

/// Whether the patterns ignore a path with these components: they do where they ignore it or a
/// directory on the way to it. A directory that they exempt decides nothing for what lies in it.
pub open spec fn ignores(patterns: Patterns, parts: Seq<Seq<char>>, is_dir: bool) -> bool {
    exists|n: int| 1 <= n <= parts.len() && #[trigger] ignores_at(patterns, parts, is_dir, n)
}

/// Whether a path with these components takes no part in the sync: it does not where any of the
/// ignore files ignores it, whatever the others say.
pub open spec fn ignored(rules: Seq<Patterns>, parts: Seq<Seq<char>>, is_dir: bool) -> bool {
    exists|i: int| 0 <= i < rules.len() && ignores(#[trigger] rules[i], parts, is_dir)
}

/// Whether the path `full_path` below `root` takes no part in the sync.
pub open spec fn filtered(
    rules: Seq<Patterns>,
    root: Seq<char>,
    full_path: Seq<char>,
    is_dir: bool,
) -> bool {
    ignored(rules, relative_components(root, full_path), is_dir)
}

/// The patterns that hold in every sync: the files that a sync itself makes, and the git files
/// that differ from one platform to another.
pub open spec fn builtin_patterns() -> Seq<Seq<char>> {
    seq![
        "*.beamup-tmp"@,
        "*.beamup-pull-tmp"@,
        "*.beamup-chunk-*"@,
        "*.beamup-lz4"@,
        "*.beamup-lz4-chunk-*"@,
        "*.beamup-chunk-tmp"@,
        ".git/index"@,
        ".git/index.lock"@,
        ".git/modules/**/index"@,
        ".git/modules/**/index.lock"@,
    ]
}

/// The mark of byte order that may stand at the beginning of a file.
pub const BYTE_ORDER_MARK: char = '\u{feff}';

/// The lines of an ignore file as they count: without marks of byte order at the beginning of the
/// first.
pub open spec fn effective_lines(lines: Seq<Seq<char>>) -> Seq<Seq<char>> {
    if lines.len() == 0 {
        lines
    } else {
        lines.update(0, strip_leading(lines[0], BYTE_ORDER_MARK))
    }
}

/// The patterns in `lines` for `root`, where they compile.
pub open spec fn compiled(root: Seq<char>, lines: Seq<Seq<char>>) -> Seq<Patterns> {
    if gitignore_compiles(lines, usize::BITS as nat) {
        seq![Patterns { root, lines }]
    } else {
        Seq::empty()
    }
}

/// The patterns of an ignore file of `root`, where there is one.
pub open spec fn of_file(root: Seq<char>, lines: Option<Seq<Seq<char>>>) -> Seq<Patterns> {
    match lines {
        Some(lines) => compiled(root, effective_lines(lines)),
        None => Seq::empty(),
    }
}

/// The rules of `root`: its `.gitignore`, its `.beamignore`, and the patterns that hold in every
/// sync.
pub open spec fn loaded(
    root: Seq<char>,
    gitignore: Option<Seq<Seq<char>>>,
    beamignore: Option<Seq<Seq<char>>>,
) -> Seq<Patterns> {
    of_file(root, gitignore) + of_file(root, beamignore) + compiled(root, builtin_patterns())
}

/// The patterns of a matcher, where there is one.
pub open spec fn of_matcher(matcher: Option<Gitignore>) -> Seq<Patterns> {
    match matcher {
        Some(m) => seq![patterns_of(m)],
        None => Seq::empty(),
    }
}

/// The lines of a file, where there is one.
pub open spec fn file_lines(lines: Option<Vec<String>>) -> Option<Seq<Seq<char>>> {
    match lines {
        Some(lines) => Some(views(lines@)),
        None => None,
    }
}

/// Whether a message speaks of something that the rules ignore.
pub open spec fn left_out(rules: Seq<Patterns>, msg: MessageView) -> bool {
    match msg {
        MessageView::FileChanged { path, hash, mtime, size } => ignored(
            rules,
            components(path),
            false,
        ),
        MessageView::FileContent { path, hash, data } => ignored(rules, components(path), false),
        MessageView::FileDeleted { path } => ignored(rules, components(path), false),
        MessageView::DirCreated { path } => ignored(rules, components(path), true),
        MessageView::DirDeleted { path } => ignored(rules, components(path), true),
        _ => false,
    }
}

/// The files that the rules do not ignore.
pub open spec fn admitted_files(rules: Seq<Patterns>, files: Seq<SyncView>) -> Seq<SyncView> {
    files.filter(|f: SyncView| !ignored(rules, components(f.path), false))
}

/// The ignore rules of a directory.
pub struct IgnoreRules {
    rules: Vec<Gitignore>,
}

impl View for IgnoreRules {
    type V = Seq<Patterns>;

    closed spec fn view(&self) -> Seq<Patterns> {
        self.rules@.map_values(|m: Gitignore| patterns_of(m))
    }
}

/// Builds the matcher of `lines` for `root`.
fn matcher_of(root: &str, lines: &Vec<String>) -> (matcher: Option<Gitignore>)
    ensures
        of_matcher(matcher) == compiled(root@, views(lines@)),
{
    let mut builder = new_builder(root);
    let ghost all = views(lines@);
    let mut i: usize = 0;
    while i < lines.len()
        invariant
            i <= lines@.len(),
            all == views(lines@),
            builder_root(builder) == root@,
            builder_lines(builder) == all.take(i as int),
        decreases lines@.len() - i,
    {
        assert(all.take(i + 1) =~= all.take(i as int).push(lines@[i as int]@));
        add_line(&mut builder, lines[i].as_str());
        i = i + 1;
    }
    assert(all.take(i as int) =~= all);
    match build_matcher(&builder) {
        Ok(matcher) => Some(matcher),
        Err(_) => None,
    }
}

/// Builds the matcher of an ignore file of `root`, where there is one.
fn matcher_of_file(root: &str, lines: &Option<Vec<String>>) -> (matcher: Option<Gitignore>)
    ensures
        of_matcher(matcher) == of_file(root@, file_lines(*lines)),
{
    match lines {
        Some(lines) => matcher_of(root, &lines_of_file(lines)),
        None => None,
    }
}

/// The lines of an ignore file without marks of byte order at the beginning.
fn lines_of_file(lines: &Vec<String>) -> (r: Vec<String>)
    ensures
        views(r@) == effective_lines(views(lines@)),
{
    let mut r: Vec<String> = Vec::new();
    let ghost all = effective_lines(views(lines@));
    let mut i: usize = 0;
    while i < lines.len()
        invariant
            i <= lines@.len(),
            all == effective_lines(views(lines@)),
            views(r@) == all.take(i as int),
        decreases lines@.len() - i,
    {
        let line = if i == 0 {
            strip_leading_char(lines[i].as_str(), BYTE_ORDER_MARK)
        } else {
            lines[i].clone()
        };
        proof {
            lemma_views_push(r@, line);
            assert(all.take(i + 1) =~= all.take(i as int).push(line@));
        }
        r.push(line);
        i = i + 1;
    }
    assert(all.take(i as int) =~= all);
    r
}

fn builtin_lines() -> (lines: Vec<String>)
    ensures
        views(lines@) == builtin_patterns(),
{
    let mut lines: Vec<String> = Vec::new();
    lines.push(String::from_str("*.beamup-tmp"));
    lines.push(String::from_str("*.beamup-pull-tmp"));
    lines.push(String::from_str("*.beamup-chunk-*"));
    lines.push(String::from_str("*.beamup-lz4"));
    lines.push(String::from_str("*.beamup-lz4-chunk-*"));
    lines.push(String::from_str("*.beamup-chunk-tmp"));
    lines.push(String::from_str(".git/index"));
    lines.push(String::from_str(".git/index.lock"));
    lines.push(String::from_str(".git/modules/**/index"));
    lines.push(String::from_str(".git/modules/**/index.lock"));
    assert(views(lines@) =~= builtin_patterns());
    lines
}

impl IgnoreRules {
    /// Adds the rules of a matcher, where there is one.
    fn add(&mut self, matcher: Option<Gitignore>)
        ensures
            final(self)@ == old(self)@ + of_matcher(matcher),
    {
        match matcher {
            Some(m) => {
                self.rules.push(m);
            },
            None => {},
        }
        assert(self@ =~= old(self)@ + of_matcher(matcher));
    }

    /// The rules made of the matchers that could be built: the project's `.gitignore`, its
    /// `.beamignore` and the patterns that hold in every sync, in this order.
    pub fn from_matchers(
        gitignore: Option<Gitignore>,
        beamignore: Option<Gitignore>,
        builtin: Option<Gitignore>,
    ) -> (rules: IgnoreRules)
        ensures
            rules@ == of_matcher(gitignore) + of_matcher(beamignore) + of_matcher(builtin),
    {
        let mut rules = IgnoreRules { rules: Vec::new() };
        assert(rules@ =~= Seq::<Patterns>::empty());
        rules.add(gitignore);
        rules.add(beamignore);
        rules.add(builtin);
        assert(rules@ =~= of_matcher(gitignore) + of_matcher(beamignore) + of_matcher(builtin));
        rules
    }

    /// The rules of the directory `root`, from the lines of its `.gitignore` and its
    /// `.beamignore`, where there are such files. A file whose patterns cannot be compiled counts
    /// for nothing.
    pub fn load(
        root: &str,
        gitignore: Option<Vec<String>>,
        beamignore: Option<Vec<String>>,
    ) -> (rules: IgnoreRules)
        ensures
            rules@ == loaded(root@, file_lines(gitignore), file_lines(beamignore)),
    {
        let g = matcher_of_file(root, &gitignore);
        let b = matcher_of_file(root, &beamignore);
        let p = matcher_of(root, &builtin_lines());
        IgnoreRules::from_matchers(g, b, p)
    }

    /// The rules of the directory `root` together with further patterns that the user named.
    pub fn load_excluding(
        root: &str,
        gitignore: Option<Vec<String>>,
        beamignore: Option<Vec<String>>,
        exclude: &Vec<String>,
    ) -> (rules: IgnoreRules)
        ensures
            rules@ == loaded(root@, file_lines(gitignore), file_lines(beamignore)) + compiled(
                root@,
                views(exclude@),
            ),
    {
        let mut rules = IgnoreRules::load(root, gitignore, beamignore);
        rules.add(matcher_of(root, exclude));
        rules
    }

    /// The patterns that the user named, alone.
    pub fn excluding(root: &str, exclude: &Vec<String>) -> (rules: IgnoreRules)
        ensures
            rules@ == compiled(root@, views(exclude@)),
    {
        let mut rules = IgnoreRules { rules: Vec::new() };
        assert(rules@ =~= Seq::<Patterns>::empty());
        rules.add(matcher_of(root, exclude));
        assert(rules@ =~= compiled(root@, views(exclude@)));
        rules
    }

    /// Whether the other side speaks of something that takes no part in the sync.
    pub fn leaves_out(&self, msg: &Message) -> (r: bool)
        ensures
            r == left_out(self@, msg@),
    {
        match msg {
            Message::FileChanged { path, hash, mtime, size } => self.is_ignored(
                path.as_str(),
                false,
            ),
            Message::FileContent { path, hash, data } => self.is_ignored(path.as_str(), false),
            Message::FileDeleted { path } => self.is_ignored(path.as_str(), false),
            Message::DirCreated { path } => self.is_ignored(path.as_str(), true),
            Message::DirDeleted { path } => self.is_ignored(path.as_str(), true),
            _ => false,
        }
    }

    /// The files that take part in the sync.
    pub fn admitted(&self, files: Vec<SyncEntry>) -> (kept: Vec<SyncEntry>)
        ensures
            views(kept@) == admitted_files(self@, views(files@)),
    {
        let ghost all = views(files@);
        let ghost rules = self@;
        let ghost keep = |f: SyncView| !ignored(rules, components(f.path), false);
        let mut kept: Vec<SyncEntry> = Vec::new();
        proof {
            reveal(Seq::filter);
            assert(views(kept@) =~= all.take(0).filter(keep));
        }
        for file in it: files
            invariant
                it.seq() == files@,
                all == views(files@),
                rules == self@,
                keep == (|f: SyncView| !ignored(rules, components(f.path), false)),
                views(kept@) == all.take(it.index() as int).filter(keep),
        {
            proof {
                let n = it.index() as int;
                assert(all.take(n + 1) =~= all.take(n).push(file@));
                all.take(n).lemma_filter_push(file@, keep);
            }
            if !self.is_ignored(file.path.as_str(), false) {
                proof {
                    lemma_views_push(kept@, file);
                }
                kept.push(file);
            }
        }
        assert(all.take(files@.len() as int) =~= all);
        kept
    }

    /// Whether one of the rules ignores the path itself.
    fn some_ignores_itself(&self, path: &str, is_dir: bool) -> (r: bool)
        ensures
            r <==> exists|i: int|
                0 <= i < self@.len() && ignores_itself(#[trigger] self@[i], path@, is_dir),
    {
        let mut i: usize = 0;
        while i < self.rules.len()
            invariant
                i <= self.rules@.len(),
                forall|k: int| 0 <= k < i ==> !ignores_itself(#[trigger] self@[k], path@, is_dir),
            decreases self.rules@.len() - i,
        {
            assert(self@[i as int] == patterns_of(self.rules@[i as int]));
            match matched(&self.rules[i], path, is_dir) {
                Some(true) => {
                    assert(ignores_itself(self@[i as int], path@, is_dir));
                    return true;
                },
                _ => {},
            }
            i = i + 1;
        }
        false
    }

    /// Whether a path with these components takes no part in the sync.
    fn are_ignored(&self, parts: &Vec<String>, is_dir: bool) -> (r: bool)
        ensures
            r == ignored(self@, views(parts@), is_dir),
    {
        let ghost all = views(parts@);
        let mut current = String::new();
        let mut i: usize = 0;
        while i < parts.len()
            invariant
                i <= parts@.len(),
                all == views(parts@),
                current@ == joined(all.take(i as int)),
                forall|k: int, n: int|
                    0 <= k < self@.len() && 1 <= n <= i ==> !#[trigger] ignores_at(
                        self@[k],
                        all,
                        is_dir,
                        n,
                    ),
            decreases parts@.len() - i,
        {
            proof {
                assert(all.take(i + 1).drop_last() =~= all.take(i as int));
                assert(all.take(i + 1).last() == parts@[i as int]@);
            }
            current = join_path(current.as_str(), parts[i].as_str());
            let check_is_dir = if i + 1 == parts.len() {
                is_dir
            } else {
                true
            };
            if self.some_ignores_itself(current.as_str(), check_is_dir) {
                proof {
                    let k = choose|k: int|
                        0 <= k < self@.len() && ignores_itself(
                            #[trigger] self@[k],
                            current@,
                            check_is_dir,
                        );
                    assert(ignores_at(self@[k], all, is_dir, i + 1));
                    assert(ignores(self@[k], all, is_dir));
                }
                return true;
            }
            i = i + 1;
        }
        false
    }

    /// Whether `path`, relative to the directory of the rules, takes no part in the sync.
    pub fn is_ignored(&self, path: &str, is_dir: bool) -> (r: bool)
        ensures
            r == ignored(self@, components(path@), is_dir),
    {
        let parts = path_components(path);
        self.are_ignored(&parts, is_dir)
    }

    /// Whether `full_path` below `root` takes no part in the sync.
    pub fn filter_path(&self, root: &str, full_path: &str, is_dir: bool) -> (r: bool)
        ensures
            r == filtered(self@, root@, full_path@, is_dir),
    {
        let parts = components_below(root, full_path);
        self.are_ignored(&parts, is_dir)
    }
}

/// Whatever lies in an ignored directory is ignored too.
pub proof fn lemma_inside_directory(
    rules: Seq<Patterns>,
    dir: Seq<Seq<char>>,
    inside: Seq<Seq<char>>,
    is_dir: bool,
)
    requires
        ignored(rules, dir, true),
        inside.len() > 0,
    ensures
        ignored(rules, dir + inside, is_dir),
{
    let i = choose|i: int| 0 <= i < rules.len() && ignores(#[trigger] rules[i], dir, true);
    let n = choose|n: int| 1 <= n <= dir.len() && #[trigger] ignores_at(rules[i], dir, true, n);
    assert((dir + inside).take(n) =~= dir.take(n));
    assert(ignores_at(rules[i], dir + inside, is_dir, n));
    assert(ignores(rules[i], dir + inside, is_dir));
}

/// Ignore files add up: what two lists of them ignore together is what the one or the other
/// ignores. No file can exempt what another ignores.
pub proof fn lemma_rules_add_up(
    a: Seq<Patterns>,
    b: Seq<Patterns>,
    parts: Seq<Seq<char>>,
    is_dir: bool,
)
    ensures
        ignored(a + b, parts, is_dir) <==> ignored(a, parts, is_dir) || ignored(b, parts, is_dir),
{
    if ignored(a, parts, is_dir) {
        let i = choose|i: int| 0 <= i < a.len() && ignores(#[trigger] a[i], parts, is_dir);
        assert((a + b)[i] == a[i]);
    }
    if ignored(b, parts, is_dir) {
        let i = choose|i: int| 0 <= i < b.len() && ignores(#[trigger] b[i], parts, is_dir);
        assert((a + b)[a.len() + i] == b[i]);
    }
    if ignored(a + b, parts, is_dir) {
        let i = choose|i: int|
            0 <= i < (a + b).len() && ignores(#[trigger] (a + b)[i], parts, is_dir);
        if i < a.len() {
            assert(a[i] == (a + b)[i]);
        } else {
            assert(b[i - a.len()] == (a + b)[i]);
        }
    }
}

/// A path takes no part in a sync if and only if the `.gitignore`, the `.beamignore` or the
/// patterns that hold in every sync ignore it: neither file can exempt what the other ignores, nor
/// what is always excluded.
pub proof fn lemma_any_file_ignores(
    root: Seq<char>,
    gitignore: Option<Seq<Seq<char>>>,
    beamignore: Option<Seq<Seq<char>>>,
    parts: Seq<Seq<char>>,
    is_dir: bool,
)
    ensures
        ignored(loaded(root, gitignore, beamignore), parts, is_dir) <==> {
            ||| ignored(of_file(root, gitignore), parts, is_dir)
            ||| ignored(of_file(root, beamignore), parts, is_dir)
            ||| ignored(compiled(root, builtin_patterns()), parts, is_dir)
        },
{
    let g = of_file(root, gitignore);
    let b = of_file(root, beamignore);
    lemma_rules_add_up(g + b, compiled(root, builtin_patterns()), parts, is_dir);
    lemma_rules_add_up(g, b, parts, is_dir);
}

/// The lines of a file, none where there is no file.
pub open spec fn lines_or_none(lines: Option<Seq<Seq<char>>>) -> Seq<Seq<char>> {
    match lines {
        Some(lines) => lines,
        None => Seq::empty(),
    }
}

/// The rules depend on the ignore files and on nothing else: where two directories have the same
/// ones, a missing file counting as empty, the same relative paths are ignored in both.
pub proof fn lemma_equal_files_equal_rules(
    first: Seq<char>,
    first_gitignore: Option<Seq<Seq<char>>>,
    first_beamignore: Option<Seq<Seq<char>>>,
    second: Seq<char>,
    second_gitignore: Option<Seq<Seq<char>>>,
    second_beamignore: Option<Seq<Seq<char>>>,
    path: Seq<char>,
    is_dir: bool,
)
    requires
        absolute(first),
        absolute(second),
        !absolute(path),
        lines_or_none(first_gitignore) == lines_or_none(second_gitignore),
        lines_or_none(first_beamignore) == lines_or_none(second_beamignore),
    ensures
        ignored(loaded(first, first_gitignore, first_beamignore), components(path), is_dir)
            == ignored(loaded(second, second_gitignore, second_beamignore), components(path), is_dir),
{
    let parts = components(path);
    lemma_any_file_ignores(first, first_gitignore, first_beamignore, parts, is_dir);
    lemma_any_file_ignores(second, second_gitignore, second_beamignore, parts, is_dir);
    lemma_file_counts_by_lines(first, first_gitignore, parts, is_dir);
    lemma_file_counts_by_lines(first, first_beamignore, parts, is_dir);
    lemma_file_counts_by_lines(second, second_gitignore, parts, is_dir);
    lemma_file_counts_by_lines(second, second_beamignore, parts, is_dir);
    lemma_root_does_not_matter(
        first,
        second,
        effective_lines(lines_or_none(first_gitignore)),
        path,
        is_dir,
    );
    lemma_root_does_not_matter(
        first,
        second,
        effective_lines(lines_or_none(first_beamignore)),
        path,
        is_dir,
    );
    lemma_root_does_not_matter(first, second, builtin_patterns(), path, is_dir);
}

/// A file that is missing ignores what an empty one does.
proof fn lemma_file_counts_by_lines(
    root: Seq<char>,
    lines: Option<Seq<Seq<char>>>,
    parts: Seq<Seq<char>>,
    is_dir: bool,
)
    ensures
        ignored(of_file(root, lines), parts, is_dir) == ignored(
            compiled(root, effective_lines(lines_or_none(lines))),
            parts,
            is_dir,
        ),
{
    if lines is None {
        let empty = compiled(root, Seq::empty());
        assert(!ignored(of_file(root, lines), parts, is_dir));
        if ignored(empty, parts, is_dir) {
            let i = choose|i: int|
                0 <= i < empty.len() && ignores(#[trigger] empty[i], parts, is_dir);
            let n = choose|n: int|
                1 <= n <= parts.len() && #[trigger] ignores_at(empty[i], parts, is_dir, n);
            assert(empty[i].lines.len() == 0);
        }
    }
}

proof fn lemma_root_does_not_matter(
    first: Seq<char>,
    second: Seq<char>,
    lines: Seq<Seq<char>>,
    path: Seq<char>,
    is_dir: bool,
)
    requires
        absolute(first),
        absolute(second),
        !absolute(path),
    ensures
        ignored(compiled(first, lines), components(path), is_dir) == ignored(
            compiled(second, lines),
            components(path),
            is_dir,
        ),
{
    if ignored(compiled(first, lines), components(path), is_dir) {
        lemma_root_hands_on(first, second, lines, path, is_dir);
    }
    if ignored(compiled(second, lines), components(path), is_dir) {
        lemma_root_hands_on(second, first, lines, path, is_dir);
    }
}

proof fn lemma_root_hands_on(
    first: Seq<char>,
    second: Seq<char>,
    lines: Seq<Seq<char>>,
    path: Seq<char>,
    is_dir: bool,
)
    requires
        absolute(first),
        absolute(second),
        !absolute(path),
        ignored(compiled(first, lines), components(path), is_dir),
    ensures
        ignored(compiled(second, lines), components(path), is_dir),
{
    let a = compiled(first, lines);
    let b = compiled(second, lines);
    let parts = components(path);
    let i = choose|i: int| 0 <= i < a.len() && ignores(#[trigger] a[i], parts, is_dir);
    let n = choose|n: int| 1 <= n <= parts.len() && #[trigger] ignores_at(a[i], parts, is_dir, n);
    lemma_joined_is_relative(path, n);
    assert(ignores_at(b[0], parts, is_dir, n));
    assert(ignores(b[0], parts, is_dir));
}

/// What the first components of a relative path lead to is a relative path.
proof fn lemma_joined_is_relative(path: Seq<char>, n: int)
    requires
        !absolute(path),
        1 <= n <= components(path).len(),
    ensures
        plainly_relative(joined(components(path).take(n))),
{
    let parts = components(path).take(n);
    assert forall|i: int| 0 <= i < parts.len() implies (#[trigger] parts[i]).len() > 0
        && !parts[i].contains('/') by {
        lemma_component_is_a_name(path, i);
    }
    lemma_joined_is_tidy(parts);
}

/// What the rule number `i` says of what the first `n` components of a path lead to.
pub open spec fn verdict_at(
    rules: Seq<Patterns>,
    parts: Seq<Seq<char>>,
    is_dir: bool,
    i: int,
    n: int,
) -> Option<bool> {
    let path = joined(parts.take(n));
    gitignore_verdict(
        verdict_root(rules[i].root, path),
        rules[i].lines,
        path,
        n < parts.len() || is_dir,
    )
}

/// A path is ignored only for a reason: some rule, by one of its lines, ignores the path or a
/// directory on the way to it.
pub proof fn lemma_ignored_for_a_reason(
    rules: Seq<Patterns>,
    parts: Seq<Seq<char>>,
    is_dir: bool,
) -> (reason: (int, int))
    requires
        ignored(rules, parts, is_dir),
    ensures
        0 <= reason.0 < rules.len(),
        1 <= reason.1 <= parts.len(),
        rules[reason.0].lines.len() > 0,
        verdict_at(rules, parts, is_dir, reason.0, reason.1) == Some(true),
{
    let i = choose|i: int| 0 <= i < rules.len() && ignores(#[trigger] rules[i], parts, is_dir);
    let n = choose|n: int|
        1 <= n <= parts.len() && #[trigger] ignores_at(rules[i], parts, is_dir, n);
    (i, n)
}

/// One reason is enough: where a rule with a line ignores a path, or a directory on the way to it,
/// the path is ignored, whatever the other rules say.
pub proof fn lemma_one_reason_is_enough(
    rules: Seq<Patterns>,
    parts: Seq<Seq<char>>,
    is_dir: bool,
    i: int,
    n: int,
)
    requires
        0 <= i < rules.len(),
        1 <= n <= parts.len(),
        rules[i].lines.len() > 0,
        verdict_at(rules, parts, is_dir, i, n) == Some(true),
    ensures
        ignored(rules, parts, is_dir),
{
    assert(ignores_at(rules[i], parts, is_dir, n));
    assert(ignores(rules[i], parts, is_dir));
}

/// Where no rule ignores a path or a directory on the way to it, the path takes part in the sync; so
/// does every path where there are no rules, or none with a line, and the root always does.
pub proof fn lemma_not_ignored_without_a_reason(
    rules: Seq<Patterns>,
    parts: Seq<Seq<char>>,
    is_dir: bool,
)
    requires
        forall|i: int, n: int|
            0 <= i < rules.len() && 1 <= n <= parts.len() && (#[trigger] rules[i]).lines.len() > 0
                ==> #[trigger] verdict_at(rules, parts, is_dir, i, n) != Some(true),
    ensures
        !ignored(rules, parts, is_dir),
        !ignored(Seq::empty(), parts, is_dir),
        !ignored(rules, Seq::empty(), is_dir),
{
    if ignored(rules, parts, is_dir) {
        let reason = lemma_ignored_for_a_reason(rules, parts, is_dir);
        assert(rules[reason.0].lines.len() > 0);
        assert(verdict_at(rules, parts, is_dir, reason.0, reason.1) == Some(true));
    }
    if ignored(rules, Seq::empty(), is_dir) {
        let reason = lemma_ignored_for_a_reason(rules, Seq::empty(), is_dir);
    }
}

/// Below the root, a path is ignored by its names: it does not matter where the root lies.
pub proof fn lemma_filtered_by_names(
    rules: Seq<Patterns>,
    root: Seq<char>,
    path: Seq<char>,
    names: Seq<Seq<char>>,
    is_dir: bool,
)
    requires
        components(path) == components(root) + names,
    ensures
        filtered(rules, root, path, is_dir) == ignored(rules, names, is_dir),
{
    let k = components(root).len() as int;
    assert((components(root) + names).take(k) =~= components(root));
    assert((components(root) + names).skip(k) =~= names);
}

/// The rules of a directory are those of its `.gitignore`, of its `.beamignore` and those that always
/// hold, each where it compiles, and no others.
pub proof fn lemma_loaded_rules(
    root: Seq<char>,
    gitignore: Option<Seq<Seq<char>>>,
    beamignore: Option<Seq<Seq<char>>>,
    patterns: Patterns,
)
    ensures
        loaded(root, gitignore, beamignore).contains(patterns) <==> {
            &&& patterns.root == root
            &&& gitignore_compiles(patterns.lines, usize::BITS as nat)
            &&& {
                ||| gitignore is Some && patterns.lines == effective_lines(gitignore->0)
                ||| beamignore is Some && patterns.lines == effective_lines(beamignore->0)
                ||| patterns.lines == builtin_patterns()
            }
        },
{
    let g = of_file(root, gitignore);
    let b = of_file(root, beamignore);
    let c = compiled(root, builtin_patterns());
    let all = loaded(root, gitignore, beamignore);
    if all.contains(patterns) {
        let i = all.index_of(patterns);
        assert(all[i] == patterns);
        if i < g.len() {
            assert(g[i] == patterns);
        } else if i < g.len() + b.len() {
            assert(b[i - g.len()] == patterns);
        } else {
            assert(c[i - g.len() - b.len()] == patterns);
        }
    }
    if patterns.root == root && gitignore_compiles(patterns.lines, usize::BITS as nat) {
        if gitignore is Some && patterns.lines == effective_lines(gitignore->0) {
            assert(all[0] == patterns);
        } else if beamignore is Some && patterns.lines == effective_lines(beamignore->0) {
            assert(all[g.len() as int] == patterns);
        } else if patterns.lines == builtin_patterns() {
            assert(all[(g.len() + b.len()) as int] == patterns);
        }
    }
}

/// Every line of an ignore file counts as it stands, but for marks of byte order at the very
/// beginning.
pub proof fn lemma_lines_count(lines: Seq<Seq<char>>, i: int)
    requires
        0 <= i < lines.len(),
    ensures
        effective_lines(lines).len() == lines.len(),
        i > 0 || lines[i].len() == 0 || lines[i][0] != '\u{feff}' ==> effective_lines(lines)[i]
            == lines[i],
        effective_lines(lines)[i].len() <= lines[i].len(),
        effective_lines(lines)[i] == lines[i].skip(
            lines[i].len() - effective_lines(lines)[i].len(),
        ),
        forall|k: int|
            0 <= k < lines[i].len() - effective_lines(lines)[i].len() ==> #[trigger] lines[i][k]
                == '\u{feff}',
        i == 0 && effective_lines(lines)[0].len() > 0 ==> effective_lines(lines)[0][0]
            != '\u{feff}',
{
    lemma_stripped_leading(lines[0], BYTE_ORDER_MARK);
    assert(lines[i].skip(0) =~= lines[i]);
}

/// Whether `s` ends with `tail`.
pub open spec fn ends_with(s: Seq<char>, tail: Seq<char>) -> bool {
    tail.len() <= s.len() && s.skip(s.len() - tail.len()) == tail
}

/// The patterns that always hold are about the files that a sync itself makes, and about the index
/// of git, and about nothing else.
pub proof fn lemma_always_excluded(i: int)
    requires
        0 <= i < builtin_patterns().len(),
    ensures
        begins_with(builtin_patterns()[i], "*.beamup-"@) || (begins_with(
            builtin_patterns()[i],
            ".git/"@,
        ) && (ends_with(builtin_patterns()[i], "/index"@) || ends_with(
            builtin_patterns()[i],
            "/index.lock"@,
        ))),
{
    reveal_strlit("*.beamup-");
    reveal_strlit(".git/");
    reveal_strlit("/index");
    reveal_strlit("/index.lock");
    reveal_strlit("*.beamup-tmp");
    reveal_strlit("*.beamup-pull-tmp");
    reveal_strlit("*.beamup-chunk-*");
    reveal_strlit("*.beamup-lz4");
    reveal_strlit("*.beamup-lz4-chunk-*");
    reveal_strlit("*.beamup-chunk-tmp");
    reveal_strlit(".git/index");
    reveal_strlit(".git/index.lock");
    reveal_strlit(".git/modules/**/index");
    reveal_strlit(".git/modules/**/index.lock");
    let p = builtin_patterns()[i];
    if i < 6 {
        assert(p.take(9) =~= "*.beamup-"@);
    } else {
        assert(p.take(5) =~= ".git/"@);
        if i == 6 || i == 8 {
            assert(p.skip(p.len() - 6) =~= "/index"@);
        } else {
            assert(p.skip(p.len() - 11) =~= "/index.lock"@);
        }
    }
}

/// What the other side says of a path is left out exactly where the path is ignored: as that of a
/// file where it is about a file, as that of a directory where it is about one.
pub proof fn lemma_left_out_by_path(
    rules: Seq<Patterns>,
    path: Seq<char>,
    hash: u64,
    mtime: u64,
    size: u64,
    data: Seq<u8>,
)
    ensures
        left_out(rules, MessageView::FileChanged { path, hash, mtime, size }) == ignored(
            rules,
            components(path),
            false,
        ),
        left_out(rules, MessageView::FileContent { path, hash, data }) == ignored(
            rules,
            components(path),
            false,
        ),
        left_out(rules, MessageView::FileDeleted { path }) == ignored(
            rules,
            components(path),
            false,
        ),
        left_out(rules, MessageView::DirCreated { path }) == ignored(rules, components(path), true),
        left_out(rules, MessageView::DirDeleted { path }) == ignored(rules, components(path), true),
{
}

/// No message is left out but those that tell of a change of a file or a directory.
pub proof fn lemma_others_are_not_left_out(rules: Seq<Patterns>, msg: MessageView)
    requires
        !(msg is FileChanged),
        !(msg is FileContent),
        !(msg is FileDeleted),
        !(msg is DirCreated),
        !(msg is DirDeleted),
    ensures
        !left_out(rules, msg),
{
}

/// Of a list of files exactly those are admitted that are not ignored, as they are and in their
/// order.
pub proof fn lemma_admitted_files(rules: Seq<Patterns>, files: Seq<SyncView>, file: SyncView)
    ensures
        admitted_files(rules, Seq::empty()) == Seq::<SyncView>::empty(),
        admitted_files(rules, files.push(file)) == if ignored(rules, components(file.path), false) {
            admitted_files(rules, files)
        } else {
            admitted_files(rules, files).push(file)
        },
{
    files.lemma_filter_push(file, |f: SyncView| !ignored(rules, components(f.path), false));
    reveal(Seq::filter);
}

/// A path that does not lie below the root is ignored by all its components.
pub proof fn lemma_filtered_outside(
    rules: Seq<Patterns>,
    root: Seq<char>,
    path: Seq<char>,
    is_dir: bool,
)
    requires
        !components(root).is_prefix_of(components(path)),
    ensures
        filtered(rules, root, path, is_dir) == ignored(rules, components(path), is_dir),
{
}

/// All lines of an ignore file are taken, and a missing file has none; a matcher stands for the lines
/// and the directory that it was built from.
pub proof fn lemma_lines_are_taken(lines: Vec<String>, matcher: Gitignore)
    ensures
        file_lines(Some(lines)) == Some(lines@.map_values(|line: String| line@)),
        file_lines(None) is None,
        of_matcher(Some(matcher)) == seq![
            Patterns { root: matcher_root(matcher), lines: matcher_lines(matcher) },
        ],
        of_matcher(None).len() == 0,
{
}

} // verus!
