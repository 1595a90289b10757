//! Which changes on disk are followed.
use ignore::gitignore::{Gitignore, GitignoreBuilder};
use vstd::prelude::*;
use crate::config::{ignored_extension, IgnoreRules, IgnoreRulesView};
use crate::text::{
    begins_with, has_text, line_views, lines, lines_of, same, split, split_of, starts_with,
    to_chars, views,
};

verus! {

// ---------------------------------------------------------------------------
// Kinds of events
// ---------------------------------------------------------------------------

/// How a file was opened.
#[derive(Debug, Clone, Copy, PartialEq, Eq, Structural)]
pub enum AccessMode {
    Any,
    Execute,
    Read,
    Write,
    Other,
}

/// How a file was accessed.
#[derive(Debug, Clone, Copy, PartialEq, Eq, Structural)]
pub enum AccessKind {
    Any,
    Read,
    Open(AccessMode),
    Close(AccessMode),
    Other,
}

/// What of the data of a file changed.
#[derive(Debug, Clone, Copy, PartialEq, Eq, Structural)]
pub enum DataChange {
    Any,
    Size,
    Content,
    Other,
}

/// What of the metadata of a file changed.
#[derive(Debug, Clone, Copy, PartialEq, Eq, Structural)]
pub enum MetadataKind {
    Any,
    AccessTime,
    WriteTime,
    Permissions,
    Ownership,
    Extended,
    Other,
}

/// What of a file changed.
#[derive(Debug, Clone, Copy, PartialEq, Eq, Structural)]
pub enum ModifyKind {
    Any,
    Data(DataChange),
    Metadata(MetadataKind),
    Name,
    Other,
}

/// What happened to a file.
#[derive(Debug, Clone, Copy, PartialEq, Eq, Structural)]
pub enum EventKind {
    Any,
    Access(AccessKind),
    Create,
    Modify(ModifyKind),
    Remove,
    Other,
}

/// An event may have changed a file: it is not a mere access, other than the
/// closing of a file that was written, nor the change of an access time.
pub open spec fn may_change_file(kind: EventKind) -> bool {
    match kind {
        EventKind::Access(a) => a == AccessKind::Close(AccessMode::Write),
        EventKind::Modify(m) => m != ModifyKind::Metadata(MetadataKind::AccessTime),
        EventKind::Create | EventKind::Remove | EventKind::Any => true,
        EventKind::Other => false,
    }
}

/// Whether an event may have changed a file.
pub fn should_process_event_kind(kind: &EventKind) -> (r: bool)
    ensures
        r == may_change_file(*kind),
{
    match kind {
        EventKind::Access(AccessKind::Close(AccessMode::Write)) => true,
        EventKind::Access(_) => false,
        EventKind::Modify(ModifyKind::Metadata(MetadataKind::AccessTime)) => false,
        EventKind::Create | EventKind::Modify(_) | EventKind::Remove | EventKind::Any => true,
        EventKind::Other => false,
    }
}

// ---------------------------------------------------------------------------
// Patterns of ignored files
// ---------------------------------------------------------------------------

#[verifier::external_type_specification]
#[verifier::external_body]
pub struct ExGitignore(ignore::gitignore::Gitignore);

/// The matcher that the lines of a gitignore file make, for a directory; nothing
/// where they cannot be put together. Lines that are no patterns are passed over.
pub uninterp spec fn gitignore_of(root: Seq<char>, lines: Seq<Seq<char>>) -> Option<Gitignore>;

/// From the front of a path that is asked about, a matcher takes nothing off but this
/// directory.
pub uninterp spec fn is_rooted(matcher: Gitignore, root: Seq<char>) -> bool;

/// A path, or a directory above it, is ignored by a matcher.
pub uninterp spec fn gitignore_ignores(matcher: Gitignore, path: Seq<char>, is_dir: bool) -> bool;

/// Calls `GitignoreBuilder::new`, `GitignoreBuilder::add_line` on each line, and
/// `GitignoreBuilder::build`.
#[verifier::external_body]
fn build_gitignore(root: &str, lines: &Vec<String>) -> (r: Option<Gitignore>)
    ensures
        r == gitignore_of(root@, views(lines@)),
        r matches Some(m) ==> is_rooted(m, root@),
{
    let mut builder = GitignoreBuilder::new(root);
    for line in lines {
        let _ = builder.add_line(None, line);
    }
    builder.build().ok()
}

/// Calls `GitignoreBuilder::new` and `GitignoreBuilder::build`: without patterns
/// there is a matcher, and it ignores nothing.
#[verifier::external_body]
fn empty_gitignore(root: &str) -> (r: Gitignore)
    ensures
        is_rooted(r, root@),
        forall|path: Seq<char>, is_dir: bool| !gitignore_ignores(r, path, is_dir),
{
    GitignoreBuilder::new(root).build().expect("a matcher without patterns")
}

/// Calls `Gitignore::matched_path_or_any_parents`, and tells whether the match is to
/// ignore. The path has to be relative: the call panics where a slash is in front
/// of it once the directory of the matcher, and a slash behind that, are taken off.
#[verifier::external_body]
fn is_gitignored(matcher: &Gitignore, path: &str, is_dir: bool) -> (r: bool)
    requires
        !begins_with(path@, "/"@),
        !begins_with(path@, "./"@),
        exists|root: Seq<char>| #[trigger]
            is_rooted(*matcher, root) && (begins_with(root, "/"@) || !has_text(path@, "//"@)),
    ensures
        r == gitignore_ignores(*matcher, path@, is_dir),
{
    matcher.matched_path_or_any_parents(path, is_dir).is_ignore()
}

/// The mark with which a text file may begin.
pub const BYTE_ORDER_MARK: char = '\u{feff}';

/// A text without the marks in front.
pub open spec fn without_marks(s: Seq<char>) -> Seq<char>
    decreases s.len(),
{
    if s.len() > 0 && s[0] == BYTE_ORDER_MARK {
        without_marks(s.drop_first())
    } else {
        s
    }
}

/// The lines of a gitignore file.
pub open spec fn pattern_lines(text: Seq<char>) -> Seq<Seq<char>> {
    let rows = lines_of(text);
    Seq::new(
        rows.len(),
        |i: int|
            if i == 0 {
                without_marks(rows[i].text)
            } else {
                rows[i].text
            },
    )
}

/// A text without the marks in front.
fn strip_marks(s: &str) -> (r: String)
    ensures
        r@ == without_marks(s@),
{
    let chars = to_chars(s);
    let mut i: usize = 0;
    assert(s@.skip(0) =~= s@);
    while i < chars.len() && chars[i] == BYTE_ORDER_MARK
        invariant
            chars@ == s@,
            i <= chars@.len(),
            without_marks(s@) == without_marks(s@.skip(i as int)),
        decreases chars@.len() - i,
    {
        assert(s@.skip(i as int).drop_first() =~= s@.skip(i + 1));
        i = i + 1;
    }
    let r = crate::text::from_chars(&chars, i, chars.len());
    assert(r@ =~= s@.skip(i as int));
    r
}

/// The lines of a gitignore file.
pub fn read_patterns(text: &str) -> (r: Vec<String>)
    ensures
        views(r@) == pattern_lines(text@),
{
    let rows = lines(text);
    let ghost all = line_views(rows@);
    let mut out: Vec<String> = Vec::new();
    let mut i: usize = 0;
    while i < rows.len()
        invariant
            i <= rows@.len(),
            all == line_views(rows@),
            all == lines_of(text@),
            out@.len() == i,
            forall|k: int| 0 <= k < i ==> (#[trigger] out@[k])@ == pattern_lines(text@)[k],
        decreases rows@.len() - i,
    {
        assert(all[i as int].text == rows@[i as int].text@);
        if i == 0 {
            out.push(strip_marks(rows[i].text.as_str()));
        } else {
            out.push(rows[i].text.clone());
        }
        i = i + 1;
    }
    assert(views(out@) =~= pattern_lines(text@));
    out
}

// ---------------------------------------------------------------------------
// Paths
// ---------------------------------------------------------------------------

/// A directory on the way to a path, or the path itself, has an ignored name.
pub open spec fn skips(rules: IgnoreRulesView, rel_path: Seq<char>) -> bool {
    exists|i: int|
        0 <= i < split_of(rel_path, '/').len() && rules.dirs.contains(
            #[trigger] split_of(rel_path, '/')[i],
        )
}

/// A component of a path is hidden: its name starts with a dot. A single dot counts
/// only in front of the path; behind that it stands for nothing.
pub open spec fn is_hidden_component(parts: Seq<Seq<char>>, i: int) -> bool {
    begins_with(parts[i], "."@) && (i == 0 || parts[i] != "."@)
}

/// A component of a path is hidden.
pub open spec fn is_hidden(rel_path: Seq<char>) -> bool {
    exists|i: int|
        0 <= i < split_of(rel_path, '/').len() && #[trigger] is_hidden_component(
            split_of(rel_path, '/'),
            i,
        )
}

/// Whether a directory on the way to a path, or the path itself, has an ignored
/// name.
pub fn should_skip(rules: &IgnoreRules, rel_path: &str) -> (r: bool)
    ensures
        r == skips(rules@, rel_path@),
{
    let parts = split(rel_path, '/');
    let ghost all = split_of(rel_path@, '/');
    let mut i: usize = 0;
    while i < parts.len()
        invariant
            i <= parts@.len(),
            views(parts@) == all,
            all == split_of(rel_path@, '/'),
            forall|k: int| 0 <= k < i ==> !rules@.dirs.contains(#[trigger] all[k]),
        decreases parts@.len() - i,
    {
        assert(all[i as int] == parts@[i as int]@);
        if rules.should_ignore_dir(parts[i].as_str()) {
            return true;
        }
        i = i + 1;
    }
    false
}

/// Whether a component of a path is hidden.
pub fn has_hidden_component(rel_path: &str) -> (r: bool)
    ensures
        r == is_hidden(rel_path@),
{
    let parts = split(rel_path, '/');
    let ghost all = split_of(rel_path@, '/');
    let mut i: usize = 0;
    while i < parts.len()
        invariant
            i <= parts@.len(),
            views(parts@) == all,
            all == split_of(rel_path@, '/'),
            forall|k: int| 0 <= k < i ==> !#[trigger] is_hidden_component(all, k),
        decreases parts@.len() - i,
    {
        assert(all[i as int] == parts@[i as int]@);
        if starts_with(parts[i].as_str(), ".") && (i == 0 || !same(parts[i].as_str(), ".")) {
            assert(is_hidden_component(all, i as int));
            return true;
        }
        assert(!is_hidden_component(all, i as int));
        i = i + 1;
    }
    false
}

/// A directory is watched. `rel_path` is its path below the project, empty for the
/// project itself and nothing for what is outside of it.
pub open spec fn watches(rules: IgnoreRulesView, rel_path: Option<Seq<char>>) -> bool {
    match rel_path {
        Some(p) => p.len() == 0 || !skips(rules, p),
        None => false,
    }
}

/// Whether a directory is watched.
pub fn should_watch_entry(rules: &IgnoreRules, rel_path: Option<&str>) -> (r: bool)
    ensures
        r == watches(
            rules@,
            match rel_path {
                Some(p) => Some(p@),
                None => None,
            },
        ),
{
    match rel_path {
        Some(p) => p.is_empty() || !should_skip(rules, p),
        None => false,
    }
}

// ---------------------------------------------------------------------------
// The filter
// ---------------------------------------------------------------------------

/// Decides which paths of a project are followed.
pub struct WatchPathFilter {
    root: String,
    rules: IgnoreRules,
    gitignore: Gitignore,
}

/// Decides which paths of a project are followed.
pub struct FilterView {
    pub root: Seq<char>,
    pub rules: IgnoreRulesView,
    pub gitignore: Gitignore,
}

impl View for WatchPathFilter {
    type V = FilterView;

    closed spec fn view(&self) -> FilterView {
        FilterView { root: self.root@, rules: self.rules@, gitignore: self.gitignore }
    }
}

/// A path is followed: it lies below the project, is no directory, is neither
/// skipped nor hidden, has no ignored extension, and is not ignored by the patterns
/// of the project.
pub open spec fn follows(filter: FilterView, rel_path: Option<Seq<char>>, is_dir: bool) -> bool {
    match rel_path {
        None => false,
        Some(p) => p.len() > 0 && !is_dir && !skips(filter.rules, p) && !is_hidden(p)
            && !ignored_extension(filter.rules, p) && !gitignore_ignores(
            filter.gitignore,
            p,
            false,
        ),
    }
}

/// A path can be asked about: it is relative, and where the project's own path is
/// relative too, it has no empty component.
pub open spec fn is_askable(root: Seq<char>, rel_path: Option<Seq<char>>) -> bool {
    rel_path matches Some(p) ==> !begins_with(p, "/"@) && (begins_with(root, "/"@) || !has_text(
        p,
        "//"@,
    ))
}

/// An optional string.
pub open spec fn path_view(p: Option<String>) -> Option<Seq<char>> {
    match p {
        Some(s) => Some(s@),
        None => None,
    }
}

impl WatchPathFilter {
    #[verifier::type_invariant]
    spec fn root_belongs(self) -> bool {
        is_rooted(self.gitignore, self.root@)
    }

    /// The filter for a project, with the patterns of its gitignore files. Patterns
    /// that cannot be put together are left out.
    pub fn new(root: &str, rules: IgnoreRules, patterns: &Vec<String>) -> (r: Self)
        ensures
            r@.root == root@,
            r@.rules == rules@,
            match gitignore_of(root@, views(patterns@)) {
                Some(m) => r@.gitignore == m,
                None => forall|path: Seq<char>, is_dir: bool|
                    !gitignore_ignores(r@.gitignore, path, is_dir),
            },
    {
        let gitignore = match build_gitignore(root, patterns) {
            Some(m) => m,
            None => empty_gitignore(root),
        };
        WatchPathFilter { root: root.to_owned(), rules, gitignore }
    }

    /// The rules of the filter.
    pub fn rules(&self) -> (r: &IgnoreRules)
        ensures
            r@ == self@.rules,
    {
        &self.rules
    }

    /// Whether a path is followed. `rel_path` is the path below the project, and
    /// nothing for what is outside of it.
    pub fn should_process(&self, rel_path: &Option<String>, is_dir: bool) -> (r: bool)
        requires
            is_askable(self@.root, path_view(*rel_path)),
        ensures
            r == follows(self@, path_view(*rel_path), is_dir),
    {
        proof {
            use_type_invariant(self);
        }
        let path = match rel_path {
            Some(p) => p.as_str(),
            None => return false,
        };
        if path.is_empty() || is_dir {
            return false;
        }
        if should_skip(&self.rules, path) || has_hidden_component(path) {
            return false;
        }
        if self.rules.should_ignore_extension(path) {
            return false;
        }
        proof {
            if begins_with(path@, "./"@) {
                lemma_dot_in_front(path@);
            }
        }
        !is_gitignored(&self.gitignore, path, false)
    }
}

/// A path that begins with a dot and a slash is hidden.
proof fn lemma_dot_in_front(path: Seq<char>)
    requires
        begins_with(path, "./"@),
    ensures
        is_hidden(path),
{
    reveal_strlit("./");
    reveal_strlit(".");
    assert(path.subrange(0, 2)[0] == '.');
    assert(path.subrange(0, 2)[1] == '/');
    assert(path[0] == '.' && path[1] == '/');
    crate::text::lemma_index_of_char(path, '/', 1);
    let parts = split_of(path, '/');
    assert(parts[0] == path.take(1));
    assert(parts[0].subrange(0, 1) =~= "."@);
    assert(is_hidden_component(parts, 0));
}

} // verus!
