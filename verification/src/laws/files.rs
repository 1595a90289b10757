//! Which files are followed, and of which language they are.
use vstd::prelude::*;
use crate::config::{builtin_rules, ignored_extension, IgnoreRulesView};
use crate::index::file_entry::{
    extension_of, language_of_extension, language_of_path, new_entry, parsed_language, Language,
    Timestamp,
};
use crate::index::watch_filter::{
    follows, gitignore_ignores, is_hidden, is_hidden_component, may_change_file, pattern_lines,
    skips, watches, without_marks, AccessKind, AccessMode, EventKind, FilterView, MetadataKind,
    ModifyKind,
};
use crate::laws::text::{
    is_around, is_cut_out, law_join_of_two, law_piece_is_cut_out, law_pieces,
    law_pieces_come_back, law_texts_are_found, lemma_around_piece, lemma_piece_at, starts,
};
use crate::text::{lines_of, split_of};

verus! {

// ---------------------------------------------------------------------------
// Languages
// ---------------------------------------------------------------------------

/// The extensions of the files of a language.
pub open spec fn is_extension_of(e: Seq<char>, language: Language) -> bool {
    match language {
        Language::Rust => e == "rs"@,
        Language::Python => e == "py"@ || e == "pyi"@,
        Language::TypeScript => e == "ts"@ || e == "tsx"@,
        Language::JavaScript => e == "js"@ || e == "jsx"@ || e == "mjs"@ || e == "cjs"@,
        Language::Go => e == "go"@,
        Language::Java => e == "java"@,
        Language::Scala => e == "scala"@ || e == "sc"@,
        Language::Elixir => e == "ex"@ || e == "exs"@,
        Language::Ruby => e == "rb"@ || e == "rake"@,
        Language::Php => e == "php"@ || e == "phtml"@,
        Language::Zig => e == "zig"@ || e == "zon"@,
        Language::Sql => e == "sql"@,
        Language::Markdown => e == "md"@,
        Language::Other => !is_known_extension(e),
    }
}

/// An extension of a language that is told apart from others.
pub open spec fn is_known_extension(e: Seq<char>) -> bool {
    ||| e == "rs"@
    ||| e == "py"@
    ||| e == "pyi"@
    ||| e == "ts"@
    ||| e == "tsx"@
    ||| e == "js"@
    ||| e == "jsx"@
    ||| e == "mjs"@
    ||| e == "cjs"@
    ||| e == "go"@
    ||| e == "java"@
    ||| e == "scala"@
    ||| e == "sc"@
    ||| e == "ex"@
    ||| e == "exs"@
    ||| e == "rb"@
    ||| e == "rake"@
    ||| e == "php"@
    ||| e == "phtml"@
    ||| e == "zig"@
    ||| e == "zon"@
    ||| e == "sql"@
    ||| e == "md"@
}

/// An extension is of one language, and no two languages are confused.
pub proof fn law_language_of_extension(e: Seq<char>, language: Language)
    ensures
        language_of_extension(e) == language <==> is_extension_of(e, language),
{
    lemma_extension_texts();
}

/// The texts of the extensions.
proof fn lemma_extension_texts()
    ensures
        "rs"@.len() == 2 && "rs"@[0] == 'r' && "rs"@[1] == 's',
        "py"@.len() == 2 && "py"@[0] == 'p' && "py"@[1] == 'y',
        "ts"@.len() == 2 && "ts"@[0] == 't' && "ts"@[1] == 's',
        "js"@.len() == 2 && "js"@[0] == 'j' && "js"@[1] == 's',
        "go"@.len() == 2 && "go"@[0] == 'g' && "go"@[1] == 'o',
        "sc"@.len() == 2 && "sc"@[0] == 's' && "sc"@[1] == 'c',
        "ex"@.len() == 2 && "ex"@[0] == 'e' && "ex"@[1] == 'x',
        "rb"@.len() == 2 && "rb"@[0] == 'r' && "rb"@[1] == 'b',
        "md"@.len() == 2 && "md"@[0] == 'm' && "md"@[1] == 'd',
        "pyi"@.len() == 3 && "pyi"@[0] == 'p' && "pyi"@[1] == 'y',
        "tsx"@.len() == 3 && "tsx"@[0] == 't',
        "jsx"@.len() == 3 && "jsx"@[0] == 'j',
        "mjs"@.len() == 3 && "mjs"@[0] == 'm',
        "cjs"@.len() == 3 && "cjs"@[0] == 'c',
        "exs"@.len() == 3 && "exs"@[0] == 'e',
        "php"@.len() == 3 && "php"@[0] == 'p' && "php"@[1] == 'h',
        "zig"@.len() == 3 && "zig"@[0] == 'z' && "zig"@[1] == 'i',
        "zon"@.len() == 3 && "zon"@[0] == 'z' && "zon"@[1] == 'o',
        "sql"@.len() == 3 && "sql"@[0] == 's',
        "java"@.len() == 4 && "java"@[0] == 'j',
        "rake"@.len() == 4 && "rake"@[0] == 'r',
        "scala"@.len() == 5 && "scala"@[0] == 's',
        "phtml"@.len() == 5 && "phtml"@[0] == 'p',
{
    reveal_strlit("rs");
    reveal_strlit("py");
    reveal_strlit("ts");
    reveal_strlit("js");
    reveal_strlit("go");
    reveal_strlit("sc");
    reveal_strlit("ex");
    reveal_strlit("rb");
    reveal_strlit("md");
    reveal_strlit("pyi");
    reveal_strlit("tsx");
    reveal_strlit("jsx");
    reveal_strlit("mjs");
    reveal_strlit("cjs");
    reveal_strlit("exs");
    reveal_strlit("php");
    reveal_strlit("zig");
    reveal_strlit("zon");
    reveal_strlit("sql");
    reveal_strlit("java");
    reveal_strlit("rake");
    reveal_strlit("scala");
    reveal_strlit("phtml");
}

/// A path is made of a directory, or none, and a file name of a stem that is not empty, a
/// dot, and an extension without one.
pub open spec fn has_extension(
    path: Seq<char>,
    directory: Seq<char>,
    stem: Seq<char>,
    e: Seq<char>,
) -> bool {
    &&& path == directory + stem + seq!['.'] + e
    &&& directory.len() == 0 || directory.last() == '/'
    &&& !stem.contains('/')
    &&& stem.len() > 0
    &&& !e.contains('/')
    &&& !e.contains('.')
}

/// The extension of a path is what stands behind the last dot of its file name, where
/// something stands before that dot.
pub proof fn law_extension(path: Seq<char>, e: Seq<char>)
    ensures
        extension_of(path) == Some(e) <==> exists|directory: Seq<char>, stem: Seq<char>| #[trigger]
            has_extension(path, directory, stem, e),
{
    let names = split_of(path, '/');
    law_pieces(path, '/');
    let n = names.len() - 1;
    let name = names.last();
    let parts = split_of(name, '.');
    law_pieces(name, '.');
    let m = parts.len() - 1;
    if extension_of(path) == Some(e) {
        let (directory, nothing) = lemma_around_piece(path, '/', n);
        let (front, none) = lemma_around_piece(name, '.', m);
        let stem = front.drop_last();
        assert(name =~= stem + seq!['.'] + e);
        assert(path =~= directory + stem + seq!['.'] + e);
        if stem.contains('/') {
            let i = choose|i: int| 0 <= i < stem.len() && stem[i] == '/';
            assert(name[i] == '/');
            assert(name.contains('/'));
        }
        if e.contains('/') {
            let i = choose|i: int| 0 <= i < e.len() && e[i] == '/';
            assert(name[stem.len() + 1 + i] == '/');
            assert(name.contains('/'));
        }
        assert(parts[m] == e);
        assert(!e.contains('.'));
        if stem.len() == 0 {
            lemma_two_parts(name, parts, e);
        }
        assert(has_extension(path, directory, stem, e));
    }
    if exists|directory: Seq<char>, stem: Seq<char>| #[trigger]
        has_extension(path, directory, stem, e) {
        let (directory, stem) = choose|directory: Seq<char>, stem: Seq<char>| #[trigger]
            has_extension(path, directory, stem, e);
        let whole = stem + seq!['.'] + e;
        let none = Seq::<char>::empty();
        assert(!whole.contains('/')) by {
            if whole.contains('/') {
                let i = choose|i: int| 0 <= i < whole.len() && whole[i] == '/';
                if i < stem.len() {
                    assert(stem[i] == '/');
                } else if i > stem.len() {
                    assert(e[i - stem.len() - 1] == '/');
                }
            }
        }
        assert(path =~= directory + whole + none);
        assert(is_cut_out(path, '/', directory, whole, none));
        let at = lemma_piece_at(path, '/', directory, whole, none);
        assert(name == whole);
        let front = stem + seq!['.'];
        assert(name =~= front + e + none);
        assert(is_cut_out(name, '.', front, e, none));
        let last = lemma_piece_at(name, '.', front, e, none);
        assert(last == m && m > 0);
        if parts.len() == 2 && parts[0].len() == 0 {
            assert(parts =~= seq![parts[0], e]);
            law_join_of_two(seq![parts[0]], seq![e], seq!['.']);
            assert(seq![parts[0]] + seq![e] =~= parts);
            law_join_of_two(seq![e], seq![e], seq!['.']);
            assert(name == parts[0] + seq!['.'] + e);
            assert(name.len() == 1 + e.len());
        }
    }
}

/// A name that starts with its last dot has two parts.
proof fn lemma_two_parts(name: Seq<char>, parts: Seq<Seq<char>>, e: Seq<char>)
    requires
        parts == split_of(name, '.'),
        parts.last() == e,
        name == Seq::<char>::empty() + seq!['.'] + e,
        !e.contains('.'),
        parts.len() >= 2,
    ensures
        parts.len() == 2,
        parts[0].len() == 0,
{
    let none = Seq::<char>::empty();
    let both = seq![none, e];
    assert forall|i: int| 0 <= i < both.len() implies !(#[trigger] both[i]).contains('.') by {}
    law_pieces_come_back(both, '.');
    law_join_of_two(seq![none], seq![e], seq!['.']);
    law_join_of_two(seq![e], seq![e], seq!['.']);
    assert(seq![none] + seq![e] =~= both);
    law_join_of_two(seq![none], seq![none], seq!['.']);
}

/// The language of a file is that of its extension, and it has no language that is told
/// apart where it has no extension. A new entry has that language, and its symbols are not
/// extracted yet.
pub proof fn law_language_of_path(
    path: Seq<char>,
    e: Seq<char>,
    language: Language,
    size: u64,
    modified: Timestamp,
)
    ensures
        extension_of(path) == Some(e) ==> (language_of_path(path) == language
            <==> is_extension_of(e, language)),
        extension_of(path) is None ==> language_of_path(path) == Language::Other,
        ({
            let entry = new_entry(path, size, modified);
            &&& entry.rel_path == path
            &&& entry.size == size
            &&& entry.modified == modified
            &&& entry.language == language_of_path(path)
            &&& !entry.symbols_extracted
        }),
        parsed_language(language) <==> language != Language::Sql && language != Language::Markdown
            && language != Language::Other,
{
    law_language_of_extension(e, language);
}

// ---------------------------------------------------------------------------
// What is followed
// ---------------------------------------------------------------------------

/// A path goes through a directory, or ends with a file, of a name.
pub open spec fn goes_through(path: Seq<char>, name: Seq<char>) -> bool {
    exists|front: Seq<char>, back: Seq<char>| #[trigger]
        is_cut_out(path, '/', front, name, back)
}

/// A path is skipped where it goes through a name that is ignored.
pub proof fn law_skipped(rules: IgnoreRulesView, path: Seq<char>)
    ensures
        skips(rules, path) <==> exists|name: Seq<char>| #[trigger]
            goes_through(path, name) && rules.dirs.contains(name),
{
    let parts = split_of(path, '/');
    if skips(rules, path) {
        let i = choose|i: int| 0 <= i < parts.len() && rules.dirs.contains(#[trigger] parts[i]);
        law_piece_is_cut_out(path, '/', parts[i]);
        assert(parts.contains(parts[i]));
        assert(goes_through(path, parts[i]));
    }
    if exists|name: Seq<char>| #[trigger] goes_through(path, name) && rules.dirs.contains(name) {
        let name = choose|name: Seq<char>| #[trigger]
            goes_through(path, name) && rules.dirs.contains(name);
        law_piece_is_cut_out(path, '/', name);
        let i = choose|i: int| 0 <= i < parts.len() && parts[i] == name;
        assert(rules.dirs.contains(parts[i]));
    }
}

/// A path has a hidden part: one that starts with a dot, other than a dot alone behind
/// another part.
pub open spec fn has_hidden_part(
    path: Seq<char>,
    front: Seq<char>,
    name: Seq<char>,
    back: Seq<char>,
) -> bool {
    &&& is_cut_out(path, '/', front, name, back)
    &&& starts(name, "."@)
    &&& front.len() == 0 || name != "."@
}

/// A path is hidden where it has a hidden part.
pub proof fn law_hidden(path: Seq<char>)
    ensures
        is_hidden(path) <==> exists|front: Seq<char>, name: Seq<char>, back: Seq<char>| #[trigger]
            has_hidden_part(path, front, name, back),
{
    let parts = split_of(path, '/');
    if is_hidden(path) {
        let i = choose|i: int| 0 <= i < parts.len() && #[trigger] is_hidden_component(parts, i);
        law_texts_are_found(parts[i], "."@);
        let (front, back) = lemma_around_piece(path, '/', i);
        assert(has_hidden_part(path, front, parts[i], back));
    }
    if exists|front: Seq<char>, name: Seq<char>, back: Seq<char>| #[trigger]
        has_hidden_part(path, front, name, back) {
        let (front, name, back) = choose|front: Seq<char>, name: Seq<char>, back: Seq<char>|
            #[trigger] has_hidden_part(path, front, name, back);
        let i = lemma_piece_at(path, '/', front, name, back);
        law_texts_are_found(name, "."@);
        assert(is_hidden_component(parts, i));
    }
}

/// A change is followed for a file below the root that is not skipped, not hidden, not
/// ignored for its extension and not ignored by the patterns; never for a directory, and
/// never outside the root. A directory is watched where it is the root or not skipped.
pub proof fn law_followed(filter: FilterView, path: Seq<char>, is_dir: bool)
    ensures
        !follows(filter, None, is_dir),
        follows(filter, Some(path), is_dir) <==> {
            &&& path.len() > 0
            &&& !is_dir
            &&& !exists|name: Seq<char>| #[trigger]
                goes_through(path, name) && filter.rules.dirs.contains(name)
            &&& !exists|front: Seq<char>, name: Seq<char>, back: Seq<char>| #[trigger]
                has_hidden_part(path, front, name, back)
            &&& !exists|e: Seq<char>| #[trigger]
                filter.rules.extensions.contains(e) && extension_of(path) == Some(e)
            &&& !gitignore_ignores(filter.gitignore, path, false)
        },
        !watches(filter.rules, None),
        watches(filter.rules, Some(path)) <==> path.len() == 0 || !exists|name: Seq<char>|
            #[trigger] goes_through(path, name) && filter.rules.dirs.contains(name),
        ignored_extension(filter.rules, path) <==> exists|e: Seq<char>| #[trigger]
            filter.rules.extensions.contains(e) && extension_of(path) == Some(e),
{
    law_skipped(filter.rules, path);
    law_hidden(path);
}

/// The names that are left out of every project: of dependencies, builds, coverage, version
/// control, caches and running programs. No extension is.
pub proof fn law_builtin_rules(name: Seq<char>)
    ensures
        builtin_rules().dirs.contains(name) <==> {
            ||| name == "node_modules"@
            ||| name == "vendor"@
            ||| name == "target"@
            ||| name == "coverage"@
            ||| name == ".git"@
            ||| name == ".cache"@
            ||| name == ".journey"@
        },
        !builtin_rules().extensions.contains(name),
{
}

/// What may change a file: that it is made, removed or changed, but not that its time of
/// access is; that it is closed after writing, but no other access; and an event of which
/// nothing is known, but not one of another kind.
pub proof fn law_events_that_change(access: AccessKind, modify: ModifyKind)
    ensures
        may_change_file(EventKind::Create),
        may_change_file(EventKind::Remove),
        may_change_file(EventKind::Any),
        !may_change_file(EventKind::Other),
        may_change_file(EventKind::Modify(modify)) <==> modify != ModifyKind::Metadata(
            MetadataKind::AccessTime,
        ),
        may_change_file(EventKind::Access(access)) <==> access == AccessKind::Close(
            AccessMode::Write,
        ),
{
}

/// The patterns of a file are its lines, the first without the marks in front of it.
pub proof fn law_pattern_lines(text: Seq<char>, i: int)
    requires
        0 <= i < lines_of(text).len(),
    ensures
        pattern_lines(text).len() == lines_of(text).len(),
        i > 0 ==> pattern_lines(text)[i] == lines_of(text)[i].text,
        i == 0 ==> exists|marks: Seq<char>| #[trigger]
            is_around(lines_of(text)[0].text, marks, pattern_lines(text)[0], Seq::empty()) && (
            forall|k: int| 0 <= k < marks.len() ==> (#[trigger] marks[k]) == '\u{FEFF}'),
        i == 0 && pattern_lines(text)[0].len() > 0 ==> pattern_lines(text)[0][0] != '\u{FEFF}',
{
    if i == 0 {
        let line = lines_of(text)[0].text;
        let marks = lemma_marks(line);
        assert(line =~= marks + without_marks(line) + Seq::<char>::empty());
        assert(is_around(line, marks, pattern_lines(text)[0], Seq::empty()));
    }
}

/// The marks in front of a text.
proof fn lemma_marks(s: Seq<char>) -> (marks: Seq<char>)
    ensures
        s == marks + without_marks(s),
        forall|k: int| 0 <= k < marks.len() ==> (#[trigger] marks[k]) == '\u{FEFF}',
        without_marks(s).len() > 0 ==> without_marks(s)[0] != '\u{FEFF}',
    decreases s.len(),
{
    if s.len() > 0 && s[0] == '\u{FEFF}' {
        let rest = lemma_marks(s.drop_first());
        let marks = seq![s[0]] + rest;
        assert(s =~= seq![s[0]] + s.drop_first());
        assert(seq![s[0]] + (rest + without_marks(s)) =~= marks + without_marks(s));
        assert forall|k: int| 0 <= k < marks.len() implies (#[trigger] marks[k]) == '\u{FEFF}' by {
            if k > 0 {
                assert(marks[k] == rest[k - 1]);
            }
        }
        marks
    } else {
        assert(s =~= Seq::<char>::empty() + s);
        Seq::empty()
    }
}

} // verus!
