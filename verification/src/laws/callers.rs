//! Where a symbol is called.
use vstd::prelude::*;
use crate::index::file_entry::{parsed_language, FileEntryView, Language};
use crate::laws::captures::{
    is_first_named, law_capture_number, law_node_text, reads_as,
};
use crate::laws::text::{holds, law_texts_are_found, starts};
use crate::maps::{lists_in_order, sorted_keys};
use crate::ops::symbol_ops::callers::{
    all_callers, caller_at, callers_in, callers_of, captured_callers, defines, defines_somewhere,
    is_call, line_callers, matched_callers, text_callers, CallerView, Target,
};
use crate::ops::symbol_ops::lookup::{call_name, looked_up};
use crate::pattern::{escaped_of, regex_outcome};
use crate::sorting::{lemma_text_order, text_order};
use crate::sources::{read_of, ReadView};
use crate::symbols::queries::{query_for, ConfigView, Queries, QueryKind};
use crate::symbols::symbol::SymbolView;
use crate::symbols::syntax::{
    capture_number, parse_outcome, query_captures, query_matches, CaptureView,
};
use crate::text::{has_text, line_text, lines_of, lowercase, text_le, trim_of};

verus! {

// ---------------------------------------------------------------------------
// Lines that define
// ---------------------------------------------------------------------------

/// A line has a word and, directly behind it, a name.
pub open spec fn has_pair(line: Seq<char>, word: Seq<char>, name: Seq<char>) -> bool {
    holds(line, word + name)
}

/// What a line has where it defines a name: a word of the language directly in front of the
/// name, or the name and a word that marks the line. Letter case does not matter in SQL.
pub open spec fn is_definition(line: Seq<char>, name: Seq<char>, language: Language) -> bool {
    match language {
        Language::Rust => has_pair(line, "fn "@, name),
        Language::Python => has_pair(line, "def "@, name),
        Language::TypeScript | Language::JavaScript => {
            ||| has_pair(line, "function "@, name)
            ||| has_pair(line, name, " ="@)
        },
        Language::Go => has_pair(line, "func "@, name),
        Language::Java => {
            ||| has_pair(line, "class "@, name)
            ||| has_pair(line, "interface "@, name)
            ||| has_pair(line, "enum "@, name)
            ||| holds(line, name) && {
                ||| holds(line, "void "@)
                ||| holds(line, "int "@)
                ||| holds(line, "String "@)
                ||| holds(line, "boolean "@)
                ||| holds(line, "long "@)
                ||| holds(line, "double "@)
                ||| holds(line, "float "@)
                ||| holds(line, "public "@)
                ||| holds(line, "private "@)
                ||| holds(line, "protected "@)
            }
        },
        Language::Scala => {
            ||| has_pair(line, "def "@, name)
            ||| has_pair(line, "object "@, name)
            ||| has_pair(line, "class "@, name)
            ||| has_pair(line, "trait "@, name)
        },
        Language::Elixir => is_elixir_definition(line, name),
        Language::Ruby => {
            ||| has_pair(line, "def "@, name)
            ||| has_pair(line, "def self."@, name)
            ||| has_pair(line, "class "@, name)
            ||| has_pair(line, "module "@, name)
            ||| has_pair(line, "alias "@, name)
            ||| holds(line, name) && {
                ||| holds(line, "attr_reader"@)
                ||| holds(line, "attr_writer"@)
                ||| holds(line, "attr_accessor"@)
                ||| holds(line, "define_method"@)
                ||| holds(line, "alias_method"@)
            }
        },
        Language::Php => {
            ||| has_pair(line, "function "@, name)
            ||| has_pair(line, "class "@, name)
            ||| has_pair(line, "interface "@, name)
            ||| has_pair(line, "trait "@, name)
            ||| has_pair(line, "enum "@, name)
            ||| has_pair(line, "namespace "@, name)
            ||| holds(line, name) && (holds(line, "const "@) || holds(line, "case "@))
        },
        Language::Zig => {
            ||| has_pair(line, "fn "@, name)
            ||| has_pair(line, "const "@, name)
            ||| has_pair(line, "var "@, name)
            ||| starts(line, "test "@) && holds(line, name)
        },
        Language::Sql => {
            &&& holds(lowercase(line), "create"@)
            &&& holds(lowercase(line), lowercase(name))
        },
        _ => false,
    }
}

/// What a line of Elixir has where it defines a name.
pub open spec fn is_elixir_definition(line: Seq<char>, name: Seq<char>) -> bool {
    ||| has_pair(line, "def "@, name)
    ||| has_pair(line, "defp "@, name)
    ||| has_pair(line, "defmacro "@, name)
    ||| has_pair(line, "defmacrop "@, name)
    ||| has_pair(line, "defguard "@, name)
    ||| has_pair(line, "defguardp "@, name)
    ||| has_pair(line, "defmodule "@, name)
    ||| has_pair(line, "defprotocol "@, name)
    ||| has_pair(line, "defimpl "@, name)
}

/// What a line has where it defines a name in a file whose language is not asked.
pub open spec fn is_any_definition(line: Seq<char>, name: Seq<char>) -> bool {
    ||| has_pair(line, "fn "@, name)
    ||| is_elixir_definition(line, name)
    ||| has_pair(line, "function "@, name)
    ||| has_pair(line, "func "@, name)
    ||| has_pair(line, "class "@, name)
    ||| has_pair(line, "interface "@, name)
    ||| has_pair(line, "object "@, name)
    ||| has_pair(line, "trait "@, name)
}

/// Which lines define a name.
pub proof fn law_definition_lines(line: Seq<char>, name: Seq<char>, language: Language)
    ensures
        defines(line, name, language) <==> is_definition(line, name, language),
        defines_somewhere(line, name) <==> is_any_definition(line, name),
{
    assert forall|part: Seq<char>|
        #![trigger has_text(line, part)]
        #![trigger holds(line, part)]
        has_text(line, part) == holds(line, part) by {
        law_texts_are_found(line, part);
    }
    law_texts_are_found(line, "test "@);
    law_texts_are_found(lowercase(line), "create"@);
    law_texts_are_found(lowercase(line), lowercase(name));
}

// ---------------------------------------------------------------------------
// Calls
// ---------------------------------------------------------------------------

/// A capture is a call of a name: it is what the query names `callee`, its text is the name
/// from end to end, and its line does not define the name in the name's own file.
pub open spec fn is_call_of(
    names: Seq<Seq<char>>,
    capture: CaptureView,
    called: Seq<char>,
    own_file: bool,
    source: Seq<char>,
    language: Language,
) -> bool {
    &&& is_first_named(names, "callee"@, capture.index as int)
    &&& reads_as(capture.node, called)
    &&& !(own_file && is_definition(
        line_text(source, capture.node.start_row as int),
        called,
        language,
    ))
}

/// A caller shows a row of a file: its number counted from one, and its text without the
/// white space around it.
pub open spec fn shows_row(c: CallerView, source: Seq<char>, row: int) -> bool {
    &&& c.line == (row + 1) as usize
    &&& c.text == trim_of(line_text(source, row))
}

/// A caller stands for a call among the captures of a match.
pub open spec fn stands_among(
    c: CallerView,
    names: Seq<Seq<char>>,
    captures: Seq<CaptureView>,
    j: int,
    called: Seq<char>,
    own_file: bool,
    source: Seq<char>,
    language: Language,
) -> bool {
    &&& 0 <= j < captures.len()
    &&& is_call_of(names, captures[j], called, own_file, source, language)
    &&& shows_row(c, source, captures[j].node.start_row as int)
}

/// A caller stands for a call among the matches of the query for calls.
pub open spec fn stands_for(
    c: CallerView,
    names: Seq<Seq<char>>,
    matches: Seq<Seq<CaptureView>>,
    i: int,
    j: int,
    called: Seq<char>,
    own_file: bool,
    source: Seq<char>,
    language: Language,
) -> bool {
    &&& 0 <= i < matches.len()
    &&& stands_among(c, names, matches[i], j, called, own_file, source, language)
}

/// A caller stands for a line that has the name.
pub open spec fn stands_for_line(
    c: CallerView,
    called: Seq<char>,
    own_file: bool,
    source: Seq<char>,
    row: int,
) -> bool {
    &&& 0 <= row < lines_of(source).len()
    &&& holds(lines_of(source)[row].text, called)
    &&& !(own_file && is_any_definition(lines_of(source)[row].text, called))
    &&& c.line == (row + 1) as usize
    &&& c.text == trim_of(lines_of(source)[row].text)
}

/// The matches of the query for calls in a file, with the names of its captures: none where
/// the language is not parsed or not configured, or the text or the query cannot be had.
pub open spec fn calls_found(
    configs: Map<Language, ConfigView>,
    cache: Queries,
    source: Seq<char>,
    language: Language,
) -> Option<(Seq<Seq<char>>, Seq<Seq<CaptureView>>)> {
    if parsed_language(language) && configs.contains_key(language) {
        let c = configs[language];
        match (
            parse_outcome(c.language, source),
            query_for(cache, language, QueryKind::Callers, c.language, c.callers_query),
        ) {
            (Ok(tree), Ok(query)) => Some(
                (query_captures(query), query_matches(tree, query, source, None)),
            ),
            _ => None,
        }
    } else {
        None
    }
}

/// A caller in a file: the file's text has the name, and the caller stands for a call, or,
/// where no calls can be found, for a line with the name.
pub open spec fn is_caller_in(
    c: CallerView,
    called: Seq<char>,
    own_file: bool,
    configs: Map<Language, ConfigView>,
    cache: Queries,
    source: Seq<char>,
    language: Language,
) -> bool {
    &&& holds(source, called)
    &&& match calls_found(configs, cache, source, language) {
        Some((names, matches)) => exists|i: int, j: int| #[trigger]
            stands_for(c, names, matches, i, j, called, own_file, source, language),
        None => {
            &&& regex_outcome(escaped_of(called)) is Ok
            &&& exists|row: int| #[trigger] stands_for_line(c, called, own_file, source, row)
        },
    }
}

/// A caller in a file of the index that can be read, where the name is defined in `home`.
pub open spec fn is_caller(
    c: CallerView,
    called: Seq<char>,
    home: Seq<char>,
    configs: Map<Language, ConfigView>,
    cache: Queries,
    reads: Map<Seq<char>, ReadView>,
    files: Map<Seq<char>, FileEntryView>,
) -> bool {
    &&& files.contains_key(c.file)
    &&& read_of(reads, c.file) matches Ok(text) && is_caller_in(
        c,
        called,
        c.file == home,
        configs,
        cache,
        text,
        files[c.file].language,
    )
}

/// A caller stands for one of the captures of a match.
spec fn stands_somewhere(
    c: CallerView,
    names: Seq<Seq<char>>,
    captures: Seq<CaptureView>,
    called: Seq<char>,
    own_file: bool,
    source: Seq<char>,
    language: Language,
) -> bool {
    exists|j: int| #[trigger]
        stands_among(c, names, captures, j, called, own_file, source, language)
}

/// The callers among the captures of one match.
proof fn lemma_captured(
    target: Target,
    file: Seq<char>,
    source: Seq<char>,
    language: Language,
    names: Seq<Seq<char>>,
    captures: Seq<CaptureView>,
    own: bool,
    found: Seq<CallerView>,
)
    requires
        own == (file == target.home),
        found == captured_callers(
            target,
            file,
            source,
            language,
            capture_number(names, "callee"@),
            captures,
        ),
    ensures
        forall|k: int|
            0 <= k < found.len() ==> found[k].file == file && stands_somewhere(
                #[trigger] found[k],
                names,
                captures,
                target.name,
                own,
                source,
                language,
            ),
        forall|c: CallerView, j: int|
            c.file == file && #[trigger] stands_among(
                c,
                names,
                captures,
                j,
                target.name,
                own,
                source,
                language,
            ) ==> found.contains(c),
    decreases captures.len(),
{
    if captures.len() > 0 {
        let callee = capture_number(names, "callee"@);
        let rest = captures.drop_last();
        let last = captures.last();
        law_capture_number(names, "callee"@);
        law_node_text(last.node, target.name);
        let line = line_text(source, last.node.start_row as int);
        law_definition_lines(line, target.name, language);
        let before = captured_callers(target, file, source, language, callee, rest);
        lemma_captured(target, file, source, language, names, rest, own, before);
        let this = caller_at(file, source, last.node);
        assert(is_call(target, file, source, language, callee, last) <==> is_call_of(
            names,
            last,
            target.name,
            own,
            source,
            language,
        ));
        assert forall|k: int| 0 <= k < found.len() implies found[k].file == file
            && stands_somewhere(
            #[trigger] found[k],
            names,
            captures,
            target.name,
            own,
            source,
            language,
        ) by {
            if k < before.len() {
                assert(found[k] == before[k]);
                let j = choose|j: int| #[trigger]
                    stands_among(before[k], names, rest, j, target.name, own, source, language);
                assert(captures[j] == rest[j]);
                assert(stands_among(
                    found[k],
                    names,
                    captures,
                    j,
                    target.name,
                    own,
                    source,
                    language,
                ));
            } else {
                assert(stands_among(
                    found[k],
                    names,
                    captures,
                    captures.len() - 1,
                    target.name,
                    own,
                    source,
                    language,
                ));
            }
        }
        assert forall|c: CallerView, j: int|
            c.file == file && #[trigger] stands_among(
                c,
                names,
                captures,
                j,
                target.name,
                own,
                source,
                language,
            ) implies found.contains(c) by {
            if j < rest.len() {
                assert(rest[j] == captures[j]);
                assert(stands_among(c, names, rest, j, target.name, own, source, language));
                let k = choose|k: int| 0 <= k < before.len() && before[k] == c;
                assert(found[k] == c);
            } else {
                assert(c == this);
                assert(found[before.len() as int] == this);
            }
        }
    } else {
        assert(found.len() == 0);
    }
}

/// The callers among all matches.
proof fn lemma_matched(
    target: Target,
    file: Seq<char>,
    source: Seq<char>,
    language: Language,
    names: Seq<Seq<char>>,
    matches: Seq<Seq<CaptureView>>,
    own: bool,
)
    requires
        own == (file == target.home),
    ensures
        ({
            let found = matched_callers(
                target,
                file,
                source,
                language,
                capture_number(names, "callee"@),
                matches,
            );
            &&& forall|k: int| #![trigger found[k]]
                0 <= k < found.len() ==> found[k].file == file && exists|i: int, j: int| #[trigger]
                    stands_for(
                        found[k],
                        names,
                        matches,
                        i,
                        j,
                        target.name,
                        own,
                        source,
                        language,
                    )
            &&& forall|c: CallerView, i: int, j: int|
                c.file == file && #[trigger] stands_for(
                    c,
                    names,
                    matches,
                    i,
                    j,
                    target.name,
                    own,
                    source,
                    language,
                ) ==> found.contains(c)
        }),
    decreases matches.len(),
{
    if matches.len() > 0 {
        let callee = capture_number(names, "callee"@);
        let rest = matches.drop_last();
        let last = matches.last();
        lemma_matched(target, file, source, language, names, rest, own);
        let before = matched_callers(target, file, source, language, callee, rest);
        let here = captured_callers(target, file, source, language, callee, last);
        lemma_captured(target, file, source, language, names, last, own, here);
        let found = matched_callers(target, file, source, language, callee, matches);
        assert(found == before + here);
        assert forall|k: int| #![trigger found[k]] 0 <= k < found.len() implies found[k].file
            == file && exists|i: int, j: int| #[trigger]
            stands_for(found[k], names, matches, i, j, target.name, own, source, language) by {
            if k < before.len() {
                assert(found[k] == before[k]);
                let (i, j) = choose|i: int, j: int| #[trigger]
                    stands_for(before[k], names, rest, i, j, target.name, own, source, language);
                assert(rest[i] == matches[i]);
                assert(stands_for(
                    found[k],
                    names,
                    matches,
                    i,
                    j,
                    target.name,
                    own,
                    source,
                    language,
                ));
            } else {
                assert(found[k] == here[k - before.len()]);
                let j = choose|j: int| #[trigger]
                    stands_among(found[k], names, last, j, target.name, own, source, language);
                let i = matches.len() - 1;
                assert(matches[i] == last);
                assert(stands_for(
                    found[k],
                    names,
                    matches,
                    i,
                    j,
                    target.name,
                    own,
                    source,
                    language,
                ));
            }
        }
        assert forall|c: CallerView, i: int, j: int|
            c.file == file && #[trigger] stands_for(
                c,
                names,
                matches,
                i,
                j,
                target.name,
                own,
                source,
                language,
            ) implies found.contains(c) by {
            if i < rest.len() {
                assert(rest[i] == matches[i]);
                assert(stands_for(c, names, rest, i, j, target.name, own, source, language));
                let k = choose|k: int| 0 <= k < before.len() && before[k] == c;
                assert(found[k] == c);
            } else {
                assert(stands_among(c, names, last, j, target.name, own, source, language));
                let k = choose|k: int| 0 <= k < here.len() && here[k] == c;
                assert(found[before.len() + k] == c);
            }
        }
    }
}

/// The callers among the first lines.
proof fn lemma_lines(target: Target, file: Seq<char>, source: Seq<char>, n: int, own: bool)
    requires
        own == (file == target.home),
        0 <= n <= lines_of(source).len(),
    ensures
        ({
            let found = line_callers(target, file, lines_of(source), n);
            &&& forall|k: int| #![trigger found[k]]
                0 <= k < found.len() ==> found[k].file == file && exists|row: int| row < n
                    && #[trigger] stands_for_line(
                    found[k],
                    target.name,
                    own,
                    source,
                    row,
                )
            &&& forall|c: CallerView, row: int|
                row < n && c.file == file && #[trigger] stands_for_line(
                    c,
                    target.name,
                    own,
                    source,
                    row,
                ) ==> found.contains(c)
        }),
    decreases n,
{
    if n > 0 {
        lemma_lines(target, file, source, n - 1, own);
        let line = lines_of(source)[n - 1].text;
        law_texts_are_found(line, target.name);
        law_definition_lines(line, target.name, Language::Rust);
        let before = line_callers(target, file, lines_of(source), n - 1);
        let found = line_callers(target, file, lines_of(source), n);
        let last = CallerView { file, line: n as usize, text: trim_of(line) };
        assert forall|k: int| #![trigger found[k]] 0 <= k < found.len() implies found[k].file
            == file && exists|row: int| row < n && #[trigger]
            stands_for_line(found[k], target.name, own, source, row) by {
            if k < before.len() {
                assert(found[k] == before[k]);
                let row = choose|row: int| row < n - 1 && #[trigger]
                    stands_for_line(before[k], target.name, own, source, row);
                assert(stands_for_line(found[k], target.name, own, source, row));
            } else {
                assert(stands_for_line(found[k], target.name, own, source, n - 1));
            }
        }
        assert forall|c: CallerView, row: int|
            row < n && c.file == file && #[trigger] stands_for_line(
                c,
                target.name,
                own,
                source,
                row,
            ) implies found.contains(c) by {
            if row < n - 1 {
                let k = choose|k: int| 0 <= k < before.len() && before[k] == c;
                assert(found[k] == c);
            } else {
                assert(c == last);
                assert(found[before.len() as int] == last);
            }
        }
    }
}

/// The callers in one file are the calls of the name in it, all of them and nothing else.
pub proof fn law_callers_in_a_file(
    target: Target,
    configs: Map<Language, ConfigView>,
    cache: Queries,
    file: Seq<char>,
    source: Seq<char>,
    language: Language,
    c: CallerView,
)
    ensures
        callers_in(target, configs, cache, file, source, language).contains(c) <==> c.file == file
            && is_caller_in(
            c,
            target.name,
            file == target.home,
            configs,
            cache,
            source,
            language,
        ),
{
    let own = file == target.home;
    let found = callers_in(target, configs, cache, file, source, language);
    law_texts_are_found(source, target.name);
    let n = lines_of(source).len() as int;
    match calls_found(configs, cache, source, language) {
        Some((names, matches)) => {
            lemma_matched(target, file, source, language, names, matches, own);
            if has_text(source, target.name) {
                assert(found == matched_callers(
                    target,
                    file,
                    source,
                    language,
                    capture_number(names, "callee"@),
                    matches,
                ));
            }
        },
        None => {
            lemma_lines(target, file, source, n, own);
            if has_text(source, target.name) {
                assert(found == text_callers(target, file, source));
            }
        },
    }
    if found.contains(c) {
        let k = choose|k: int| 0 <= k < found.len() && found[k] == c;
        assert(found[k].file == file);
    }
}

/// The callers of matches that follow one another follow one another, and so do those of
/// the captures of a match; one capture gives one caller where it is a call, and none
/// otherwise. So a call is shown as often as it is captured, and where it is captured.
pub proof fn law_callers_in_turn(
    target: Target,
    file: Seq<char>,
    source: Seq<char>,
    language: Language,
    names: Seq<Seq<char>>,
    matches: Seq<Seq<CaptureView>>,
    captures: Seq<CaptureView>,
    capture: CaptureView,
)
    ensures
        ({
            let callee = capture_number(names, "callee"@);
            let here = captured_callers(target, file, source, language, callee, captures);
            &&& matched_callers(target, file, source, language, callee, Seq::empty()).len() == 0
            &&& matched_callers(
                target,
                file,
                source,
                language,
                callee,
                matches.push(captures),
            ) == matched_callers(target, file, source, language, callee, matches) + here
            &&& captured_callers(target, file, source, language, callee, Seq::empty()).len() == 0
            &&& captured_callers(
                target,
                file,
                source,
                language,
                callee,
                captures.push(capture),
            ) == if is_call_of(
                names,
                capture,
                target.name,
                file == target.home,
                source,
                language,
            ) {
                here.push(
                    CallerView {
                        file,
                        line: (capture.node.start_row + 1) as usize,
                        text: trim_of(line_text(source, capture.node.start_row as int)),
                    },
                )
            } else {
                here
            }
        }),
{
    law_capture_number(names, "callee"@);
    law_node_text(capture.node, target.name);
    law_definition_lines(
        line_text(source, capture.node.start_row as int),
        target.name,
        language,
    );
    assert(matches.push(captures).drop_last() =~= matches);
    assert(captures.push(capture).drop_last() =~= captures);
}

/// The callers of all files of a list.
proof fn lemma_all(
    target: Target,
    configs: Map<Language, ConfigView>,
    cache: Queries,
    reads: Map<Seq<char>, ReadView>,
    files: Map<Seq<char>, FileEntryView>,
    paths: Seq<Seq<char>>,
    c: CallerView,
)
    ensures
        all_callers(target, configs, cache, reads, files, paths).contains(c) <==> {
            &&& paths.contains(c.file)
            &&& read_of(reads, c.file) matches Ok(text) && is_caller_in(
                c,
                target.name,
                c.file == target.home,
                configs,
                cache,
                text,
                files[c.file].language,
            )
        },
    decreases paths.len(),
{
    if paths.len() > 0 {
        let rest = paths.drop_last();
        let last = paths.last();
        lemma_all(target, configs, cache, reads, files, rest, c);
        let before = all_callers(target, configs, cache, reads, files, rest);
        let found = all_callers(target, configs, cache, reads, files, paths);
        assert(paths.contains(c.file) <==> rest.contains(c.file) || c.file == last) by {
            if paths.contains(c.file) {
                let i = choose|i: int| 0 <= i < paths.len() && paths[i] == c.file;
                if i < rest.len() {
                    assert(rest[i] == c.file);
                }
            }
            if rest.contains(c.file) {
                let i = choose|i: int| 0 <= i < rest.len() && rest[i] == c.file;
                assert(paths[i] == c.file);
            }
            assert(paths[paths.len() - 1] == last);
        }
        if let Ok(text) = read_of(reads, last) {
            let language = files[last].language;
            law_callers_in_a_file(target, configs, cache, last, text, language, c);
            let here = callers_in(target, configs, cache, last, text, language);
            assert(found == before + here);
            if found.contains(c) {
                let k = choose|k: int| 0 <= k < found.len() && found[k] == c;
                if k >= before.len() {
                    assert(here[k - before.len()] == c);
                } else {
                    assert(before[k] == c);
                }
            }
            if before.contains(c) {
                let k = choose|k: int| 0 <= k < before.len() && before[k] == c;
                assert(found[k] == c);
            }
            if here.contains(c) {
                let k = choose|k: int| 0 <= k < here.len() && here[k] == c;
                assert(found[before.len() + k] == c);
            }
        }
    }
}

/// The callers of the files of a list stand in the order of the list.
proof fn lemma_file_order(
    target: Target,
    configs: Map<Language, ConfigView>,
    cache: Queries,
    reads: Map<Seq<char>, ReadView>,
    files: Map<Seq<char>, FileEntryView>,
    paths: Seq<Seq<char>>,
)
    requires
        forall|i: int, j: int|
            0 <= i <= j < paths.len() ==> text_le(#[trigger] paths[i], #[trigger] paths[j]),
    ensures
        ({
            let found = all_callers(target, configs, cache, reads, files, paths);
            forall|i: int, j: int|
                0 <= i <= j < found.len() ==> text_le(
                    (#[trigger] found[i]).file,
                    (#[trigger] found[j]).file,
                )
        }),
    decreases paths.len(),
{
    if paths.len() > 0 {
        let rest = paths.drop_last();
        let last = paths.last();
        assert forall|i: int, j: int| 0 <= i <= j < rest.len() implies text_le(
            #[trigger] rest[i],
            #[trigger] rest[j],
        ) by {
            assert(rest[i] == paths[i] && rest[j] == paths[j]);
        }
        lemma_file_order(target, configs, cache, reads, files, rest);
        let before = all_callers(target, configs, cache, reads, files, rest);
        let found = all_callers(target, configs, cache, reads, files, paths);
        if let Ok(text) = read_of(reads, last) {
            let language = files[last].language;
            let here = callers_in(target, configs, cache, last, text, language);
            assert(found == before + here);
            assert forall|i: int, j: int| 0 <= i <= j < found.len() implies text_le(
                (#[trigger] found[i]).file,
                (#[trigger] found[j]).file,
            ) by {
                if j >= before.len() {
                    law_callers_in_a_file(target, configs, cache, last, text, language, found[j]);
                    assert(here[j - before.len()] == found[j]);
                    assert(found[j].file == last);
                    if i >= before.len() {
                        law_callers_in_a_file(
                            target,
                            configs,
                            cache,
                            last,
                            text,
                            language,
                            found[i],
                        );
                        assert(here[i - before.len()] == found[i]);
                        assert(paths[paths.len() - 1] == last);
                    } else {
                        lemma_all(target, configs, cache, reads, files, rest, found[i]);
                        assert(before[i] == found[i]);
                        assert(before.contains(found[i]));
                        let p = choose|p: int| 0 <= p < rest.len() && rest[p] == found[i].file;
                        assert(paths[p] == rest[p]);
                        assert(paths[paths.len() - 1] == last);
                    }
                } else {
                    assert(found[i] == before[i] && found[j] == before[j]);
                }
            }
        }
    }
}

/// What is shown of the callers of a symbol. Nothing but an error that names what was asked
/// for comes where the name means no symbol of the file. Otherwise each caller shown is a
/// call of the symbol's name in a file of the index that can be read, a call of another name
/// is never shown, and where fewer are shown than asked for, every call is. At least one may
/// be shown. The files come in order, and a larger limit adds to the end.
pub proof fn law_callers(
    contents: Map<Seq<char>, SymbolView>,
    configs: Map<Language, ConfigView>,
    cache: Queries,
    reads: Map<Seq<char>, ReadView>,
    files: Map<Seq<char>, FileEntryView>,
    name: Seq<char>,
    file: Seq<char>,
    limit: usize,
    more: usize,
    c: CallerView,
)
    requires
        lists_in_order(sorted_keys(files), files),
        limit <= more,
    ensures
        match callers_of(contents, configs, cache, reads, files, name, file, limit) {
            Err(e) => {
                &&& looked_up(contents, file, name) is None
                &&& e == "Symbol '"@ + name + "' not found in '"@ + file + "'"@
            },
            Ok(found) => looked_up(contents, file, name) matches Some(s) && {
                let is_caller = is_caller(c, call_name(s), file, configs, cache, reads, files);
                &&& found.contains(c) ==> is_caller
                &&& is_caller && found.len() < limit ==> found.contains(c)
                &&& is_caller && limit == 0 ==> found.len() == 1
                &&& found.len() <= limit || found.len() == 1
                &&& forall|i: int, j: int|
                    0 <= i <= j < found.len() ==> text_le(
                        (#[trigger] found[i]).file,
                        (#[trigger] found[j]).file,
                    )
                &&& callers_of(
                    contents,
                    configs,
                    cache,
                    reads,
                    files,
                    name,
                    file,
                    more,
                ) matches Ok(longer) && found.is_prefix_of(longer)
            },
        },
{
    if let Some(s) = looked_up(contents, file, name) {
        let target = Target { name: call_name(s), home: file };
        let paths = sorted_keys(files);
        let all = all_callers(target, configs, cache, reads, files, paths);
        let found = callers_of(contents, configs, cache, reads, files, name, file, limit)->Ok_0;
        lemma_all(target, configs, cache, reads, files, paths, c);
        assert forall|i: int, j: int| 0 <= i <= j < paths.len() implies text_le(
            #[trigger] paths[i],
            #[trigger] paths[j],
        ) by {
            lemma_text_order();
            if i == j {
                assert(text_order()(paths[i], paths[i]));
            }
        }
        lemma_file_order(target, configs, cache, reads, files, paths);
        assert(paths.contains(c.file) <==> files.contains_key(c.file));
        if found.contains(c) {
            let k = choose|k: int| 0 <= k < found.len() && found[k] == c;
            assert(all[k] == c);
        }
        if all.contains(c) {
            let k = choose|k: int| 0 <= k < all.len() && all[k] == c;
            if k < found.len() {
                assert(found[k] == c);
            }
        }
    }
}

} // verus!
