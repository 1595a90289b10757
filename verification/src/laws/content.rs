//! What is read of a file, and when that is refused.
use vstd::prelude::*;
use crate::index::file_entry::Language;
use crate::index::file_tree::FileTreeView;
use crate::laws::grep::{law_filter, lemma_taken_once, lets_in};
use crate::laws::lists::law_first_of;
use crate::laws::text::{law_decimal, law_padding, law_pieces_come_back};
use crate::maps::{lists_in_order, sorted_keys};
use crate::ops::content::{
    can_peek, chunk_error, grep_error, grep_views, indexed_text, is_chunking, is_response,
    law_chunks_overlap, lemma_taken, mode_name, mode_named, non_code_query, numbered,
    numbered_lines, peeked, scope_named, taken, ChunkInfo, FileMatchMode, GrepMatchView,
    GrepResponse, GrepScope,
};
use crate::pattern::{escaped_of, regex_outcome};
use crate::sources::{read_of, ReadView};
use crate::text::{
    byte_len, decimal_of, index_of_char, lemma_index_of_char_bounds, lines_from, lines_of,
    pad_left_of, split_of,
};

verus! {

// ---------------------------------------------------------------------------
// Lines
// ---------------------------------------------------------------------------

/// No line has a newline.
proof fn lemma_no_newline(s: Seq<char>, base: nat, k: int)
    requires
        0 <= k < lines_from(s, base).len(),
    ensures
        !lines_from(s, base)[k].text.contains('\n'),
    decreases s.len(),
{
    lemma_index_of_char_bounds(s, '\n');
    let n = index_of_char(s, '\n');
    let text = lines_from(s, base)[k].text;
    if n < s.len() && k > 0 {
        let rest = s.skip(n + 1);
        let next = base + byte_len(s.take(n + 1));
        assert(lines_from(s, base)[k] == lines_from(rest, next)[k - 1]);
        lemma_no_newline(rest, next, k - 1);
    } else if text.contains('\n') {
        let i = choose|i: int| 0 <= i < text.len() && text[i] == '\n';
        assert(s[i] == '\n');
    }
}

/// A number has no newline.
proof fn lemma_number_has_none(n: nat, width: nat)
    ensures
        !pad_left_of(decimal_of(n), width).contains('\n'),
{
    law_decimal(n);
    law_padding(decimal_of(n), width);
    let t = pad_left_of(decimal_of(n), width);
    if t.contains('\n') {
        let i = choose|i: int| 0 <= i < t.len() && t[i] == '\n';
        let front = t.len() - decimal_of(n).len();
        if i >= front {
            assert(t[i] == decimal_of(n)[i - front]);
        }
    }
}

/// What is shown of a file are the lines from the one behind `start` up to `end`, as far as
/// there are lines: one shown line for each, with its number, from 1, right in six places,
/// and its text behind a bar. The numbers of the first and the last line and of all lines
/// are told.
pub proof fn law_peek(file: Seq<char>, text: Seq<char>, start: usize, end: usize, i: int)
    requires
        can_peek(text, start, end),
        lines_of(text).len() <= usize::MAX,
    ensures
        ({
            let total = lines_of(text).len() as int;
            let from = if start <= total {
                start as int
            } else {
                total
            };
            let to = if end <= total {
                end as int
            } else {
                total
            };
            let p = peeked(file, text, start, end);
            let shown = split_of(p.content, '\n');
            &&& p.file == file
            &&& p.start_line == from + 1
            &&& p.end_line == to
            &&& p.total_lines == total
            &&& from == to ==> p.content.len() == 0
            &&& from < to ==> shown.len() == to - from
            &&& 0 <= i < to - from ==> shown[i] == pad_left_of(
                decimal_of((from + i + 1) as nat),
                6,
            ) + " │ "@ + lines_of(text)[from + i].text
        }),
{
    let rows = lines_of(text);
    let total = rows.len() as int;
    let from = if start <= total {
        start as int
    } else {
        total
    };
    let to = if end <= total {
        end as int
    } else {
        total
    };
    let lines = numbered_lines(rows, from, to);
    reveal_strlit("\n");
    assert("\n"@ =~= seq!['\n']);
    if from < to {
        assert forall|k: int| 0 <= k < lines.len() implies !(#[trigger] lines[k]).contains(
            '\n',
        ) by {
            lemma_no_newline(text, 0, from + k);
            lemma_number_has_none((from + k + 1) as nat, 6);
            let number = pad_left_of(decimal_of((from + k + 1) as nat), 6);
            let line = rows[from + k].text;
            reveal_strlit(" │ ");
            if lines[k].contains('\n') {
                let j = choose|j: int| 0 <= j < lines[k].len() && lines[k][j] == '\n';
                if j < number.len() {
                    assert(number[j] == '\n');
                } else if j >= number.len() + 3 {
                    assert(line[j - number.len() - 3] == '\n');
                }
            }
        }
        law_pieces_come_back(lines, '\n');
    }
}

// ---------------------------------------------------------------------------
// Chunks
// ---------------------------------------------------------------------------

/// The chunks of a file are numbered from 0 and follow one another: the first starts at the
/// first byte, each but the last has exactly the size, each starts the size less the overlap
/// behind the one before, and the last ends with the file and has no more than the size. A
/// file without bytes has none.
pub proof fn law_chunks(chunks: Seq<ChunkInfo>, total: int, size: int, overlap: int, i: int)
    requires
        0 <= overlap < size,
        0 <= total,
        is_chunking(chunks, total, size, overlap),
    ensures
        total == 0 <==> chunks.len() == 0,
        total > 0 ==> chunks[0].start == 0 && chunks.last().end == total,
        0 <= i < chunks.len() ==> {
            &&& chunks[i].index == i
            &&& chunks[i].start < chunks[i].end <= total
            &&& chunks[i].end - chunks[i].start <= size
            &&& i < chunks.len() - 1 ==> chunks[i].end - chunks[i].start == size
            &&& i < chunks.len() - 1 ==> chunks[i + 1].start == chunks[i].start + size - overlap
        },
{
    if total > 0 {
        assert(chunks[0].start == 0 * (size - overlap));
        assert(0 * (size - overlap) == 0) by (nonlinear_arith);
        assert(chunks[chunks.len() - 1].end == total);
    }
    if 0 <= i < chunks.len() - 1 {
        law_chunks_overlap(chunks, total, size, overlap, i);
        assert(chunks[i].end != total);
    }
}

/// What a path reads as: what was loaded for it, and an error that says so where nothing
/// was.
pub proof fn law_reads(reads: Map<Seq<char>, ReadView>, path: Seq<char>)
    ensures
        reads.contains_key(path) ==> read_of(reads, path) == reads[path],
        !reads.contains_key(path) ==> read_of(reads, path) == Err::<Seq<char>, Seq<char>>(
            "not loaded"@,
        ),
{
}

/// Why chunks are refused: for a size of nothing, for an overlap that is not smaller than
/// the size, for a file that is not in the index, and for one that cannot be read.
pub proof fn law_chunks_refused(
    tree: FileTreeView,
    reads: Map<Seq<char>, ReadView>,
    file: Seq<char>,
    size: usize,
    overlap: usize,
)
    ensures
        match chunk_error(tree, reads, file, size, overlap) {
            None => size > 0 && overlap < size && tree.files.contains_key(file) && read_of(
                reads,
                file,
            ) is Ok,
            Some(e) => if size == 0 {
                e == "Chunk size must be > 0"@
            } else if overlap >= size {
                e == "Overlap must be < chunk size"@
            } else if !tree.files.contains_key(file) {
                e == "File '"@ + file + "' not found in index"@
            } else {
                read_of(reads, file) matches Err(why) && e == "Failed to read '"@ + file + "': "@
                    + why
            },
        },
        match indexed_text(tree, reads, file) {
            Ok(text) => tree.files.contains_key(file) && read_of(reads, file) == Ok::<
                Seq<char>,
                Seq<char>,
            >(text),
            Err(e) => if tree.files.contains_key(file) {
                read_of(reads, file) matches Err(why) && e == "Failed to read '"@ + file + "': "@
                    + why
            } else {
                e == "File '"@ + file + "' not found in index"@
            },
        },
{
}

// ---------------------------------------------------------------------------
// Searches that are refused
// ---------------------------------------------------------------------------

/// The name of a mode.
pub open spec fn is_mode_name(name: Seq<char>, mode: FileMatchMode) -> bool {
    match mode {
        FileMatchMode::Exact => name == "exact"@,
        FileMatchMode::Suffix => name == "suffix"@,
        FileMatchMode::Contains => name == "contains"@,
    }
}

/// A mode and a scope are called by their names, and by nothing else.
pub proof fn law_names_of_modes(name: Seq<char>, mode: FileMatchMode)
    ensures
        mode_named(name) == Some(mode) <==> is_mode_name(name, mode),
        is_mode_name(mode_name(mode), mode),
        scope_named(name) == Some(GrepScope::All) <==> name == "all"@,
        scope_named(name) == Some(GrepScope::Code) <==> name == "code"@,
{
    reveal_strlit("exact");
    reveal_strlit("suffix");
    reveal_strlit("contains");
    reveal_strlit("all");
    reveal_strlit("code");
    assert("exact"@.len() == 5 && "suffix"@.len() == 6 && "contains"@.len() == 8);
    assert("all"@.len() == 3 && "code"@.len() == 4);
}

/// A file of the index is let in.
pub open spec fn is_candidate(
    tree: FileTreeView,
    path: Seq<char>,
    filter: Seq<char>,
    mode: FileMatchMode,
) -> bool {
    tree.files.contains_key(path) && lets_in(path, Some(filter), Some(mode))
}

/// Why a search is refused: for a pattern that does not compile, with what is said of it;
/// for a mode without a filter; with a mode, where no file is let in, and where two are.
/// Otherwise it is not refused.
pub proof fn law_search_refused(
    tree: FileTreeView,
    pattern: Seq<char>,
    filter: Option<Seq<char>>,
    mode: Option<FileMatchMode>,
    name: Seq<char>,
    a: Seq<char>,
    b: Seq<char>,
)
    requires
        lists_in_order(sorted_keys(tree.files), tree.files),
        mode matches Some(m) ==> is_mode_name(name, m),
    ensures
        match (regex_outcome(pattern), filter, mode) {
            (Err(why), _, _) => grep_error(tree, pattern, filter, mode) == Some(
                "Invalid regex: "@ + why,
            ),
            (Ok(_), _, None) => grep_error(tree, pattern, filter, mode) is None,
            (Ok(_), None, Some(_)) => grep_error(tree, pattern, filter, mode) == Some(
                "file_match requires the file parameter"@,
            ),
            (Ok(_), Some(f), Some(m)) => {
                &&& grep_error(tree, pattern, filter, mode) is None && is_candidate(tree, a, f, m)
                    && is_candidate(tree, b, f, m) ==> a == b
                &&& (forall|p: Seq<char>| !#[trigger] is_candidate(tree, p, f, m)) ==> grep_error(
                    tree,
                    pattern,
                    filter,
                    mode,
                ) == Some("No file matched '"@ + f + "' with file_match="@ + name)
                &&& is_candidate(tree, a, f, m) && (forall|p: Seq<char>| #[trigger]
                    is_candidate(tree, p, f, m) ==> p == a) ==> grep_error(
                    tree,
                    pattern,
                    filter,
                    mode,
                ) is None
                &&& is_candidate(tree, a, f, m) && is_candidate(tree, b, f, m) && a != b ==> (
                grep_error(tree, pattern, filter, mode) matches Some(e) && "Ambiguous file filter '"@
                    .is_prefix_of(e))
            },
        },
{
    if let (Some(f), Some(m)) = (filter, mode) {
        let paths = sorted_keys(tree.files);
        let found = taken(paths, f, mode);
        lemma_taken(paths, f, mode);
        assert forall|p: Seq<char>| #[trigger] found.contains(p) <==> is_candidate(tree, p, f, m) by {
            law_filter(p, f, mode);
            assert(paths.contains(p) <==> tree.files.contains_key(p));
        }
        if is_candidate(tree, a, f, m) {
            assert(found.contains(a));
            let i = choose|i: int| 0 <= i < found.len() && found[i] == a;
            if is_candidate(tree, b, f, m) {
                assert(found.contains(b));
                let j = choose|j: int| 0 <= j < found.len() && found[j] == b;
                if a != b {
                    assert(i != j);
                    let e = grep_error(tree, pattern, filter, mode);
                    if regex_outcome(pattern) is Ok {
                        assert(found.len() > 1);
                        let head = "Ambiguous file filter '"@;
                        assert(head =~= e->0.subrange(0, head.len() as int));
                    }
                }
            }
        }
        if forall|p: Seq<char>| !#[trigger] is_candidate(tree, p, f, m) {
            if found.len() > 0 {
                assert(found.contains(found[0]));
            }
        }
        if is_candidate(tree, a, f, m) && (forall|p: Seq<char>| #[trigger]
            is_candidate(tree, p, f, m) ==> p == a) {
            if found.len() > 1 {
                lemma_taken_once(paths, f, mode);
                assert(found.contains(found[0]) && found.contains(found[1]));
            }
        }
    }
}

/// What a search answers: its pattern, the first of the lines found, as many as were asked
/// for, the number of all of them, and whether some were left out.
pub proof fn law_answer(
    r: GrepResponse,
    pattern: Seq<char>,
    all: Seq<GrepMatchView>,
    max_matches: usize,
    i: int,
)
    requires
        is_response(r, pattern, all, max_matches),
    ensures
        r.pattern@ == pattern,
        r.matches@.len() <= max_matches,
        r.matches@.len() == all.len() || r.matches@.len() == max_matches,
        0 <= i < r.matches@.len() ==> i < all.len() && r.matches@[i]@ == all[i],
        all.len() <= usize::MAX ==> r.total_matches == all.len(),
        all.len() <= usize::MAX ==> (r.truncated <==> all.len() > max_matches),
{
    let shown = grep_views(r.matches@);
    assert(shown.len() == r.matches@.len());
    law_first_of(all, max_matches as int);
    if 0 <= i < r.matches@.len() {
        assert(shown[i] == r.matches@[i]@);
    }
}

/// The characters that mean something in a pattern.
pub open spec fn means_something(c: char) -> bool {
    ||| c == '\\'
    ||| c == '.'
    ||| c == '+'
    ||| c == '*'
    ||| c == '?'
    ||| c == '('
    ||| c == ')'
    ||| c == '|'
    ||| c == '['
    ||| c == ']'
    ||| c == '{'
    ||| c == '}'
    ||| c == '^'
    ||| c == '$'
    ||| c == '#'
    ||| c == '&'
    ||| c == '-'
    ||| c == '~'
}

/// A text is escaped character by character: one that means something in a pattern gets a
/// backslash in front, and any other stays.
pub proof fn law_escaped(text: Seq<char>, c: char)
    ensures
        escaped_of(Seq::<char>::empty()).len() == 0,
        means_something(c) ==> escaped_of(text.push(c)) == escaped_of(text) + seq!['\\', c],
        !means_something(c) ==> escaped_of(text.push(c)) == escaped_of(text) + seq![c],
{
    assert(text.push(c).drop_last() =~= text);
    if means_something(c) {
        assert(escaped_of(text.push(c)) =~= escaped_of(text) + seq!['\\', c]);
    } else {
        assert(escaped_of(text.push(c)) =~= escaped_of(text) + seq![c]);
    }
}

/// The comments and strings of each language that is searched for code.
pub proof fn law_what_is_no_code()
    ensures
        non_code_query(Language::Rust) == Some(r#"
            (line_comment) @skip
            (block_comment) @skip
            (string_literal) @skip
            (raw_string_literal) @skip
        "#@),
        non_code_query(Language::Python) == Some(r#"
            (comment) @skip
            (string) @skip
        "#@),
        non_code_query(Language::TypeScript) == Some(r#"
            (comment) @skip
            (string) @skip
            (template_string) @skip
        "#@),
        non_code_query(Language::JavaScript) == Some(r#"
            (comment) @skip
            (string) @skip
            (template_string) @skip
        "#@),
        non_code_query(Language::Go) == Some(r#"
            (comment) @skip
            (raw_string_literal) @skip
            (interpreted_string_literal) @skip
        "#@),
        non_code_query(Language::Java) == Some(r#"
            (line_comment) @skip
            (block_comment) @skip
            (string_literal) @skip
        "#@),
        non_code_query(Language::Scala) == Some(r#"
            (comment) @skip
            (block_comment) @skip
            (string) @skip
            (interpolated_string_expression) @skip
        "#@),
        non_code_query(Language::Ruby) == Some(r#"
            (comment) @skip
            (string) @skip
            (heredoc_body) @skip
            (regex) @skip
        "#@),
        non_code_query(Language::Php) == Some(r#"
            (comment) @skip
            (string) @skip
            (encapsed_string) @skip
            (heredoc) @skip
            (nowdoc) @skip
        "#@),
        non_code_query(Language::Zig) == Some(r#"
            (comment) @skip
            (string) @skip
            (multiline_string) @skip
        "#@),
        non_code_query(Language::Elixir) == Some(r#"
            (comment) @skip
            (string) @skip
            (charlist) @skip
            (sigil) @skip
            (quoted_atom) @skip
            (quoted_keyword) @skip
        "#@),
        non_code_query(Language::Sql) is None,
        non_code_query(Language::Markdown) is None,
        non_code_query(Language::Other) is None,
{
}

} // verus!
