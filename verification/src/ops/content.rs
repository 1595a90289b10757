//! Reading, searching and chunking files.
use regex::Regex;
use vstd::prelude::*;
use crate::index::file_entry::{parsed_language, Language};
use crate::index::file_tree::{
    cached_ranges, copy_ranges, with_ranges, FileTree, FileTreeView,
};
use crate::maps::{first_of, lists_in_order, min, sorted_keys};
use crate::ops::ranges::{
    covers, is_in_excluded_range, is_merged, law_merging_keeps_cover, lemma_merged_within,
    merge_ranges, merged_ranges,
};
use crate::pattern::{compile, find_all, regex_finds, regex_outcome};
use crate::sorting::{in_order, text_order};
use crate::sources::{read_of, ReadView, Sources};
use crate::symbols::queries::{
    cache_after_tree, config_of, get_language_config, open_tree, tree_and_query, ConfigView,
    LanguageConfigs, Queries, QueryCache, QueryKind,
};
use crate::symbols::syntax::{
    all_lie_in, capture_views, lies_in, match_views, matches_of, query_matches, Capture,
    CaptureView,
};
use crate::text::{
    ascii_lower, byte_len, contains, decimal, decimal_of, ends_with, finishes_with, has_text,
    is_ascii_text, join, join_of, len_bytes, line_views, lines, lines_of, lowercase, pad_left,
    pad_left_of, same, to_lower, views, Line, LineView,
};

verus! {

// ---------------------------------------------------------------------------
// Errors
// ---------------------------------------------------------------------------

/// The message for a file that is not indexed.
pub open spec fn not_indexed(file: Seq<char>) -> Seq<char> {
    "File '"@ + file + "' not found in index"@
}

/// The message for a file that cannot be read.
pub open spec fn not_readable(file: Seq<char>, error: Seq<char>) -> Seq<char> {
    "Failed to read '"@ + file + "': "@ + error
}

/// The message for a file that is not indexed.
pub(crate) fn not_indexed_message(file: &str) -> (r: String)
    ensures
        r@ == not_indexed(file@),
{
    let mut m = "File '".to_string();
    m.append(file);
    m.append("' not found in index");
    m
}

/// The message for a file that cannot be read.
pub(crate) fn not_readable_message(file: &str, error: &str) -> (r: String)
    ensures
        r@ == not_readable(file@, error@),
{
    let mut m = "Failed to read '".to_string();
    m.append(file);
    m.append("': ");
    m.append(error);
    m
}

/// The text of an indexed file, or the message of what is in the way.
pub open spec fn indexed_text(
    tree: FileTreeView,
    reads: Map<Seq<char>, ReadView>,
    file: Seq<char>,
) -> Result<Seq<char>, Seq<char>> {
    if !tree.files.contains_key(file) {
        Err(not_indexed(file))
    } else {
        match read_of(reads, file) {
            Ok(text) => Ok(text),
            Err(e) => Err(not_readable(file, e)),
        }
    }
}

/// The text of an indexed file, or the message of what is in the way.
fn load(sources: &Sources, file_tree: &FileTree, file: &str) -> (r: Result<String, String>)
    ensures
        crate::sources::read_view(r) == indexed_text(file_tree@, sources@, file@),
{
    if file_tree.get(file).is_none() {
        return Err(not_indexed_message(file));
    }
    match sources.read(file) {
        Ok(text) => Ok(text),
        Err(e) => Err(not_readable_message(file, e.as_str())),
    }
}

/// The smaller of two numbers.
fn smaller(a: usize, b: usize) -> (r: usize)
    ensures
        r == min(a as int, b as int),
{
    if a <= b {
        a
    } else {
        b
    }
}

// ---------------------------------------------------------------------------
// Lines of a file
// ---------------------------------------------------------------------------

/// Lines of a file.
pub struct PeekView {
    pub file: Seq<char>,
    pub start_line: usize,
    pub end_line: usize,
    pub total_lines: usize,
    pub content: Seq<char>,
}

/// Lines of a file: which ones (from 1), how many the file has, and their text.
#[derive(Debug, PartialEq, Eq)]
pub struct PeekResponse {
    pub file: String,
    pub start_line: usize,
    pub end_line: usize,
    pub total_lines: usize,
    pub content: String,
}

impl View for PeekResponse {
    type V = PeekView;

    open spec fn view(&self) -> PeekView {
        PeekView {
            file: self.file@,
            start_line: self.start_line,
            end_line: self.end_line,
            total_lines: self.total_lines,
            content: self.content@,
        }
    }
}

/// A line with its number in front.
pub open spec fn numbered(number: int, text: Seq<char>) -> Seq<char> {
    pad_left_of(decimal_of(number as nat), 6) + " │ "@ + text
}

/// The lines `from..to` (from 0), each with its number (from 1) in front.
pub open spec fn numbered_lines(rows: Seq<LineView>, from: int, to: int) -> Seq<Seq<char>> {
    Seq::new((to - from) as nat, |i: int| numbered(from + i + 1, rows[from + i].text))
}

/// The lines `start..end` of a text (from 0), as far as it has them.
pub open spec fn peeked(file: Seq<char>, text: Seq<char>, start: usize, end: usize) -> PeekView {
    let rows = lines_of(text);
    let from = min(start as int, rows.len() as int);
    let to = min(end as int, rows.len() as int);
    PeekView {
        file,
        start_line: (from + 1) as usize,
        end_line: to as usize,
        total_lines: rows.len() as usize,
        content: join_of(numbered_lines(rows, from, to), "\n"@),
    }
}

/// The lines `start..end` of a text can be taken: as far as it has them, the
/// first is not behind the last, and its number can be told.
pub open spec fn can_peek(text: Seq<char>, start: usize, end: usize) -> bool {
    let total = lines_of(text).len() as int;
    &&& min(start as int, total) <= min(end as int, total)
    &&& min(start as int, total) < usize::MAX
}

/// A line with its number in front.
fn number_line(number: usize, text: &str) -> (r: String)
    ensures
        r@ == numbered(number as int, text@),
{
    let digits = decimal(number);
    let mut line = pad_left(digits.as_str(), 6);
    line.append(" │ ");
    line.append(text);
    line
}

/// Reads the lines `start..end` of an indexed file (from 0), as far as it has
/// them.
pub fn peek(
    sources: &Sources,
    file_tree: &FileTree,
    file: &str,
    start: usize,
    end: usize,
) -> (r: Result<PeekResponse, String>)
    requires
        indexed_text(file_tree@, sources@, file@) matches Ok(text) ==> can_peek(text, start, end),
    ensures
        match r {
            Ok(p) => indexed_text(file_tree@, sources@, file@) matches Ok(text) && p@ == peeked(
                file@,
                text,
                start,
                end,
            ),
            Err(e) => indexed_text(file_tree@, sources@, file@) == Err::<Seq<char>, Seq<char>>(e@),
        },
{
    let source = match load(sources, file_tree, file) {
        Ok(s) => s,
        Err(e) => return Err(e),
    };
    let rows = lines(source.as_str());
    let ghost all = line_views(rows@);
    let total: usize = rows.len();
    assert(all.len() == total);
    let from = smaller(start, total);
    let to = smaller(end, total);
    let mut shown: Vec<String> = Vec::new();
    let mut i: usize = from;
    while i < to
        invariant
            from <= i <= to <= total == rows@.len(),
            all == line_views(rows@),
            shown@.len() == i - from,
            forall|k: int|
                0 <= k < i - from ==> (#[trigger] shown@[k])@ == numbered(
                    from + k + 1,
                    all[from + k].text,
                ),
        decreases to - i,
    {
        let line = number_line(i + 1, rows[i].text.as_str());
        assert(all[i as int].text == rows@[i as int].text@);
        shown.push(line);
        i = i + 1;
    }
    assert(views(shown@) =~= numbered_lines(all, from as int, to as int));
    let content = join(&shown, "\n");
    Ok(
        PeekResponse {
            file: file.to_owned(),
            start_line: from + 1,
            end_line: to,
            total_lines: total,
            content,
        },
    )
}

// ---------------------------------------------------------------------------
// Chunks of a file
// ---------------------------------------------------------------------------

/// A chunk of a file: its number and its bytes.
#[derive(Debug, Clone, Copy, PartialEq, Eq, Structural)]
pub struct ChunkInfo {
    pub index: usize,
    pub start: usize,
    pub end: usize,
}

/// The chunks of a file.
pub struct ChunksView {
    pub file: Seq<char>,
    pub total_bytes: usize,
    pub chunk_size: usize,
    pub overlap: usize,
    pub chunks: Seq<ChunkInfo>,
}

/// The chunks of a file.
#[derive(Debug, PartialEq, Eq)]
pub struct ChunkIndicesResponse {
    pub file: String,
    pub total_bytes: usize,
    pub chunk_size: usize,
    pub overlap: usize,
    pub chunks: Vec<ChunkInfo>,
}

impl View for ChunkIndicesResponse {
    type V = ChunksView;

    open spec fn view(&self) -> ChunksView {
        ChunksView {
            file: self.file@,
            total_bytes: self.total_bytes,
            chunk_size: self.chunk_size,
            overlap: self.overlap,
            chunks: self.chunks@,
        }
    }
}

/// The chunks of `total` bytes. Each has `size` bytes, the last one what is left;
/// each starts `overlap` bytes before the end of the one in front; and the first
/// one that reaches the end is the last.
pub open spec fn is_chunking(
    chunks: Seq<ChunkInfo>,
    total: int,
    size: int,
    overlap: int,
) -> bool {
    &&& total == 0 <==> chunks.len() == 0
    &&& forall|i: int|
        0 <= i < chunks.len() ==> {
            &&& (#[trigger] chunks[i]).index == i
            &&& chunks[i].start == i * (size - overlap)
            &&& chunks[i].start < total
            &&& chunks[i].end == min(chunks[i].start + size, total)
            &&& chunks[i].end == total <==> i == chunks.len() - 1
        }
}

/// What asking for the chunks of a file gives.
pub open spec fn chunk_error(
    tree: FileTreeView,
    reads: Map<Seq<char>, ReadView>,
    file: Seq<char>,
    size: usize,
    overlap: usize,
) -> Option<Seq<char>> {
    if size == 0 {
        Some("Chunk size must be > 0"@)
    } else if overlap >= size {
        Some("Overlap must be < chunk size"@)
    } else {
        match indexed_text(tree, reads, file) {
            Ok(_) => None,
            Err(e) => Some(e),
        }
    }
}

/// Computes the chunks of an indexed file: ranges of `size` bytes, each of which
/// has `overlap` bytes in common with the next.
pub fn chunk_indices(
    sources: &Sources,
    file_tree: &FileTree,
    file: &str,
    size: usize,
    overlap: usize,
) -> (r: Result<ChunkIndicesResponse, String>)
    ensures
        match r {
            Ok(c) => {
                &&& chunk_error(file_tree@, sources@, file@, size, overlap) is None
                &&& c@.file == file@
                &&& c@.total_bytes == byte_len(indexed_text(file_tree@, sources@, file@)->Ok_0)
                &&& c@.chunk_size == size
                &&& c@.overlap == overlap
                &&& is_chunking(c@.chunks, c@.total_bytes as int, size as int, overlap as int)
            },
            Err(e) => chunk_error(file_tree@, sources@, file@, size, overlap) == Some(e@),
        },
{
    if size == 0 {
        return Err("Chunk size must be > 0".to_string());
    }
    if overlap >= size {
        return Err("Overlap must be < chunk size".to_string());
    }
    let source = match load(sources, file_tree, file) {
        Ok(s) => s,
        Err(e) => return Err(e),
    };
    let total_bytes: usize = len_bytes(source.as_str());
    let chunks = chunk_bytes(total_bytes, size, overlap);
    Ok(
        ChunkIndicesResponse {
            file: file.to_owned(),
            total_bytes,
            chunk_size: size,
            overlap,
            chunks,
        },
    )
}

/// The chunks of `total` bytes.
pub fn chunk_bytes(total: usize, size: usize, overlap: usize) -> (r: Vec<ChunkInfo>)
    requires
        overlap < size,
    ensures
        is_chunking(r@, total as int, size as int, overlap as int),
{
    let step: usize = size - overlap;
    let mut chunks: Vec<ChunkInfo> = Vec::new();
    let mut start: usize = 0;
    let mut index: usize = 0;
    let mut done = total == 0;
    while !done
        invariant
            step == size - overlap,
            overlap < size,
            done ==> is_chunking(chunks@, total as int, size as int, overlap as int),
            !done ==> start < total && start == index * step && index <= start
                && chunks@.len() == index,
            forall|i: int|
                0 <= i < chunks@.len() ==> {
                    &&& (#[trigger] chunks@[i]).index == i
                    &&& chunks@[i].start == i * step
                    &&& chunks@[i].start < total
                    &&& chunks@[i].end == min(chunks@[i].start + size, total as int)
                    &&& !done ==> chunks@[i].end < total
                },
        decreases (if done { 0int } else { 1int }), total - start,
    {
        let end: usize = if size >= total - start {
            total
        } else {
            start + size
        };
        chunks.push(ChunkInfo { index, start, end });
        if end >= total {
            assert forall|i: int| 0 <= i < chunks@.len() implies {
                &&& (#[trigger] chunks@[i]).index == i
                &&& chunks@[i].start == i * (size - overlap)
                &&& chunks@[i].start < total
                &&& chunks@[i].end == min(chunks@[i].start + size, total as int)
                &&& chunks@[i].end == total <==> i == chunks@.len() - 1
            } by {
                assert(i * step == i * (size - overlap));
            }
            done = true;
        } else {
            assert((index + 1) * step == index * step + step) by (nonlinear_arith);
            start = start + step;
            index = index + 1;
        }
    }
    chunks
}

/// Each chunk but the last has exactly `overlap` bytes in common with the next.
pub proof fn law_chunks_overlap(
    chunks: Seq<ChunkInfo>,
    total: int,
    size: int,
    overlap: int,
    i: int,
)
    requires
        0 <= overlap < size,
        is_chunking(chunks, total, size, overlap),
        0 <= i < chunks.len() - 1,
    ensures
        chunks[i].end - chunks[i + 1].start == overlap,
{
    assert((i + 1) * (size - overlap) == i * (size - overlap) + (size - overlap))
        by (nonlinear_arith);
    assert(chunks[i].end != total);
    assert(chunks[i + 1].start == (i + 1) * (size - overlap));
}

/// Every byte of the file lies in a chunk.
pub proof fn law_chunks_cover(
    chunks: Seq<ChunkInfo>,
    total: int,
    size: int,
    overlap: int,
    b: int,
)
    requires
        0 <= overlap < size,
        is_chunking(chunks, total, size, overlap),
        0 <= b < total,
    ensures
        exists|i: int| 0 <= i < chunks.len() && (#[trigger] chunks[i]).start <= b < chunks[i].end,
{
    lemma_chunk_behind(chunks, total, size, overlap, b, chunks.len() - 1);
}

/// A byte in front of the end of chunk `n` lies in a chunk.
proof fn lemma_chunk_behind(
    chunks: Seq<ChunkInfo>,
    total: int,
    size: int,
    overlap: int,
    b: int,
    n: int,
)
    requires
        0 <= overlap < size,
        is_chunking(chunks, total, size, overlap),
        0 <= n < chunks.len(),
        0 <= b < chunks[n].end,
    ensures
        exists|i: int| 0 <= i < chunks.len() && (#[trigger] chunks[i]).start <= b < chunks[i].end,
    decreases n,
{
    if chunks[n].start > b {
        assert(n > 0) by {
            if n == 0 {
                assert(0 * (size - overlap) == 0);
            }
        }
        law_chunks_overlap(chunks, total, size, overlap, n - 1);
        lemma_chunk_behind(chunks, total, size, overlap, b, n - 1);
    }
}

// ---------------------------------------------------------------------------
// Bytes that are not code
// ---------------------------------------------------------------------------

pub const RUST_NON_CODE: &'static str = r#"
            (line_comment) @skip
            (block_comment) @skip
            (string_literal) @skip
            (raw_string_literal) @skip
        "#;

pub const PYTHON_NON_CODE: &'static str = r#"
            (comment) @skip
            (string) @skip
        "#;

pub const TYPESCRIPT_NON_CODE: &'static str = r#"
            (comment) @skip
            (string) @skip
            (template_string) @skip
        "#;

pub const GO_NON_CODE: &'static str = r#"
            (comment) @skip
            (raw_string_literal) @skip
            (interpreted_string_literal) @skip
        "#;

pub const JAVA_NON_CODE: &'static str = r#"
            (line_comment) @skip
            (block_comment) @skip
            (string_literal) @skip
        "#;

pub const SCALA_NON_CODE: &'static str = r#"
            (comment) @skip
            (block_comment) @skip
            (string) @skip
            (interpolated_string_expression) @skip
        "#;

pub const RUBY_NON_CODE: &'static str = r#"
            (comment) @skip
            (string) @skip
            (heredoc_body) @skip
            (regex) @skip
        "#;

pub const PHP_NON_CODE: &'static str = r#"
            (comment) @skip
            (string) @skip
            (encapsed_string) @skip
            (heredoc) @skip
            (nowdoc) @skip
        "#;

pub const ZIG_NON_CODE: &'static str = r#"
            (comment) @skip
            (string) @skip
            (multiline_string) @skip
        "#;

pub const ELIXIR_NON_CODE: &'static str = r#"
            (comment) @skip
            (string) @skip
            (charlist) @skip
            (sigil) @skip
            (quoted_atom) @skip
            (quoted_keyword) @skip
        "#;

/// The query for the comments and strings of a language.
pub open spec fn non_code_query(language: Language) -> Option<Seq<char>> {
    match language {
        Language::Rust => Some(RUST_NON_CODE@),
        Language::Python => Some(PYTHON_NON_CODE@),
        Language::TypeScript | Language::JavaScript => Some(TYPESCRIPT_NON_CODE@),
        Language::Go => Some(GO_NON_CODE@),
        Language::Java => Some(JAVA_NON_CODE@),
        Language::Scala => Some(SCALA_NON_CODE@),
        Language::Ruby => Some(RUBY_NON_CODE@),
        Language::Php => Some(PHP_NON_CODE@),
        Language::Zig => Some(ZIG_NON_CODE@),
        Language::Elixir => Some(ELIXIR_NON_CODE@),
        _ => None,
    }
}

/// The query for the comments and strings of a language.
fn non_code_query_text(language: Language) -> (r: Option<&'static str>)
    ensures
        opt_str(r) == non_code_query(language),
{
    match language {
        Language::Rust => Some(RUST_NON_CODE),
        Language::Python => Some(PYTHON_NON_CODE),
        Language::TypeScript | Language::JavaScript => Some(TYPESCRIPT_NON_CODE),
        Language::Go => Some(GO_NON_CODE),
        Language::Java => Some(JAVA_NON_CODE),
        Language::Scala => Some(SCALA_NON_CODE),
        Language::Ruby => Some(RUBY_NON_CODE),
        Language::Php => Some(PHP_NON_CODE),
        Language::Zig => Some(ZIG_NON_CODE),
        Language::Elixir => Some(ELIXIR_NON_CODE),
        _ => None,
    }
}

/// The characters of an optional string.
pub open spec fn opt_str(s: Option<&str>) -> Option<Seq<char>> {
    match s {
        Some(t) => Some(t@),
        None => None,
    }
}

/// The byte ranges of the nodes of a match.
pub open spec fn node_ranges(captures: Seq<CaptureView>) -> Seq<(usize, usize)> {
    Seq::new(captures.len(), |i: int| (captures[i].node.start_byte, captures[i].node.end_byte))
}

/// The byte ranges of the nodes of all matches.
pub open spec fn captured_ranges(matches: Seq<Seq<CaptureView>>) -> Seq<(usize, usize)>
    decreases matches.len(),
{
    if matches.len() == 0 {
        Seq::empty()
    } else {
        captured_ranges(matches.drop_last()) + node_ranges(matches.last())
    }
}

/// The bytes of a text that lie in comments and strings, as merged ranges; none
/// where they cannot be told.
pub open spec fn non_code_ranges(
    config: Option<ConfigView>,
    cache: Queries,
    source: Seq<char>,
    language: Language,
) -> Seq<(usize, usize)> {
    match (config, non_code_query(language)) {
        (Some(c), Some(text)) => match tree_and_query(
            cache,
            language,
            QueryKind::NonCode,
            c.language,
            text,
            source,
        ) {
            Some((tree, query)) => merged_ranges(
                captured_ranges(query_matches(tree, query, source, None)),
            ),
            None => Seq::empty(),
        },
        _ => Seq::empty(),
    }
}

/// The cache of queries once the comments and strings of a text have been looked for.
pub open spec fn cache_after_ranges(
    config: Option<ConfigView>,
    cache: Queries,
    source: Seq<char>,
    language: Language,
) -> Queries {
    match (config, non_code_query(language)) {
        (Some(c), Some(text)) => cache_after_tree(
            cache,
            language,
            QueryKind::NonCode,
            c.language,
            text,
            source,
        ),
        _ => cache,
    }
}

/// The byte ranges of the nodes of all matches.
pub fn ranges_of_matches(matches: &Vec<Vec<Capture>>) -> (r: Vec<(usize, usize)>)
    ensures
        r@ == captured_ranges(match_views(matches@)),
{
    let ghost all = match_views(matches@);
    let mut out: Vec<(usize, usize)> = Vec::new();
    let mut i: usize = 0;
    assert(all.take(0) =~= Seq::empty());
    while i < matches.len()
        invariant
            i <= matches@.len(),
            all == match_views(matches@),
            out@ == captured_ranges(all.take(i as int)),
        decreases matches@.len() - i,
    {
        let ghost before = out@;
        let ghost caps = capture_views(matches@[i as int]@);
        let mut j: usize = 0;
        assert(before + node_ranges(caps).take(0) =~= before);
        while j < matches[i].len()
            invariant
                i < matches@.len(),
                j <= matches@[i as int]@.len(),
                caps == capture_views(matches@[i as int]@),
                out@ == before + node_ranges(caps).take(j as int),
            decreases matches@[i as int]@.len() - j,
        {
            let ghost seen = out@;
            out.push((matches[i][j].node.start_byte, matches[i][j].node.end_byte));
            assert(node_ranges(caps)[j as int] == out@.last());
            assert(out@ =~= before + node_ranges(caps).take(j + 1));
            j = j + 1;
        }
        assert(node_ranges(caps).take(j as int) =~= node_ranges(caps));
        assert(all.take(i + 1).drop_last() =~= all.take(i as int));
        assert(all.take(i + 1).last() == caps);
        i = i + 1;
    }
    assert(all.take(i as int) =~= all);
    out
}

/// The ranges of nodes that lie in a text end in it.
proof fn lemma_ranges_lie(matches: Seq<Seq<CaptureView>>, source: Seq<char>)
    requires
        all_lie_in(matches, source),
    ensures
        forall|i: int|
            0 <= i < captured_ranges(matches).len() ==> (#[trigger] captured_ranges(matches)[i]).1
                <= byte_len(source),
    decreases matches.len(),
{
    if matches.len() > 0 {
        let rest = matches.drop_last();
        let n = matches.len() - 1;
        assert forall|i: int, j: int|
            0 <= i < rest.len() && 0 <= j < rest[i].len() implies lies_in(
            (#[trigger] rest[i][j]).node,
            source,
        ) by {
            assert(rest[i][j] == matches[i][j]);
        }
        lemma_ranges_lie(rest, source);
        let before = captured_ranges(rest);
        let here = node_ranges(matches[n]);
        let all = captured_ranges(matches);
        assert forall|i: int| 0 <= i < all.len() implies (#[trigger] all[i]).1 <= byte_len(
            source,
        ) by {
            if i < before.len() {
                assert(all[i] == before[i]);
            } else {
                let j = i - before.len();
                assert(all[i] == here[j]);
                assert(lies_in(matches[n][j].node, source));
            }
        }
    }
}

/// Computes the byte ranges of the comments and strings of a text: in order, apart, and
/// within the text.
pub fn compute_non_code_ranges(
    configs: &LanguageConfigs,
    cache: &mut QueryCache,
    source: &str,
    language: Language,
) -> (r: Vec<(usize, usize)>)
    ensures
        r@ == non_code_ranges(config_of(configs@, language), old(cache)@, source@, language),
        final(cache)@ == cache_after_ranges(
            config_of(configs@, language),
            old(cache)@,
            source@,
            language,
        ),
        is_merged(r@),
        forall|i: int| 0 <= i < r@.len() ==> (#[trigger] r@[i]).1 <= byte_len(source@),
{
    let config = match get_language_config(configs, language) {
        Some(c) => c,
        None => return Vec::new(),
    };
    let text = match non_code_query_text(language) {
        Some(t) => t,
        None => return Vec::new(),
    };
    let (tree, query) = match open_tree(
        cache,
        language,
        QueryKind::NonCode,
        &config.language,
        text,
        source,
    ) {
        Some(pair) => pair,
        None => return Vec::new(),
    };
    let matches = matches_of(&tree, query.query(), source, None);
    let ranges = ranges_of_matches(&matches);
    proof {
        lemma_ranges_lie(match_views(matches@), source@);
        lemma_merged_within(ranges@, byte_len(source@) as int);
    }
    merge_ranges(ranges)
}

// ---------------------------------------------------------------------------
// Which files are searched
// ---------------------------------------------------------------------------

/// Which matches a search takes.
#[derive(Debug, Clone, Copy, PartialEq, Eq, Structural)]
pub enum GrepScope {
    /// Matches anywhere.
    All,
    /// Matches in code only: not those in comments and strings.
    Code,
}

/// How the file filter of a search is matched with paths.
#[derive(Debug, Clone, Copy, PartialEq, Eq, Structural)]
pub enum FileMatchMode {
    /// The path is the filter.
    Exact,
    /// The path ends with the filter.
    Suffix,
    /// The path contains the filter.
    Contains,
}

/// The mode with this name.
pub open spec fn mode_named(name: Seq<char>) -> Option<FileMatchMode> {
    if name == "exact"@ {
        Some(FileMatchMode::Exact)
    } else if name == "suffix"@ {
        Some(FileMatchMode::Suffix)
    } else if name == "contains"@ {
        Some(FileMatchMode::Contains)
    } else {
        None
    }
}

/// The name of a mode.
pub open spec fn mode_name(mode: FileMatchMode) -> Seq<char> {
    match mode {
        FileMatchMode::Exact => "exact"@,
        FileMatchMode::Suffix => "suffix"@,
        FileMatchMode::Contains => "contains"@,
    }
}

/// The scope with this name.
pub open spec fn scope_named(name: Seq<char>) -> Option<GrepScope> {
    if name == "all"@ {
        Some(GrepScope::All)
    } else if name == "code"@ {
        Some(GrepScope::Code)
    } else {
        None
    }
}

/// A mode takes a path.
pub open spec fn mode_takes(mode: FileMatchMode, path: Seq<char>, filter: Seq<char>) -> bool {
    match mode {
        FileMatchMode::Exact => path == filter,
        FileMatchMode::Suffix => finishes_with(path, filter),
        FileMatchMode::Contains => has_text(path, filter),
    }
}

impl FileMatchMode {
    /// The mode with this name, letter case aside.
    pub fn from_str(s: &str) -> (r: Option<Self>)
        ensures
            r == mode_named(lowercase(s@)),
            is_ascii_text(s@) ==> r == mode_named(ascii_lower(s@)),
    {
        let name = to_lower(s);
        if same(name.as_str(), "exact") {
            Some(FileMatchMode::Exact)
        } else if same(name.as_str(), "suffix") {
            Some(FileMatchMode::Suffix)
        } else if same(name.as_str(), "contains") {
            Some(FileMatchMode::Contains)
        } else {
            None
        }
    }

    /// The name of the mode.
    pub fn as_str(self) -> (r: &'static str)
        ensures
            r@ == mode_name(self),
    {
        match self {
            FileMatchMode::Exact => "exact",
            FileMatchMode::Suffix => "suffix",
            FileMatchMode::Contains => "contains",
        }
    }

    /// Whether the mode takes a path.
    pub fn matches(self, path: &str, filter: &str) -> (r: bool)
        ensures
            r == mode_takes(self, path@, filter@),
    {
        match self {
            FileMatchMode::Exact => same(path, filter),
            FileMatchMode::Suffix => ends_with(path, filter),
            FileMatchMode::Contains => contains(path, filter),
        }
    }
}

impl GrepScope {
    /// The scope with this name, letter case aside.
    pub fn from_str(s: &str) -> (r: Option<Self>)
        ensures
            r == scope_named(lowercase(s@)),
            is_ascii_text(s@) ==> r == scope_named(ascii_lower(s@)),
    {
        let name = to_lower(s);
        if same(name.as_str(), "all") {
            Some(GrepScope::All)
        } else if same(name.as_str(), "code") {
            Some(GrepScope::Code)
        } else {
            None
        }
    }
}

/// A filter takes a path. Without a mode it takes every path that is the filter,
/// contains it or ends with it.
pub open spec fn filter_takes(
    path: Seq<char>,
    filter: Seq<char>,
    mode: Option<FileMatchMode>,
) -> bool {
    match mode {
        Some(m) => mode_takes(m, path, filter),
        None => path == filter || has_text(path, filter) || finishes_with(path, filter),
    }
}

/// The paths that a filter takes, in their order.
pub open spec fn taken(
    paths: Seq<Seq<char>>,
    filter: Seq<char>,
    mode: Option<FileMatchMode>,
) -> Seq<Seq<char>>
    decreases paths.len(),
{
    if paths.len() == 0 {
        Seq::empty()
    } else if filter_takes(paths.last(), filter, mode) {
        taken(paths.drop_last(), filter, mode).push(paths.last())
    } else {
        taken(paths.drop_last(), filter, mode)
    }
}

/// The message for a filter that takes no path.
pub open spec fn no_match(filter: Seq<char>, mode: FileMatchMode) -> Seq<char> {
    "No file matched '"@ + filter + "' with file_match="@ + mode_name(mode)
}

/// The message for a filter that takes more than one path.
pub open spec fn ambiguous(
    filter: Seq<char>,
    mode: FileMatchMode,
    paths: Seq<Seq<char>>,
) -> Seq<char> {
    "Ambiguous file filter '"@ + filter + "' with file_match="@ + mode_name(mode) + " matched "@
        + decimal_of(paths.len()) + " files: "@ + join_of(paths, ", "@)
}

/// The paths that are searched. With a mode, the filter has to take exactly one.
pub open spec fn searched_paths(
    paths: Seq<Seq<char>>,
    filter: Option<Seq<char>>,
    mode: Option<FileMatchMode>,
) -> Result<Seq<Seq<char>>, Seq<char>> {
    match (filter, mode) {
        (None, None) => Ok(paths),
        (None, Some(_)) => Err("file_match requires the file parameter"@),
        (Some(f), None) => Ok(taken(paths, f, None)),
        (Some(f), Some(m)) => {
            let found = taken(paths, f, mode);
            if found.len() == 0 {
                Err(no_match(f, m))
            } else if found.len() > 1 {
                Err(ambiguous(f, m, found))
            } else {
                Ok(found)
            }
        },
    }
}

/// The outcome of choosing paths.
pub open spec fn paths_view(r: Result<Vec<String>, String>) -> Result<Seq<Seq<char>>, Seq<char>> {
    match r {
        Ok(v) => Ok(views(v@)),
        Err(e) => Err(e@),
    }
}

/// The paths that a filter takes, in their order.
fn keep_taken(paths: &Vec<String>, filter: &str, mode: Option<FileMatchMode>) -> (r: Vec<String>)
    ensures
        views(r@) == taken(views(paths@), filter@, mode),
{
    let ghost all = views(paths@);
    let mut out: Vec<String> = Vec::new();
    let mut i: usize = 0;
    assert(all.take(0) =~= Seq::empty());
    assert(views(out@) =~= Seq::empty());
    while i < paths.len()
        invariant
            i <= paths@.len(),
            all == views(paths@),
            views(out@) == taken(all.take(i as int), filter@, mode),
        decreases paths@.len() - i,
    {
        let path = paths[i].as_str();
        let ghost before = views(out@);
        assert(all.take(i + 1).drop_last() =~= all.take(i as int));
        assert(all.take(i + 1).last() == path@);
        let keep = match mode {
            Some(m) => m.matches(path, filter),
            None => same(path, filter) || contains(path, filter) || ends_with(path, filter),
        };
        if keep {
            out.push(paths[i].clone());
            assert(views(out@) =~= before.push(path@));
        }
        i = i + 1;
    }
    assert(all.take(i as int) =~= all);
    out
}

/// Chooses the paths that are searched.
pub fn filter_grep_paths(
    paths: Vec<String>,
    file_filter: Option<&str>,
    file_match: Option<FileMatchMode>,
) -> (r: Result<Vec<String>, String>)
    ensures
        paths_view(r) == searched_paths(views(paths@), opt_str(file_filter), file_match),
{
    let filter = match file_filter {
        Some(f) => f,
        None => {
            if file_match.is_some() {
                return Err("file_match requires the file parameter".to_string());
            }
            return Ok(paths);
        },
    };
    let kept = keep_taken(&paths, filter, file_match);
    assert(views(kept@).len() == kept@.len());
    match file_match {
        Some(mode) => {
            if kept.len() == 0 {
                let mut m = "No file matched '".to_string();
                m.append(filter);
                m.append("' with file_match=");
                m.append(mode.as_str());
                return Err(m);
            }
            if kept.len() > 1 {
                let count = decimal(kept.len());
                let listed = join(&kept, ", ");
                let mut m = "Ambiguous file filter '".to_string();
                m.append(filter);
                m.append("' with file_match=");
                m.append(mode.as_str());
                m.append(" matched ");
                m.append(count.as_str());
                m.append(" files: ");
                m.append(listed.as_str());
                return Err(m);
            }
            Ok(kept)
        },
        None => Ok(kept),
    }
}

/// What a filter takes are paths of the list that it takes, and all of them.
pub proof fn lemma_taken(paths: Seq<Seq<char>>, filter: Seq<char>, mode: Option<FileMatchMode>)
    ensures
        forall|p: Seq<char>| #[trigger]
            taken(paths, filter, mode).contains(p) <==> paths.contains(p) && filter_takes(
                p,
                filter,
                mode,
            ),
    decreases paths.len(),
{
    let t = taken(paths, filter, mode);
    if paths.len() > 0 {
        let rest = paths.drop_last();
        lemma_taken(rest, filter, mode);
        let u = taken(rest, filter, mode);
        assert forall|p: Seq<char>| #[trigger] t.contains(p) <==> paths.contains(p) && filter_takes(
            p,
            filter,
            mode,
        ) by {
            if t.contains(p) {
                let i = choose|i: int| 0 <= i < t.len() && t[i] == p;
                if i < u.len() {
                    assert(u[i] == p);
                    assert(u.contains(p));
                    let j = choose|j: int| 0 <= j < rest.len() && rest[j] == p;
                    assert(paths[j] == p);
                } else {
                    assert(paths[paths.len() - 1] == p);
                }
            }
            if paths.contains(p) && filter_takes(p, filter, mode) {
                let j = choose|j: int| 0 <= j < paths.len() && paths[j] == p;
                if j < rest.len() {
                    assert(rest[j] == p);
                    assert(u.contains(p));
                    let i = choose|i: int| 0 <= i < u.len() && u[i] == p;
                    assert(t[i] == p);
                } else {
                    assert(t.last() == p);
                }
            }
        }
    }
}

/// With a mode, a search that is not refused goes through exactly one file, which
/// the mode takes; and it is not refused where there is exactly one such file.
pub proof fn law_mode_resolves_to_one(
    paths: Seq<Seq<char>>,
    filter: Seq<char>,
    mode: FileMatchMode,
)
    ensures
        ({
            let outcome = searched_paths(paths, Some(filter), Some(mode));
            &&& outcome is Ok <==> taken(paths, filter, Some(mode)).len() == 1
            &&& outcome matches Ok(found) ==> found.len() == 1 && paths.contains(found[0])
                && mode_takes(mode, found[0], filter)
        }),
{
    lemma_taken(paths, filter, Some(mode));
    let found = taken(paths, filter, Some(mode));
    if found.len() == 1 {
        assert(found.contains(found[0]));
    }
}

// ---------------------------------------------------------------------------
// Searching
// ---------------------------------------------------------------------------

/// A line with a match.
pub struct GrepMatchView {
    pub file: Seq<char>,
    pub line: usize,
    pub text: Seq<char>,
    pub context_before: Seq<Seq<char>>,
    pub context_after: Seq<Seq<char>>,
}

/// A line with a match: its file, its number (from 1), its text, and the lines
/// around it.
#[derive(Debug, PartialEq, Eq)]
pub struct GrepMatch {
    pub file: String,
    pub line: usize,
    pub text: String,
    pub context_before: Vec<String>,
    pub context_after: Vec<String>,
}

impl View for GrepMatch {
    type V = GrepMatchView;

    open spec fn view(&self) -> GrepMatchView {
        GrepMatchView {
            file: self.file@,
            line: self.line,
            text: self.text@,
            context_before: views(self.context_before@),
            context_after: views(self.context_after@),
        }
    }
}

/// The matches of a list.
pub open spec fn grep_views(v: Seq<GrepMatch>) -> Seq<GrepMatchView> {
    v.map_values(|m: GrepMatch| m@)
}

/// What a search found: the matches, as many as were asked for, how many there
/// are, and whether some were left out.
#[derive(Debug, PartialEq, Eq)]
pub struct GrepResponse {
    pub pattern: String,
    pub matches: Vec<GrepMatch>,
    pub total_matches: usize,
    pub truncated: bool,
}

/// The lines `from..to` of a file.
pub open spec fn texts_between(rows: Seq<LineView>, from: int, to: int) -> Seq<Seq<char>> {
    Seq::new((to - from) as nat, |i: int| rows[from + i].text)
}

/// Line `i` of a file as a match, with up to `context` lines on either side.
pub open spec fn match_at(
    file: Seq<char>,
    rows: Seq<LineView>,
    i: int,
    context: int,
) -> GrepMatchView {
    GrepMatchView {
        file,
        line: (i + 1) as usize,
        text: rows[i].text,
        context_before: texts_between(rows, if context <= i { i - context } else { 0 }, i),
        context_after: texts_between(rows, i + 1, min(i + context + 1, rows.len() as int)),
    }
}

/// A match of a line that starts at byte `start` lies in code: it starts outside the
/// ranges that are not code.
pub open spec fn in_code(
    found: (usize, usize),
    start: nat,
    excluded: Seq<(usize, usize)>,
) -> bool {
    !covers(excluded, start + found.0)
}

/// A line that starts at byte `start` is taken: it has a match, and where only code is
/// searched, one that lies in code.
pub open spec fn is_hit(
    found: Seq<(usize, usize)>,
    start: nat,
    scope: GrepScope,
    excluded: Seq<(usize, usize)>,
) -> bool {
    match scope {
        GrepScope::All => found.len() > 0,
        GrepScope::Code => exists|k: int|
            0 <= k < found.len() && #[trigger] in_code(found[k], start, excluded),
    }
}

/// The lines that are taken among the first `n` of a file.
pub open spec fn hits(
    file: Seq<char>,
    rows: Seq<LineView>,
    found: Seq<Seq<(usize, usize)>>,
    scope: GrepScope,
    excluded: Seq<(usize, usize)>,
    context: int,
    n: int,
) -> Seq<GrepMatchView>
    decreases n,
{
    if n <= 0 {
        Seq::empty()
    } else {
        let before = hits(file, rows, found, scope, excluded, context, n - 1);
        if is_hit(found[n - 1], rows[n - 1].start, scope, excluded) {
            before.push(match_at(file, rows, n - 1, context))
        } else {
            before
        }
    }
}

/// The lines `from..to` of a file.
fn copy_lines(rows: &Vec<Line>, from: usize, to: usize) -> (r: Vec<String>)
    requires
        from <= to <= rows@.len(),
    ensures
        views(r@) == texts_between(line_views(rows@), from as int, to as int),
{
    let ghost all = line_views(rows@);
    let mut out: Vec<String> = Vec::new();
    let mut i: usize = from;
    while i < to
        invariant
            from <= i <= to <= rows@.len(),
            all == line_views(rows@),
            out@.len() == i - from,
            forall|k: int| 0 <= k < i - from ==> (#[trigger] out@[k])@ == all[from + k].text,
        decreases to - i,
    {
        assert(all[i as int].text == rows@[i as int].text@);
        out.push(rows[i].text.clone());
        i = i + 1;
    }
    assert(views(out@) =~= texts_between(all, from as int, to as int));
    out
}

/// Line `i` of a file as a match.
fn make_match(file: &str, rows: &Vec<Line>, i: usize, context: usize) -> (r: GrepMatch)
    requires
        i < rows@.len(),
    ensures
        r@ == match_at(file@, line_views(rows@), i as int, context as int),
{
    let from: usize = if context <= i {
        i - context
    } else {
        0
    };
    let left: usize = rows.len() - i - 1;
    let to: usize = if context <= left {
        i + 1 + context
    } else {
        rows.len()
    };
    assert(line_views(rows@)[i as int] == rows@[i as int]@);
    GrepMatch {
        file: file.to_owned(),
        line: i + 1,
        text: rows[i].text.clone(),
        context_before: copy_lines(rows, from, i),
        context_after: copy_lines(rows, i + 1, to),
    }
}

/// Whether a line is taken. `found` has the matches in it.
pub fn takes_line(
    found: &Vec<(usize, usize)>,
    start: usize,
    scope: GrepScope,
    excluded: &Vec<(usize, usize)>,
) -> (r: bool)
    requires
        is_merged(excluded@),
    ensures
        r == is_hit(found@, start as nat, scope, excluded@),
{
    if scope == GrepScope::All {
        return found.len() > 0;
    }
    let mut k: usize = 0;
    while k < found.len()
        invariant
            k <= found@.len(),
            is_merged(excluded@),
            forall|n: int| 0 <= n < k ==> !#[trigger] in_code(found@[n], start as nat, excluded@),
        decreases found@.len() - k,
    {
        let at: usize = found[k].0;
        if at > usize::MAX - start || !is_in_excluded_range(start + at, excluded) {
            assert(in_code(found@[k as int], start as nat, excluded@));
            return true;
        }
        assert(!in_code(found@[k as int], start as nat, excluded@));
        k = k + 1;
    }
    false
}

/// The matches of each line.
pub open spec fn found_views(found: Seq<Vec<(usize, usize)>>) -> Seq<Seq<(usize, usize)>> {
    found.map_values(|v: Vec<(usize, usize)>| v@)
}

/// The first `room` lines that are taken of a file, and how many there are.
/// `found` has the matches in each line.
pub fn search_lines(
    file: &str,
    rows: &Vec<Line>,
    found: &Vec<Vec<(usize, usize)>>,
    scope: GrepScope,
    excluded: &Vec<(usize, usize)>,
    context: usize,
    room: usize,
) -> (r: (Vec<GrepMatch>, usize))
    requires
        rows@.len() == found@.len(),
        is_merged(excluded@),
    ensures
        ({
            let all = hits(
                file@,
                line_views(rows@),
                found_views(found@),
                scope,
                excluded@,
                context as int,
                rows@.len() as int,
            );
            grep_views(r.0@) == first_of(all, room as int) && r.1 == all.len()
        }),
{
    let ghost all = line_views(rows@);
    let ghost spots = found_views(found@);
    let mut out: Vec<GrepMatch> = Vec::new();
    let mut count: usize = 0;
    let mut i: usize = 0;
    assert(grep_views(out@) =~= Seq::empty());
    while i < rows.len()
        invariant
            i <= rows@.len() == found@.len(),
            all == line_views(rows@),
            spots == found_views(found@),
            is_merged(excluded@),
            count <= i,
            ({
                let sofar = hits(
                    file@,
                    all,
                    spots,
                    scope,
                    excluded@,
                    context as int,
                    i as int,
                );
                grep_views(out@) == first_of(sofar, room as int) && count == sofar.len()
            }),
        decreases rows@.len() - i,
    {
        let ghost before = grep_views(out@);
        let ghost sofar = hits(file@, all, spots, scope, excluded@, context as int, i as int);
        assert(all[i as int] == rows@[i as int]@);
        if takes_line(&found[i], rows[i].start, scope, excluded) {
            let ghost hit = match_at(file@, all, i as int, context as int);
            assert(grep_views(out@).len() == out@.len());
            if out.len() < room {
                let m = make_match(file, rows, i, context);
                out.push(m);
                assert(grep_views(out@) =~= before.push(hit));
                assert(first_of(sofar.push(hit), room as int) =~= before.push(hit));
            } else {
                assert(first_of(sofar.push(hit), room as int) =~= before);
            }
            count = count + 1;
        }
        i = i + 1;
    }
    (out, count)
}

/// What is searched for, and how.
pub struct Search {
    pub re: Regex,
    pub scope: GrepScope,
    pub context: int,
}

/// The matches in each line.
pub open spec fn found_in(re: Regex, rows: Seq<LineView>) -> Seq<Seq<(usize, usize)>> {
    Seq::new(rows.len(), |i: int| regex_finds(re, rows[i].text))
}

/// The ranges of a file that are not code: what is cached of it, or else what is
/// found in its text. Told only for languages that are parsed, and where the
/// search asks for it.
pub open spec fn exclusions(
    tree: FileTreeView,
    configs: Map<Language, ConfigView>,
    cache: Queries,
    file: Seq<char>,
    text: Seq<char>,
    scope: GrepScope,
) -> Seq<(usize, usize)> {
    let entry = tree.files[file];
    if scope == GrepScope::Code && parsed_language(entry.language) {
        match cached_ranges(tree, file, entry) {
            Some(ranges) => ranges,
            None => non_code_ranges(
                config_of(configs, entry.language),
                cache,
                text,
                entry.language,
            ),
        }
    } else {
        Seq::empty()
    }
}

/// The ranges of a file have to be computed for a search.
pub open spec fn lacks_ranges(tree: FileTreeView, file: Seq<char>, scope: GrepScope) -> bool {
    let entry = tree.files[file];
    scope == GrepScope::Code && parsed_language(entry.language) && cached_ranges(
        tree,
        file,
        entry,
    ) is None
}

/// The files and their caches after a file has been searched: ranges that were not
/// cached are.
pub open spec fn tree_after_search(
    tree: FileTreeView,
    configs: Map<Language, ConfigView>,
    cache: Queries,
    file: Seq<char>,
    text: Seq<char>,
    scope: GrepScope,
) -> FileTreeView {
    if lacks_ranges(tree, file, scope) {
        with_ranges(
            tree,
            file,
            tree.files[file],
            exclusions(tree, configs, cache, file, text, scope),
        )
    } else {
        tree
    }
}

/// The cache of queries after a file has been searched.
pub open spec fn cache_after_search(
    tree: FileTreeView,
    configs: Map<Language, ConfigView>,
    cache: Queries,
    file: Seq<char>,
    text: Seq<char>,
    scope: GrepScope,
) -> Queries {
    let language = tree.files[file].language;
    if lacks_ranges(tree, file, scope) {
        cache_after_ranges(config_of(configs, language), cache, text, language)
    } else {
        cache
    }
}

/// The lines of a text that a search takes.
pub open spec fn hits_in(
    search: Search,
    file: Seq<char>,
    text: Seq<char>,
    excluded: Seq<(usize, usize)>,
) -> Seq<GrepMatchView> {
    let rows = lines_of(text);
    hits(
        file,
        rows,
        found_in(search.re, rows),
        search.scope,
        merged_ranges(excluded),
        search.context,
        rows.len() as int,
    )
}

/// What a search has come to: the lines that it takes, the files with their caches, and
/// the cache of queries.
pub struct Searched {
    pub hits: Seq<GrepMatchView>,
    pub tree: FileTreeView,
    pub cache: Queries,
}

/// A search that goes on with one more file. A file that cannot be read is passed over.
pub open spec fn with_searched(
    state: Searched,
    search: Search,
    configs: Map<Language, ConfigView>,
    reads: Map<Seq<char>, ReadView>,
    file: Seq<char>,
) -> Searched {
    match read_of(reads, file) {
        Ok(text) => Searched {
            hits: state.hits + hits_in(
                search,
                file,
                text,
                exclusions(state.tree, configs, state.cache, file, text, search.scope),
            ),
            tree: tree_after_search(
                state.tree,
                configs,
                state.cache,
                file,
                text,
                search.scope,
            ),
            cache: cache_after_search(
                state.tree,
                configs,
                state.cache,
                file,
                text,
                search.scope,
            ),
        },
        Err(_) => state,
    }
}

/// A search of files, one after the other.
pub open spec fn found_in_files(
    search: Search,
    tree: FileTreeView,
    cache: Queries,
    configs: Map<Language, ConfigView>,
    reads: Map<Seq<char>, ReadView>,
    paths: Seq<Seq<char>>,
) -> Searched
    decreases paths.len(),
{
    if paths.len() == 0 {
        Searched { hits: Seq::empty(), tree, cache }
    } else {
        with_searched(
            found_in_files(search, tree, cache, configs, reads, paths.drop_last()),
            search,
            configs,
            reads,
            paths.last(),
        )
    }
}

/// `n`, but no more than a `usize` can hold.
pub open spec fn capped(n: nat) -> usize {
    if n > usize::MAX {
        usize::MAX
    } else {
        n as usize
    }
}

/// The matches in each line.
fn find_in_lines(re: &Regex, rows: &Vec<Line>) -> (r: Vec<Vec<(usize, usize)>>)
    ensures
        found_views(r@) == found_in(*re, line_views(rows@)),
{
    let ghost all = line_views(rows@);
    let mut out: Vec<Vec<(usize, usize)>> = Vec::new();
    let mut i: usize = 0;
    while i < rows.len()
        invariant
            i <= rows@.len(),
            all == line_views(rows@),
            out@.len() == i,
            forall|k: int| 0 <= k < i ==> (#[trigger] out@[k])@ == regex_finds(*re, all[k].text),
        decreases rows@.len() - i,
    {
        assert(all[i as int].text == rows@[i as int].text@);
        out.push(find_all(re, rows[i].text.as_str()));
        i = i + 1;
    }
    assert(found_views(out@) =~= found_in(*re, all));
    out
}

/// The ranges of a file that are not code, from the cache or else into it.
fn excluded_ranges(
    configs: &LanguageConfigs,
    cache: &mut QueryCache,
    file_tree: &mut FileTree,
    file: &str,
    text: &str,
    scope: GrepScope,
) -> (r: Vec<(usize, usize)>)
    requires
        old(file_tree)@.files.contains_key(file@),
    ensures
        r@ == exclusions(old(file_tree)@, configs@, old(cache)@, file@, text@, scope),
        final(file_tree)@ == tree_after_search(
            old(file_tree)@,
            configs@,
            old(cache)@,
            file@,
            text@,
            scope,
        ),
        final(cache)@ == cache_after_search(
            old(file_tree)@,
            configs@,
            old(cache)@,
            file@,
            text@,
            scope,
        ),
{
    let entry = match file_tree.get(file) {
        Some(e) => e,
        None => return Vec::new(),
    };
    if scope == GrepScope::Code && entry.language.has_tree_sitter_support() {
        match file_tree.cached_non_code_ranges(file, &entry) {
            Some(ranges) => ranges,
            None => {
                let ranges = compute_non_code_ranges(configs, cache, text, entry.language);
                file_tree.store_non_code_ranges(file, &entry, copy_ranges(&ranges));
                ranges
            },
        }
    } else {
        Vec::new()
    }
}

/// Adds matches to those that are there.
fn extend_matches(to: &mut Vec<GrepMatch>, from: Vec<GrepMatch>)
    ensures
        grep_views(final(to)@) == grep_views(old(to)@) + grep_views(from@),
{
    let ghost before = to@;
    let ghost added = from@;
    let mut rest = from;
    to.append(&mut rest);
    assert(grep_views(to@) =~= grep_views(before) + grep_views(added));
}

/// Searches files for a pattern, line by line.
fn search_files(
    re: &Regex,
    configs: &LanguageConfigs,
    cache: &mut QueryCache,
    sources: &Sources,
    file_tree: &mut FileTree,
    paths: &Vec<String>,
    scope: GrepScope,
    context_lines: usize,
    max_matches: usize,
) -> (r: (Vec<GrepMatch>, usize))
    requires
        forall|i: int|
            0 <= i < paths@.len() ==> old(file_tree)@.files.contains_key((#[trigger] paths@[i])@),
    ensures
        ({
            let all = found_in_files(
                Search { re: *re, scope, context: context_lines as int },
                old(file_tree)@,
                old(cache)@,
                configs@,
                sources@,
                views(paths@),
            );
            &&& grep_views(r.0@) == first_of(all.hits, max_matches as int)
            &&& r.1 == capped(all.hits.len())
            &&& final(file_tree)@ == all.tree
            &&& final(cache)@ == all.cache
        }),
{
    let ghost search = Search { re: *re, scope, context: context_lines as int };
    let ghost start = file_tree@;
    let ghost queries = cache@;
    let ghost all = views(paths@);
    let mut matches: Vec<GrepMatch> = Vec::new();
    let mut total: usize = 0;
    let mut i: usize = 0;
    assert(all.take(0) =~= Seq::empty());
    assert(grep_views(matches@) =~= Seq::empty());
    while i < paths.len()
        invariant
            i <= paths@.len(),
            all == views(paths@),
            search == (Search { re: *re, scope, context: context_lines as int }),
            file_tree@.files == start.files,
            forall|k: int|
                0 <= k < paths@.len() ==> start.files.contains_key((#[trigger] paths@[k])@),
            ({
                let sofar = found_in_files(
                    search,
                    start,
                    queries,
                    configs@,
                    sources@,
                    all.take(i as int),
                );
                &&& grep_views(matches@) == first_of(sofar.hits, max_matches as int)
                &&& total == capped(sofar.hits.len())
                &&& file_tree@ == sofar.tree
                &&& cache@ == sofar.cache
            }),
        decreases paths@.len() - i,
    {
        let file = paths[i].as_str();
        let ghost sofar = found_in_files(
            search,
            start,
            queries,
            configs@,
            sources@,
            all.take(i as int),
        );
        assert(all.take(i + 1).drop_last() =~= all.take(i as int));
        assert(all.take(i + 1).last() == file@);
        assert(start.files.contains_key(paths@[i as int]@));
        match sources.read(file) {
            Ok(text) => {
                let excluded = excluded_ranges(
                    configs,
                    cache,
                    file_tree,
                    file,
                    text.as_str(),
                    scope,
                );
                let ghost raw = excluded@;
                let merged = merge_ranges(excluded);
                let rows = lines(text.as_str());
                let found = find_in_lines(re, &rows);
                assert(line_views(rows@).len() == rows@.len());
                assert(found_views(found@).len() == found@.len());
                assert(grep_views(matches@).len() == matches@.len());
                let room: usize = max_matches - matches.len();
                let (more, count) = search_lines(
                    file,
                    &rows,
                    &found,
                    scope,
                    &merged,
                    context_lines,
                    room,
                );
                let ghost here = hits_in(search, file@, text@, raw);
                extend_matches(&mut matches, more);
                total = total.saturating_add(count);
                assert(first_of(sofar.hits, max_matches as int) + first_of(here, room as int)
                    =~= first_of(sofar.hits + here, max_matches as int));
            },
            Err(_) => {},
        }
        i = i + 1;
    }
    assert(all.take(i as int) =~= all);
    (matches, total)
}

/// What searching for a pattern gives, or the message of what is in the way.
pub open spec fn grep_error(
    tree: FileTreeView,
    pattern: Seq<char>,
    filter: Option<Seq<char>>,
    mode: Option<FileMatchMode>,
) -> Option<Seq<char>> {
    match regex_outcome(pattern) {
        Err(e) => Some("Invalid regex: "@ + e),
        Ok(_) => match searched_paths(sorted_keys(tree.files), filter, mode) {
            Err(e) => Some(e),
            Ok(_) => None,
        },
    }
}

/// All lines that a search takes, and the files and caches after it.
pub open spec fn grep_found(
    tree: FileTreeView,
    cache: Queries,
    configs: Map<Language, ConfigView>,
    reads: Map<Seq<char>, ReadView>,
    pattern: Seq<char>,
    context: int,
    scope: GrepScope,
    filter: Option<Seq<char>>,
    mode: Option<FileMatchMode>,
) -> Searched {
    found_in_files(
        Search { re: regex_outcome(pattern)->Ok_0, scope, context },
        tree,
        cache,
        configs,
        reads,
        searched_paths(sorted_keys(tree.files), filter, mode)->Ok_0,
    )
}

/// A response has the first `max_matches` of the lines found, and their number.
pub open spec fn is_response(
    r: GrepResponse,
    pattern: Seq<char>,
    all: Seq<GrepMatchView>,
    max_matches: usize,
) -> bool {
    &&& r.pattern@ == pattern
    &&& grep_views(r.matches@) == first_of(all, max_matches as int)
    &&& r.total_matches == capped(all.len())
    &&& r.truncated == (capped(all.len()) > max_matches)
}

/// Searches the indexed files for a pattern, line by line. `scope` restricts the
/// matches to code, `file_filter` and `file_match` the files.
pub fn grep_with_scope(
    configs: &LanguageConfigs,
    cache: &mut QueryCache,
    sources: &Sources,
    file_tree: &mut FileTree,
    pattern: &str,
    max_matches: usize,
    context_lines: usize,
    scope: GrepScope,
    file_filter: Option<&str>,
    file_match: Option<FileMatchMode>,
) -> (r: Result<GrepResponse, String>)
    ensures
        match r {
            Ok(g) => {
                let all = grep_found(
                    old(file_tree)@,
                    old(cache)@,
                    configs@,
                    sources@,
                    pattern@,
                    context_lines as int,
                    scope,
                    opt_str(file_filter),
                    file_match,
                );
                &&& grep_error(old(file_tree)@, pattern@, opt_str(file_filter), file_match) is None
                &&& is_response(g, pattern@, all.hits, max_matches)
                &&& lists_in_order(sorted_keys(old(file_tree)@.files), old(file_tree)@.files)
                &&& final(file_tree)@ == all.tree
                &&& final(cache)@ == all.cache
            },
            Err(e) => {
                &&& grep_error(old(file_tree)@, pattern@, opt_str(file_filter), file_match) == Some(
                    e@,
                )
                &&& final(file_tree)@ == old(file_tree)@
                &&& final(cache)@ == old(cache)@
            },
        },
{
    let re = match compile(pattern) {
        Ok(re) => re,
        Err(e) => {
            let mut m = "Invalid regex: ".to_string();
            m.append(e.as_str());
            return Err(m);
        },
    };
    let paths = file_tree.sorted_paths();
    let ghost all = views(paths@);
    let chosen = match filter_grep_paths(paths, file_filter, file_match) {
        Ok(p) => p,
        Err(e) => return Err(e),
    };
    proof {
        if let Some(f) = opt_str(file_filter) {
            lemma_taken(all, f, file_match);
        }
        assert forall|i: int| 0 <= i < chosen@.len() implies file_tree@.files.contains_key(
            (#[trigger] chosen@[i])@,
        ) by {
            assert(views(chosen@)[i] == chosen@[i]@);
            assert(views(chosen@).contains(chosen@[i]@));
            assert(all.contains(chosen@[i]@));
        }
    }
    let (matches, total) = search_files(
        &re,
        configs,
        cache,
        sources,
        file_tree,
        &chosen,
        scope,
        context_lines,
        max_matches,
    );
    Ok(
        GrepResponse {
            pattern: pattern.to_owned(),
            matches,
            total_matches: total,
            truncated: total > max_matches,
        },
    )
}

/// Searches all indexed files for a pattern, line by line, with matches anywhere.
pub fn grep(
    configs: &LanguageConfigs,
    cache: &mut QueryCache,
    sources: &Sources,
    file_tree: &mut FileTree,
    pattern: &str,
    max_matches: usize,
    context_lines: usize,
) -> (r: Result<GrepResponse, String>)
    ensures
        match r {
            Ok(g) => {
                let all = grep_found(
                    old(file_tree)@,
                    old(cache)@,
                    configs@,
                    sources@,
                    pattern@,
                    context_lines as int,
                    GrepScope::All,
                    None,
                    None,
                );
                &&& grep_error(old(file_tree)@, pattern@, None, None) is None
                &&& is_response(g, pattern@, all.hits, max_matches)
                &&& lists_in_order(sorted_keys(old(file_tree)@.files), old(file_tree)@.files)
                &&& final(file_tree)@ == all.tree
                &&& final(cache)@ == all.cache
            },
            Err(e) => {
                &&& grep_error(old(file_tree)@, pattern@, None, None) == Some(e@)
                &&& final(file_tree)@ == old(file_tree)@
                &&& final(cache)@ == old(cache)@
            },
        },
{
    grep_with_scope(
        configs,
        cache,
        sources,
        file_tree,
        pattern,
        max_matches,
        context_lines,
        GrepScope::All,
        None,
        None,
    )
}

// ---------------------------------------------------------------------------
// Laws
// ---------------------------------------------------------------------------

/// The lines found in a file are exactly those with a match, and in code exactly those
/// with a match in code.
pub proof fn law_hits_are_exact(
    file: Seq<char>,
    rows: Seq<LineView>,
    found: Seq<Seq<(usize, usize)>>,
    scope: GrepScope,
    excluded: Seq<(usize, usize)>,
    context: int,
    n: int,
    i: int,
)
    requires
        0 <= n <= rows.len() <= usize::MAX,
        0 <= i < rows.len(),
    ensures
        ({
            let all = hits(file, rows, found, scope, excluded, context, n);
            i < n && is_hit(found[i], rows[i].start, scope, excluded) <==> exists|k: int|
                0 <= k < all.len() && (#[trigger] all[k]).line == i + 1
        }),
    decreases n,
{
    if n > 0 {
        law_hits_are_exact(file, rows, found, scope, excluded, context, n - 1, i);
        let before = hits(file, rows, found, scope, excluded, context, n - 1);
        let all = hits(file, rows, found, scope, excluded, context, n);
        if exists|k: int| 0 <= k < before.len() && (#[trigger] before[k]).line == i + 1 {
            let k = choose|k: int| 0 <= k < before.len() && (#[trigger] before[k]).line == i + 1;
            assert(all[k].line == i + 1);
        }
        if exists|k: int| 0 <= k < all.len() && (#[trigger] all[k]).line == i + 1 {
            let k = choose|k: int| 0 <= k < all.len() && (#[trigger] all[k]).line == i + 1;
            if k < before.len() {
                assert(before[k].line == i + 1);
            }
        }
        if i == n - 1 && is_hit(found[i], rows[i].start, scope, excluded) {
            assert(all[before.len() as int].line == i + 1);
        }
    }
}

/// A search in code takes a line exactly where one of its matches starts outside all
/// comments and strings: outside the nodes that the query for such nodes captures.
pub proof fn law_code_scope_skips_non_code(
    matches: Seq<Seq<CaptureView>>,
    found: Seq<(usize, usize)>,
    start: nat,
)
    ensures
        is_hit(
            found,
            start,
            GrepScope::Code,
            merged_ranges(merged_ranges(captured_ranges(matches))),
        ) <==> exists|k: int|
            0 <= k < found.len() && !#[trigger] covers(
                captured_ranges(matches),
                start + found[k].0,
            ),
{
    let ranges = captured_ranges(matches);
    let excluded = merged_ranges(merged_ranges(ranges));
    assert forall|k: int| 0 <= k < found.len() implies #[trigger] in_code(
        found[k],
        start,
        excluded,
    ) == !covers(ranges, start + found[k].0) by {
        law_merging_keeps_cover(ranges, start + found[k].0);
        law_merging_keeps_cover(merged_ranges(ranges), start + found[k].0);
    }
    if is_hit(found, start, GrepScope::Code, excluded) {
        let k = choose|k: int|
            0 <= k < found.len() && #[trigger] in_code(found[k], start, excluded);
        assert(!covers(ranges, start + found[k].0));
    }
    if exists|k: int| 0 <= k < found.len() && !#[trigger] covers(ranges, start + found[k].0) {
        let k = choose|k: int|
            0 <= k < found.len() && !#[trigger] covers(ranges, start + found[k].0);
        assert(in_code(found[k], start, excluded));
    }
}

/// What a search shows are the first of the lines that it finds, as many as were asked
/// for, and it says that some were left out exactly when there are more.
pub proof fn law_truncation(r: GrepResponse, pattern: Seq<char>, all: Seq<GrepMatchView>, max: usize)
    requires
        is_response(r, pattern, all, max),
        all.len() <= usize::MAX,
    ensures
        r.total_matches == all.len(),
        r.matches@.len() == min(r.total_matches as int, max as int),
        r.truncated <==> r.total_matches > max,
        r.truncated <==> r.matches@.len() < r.total_matches,
        !r.truncated ==> grep_views(r.matches@) == all,
{
    assert(grep_views(r.matches@).len() == r.matches@.len());
    if !r.truncated {
        assert(first_of(all, max as int) =~= all);
    }
}

/// Asking for more lines of the same search tells the same number of them, and shows the
/// lines that asking for fewer shows, and further ones behind them.
pub proof fn law_asking_for_more(
    fewer: GrepResponse,
    more: GrepResponse,
    pattern: Seq<char>,
    all: Seq<GrepMatchView>,
    small: usize,
    large: usize,
)
    requires
        is_response(fewer, pattern, all, small),
        is_response(more, pattern, all, large),
        small <= large,
    ensures
        fewer.total_matches == more.total_matches,
        grep_views(fewer.matches@).is_prefix_of(grep_views(more.matches@)),
        more.truncated ==> fewer.truncated,
{
    let a = grep_views(fewer.matches@);
    let b = grep_views(more.matches@);
    assert(a =~= b.subrange(0, a.len() as int));
}

/// One found line stands before another: in a file before the other's, or further up in
/// the same file.
pub open spec fn stands_before(a: GrepMatchView, b: GrepMatchView) -> bool {
    if a.file == b.file {
        a.line < b.line
    } else {
        text_order()(a.file, b.file)
    }
}

/// A found line is a line of a file that can be read: it has the number and the text of
/// that line, and up to `context` lines on either side; and the pattern matches in it.
pub open spec fn is_shown_line(
    m: GrepMatchView,
    search: Search,
    reads: Map<Seq<char>, ReadView>,
) -> bool {
    match read_of(reads, m.file) {
        Ok(text) => {
            let rows = lines_of(text);
            let i = m.line - 1;
            &&& 0 <= i < rows.len()
            &&& m == match_at(m.file, rows, i, search.context)
            &&& regex_finds(search.re, rows[i].text).len() > 0
        },
        Err(_) => false,
    }
}

/// The lines found in a file are of that file, and rise.
proof fn lemma_hits_rise(
    file: Seq<char>,
    rows: Seq<LineView>,
    found: Seq<Seq<(usize, usize)>>,
    scope: GrepScope,
    excluded: Seq<(usize, usize)>,
    context: int,
    n: int,
)
    requires
        0 <= n <= rows.len() <= usize::MAX,
    ensures
        ({
            let all = hits(file, rows, found, scope, excluded, context, n);
            &&& forall|i: int|
                0 <= i < all.len() ==> {
                    &&& (#[trigger] all[i]).file == file
                    &&& 1 <= all[i].line <= n
                    &&& all[i] == match_at(file, rows, all[i].line - 1, context)
                    &&& found[all[i].line - 1].len() > 0
                }
            &&& forall|i: int, j: int|
                0 <= i < j < all.len() ==> (#[trigger] all[i]).line < (#[trigger] all[j]).line
        }),
    decreases n,
{
    if n > 0 {
        lemma_hits_rise(file, rows, found, scope, excluded, context, n - 1);
        let before = hits(file, rows, found, scope, excluded, context, n - 1);
        let all = hits(file, rows, found, scope, excluded, context, n);
        assert forall|i: int| 0 <= i < all.len() implies {
            &&& (#[trigger] all[i]).file == file
            &&& 1 <= all[i].line <= n
            &&& all[i] == match_at(file, rows, all[i].line - 1, context)
            &&& found[all[i].line - 1].len() > 0
        } by {
            if i < before.len() {
                assert(all[i] == before[i]);
            }
        }
        assert forall|i: int, j: int| 0 <= i < j < all.len() implies (#[trigger] all[i]).line < (
        #[trigger] all[j]).line by {
            assert(all[i] == before[i]);
            if j < before.len() {
                assert(all[j] == before[j]);
            }
        }
    }
}

/// What a filter takes of paths in order is in order.
proof fn lemma_taken_in_order(
    paths: Seq<Seq<char>>,
    filter: Seq<char>,
    mode: Option<FileMatchMode>,
)
    requires
        in_order(paths, text_order()),
        paths.no_duplicates(),
    ensures
        in_order(taken(paths, filter, mode), text_order()),
        taken(paths, filter, mode).no_duplicates(),
    decreases paths.len(),
{
    if paths.len() > 0 {
        let rest = paths.drop_last();
        let last = paths.last();
        assert forall|i: int, j: int| 0 <= i < j < rest.len() implies text_order()(
            #[trigger] rest[i],
            #[trigger] rest[j],
        ) by {
            assert(text_order()(paths[i], paths[j]));
        }
        assert(rest.no_duplicates()) by {
            assert forall|i: int, j: int|
                0 <= i < rest.len() && 0 <= j < rest.len() && i != j implies rest[i] != rest[j] by {
                assert(paths[i] != paths[j]);
            }
        }
        lemma_taken_in_order(rest, filter, mode);
        lemma_taken(rest, filter, mode);
        let before = taken(rest, filter, mode);
        assert forall|i: int| 0 <= i < before.len() implies text_order()(
            #[trigger] before[i],
            last,
        ) && before[i] != last by {
            assert(before.contains(before[i]));
            let k = choose|k: int| 0 <= k < rest.len() && rest[k] == before[i];
            assert(paths[k] == before[i]);
            assert(paths[paths.len() - 1] == last);
            assert(text_order()(paths[k], paths[paths.len() - 1]));
        }
    }
}

/// What is found in files in order is in order.
proof fn lemma_found_rise(
    search: Search,
    tree: FileTreeView,
    cache: Queries,
    configs: Map<Language, ConfigView>,
    reads: Map<Seq<char>, ReadView>,
    paths: Seq<Seq<char>>,
)
    requires
        in_order(paths, text_order()),
        paths.no_duplicates(),
        forall|p: Seq<char>| #[trigger]
            read_of(reads, p) is Ok ==> lines_of(read_of(reads, p)->Ok_0).len() <= usize::MAX,
    ensures
        ({
            let all = found_in_files(search, tree, cache, configs, reads, paths).hits;
            &&& forall|i: int|
                0 <= i < all.len() ==> paths.contains((#[trigger] all[i]).file) && is_shown_line(
                    all[i],
                    search,
                    reads,
                )
            &&& forall|i: int, j: int|
                0 <= i < j < all.len() ==> stands_before(#[trigger] all[i], #[trigger] all[j])
        }),
    decreases paths.len(),
{
    if paths.len() > 0 {
        let rest = paths.drop_last();
        let last = paths.last();
        assert forall|i: int, j: int| 0 <= i < j < rest.len() implies text_order()(
            #[trigger] rest[i],
            #[trigger] rest[j],
        ) by {
            assert(text_order()(paths[i], paths[j]));
        }
        assert(rest.no_duplicates()) by {
            assert forall|i: int, j: int|
                0 <= i < rest.len() && 0 <= j < rest.len() && i != j implies rest[i] != rest[j] by {
                assert(paths[i] != paths[j]);
            }
        }
        lemma_found_rise(search, tree, cache, configs, reads, rest);
        assert(paths[paths.len() - 1] == last);
        let before = found_in_files(search, tree, cache, configs, reads, rest);
        let all = found_in_files(search, tree, cache, configs, reads, paths).hits;
        assert forall|i: int| 0 <= i < before.hits.len() implies paths.contains(
            (#[trigger] before.hits[i]).file,
        ) && before.hits[i].file != last && text_order()(before.hits[i].file, last) by {
            let k = choose|k: int| 0 <= k < rest.len() && rest[k] == before.hits[i].file;
            assert(paths[k] == before.hits[i].file);
            assert(paths[k] != paths[paths.len() - 1]);
            assert(text_order()(paths[k], paths[paths.len() - 1]));
        }
        if let Ok(text) = read_of(reads, last) {
            let rows = lines_of(text);
            let excluded = exclusions(
                before.tree,
                configs,
                before.cache,
                last,
                text,
                search.scope,
            );
            let here = hits_in(search, last, text, excluded);
            lemma_hits_rise(
                last,
                rows,
                found_in(search.re, rows),
                search.scope,
                merged_ranges(excluded),
                search.context,
                rows.len() as int,
            );
            assert(all == before.hits + here);
            let m = before.hits.len() as int;
            assert forall|i: int| 0 <= i < all.len() implies paths.contains(
                (#[trigger] all[i]).file,
            ) && is_shown_line(all[i], search, reads) by {
                if i < m {
                    assert(all[i] == before.hits[i]);
                } else {
                    assert(all[i] == here[i - m]);
                }
            }
            assert forall|i: int, j: int| 0 <= i < j < all.len() implies stands_before(
                #[trigger] all[i],
                #[trigger] all[j],
            ) by {
                if j < m {
                    assert(all[i] == before.hits[i] && all[j] == before.hits[j]);
                } else if i < m {
                    assert(all[i] == before.hits[i] && all[j] == here[j - m]);
                } else {
                    assert(all[i] == here[i - m] && all[j] == here[j - m]);
                }
            }
        }
    }
}

/// What a search finds rises strictly by file and line, so no line is found twice; and
/// each is a line of an indexed file, as it stands there, with a match. The files have no
/// more lines than can be counted.
pub proof fn law_found_lines_rise(
    tree: FileTreeView,
    cache: Queries,
    configs: Map<Language, ConfigView>,
    reads: Map<Seq<char>, ReadView>,
    pattern: Seq<char>,
    context: int,
    scope: GrepScope,
    filter: Option<Seq<char>>,
    mode: Option<FileMatchMode>,
)
    requires
        lists_in_order(sorted_keys(tree.files), tree.files),
        grep_error(tree, pattern, filter, mode) is None,
        forall|p: Seq<char>| #[trigger]
            read_of(reads, p) is Ok ==> lines_of(read_of(reads, p)->Ok_0).len() <= usize::MAX,
    ensures
        ({
            let all = grep_found(
                tree,
                cache,
                configs,
                reads,
                pattern,
                context,
                scope,
                filter,
                mode,
            ).hits;
            &&& forall|i: int, j: int|
                0 <= i < j < all.len() ==> stands_before(#[trigger] all[i], #[trigger] all[j])
            &&& forall|i: int|
                0 <= i < all.len() ==> tree.files.contains_key((#[trigger] all[i]).file)
                    && is_shown_line(
                    all[i],
                    Search { re: regex_outcome(pattern)->Ok_0, scope, context },
                    reads,
                )
        }),
{
    let paths = sorted_keys(tree.files);
    let chosen = searched_paths(paths, filter, mode)->Ok_0;
    if let Some(f) = filter {
        lemma_taken_in_order(paths, f, mode);
        lemma_taken(paths, f, mode);
    }
    assert forall|p: Seq<char>| #[trigger] chosen.contains(p) implies tree.files.contains_key(
        p,
    ) by {
        assert(paths.contains(p));
    }
    lemma_found_rise(
        Search { re: regex_outcome(pattern)->Ok_0, scope, context },
        tree,
        cache,
        configs,
        reads,
        chosen,
    );
}

} // verus!
