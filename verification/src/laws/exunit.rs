//! Which tests of Elixir go with a function.
use vstd::prelude::*;
use vstd::utf8::encode_utf8;
use crate::index::file_entry::{FileEntryView, Language};
use crate::laws::captures::{
    is_first_named, is_last_named, law_capture_number, law_node_text, lemma_last_named, reads_as,
};
use crate::laws::lists::lemma_first_members;
use crate::laws::tests_of::law_files_of_tests;
use crate::laws::text::{ends, holds};
use crate::maps::{lemma_filter_next, lemma_filter_start, lists_in_order, sorted_keys};
use crate::ops::symbol_ops::lookup::{call_name, looked_up};
use crate::ops::symbol_ops::tests_of::{
    block_of, block_order, block_parts, blocks_query, calling_tests, calls_name, calls_query,
    descriptions, exunit_blocks, exunit_tests, is_call, matched_blocks, range_calls, test_name,
    tests_in_file, tests_of, BlockCaptures, BlockView, TestView,
};
use crate::sorting::{lemma_sorted_by, lemma_sorted_members, sorted_by, total_order};
use crate::sources::{read_of, ReadView};
use crate::symbols::queries::elixir::grammar_of;
use crate::symbols::queries::Queries;
use crate::symbols::symbol::SymbolView;
use crate::symbols::syntax::{
    capture_number, parse_outcome, query_captures, query_matches, CaptureView,
};
use crate::text::{join_of, line_text, trim_char_of, trim_of};

verus! {

// ---------------------------------------------------------------------------
// Blocks
// ---------------------------------------------------------------------------

/// A match says a text under a name: that of its last capture with the name.
pub open spec fn says_text(
    names: Seq<Seq<char>>,
    name: Seq<char>,
    captures: Seq<CaptureView>,
    text: Seq<char>,
) -> bool {
    exists|j: int| #[trigger]
        is_last_named(names, name, captures, j) && captures[j].node.text == Some(text)
}

/// A text without the white space around it, and without quotes around what is left.
pub open spec fn unquoted(text: Seq<char>) -> Seq<char> {
    trim_char_of(trim_char_of(trim_of(text), '"'), '\'')
}

/// A block is what a match says: its bytes, as far as the file goes, its line and its
/// signature are those of the node captured as `test.def`; its kind is the text captured as
/// `test.kind`, or a test without one; and its label is the text captured as `test.name`,
/// or its kind without one, unquoted.
pub open spec fn is_block_said(
    b: BlockView,
    names: Seq<Seq<char>>,
    captures: Seq<CaptureView>,
    source: Seq<char>,
    d: int,
) -> bool {
    let node = captures[d].node;
    let total = encode_utf8(source).len() as int;
    &&& is_last_named(names, "test.def"@, captures, d)
    &&& b.start == node.start_byte
    &&& b.end == (if node.end_byte <= total {
        node.end_byte as int
    } else {
        total
    }) as usize
    &&& b.line == (node.start_row + 1) as usize
    &&& b.signature == trim_of(line_text(source, node.start_row as int))
    &&& says_text(names, "test.kind"@, captures, b.kind) || b.kind == "test"@ && forall|
        t: Seq<char>,
    | !#[trigger] says_text(names, "test.kind"@, captures, t)
    &&& (exists|t: Seq<char>| #[trigger]
        says_text(names, "test.name"@, captures, t) && b.label == unquoted(t)) || b.label
        == unquoted(b.kind) && forall|t: Seq<char>| !#[trigger] says_text(
        names,
        "test.name"@,
        captures,
        t,
    )
}

/// The numbers of the captures of a query for blocks.
spec fn numbers_of(names: Seq<Seq<char>>) -> BlockCaptures {
    BlockCaptures {
        kind: capture_number(names, "test.kind"@),
        name: capture_number(names, "test.name"@),
        def: capture_number(names, "test.def"@),
    }
}

/// The names of the captures differ, and so do their numbers.
proof fn lemma_numbers_differ(names: Seq<Seq<char>>, k: int)
    ensures
        !(numbers_of(names).kind == Some(k) && numbers_of(names).name == Some(k)),
        !(numbers_of(names).kind == Some(k) && numbers_of(names).def == Some(k)),
        !(numbers_of(names).name == Some(k) && numbers_of(names).def == Some(k)),
{
    law_capture_number(names, "test.kind"@);
    law_capture_number(names, "test.name"@);
    law_capture_number(names, "test.def"@);
    reveal_strlit("test.kind");
    reveal_strlit("test.name");
    reveal_strlit("test.def");
    assert("test.kind"@[5] == 'k' && "test.name"@[5] == 'n' && "test.def"@[5] == 'd');
}

/// What is gathered of a block is what the last captures with each name say.
proof fn lemma_parts(names: Seq<Seq<char>>, captures: Seq<CaptureView>)
    ensures
        ({
            let parts = block_parts(numbers_of(names), captures);
            &&& forall|t: Seq<char>| #[trigger]
                says_text(names, "test.kind"@, captures, t) <==> parts.kind == Some(t)
            &&& forall|t: Seq<char>| #[trigger]
                says_text(names, "test.name"@, captures, t) <==> parts.name == Some(t)
            &&& forall|d: int| #[trigger]
                is_last_named(names, "test.def"@, captures, d) ==> parts.def == Some(
                    captures[d].node,
                )
            &&& parts.def is Some ==> exists|d: int| #[trigger]
                is_last_named(names, "test.def"@, captures, d)
        }),
    decreases captures.len(),
{
    let numbers = numbers_of(names);
    let parts = block_parts(numbers, captures);
    if captures.len() > 0 {
        let rest = captures.drop_last();
        let last = captures.last();
        let n = captures.len() - 1;
        assert(captures[n] == last);
        let before = block_parts(numbers, rest);
        lemma_parts(names, rest);
        lemma_numbers_differ(names, last.index as int);
        lemma_says_next(names, "test.kind"@, captures);
        lemma_says_next(names, "test.name"@, captures);
        assert forall|t: Seq<char>| #[trigger]
            says_text(names, "test.kind"@, captures, t) <==> parts.kind == Some(t) by {
            assert(says_text(names, "test.kind"@, rest, t) <==> before.kind == Some(t));
        }
        assert forall|t: Seq<char>| #[trigger]
            says_text(names, "test.name"@, captures, t) <==> parts.name == Some(t) by {
            assert(says_text(names, "test.name"@, rest, t) <==> before.name == Some(t));
        }
        assert forall|d: int| #[trigger]
            is_last_named(names, "test.def"@, captures, d) implies parts.def == Some(
            captures[d].node,
        ) by {
            lemma_last_named(names, "test.def"@, captures, d);
        }
        if parts.def is Some {
            if numbers.def == Some(last.index as int) {
                lemma_last_named(names, "test.def"@, captures, n);
            } else {
                let d = choose|d: int| #[trigger] is_last_named(names, "test.def"@, rest, d);
                lemma_last_named(names, "test.def"@, captures, d);
            }
        }
    }
}

/// What a match says under a name, with one more capture.
proof fn lemma_says_next(names: Seq<Seq<char>>, name: Seq<char>, captures: Seq<CaptureView>)
    requires
        captures.len() > 0,
    ensures
        forall|t: Seq<char>| #[trigger]
            says_text(names, name, captures, t) <==> if capture_number(names, name) == Some(
                captures.last().index as int,
            ) {
                captures.last().node.text == Some(t)
            } else {
                says_text(names, name, captures.drop_last(), t)
            },
{
    let rest = captures.drop_last();
    let n = captures.len() - 1;
    assert forall|t: Seq<char>| #[trigger] says_text(names, name, captures, t) <==> if
        capture_number(names, name) == Some(captures.last().index as int) {
        captures.last().node.text == Some(t)
    } else {
        says_text(names, name, rest, t)
    } by {
        lemma_last_named(names, name, captures, n);
        if says_text(names, name, captures, t) {
            let j = choose|j: int| #[trigger]
                is_last_named(names, name, captures, j) && captures[j].node.text == Some(t);
            lemma_last_named(names, name, captures, j);
            if j < n {
                assert(rest[j] == captures[j]);
            }
        }
        if says_text(names, name, rest, t) {
            let j = choose|j: int| #[trigger]
                is_last_named(names, name, rest, j) && rest[j].node.text == Some(t);
            lemma_last_named(names, name, captures, j);
            assert(rest[j] == captures[j]);
        }
    }
}

/// A match gives a block exactly where it has a capture `test.def`, and it is the block that
/// the match says.
pub proof fn law_block_of_a_match(
    names: Seq<Seq<char>>,
    captures: Seq<CaptureView>,
    source: Seq<char>,
    b: BlockView,
)
    ensures
        ({
            let numbers = BlockCaptures {
                kind: capture_number(names, "test.kind"@),
                name: capture_number(names, "test.name"@),
                def: capture_number(names, "test.def"@),
            };
            block_of(source, block_parts(numbers, captures)) == Some(b) <==> exists|d: int|
                #[trigger] is_block_said(b, names, captures, source, d)
        }),
{
    let numbers = numbers_of(names);
    let parts = block_parts(numbers, captures);
    lemma_parts(names, captures);
    if block_of(source, parts) == Some(b) {
        let d = choose|d: int| #[trigger] is_last_named(names, "test.def"@, captures, d);
        if let Some(t) = parts.kind {
            assert(says_text(names, "test.kind"@, captures, t));
        }
        if let Some(t) = parts.name {
            assert(says_text(names, "test.name"@, captures, t));
        }
        assert(is_block_said(b, names, captures, source, d));
    }
    if exists|d: int| #[trigger] is_block_said(b, names, captures, source, d) {
        let d = choose|d: int| #[trigger] is_block_said(b, names, captures, source, d);
        assert(is_last_named(names, "test.def"@, captures, d));
        if let Some(t) = parts.kind {
            assert(says_text(names, "test.kind"@, captures, t));
        }
        if let Some(t) = parts.name {
            assert(says_text(names, "test.name"@, captures, t));
        }
        if exists|t: Seq<char>| #[trigger]
            says_text(names, "test.name"@, captures, t) && b.label == unquoted(t) {
            let t = choose|t: Seq<char>| #[trigger]
                says_text(names, "test.name"@, captures, t) && b.label == unquoted(t);
            assert(parts.name == Some(t));
        }
    }
}

/// A block is said by the match with a number.
pub open spec fn is_block_at(
    b: BlockView,
    names: Seq<Seq<char>>,
    matches: Seq<Seq<CaptureView>>,
    source: Seq<char>,
    i: int,
    d: int,
) -> bool {
    0 <= i < matches.len() && is_block_said(b, names, matches[i], source, d)
}

/// The blocks of all matches.
proof fn lemma_blocks(
    b: BlockView,
    names: Seq<Seq<char>>,
    matches: Seq<Seq<CaptureView>>,
    source: Seq<char>,
)
    ensures
        matched_blocks(source, numbers_of(names), matches).contains(b) <==> exists|
            i: int,
            d: int,
        | #[trigger] is_block_at(b, names, matches, source, i, d),
    decreases matches.len(),
{
    let all = matched_blocks(source, numbers_of(names), matches);
    if matches.len() > 0 {
        let rest = matches.drop_last();
        let n = matches.len() - 1;
        let last = matches.last();
        assert(matches[n] == last);
        lemma_blocks(b, names, rest, source);
        law_block_of_a_match(names, last, source, b);
        let before = matched_blocks(source, numbers_of(names), rest);
        if all.contains(b) {
            let k = choose|k: int| 0 <= k < all.len() && all[k] == b;
            if k < before.len() {
                assert(before[k] == b);
                let (i, d) = choose|i: int, d: int| #[trigger]
                    is_block_at(b, names, rest, source, i, d);
                assert(rest[i] == matches[i]);
                assert(is_block_at(b, names, matches, source, i, d));
            } else {
                let d = choose|d: int| #[trigger] is_block_said(b, names, last, source, d);
                assert(is_block_at(b, names, matches, source, n, d));
            }
        }
        if exists|i: int, d: int| #[trigger] is_block_at(b, names, matches, source, i, d) {
            let (i, d) = choose|i: int, d: int| #[trigger]
                is_block_at(b, names, matches, source, i, d);
            if i < n {
                assert(rest[i] == matches[i]);
                assert(is_block_at(b, names, rest, source, i, d));
                let k = choose|k: int| 0 <= k < before.len() && before[k] == b;
                assert(all[k] == b);
            } else {
                assert(is_block_said(b, names, last, source, d));
                assert(all[before.len() as int] == b);
            }
        }
    } else {
        assert(all.len() == 0);
    }
}

/// The blocks of a file are those that the matches of the query for blocks say, by their
/// first byte and then by their end.
pub proof fn law_blocks(
    source: Seq<char>,
    tree: tree_sitter::Tree,
    cache: Queries,
    b: BlockView,
)
    ensures
        match blocks_query(cache) {
            Err(_) => exunit_blocks(source, tree, cache).len() == 0,
            Ok(query) => exunit_blocks(source, tree, cache).contains(b) <==> exists|i: int, d: int|
                #[trigger]
                is_block_at(
                    b,
                    query_captures(query),
                    query_matches(tree, query, source, None),
                    source,
                    i,
                    d,
                ),
        },
        ({
            let blocks = exunit_blocks(source, tree, cache);
            forall|i: int, j: int|
                0 <= i < j < blocks.len() ==> {
                    let (x, y) = (#[trigger] blocks[i], #[trigger] blocks[j]);
                    x.start < y.start || x.start == y.start && x.end <= y.end
                }
        }),
{
    if let Ok(query) = blocks_query(cache) {
        let names = query_captures(query);
        let matches = query_matches(tree, query, source, None);
        let found = matched_blocks(source, numbers_of(names), matches);
        let le = block_order();
        assert(total_order(le));
        lemma_blocks(b, names, matches, source);
        lemma_sorted_by(found, le);
        lemma_sorted_members(found, le);
        let blocks = exunit_blocks(source, tree, cache);
        assert(blocks == sorted_by(found, le));
        assert(blocks.contains(b) <==> found.contains(b));
        assert forall|i: int, j: int| 0 <= i < j < blocks.len() implies {
            let (x, y) = (#[trigger] blocks[i], #[trigger] blocks[j]);
            x.start < y.start || x.start == y.start && x.end <= y.end
        } by {
            assert(le(blocks[i], blocks[j]));
        }
    }
}

// ---------------------------------------------------------------------------
// Tests that call a function
// ---------------------------------------------------------------------------

/// A capture is a call of a name within bytes.
pub open spec fn is_call_at(
    names: Seq<Seq<char>>,
    matches: Seq<Seq<CaptureView>>,
    i: int,
    j: int,
    start: int,
    end: int,
    name: Seq<char>,
) -> bool {
    &&& 0 <= i < matches.len()
    &&& 0 <= j < matches[i].len()
    &&& is_first_named(names, "callee"@, matches[i][j].index as int)
    &&& start <= matches[i][j].node.start_byte
    &&& matches[i][j].node.end_byte <= end
    &&& reads_as(matches[i][j].node, name)
}

/// Bytes call a name exactly where the query for calls captures a call whose text is the
/// whole name within them.
pub proof fn law_calls_within(
    source: Seq<char>,
    tree: tree_sitter::Tree,
    cache: Queries,
    start: usize,
    end: usize,
    name: Seq<char>,
)
    ensures
        range_calls(source, tree, cache, start, end, name) <==> (calls_query(cache) matches Ok(
            query,
        ) && exists|i: int, j: int| #[trigger]
            is_call_at(
                query_captures(query),
                query_matches(tree, query, source, Some((start, end))),
                i,
                j,
                start as int,
                end as int,
                name,
            )),
{
    if let Ok(query) = calls_query(cache) {
        let names = query_captures(query);
        let matches = query_matches(tree, query, source, Some((start, end)));
        let callee = capture_number(names, "callee"@);
        law_capture_number(names, "callee"@);
        if calls_name(matches, callee, (start, end), name) {
            let (i, j) = choose|i: int, j: int|
                0 <= i < matches.len() && 0 <= j < matches[i].len() && is_call(
                    #[trigger] matches[i][j],
                    callee,
                    (start, end),
                    name,
                );
            law_node_text(matches[i][j].node, name);
            assert(is_call_at(names, matches, i, j, start as int, end as int, name));
        }
        if exists|i: int, j: int| #[trigger]
            is_call_at(names, matches, i, j, start as int, end as int, name) {
            let (i, j) = choose|i: int, j: int| #[trigger]
                is_call_at(names, matches, i, j, start as int, end as int, name);
            law_node_text(matches[i][j].node, name);
            assert(is_call(matches[i][j], callee, (start, end), name));
        }
    }
}

/// A block describes a test: it is a `describe` around it.
pub open spec fn describes(test: BlockView) -> spec_fn(BlockView) -> bool {
    |d: BlockView| d.kind == "describe"@ && d.start <= test.start && test.end <= d.end
}

/// The labels of the blocks that describe a test.
proof fn lemma_descriptions(blocks: Seq<BlockView>, test: BlockView, n: int)
    requires
        0 <= n <= blocks.len(),
    ensures
        descriptions(blocks, test, n) == blocks.take(n).filter(describes(test)).map_values(
            |d: BlockView| d.label,
        ),
    decreases n,
{
    let p = describes(test);
    let f = |d: BlockView| d.label;
    if n > 0 {
        lemma_descriptions(blocks, test, n - 1);
        lemma_filter_next(blocks, p, n - 1);
        let before = blocks.take(n - 1).filter(p);
        if p(blocks[n - 1]) {
            assert(before.push(blocks[n - 1]).map_values(f) =~= before.map_values(f).push(
                blocks[n - 1].label,
            ));
        }
    } else {
        lemma_filter_start(blocks, p);
        assert(descriptions(blocks, test, 0) =~= blocks.take(0).filter(p).map_values(f));
    }
}

/// The name of a test is the word for a test, and then the labels of the blocks that
/// describe it, in their order, and its own, with arrows between them.
pub proof fn law_name_of_a_test(blocks: Seq<BlockView>, test: BlockView)
    ensures
        test_name(blocks, test) == "test "@ + join_of(
            blocks.filter(describes(test)).map_values(|d: BlockView| d.label).push(test.label),
            " > "@,
        ),
{
    lemma_descriptions(blocks, test, blocks.len() as int);
    assert(blocks.take(blocks.len() as int) =~= blocks);
}

/// A test shows a block: one of a test whose bytes call the name.
pub open spec fn shows_block(
    t: TestView,
    source: Seq<char>,
    tree: tree_sitter::Tree,
    cache: Queries,
    blocks: Seq<BlockView>,
    name: Seq<char>,
    i: int,
) -> bool {
    &&& 0 <= i < blocks.len()
    &&& blocks[i].kind == "test"@
    &&& range_calls(source, tree, cache, blocks[i].start, blocks[i].end, name)
    &&& t.name == test_name(blocks, blocks[i])
    &&& t.line == blocks[i].line
    &&& t.signature == blocks[i].signature
}

/// The tests among the first blocks.
proof fn lemma_calling(
    t: TestView,
    source: Seq<char>,
    tree: tree_sitter::Tree,
    cache: Queries,
    file: Seq<char>,
    blocks: Seq<BlockView>,
    name: Seq<char>,
    n: int,
)
    requires
        n <= blocks.len(),
    ensures
        calling_tests(source, tree, cache, file, blocks, name, n).contains(t) <==> t.file == file
            && exists|i: int|
            i < n && #[trigger] shows_block(t, source, tree, cache, blocks, name, i),
    decreases n,
{
    let all = calling_tests(source, tree, cache, file, blocks, name, n);
    if n > 0 {
        lemma_calling(t, source, tree, cache, file, blocks, name, n - 1);
        let before = calling_tests(source, tree, cache, file, blocks, name, n - 1);
        if all.contains(t) {
            let k = choose|k: int| 0 <= k < all.len() && all[k] == t;
            if k < before.len() {
                assert(before[k] == t);
                let i = choose|i: int|
                    i < n - 1 && #[trigger] shows_block(
                        t,
                        source,
                        tree,
                        cache,
                        blocks,
                        name,
                        i,
                    );
                assert(i < n && shows_block(t, source, tree, cache, blocks, name, i));
            } else {
                assert(shows_block(t, source, tree, cache, blocks, name, n - 1));
            }
        }
        if t.file == file && exists|i: int|
            i < n && #[trigger] shows_block(t, source, tree, cache, blocks, name, i) {
            let i = choose|i: int|
                i < n && #[trigger] shows_block(t, source, tree, cache, blocks, name, i);
            if i < n - 1 {
                let k = choose|k: int| 0 <= k < before.len() && before[k] == t;
                assert(all[k] == t);
            } else {
                assert(all[before.len() as int] == t);
            }
        }
    } else {
        assert(all.len() == 0);
    }
}

/// A test of a file calls a name.
pub open spec fn is_test_calling(
    t: TestView,
    cache: Queries,
    source: Seq<char>,
    name: Seq<char>,
) -> bool {
    parse_outcome(grammar_of(Language::Elixir), source) matches Ok(tree) && exists|i: int|
        #[trigger]
        shows_block(t, source, tree, cache, exunit_blocks(source, tree, cache), name, i)
}

/// The tests of one file.
proof fn lemma_tests_in_file(
    t: TestView,
    cache: Queries,
    source: Seq<char>,
    file: Seq<char>,
    name: Seq<char>,
)
    ensures
        tests_in_file(source, cache, file, name).contains(t) <==> t.file == file
            && is_test_calling(t, cache, source, name),
{
    if let Ok(tree) = parse_outcome(grammar_of(Language::Elixir), source) {
        let blocks = exunit_blocks(source, tree, cache);
        let n = blocks.len() as int;
        lemma_calling(t, source, tree, cache, file, blocks, name, n);
        if exists|i: int| #[trigger] shows_block(t, source, tree, cache, blocks, name, i) {
            let i = choose|i: int| #[trigger]
                shows_block(t, source, tree, cache, blocks, name, i);
            assert(i < n && shows_block(t, source, tree, cache, blocks, name, i));
        }
    }
}

/// A file of the index that holds tests of Elixir.
pub open spec fn is_file_of_tests(
    files: Map<Seq<char>, FileEntryView>,
    path: Seq<char>,
) -> bool {
    &&& files[path].language == Language::Elixir
    &&& ends(path, "_test.exs"@) || holds(path, "/test/"@)
}

/// The tests of the files of a list.
proof fn lemma_exunit_tests(
    t: TestView,
    cache: Queries,
    reads: Map<Seq<char>, ReadView>,
    files: Map<Seq<char>, FileEntryView>,
    paths: Seq<Seq<char>>,
    name: Seq<char>,
)
    ensures
        exunit_tests(cache, reads, files, paths, name).contains(t) <==> {
            &&& paths.contains(t.file)
            &&& is_file_of_tests(files, t.file)
            &&& read_of(reads, t.file) matches Ok(source) && is_test_calling(
                t,
                cache,
                source,
                name,
            )
        },
    decreases paths.len(),
{
    let all = exunit_tests(cache, reads, files, paths, name);
    if paths.len() > 0 {
        let rest = paths.drop_last();
        let last = paths.last();
        let n = paths.len() - 1;
        assert(paths[n] == last);
        lemma_exunit_tests(t, cache, reads, files, rest, name);
        law_files_of_tests(last);
        let before = exunit_tests(cache, reads, files, rest, name);
        assert(paths.contains(t.file) <==> rest.contains(t.file) || t.file == last) by {
            if paths.contains(t.file) {
                let i = choose|i: int| 0 <= i < paths.len() && paths[i] == t.file;
                if i < n {
                    assert(rest[i] == t.file);
                }
            }
            if rest.contains(t.file) {
                let i = choose|i: int| 0 <= i < rest.len() && rest[i] == t.file;
                assert(paths[i] == t.file);
            }
        }
        if is_file_of_tests(files, last) && read_of(reads, last) is Ok {
            let source = read_of(reads, last)->Ok_0;
            let here = tests_in_file(source, cache, last, name);
            lemma_tests_in_file(t, cache, source, last, name);
            assert(all == before + here);
            if all.contains(t) {
                let k = choose|k: int| 0 <= k < all.len() && all[k] == t;
                if k < before.len() {
                    assert(before[k] == t);
                } else {
                    assert(here[k - before.len()] == t);
                }
            }
            if before.contains(t) {
                let k = choose|k: int| 0 <= k < before.len() && before[k] == t;
                assert(all[k] == t);
            }
            if here.contains(t) {
                let k = choose|k: int| 0 <= k < here.len() && here[k] == t;
                assert(all[before.len() + k] == t);
            }
        }
    } else {
        assert(all.len() == 0);
    }
}

/// The tests of files that follow one another follow one another, and the tests of a file
/// stand in the order of their blocks.
pub proof fn law_exunit_in_turn(
    cache: Queries,
    reads: Map<Seq<char>, ReadView>,
    files: Map<Seq<char>, FileEntryView>,
    paths: Seq<Seq<char>>,
    path: Seq<char>,
    name: Seq<char>,
    source: Seq<char>,
    tree: tree_sitter::Tree,
    blocks: Seq<BlockView>,
    n: int,
    t: TestView,
)
    requires
        0 <= n < blocks.len(),
    ensures
        exunit_tests(cache, reads, files, Seq::empty(), name).len() == 0,
        exunit_tests(cache, reads, files, paths.push(path), name) == if is_file_of_tests(
            files,
            path,
        ) && read_of(reads, path) is Ok {
            exunit_tests(cache, reads, files, paths, name) + tests_in_file(
                read_of(reads, path)->Ok_0,
                cache,
                path,
                name,
            )
        } else {
            exunit_tests(cache, reads, files, paths, name)
        },
        calling_tests(source, tree, cache, path, blocks, name, 0).len() == 0,
        ({
            let before = calling_tests(source, tree, cache, path, blocks, name, n);
            let after = calling_tests(source, tree, cache, path, blocks, name, n + 1);
            &&& t.file == path && shows_block(t, source, tree, cache, blocks, name, n) ==> after
                == before.push(t)
            &&& !(blocks[n].kind == "test"@ && range_calls(
                source,
                tree,
                cache,
                blocks[n].start,
                blocks[n].end,
                name,
            )) ==> after == before
        }),
{
    law_files_of_tests(path);
    assert(paths.push(path).drop_last() =~= paths);
}

/// The tests found for a function of Elixir: those of the files of tests in the index that
/// can be read and that call the function by its name, no others, and all of them where
/// fewer are shown than asked for. At least one may be shown.
pub proof fn law_tests_of_elixir(
    contents: Map<Seq<char>, SymbolView>,
    cache: Queries,
    reads: Map<Seq<char>, ReadView>,
    files: Map<Seq<char>, FileEntryView>,
    name: Seq<char>,
    file: Seq<char>,
    limit: usize,
    t: TestView,
)
    requires
        lists_in_order(sorted_keys(files), files),
        looked_up(contents, file, name) matches Some(s) && s.language == Language::Elixir,
    ensures
        tests_of(contents, cache, reads, files, name, file, limit) matches Ok(found) && {
            let s = looked_up(contents, file, name)->0;
            let is_one = files.contains_key(t.file) && is_file_of_tests(files, t.file) && (read_of(
                reads,
                t.file,
            ) matches Ok(source) && is_test_calling(t, cache, source, call_name(s)));
            &&& found.contains(t) ==> is_one
            &&& is_one ==> found.contains(t) || found.len() >= limit
            &&& is_one ==> found.len() >= 1
            &&& found.len() <= limit || found.len() == 1
        },
{
    let s = looked_up(contents, file, name)->0;
    let paths = sorted_keys(files);
    let all = exunit_tests(cache, reads, files, paths, call_name(s));
    lemma_exunit_tests(t, cache, reads, files, paths, call_name(s));
    assert(paths.contains(t.file) <==> files.contains_key(t.file));
    let many = if limit == 0 {
        1
    } else {
        limit as int
    };
    lemma_first_members(all, many, t);
}

} // verus!
