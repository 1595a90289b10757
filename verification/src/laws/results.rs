//! What the results that are handed out say.
use vstd::prelude::*;
use crate::index::call_site_cache::{
    fact_views, CallSiteCacheLookup, CallSiteFact, LookupView,
};
use crate::index::file_entry::FileEntry;
use crate::index::watcher::WatcherEventStats;
use crate::ops::content::{grep_views, ChunkIndicesResponse, GrepMatch, PeekResponse};
use crate::ops::symbol_ops::callers::{callers_view, CallerInfo};
use crate::ops::symbol_ops::tests_of::{tests_view, TestInfo};
use crate::ops::symbol_ops::variables::{variables_view, VariableInfo};
use crate::symbols::symbol::{symbol_views, Symbol};
use crate::symbols::syntax::{match_views, Capture, SyntaxNode};
use crate::text::{opt_view, views};

verus! {

/// A found line says its file, number, text, and the lines before and behind it, each under
/// its own name.
pub proof fn law_found_line_says(m: GrepMatch, v: Seq<GrepMatch>, i: int)
    ensures
        m@.file == m.file@,
        m@.line == m.line,
        m@.text == m.text@,
        m@.context_before.len() == m.context_before@.len(),
        0 <= i < m.context_before@.len() ==> m@.context_before[i] == m.context_before@[i]@,
        m@.context_after.len() == m.context_after@.len(),
        0 <= i < m.context_after@.len() ==> m@.context_after[i] == m.context_after@[i]@,
        grep_views(v).len() == v.len(),
        0 <= i < v.len() ==> grep_views(v)[i] == v[i]@,
{
}

/// What was read and cut of a file says its file, its lines or bytes, and its text.
pub proof fn law_reading_says(p: PeekResponse, c: ChunkIndicesResponse)
    ensures
        p@.file == p.file@,
        p@.start_line == p.start_line,
        p@.end_line == p.end_line,
        p@.total_lines == p.total_lines,
        p@.content == p.content@,
        c@.file == c.file@,
        c@.total_bytes == c.total_bytes,
        c@.chunk_size == c.chunk_size,
        c@.overlap == c.overlap,
        c@.chunks == c.chunks@,
{
}

/// Callers, tests and variables say what their fields say, and lists of them say it in
/// their order.
pub proof fn law_callers_tests_and_variables_say(
    c: CallerInfo,
    t: TestInfo,
    x: VariableInfo,
    callers: Vec<CallerInfo>,
    tests: Vec<TestInfo>,
    variables: Vec<VariableInfo>,
    e: String,
    i: int,
)
    ensures
        c@.file == c.file@,
        c@.line == c.line,
        c@.text == c.text@,
        t@.name == t.name@,
        t@.file == t.file@,
        t@.line == t.line,
        t@.signature == t.signature@,
        x@.name == x.name@,
        x@.function == x.function@,
        callers_view(Ok(callers)) matches Ok(v) && v.len() == callers@.len() && (0 <= i < v.len()
            ==> v[i] == callers@[i]@),
        tests_view(Ok(tests)) matches Ok(v) && v.len() == tests@.len() && (0 <= i < v.len() ==> v[i]
            == tests@[i]@),
        variables_view(Ok(variables)) matches Ok(v) && v.len() == variables@.len() && (0 <= i
            < v.len() ==> v[i] == variables@[i]@),
        callers_view(Err(e)) matches Err(m) && m == e@,
        tests_view(Err(e)) matches Err(m) && m == e@,
        variables_view(Err(e)) matches Err(m) && m == e@,
{
}

/// A symbol says what its fields say, and a list of symbols says it in its order.
pub proof fn law_symbol_says(s: Symbol, v: Seq<Symbol>, i: int)
    ensures
        s@.name == s.name@,
        s@.kind == s.kind,
        s@.file == s.file@,
        s@.byte_range == s.byte_range,
        s@.line_range == s.line_range,
        s@.language == s.language,
        s@.signature == s.signature@,
        match s.definition {
            Some(d) => s@.definition == Some(d@),
            None => s@.definition is None,
        },
        match s.parent {
            Some(p) => s@.parent == Some(p@),
            None => s@.parent is None,
        },
        symbol_views(v).len() == v.len(),
        0 <= i < v.len() ==> symbol_views(v)[i] == v[i]@,
{
}

/// An entry of a file and the fact of a call say what their fields say; what is looked up
/// says whether it was found.
pub proof fn law_entry_and_fact_say(
    e: FileEntry,
    f: CallSiteFact,
    facts: Vec<CallSiteFact>,
    i: int,
)
    ensures
        e@.rel_path == e.rel_path@,
        e@.size == e.size,
        e@.modified == e.modified,
        e@.language == e.language,
        e@.symbols_extracted == e.symbols_extracted,
        f@.callee == f.callee@,
        f@.start_byte == f.start_byte,
        f@.end_byte == f.end_byte,
        f@.line == f.line,
        f@.text == f.text@,
        match f.receiver {
            Some(r) => f@.receiver == Some(r@),
            None => f@.receiver is None,
        },
        f@.call_kind == f.call_kind,
        fact_views(facts@).len() == facts@.len(),
        0 <= i < facts@.len() ==> fact_views(facts@)[i] == facts@[i]@,
        CallSiteCacheLookup::Hit(facts)@ == LookupView::Hit(fact_views(facts@)),
{
}

/// What was captured says its number and its node, the node its bytes, rows and text, and
/// lists of captures say it in their order.
pub proof fn law_capture_says(c: Capture, n: SyntaxNode, m: Seq<Vec<Capture>>, i: int, j: int)
    ensures
        c@.index == c.index,
        c@.node == c.node@,
        n@.start_byte == n.start_byte,
        n@.end_byte == n.end_byte,
        n@.start_row == n.start_row,
        n@.end_row == n.end_row,
        match n.text {
            Some(t) => n@.text == Some(t@),
            None => n@.text is None,
        },
        match_views(m).len() == m.len(),
        0 <= i < m.len() ==> match_views(m)[i].len() == m[i]@.len(),
        0 <= i < m.len() && 0 <= j < m[i]@.len() ==> match_views(m)[i][j] == m[i]@[j]@,
{
}

/// The counts of a run say what their fields say.
pub proof fn law_counts_say(c: WatcherEventStats)
    ensures
        c@.raw_events == c.raw_events,
        c@.changed_files == c.changed_files,
        c@.reparsed_files == c.reparsed_files,
        c@.deleted_files == c.deleted_files,
        c@.removed_oversize_files == c.removed_oversize_files,
        c@.skipped_events == c.skipped_events,
{
}

/// Texts say their characters, and lists of texts say them in their order.
pub proof fn law_texts_say(v: Seq<String>, s: String, i: int)
    ensures
        views(v).len() == v.len(),
        0 <= i < v.len() ==> views(v)[i] == v[i]@,
        opt_view(Some(s)) == Some(s@),
        opt_view(None) is None,
{
}

} // verus!
