//! What is kept of the calls in a file.
use vstd::prelude::*;
use crate::index::call_site_cache::{
    call_sites, fact_of, facts_of, facts_of_match, freshness, identity_of, kind_of,
    receiver_fields, receiver_of, receiver_text, CallSiteCacheFreshness, CallSiteCacheMissReason,
    CallSiteKind, FactView, IdentityView, LookupView,
};
use crate::index::file_entry::{parsed_language, FileEntryView, Language};
use crate::index::file_tree::{site_lookup, FileTreeView};
use crate::laws::captures::{is_first_named, law_capture_number, law_node_text, reads_as};
use crate::symbols::queries::{query_for, ConfigView, Queries, QueryKind};
use crate::symbols::syntax::{
    capture_number, parse_outcome, query_captures, query_matches, query_parents, CaptureView,
    NodeView, ParentView,
};
use crate::text::{line_text, trim_of};

verus! {

/// The child of a node in a field.
pub open spec fn is_in_field(p: ParentView, field: Seq<char>, node: Option<NodeView>) -> bool {
    exists|k: int|
        0 <= k < receiver_fields().len() && (#[trigger] receiver_fields()[k]) == field
            && p.fields[k] == node
}

/// The fields that are asked for.
proof fn lemma_fields()
    ensures
        receiver_fields() == seq!["left"@, "object"@, "path"@, "property"@, "value"@],
        "left"@.len() == 4,
        "object"@.len() == 6,
        "path"@.len() == 4,
        "left"@[0] == 'l',
        "path"@[0] == 'p',
        "property"@.len() == 8,
        "value"@.len() == 5,
{
    reveal_strlit("left");
    reveal_strlit("object");
    reveal_strlit("path");
    reveal_strlit("property");
    reveal_strlit("value");
}

/// The text of a node, without white space around it, where there is a node with text and
/// something is left of it.
pub open spec fn is_text_of(node: Option<NodeView>, text: Seq<char>) -> bool {
    &&& node matches Some(n) && n.text matches Some(t) && text == trim_of(t)
    &&& text.len() > 0
}

/// A text is that of the child in a field.
pub open spec fn has_in_field(p: ParentView, field: Seq<char>, text: Seq<char>) -> bool {
    exists|node: Option<NodeView>| #[trigger]
        is_in_field(p, field, node) && is_text_of(node, text)
}

/// A call is made on a receiver: in Rust on the value before a dot or the path before two
/// colons, in Elixir on what stands left of a dot, and in scripts on the object whose
/// property is what is called.
pub open spec fn is_receiver(
    language: Language,
    callee: NodeView,
    p: ParentView,
    receiver: Seq<char>,
) -> bool {
    match language {
        Language::Rust => {
            ||| p.kind == "field_expression"@ && has_in_field(p, "value"@, receiver)
            ||| p.kind == "scoped_identifier"@ && has_in_field(p, "path"@, receiver)
        },
        Language::Elixir => p.kind == "dot"@ && has_in_field(p, "left"@, receiver),
        Language::TypeScript | Language::JavaScript => {
            &&& p.kind == "member_expression"@
            &&& is_property(p, callee)
            &&& has_in_field(p, "object"@, receiver)
        },
        _ => false,
    }
}

/// What is called has the bytes of the property.
pub open spec fn is_property(p: ParentView, callee: NodeView) -> bool {
    exists|node: Option<NodeView>| #[trigger]
        is_in_field(p, "property"@, node) && (node matches Some(n) && n.start_byte
            == callee.start_byte && n.end_byte == callee.end_byte)
}

/// What is in a field.
proof fn lemma_field(p: ParentView, k: int, node: Option<NodeView>)
    requires
        0 <= k < 5,
    ensures
        is_in_field(p, receiver_fields()[k], node) <==> p.fields[k] == node,
{
    lemma_fields();
    let names = receiver_fields();
    if p.fields[k] == node {
        assert(names[k] == names[k]);
    }
    if is_in_field(p, names[k], node) {
        let j = choose|j: int|
            0 <= j < names.len() && (#[trigger] names[j]) == names[k] && p.fields[j] == node;
        assert(j == k);
    }
}

/// The text in a field.
proof fn lemma_field_text(p: ParentView, k: int, text: Seq<char>)
    requires
        0 <= k < 5,
    ensures
        receiver_text(p.fields[k]) == Some(text) <==> has_in_field(
            p,
            receiver_fields()[k],
            text,
        ),
{
    lemma_field(p, k, p.fields[k]);
    if receiver_text(p.fields[k]) == Some(text) {
        assert(is_in_field(p, receiver_fields()[k], p.fields[k]) && is_text_of(p.fields[k], text));
    }
    if has_in_field(p, receiver_fields()[k], text) {
        let node = choose|node: Option<NodeView>| #[trigger]
            is_in_field(p, receiver_fields()[k], node) && is_text_of(node, text);
        lemma_field(p, k, node);
    }
}

/// The receiver of a call, and the kind of a call of Rust: bare where the node around it is
/// the call itself, a method, a path or a macro.
pub proof fn law_receiver(language: Language, callee: NodeView, p: ParentView, r: Seq<char>)
    ensures
        receiver_of(language, callee, None) is None,
        receiver_of(language, callee, Some(p)) == Some(r) <==> is_receiver(language, callee, p, r),
        kind_of(language, None) is None,
        language != Language::Rust ==> kind_of(language, Some(p)) is None,
        language == Language::Rust ==> {
            let kind = kind_of(language, Some(p));
            &&& kind == Some(CallSiteKind::Bare) <==> p.kind == "call_expression"@
            &&& kind == Some(CallSiteKind::Method) <==> p.kind == "field_expression"@
            &&& kind == Some(CallSiteKind::Qualified) <==> p.kind == "scoped_identifier"@
            &&& kind == Some(CallSiteKind::Macro) <==> p.kind == "macro_invocation"@
        },
{
    lemma_fields();
    lemma_field_text(p, 0, r);
    lemma_field_text(p, 1, r);
    lemma_field_text(p, 2, r);
    lemma_field_text(p, 4, r);
    lemma_field(p, 3, p.fields[3]);
    if is_property(p, callee) {
        let node = choose|node: Option<NodeView>| #[trigger]
            is_in_field(p, "property"@, node) && (node matches Some(n) && n.start_byte
                == callee.start_byte && n.end_byte == callee.end_byte);
        lemma_field(p, 3, node);
    }
    reveal_strlit("call_expression");
    reveal_strlit("field_expression");
    reveal_strlit("scoped_identifier");
    reveal_strlit("macro_invocation");
    assert("call_expression"@.len() == 15);
    assert("field_expression"@.len() == 16 && "field_expression"@[0] == 'f');
    assert("macro_invocation"@.len() == 16 && "macro_invocation"@[0] == 'm');
    assert("scoped_identifier"@.len() == 17);
}

/// A fact says a call: its name, bytes, line and text are those of what was captured, its
/// receiver and kind those of the node around it.
pub open spec fn says_call(
    f: FactView,
    source: Seq<char>,
    language: Language,
    callee: NodeView,
    parent: Option<ParentView>,
) -> bool {
    &&& reads_as(callee, f.callee)
    &&& f.start_byte == callee.start_byte
    &&& f.end_byte == callee.end_byte
    &&& f.line == (callee.start_row + 1) as usize
    &&& f.text == trim_of(line_text(source, callee.start_row as int))
    &&& f.receiver == receiver_of(language, callee, parent)
    &&& f.call_kind == kind_of(language, parent)
}

/// A fact says the call with a number.
pub open spec fn says_call_at(
    f: FactView,
    source: Seq<char>,
    language: Language,
    names: Seq<Seq<char>>,
    matches: Seq<Seq<CaptureView>>,
    parents: Seq<Seq<Option<ParentView>>>,
    i: int,
    j: int,
) -> bool {
    &&& 0 <= i < matches.len()
    &&& says_call_in(f, source, language, names, matches[i], parents[i], j)
}

/// A fact says a call of a match.
pub open spec fn says_call_in(
    f: FactView,
    source: Seq<char>,
    language: Language,
    names: Seq<Seq<char>>,
    captures: Seq<CaptureView>,
    parents: Seq<Option<ParentView>>,
    j: int,
) -> bool {
    &&& 0 <= j < captures.len()
    &&& is_first_named(names, "callee"@, captures[j].index as int)
    &&& says_call(f, source, language, captures[j].node, parents[j])
}

/// The facts of one match.
proof fn lemma_facts_of_match(
    f: FactView,
    source: Seq<char>,
    language: Language,
    names: Seq<Seq<char>>,
    callee: int,
    captures: Seq<CaptureView>,
    parents: Seq<Option<ParentView>>,
)
    requires
        capture_number(names, "callee"@) == Some(callee),
    ensures
        facts_of_match(source, language, callee, captures, parents).contains(f) <==> exists|j: int|
            #[trigger] says_call_in(f, source, language, names, captures, parents, j),
    decreases captures.len(),
{
    let all = facts_of_match(source, language, callee, captures, parents);
    if captures.len() > 0 {
        let rest = captures.drop_last();
        let n = captures.len() - 1;
        lemma_facts_of_match(f, source, language, names, callee, rest, parents);
        law_capture_number(names, "callee"@);
        law_node_text(captures[n].node, f.callee);
        let before = facts_of_match(source, language, callee, rest, parents);
        if all.contains(f) {
            let k = choose|k: int| 0 <= k < all.len() && all[k] == f;
            if k < before.len() {
                assert(before[k] == f);
                let j = choose|j: int| #[trigger]
                    says_call_in(f, source, language, names, rest, parents, j);
                assert(rest[j] == captures[j]);
                assert(says_call_in(f, source, language, names, captures, parents, j));
            } else {
                assert(f == fact_of(source, language, captures[n].node, parents[n]));
                assert(says_call_in(f, source, language, names, captures, parents, n));
            }
        }
        if exists|j: int| #[trigger]
            says_call_in(f, source, language, names, captures, parents, j) {
            let j = choose|j: int| #[trigger]
                says_call_in(f, source, language, names, captures, parents, j);
            if j < n {
                assert(rest[j] == captures[j]);
                assert(says_call_in(f, source, language, names, rest, parents, j));
                let k = choose|k: int| 0 <= k < before.len() && before[k] == f;
                assert(all[k] == f);
            } else {
                assert(captures[n].index == callee);
                assert(f == fact_of(source, language, captures[n].node, parents[n]));
                assert(all[before.len() as int] == f);
            }
        }
    } else {
        assert(all.len() == 0);
    }
}

/// The facts of all matches.
proof fn lemma_facts(
    f: FactView,
    source: Seq<char>,
    language: Language,
    names: Seq<Seq<char>>,
    callee: int,
    matches: Seq<Seq<CaptureView>>,
    parents: Seq<Seq<Option<ParentView>>>,
)
    requires
        capture_number(names, "callee"@) == Some(callee),
    ensures
        facts_of(source, language, callee, matches, parents).contains(f) <==> exists|
            i: int,
            j: int,
        | #[trigger] says_call_at(f, source, language, names, matches, parents, i, j),
    decreases matches.len(),
{
    let all = facts_of(source, language, callee, matches, parents);
    if matches.len() > 0 {
        let rest = matches.drop_last();
        let n = matches.len() - 1;
        lemma_facts(f, source, language, names, callee, rest, parents);
        lemma_facts_of_match(f, source, language, names, callee, matches[n], parents[n]);
        let before = facts_of(source, language, callee, rest, parents);
        let here = facts_of_match(source, language, callee, matches[n], parents[n]);
        assert(all == before + here);
        if all.contains(f) {
            let k = choose|k: int| 0 <= k < all.len() && all[k] == f;
            if k < before.len() {
                assert(before[k] == f);
                let (i, j) = choose|i: int, j: int| #[trigger]
                    says_call_at(f, source, language, names, rest, parents, i, j);
                assert(rest[i] == matches[i]);
                assert(says_call_at(f, source, language, names, matches, parents, i, j));
            } else {
                assert(here[k - before.len()] == f);
                let j = choose|j: int| #[trigger]
                    says_call_in(f, source, language, names, matches[n], parents[n], j);
                assert(says_call_at(f, source, language, names, matches, parents, n, j));
            }
        }
        if exists|i: int, j: int| #[trigger]
            says_call_at(f, source, language, names, matches, parents, i, j) {
            let (i, j) = choose|i: int, j: int| #[trigger]
                says_call_at(f, source, language, names, matches, parents, i, j);
            if i < n {
                assert(rest[i] == matches[i]);
                assert(says_call_at(f, source, language, names, rest, parents, i, j));
                let k = choose|k: int| 0 <= k < before.len() && before[k] == f;
                assert(all[k] == f);
            } else {
                assert(says_call_in(f, source, language, names, matches[n], parents[n], j));
                let k = choose|k: int| 0 <= k < here.len() && here[k] == f;
                assert(all[before.len() + k] == f);
            }
        }
    } else {
        assert(all.len() == 0);
    }
}

/// The facts of a match follow those of the matches before it, and those of its captures
/// one another: one more capture gives one more fact at the end where it is a call.
pub proof fn law_facts_in_turn(
    source: Seq<char>,
    language: Language,
    names: Seq<Seq<char>>,
    callee: int,
    matches: Seq<Seq<CaptureView>>,
    captures: Seq<CaptureView>,
    capture: CaptureView,
    parents: Seq<Seq<Option<ParentView>>>,
    f: FactView,
)
    requires
        capture_number(names, "callee"@) == Some(callee),
    ensures
        facts_of(source, language, callee, Seq::empty(), parents).len() == 0,
        facts_of(source, language, callee, matches.push(captures), parents) == facts_of(
            source,
            language,
            callee,
            matches,
            parents,
        ) + facts_of_match(source, language, callee, captures, parents[matches.len() as int]),
        ({
            let around = parents[matches.len() as int];
            let before = facts_of_match(source, language, callee, captures, around);
            let after = facts_of_match(source, language, callee, captures.push(capture), around);
            let is_call = is_first_named(names, "callee"@, capture.index as int);
            &&& is_call && says_call(
                f,
                source,
                language,
                capture.node,
                around[captures.len() as int],
            ) ==> after == before.push(f)
            &&& !is_call ==> after == before
        }),
{
    law_capture_number(names, "callee"@);
    law_node_text(capture.node, f.callee);
    assert(matches.push(captures).drop_last() =~= matches);
    assert(captures.push(capture).drop_last() =~= captures);
    let around = parents[matches.len() as int];
    if says_call(f, source, language, capture.node, around[captures.len() as int]) {
        assert(f == fact_of(source, language, capture.node, around[captures.len() as int]));
    }
}

/// The calls of a file are those that the query for calls captures as `callee`, all of them
/// and nothing else. They cannot be told without a configuration, a tree, a query, or a
/// capture of that name.
pub proof fn law_call_sites(
    c: ConfigView,
    cache: Queries,
    source: Seq<char>,
    language: Language,
    f: FactView,
)
    ensures
        call_sites(None, cache, source, language) is None,
        match (
            parse_outcome(c.language, source),
            query_for(cache, language, QueryKind::Callers, c.language, c.callers_query),
        ) {
            (Ok(tree), Ok(query)) => {
                let names = query_captures(query);
                match call_sites(Some(c), cache, source, language) {
                    Some(facts) => facts.contains(f) <==> exists|i: int, j: int| #[trigger]
                        says_call_at(
                            f,
                            source,
                            language,
                            names,
                            query_matches(tree, query, source, None),
                            query_parents(tree, query, source, receiver_fields()),
                            i,
                            j,
                        ),
                    None => !names.contains("callee"@),
                }
            },
            _ => call_sites(Some(c), cache, source, language) is None,
        },
{
    if let (Ok(tree), Ok(query)) = (
        parse_outcome(c.language, source),
        query_for(cache, language, QueryKind::Callers, c.language, c.callers_query),
    ) {
        let names = query_captures(query);
        law_capture_number(names, "callee"@);
        if let Some(callee) = capture_number(names, "callee"@) {
            lemma_facts(
                f,
                source,
                language,
                names,
                callee,
                query_matches(tree, query, source, None),
                query_parents(tree, query, source, receiver_fields()),
            );
        }
    }
}

/// What was kept of a file holds while the file is no larger than allowed, of a parsed
/// language, and has the path, size, time and language that it had; otherwise it is said
/// which of these fails first.
pub proof fn law_freshness(identity: IdentityView, current: FileEntryView, max_file_size: u64)
    ensures
        ({
            let same = identity.rel_path == current.rel_path && identity.size == current.size
                && identity.modified == current.modified && identity.language == current.language;
            let r = freshness(identity, current, max_file_size);
            &&& r == CallSiteCacheFreshness::Fresh <==> current.size <= max_file_size
                && parsed_language(current.language) && same
            &&& r == CallSiteCacheFreshness::Miss(CallSiteCacheMissReason::Oversized)
                <==> current.size > max_file_size
            &&& r == CallSiteCacheFreshness::Miss(CallSiteCacheMissReason::Unsupported)
                <==> current.size <= max_file_size && !parsed_language(current.language)
            &&& r == CallSiteCacheFreshness::Miss(CallSiteCacheMissReason::Stale) <==> current.size
                <= max_file_size && parsed_language(current.language) && !same
        }),
{
    assert(identity == identity_of(current) <==> identity.rel_path == current.rel_path
        && identity.size == current.size && identity.modified == current.modified
        && identity.language == current.language);
}

/// What is kept of a file is handed out exactly while it holds, and otherwise it is said why
/// not.
pub proof fn law_kept_sites(tree: FileTreeView, path: Seq<char>, max_file_size: u64)
    ensures
        match site_lookup(tree, path, max_file_size) {
            LookupView::Hit(facts) => {
                &&& tree.files.contains_key(path)
                &&& tree.sites.contains_key(path)
                &&& tree.sites[path].facts == facts
                &&& tree.files[path].size <= max_file_size
                &&& parsed_language(tree.files[path].language)
                &&& tree.sites[path].identity == (IdentityView {
                    rel_path: tree.files[path].rel_path,
                    size: tree.files[path].size,
                    modified: tree.files[path].modified,
                    language: tree.files[path].language,
                })
            },
            LookupView::Miss(reason) => {
                &&& reason == CallSiteCacheMissReason::Missing <==> !tree.files.contains_key(path)
                &&& reason == CallSiteCacheMissReason::Oversized <==> tree.files.contains_key(path)
                    && tree.files[path].size > max_file_size
                &&& reason == CallSiteCacheMissReason::Unsupported <==> tree.files.contains_key(
                    path,
                ) && tree.files[path].size <= max_file_size && !parsed_language(
                    tree.files[path].language,
                )
                &&& reason == CallSiteCacheMissReason::Absent ==> !tree.sites.contains_key(path)
                &&& reason == CallSiteCacheMissReason::Stale ==> tree.sites.contains_key(path)
                    && tree.sites[path].identity != identity_of(tree.files[path])
            },
        },
{
}

} // verus!
