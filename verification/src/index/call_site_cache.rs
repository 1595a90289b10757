//! The places where functions are called, and the cache of them.
use vstd::prelude::*;
use crate::index::file_entry::{parsed_language, FileEntry, FileEntryView, Language, Timestamp};
use crate::symbols::queries::{
    cache_after_tree, config_of, get_language_config, open_tree, tree_and_query, ConfigView,
    LanguageConfigs, Queries, QueryCache, QueryKind,
};
use crate::symbols::syntax::{
    all_lie_in, are_bounds, capture_number, capture_views, find_capture, lemma_rows_fit, lies_in,
    match_views, matches_of, node_text, opt_node_view, opt_parent_view, parent_views, parents_of,
    query_captures, query_matches, query_parents, Capture, CaptureView, NodeView, Parent,
    ParentView, SyntaxNode,
};
use crate::text::{
    byte_len, byte_slice, copy_opt, is_on_row, line_text, line_views, lines, lines_of, opt_view,
    same, trim, trim_of, views, Line,
};

verus! {

// ---------------------------------------------------------------------------
// Identities and facts
// ---------------------------------------------------------------------------

/// The state of a file that call sites were taken from.
pub struct IdentityView {
    pub rel_path: Seq<char>,
    pub size: u64,
    pub modified: Timestamp,
    pub language: Language,
}

/// The state of a file that call sites were taken from.
#[derive(Debug, PartialEq, Eq)]
pub struct CallSiteCacheIdentity {
    pub rel_path: String,
    pub size: u64,
    pub modified: Timestamp,
    pub language: Language,
}

impl View for CallSiteCacheIdentity {
    type V = IdentityView;

    open spec fn view(&self) -> IdentityView {
        IdentityView {
            rel_path: self.rel_path@,
            size: self.size,
            modified: self.modified,
            language: self.language,
        }
    }
}

impl Clone for CallSiteCacheIdentity {
    fn clone(&self) -> (r: Self)
        ensures
            r@ == self@,
    {
        CallSiteCacheIdentity {
            rel_path: self.rel_path.clone(),
            size: self.size,
            modified: self.modified,
            language: self.language,
        }
    }
}

/// The state of a file, as its entry has it.
pub open spec fn identity_of(entry: FileEntryView) -> IdentityView {
    IdentityView {
        rel_path: entry.rel_path,
        size: entry.size,
        modified: entry.modified,
        language: entry.language,
    }
}

impl CallSiteCacheIdentity {
    /// The state of a file, as its entry has it.
    pub fn from_entry(entry: &FileEntry) -> (r: Self)
        ensures
            r@ == identity_of(entry@),
    {
        CallSiteCacheIdentity {
            rel_path: entry.rel_path.clone(),
            size: entry.size,
            modified: entry.modified,
            language: entry.language,
        }
    }

    /// Whether two states are the same.
    fn matches(&self, other: &Self) -> (r: bool)
        ensures
            r == (self@ == other@),
    {
        same(self.rel_path.as_str(), other.rel_path.as_str()) && self.size == other.size
            && self.modified == other.modified && self.language == other.language
    }
}

/// How a function is called.
#[derive(Debug, Clone, Copy, PartialEq, Eq, Structural)]
pub enum CallSiteKind {
    Bare,
    Method,
    Qualified,
    Macro,
}

/// A place where a function is called.
pub struct FactView {
    pub callee: Seq<char>,
    pub start_byte: usize,
    pub end_byte: usize,
    pub line: usize,
    pub text: Seq<char>,
    pub receiver: Option<Seq<char>>,
    pub call_kind: Option<CallSiteKind>,
}

/// A place where a function is called: the name called, its bytes, its line
/// (from 1) and the trimmed text of that line, and what it is called on.
#[derive(Debug, PartialEq, Eq)]
pub struct CallSiteFact {
    pub callee: String,
    pub start_byte: usize,
    pub end_byte: usize,
    pub line: usize,
    pub text: String,
    pub receiver: Option<String>,
    pub call_kind: Option<CallSiteKind>,
}

impl View for CallSiteFact {
    type V = FactView;

    open spec fn view(&self) -> FactView {
        FactView {
            callee: self.callee@,
            start_byte: self.start_byte,
            end_byte: self.end_byte,
            line: self.line,
            text: self.text@,
            receiver: opt_view(self.receiver),
            call_kind: self.call_kind,
        }
    }
}

impl Clone for CallSiteFact {
    fn clone(&self) -> (r: Self)
        ensures
            r@ == self@,
    {
        CallSiteFact {
            callee: self.callee.clone(),
            start_byte: self.start_byte,
            end_byte: self.end_byte,
            line: self.line,
            text: self.text.clone(),
            receiver: copy_opt(&self.receiver),
            call_kind: self.call_kind,
        }
    }
}

/// The call sites of a list.
pub open spec fn fact_views(v: Seq<CallSiteFact>) -> Seq<FactView> {
    v.map_values(|f: CallSiteFact| f@)
}

/// A copy of a list of call sites.
pub fn copy_facts(facts: &Vec<CallSiteFact>) -> (r: Vec<CallSiteFact>)
    ensures
        fact_views(r@) == fact_views(facts@),
{
    let mut out: Vec<CallSiteFact> = Vec::new();
    let mut i: usize = 0;
    while i < facts.len()
        invariant
            i <= facts@.len(),
            out@.len() == i,
            forall|k: int| 0 <= k < i ==> (#[trigger] out@[k])@ == facts@[k]@,
        decreases facts@.len() - i,
    {
        out.push(facts[i].clone());
        i = i + 1;
    }
    assert(fact_views(out@) =~= fact_views(facts@));
    out
}

// ---------------------------------------------------------------------------
// Cached call sites
// ---------------------------------------------------------------------------

/// Call sites, with the state of the file they were taken from.
pub struct CachedView {
    pub identity: IdentityView,
    pub facts: Seq<FactView>,
}

/// Call sites, with the state of the file they were taken from.
#[derive(Debug, PartialEq, Eq)]
pub struct CachedCallSites {
    pub identity: CallSiteCacheIdentity,
    pub facts: Vec<CallSiteFact>,
}

impl View for CachedCallSites {
    type V = CachedView;

    open spec fn view(&self) -> CachedView {
        CachedView { identity: self.identity@, facts: fact_views(self.facts@) }
    }
}

impl Clone for CachedCallSites {
    fn clone(&self) -> (r: Self)
        ensures
            r@ == self@,
    {
        CachedCallSites { identity: self.identity.clone(), facts: copy_facts(&self.facts) }
    }
}

/// Why there are no call sites in the cache.
#[derive(Debug, Clone, Copy, PartialEq, Eq, Structural)]
pub enum CallSiteCacheMissReason {
    /// Files of this language are not parsed.
    Unsupported,
    /// The file is not in the index.
    Missing,
    /// Nothing was stored for the file.
    Absent,
    /// The file has changed since.
    Stale,
    /// The file is too large.
    Oversized,
}

/// Whether cached call sites still hold.
#[derive(Debug, Clone, Copy, PartialEq, Eq, Structural)]
pub enum CallSiteCacheFreshness {
    Fresh,
    Miss(CallSiteCacheMissReason),
}

/// What a lookup in the cache of call sites gives.
pub enum LookupView {
    Hit(Seq<FactView>),
    Miss(CallSiteCacheMissReason),
}

/// What a lookup in the cache of call sites gives.
#[derive(Debug, PartialEq, Eq)]
pub enum CallSiteCacheLookup {
    Hit(Vec<CallSiteFact>),
    Miss(CallSiteCacheMissReason),
}

impl View for CallSiteCacheLookup {
    type V = LookupView;

    open spec fn view(&self) -> LookupView {
        match self {
            CallSiteCacheLookup::Hit(facts) => LookupView::Hit(fact_views(facts@)),
            CallSiteCacheLookup::Miss(reason) => LookupView::Miss(*reason),
        }
    }
}

/// Whether call sites that were taken from a file in the state `identity` hold
/// for the file as it is.
pub open spec fn freshness(
    identity: IdentityView,
    current: FileEntryView,
    max_file_size: u64,
) -> CallSiteCacheFreshness {
    if current.size > max_file_size {
        CallSiteCacheFreshness::Miss(CallSiteCacheMissReason::Oversized)
    } else if !parsed_language(current.language) {
        CallSiteCacheFreshness::Miss(CallSiteCacheMissReason::Unsupported)
    } else if identity == identity_of(current) {
        CallSiteCacheFreshness::Fresh
    } else {
        CallSiteCacheFreshness::Miss(CallSiteCacheMissReason::Stale)
    }
}

impl CachedCallSites {
    /// Call sites that were taken from a file in the state of its entry.
    pub fn new(entry: &FileEntry, facts: Vec<CallSiteFact>) -> (r: Self)
        ensures
            r@ == (CachedView { identity: identity_of(entry@), facts: fact_views(facts@) }),
    {
        CachedCallSites { identity: CallSiteCacheIdentity::from_entry(entry), facts }
    }

    /// Whether the call sites hold for the file as it is.
    pub fn freshness_against(&self, current: &FileEntry, max_file_size: u64) -> (r:
        CallSiteCacheFreshness)
        ensures
            r == freshness(self@.identity, current@, max_file_size),
    {
        if current.size > max_file_size {
            return CallSiteCacheFreshness::Miss(CallSiteCacheMissReason::Oversized);
        }
        if !current.language.has_tree_sitter_support() {
            return CallSiteCacheFreshness::Miss(CallSiteCacheMissReason::Unsupported);
        }
        let now = CallSiteCacheIdentity::from_entry(current);
        if self.identity.matches(&now) {
            CallSiteCacheFreshness::Fresh
        } else {
            CallSiteCacheFreshness::Miss(CallSiteCacheMissReason::Stale)
        }
    }
}

/// Call sites taken from a file are fresh for as long as path, size, time of
/// change and language of the file stay what they were, provided that the file is
/// parsed and not too large.
pub proof fn law_fresh_while_unchanged(
    taken: FileEntryView,
    current: FileEntryView,
    max_file_size: u64,
)
    requires
        current.size <= max_file_size,
        parsed_language(current.language),
    ensures
        freshness(identity_of(taken), current, max_file_size) == CallSiteCacheFreshness::Fresh
            <==> taken.rel_path == current.rel_path && taken.size == current.size && taken.modified
            == current.modified && taken.language == current.language,
{
}

// ---------------------------------------------------------------------------
// Receivers and kinds
// ---------------------------------------------------------------------------

/// The fields of a node in which a receiver is looked for.
pub open spec fn receiver_fields() -> Seq<Seq<char>> {
    seq!["left"@, "object"@, "path"@, "property"@, "value"@]
}

/// The fields of a node in which a receiver is looked for.
fn field_names() -> (r: Vec<String>)
    ensures
        views(r@) == receiver_fields(),
        r@.len() == 5,
{
    let r = vec![
        "left".to_string(),
        "object".to_string(),
        "path".to_string(),
        "property".to_string(),
        "value".to_string(),
    ];
    assert(views(r@) =~= receiver_fields());
    r
}

/// The trimmed text of a node; nothing where that is empty.
pub open spec fn receiver_text(node: Option<NodeView>) -> Option<Seq<char>> {
    match node {
        Some(n) => match n.text {
            Some(t) => if trim_of(t).len() > 0 {
                Some(trim_of(t))
            } else {
                None
            },
            None => None,
        },
        None => None,
    }
}

/// What a function is called on. The parent of the called name holds it in a
/// field that depends on the language: the value of a field expression or the
/// path of a scoped name in Rust, the left side of a dot in Elixir, and the object
/// of a member expression whose property is the called name in TypeScript and
/// JavaScript.
pub open spec fn receiver_of(
    language: Language,
    callee: NodeView,
    parent: Option<ParentView>,
) -> Option<Seq<char>> {
    match parent {
        None => None,
        Some(p) => match language {
            Language::Rust => if p.kind == "field_expression"@ {
                receiver_text(p.fields[4])
            } else if p.kind == "scoped_identifier"@ {
                receiver_text(p.fields[2])
            } else {
                None
            },
            Language::Elixir => if p.kind == "dot"@ {
                receiver_text(p.fields[0])
            } else {
                None
            },
            Language::TypeScript | Language::JavaScript => match p.fields[3] {
                Some(property) => if p.kind == "member_expression"@ && property.start_byte
                    == callee.start_byte && property.end_byte == callee.end_byte {
                    receiver_text(p.fields[1])
                } else {
                    None
                },
                None => None,
            },
            _ => None,
        },
    }
}

/// How a function is called; told for Rust only.
pub open spec fn kind_of(language: Language, parent: Option<ParentView>) -> Option<CallSiteKind> {
    match parent {
        Some(p) => if language != Language::Rust {
            None
        } else if p.kind == "call_expression"@ {
            Some(CallSiteKind::Bare)
        } else if p.kind == "field_expression"@ {
            Some(CallSiteKind::Method)
        } else if p.kind == "scoped_identifier"@ {
            Some(CallSiteKind::Qualified)
        } else if p.kind == "macro_invocation"@ {
            Some(CallSiteKind::Macro)
        } else {
            None
        },
        None => None,
    }
}

/// The trimmed text of a node.
fn trimmed_text(node: &Option<SyntaxNode>) -> (r: Option<String>)
    ensures
        opt_view(r) == receiver_text(opt_node_view(*node)),
{
    match node {
        Some(n) => match &n.text {
            Some(t) => {
                let trimmed = trim(t.as_str());
                if trimmed.as_str().is_empty() {
                    None
                } else {
                    Some(trimmed)
                }
            },
            None => None,
        },
        None => None,
    }
}

/// What a function is called on. `parent` has its children in the fields in
/// which a receiver is looked for.
pub fn call_site_receiver(
    language: Language,
    callee: &SyntaxNode,
    parent: &Option<Parent>,
) -> (r: Option<String>)
    requires
        *parent matches Some(p) ==> p.fields@.len() == receiver_fields().len(),
    ensures
        opt_view(r) == receiver_of(language, callee@, opt_parent_view(*parent)),
{
    match parent {
        None => None,
        Some(p) => match language {
            Language::Rust => rust_call_receiver(p),
            Language::Elixir => elixir_call_site_receiver(p),
            Language::TypeScript | Language::JavaScript => typescript_call_site_receiver(callee, p),
            _ => None,
        },
    }
}

/// What a function is called on in Rust.
fn rust_call_receiver(parent: &Parent) -> (r: Option<String>)
    requires
        parent.fields@.len() == 5,
    ensures
        forall|callee: NodeView|
            opt_view(r) == #[trigger] receiver_of(Language::Rust, callee, Some(parent@)),
{
    if same(parent.kind.as_str(), "field_expression") {
        trimmed_text(&parent.fields[4])
    } else if same(parent.kind.as_str(), "scoped_identifier") {
        trimmed_text(&parent.fields[2])
    } else {
        None
    }
}

/// What a function is called on in Elixir.
fn elixir_call_site_receiver(parent: &Parent) -> (r: Option<String>)
    requires
        parent.fields@.len() == 5,
    ensures
        forall|callee: NodeView|
            opt_view(r) == #[trigger] receiver_of(Language::Elixir, callee, Some(parent@)),
{
    if same(parent.kind.as_str(), "dot") {
        trimmed_text(&parent.fields[0])
    } else {
        None
    }
}

/// What a function is called on in TypeScript and JavaScript.
fn typescript_call_site_receiver(callee: &SyntaxNode, parent: &Parent) -> (r: Option<String>)
    requires
        parent.fields@.len() == 5,
    ensures
        opt_view(r) == receiver_of(Language::TypeScript, callee@, Some(parent@)),
        opt_view(r) == receiver_of(Language::JavaScript, callee@, Some(parent@)),
{
    if !same(parent.kind.as_str(), "member_expression") {
        return None;
    }
    match &parent.fields[3] {
        Some(property) => if property.start_byte != callee.start_byte || property.end_byte
            != callee.end_byte {
            None
        } else {
            trimmed_text(&parent.fields[1])
        },
        None => None,
    }
}

/// How a function is called.
pub fn call_site_kind(language: Language, parent: &Option<Parent>) -> (r: Option<CallSiteKind>)
    ensures
        r == kind_of(language, opt_parent_view(*parent)),
{
    match parent {
        Some(p) => {
            let kind = p.kind.as_str();
            if language != Language::Rust {
                None
            } else if same(kind, "call_expression") {
                Some(CallSiteKind::Bare)
            } else if same(kind, "field_expression") {
                Some(CallSiteKind::Method)
            } else if same(kind, "scoped_identifier") {
                Some(CallSiteKind::Qualified)
            } else if same(kind, "macro_invocation") {
                Some(CallSiteKind::Macro)
            } else {
                None
            }
        },
        None => None,
    }
}

// ---------------------------------------------------------------------------
// Extraction
// ---------------------------------------------------------------------------

/// The call site at a node.
pub open spec fn fact_of(
    source: Seq<char>,
    language: Language,
    callee: NodeView,
    parent: Option<ParentView>,
) -> FactView {
    FactView {
        callee: node_text(callee),
        start_byte: callee.start_byte,
        end_byte: callee.end_byte,
        line: (callee.start_row + 1) as usize,
        text: trim_of(line_text(source, callee.start_row as int)),
        receiver: receiver_of(language, callee, parent),
        call_kind: kind_of(language, parent),
    }
}

/// The call sites of a match: its captures with the number `callee`.
pub open spec fn facts_of_match(
    source: Seq<char>,
    language: Language,
    callee: int,
    captures: Seq<CaptureView>,
    parents: Seq<Option<ParentView>>,
) -> Seq<FactView>
    decreases captures.len(),
{
    if captures.len() == 0 {
        Seq::empty()
    } else {
        let before = facts_of_match(source, language, callee, captures.drop_last(), parents);
        let n = captures.len() - 1;
        if captures[n].index == callee {
            before.push(fact_of(source, language, captures[n].node, parents[n]))
        } else {
            before
        }
    }
}

/// The call sites of the matches, in their order.
pub open spec fn facts_of(
    source: Seq<char>,
    language: Language,
    callee: int,
    matches: Seq<Seq<CaptureView>>,
    parents: Seq<Seq<Option<ParentView>>>,
) -> Seq<FactView>
    decreases matches.len(),
{
    if matches.len() == 0 {
        Seq::empty()
    } else {
        let n = matches.len() - 1;
        facts_of(source, language, callee, matches.drop_last(), parents) + facts_of_match(
            source,
            language,
            callee,
            matches[n],
            parents[n],
        )
    }
}

/// The call sites in a text of a language; nothing where the language has no
/// configuration, the text no tree, or the query no capture of called names.
pub open spec fn call_sites(
    config: Option<ConfigView>,
    cache: Queries,
    source: Seq<char>,
    language: Language,
) -> Option<Seq<FactView>> {
    match config {
        None => None,
        Some(c) => match tree_and_query(
            cache,
            language,
            QueryKind::Callers,
            c.language,
            c.callers_query,
            source,
        ) {
            Some((tree, query)) => match capture_number(query_captures(query), "callee"@) {
                Some(callee) => Some(
                    facts_of(
                        source,
                        language,
                        callee,
                        query_matches(tree, query, source, None),
                        query_parents(tree, query, source, receiver_fields()),
                    ),
                ),
                None => None,
            },
            None => None,
        },
    }
}

/// The cache of queries once the calls in a text have been looked for.
pub open spec fn cache_after_calls(
    config: Option<ConfigView>,
    cache: Queries,
    source: Seq<char>,
    language: Language,
) -> Queries {
    match config {
        None => cache,
        Some(c) => cache_after_tree(
            cache,
            language,
            QueryKind::Callers,
            c.language,
            c.callers_query,
            source,
        ),
    }
}

/// A call site stands in a text: the called name is what the bytes of the call hold, and
/// the line is that on which they start. They are whole characters, where the text has
/// fewer bytes than a `u32` can count.
pub open spec fn stands_in(fact: FactView, source: Seq<char>) -> bool {
    &&& fact.start_byte <= fact.end_byte <= byte_len(source)
    &&& fact.start_byte < fact.end_byte ==> match byte_slice(
        source,
        fact.start_byte as int,
        fact.end_byte as int,
    ) {
        Some(t) => fact.callee == t,
        None => fact.callee.len() == 0,
    }
    &&& fact.start_byte == fact.end_byte ==> fact.callee.len() == 0
    &&& fact.line >= 1
    &&& is_on_row(source, fact.start_byte as int, fact.line - 1)
    &&& fact.text == trim_of(line_text(source, fact.line - 1))
    &&& byte_len(source) < u32::MAX ==> are_bounds(source, fact.start_byte, fact.end_byte)
}

/// The call sites of nodes that lie in a text stand in it.
proof fn lemma_match_stands(
    source: Seq<char>,
    language: Language,
    callee: int,
    captures: Seq<CaptureView>,
    parents: Seq<Option<ParentView>>,
)
    requires
        forall|j: int| 0 <= j < captures.len() ==> lies_in((#[trigger] captures[j]).node, source),
    ensures
        forall|k: int|
            0 <= k < facts_of_match(source, language, callee, captures, parents).len()
                ==> stands_in(
                #[trigger] facts_of_match(source, language, callee, captures, parents)[k],
                source,
            ),
    decreases captures.len(),
{
    if captures.len() > 0 {
        let rest = captures.drop_last();
        assert forall|j: int| 0 <= j < rest.len() implies lies_in(
            (#[trigger] rest[j]).node,
            source,
        ) by {
            assert(rest[j] == captures[j]);
        }
        lemma_match_stands(source, language, callee, rest, parents);
        let n = captures.len() - 1;
        assert(lies_in(captures[n].node, source));
        assert(stands_in(fact_of(source, language, captures[n].node, parents[n]), source));
        let before = facts_of_match(source, language, callee, rest, parents);
        let whole = facts_of_match(source, language, callee, captures, parents);
        assert forall|k: int| 0 <= k < whole.len() implies stands_in(
            #[trigger] whole[k],
            source,
        ) by {
            if k < before.len() {
                assert(whole[k] == before[k]);
            }
        }
    }
}

/// The call sites of nodes that lie in a text stand in it.
proof fn lemma_facts_stand(
    source: Seq<char>,
    language: Language,
    callee: int,
    matches: Seq<Seq<CaptureView>>,
    parents: Seq<Seq<Option<ParentView>>>,
)
    requires
        all_lie_in(matches, source),
    ensures
        forall|k: int|
            0 <= k < facts_of(source, language, callee, matches, parents).len() ==> stands_in(
                #[trigger] facts_of(source, language, callee, matches, parents)[k],
                source,
            ),
    decreases matches.len(),
{
    if matches.len() > 0 {
        let rest = matches.drop_last();
        let n = matches.len() - 1;
        assert forall|i: int, j: int|
            0 <= i < rest.len() && 0 <= j < rest[i].len() implies lies_in(
            (#[trigger] rest[i][j]).node,
            source,
        ) by {
            assert(rest[i][j] == matches[i][j]);
        }
        lemma_facts_stand(source, language, callee, rest, parents);
        assert forall|j: int| 0 <= j < matches[n].len() implies lies_in(
            (#[trigger] matches[n][j]).node,
            source,
        ) by {}
        lemma_match_stands(source, language, callee, matches[n], parents[n]);
        let before = facts_of(source, language, callee, rest, parents);
        let here = facts_of_match(source, language, callee, matches[n], parents[n]);
        let whole = facts_of(source, language, callee, matches, parents);
        assert forall|k: int| 0 <= k < whole.len() implies stands_in(
            #[trigger] whole[k],
            source,
        ) by {
            if k < before.len() {
                assert(whole[k] == before[k]);
            } else {
                assert(whole[k] == here[k - before.len()]);
            }
        }
    }
}

/// The call site at a node.
fn make_fact(
    source: &str,
    rows: &Vec<Line>,
    language: Language,
    callee: &SyntaxNode,
    parent: &Option<Parent>,
) -> (r: CallSiteFact)
    requires
        line_views(rows@) == lines_of(source@),
        callee.start_row < usize::MAX,
        *parent matches Some(p) ==> p.fields@.len() == receiver_fields().len(),
    ensures
        r@ == fact_of(source@, language, callee@, opt_parent_view(*parent)),
{
    let row: usize = callee.start_row;
    let text = if row < rows.len() {
        assert(line_views(rows@)[row as int] == rows@[row as int]@);
        trim(rows[row].text.as_str())
    } else {
        trim("")
    };
    proof {
        reveal_strlit("");
        assert(line_views(rows@).len() == rows@.len());
        assert(row >= rows@.len() ==> ""@ =~= line_text(source@, row as int));
    }
    CallSiteFact {
        callee: callee.text_or_empty(),
        start_byte: callee.start_byte,
        end_byte: callee.end_byte,
        line: row + 1,
        text,
        receiver: call_site_receiver(language, callee, parent),
        call_kind: call_site_kind(language, parent),
    }
}

/// The call sites of the matches of a query. Each capture has its parent, with
/// the children in the fields in which a receiver is looked for, at the same
/// place in `parents`.
pub fn facts_from_matches(
    source: &str,
    language: Language,
    callee: usize,
    matches: &Vec<Vec<Capture>>,
    parents: &Vec<Vec<Option<Parent>>>,
) -> (r: Vec<CallSiteFact>)
    requires
        matches@.len() == parents@.len(),
        forall|i: int|
            0 <= i < matches@.len() ==> (#[trigger] matches@[i])@.len() == parents@[i]@.len(),
        forall|i: int, j: int|
            0 <= i < matches@.len() && 0 <= j < matches@[i]@.len() ==> (
            #[trigger] matches@[i]@[j]).node.start_row < usize::MAX,
        forall|i: int, j: int|
            0 <= i < parents@.len() && 0 <= j < parents@[i]@.len() ==> match (
            #[trigger] parents@[i]@[j]) {
                Some(p) => p.fields@.len() == receiver_fields().len(),
                None => true,
            },
    ensures
        fact_views(r@) == facts_of(
            source@,
            language,
            callee as int,
            match_views(matches@),
            parent_views(parents@),
        ),
{
    let ghost all = match_views(matches@);
    let ghost above = parent_views(parents@);
    let rows = lines(source);
    let mut out: Vec<CallSiteFact> = Vec::new();
    let mut i: usize = 0;
    assert(all.take(0) =~= Seq::empty());
    assert(fact_views(out@) =~= Seq::empty());
    while i < matches.len()
        invariant
            i <= matches@.len() == parents@.len(),
            all == match_views(matches@),
            above == parent_views(parents@),
            line_views(rows@) == lines_of(source@),
            forall|i: int|
                0 <= i < matches@.len() ==> (#[trigger] matches@[i])@.len() == parents@[i]@.len(),
            forall|i: int, j: int|
                0 <= i < matches@.len() && 0 <= j < matches@[i]@.len() ==> (
                #[trigger] matches@[i]@[j]).node.start_row < usize::MAX,
            forall|i: int, j: int|
                0 <= i < parents@.len() && 0 <= j < parents@[i]@.len() ==> match (
                #[trigger] parents@[i]@[j]) {
                    Some(p) => p.fields@.len() == receiver_fields().len(),
                    None => true,
                },
            fact_views(out@) == facts_of(
                source@,
                language,
                callee as int,
                all.take(i as int),
                above,
            ),
        decreases matches@.len() - i,
    {
        let ghost before = fact_views(out@);
        let ghost caps = capture_views(matches@[i as int]@);
        let ghost pars = above[i as int];
        let mut j: usize = 0;
        assert(caps.take(0) =~= Seq::empty());
        assert(before + Seq::<FactView>::empty() =~= before);
        assert(matches@[i as int]@.len() == parents@[i as int]@.len());
        while j < matches[i].len()
            invariant
                j <= matches@[i as int]@.len() == parents@[i as int]@.len(),
                i < matches@.len() == parents@.len(),
                above == parent_views(parents@),
                caps == capture_views(matches@[i as int]@),
                pars == above[i as int],
                line_views(rows@) == lines_of(source@),
                forall|i: int, j: int|
                    0 <= i < matches@.len() && 0 <= j < matches@[i]@.len() ==> (
                    #[trigger] matches@[i]@[j]).node.start_row < usize::MAX,
                forall|i: int, j: int|
                    0 <= i < parents@.len() && 0 <= j < parents@[i]@.len() ==> match (
                    #[trigger] parents@[i]@[j]) {
                        Some(p) => p.fields@.len() == receiver_fields().len(),
                        None => true,
                    },
                fact_views(out@) == before + facts_of_match(
                    source@,
                    language,
                    callee as int,
                    caps.take(j as int),
                    pars,
                ),
            decreases matches@[i as int]@.len() - j,
        {
            let ghost seen = fact_views(out@);
            let ghost old_caps = caps.take(j as int);
            assert(caps.take(j + 1).drop_last() =~= old_caps);
            assert(caps.take(j + 1)[j as int] == matches@[i as int]@[j as int]@);
            assert(pars[j as int] == opt_parent_view(parents@[i as int]@[j as int]));
            if matches[i][j].index == callee {
                let fact = make_fact(
                    source,
                    &rows,
                    language,
                    &matches[i][j].node,
                    &parents[i][j],
                );
                out.push(fact);
                assert(fact_views(out@) =~= seen.push(fact@));
                assert(fact_views(out@) =~= before + facts_of_match(
                    source@,
                    language,
                    callee as int,
                    caps.take(j + 1),
                    pars,
                ));
            }
            j = j + 1;
        }
        assert(caps.take(j as int) =~= caps);
        assert(all.take(i + 1).drop_last() =~= all.take(i as int));
        assert(all.take(i + 1)[i as int] == caps);
        i = i + 1;
    }
    assert(all.take(i as int) =~= all);
    out
}

/// The call sites in a text of a language. Each stands in the text.
pub fn extract_call_site_facts(
    configs: &LanguageConfigs,
    cache: &mut QueryCache,
    source: &str,
    language: Language,
) -> (r: Option<Vec<CallSiteFact>>)
    ensures
        match r {
            Some(facts) => call_sites(
                config_of(configs@, language),
                old(cache)@,
                source@,
                language,
            ) == Some(fact_views(facts@)),
            None => call_sites(
                config_of(configs@, language),
                old(cache)@,
                source@,
                language,
            ) is None,
        },
        final(cache)@ == cache_after_calls(
            config_of(configs@, language),
            old(cache)@,
            source@,
            language,
        ),
        r matches Some(facts) ==> forall|k: int|
            0 <= k < facts@.len() ==> stands_in((#[trigger] facts@[k])@, source@),
{
    let config = match get_language_config(configs, language) {
        Some(c) => c,
        None => return None,
    };
    let (tree, query) = match open_tree(
        cache,
        language,
        QueryKind::Callers,
        &config.language,
        config.callers_query,
        source,
    ) {
        Some(pair) => pair,
        None => return None,
    };
    let callee: usize = match find_capture(query.capture_names(), "callee") {
        Some(k) => k,
        None => return None,
    };
    let fields = field_names();
    let matches = matches_of(&tree, query.query(), source, None);
    proof {
        lemma_rows_fit(matches@, source@);
    }
    let parents = parents_of(&tree, query.query(), source, &fields);
    proof {
        let found = query_matches(tree, query@, source@, None);
        assert(match_views(matches@).len() == matches@.len());
        assert forall|i: int| 0 <= i < matches@.len() implies (#[trigger] matches@[i])@.len()
            == parents@[i]@.len() by {
            assert(match_views(matches@)[i] == capture_views(matches@[i]@));
            assert(found[i].len() == parents@[i]@.len());
        }
        lemma_facts_stand(
            source@,
            language,
            callee as int,
            match_views(matches@),
            parent_views(parents@),
        );
    }
    let facts = facts_from_matches(source, language, callee, &matches, &parents);
    assert forall|k: int| 0 <= k < facts@.len() implies stands_in(
        (#[trigger] facts@[k])@,
        source@,
    ) by {
        assert(fact_views(facts@)[k] == facts@[k]@);
    }
    Some(facts)
}

} // verus!
