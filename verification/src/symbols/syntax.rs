//! Syntax trees, parsed and queried with tree-sitter.
//!
//! A grammar, a compiled query and a tree are values of tree-sitter's own. What
//! the rest of the crate reads of a tree are plain values: the nodes that a query
//! captured, with their positions and their text.
use tree_sitter::Language as Grammar;
use tree_sitter::{Query, QueryCursor, QueryError, StreamingIterator, Tree};
use vstd::prelude::*;
use crate::text::{byte_len, byte_slice, char_at_byte, is_on_row, opt_view, same, views};

verus! {

#[verifier::external_type_specification]
#[verifier::external_body]
pub struct ExGrammar(Grammar);

#[verifier::external_type_specification]
#[verifier::external_body]
pub struct ExQuery(tree_sitter::Query);

#[verifier::external_type_specification]
#[verifier::external_body]
pub struct ExTree(tree_sitter::Tree);

#[verifier::external_type_specification]
#[verifier::external_body]
pub struct ExQueryError(tree_sitter::QueryError);

/// Why a text could not be parsed.
pub enum ParseFailureView {
    Grammar(Seq<char>),
    NoTree,
}

/// Why a text could not be parsed.
#[derive(Debug, PartialEq, Eq)]
pub enum ParseFailure {
    /// The grammar was made for another version of the parser; the message says so.
    Grammar(String),
    /// The parser gave no tree.
    NoTree,
}

/// What parsing gave.
pub open spec fn parsed_view(r: Result<Tree, ParseFailure>) -> Result<Tree, ParseFailureView> {
    match r {
        Ok(tree) => Ok(tree),
        Err(ParseFailure::Grammar(message)) => Err(ParseFailureView::Grammar(message@)),
        Err(ParseFailure::NoTree) => Err(ParseFailureView::NoTree),
    }
}

/// A node of a syntax tree.
pub struct NodeView {
    pub start_byte: usize,
    pub end_byte: usize,
    pub start_row: usize,
    pub end_row: usize,
    pub text: Option<Seq<char>>,
}

/// A node of a syntax tree: its bytes, its first and last row (from 0), and its
/// text where its bytes are text.
#[derive(Debug, PartialEq, Eq)]
pub struct SyntaxNode {
    pub start_byte: usize,
    pub end_byte: usize,
    pub start_row: usize,
    pub end_row: usize,
    pub text: Option<String>,
}

impl View for SyntaxNode {
    type V = NodeView;

    open spec fn view(&self) -> NodeView {
        NodeView {
            start_byte: self.start_byte,
            end_byte: self.end_byte,
            start_row: self.start_row,
            end_row: self.end_row,
            text: opt_view(self.text),
        }
    }
}

/// The text of a node; nothing where its bytes are not text.
pub open spec fn node_text(node: NodeView) -> Seq<char> {
    match node.text {
        Some(t) => t,
        None => Seq::empty(),
    }
}

impl SyntaxNode {
    /// The text of the node; nothing where its bytes are not text.
    pub fn text_or_empty(&self) -> (r: String)
        ensures
            r@ == node_text(self@),
    {
        match &self.text {
            Some(t) => t.clone(),
            None => String::new(),
        }
    }
}

/// A node that a query captured, with the number of the capture's name.
pub struct CaptureView {
    pub index: usize,
    pub node: NodeView,
}

/// A node that a query captured, with the number of the capture's name.
#[derive(Debug, PartialEq, Eq)]
pub struct Capture {
    pub index: usize,
    pub node: SyntaxNode,
}

impl View for Capture {
    type V = CaptureView;

    open spec fn view(&self) -> CaptureView {
        CaptureView { index: self.index, node: self.node@ }
    }
}

/// The captures of one match of a query.
pub open spec fn capture_views(v: Seq<Capture>) -> Seq<CaptureView> {
    v.map_values(|c: Capture| c@)
}

/// The captures of each match of a query.
pub open spec fn match_views(v: Seq<Vec<Capture>>) -> Seq<Seq<CaptureView>> {
    v.map_values(|m: Vec<Capture>| capture_views(m@))
}

/// The number of the first capture with this name.
pub open spec fn capture_number(names: Seq<Seq<char>>, name: Seq<char>) -> Option<int>
    decreases names.len(),
{
    if names.len() == 0 {
        None
    } else if names[0] == name {
        Some(0)
    } else {
        match capture_number(names.drop_first(), name) {
            Some(k) => Some(k + 1),
            None => None,
        }
    }
}

/// The number of the first capture with this name.
pub fn find_capture(names: &Vec<String>, name: &str) -> (r: Option<usize>)
    ensures
        match r {
            Some(k) => capture_number(views(names@), name@) == Some(k as int) && k < names@.len(),
            None => capture_number(views(names@), name@) is None,
        },
{
    let ghost all = views(names@);
    let mut i: usize = 0;
    assert(all.skip(0) =~= all);
    while i < names.len()
        invariant
            i <= names@.len(),
            all == views(names@),
            capture_number(all, name@) == (match capture_number(all.skip(i as int), name@) {
                Some(k) => Some(k + i),
                None => None,
            }),
        decreases names@.len() - i,
    {
        assert(all.skip(i as int).drop_first() =~= all.skip(i + 1));
        assert(all.skip(i as int)[0] == names@[i as int]@);
        if same(names[i].as_str(), name) {
            return Some(i);
        }
        i = i + 1;
    }
    None
}

/// The parent of a captured node.
pub struct ParentView {
    pub kind: Seq<char>,
    pub fields: Seq<Option<NodeView>>,
}

/// The parent of a captured node: its kind, and its child in each of the fields
/// that were asked for.
#[derive(Debug, PartialEq, Eq)]
pub struct Parent {
    pub kind: String,
    pub fields: Vec<Option<SyntaxNode>>,
}

/// An optional node.
pub open spec fn opt_node_view(n: Option<SyntaxNode>) -> Option<NodeView> {
    match n {
        Some(n) => Some(n@),
        None => None,
    }
}

impl View for Parent {
    type V = ParentView;

    open spec fn view(&self) -> ParentView {
        ParentView {
            kind: self.kind@,
            fields: self.fields@.map_values(|n: Option<SyntaxNode>| opt_node_view(n)),
        }
    }
}

/// An optional parent.
pub open spec fn opt_parent_view(p: Option<Parent>) -> Option<ParentView> {
    match p {
        Some(p) => Some(p@),
        None => None,
    }
}

/// The parents of the captures of each match of a query.
pub open spec fn parent_views(v: Seq<Vec<Option<Parent>>>) -> Seq<Seq<Option<ParentView>>> {
    v.map_values(
        |m: Vec<Option<Parent>>| m@.map_values(|p: Option<Parent>| opt_parent_view(p)),
    )
}

// ---------------------------------------------------------------------------
// Calls of tree-sitter
// ---------------------------------------------------------------------------

/// What parsing a text with a grammar gives. A grammar is a table that does not
/// change, and no timeout is set, so the tree follows from the two.
pub uninterp spec fn parse_outcome(grammar: Grammar, source: Seq<char>) -> Result<
    Tree,
    ParseFailureView,
>;

/// The tree is that of this text.
pub open spec fn is_tree_of(tree: Tree, source: Seq<char>) -> bool {
    exists|grammar: Grammar| #[trigger]
        parse_outcome(grammar, source) == Ok::<Tree, ParseFailureView>(tree)
}

/// Calls `Parser::set_language` and `Parser::parse` on a new parser, and takes the
/// message of the error of the first.
#[verifier::external_body]
pub(crate) fn parse_source(grammar: &Grammar, source: &str) -> (r: Result<Tree, ParseFailure>)
    ensures
        parsed_view(r) == parse_outcome(*grammar, source@),
{
    let mut parser = tree_sitter::Parser::new();
    parser.set_language(grammar).map_err(|e| ParseFailure::Grammar(e.to_string()))?;
    parser.parse(source, None).ok_or(ParseFailure::NoTree)
}

/// What `Query::new` makes of a text for a grammar: a query, or the error.
pub uninterp spec fn compile_outcome(grammar: Grammar, text: Seq<char>) -> Result<
    Query,
    QueryError,
>;

/// Calls `Query::new`.
#[verifier::external_body]
pub(crate) fn compile_query(grammar: &Grammar, text: &str) -> (r: Result<Query, QueryError>)
    ensures
        r == compile_outcome(*grammar, text@),
{
    tree_sitter::Query::new(grammar, text)
}

/// The message of an error of `Query::new`.
pub uninterp spec fn query_error_message(error: QueryError) -> Seq<char>;

/// Calls `QueryError::to_string`.
#[verifier::external_body]
pub(crate) fn message_of(error: &QueryError) -> (r: String)
    ensures
        r@ == query_error_message(*error),
{
    error.to_string()
}

/// The names of the captures of a query, in the order of their numbers.
pub uninterp spec fn query_captures(query: Query) -> Seq<Seq<char>>;

/// Calls `Query::capture_names`.
#[verifier::external_body]
pub(crate) fn capture_names(query: &Query) -> (r: Vec<String>)
    ensures
        views(r@) == query_captures(*query),
{
    query.capture_names().iter().map(|name| name.to_string()).collect()
}

/// The captures of each match of a query on a tree, in the order in which the
/// cursor of tree-sitter finds them; only matches that touch the byte range,
/// where there is one.
pub uninterp spec fn query_matches(
    tree: Tree,
    query: Query,
    source: Seq<char>,
    range: Option<(usize, usize)>,
) -> Seq<Seq<CaptureView>>;

/// A node lies in a text: its bytes are bytes of the text, its own text is what stands
/// there, and its rows are those on which it starts and ends. Tree-sitter counts bytes as
/// `u32`; in a text with fewer than these can count, nodes start and end with characters.
pub open spec fn lies_in(node: NodeView, source: Seq<char>) -> bool {
    &&& node.start_byte <= node.end_byte <= byte_len(source)
    &&& node.text == if node.start_byte < node.end_byte {
        byte_slice(source, node.start_byte as int, node.end_byte as int)
    } else {
        Some(Seq::empty())
    }
    &&& node.start_row < usize::MAX && is_on_row(
        source,
        node.start_byte as int,
        node.start_row as int,
    )
    &&& node.end_row < usize::MAX && is_on_row(source, node.end_byte as int, node.end_row as int)
    &&& node.start_row <= node.end_row
    &&& byte_len(source) < u32::MAX ==> are_bounds(source, node.start_byte, node.end_byte)
}

/// A node lies within bytes.
pub open spec fn is_within(node: NodeView, range: (usize, usize)) -> bool {
    range.0 <= node.start_byte && node.end_byte <= range.1
}

/// Characters of a text start at both bytes, or it ends there.
pub open spec fn are_bounds(source: Seq<char>, start: usize, end: usize) -> bool {
    char_at_byte(source, start as int) is Some && char_at_byte(source, end as int) is Some
}

/// Every captured node lies in a text.
pub open spec fn all_lie_in(matches: Seq<Seq<CaptureView>>, source: Seq<char>) -> bool {
    forall|i: int, j: int|
        0 <= i < matches.len() && 0 <= j < matches[i].len() ==> lies_in(
            (#[trigger] matches[i][j]).node,
            source,
        )
}

/// The rows of captured nodes that lie in a text can be counted from 1.
pub(crate) proof fn lemma_rows_fit(matches: Seq<Vec<Capture>>, source: Seq<char>)
    requires
        all_lie_in(match_views(matches), source),
    ensures
        forall|i: int, j: int|
            0 <= i < matches.len() && 0 <= j < matches[i]@.len() ==> (
            #[trigger] matches[i]@[j]).node.start_row < usize::MAX && matches[i]@[j].node.end_row
                < usize::MAX,
{
    assert forall|i: int, j: int|
        0 <= i < matches.len() && 0 <= j < matches[i]@.len() implies (
    #[trigger] matches[i]@[j]).node.start_row < usize::MAX && matches[i]@[j].node.end_row
        < usize::MAX by {
        assert(match_views(matches)[i][j] == matches[i]@[j]@);
        assert(lies_in(match_views(matches)[i][j].node, source));
    }
}

/// Calls `QueryCursor::set_byte_range` where there is a range, and
/// `QueryCursor::matches`. The number of a capture is that of one of the query's
/// capture names. The nodes of a tree lie in the text that was parsed, and
/// `Node::utf8_text` takes their bytes from it where these are whole characters, as they
/// are in a text whose bytes tree-sitter can count. A row counts newlines of the text, of
/// which a string holds fewer than `usize::MAX`.
#[verifier::external_body]
pub(crate) fn matches_of(
    tree: &Tree,
    query: &Query,
    source: &str,
    range: Option<(usize, usize)>,
) -> (r: Vec<Vec<Capture>>)
    requires
        is_tree_of(*tree, source@),
    ensures
        match_views(r@) == query_matches(*tree, *query, source@, range),
        forall|i: int, j: int|
            0 <= i < r@.len() && 0 <= j < r@[i]@.len() ==> (#[trigger] r@[i]@[j]).index
                < query_captures(*query).len(),
        all_lie_in(match_views(r@), source@),
{
    let bytes = source.as_bytes();
    let mut cursor = QueryCursor::new();
    if let Some((from, to)) = range { cursor.set_byte_range(from..to); }
    cursor.matches(query, tree.root_node(), bytes).map_deref(|m| m.captures.iter().map(|c|
        Capture { index: c.index as usize, node: SyntaxNode {
            start_byte: c.node.start_byte(), end_byte: c.node.end_byte(),
            start_row: c.node.start_position().row, end_row: c.node.end_position().row,
            text: c.node.utf8_text(bytes).ok().map(str::to_string),
        } }).collect()).collect()
}

/// The parent of each node that `query_matches` gives for no range, with its
/// children in the given fields.
pub uninterp spec fn query_parents(
    tree: Tree,
    query: Query,
    source: Seq<char>,
    fields: Seq<Seq<char>>,
) -> Seq<Seq<Option<ParentView>>>;

/// Calls `QueryCursor::matches`, and `Node::parent` and
/// `Node::child_by_field_name` on what was captured: one parent, or none, for
/// each capture of each match, and one child, or none, for each field.
#[verifier::external_body]
pub(crate) fn parents_of(
    tree: &Tree,
    query: &Query,
    source: &str,
    fields: &Vec<String>,
) -> (r: Vec<Vec<Option<Parent>>>)
    requires
        is_tree_of(*tree, source@),
    ensures
        parent_views(r@) == query_parents(*tree, *query, source@, views(fields@)),
        r@.len() == query_matches(*tree, *query, source@, None).len(),
        forall|i: int|
            0 <= i < r@.len() ==> (#[trigger] r@[i])@.len() == query_matches(
                *tree,
                *query,
                source@,
                None,
            )[i].len(),
        forall|i: int, j: int|
            0 <= i < r@.len() && 0 <= j < r@[i]@.len() ==> match #[trigger] r@[i]@[j] {
                Some(p) => p.fields@.len() == fields@.len(),
                None => true,
            },
{
    let bytes = source.as_bytes();
    let node = |n: tree_sitter::Node| SyntaxNode {
        start_byte: n.start_byte(), end_byte: n.end_byte(),
        start_row: n.start_position().row, end_row: n.end_position().row,
        text: n.utf8_text(bytes).ok().map(str::to_string) };
    let parent = |p: tree_sitter::Node| Parent { kind: p.kind().to_string(),
        fields: fields.iter().map(|f| p.child_by_field_name(f).map(node)).collect() };
    let mut cursor = QueryCursor::new();
    cursor.matches(query, tree.root_node(), bytes)
        .map_deref(|m| m.captures.iter().map(|c| c.node.parent().map(parent)).collect())
        .collect()
}

} // verus!
