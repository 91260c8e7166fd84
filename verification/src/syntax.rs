//! Syntax trees as plain values.
//!
//! A file is parsed with tree-sitter, and the tree it gives is copied, node
//! by node in document order, into a [`SyntaxTree`]: each node's kind, byte
//! span, positions, parent and the field it sits under. Everything that
//! reads a tree reads this copy.

use crate::text::{str_chars, string_from_utf8};
use tree_sitter::{Parser, Query, QueryCursor, StreamingIterator};
use vstd::prelude::*;
use vstd::utf8::{decode_utf8, valid_utf8};

verus! {

#[verifier::external_type_specification]
#[verifier::external_body]
pub struct ExTree(tree_sitter::Tree);

/// A node as plain values: kind, whether it is named, whether its subtree
/// holds a syntax error, (start byte, end byte), (start row, start column,
/// end row, end column), its parent's index and the field it sits under.
pub type NodeRow = (Seq<char>, bool, bool, (usize, usize), (usize, usize, usize, usize), Option<usize>, Option<Seq<char>>);

/// A query capture as plain values: the capture's name, the captured
/// node's (start byte, end byte) and its kind.
pub type CaptureRow = (Seq<char>, usize, usize, Seq<char>);

/// The nodes a tree-sitter tree holds, in document order (a node before
/// its children, siblings in order; tree-sitter's descendant index), each
/// parent given by its index in that order.
pub uninterp spec fn tree_nodes(tree: tree_sitter::Tree) -> Seq<NodeRow>;

/// The nodes tree-sitter-md's block grammar parses `source` into.
pub uninterp spec fn markdown_parse(source: Seq<char>) -> Seq<NodeRow>;

/// The nodes tree-sitter-php's `LANGUAGE_PHP` grammar parses `source` into.
pub uninterp spec fn php_parse(source: Seq<char>) -> Seq<NodeRow>;

/// The nodes tree-sitter-typescript's TypeScript grammar parses `source`
/// into.
pub uninterp spec fn typescript_parse(source: Seq<char>) -> Seq<NodeRow>;

/// The captures of `query` run over the Markdown parse of `source`, in the
/// order tree-sitter's `QueryCursor::matches` reports them; `None` when
/// the query does not compile for the grammar.
pub uninterp spec fn markdown_captures(query: Seq<char>, source: Seq<char>) -> Option<Seq<CaptureRow>>;

/// As [`markdown_captures`], for the PHP grammar.
pub uninterp spec fn php_captures(query: Seq<char>, source: Seq<char>) -> Option<Seq<CaptureRow>>;

/// As [`markdown_captures`], for the TypeScript grammar.
pub uninterp spec fn typescript_captures(query: Seq<char>, source: Seq<char>) -> Option<Seq<CaptureRow>>;

/// The grammars files are parsed with.
#[derive(Debug, Clone, Copy, PartialEq, Eq, Structural)]
pub enum Grammar {
    Markdown,
    Php,
    TypeScript,
}

/// The nodes `grammar` parses `source` into.
pub open spec fn parsed_nodes(grammar: Grammar, source: Seq<char>) -> Seq<NodeRow> {
    match grammar {
        Grammar::Markdown => markdown_parse(source),
        Grammar::Php => php_parse(source),
        Grammar::TypeScript => typescript_parse(source),
    }
}

/// The captures of `query` over `grammar`'s parse of `source`; `None`
/// when the query does not compile for the grammar.
pub open spec fn query_captures(grammar: Grammar, query: Seq<char>, source: Seq<char>) -> Option<Seq<CaptureRow>> {
    match grammar {
        Grammar::Markdown => markdown_captures(query, source),
        Grammar::Php => php_captures(query, source),
        Grammar::TypeScript => typescript_captures(query, source),
    }
}

/// Captures as plain values.
pub open spec fn capture_rows(r: Option<Vec<(String, usize, usize, String)>>) -> Option<Seq<CaptureRow>> {
    match r {
        Some(v) => Some(v@.map_values(|c: (String, usize, usize, String)| (c.0@, c.1, c.2, c.3@))),
        None => None,
    }
}

/// `Parser::parse` of `source` with tree-sitter-md's block grammar. The
/// grammar's ABI version (15) lies in the range tree-sitter 0.27 accepts
/// (13 to 15), so `set_language` succeeds, and `parse` gives `None` only
/// when no language is set or a progress callback cancels, neither of
/// which happens here.
#[verifier::external_body]
fn parse_markdown(source: &str) -> (r: Option<tree_sitter::Tree>)
    ensures
        r is Some,
        tree_nodes(r.unwrap()) == markdown_parse(source@),
{
    let mut parser = Parser::new();
    parser.set_language(&tree_sitter_md::LANGUAGE.into()).ok()?;
    parser.parse(source, None)
}

/// `Parser::parse` of `source` with tree-sitter-php's `LANGUAGE_PHP` (ABI
/// version 15; see [`parse_markdown`] for why it always gives a tree).
#[verifier::external_body]
fn parse_php(source: &str) -> (r: Option<tree_sitter::Tree>)
    ensures
        r is Some,
        tree_nodes(r.unwrap()) == php_parse(source@),
{
    let mut parser = Parser::new();
    parser.set_language(&tree_sitter_php::LANGUAGE_PHP.into()).ok()?;
    parser.parse(source, None)
}

/// `Parser::parse` of `source` with tree-sitter-typescript's
/// `LANGUAGE_TYPESCRIPT` (ABI version 14; see [`parse_markdown`] for why
/// it always gives a tree).
#[verifier::external_body]
fn parse_typescript(source: &str) -> (r: Option<tree_sitter::Tree>)
    ensures
        r is Some,
        tree_nodes(r.unwrap()) == typescript_parse(source@),
{
    let mut parser = Parser::new();
    parser.set_language(&tree_sitter_typescript::LANGUAGE_TYPESCRIPT.into()).ok()?;
    parser.parse(source, None)
}

/// `Query::new` of `query` for tree-sitter-md's block grammar, run by
/// `QueryCursor::matches` over the root of `source`'s parse; each match's
/// captures in order, as plain values. `None` when the query does not
/// compile.
#[verifier::external_body]
fn run_markdown_query(query: &str, source: &str) -> (r: Option<Vec<(String, usize, usize, String)>>)
    ensures
        capture_rows(r) == markdown_captures(query@, source@),
{
    let language: tree_sitter::Language = tree_sitter_md::LANGUAGE.into();
    let mut parser = Parser::new();
    parser.set_language(&language).ok()?;
    let tree = parser.parse(source, None)?;
    let query = Query::new(&language, query).ok()?;
    let names = query.capture_names();
    let mut cursor = QueryCursor::new();
    let found = cursor.matches(&query, tree.root_node(), source.as_bytes()).map_deref(|m| m.captures().iter().map(|c| (names[c.index as usize].to_owned(), c.node.start_byte(), c.node.end_byte(), c.node.kind().to_owned())).collect::<Vec<_>>());
    Some(found.flatten().collect())
}
/// `Query::new` of `query` for tree-sitter-php's `LANGUAGE_PHP`, run by
/// `QueryCursor::matches` over the root of `source`'s parse; each match's
/// captures in order, as plain values. `None` when the query does not
/// compile.
#[verifier::external_body]
fn run_php_query(query: &str, source: &str) -> (r: Option<Vec<(String, usize, usize, String)>>)
    ensures
        capture_rows(r) == php_captures(query@, source@),
{
    let language: tree_sitter::Language = tree_sitter_php::LANGUAGE_PHP.into();
    let mut parser = Parser::new();
    parser.set_language(&language).ok()?;
    let tree = parser.parse(source, None)?;
    let query = Query::new(&language, query).ok()?;
    let names = query.capture_names();
    let mut cursor = QueryCursor::new();
    let found = cursor.matches(&query, tree.root_node(), source.as_bytes()).map_deref(|m| m.captures().iter().map(|c| (names[c.index as usize].to_owned(), c.node.start_byte(), c.node.end_byte(), c.node.kind().to_owned())).collect::<Vec<_>>());
    Some(found.flatten().collect())
}
/// `Query::new` of `query` for tree-sitter-typescript's
/// `LANGUAGE_TYPESCRIPT`, run by
/// `QueryCursor::matches` over the root of `source`'s parse; each match's
/// captures in order, as plain values. `None` when the query does not
/// compile.
#[verifier::external_body]
fn run_typescript_query(query: &str, source: &str) -> (r: Option<Vec<(String, usize, usize, String)>>)
    ensures
        capture_rows(r) == typescript_captures(query@, source@),
{
    let language: tree_sitter::Language = tree_sitter_typescript::LANGUAGE_TYPESCRIPT.into();
    let mut parser = Parser::new();
    parser.set_language(&language).ok()?;
    let tree = parser.parse(source, None)?;
    let query = Query::new(&language, query).ok()?;
    let names = query.capture_names();
    let mut cursor = QueryCursor::new();
    let found = cursor.matches(&query, tree.root_node(), source.as_bytes()).map_deref(|m| m.captures().iter().map(|c| (names[c.index as usize].to_owned(), c.node.start_byte(), c.node.end_byte(), c.node.kind().to_owned())).collect::<Vec<_>>());
    Some(found.flatten().collect())
}
/// `Node::descendant_count` of the tree's root: how many nodes the tree
/// holds.
#[verifier::external_body]
fn tree_node_count(tree: &tree_sitter::Tree) -> (r: usize)
    ensures
        r == tree_nodes(*tree).len(),
{
    tree.root_node().descendant_count()
}

/// The node at descendant index `i` (`TreeCursor::goto_descendant` from the
/// root): its kind, whether it is named, whether it holds an error, its
/// byte span and its positions.
#[verifier::external_body]
fn tree_node_at(tree: &tree_sitter::Tree, i: usize) -> (r: (String, bool, bool, (usize, usize), (usize, usize, usize, usize)))
    requires
        i < tree_nodes(*tree).len(),
    ensures
        r.0@ == tree_nodes(*tree)[i as int].0,
        r.1 == tree_nodes(*tree)[i as int].1,
        r.2 == tree_nodes(*tree)[i as int].2,
        r.3 == tree_nodes(*tree)[i as int].3,
        r.4 == tree_nodes(*tree)[i as int].4,
{
    let mut cursor = tree.walk();
    cursor.goto_descendant(i);
    let node = cursor.node();
    let (start, end) = (node.start_position(), node.end_position());
    (node.kind().to_owned(), node.is_named(), node.has_error(), (node.start_byte(), node.end_byte()), (start.row, start.column, end.row, end.column))
}

/// Where the node at descendant index `i` hangs: the field it sits under
/// (`TreeCursor::field_name`), whether it has a parent
/// (`TreeCursor::goto_parent`), and the parent's descendant index. A
/// parent comes before its children in document order, and only the root,
/// at index 0, has none (nor a field).
#[verifier::external_body]
fn tree_node_link(tree: &tree_sitter::Tree, i: usize) -> (r: (Option<String>, bool, usize))
    requires
        i < tree_nodes(*tree).len(),
    ensures
        opt_field(r.0) == tree_nodes(*tree)[i as int].6,
        tree_nodes(*tree)[i as int].5 == (if r.1 { Some(r.2) } else { None::<usize> }),
        r.1 ==> r.2 < i,
        !r.1 <==> i == 0,
        i == 0 ==> r.0 is None,
{
    let mut cursor = tree.walk();
    cursor.goto_descendant(i);
    let field = cursor.field_name().map(|name| name.to_owned());
    let has_parent = cursor.goto_parent();
    (field, has_parent, cursor.descendant_index())
}

/// One node of a syntax tree.
pub struct SyntaxNode {
    pub kind: String,
    pub is_named: bool,
    /// Whether the node's subtree holds a syntax error.
    pub has_error: bool,
    pub start_byte: usize,
    pub end_byte: usize,
    pub start_row: usize,
    pub start_column: usize,
    pub end_row: usize,
    pub end_column: usize,
    /// The parent's index; `None` for the root.
    pub parent: Option<usize>,
    /// The field the node sits under in its parent, if any.
    pub field: Option<String>,
}

/// A syntax tree, its nodes in document order (a node before its
/// children, siblings in order), the root first.
pub struct SyntaxTree {
    pub nodes: Vec<SyntaxNode>,
}

impl SyntaxTree {
    /// Whether every node's parent comes before it, and only the root has
    /// none.
    pub open spec fn wf(&self) -> bool {
        forall|i: int|
            0 <= i < self.nodes@.len() ==> match (#[trigger] self.nodes@[i]).parent {
                Some(p) => p < i,
                None => i == 0,
            }
    }

    /// Whether every node's span lies inside `source`.
    pub open spec fn spans_within(&self, source: Seq<u8>) -> bool {
        forall|i: int|
            0 <= i < self.nodes@.len() ==> (#[trigger] self.nodes@[i]).start_byte <= self.nodes@[i].end_byte
                <= source.len()
    }

    /// Whether every node's span lies inside `source` (see
    /// [`SyntaxTree::spans_within`]).
    pub fn check_spans_within(&self, source: &[u8]) -> (r: bool)
        ensures
            r == self.spans_within(source@),
    {
        let mut i: usize = 0;
        while i < self.nodes.len()
            invariant
                i <= self.nodes@.len(),
                forall|j: int|
                    0 <= j < i ==> (#[trigger] self.nodes@[j]).start_byte <= self.nodes@[j].end_byte
                        <= source@.len(),
            decreases self.nodes@.len() - i,
        {
            let node = &self.nodes[i];
            if !(node.start_byte <= node.end_byte && node.end_byte <= source.len()) {
                return false;
            }
            i = i + 1;
        }
        true
    }

    /// Copies a tree-sitter tree, node by node in document order.
    pub fn from_tree(tree: &tree_sitter::Tree) -> (r: SyntaxTree)
        ensures
            node_rows(r.nodes@) == tree_nodes(*tree),
            r.wf(),
    {
        let count = tree_node_count(tree);
        let mut nodes: Vec<SyntaxNode> = Vec::new();
        let mut i: usize = 0;
        while i < count
            invariant
                count == tree_nodes(*tree).len(),
                i <= count,
                nodes@.len() == i,
                forall|j: int| 0 <= j < i ==> #[trigger] node_row(nodes@[j]) == tree_nodes(*tree)[j],
                forall|j: int|
                    0 <= j < nodes@.len() ==> match (#[trigger] nodes@[j]).parent {
                        Some(p) => p < j,
                        None => j == 0,
                    },
            decreases count - i,
        {
            let (kind, is_named, has_error, span, position) = tree_node_at(tree, i);
            let (field, has_parent, parent_index) = tree_node_link(tree, i);
            let parent = if has_parent { Some(parent_index) } else { None };
            nodes.push(
                SyntaxNode {
                    kind,
                    is_named,
                    has_error,
                    start_byte: span.0,
                    end_byte: span.1,
                    start_row: position.0,
                    start_column: position.1,
                    end_row: position.2,
                    end_column: position.3,
                    parent,
                    field,
                },
            );
            i = i + 1;
        }
        assert(node_rows(nodes@) =~= tree_nodes(*tree));
        SyntaxTree { nodes }
    }

    /// Whether `query` is a valid tree-sitter query against `grammar`.
    pub fn compiles_query(grammar: Grammar, query: &str) -> (r: bool)
        ensures
            r == (query_captures(grammar, query@, Seq::empty()) is Some),
    {
        let empty = String::new();
        let found = run_query(grammar, query, empty.as_str());
        found.is_some()
    }

    /// Parses `source` with `grammar` and copies the tree.
    pub fn parse(source: &str, grammar: Grammar) -> (r: Option<SyntaxTree>)
        ensures
            r is Some,
            r matches Some(t) ==> node_rows(t.nodes@) == parsed_nodes(grammar, source@) && t.wf(),
    {
        let parsed = match grammar {
            Grammar::Markdown => parse_markdown(source),
            Grammar::Php => parse_php(source),
            Grammar::TypeScript => parse_typescript(source),
        };
        match parsed {
            Some(tree) => Some(SyntaxTree::from_tree(&tree)),
            None => None,
        }
    }
}

/// Runs `query` over `grammar`'s parse of `source`: the captures as plain
/// values, or `None` when the query does not compile.
pub fn run_query(grammar: Grammar, query: &str, source: &str) -> (r: Option<Vec<(String, usize, usize, String)>>)
    ensures
        capture_rows(r) == query_captures(grammar, query@, source@),
{
    match grammar {
        Grammar::Markdown => run_markdown_query(query, source),
        Grammar::Php => run_php_query(query, source),
        Grammar::TypeScript => run_typescript_query(query, source),
    }
}

/// A node as plain values.
pub open spec fn node_row(n: SyntaxNode) -> NodeRow {
    (
        n.kind@,
        n.is_named,
        n.has_error,
        (n.start_byte, n.end_byte),
        (n.start_row, n.start_column, n.end_row, n.end_column),
        n.parent,
        opt_field(n.field),
    )
}

/// Nodes as plain values.
pub open spec fn node_rows(nodes: Seq<SyntaxNode>) -> Seq<NodeRow> {
    nodes.map_values(|n: SyntaxNode| node_row(n))
}

/// The indices of the children of node `p` among the first `n` nodes, in
/// order.
pub open spec fn child_indices(nodes: Seq<SyntaxNode>, p: int, n: int) -> Seq<int>
    decreases n,
{
    if n <= 0 {
        Seq::empty()
    } else {
        child_indices(nodes, p, n - 1) + if nodes[n - 1].parent == Some(p as usize) {
            seq![n - 1]
        } else {
            Seq::empty()
        }
    }
}

/// The indices of the children of node `p`, in order.
pub open spec fn children_of(nodes: Seq<SyntaxNode>, p: int) -> Seq<int> {
    child_indices(nodes, p, nodes.len() as int)
}

/// The first of the nodes `cands` that sits under field `name`.
pub open spec fn first_with_field(nodes: Seq<SyntaxNode>, cands: Seq<int>, name: Seq<char>) -> Option<int>
    decreases cands.len(),
{
    if cands.len() == 0 {
        None
    } else if opt_field(nodes[cands[0]].field) == Some(name) {
        Some(cands[0])
    } else {
        first_with_field(nodes, cands.drop_first(), name)
    }
}

/// The text of node `i` of a tree over `source`: its bytes decoded, when
/// they are valid UTF-8.
pub open spec fn node_text(nodes: Seq<SyntaxNode>, source: Seq<u8>, i: int) -> Option<Seq<char>> {
    let bytes = source.subrange(nodes[i].start_byte as int, nodes[i].end_byte as int);
    if valid_utf8(bytes) {
        Some(decode_utf8(bytes))
    } else {
        None
    }
}

/// The children of `p` among the first `n` nodes lie among them, each
/// with `p` as its parent.
pub proof fn lemma_child_indices_bounds(nodes: Seq<SyntaxNode>, p: int, n: int)
    requires
        0 <= n <= nodes.len(),
    ensures
        forall|k: int|
            0 <= k < child_indices(nodes, p, n).len() ==> 0 <= #[trigger] child_indices(nodes, p, n)[k] < n
                && nodes[child_indices(nodes, p, n)[k]].parent == Some(p as usize),
    decreases n,
{
    if n > 0 {
        lemma_child_indices_bounds(nodes, p, n - 1);
    }
}

impl SyntaxTree {
    /// The children of node `p`, in order.
    pub fn children(&self, p: usize) -> (r: Vec<usize>)
        ensures
            r@.map_values(|c: usize| c as int) == children_of(self.nodes@, p as int),
            forall|k: int| 0 <= k < r@.len() ==> (#[trigger] r@[k]) < self.nodes@.len(),
    {
        let mut r: Vec<usize> = Vec::new();
        let mut i: usize = 0;
        while i < self.nodes.len()
            invariant
                i <= self.nodes@.len(),
                r@.map_values(|c: usize| c as int) == child_indices(self.nodes@, p as int, i as int),
                forall|k: int| 0 <= k < r@.len() ==> (#[trigger] r@[k]) < i,
            decreases self.nodes@.len() - i,
        {
            let ghost before = r@;
            if self.nodes[i].parent == Some(p) {
                r.push(i);
                assert(r@.map_values(|c: usize| c as int) =~= before.map_values(|c: usize| c as int).push(i as int));
            }
            i = i + 1;
        }
        r
    }

    /// The text of node `i` (see [`node_text`]).
    pub fn text_of(&self, source: &[u8], i: usize) -> (r: Option<String>)
        requires
            i < self.nodes@.len(),
            self.spans_within(source@),
        ensures
            match node_text(self.nodes@, source@, i as int) {
                Some(t) => r matches Some(s) && s@ == t,
                None => r is None,
            },
    {
        let start = self.nodes[i].start_byte;
        let end = self.nodes[i].end_byte;
        let mut bytes: Vec<u8> = Vec::new();
        let mut k: usize = start;
        while k < end
            invariant
                start <= k <= end <= source@.len(),
                bytes@ == source@.subrange(start as int, k as int),
            decreases end - k,
        {
            bytes.push(source[k]);
            assert(source@.subrange(start as int, k + 1) =~= source@.subrange(start as int, k as int).push(
                source@[k as int],
            ));
            k = k + 1;
        }
        string_from_utf8(bytes)
    }

    /// The first child of `p` that sits under field `name`
    /// (`Node::child_by_field_name`).
    pub fn child_by_field_name(&self, p: usize, name: &str) -> (r: Option<usize>)
        ensures
            match first_with_field(self.nodes@, children_of(self.nodes@, p as int), name@) {
                Some(c) => r matches Some(x) && x as int == c,
                None => r is None,
            },
            r matches Some(c) ==> c < self.nodes@.len(),
    {
        let kids = self.children(p);
        let ghost all = children_of(self.nodes@, p as int);
        let wanted = str_chars(name);
        let mut k: usize = 0;
        assert(all.skip(0) =~= all);
        while k < kids.len()
            invariant
                all == children_of(self.nodes@, p as int),
                kids@.map_values(|c: usize| c as int) == all,
                forall|m: int| 0 <= m < kids@.len() ==> (#[trigger] kids@[m]) < self.nodes@.len(),
                wanted@ == name@,
                k <= kids@.len(),
                first_with_field(self.nodes@, all, name@) == first_with_field(
                    self.nodes@,
                    all.skip(k as int),
                    name@,
                ),
            decreases kids@.len() - k,
        {
            let c = kids[k];
            assert(all.skip(k as int)[0] == c as int);
            let matches = match &self.nodes[c].field {
                Some(f) => crate::text::chars_eq(str_chars(f.as_str()).as_slice(), wanted.as_slice()),
                None => false,
            };
            if matches {
                assert(opt_field(self.nodes@[c as int].field) == Some(name@));
                assert(first_with_field(self.nodes@, all.skip(k as int), name@) == Some(c as int));
                return Some(c);
            }
            assert(all.skip(k as int).drop_first() =~= all.skip(k + 1));
            k = k + 1;
        }
        None
    }
}

/// An optional field name as characters.
pub open spec fn opt_field(f: Option<String>) -> Option<Seq<char>> {
    match f {
        Some(s) => Some(s@),
        None => None,
    }
}

} // verus!
