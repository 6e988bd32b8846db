//! The search for nodes of syntax trees.

use vstd::prelude::*;
use std::time::Instant;
use tree_sitter::Tree;
use tree_sitter::TreeCursor;
use crate::arena;
use crate::bytes;
use crate::content;
use crate::path;
use crate::text;

verus! {

/// What to search for in source files.
#[derive(Debug, Clone)]
pub struct SyntaxSearchOptions {
    /// The text that a node holds, in any case; any node where it is blank.
    pub query: String,
    /// The directory whose files are read.
    pub under_dir: Option<String>,
    /// The language that the files are read as.
    pub language: Option<String>,
    /// The kind that a node has, in any case.
    pub node_kind: Option<String>,
    /// The number of nodes that is enough.
    pub limit: usize,
    /// The time that the search may take, in nanoseconds.
    pub timeout_nanos: u128,
}

/// A node that was found.
#[derive(Debug, Clone)]
pub struct SyntaxMatch {
    pub path: String,
    pub language: String,
    pub node_kind: String,
    pub line_number: u64,
    pub column_number: u64,
    pub snippet: String,
}

/// What a search found.
#[derive(Debug, Clone)]
pub struct SyntaxSearchResult {
    pub matches: Vec<SyntaxMatch>,
    pub scanned_files: usize,
    pub took_nanos: u128,
    pub timed_out: bool,
}

/// The value of a [`SyntaxMatch`].
pub struct Found {
    pub path: Seq<char>,
    pub language: Seq<char>,
    pub node_kind: Seq<char>,
    pub line_number: int,
    pub column_number: int,
    pub snippet: Seq<char>,
}

impl View for SyntaxMatch {
    type V = Found;

    open spec fn view(&self) -> Found {
        Found {
            path: self.path@,
            language: self.language@,
            node_kind: self.node_kind@,
            line_number: self.line_number as int,
            column_number: self.column_number as int,
            snippet: self.snippet@,
        }
    }
}

/// The values of a list of matches.
pub open spec fn found_seq(v: Seq<SyntaxMatch>) -> Seq<Found> {
    Seq::new(v.len(), |i: int| v[i]@)
}

// ---------------------------------------------------------------------------
// Languages
// ---------------------------------------------------------------------------

/// A language whose syntax is known.
#[derive(Debug, Clone, Copy, PartialEq, Eq, Structural)]
pub enum SyntaxLanguage {
    Rust,
    JavaScript,
    TypeScript,
    Python,
}

/// The language that a name means.
pub open spec fn language_named(raw: Seq<char>) -> Option<SyntaxLanguage> {
    let name = text::lower(text::trim(raw));
    if name == "rs"@ || name == "rust"@ {
        Some(SyntaxLanguage::Rust)
    } else if name == "js"@ || name == "javascript"@ {
        Some(SyntaxLanguage::JavaScript)
    } else if name == "ts"@ || name == "typescript"@ || name == "tsx"@ {
        Some(SyntaxLanguage::TypeScript)
    } else if name == "py"@ || name == "python"@ {
        Some(SyntaxLanguage::Python)
    } else {
        None
    }
}

/// The language of a file, by its extension.
pub open spec fn language_of_file(path: Seq<char>) -> Option<SyntaxLanguage> {
    match path::extension(path) {
        None => None,
        Some(x) => {
            let x = text::lower(x);
            if x == "rs"@ {
                Some(SyntaxLanguage::Rust)
            } else if x == "js"@ || x == "mjs"@ || x == "cjs"@ {
                Some(SyntaxLanguage::JavaScript)
            } else if x == "ts"@ || x == "tsx"@ {
                Some(SyntaxLanguage::TypeScript)
            } else if x == "py"@ {
                Some(SyntaxLanguage::Python)
            } else {
                None
            }
        },
    }
}

impl SyntaxLanguage {
    /// The name of the language.
    pub open spec fn name(self) -> Seq<char> {
        match self {
            SyntaxLanguage::Rust => "rust"@,
            SyntaxLanguage::JavaScript => "javascript"@,
            SyntaxLanguage::TypeScript => "typescript"@,
            SyntaxLanguage::Python => "python"@,
        }
    }

    /// The language that a name means.
    pub fn from_name(raw: &str) -> (r: Option<SyntaxLanguage>)
        ensures
            r == language_named(raw@),
    {
        let lower = text::to_lower(text::trimmed(raw).as_str());
        let name = lower.as_str();
        if text::same_text(name, "rs") || text::same_text(name, "rust") {
            Some(SyntaxLanguage::Rust)
        } else if text::same_text(name, "js") || text::same_text(name, "javascript") {
            Some(SyntaxLanguage::JavaScript)
        } else if text::same_text(name, "ts") || text::same_text(name, "typescript")
            || text::same_text(name, "tsx") {
            Some(SyntaxLanguage::TypeScript)
        } else if text::same_text(name, "py") || text::same_text(name, "python") {
            Some(SyntaxLanguage::Python)
        } else {
            None
        }
    }

    /// The language of a file, by its extension.
    pub fn from_path(path: &str) -> (r: Option<SyntaxLanguage>)
        ensures
            r == language_of_file(path@),
    {
        match path::extension_of(path) {
            None => None,
            Some(extension) => {
                let lower = text::to_lower(extension.as_str());
                let x = lower.as_str();
                if text::same_text(x, "rs") {
                    Some(SyntaxLanguage::Rust)
                } else if text::same_text(x, "js") || text::same_text(x, "mjs")
                    || text::same_text(x, "cjs") {
                    Some(SyntaxLanguage::JavaScript)
                } else if text::same_text(x, "ts") || text::same_text(x, "tsx") {
                    Some(SyntaxLanguage::TypeScript)
                } else if text::same_text(x, "py") {
                    Some(SyntaxLanguage::Python)
                } else {
                    None
                }
            },
        }
    }

    /// The name of the language.
    pub fn as_name(self) -> (r: &'static str)
        ensures
            r@ == self.name(),
    {
        match self {
            SyntaxLanguage::Rust => "rust",
            SyntaxLanguage::JavaScript => "javascript",
            SyntaxLanguage::TypeScript => "typescript",
            SyntaxLanguage::Python => "python",
        }
    }
}

/// The name of a language means that language.
pub proof fn language_names_are_known(language: SyntaxLanguage)
    ensures
        language_named(language.name()) == Some(language),
{
    reveal_strlit("rs");
    reveal_strlit("rust");
    reveal_strlit("js");
    reveal_strlit("javascript");
    reveal_strlit("ts");
    reveal_strlit("typescript");
    reveal_strlit("tsx");
    reveal_strlit("py");
    reveal_strlit("python");
    let n = language.name();
    assert(text::strip_start(n, text::CharSet::Space) == n);
    assert(text::strip_end(n, text::CharSet::Space) == n);
    assert(text::lower(n) =~= n);
    match language {
        SyntaxLanguage::Rust => {},
        SyntaxLanguage::JavaScript => {
            assert(n[0] == 'j');
            assert("rs"@[0] == 'r' && "rust"@[0] == 'r');
        },
        SyntaxLanguage::TypeScript => {
            assert(n[0] == 't');
            assert("rs"@[0] == 'r' && "rust"@[0] == 'r');
            assert("js"@[0] == 'j' && "javascript"@[0] == 'j');
        },
        SyntaxLanguage::Python => {
            assert(n[0] == 'p');
            assert("rs"@[0] == 'r' && "rust"@[0] == 'r');
            assert("js"@[0] == 'j' && "javascript"@[0] == 'j');
            assert("ts"@[0] == 't' && "typescript"@[0] == 't' && "tsx"@[0] == 't');
        },
    }
}

// ---------------------------------------------------------------------------
// Trees
// ---------------------------------------------------------------------------

/// A node of a syntax tree. In a list of nodes, what lies below a node follows
/// it, and lies deeper.
#[derive(Debug, Clone)]
pub struct SyntaxNode {
    pub kind: String,
    /// Whether the grammar names the node.
    pub named: bool,
    /// Where the text of the node starts and ends, in bytes.
    pub start_byte: usize,
    pub end_byte: usize,
    /// Where the text of the node starts, in lines and in bytes of the line.
    pub row: usize,
    pub column: usize,
    /// How many nodes lie above the node.
    pub depth: u32,
}

/// The value of a [`SyntaxNode`].
pub struct Node {
    pub kind: Seq<char>,
    pub named: bool,
    pub start_byte: int,
    pub end_byte: int,
    pub row: int,
    pub column: int,
    pub depth: int,
}

impl View for SyntaxNode {
    type V = Node;

    open spec fn view(&self) -> Node {
        Node {
            kind: self.kind@,
            named: self.named,
            start_byte: self.start_byte as int,
            end_byte: self.end_byte as int,
            row: self.row as int,
            column: self.column as int,
            depth: self.depth as int,
        }
    }
}

/// The values of a list of nodes.
pub open spec fn node_seq(v: Seq<SyntaxNode>) -> Seq<Node> {
    Seq::new(v.len(), |i: int| v[i]@)
}

/// A syntax tree.
#[verifier::external_type_specification]
#[verifier::external_body]
pub struct ExTree(tree_sitter::Tree);

/// A place in a syntax tree.
#[verifier::external_type_specification]
#[verifier::external_body]
pub struct ExTreeCursor<'a>(tree_sitter::TreeCursor<'a>);

/// Whether `tree_sitter::Parser::set_language` accepts the grammar that the
/// crate of a language offers.
pub uninterp spec fn grammar_fits(language: Seq<char>) -> bool;

/// The tree that `tree_sitter::Parser::parse` gives for a source, with the
/// grammar of a language; none where it gives none.
pub uninterp spec fn parsed(source: Seq<char>, language: Seq<char>) -> Option<Tree>;

/// The nodes that a `tree_sitter::Tree` holds: each before what lies below it,
/// and the children of a node in their order.
pub uninterp spec fn tree_nodes(tree: Tree) -> Seq<Node>;

/// The nodes of the tree that a `tree_sitter::TreeCursor` walks.
pub uninterp spec fn cursor_nodes(cursor: TreeCursor) -> Seq<Node>;

/// Where among them a `tree_sitter::TreeCursor` stands.
pub uninterp spec fn cursor_at(cursor: TreeCursor) -> int;

/// `tree_sitter::Parser::parse` of the source, with the grammar that the crate
/// of the language offers. An error where `set_language` refuses the grammar.
#[verifier::external_body]
fn parse_source(source: &str, language: SyntaxLanguage) -> (r: Result<Option<Tree>, String>)
    ensures
        r is Ok == grammar_fits(language.name()),
        r matches Ok(tree) ==> tree == parsed(source@, language.name()),
{
    let grammar = match language {
        SyntaxLanguage::Rust => tree_sitter_rust::LANGUAGE,
        SyntaxLanguage::JavaScript => tree_sitter_javascript::LANGUAGE,
        SyntaxLanguage::TypeScript => tree_sitter_typescript::LANGUAGE_TYPESCRIPT,
        SyntaxLanguage::Python => tree_sitter_python::LANGUAGE,
    };
    let mut parser = tree_sitter::Parser::new();
    parser.set_language(&grammar.into()).map_err(|err| err.to_string())?;
    Ok(parser.parse(source, None))
}

/// The first position from `j` on at which a node lies no deeper than node `i`.
pub open spec fn shallower_from(nodes: Seq<Node>, i: int, j: int) -> int
    decreases nodes.len() - j,
{
    if j >= nodes.len() {
        nodes.len() as int
    } else if nodes[j].depth <= nodes[i].depth {
        j
    } else {
        shallower_from(nodes, i, j + 1)
    }
}

/// The last position before `j` at which a node lies higher than node `i`; -1
/// where there is none.
pub open spec fn higher_before(nodes: Seq<Node>, i: int, j: int) -> int
    decreases j,
{
    if j <= 0 {
        -1
    } else if nodes[j - 1].depth < nodes[i].depth {
        j - 1
    } else {
        higher_before(nodes, i, j - 1)
    }
}

/// The nodes are those of a tree, each before what lies below it: the root
/// first, and no node more than one deeper than the one before it.
pub open spec fn is_preorder(nodes: Seq<Node>) -> bool {
    &&& nodes.len() > 0
    &&& nodes[0].depth == 0
    &&& forall|i: int| 0 < i < nodes.len() ==> 0 < (#[trigger] nodes[i]).depth
    &&& forall|i: int, j: int|
        0 <= i < nodes.len() - 1 && j == i + 1 ==> (#[trigger] nodes[j]).depth <= (
        #[trigger] nodes[i]).depth + 1
}

/// `tree_sitter::Tree::walk` gives a cursor that stands on the root.
#[verifier::external_body]
fn walk_tree<'a>(tree: &'a Tree) -> (r: TreeCursor<'a>)
    ensures
        cursor_nodes(r) == tree_nodes(*tree),
        cursor_at(r) == 0,
        is_preorder(cursor_nodes(r)),
{
    tree.walk()
}

/// What `tree_sitter::Node` says of the node that `tree_sitter::TreeCursor::node`
/// gives, with the depth that `tree_sitter::TreeCursor::depth` gives.
#[verifier::external_body]
fn node_at(cursor: &TreeCursor) -> (r: SyntaxNode)
    ensures
        r@ == cursor_nodes(*cursor)[cursor_at(*cursor)],
{
    let (node, start) = (cursor.node(), cursor.node().start_position());
    SyntaxNode {
        kind: node.kind().to_string(),
        named: node.is_named(),
        start_byte: node.start_byte(),
        end_byte: node.end_byte(),
        row: start.row,
        column: start.column,
        depth: cursor.depth(),
    }
}

/// `tree_sitter::TreeCursor::goto_first_child` goes to the next node where it is
/// one deeper, and stays where it is otherwise.
#[verifier::external_body]
fn to_first_child(cursor: &mut TreeCursor) -> (r: bool)
    ensures
        cursor_nodes(*final(cursor)) == cursor_nodes(*old(cursor)),
        r == ({
            let (nodes, at) = (cursor_nodes(*old(cursor)), cursor_at(*old(cursor)));
            at + 1 < nodes.len() && nodes[at + 1].depth == nodes[at].depth + 1
        }),
        cursor_at(*final(cursor)) == if r {
            cursor_at(*old(cursor)) + 1
        } else {
            cursor_at(*old(cursor))
        },
{
    cursor.goto_first_child()
}

/// `tree_sitter::TreeCursor::goto_next_sibling` goes to the first node behind
/// those below the current one where it lies as deep, and stays where it is
/// otherwise.
#[verifier::external_body]
fn to_next_sibling(cursor: &mut TreeCursor) -> (r: bool)
    ensures
        cursor_nodes(*final(cursor)) == cursor_nodes(*old(cursor)),
        r == ({
            let (nodes, at) = (cursor_nodes(*old(cursor)), cursor_at(*old(cursor)));
            end_below(nodes, at) < nodes.len() && nodes[end_below(nodes, at)].depth
                == nodes[at].depth
        }),
        cursor_at(*final(cursor)) == if r {
            end_below(cursor_nodes(*old(cursor)), cursor_at(*old(cursor)))
        } else {
            cursor_at(*old(cursor))
        },
{
    cursor.goto_next_sibling()
}

/// `tree_sitter::TreeCursor::goto_parent` goes to the last node before the
/// current one that lies higher, and stays on the root.
#[verifier::external_body]
fn to_parent(cursor: &mut TreeCursor) -> (r: bool)
    ensures
        cursor_nodes(*final(cursor)) == cursor_nodes(*old(cursor)),
        r == (cursor_at(*old(cursor)) > 0),
        cursor_at(*final(cursor)) == if r {
            higher_before(
                cursor_nodes(*old(cursor)),
                cursor_at(*old(cursor)),
                cursor_at(*old(cursor)),
            )
        } else {
            cursor_at(*old(cursor))
        },
{
    cursor.goto_parent()
}

proof fn lemma_higher_before(nodes: Seq<Node>, i: int, j: int)
    requires
        is_preorder(nodes),
        0 < j <= i < nodes.len(),
        forall|k: int| j <= k < i ==> (#[trigger] nodes[k]).depth >= nodes[i].depth,
    ensures
        0 <= higher_before(nodes, i, j) < j,
        nodes[higher_before(nodes, i, j)].depth == nodes[i].depth - 1,
        forall|k: int|
            higher_before(nodes, i, j) < k < i ==> (#[trigger] nodes[k]).depth
                >= nodes[i].depth,
    decreases j,
{
    assert(nodes[j].depth <= nodes[j - 1].depth + 1);
    if nodes[j - 1].depth >= nodes[i].depth {
        assert(nodes[i].depth > 0);
        lemma_higher_before(nodes, i, j - 1);
    }
}

proof fn lemma_shallower_from(nodes: Seq<Node>, i: int, j: int, end: int)
    requires
        0 <= i < j <= end <= nodes.len(),
        forall|k: int| j <= k < end ==> (#[trigger] nodes[k]).depth > nodes[i].depth,
        end < nodes.len() ==> nodes[end].depth <= nodes[i].depth,
    ensures
        shallower_from(nodes, i, j) == end,
    decreases end - j,
{
    if j < end {
        assert(nodes[j].depth > nodes[i].depth);
        lemma_shallower_from(nodes, i, j + 1, end);
    }
}

/// The nodes of a tree: first down, then to the next sibling, then up.
fn nodes_of(tree: &Tree) -> (r: Vec<SyntaxNode>)
    ensures
        node_seq(r@) == tree_nodes(*tree),
{
    let mut cursor = walk_tree(tree);
    let ghost all = tree_nodes(*tree);
    let mut list: Vec<SyntaxNode> = Vec::new();
    let mut on = true;
    assert(node_seq(list@) =~= all.take(0));
    while on
        invariant
            is_preorder(all),
            cursor_nodes(cursor) == all,
            on ==> 0 <= cursor_at(cursor) < all.len() && node_seq(list@) == all.take(
                cursor_at(cursor),
            ),
            !on ==> node_seq(list@) == all,
        decreases
            if on {
                all.len() - cursor_at(cursor)
            } else {
                0
            },
    {
        let ghost at = cursor_at(cursor);
        let ghost before = node_seq(list@);
        list.push(node_at(&cursor));
        assert(node_seq(list@) =~= before.push(all[at]));
        assert(all.take(at + 1) =~= before.push(all[at]));
        if !to_first_child(&mut cursor) {
            let mut climbing = true;
            assert(at + 1 < all.len() ==> all[at + 1].depth <= all[at].depth + 1);
            while climbing
                invariant
                    is_preorder(all),
                    cursor_nodes(cursor) == all,
                    0 <= at < all.len(),
                    node_seq(list@) == all.take(at + 1),
                    climbing ==> on && 0 <= cursor_at(cursor) <= at && (at + 1 < all.len()
                        ==> all[at + 1].depth <= all[cursor_at(cursor)].depth) && forall|k: int|
                        cursor_at(cursor) < k <= at ==> (#[trigger] all[k]).depth
                            > all[cursor_at(cursor)].depth,
                    !climbing && on ==> cursor_at(cursor) == at + 1 < all.len(),
                    !on ==> at + 1 == all.len(),
                decreases
                    if climbing {
                        cursor_at(cursor) + 1
                    } else {
                        0
                    },
            {
                let ghost here = cursor_at(cursor);
                proof {
                    lemma_shallower_from(all, here, here + 1, at + 1);
                }
                if to_next_sibling(&mut cursor) {
                    climbing = false;
                } else {
                    proof {
                        if here > 0 {
                            lemma_higher_before(all, here, here);
                        }
                    }
                    if !to_parent(&mut cursor) {
                        climbing = false;
                        on = false;
                        assert(at + 1 == all.len()) by {
                            if at + 1 < all.len() {
                                assert(all[at + 1].depth > 0);
                            }
                        }
                    }
                }
            }
            assert(!on ==> all.take(at + 1) =~= all);
        }
    }
    list
}

/// Where the nodes that lie below a node end.
pub open spec fn end_below(nodes: Seq<Node>, i: int) -> int {
    shallower_from(nodes, i, i + 1)
}

proof fn lemma_shallower(nodes: Seq<Node>, i: int, j: int)
    requires
        0 <= i < j <= nodes.len(),
    ensures
        j <= shallower_from(nodes, i, j) <= nodes.len(),
        forall|k: int| j <= k < shallower_from(nodes, i, j) ==> nodes[k].depth > nodes[i].depth,
        shallower_from(nodes, i, j) < nodes.len() ==> nodes[shallower_from(nodes, i, j)].depth
            <= nodes[i].depth,
    decreases nodes.len() - j,
{
    if j < nodes.len() && nodes[j].depth > nodes[i].depth {
        lemma_shallower(nodes, i, j + 1);
    }
}

/// What lies below a node that lies below node `i` ends within what lies below
/// node `i`.
proof fn lemma_nested(nodes: Seq<Node>, i: int, j: int)
    requires
        0 <= i < j < end_below(nodes, i),
        i < nodes.len(),
    ensures
        j < end_below(nodes, j) <= end_below(nodes, i) <= nodes.len(),
{
    lemma_shallower(nodes, i, i + 1);
    lemma_shallower(nodes, j, j + 1);
    let e = end_below(nodes, i);
    assert(nodes[j].depth > nodes[i].depth);
    if end_below(nodes, j) > e {
        assert(nodes[e].depth > nodes[j].depth);
    }
}

/// The positions of the children of node `i` that the grammar names, from the
/// child at position `j` on.
pub open spec fn named_from(nodes: Seq<Node>, i: int, j: int) -> Seq<int>
    decreases nodes.len() - j,
    via named_from_ends
{
    if j <= i || i < 0 || j >= end_below(nodes, i) || j >= nodes.len() {
        seq![]
    } else {
        let rest = named_from(nodes, i, end_below(nodes, j));
        if nodes[j].named {
            seq![j] + rest
        } else {
            rest
        }
    }
}

#[via_fn]
proof fn named_from_ends(nodes: Seq<Node>, i: int, j: int) {
    if 0 <= i < j < nodes.len() {
        lemma_shallower(nodes, j, j + 1);
    }
}

/// The positions of the children of a node that the grammar names.
pub open spec fn named_children(nodes: Seq<Node>, i: int) -> Seq<int> {
    named_from(nodes, i, i + 1)
}

/// The positions are those of nodes.
pub open spec fn are_nodes(nodes: Seq<Node>, stack: Seq<int>) -> bool {
    forall|k: int| 0 <= k < stack.len() ==> 0 <= #[trigger] stack[k] < nodes.len()
}

/// How many nodes the given ones and what lies below them are.
pub open spec fn weight(nodes: Seq<Node>, stack: Seq<int>) -> int
    decreases stack.len(),
{
    if stack.len() == 0 {
        0
    } else {
        weight(nodes, stack.drop_last()) + (end_below(nodes, stack.last()) - stack.last())
    }
}

proof fn lemma_weight_concat(nodes: Seq<Node>, a: Seq<int>, b: Seq<int>)
    ensures
        weight(nodes, a + b) == weight(nodes, a) + weight(nodes, b),
    decreases b.len(),
{
    if b.len() == 0 {
        assert(a + b =~= a);
    } else {
        lemma_weight_concat(nodes, a, b.drop_last());
        assert((a + b).drop_last() =~= a + b.drop_last());
        assert((a + b).last() == b.last());
    }
}

proof fn lemma_weight_positive(nodes: Seq<Node>, stack: Seq<int>)
    requires
        are_nodes(nodes, stack),
    ensures
        weight(nodes, stack) >= stack.len(),
    decreases stack.len(),
{
    if stack.len() > 0 {
        let rest = stack.drop_last();
        assert forall|k: int| 0 <= k < rest.len() implies 0 <= #[trigger] rest[k] < nodes.len() by {
            assert(rest[k] == stack[k]);
        }
        lemma_weight_positive(nodes, rest);
        assert(0 <= stack[stack.len() - 1] < nodes.len());
        lemma_shallower(nodes, stack.last(), stack.last() + 1);
    }
}

proof fn lemma_named_from(nodes: Seq<Node>, i: int, j: int)
    requires
        0 <= i < j <= end_below(nodes, i),
        i < nodes.len(),
    ensures
        are_nodes(nodes, named_from(nodes, i, j)),
        weight(nodes, named_from(nodes, i, j)) <= end_below(nodes, i) - j,
    decreases nodes.len() - j,
{
    lemma_shallower(nodes, i, i + 1);
    if j < end_below(nodes, i) {
        lemma_nested(nodes, i, j);
        lemma_named_from(nodes, i, end_below(nodes, j));
        let one = seq![j];
        assert(one.drop_last() =~= seq![]);
        assert(weight(nodes, one.drop_last()) == 0);
        lemma_weight_concat(nodes, one, named_from(nodes, i, end_below(nodes, j)));
    }
}

/// A node weighs more than its children.
proof fn lemma_step_down(nodes: Seq<Node>, stack: Seq<int>)
    requires
        stack.len() > 0,
        are_nodes(nodes, stack),
    ensures
        are_nodes(nodes, stack.drop_last() + named_children(nodes, stack.last())),
        0 <= weight(nodes, stack.drop_last() + named_children(nodes, stack.last())) < weight(
            nodes,
            stack,
        ),
{
    let i = stack.last();
    assert(0 <= stack[stack.len() - 1] < nodes.len());
    lemma_shallower(nodes, i, i + 1);
    lemma_named_from(nodes, i, i + 1);
    let rest = stack.drop_last();
    let next = rest + named_children(nodes, i);
    assert forall|k: int| 0 <= k < next.len() implies 0 <= #[trigger] next[k] < nodes.len() by {
        if k < rest.len() {
            assert(next[k] == stack[k]);
        } else {
            assert(next[k] == named_children(nodes, i)[k - rest.len()]);
        }
    }
    lemma_weight_concat(nodes, rest, named_children(nodes, i));
    lemma_weight_positive(nodes, next);
}

/// The nodes in the order in which they are looked at: the one that was put on
/// the stack last, then its children from the last on.
pub open spec fn visits(nodes: Seq<Node>, stack: Seq<int>) -> Seq<int>
    decreases weight(nodes, stack),
    when are_nodes(nodes, stack)
    via visits_end
{
    if stack.len() == 0 {
        seq![]
    } else {
        let i = stack.last();
        seq![i] + visits(nodes, stack.drop_last() + named_children(nodes, i))
    }
}

#[via_fn]
proof fn visits_end(nodes: Seq<Node>, stack: Seq<int>) {
    if stack.len() > 0 {
        lemma_step_down(nodes, stack);
    }
}

/// All nodes of a tree in the order in which they are looked at.
pub open spec fn visiting_order(nodes: Seq<Node>) -> Seq<int> {
    if nodes.len() == 0 {
        seq![]
    } else {
        visits(nodes, seq![0])
    }
}

// ---------------------------------------------------------------------------
// Matching nodes
// ---------------------------------------------------------------------------

/// The most bytes that a snippet keeps of a line.
pub const MAX_SNIPPET_BYTES: usize = 180;

/// What a search asks of a node.
pub struct Wanted {
    pub query: Seq<char>,
    pub kind: Option<Seq<char>>,
}

/// The longest start of a text that takes no more than `max` bytes.
pub open spec fn start_within(s: Seq<char>, max: nat) -> Seq<char>
    decreases s.len(),
{
    if s.len() == 0 || text::byte_len(s) <= max {
        s
    } else {
        start_within(s.drop_last(), max)
    }
}

/// The text itself where it is short, else its start and three dots.
pub open spec fn shortened(s: Seq<char>) -> Seq<char> {
    if text::byte_len(s) <= MAX_SNIPPET_BYTES {
        s
    } else {
        start_within(s, MAX_SNIPPET_BYTES as nat) + "..."@
    }
}

/// The first line of a text.
pub open spec fn first_line(s: Seq<char>) -> Seq<char>
    decreases s.len(),
{
    if s.len() == 0 || s[0] == '\n' {
        seq![]
    } else {
        seq![s[0]] + first_line(s.drop_first())
    }
}

/// The text between two positions in bytes; none where one of them is not
/// between two characters.
pub open spec fn text_between(s: Seq<char>, start: int, end: int) -> Option<Seq<char>> {
    if start == end {
        Some(seq![])
    } else if exists|i: int, j: int| #[trigger] spans(s, i, j, start, end) {
        let (i, j) = choose|i: int, j: int| #[trigger] spans(s, i, j, start, end);
        Some(s.subrange(i, j))
    } else {
        None
    }
}

/// The characters `i..j` are those between two positions in bytes.
pub open spec fn spans(s: Seq<char>, i: int, j: int, start: int, end: int) -> bool {
    0 <= i <= j <= s.len() && text::byte_len(s.take(i)) == start && text::byte_len(s.take(j)) == end
}

/// The node is of the kind, and holds the text, that is asked for.
pub open spec fn node_matches(w: Wanted, node: Node, source: Seq<char>) -> bool {
    &&& node.named
    &&& match w.kind {
        Some(kind) => text::lower(node.kind) == kind,
        None => true,
    }
    &&& match text_between(source, node.start_byte, node.end_byte) {
        Some(t) => w.query.len() == 0 || bytes::contains(
            bytes::utf8(text::lower(t)),
            bytes::utf8(w.query),
        ),
        None => false,
    }
}

/// One more, up to the largest number of a machine word.
pub open spec fn counted_from_one(n: int) -> int {
    if n < usize::MAX {
        n + 1
    } else {
        n
    }
}

/// What is reported of a node.
pub open spec fn report(
    node: Node,
    source: Seq<char>,
    path: Seq<char>,
    language: SyntaxLanguage,
) -> Found {
    let t = text_between(source, node.start_byte, node.end_byte)->0;
    Found {
        path,
        language: language.name(),
        node_kind: node.kind,
        line_number: counted_from_one(node.row),
        column_number: counted_from_one(node.column),
        snippet: shortened(text::trim(first_line(t))),
    }
}

/// What is found at the given positions.
pub open spec fn found_at(
    w: Wanted,
    nodes: Seq<Node>,
    order: Seq<int>,
    source: Seq<char>,
    path: Seq<char>,
    language: SyntaxLanguage,
) -> Seq<Found>
    decreases order.len(),
{
    if order.len() == 0 {
        seq![]
    } else {
        let before = found_at(w, nodes, order.drop_last(), source, path, language);
        let node = nodes[order.last()];
        if node_matches(w, node, source) {
            before.push(report(node, source, path, language))
        } else {
            before
        }
    }
}

proof fn lemma_byte_len_prefix(s: Seq<char>, i: int, j: int)
    requires
        0 <= i <= j <= s.len(),
    ensures
        text::byte_len(s.take(i)) + (j - i) <= text::byte_len(s.take(j)),
{
    bytes::utf8_of_concat(s.take(i), s.subrange(i, j));
    assert(s.take(i) + s.subrange(i, j) =~= s.take(j));
    text::byte_len_zero(s.subrange(i, j));
}

proof fn lemma_spans_unique(s: Seq<char>, i: int, j: int, start: int, end: int)
    requires
        spans(s, i, j, start, end),
    ensures
        text_between(s, start, end) == Some(s.subrange(i, j)),
{
    let (a, b) = choose|a: int, b: int| #[trigger] spans(s, a, b, start, end);
    if a < i {
        lemma_byte_len_prefix(s, a, i);
    } else if i < a {
        lemma_byte_len_prefix(s, i, a);
    }
    if b < j {
        lemma_byte_len_prefix(s, b, j);
    } else if j < b {
        lemma_byte_len_prefix(s, j, b);
    }
    if start == end {
        lemma_byte_len_prefix(s, i, j);
        assert(s.subrange(i, j) =~= seq![]);
    }
}

/// A text whose characters can be found by their positions in bytes.
pub struct SourceText {
    chars: Vec<char>,
    /// The position of each character in bytes, and that of the end.
    starts: Vec<usize>,
}

impl View for SourceText {
    type V = Seq<char>;

    closed spec fn view(&self) -> Seq<char> {
        self.chars@
    }
}

impl SourceText {
    /// The positions are those of the characters.
    pub closed spec fn wf(&self) -> bool {
        &&& self.starts@.len() == self.chars@.len() + 1
        &&& forall|i: int|
            0 <= i < self.starts@.len() ==> #[trigger] self.starts@[i] == text::byte_len(
                self.chars@.take(i),
            )
    }

    /// The text with the positions of its characters.
    pub fn new(source: &str) -> (r: SourceText)
        ensures
            r.wf(),
            r@ == source@,
    {
        let chars = text::chars_of(source);
        let whole = text::len_in_bytes(source);
        let mut starts: Vec<usize> = Vec::with_capacity(chars.len());
        let mut at: usize = 0;
        let mut i: usize = 0;
        assert(chars@.take(0) =~= seq![]);
        starts.push(0);
        while i < chars.len()
            invariant
                i <= chars@.len(),
                chars@ == source@,
                whole == text::byte_len(source@),
                starts@.len() == i + 1,
                at == text::byte_len(chars@.take(i as int)),
                forall|k: int|
                    0 <= k <= i ==> #[trigger] starts@[k] == text::byte_len(chars@.take(k)),
            decreases chars@.len() - i,
        {
            let c = chars[i];
            let ghost s = chars@;
            proof {
                assert(s.take(i + 1) =~= s.take(i as int) + seq![c]);
                bytes::utf8_of_concat(s.take(i as int), seq![c]);
                bytes::one_char_len(c);
                lemma_byte_len_prefix(s, i + 1, s.len() as int);
                assert(s.take(s.len() as int) =~= s);
            }
            at = at + bytes::char_len(c);
            starts.push(at);
            i += 1;
        }
        SourceText { chars, starts }
    }

    /// The number of the character that starts at a position in bytes.
    fn find(&self, at: usize) -> (r: Option<usize>)
        requires
            self.wf(),
        ensures
            match r {
                Some(i) => i <= self.chars@.len() && self.starts@[i as int] == at,
                None => forall|i: int| 0 <= i <= self.chars@.len() ==> self.starts@[i] != at,
            },
    {
        let mut low: usize = 0;
        let mut high: usize = self.starts.len();
        while low < high
            invariant
                self.wf(),
                low <= high <= self.starts@.len(),
                forall|i: int| 0 <= i < low ==> self.starts@[i] < at,
                forall|i: int| high <= i < self.starts@.len() ==> self.starts@[i] > at,
            decreases high - low,
        {
            let mid: usize = low + (high - low) / 2;
            let found = self.starts[mid];
            if found == at {
                return Some(mid);
            } else if found < at {
                proof {
                    assert forall|i: int| 0 <= i < mid + 1 implies self.starts@[i] < at by {
                        lemma_byte_len_prefix(self.chars@, i, mid as int);
                        assert(self.starts@[i] == text::byte_len(self.chars@.take(i)));
                    }
                }
                low = mid + 1;
            } else {
                proof {
                    assert forall|i: int| mid <= i < self.starts@.len() implies self.starts@[i]
                        > at by {
                        lemma_byte_len_prefix(self.chars@, mid as int, i);
                        assert(self.starts@[i] == text::byte_len(self.chars@.take(i)));
                    }
                }
                high = mid;
            }
        }
        None
    }

    /// The text between two positions in bytes.
    fn between(&self, start: usize, end: usize) -> (r: Option<String>)
        requires
            self.wf(),
        ensures
            text::text_of(r) == text_between(self.chars@, start as int, end as int),
    {
        let ghost s = self.chars@;
        if start == end {
            return Some(String::new());
        }
        match (self.find(start), self.find(end)) {
            (Some(i), Some(j)) => {
                if i <= j {
                    proof {
                        lemma_spans_unique(s, i as int, j as int, start as int, end as int);
                    }
                    Some(text::string_of(self.chars.as_slice(), i, j))
                } else {
                    proof {
                        lemma_byte_len_prefix(s, j as int, i as int);
                        assert forall|a: int, b: int| !#[trigger] spans(
                            s,
                            a,
                            b,
                            start as int,
                            end as int,
                        ) by {
                            if spans(s, a, b, start as int, end as int) {
                                lemma_byte_len_prefix(s, a, b);
                            }
                        }
                    }
                    None
                }
            },
            _ => {
                proof {
                    assert forall|a: int, b: int| !#[trigger] spans(
                        s,
                        a,
                        b,
                        start as int,
                        end as int,
                    ) by {
                        if spans(s, a, b, start as int, end as int) {
                            assert(self.starts@[a] == start);
                            assert(self.starts@[b] == end);
                        }
                    }
                }
                None
            },
        }
    }
}

proof fn lemma_start_within(s: Seq<char>, n: int, max: nat)
    requires
        0 <= n <= s.len(),
        text::byte_len(s.take(n)) <= max,
        n < s.len() ==> text::byte_len(s.take(n + 1)) > max,
    ensures
        start_within(s, max) == s.take(n),
    decreases s.len(),
{
    assert(s.take(s.len() as int) =~= s);
    if n < s.len() {
        lemma_byte_len_prefix(s, n + 1, s.len() as int);
        let t = s.drop_last();
        assert(t.take(n) =~= s.take(n));
        if n < t.len() {
            assert(t.take(n + 1) =~= s.take(n + 1));
        }
        lemma_start_within(t, n, max);
    }
}

/// A line as it is shown: cut where it is long. A character that would be cut
/// in two is left out.
pub fn truncate_snippet(snippet: &str) -> (r: String)
    ensures
        r@ == shortened(snippet@),
{
    if text::len_in_bytes(snippet) <= MAX_SNIPPET_BYTES {
        return text::copy_text(snippet);
    }
    let located = SourceText::new(snippet);
    let v = &located.chars;
    let mut n: usize = 0;
    while n < v.len() && located.starts[n + 1] <= MAX_SNIPPET_BYTES
        invariant
            located.wf(),
            *v == located.chars,
            n <= v@.len(),
            located.starts@[n as int] <= MAX_SNIPPET_BYTES,
        decreases v@.len() - n,
    {
        n += 1;
    }
    proof {
        assert(located.starts@[n as int] == text::byte_len(v@.take(n as int)));
        if n < v@.len() {
            assert(located.starts@[n + 1] == text::byte_len(v@.take(n + 1)));
        }
        lemma_start_within(snippet@, n as int, MAX_SNIPPET_BYTES as nat);
        assert(v@.take(n as int) =~= v@.subrange(0, n as int));
    }
    let mut r = text::string_of(v.as_slice(), 0, n);
    text::push_text(&mut r, "...");
    r
}

proof fn lemma_first_line(s: Seq<char>, n: int)
    requires
        0 <= n <= s.len(),
        forall|i: int| 0 <= i < n ==> s[i] != '\n',
        n < s.len() ==> s[n] == '\n',
    ensures
        first_line(s) == s.take(n),
    decreases s.len(),
{
    if n > 0 {
        let t = s.drop_first();
        lemma_first_line(t, n - 1);
        assert(seq![s[0]] + t.take(n - 1) =~= s.take(n));
    } else {
        assert(s.take(0) =~= seq![]);
    }
}

/// The first line of a text.
fn line_of(s: &str) -> (r: String)
    ensures
        r@ == first_line(s@),
{
    let v = text::chars_of(s);
    let mut n: usize = 0;
    while n < v.len() && v[n] != '\n'
        invariant
            n <= v@.len(),
            forall|i: int| 0 <= i < n ==> v@[i] != '\n',
        decreases v@.len() - n,
    {
        n += 1;
    }
    proof {
        lemma_first_line(v@, n as int);
        assert(v@.take(n as int) =~= v@.subrange(0, n as int));
    }
    text::string_of(v.as_slice(), 0, n)
}

fn from_one(n: usize) -> (r: u64)
    ensures
        r == counted_from_one(n as int),
{
    if n < usize::MAX {
        (n + 1) as u64
    } else {
        n as u64
    }
}

// ---------------------------------------------------------------------------
// The search
// ---------------------------------------------------------------------------

/// A point in time.
#[verifier::external_type_specification]
#[verifier::external_body]
pub struct ExInstant(std::time::Instant);

/// `std::time::Instant::elapsed`: the time since a point in time, in
/// nanoseconds. Nothing is claimed of it.
#[verifier::external_body]
fn nanos_since(started: &Instant) -> u128 {
    started.elapsed().as_nanos()
}

/// The least time that a search takes: a tenth of a second.
pub const MIN_TIMEOUT_NANOS: u128 = 100_000_000;

/// Why a search could not be made.
#[derive(Debug, Clone)]
pub enum SyntaxError {
    /// The language is not known: its name.
    UnsupportedLanguage(String),
    /// The directory is not there.
    MissingDirectory(String),
    /// The grammar of a language was refused: which, and why.
    Grammar(String, String),
}

/// What the user is told of an error.
pub open spec fn syntax_message(e: SyntaxError) -> Seq<char> {
    match e {
        SyntaxError::UnsupportedLanguage(name) => "unsupported language '"@ + name@
            + "'. Supported: rust, javascript, typescript, python"@,
        SyntaxError::MissingDirectory(dir) => "syntax search root does not exist: "@ + dir@,
        SyntaxError::Grammar(name, why) => "failed to set parser language for "@ + name@ + ": "@
            + why@,
    }
}

impl SyntaxError {
    /// What the user is told of the error.
    pub fn message(&self) -> (r: String)
        ensures
            r@ == syntax_message(*self),
    {
        match self {
            SyntaxError::UnsupportedLanguage(name) => {
                let mut s = text::copy_text("unsupported language '");
                text::push_text(&mut s, name.as_str());
                text::push_text(&mut s, "'. Supported: rust, javascript, typescript, python");
                s
            },
            SyntaxError::MissingDirectory(dir) => {
                let mut s = text::copy_text("syntax search root does not exist: ");
                text::push_text(&mut s, dir.as_str());
                s
            },
            SyntaxError::Grammar(name, why) => {
                let mut s = text::copy_text("failed to set parser language for ");
                text::push_text(&mut s, name.as_str());
                text::push_text(&mut s, ": ");
                text::push_text(&mut s, why.as_str());
                s
            },
        }
    }
}

/// A search that is under way.
#[derive(Debug)]
pub struct SyntaxSearch {
    pub query: String,
    pub node_kind: Option<String>,
    pub language: Option<SyntaxLanguage>,
    pub limit: usize,
    pub timeout_nanos: u128,
    pub matches: Vec<SyntaxMatch>,
    pub scanned_files: usize,
    pub timed_out: bool,
}

/// What a search was asked for.
pub struct Asked {
    pub wanted: Wanted,
    pub language: Option<SyntaxLanguage>,
    pub limit: nat,
    pub timeout_nanos: nat,
}

/// The kind that is asked for, in lower case; none where it is blank.
pub open spec fn wanted_kind(kind: Option<Seq<char>>) -> Option<Seq<char>> {
    match kind {
        Some(k) => {
            let k = text::lower(text::trim(k));
            if k.len() == 0 {
                None
            } else {
                Some(k)
            }
        },
        None => None,
    }
}

/// What the options ask for: at least one node, and some time.
pub open spec fn asked_of(options: SyntaxSearchOptions) -> Asked {
    Asked {
        wanted: Wanted {
            query: text::lower(text::trim(options.query@)),
            kind: wanted_kind(text::text_of(options.node_kind)),
        },
        language: match options.language {
            Some(name) => language_named(name@),
            None => None,
        },
        limit: if options.limit == 0 {
            1
        } else {
            options.limit as nat
        },
        timeout_nanos: if options.timeout_nanos < MIN_TIMEOUT_NANOS {
            MIN_TIMEOUT_NANOS as nat
        } else {
            options.timeout_nanos as nat
        },
    }
}

/// The directory that is searched.
pub open spec fn root_of(under_dir: Option<Seq<char>>) -> Seq<char> {
    match under_dir {
        Some(dir) => dir,
        None => "."@,
    }
}

/// The directory that is searched: the current one where none is given.
pub fn syntax_root(options: &SyntaxSearchOptions) -> (r: String)
    ensures
        r@ == root_of(text::text_of(options.under_dir)),
{
    match &options.under_dir {
        Some(dir) => text::copy_text(dir.as_str()),
        None => text::copy_text("."),
    }
}

/// What to do with an entry of the directory.
#[derive(Debug, Clone, Copy, PartialEq, Eq, Structural)]
pub enum FileStep {
    /// Go on to the next entry.
    Skip,
    /// Read the file as source in the language.
    Read(SyntaxLanguage),
    /// Search no more.
    Stop,
}

impl SyntaxSearch {
    pub open spec fn asked(&self) -> Asked {
        Asked {
            wanted: Wanted { query: self.query@, kind: text::text_of(self.node_kind) },
            language: self.language,
            limit: self.limit as nat,
            timeout_nanos: self.timeout_nanos as nat,
        }
    }

    /// A search that has not begun. The caller says whether the directory is
    /// there.
    pub fn start(options: &SyntaxSearchOptions, root_exists: bool) -> (r: Result<
        SyntaxSearch,
        SyntaxError,
    >)
        ensures
            ({
                let unknown = options.language is Some && asked_of(*options).language is None;
                &&& unknown ==> (r matches Err(SyntaxError::UnsupportedLanguage(name)) && name@
                    == options.language->0@)
                &&& !unknown && !root_exists ==> (r matches Err(SyntaxError::MissingDirectory(dir))
                    && dir@ == root_of(text::text_of(options.under_dir)))
                &&& !unknown && root_exists ==> (r matches Ok(s) && s.asked() == asked_of(*options)
                    && s.matches@.len() == 0 && s.scanned_files == 0 && !s.timed_out)
            }),
    {
        let query = text::to_lower(text::trimmed(options.query.as_str()).as_str());
        let node_kind: Option<String> = match &options.node_kind {
            Some(kind) => {
                let k = text::to_lower(text::trimmed(kind.as_str()).as_str());
                proof {
                    text::byte_len_zero(k@);
                }
                if text::len_in_bytes(k.as_str()) == 0 {
                    None
                } else {
                    Some(k)
                }
            },
            None => None,
        };
        let mut language: Option<SyntaxLanguage> = None;
        if let Some(name) = &options.language {
            language = SyntaxLanguage::from_name(name.as_str());
            if language.is_none() {
                return Err(SyntaxError::UnsupportedLanguage(text::copy_text(name.as_str())));
            }
        }
        if !root_exists {
            return Err(SyntaxError::MissingDirectory(syntax_root(options)));
        }
        Ok(
            SyntaxSearch {
                query,
                node_kind,
                language,
                limit: if options.limit == 0 {
                    1
                } else {
                    options.limit
                },
                timeout_nanos: if options.timeout_nanos < MIN_TIMEOUT_NANOS {
                    MIN_TIMEOUT_NANOS
                } else {
                    options.timeout_nanos
                },
                matches: Vec::new(),
                scanned_files: 0,
                timed_out: false,
            },
        )
    }

    /// Decides on an entry of the directory: its path where it is a file, and
    /// the time that has passed.
    pub fn on_entry(&mut self, file: Option<&str>, elapsed_nanos: u128) -> (r: FileStep)
        ensures
            final(self).asked() == old(self).asked(),
            final(self).matches == old(self).matches,
            final(self).scanned_files == old(self).scanned_files,
            final(self).timed_out == (old(self).timed_out || elapsed_nanos
                >= old(self).timeout_nanos),
            r == if elapsed_nanos >= old(self).timeout_nanos || old(self).matches@.len()
                >= old(self).limit {
                FileStep::Stop
            } else {
                match file {
                    None => FileStep::Skip,
                    Some(path) => match old(self).language {
                        Some(language) => FileStep::Read(language),
                        None => match language_of_file(path@) {
                            Some(language) => FileStep::Read(language),
                            None => FileStep::Skip,
                        },
                    },
                }
            },
    {
        if elapsed_nanos >= self.timeout_nanos {
            self.timed_out = true;
            return FileStep::Stop;
        }
        if self.matches.len() >= self.limit {
            return FileStep::Stop;
        }
        let path = match file {
            Some(path) => path,
            None => {
                return FileStep::Skip;
            },
        };
        match self.language {
            Some(language) => FileStep::Read(language),
            None => match SyntaxLanguage::from_path(path) {
                Some(language) => FileStep::Read(language),
                None => FileStep::Skip,
            },
        }
    }

    /// What is reported of a node, where it is what is asked for.
    fn look_at(
        &self,
        node: &SyntaxNode,
        source: &SourceText,
        path: &str,
        language: SyntaxLanguage,
    ) -> (r: Option<SyntaxMatch>)
        requires
            source.wf(),
        ensures
            match r {
                Some(m) => node_matches(self.asked().wanted, node@, source@) && m@ == report(
                    node@,
                    source@,
                    path@,
                    language,
                ),
                None => !node_matches(self.asked().wanted, node@, source@),
            },
    {
        if !node.named {
            return None;
        }
        if let Some(kind) = &self.node_kind {
            if !text::same_text(text::to_lower(node.kind.as_str()).as_str(), kind.as_str()) {
                return None;
            }
        }
        let t = match source.between(node.start_byte, node.end_byte) {
            Some(t) => t,
            None => {
                return None;
            },
        };
        proof {
            text::byte_len_zero(self.query@);
        }
        if text::len_in_bytes(self.query.as_str()) != 0 && !bytes::holds_text(
            text::to_lower(t.as_str()).as_str(),
            self.query.as_str(),
        ) {
            return None;
        }
        Some(
            SyntaxMatch {
                path: text::copy_text(path),
                language: text::copy_text(language.as_name()),
                node_kind: text::copy_text(node.kind.as_str()),
                line_number: from_one(node.row),
                column_number: from_one(node.column),
                snippet: truncate_snippet(text::trimmed(line_of(t.as_str()).as_str()).as_str()),
            },
        )
    }

    /// Looks at the node that was put on the stack last, after the given time:
    /// its children take its place on the stack, and it is kept where it is
    /// what is asked for. Nothing is done, and the search goes no further,
    /// where the time is up or there are enough matches.
    pub fn visit_node(
        &mut self,
        nodes: &Vec<SyntaxNode>,
        stack: &mut Vec<usize>,
        source: &SourceText,
        path: &str,
        language: SyntaxLanguage,
        elapsed_nanos: u128,
    ) -> (r: bool)
        requires
            source.wf(),
            old(stack)@.len() > 0,
            are_nodes(node_seq(nodes@), positions(old(stack)@)),
        ensures
            final(self).asked() == old(self).asked(),
            final(self).scanned_files == old(self).scanned_files,
            r == (elapsed_nanos < old(self).timeout_nanos && old(self).matches@.len() < old(
                self,
            ).limit),
            final(self).timed_out == (old(self).timed_out || elapsed_nanos
                >= old(self).timeout_nanos),
            !r ==> final(self).matches == old(self).matches && final(stack)@ == old(stack)@,
            r ==> positions(final(stack)@) == positions(old(stack)@).drop_last() + named_children(
                node_seq(nodes@),
                positions(old(stack)@).last(),
            ),
            r ==> found_seq(final(self).matches@) == found_seq(old(self).matches@) + found_at(
                old(self).asked().wanted,
                node_seq(nodes@),
                seq![positions(old(stack)@).last()],
                source@,
                path@,
                language,
            ),
    {
        if elapsed_nanos >= self.timeout_nanos {
            self.timed_out = true;
            return false;
        }
        if self.matches.len() >= self.limit {
            return false;
        }
        let ghost tree = node_seq(nodes@);
        let ghost before = positions(stack@);
        let ghost had = found_seq(self.matches@);
        let ghost wanted = self.asked().wanted;
        let i: usize = stack[stack.len() - 1];
        assert(0 <= before[stack@.len() - 1] < tree.len());
        stack.pop();
        assert(positions(stack@) =~= before.drop_last());
        push_children(nodes, i, stack);
        proof {
            let one = seq![i as int];
            assert(one.drop_last() =~= seq![]);
            assert(found_at(wanted, tree, one.drop_last(), source@, path@, language) =~= seq![]);
        }
        match self.look_at(&nodes[i], source, path, language) {
            Some(m) => {
                let ghost one = m@;
                self.matches.push(m);
                assert(found_seq(self.matches@) =~= had.push(one));
                assert(had + Seq::<Found>::empty().push(one) =~= had.push(one));
            },
            None => {
                assert(had + Seq::<Found>::empty() =~= had);
            },
        }
        true
    }

    /// Looks at the nodes of a tree until there are enough matches or the time
    /// is up. Unless the time is up, every node is looked at that the limit
    /// leaves; else those up to some node.
    pub fn scan_nodes(
        &mut self,
        nodes: &Vec<SyntaxNode>,
        source: &str,
        path: &str,
        language: SyntaxLanguage,
        started: &Instant,
    )
        requires
            old(self).matches@.len() <= old(self).limit,
        ensures
            final(self).asked() == old(self).asked(),
            final(self).scanned_files == old(self).scanned_files,
            final(self).matches@.len() <= final(self).limit,
            old(self).timed_out ==> final(self).timed_out,
            nodes@.len() == 0 ==> final(self).timed_out == old(self).timed_out,
            exists|n: int|
                0 <= n <= visiting_order(node_seq(nodes@)).len() && found_seq(final(self).matches@)
                    == arena::first_n(
                    found_seq(old(self).matches@) + #[trigger] found_at(
                        old(self).asked().wanted,
                        node_seq(nodes@),
                        visiting_order(node_seq(nodes@)).take(n),
                        source@,
                        path@,
                        language,
                    ),
                    old(self).limit as nat,
                ),
            !final(self).timed_out ==> found_seq(final(self).matches@) == arena::first_n(
                found_seq(old(self).matches@) + found_at(
                    old(self).asked().wanted,
                    node_seq(nodes@),
                    visiting_order(node_seq(nodes@)),
                    source@,
                    path@,
                    language,
                ),
                old(self).limit as nat,
            ),
    {
        let located = SourceText::new(source);
        let ghost tree = node_seq(nodes@);
        let ghost order = visiting_order(tree);
        let ghost first = found_seq(self.matches@);
        let ghost wanted = self.asked().wanted;
        let ghost limit = self.limit as nat;
        let mut stack: Vec<usize> = Vec::new();
        if nodes.len() > 0 {
            stack.push(0);
        }
        let ghost mut n: int = 0;
        proof {
            assert(order.take(0) =~= seq![]);
            assert(first + found_at(wanted, tree, order.take(0), source@, path@, language)
                =~= first);
            assert(positions(stack@) =~= if nodes@.len() == 0 {
                seq![]
            } else {
                seq![0int]
            });
            assert(order =~= order.take(0) + visits(tree, positions(stack@)));
        }
        let mut on = true;
        while on && stack.len() > 0
            invariant
                self.asked() == old(self).asked(),
                self.scanned_files == old(self).scanned_files,
                old(self).timed_out ==> self.timed_out,
                nodes@.len() == 0 ==> stack@.len() == 0 && self.timed_out == old(self).timed_out,
                self.matches@.len() <= self.limit,
                limit == self.limit,
                wanted == self.asked().wanted,
                located.wf(),
                located@ == source@,
                tree == node_seq(nodes@),
                order == visiting_order(tree),
                0 <= n <= order.len(),
                are_nodes(tree, positions(stack@)),
                order == order.take(n) + visits(tree, positions(stack@)),
                found_seq(self.matches@) == arena::first_n(
                    first + found_at(wanted, tree, order.take(n), source@, path@, language),
                    limit,
                ),
                !on ==> self.timed_out || self.matches@.len() >= self.limit,
            decreases
                weight(tree, positions(stack@)),
                if on {
                    1int
                } else {
                    0int
                },
        {
            let ghost st = positions(stack@);
            let ghost had = found_seq(self.matches@);
            proof {
                lemma_step_down(tree, st);
            }
            on = self.visit_node(
                nodes,
                &mut stack,
                &located,
                path,
                language,
                nanos_since(started),
            );
            proof {
                if on {
                    let i = st.last();
                    let rest = st.drop_last() + named_children(tree, i);
                    let tail = visits(tree, rest);
                    let before = found_at(wanted, tree, order.take(n), source@, path@, language);
                    assert(positions(stack@) == rest);
                    assert(visits(tree, st) == seq![i] + tail);
                    assert(order =~= order.take(n).push(i) + tail);
                    assert(order[n] == i);
                    assert(order.take(n + 1) =~= order.take(n).push(i));
                    assert(order == order.take(n + 1) + tail);
                    assert(had == first + before);
                    lemma_found_one(wanted, tree, order.take(n), i, source@, path@, language);
                    let one = found_at(wanted, tree, seq![i], source@, path@, language);
                    assert(first + (before + one) =~= had + one);
                    assert(found_seq(self.matches@).len() == self.matches@.len());
                    assert(had.len() < limit);
                    n = n + 1;
                }
            }
        }
        proof {
            if on {
                assert(visits(tree, positions(stack@)) =~= seq![]);
                assert(order.take(n) =~= order);
            } else if !self.timed_out {
                lemma_found_prefix(wanted, tree, order, n, source@, path@, language);
                let a = first + found_at(wanted, tree, order.take(n), source@, path@, language);
                let b = first + found_at(wanted, tree, order, source@, path@, language);
                assert(arena::first_n(a, limit) =~= arena::first_n(b, limit));
            }
        }
    }

    /// Searches the source of a file. The number of files counts it whether or
    /// not it has a tree.
    pub fn on_source(
        &mut self,
        source: &str,
        path: &str,
        language: SyntaxLanguage,
        started: &Instant,
    ) -> (r: Result<(), SyntaxError>)
        requires
            old(self).matches@.len() <= old(self).limit,
        ensures
            final(self).asked() == old(self).asked(),
            final(self).matches@.len() <= final(self).limit,
            final(self).scanned_files == content::one_more(old(self).scanned_files as nat),
            old(self).timed_out ==> final(self).timed_out,
            r is Ok == grammar_fits(language.name()),
            r matches Err(e) ==> (e matches SyntaxError::Grammar(name, _) && name@
                == language.name()) && final(self).matches == old(self).matches
                && final(self).timed_out == old(self).timed_out,
            r is Ok && parsed(source@, language.name()) is None ==> final(self).matches
                == old(self).matches && final(self).timed_out == old(self).timed_out,
            r is Ok && parsed(source@, language.name()) is Some ==> {
                let nodes = tree_nodes(parsed(source@, language.name())->0);
                let order = visiting_order(nodes);
                let had = found_seq(old(self).matches@);
                let now = found_seq(final(self).matches@);
                let wanted = old(self).asked().wanted;
                let limit = old(self).limit as nat;
                &&& exists|n: int|
                    0 <= n <= order.len() && now == arena::first_n(
                        had + #[trigger] found_at(
                            wanted,
                            nodes,
                            order.take(n),
                            source@,
                            path@,
                            language,
                        ),
                        limit,
                    )
                &&& !final(self).timed_out ==> now == arena::first_n(
                    had + found_at(wanted, nodes, order, source@, path@, language),
                    limit,
                )
            },
    {
        if self.scanned_files < usize::MAX {
            self.scanned_files = self.scanned_files + 1;
        }
        match parse_source(source, language) {
            Ok(Some(tree)) => {
                let nodes = nodes_of(&tree);
                self.scan_nodes(&nodes, source, path, language, started);
                Ok(())
            },
            Ok(None) => Ok(()),
            Err(e) => Err(SyntaxError::Grammar(text::copy_text(language.as_name()), e)),
        }
    }

    /// Whether the search is over: the time is up, or there are enough matches.
    pub fn is_over(&self) -> (r: bool)
        ensures
            r == (self.timed_out || self.matches@.len() >= self.limit),
    {
        self.timed_out || self.matches.len() >= self.limit
    }

    /// What the search found.
    pub fn finish(self, took_nanos: u128) -> (r: SyntaxSearchResult)
        ensures
            r.matches == self.matches,
            r.scanned_files == self.scanned_files,
            r.timed_out == self.timed_out,
            r.took_nanos == took_nanos,
    {
        SyntaxSearchResult {
            matches: self.matches,
            scanned_files: self.scanned_files,
            took_nanos,
            timed_out: self.timed_out,
        }
    }
}

/// The positions of a stack.
pub open spec fn positions(stack: Seq<usize>) -> Seq<int> {
    Seq::new(stack.len(), |i: int| stack[i] as int)
}

/// Where the nodes that lie below a node end.
fn find_end(nodes: &Vec<SyntaxNode>, i: usize) -> (r: usize)
    requires
        i < nodes@.len(),
    ensures
        r == end_below(node_seq(nodes@), i as int),
        i < r <= nodes@.len(),
{
    let ghost tree = node_seq(nodes@);
    let depth = nodes[i].depth;
    let size = nodes.len();
    let mut j: usize = i + 1;
    while j < size && nodes[j].depth > depth
        invariant
            i < j <= size == nodes@.len(),
            tree == node_seq(nodes@),
            depth == tree[i as int].depth,
            end_below(tree, i as int) == shallower_from(tree, i as int, j as int),
        decreases nodes@.len() - j,
    {
        assert(tree[j as int].depth == nodes@[j as int].depth);
        j += 1;
    }
    proof {
        if j < nodes@.len() {
            assert(tree[j as int].depth == nodes@[j as int].depth);
        }
    }
    j
}

/// Puts the children of a node that the grammar names on the stack.
fn push_children(nodes: &Vec<SyntaxNode>, i: usize, stack: &mut Vec<usize>)
    requires
        i < nodes@.len(),
    ensures
        positions(final(stack)@) == positions(old(stack)@) + named_children(
            node_seq(nodes@),
            i as int,
        ),
{
    let ghost tree = node_seq(nodes@);
    let ghost before = positions(stack@);
    let ghost all = named_children(tree, i as int);
    let end = find_end(nodes, i);
    let mut j: usize = i + 1;
    assert(before + all =~= positions(stack@) + named_from(tree, i as int, j as int));
    while j < end
        invariant
            i < j <= end <= nodes@.len(),
            tree == node_seq(nodes@),
            end == end_below(tree, i as int),
            before + all == positions(stack@) + named_from(tree, i as int, j as int),
        decreases end - j,
    {
        let ghost had = positions(stack@);
        let ghost rest = named_from(tree, i as int, end_below(tree, j as int));
        proof {
            lemma_nested(tree, i as int, j as int);
        }
        if nodes[j].named {
            stack.push(j);
            assert(positions(stack@) =~= had.push(j as int));
            assert(had + (seq![j as int] + rest) =~= had.push(j as int) + rest);
        }
        j = find_end(nodes, j);
    }
    assert(positions(stack@) + named_from(tree, i as int, j as int) =~= positions(stack@));
}

proof fn lemma_found_one(
    w: Wanted,
    nodes: Seq<Node>,
    order: Seq<int>,
    i: int,
    source: Seq<char>,
    path: Seq<char>,
    language: SyntaxLanguage,
)
    ensures
        found_at(w, nodes, seq![i], source, path, language).len() <= 1,
        found_at(w, nodes, order.push(i), source, path, language) == found_at(
            w,
            nodes,
            order,
            source,
            path,
            language,
        ) + found_at(w, nodes, seq![i], source, path, language),
{
    let one = seq![i];
    assert(order.push(i).drop_last() =~= order);
    assert(one.drop_last() =~= seq![]);
    assert(found_at(w, nodes, one.drop_last(), source, path, language) =~= seq![]);
    assert(found_at(w, nodes, order.push(i), source, path, language) =~= found_at(
        w,
        nodes,
        order,
        source,
        path,
        language,
    ) + found_at(w, nodes, one, source, path, language));
}

proof fn lemma_found_prefix(
    w: Wanted,
    nodes: Seq<Node>,
    order: Seq<int>,
    n: int,
    source: Seq<char>,
    path: Seq<char>,
    language: SyntaxLanguage,
)
    requires
        0 <= n <= order.len(),
    ensures
        found_at(w, nodes, order.take(n), source, path, language).is_prefix_of(
            found_at(w, nodes, order, source, path, language),
        ),
    decreases order.len() - n,
{
    let a = found_at(w, nodes, order.take(n), source, path, language);
    if n == order.len() {
        assert(order.take(n) =~= order);
        assert(a.take(a.len() as int) =~= a);
    } else {
        lemma_found_prefix(w, nodes, order, n + 1, source, path, language);
        assert(order.take(n + 1).drop_last() =~= order.take(n));
        let b = found_at(w, nodes, order.take(n + 1), source, path, language);
        let c = found_at(w, nodes, order, source, path, language);
        assert(a =~= b.take(a.len() as int));
        assert(c.take(a.len() as int) =~= a);
    }
}

// ---------------------------------------------------------------------------
// Laws
// ---------------------------------------------------------------------------

/// A snippet takes no more than its share of bytes and the three dots.
pub proof fn snippets_are_short(s: Seq<char>)
    ensures
        text::byte_len(shortened(s)) <= MAX_SNIPPET_BYTES + 3,
{
    let t = start_within(s, MAX_SNIPPET_BYTES as nat);
    lemma_start_len(s, MAX_SNIPPET_BYTES as nat);
    bytes::utf8_of_concat(t, "..."@);
    reveal_strlit("...");
    assert("..."@ =~= seq!['.'] + seq!['.'] + seq!['.']);
    bytes::utf8_of_concat(seq!['.'] + seq!['.'], seq!['.']);
    bytes::utf8_of_concat(seq!['.'], seq!['.']);
    bytes::one_char_len('.');
}

proof fn lemma_start_len(s: Seq<char>, max: nat)
    ensures
        text::byte_len(start_within(s, max)) <= max,
    decreases s.len(),
{
    text::byte_len_zero(s);
    if s.len() > 0 && text::byte_len(s) > max {
        lemma_start_len(s.drop_last(), max);
    }
}

/// What a search reports is what the nodes that it looks at and that are asked
/// for are, and nothing else.
pub proof fn matches_are_wanted(
    w: Wanted,
    nodes: Seq<Node>,
    order: Seq<int>,
    source: Seq<char>,
    path: Seq<char>,
    language: SyntaxLanguage,
    f: Found,
)
    ensures
        found_at(w, nodes, order, source, path, language).contains(f) <==> exists|k: int|
            0 <= k < order.len() && node_matches(w, nodes[#[trigger] order[k]], source) && f
                == report(nodes[order[k]], source, path, language),
    decreases order.len(),
{
    let all = found_at(w, nodes, order, source, path, language);
    if order.len() > 0 {
        let rest = order.drop_last();
        let before = found_at(w, nodes, rest, source, path, language);
        let last = nodes[order.last()];
        matches_are_wanted(w, nodes, rest, source, path, language, f);
        if all.contains(f) {
            let m = choose|m: int| 0 <= m < all.len() && all[m] == f;
            if m < before.len() {
                assert(before[m] == f);
                let k = choose|k: int|
                    0 <= k < rest.len() && node_matches(w, nodes[#[trigger] rest[k]], source) && f
                        == report(nodes[rest[k]], source, path, language);
                assert(order[k] == rest[k]);
            } else {
                assert(order[order.len() - 1] == order.last());
            }
        }
        if exists|k: int|
            0 <= k < order.len() && node_matches(w, nodes[#[trigger] order[k]], source) && f
                == report(nodes[order[k]], source, path, language) {
            let k = choose|k: int|
                0 <= k < order.len() && node_matches(w, nodes[#[trigger] order[k]], source) && f
                    == report(nodes[order[k]], source, path, language);
            if k < rest.len() {
                assert(rest[k] == order[k]);
                assert(before.contains(f));
                let m = choose|m: int| 0 <= m < before.len() && before[m] == f;
                assert(all[m] == f);
            } else {
                assert(all[before.len() as int] == f);
            }
        }
    }
}

/// What lies below a node of the list ends before the next node of the list.
spec fn spread(nodes: Seq<Node>, stack: Seq<int>) -> bool {
    forall|a: int, b: int|
        0 <= a < b < stack.len() ==> end_below(nodes, #[trigger] stack[a]) <= #[trigger] stack[b]
}

/// The node is one of the given ones or lies below one of them.
spec fn covered(nodes: Seq<Node>, stack: Seq<int>, x: int) -> bool {
    exists|k: int|
        0 <= k < stack.len() && #[trigger] stack[k] <= x && x < end_below(nodes, stack[k])
}

proof fn lemma_children_spread(nodes: Seq<Node>, i: int, j: int)
    requires
        0 <= i < j <= end_below(nodes, i),
        i < nodes.len(),
    ensures
        spread(nodes, named_from(nodes, i, j)),
        forall|k: int|
            0 <= k < named_from(nodes, i, j).len() ==> j <= #[trigger] named_from(nodes, i, j)[k]
                && end_below(nodes, named_from(nodes, i, j)[k]) <= end_below(nodes, i),
    decreases nodes.len() - j,
{
    lemma_shallower(nodes, i, i + 1);
    if j < end_below(nodes, i) {
        lemma_nested(nodes, i, j);
        lemma_children_spread(nodes, i, end_below(nodes, j));
        let rest = named_from(nodes, i, end_below(nodes, j));
        let all = named_from(nodes, i, j);
        if nodes[j].named {
            assert(all == seq![j] + rest);
            assert forall|k: int| 0 <= k < all.len() implies j <= #[trigger] all[k] && end_below(
                nodes,
                all[k],
            ) <= end_below(nodes, i) by {
                if k > 0 {
                    assert(all[k] == rest[k - 1]);
                }
            }
            assert forall|a: int, b: int| 0 <= a < b < all.len() implies end_below(
                nodes,
                #[trigger] all[a],
            ) <= #[trigger] all[b] by {
                assert(all[b] == rest[b - 1]);
                if a > 0 {
                    assert(all[a] == rest[a - 1]);
                }
            }
        }
    }
}

proof fn lemma_next_spread(nodes: Seq<Node>, stack: Seq<int>)
    requires
        stack.len() > 0,
        are_nodes(nodes, stack),
        spread(nodes, stack),
    ensures
        spread(nodes, stack.drop_last() + named_children(nodes, stack.last())),
        forall|x: int|
            covered(nodes, stack.drop_last() + named_children(nodes, stack.last()), x) ==> x
                != stack.last() && #[trigger] covered(nodes, stack, x),
{
    let i = stack.last();
    let rest = stack.drop_last();
    let kids = named_children(nodes, i);
    let next = rest + kids;
    assert(0 <= stack[stack.len() - 1] < nodes.len());
    lemma_shallower(nodes, i, i + 1);
    lemma_children_spread(nodes, i, i + 1);
    assert forall|k: int| 0 <= k < rest.len() implies end_below(nodes, #[trigger] rest[k])
        <= i by {
        assert(rest[k] == stack[k]);
        assert(end_below(nodes, stack[k]) <= stack[stack.len() - 1]);
    }
    assert forall|a: int, b: int| 0 <= a < b < next.len() implies end_below(
        nodes,
        #[trigger] next[a],
    ) <= #[trigger] next[b] by {
        if b < rest.len() {
            assert(next[a] == stack[a] && next[b] == stack[b]);
        } else {
            assert(next[b] == kids[b - rest.len()]);
            if a < rest.len() {
                assert(next[a] == rest[a]);
            } else {
                assert(next[a] == kids[a - rest.len()]);
            }
        }
    }
    assert forall|x: int| covered(nodes, next, x) implies x != i && #[trigger] covered(
        nodes,
        stack,
        x,
    ) by {
        let k = choose|k: int|
            0 <= k < next.len() && #[trigger] next[k] <= x && x < end_below(nodes, next[k]);
        if k < rest.len() {
            assert(next[k] == rest[k]);
            assert(stack[k] == rest[k]);
        } else {
            assert(next[k] == kids[k - rest.len()]);
            assert(stack[stack.len() - 1] == i);
        }
    }
}

proof fn lemma_visits(nodes: Seq<Node>, stack: Seq<int>)
    requires
        are_nodes(nodes, stack),
        spread(nodes, stack),
    ensures
        visits(nodes, stack).no_duplicates(),
        forall|x: int| #[trigger] visits(nodes, stack).contains(x) ==> covered(nodes, stack, x),
        forall|k: int|
            0 <= k < stack.len() ==> visits(nodes, stack).contains(#[trigger] stack[k]),
        forall|i: int, k: int|
            visits(nodes, stack).contains(i) && 0 <= k < named_children(nodes, i).len()
                ==> visits(nodes, stack).contains(#[trigger] named_children(nodes, i)[k]),
    decreases weight(nodes, stack),
{
    let v = visits(nodes, stack);
    if stack.len() > 0 {
        let i = stack.last();
        let rest = stack.drop_last();
        let kids = named_children(nodes, i);
        let next = rest + kids;
        let w = visits(nodes, next);
        lemma_step_down(nodes, stack);
        lemma_next_spread(nodes, stack);
        lemma_visits(nodes, next);
        assert(v == seq![i] + w);
        assert forall|x: int| w.contains(x) implies #[trigger] v.contains(x) by {
            let m = choose|m: int| 0 <= m < w.len() && w[m] == x;
            assert(v[m + 1] == x);
        }
        assert forall|x: int| #[trigger] v.contains(x) implies x == i || w.contains(x) by {
            let m = choose|m: int| 0 <= m < v.len() && v[m] == x;
            if m > 0 {
                assert(w[m - 1] == x);
            }
        }
        assert(v[0] == i);
        assert(v.contains(i));
        assert(0 <= stack[stack.len() - 1] < nodes.len());
        lemma_shallower(nodes, i, i + 1);
        assert(covered(nodes, stack, i)) by {
            assert(stack[stack.len() - 1] == i);
        }
        assert forall|x: int| #[trigger] v.contains(x) implies covered(nodes, stack, x) by {
            if x != i {
                assert(covered(nodes, next, x));
            }
        }
        assert forall|a: int, b: int| 0 <= a < v.len() && 0 <= b < v.len() && a != b implies v[a]
            != v[b] by {
            if a == 0 {
                assert(w.contains(w[b - 1]));
                assert(covered(nodes, next, w[b - 1]));
                assert(covered(nodes, stack, w[b - 1]));
            } else if b == 0 {
                assert(w.contains(w[a - 1]));
                assert(covered(nodes, next, w[a - 1]));
                assert(covered(nodes, stack, w[a - 1]));
            } else {
                assert(w[a - 1] != w[b - 1]);
            }
        }
        assert forall|k: int| 0 <= k < stack.len() implies v.contains(#[trigger] stack[k]) by {
            if k < rest.len() {
                assert(next[k] == stack[k]);
                assert(w.contains(next[k]));
            }
        }
        assert forall|x: int, k: int|
            v.contains(x) && 0 <= k < named_children(nodes, x).len() implies v.contains(
            #[trigger] named_children(nodes, x)[k],
        ) by {
            if x == i {
                assert(next[rest.len() + k] == kids[k]);
                assert(w.contains(next[rest.len() + k]));
            } else {
                assert(w.contains(x));
                assert(w.contains(named_children(nodes, x)[k]));
            }
        }
    }
}

/// No node is looked at twice. The root is looked at, and with a node all its
/// children that the grammar names.
pub proof fn nodes_are_visited_once(nodes: Seq<Node>)
    requires
        nodes.len() > 0,
    ensures
        visiting_order(nodes).no_duplicates(),
        visiting_order(nodes).contains(0),
        forall|i: int, k: int|
            visiting_order(nodes).contains(i) && 0 <= k < named_children(nodes, i).len()
                ==> visiting_order(nodes).contains(#[trigger] named_children(nodes, i)[k]),
{
    let root = seq![0int];
    lemma_visits(nodes, root);
    assert(root[0] == 0);
}

// ---------------------------------------------------------------------------
// What a search of syntax finds
// ---------------------------------------------------------------------------

/// A node is found exactly where it has a name, is of the wanted kind, and the
/// query stands anywhere between its first byte and its last, in any case of its
/// letters.
pub proof fn nodes_match_by_all_their_text(
    w: Wanted,
    query: Seq<char>,
    node: Node,
    source: Seq<char>,
    i: int,
    j: int,
)
    requires
        w.query == text::lower(query),
        0 <= i <= j <= source.len(),
        bytes::utf8(source.take(i)).len() == node.start_byte,
        bytes::utf8(source.take(j)).len() == node.end_byte,
    ensures
        node_matches(w, node, source) <==> node.named && (w.kind matches Some(kind)
            ==> text::lower(node.kind) == kind) && exists|k: int|
            crate::search::stands_at(source.subrange(i, j), query, k),
{
    let t = source.subrange(i, j);
    assert(spans(source, i, j, node.start_byte, node.end_byte));
    if node.start_byte == node.end_byte {
        lemma_byte_len_prefix(source, i, j);
        assert(t =~= seq![]);
    } else {
        lemma_spans_unique(source, i, j, node.start_byte, node.end_byte);
    }
    assert(text_between(source, node.start_byte, node.end_byte) == Some(t));
    crate::search::texts_hold_texts_in_any_case(t, query);
    if query.len() == 0 {
        assert(crate::search::stands_at(t, query, 0));
    }
}

/// A node whose bytes do not start and end between characters of the source is
/// not found, unless it has none.
pub proof fn broken_nodes_do_not_match(w: Wanted, node: Node, source: Seq<char>)
    requires
        node.start_byte != node.end_byte,
        forall|i: int|
            0 <= i <= source.len() ==> #[trigger] bytes::utf8(source.take(i)).len()
                != node.start_byte,
    ensures
        !node_matches(w, node, source),
{
    if exists|i: int, j: int| #[trigger] spans(source, i, j, node.start_byte, node.end_byte) {
        let (i, j) = choose|i: int, j: int| #[trigger]
            spans(source, i, j, node.start_byte, node.end_byte);
        assert(bytes::utf8(source.take(i)).len() == node.start_byte);
    }
}

/// A node of the wanted kind that encloses a node that is found is found too.
pub proof fn enclosing_nodes_match(
    w: Wanted,
    query: Seq<char>,
    outer: Node,
    inner: Node,
    source: Seq<char>,
    a: int,
    i: int,
    j: int,
    b: int,
)
    requires
        w.query == text::lower(query),
        0 <= a <= i <= j <= b <= source.len(),
        bytes::utf8(source.take(a)).len() == outer.start_byte,
        bytes::utf8(source.take(i)).len() == inner.start_byte,
        bytes::utf8(source.take(j)).len() == inner.end_byte,
        bytes::utf8(source.take(b)).len() == outer.end_byte,
        outer.named,
        w.kind matches Some(kind) ==> text::lower(outer.kind) == kind,
        node_matches(w, inner, source),
    ensures
        node_matches(w, outer, source),
{
    nodes_match_by_all_their_text(w, query, inner, source, i, j);
    nodes_match_by_all_their_text(w, query, outer, source, a, b);
    let part = source.subrange(i, j);
    let whole = source.subrange(a, b);
    let k = choose|k: int| crate::search::stands_at(part, query, k);
    assert forall|x: int| 0 <= x < query.len() implies text::same_letter(
        whole[i - a + k + x],
        #[trigger] query[x],
    ) by {
        assert(text::same_letter(part[k + x], query[x]));
        assert(whole[i - a + k + x] == part[k + x]);
    }
    assert(crate::search::stands_at(whole, query, i - a + k));
}

/// What is reported of a node is where it starts, counted from one, its kind as
/// the grammar has it, and the first line of its text.
pub proof fn reports_tell_where_nodes_start(
    node: Node,
    source: Seq<char>,
    path: Seq<char>,
    language: SyntaxLanguage,
    i: int,
    j: int,
)
    requires
        0 <= i < j <= source.len(),
        bytes::utf8(source.take(i)).len() == node.start_byte,
        bytes::utf8(source.take(j)).len() == node.end_byte,
        0 <= node.row < usize::MAX,
        0 <= node.column < usize::MAX,
    ensures
        report(node, source, path, language).path == path,
        report(node, source, path, language).node_kind == node.kind,
        language_named(report(node, source, path, language).language) == Some(language),
        report(node, source, path, language).line_number == node.row + 1,
        report(node, source, path, language).column_number == node.column + 1,
        report(node, source, path, language).snippet == shortened(
            text::trim(first_line(source.subrange(i, j))),
        ),
{
    language_names_are_known(language);
    assert(spans(source, i, j, node.start_byte, node.end_byte));
    lemma_byte_len_prefix(source, i, j);
    lemma_spans_unique(source, i, j, node.start_byte, node.end_byte);
}

/// The first line of a text is what stands before the first end of a line, or
/// all of it.
pub proof fn first_lines_end_at_the_first_end(line: Seq<char>, rest: Seq<char>)
    requires
        !line.contains('\n'),
    ensures
        first_line(line) == line,
        first_line(line + seq!['\n'] + rest) == line,
{
    let s = line + seq!['\n'] + rest;
    assert forall|i: int| 0 <= i < line.len() implies line[i] != '\n' by {
        assert(line.contains(line[i]));
    }
    assert forall|i: int| 0 <= i < line.len() implies s[i] != '\n' by {
        assert(s[i] == line[i]);
    }
    lemma_first_line(line, line.len() as int);
    lemma_first_line(s, line.len() as int);
    assert(line.take(line.len() as int) =~= line);
    assert(s.take(line.len() as int) =~= line);
}

/// A snippet of up to 180 bytes is left alone; of a longer one, as many
/// characters are kept as these bytes hold, with three dots behind them.
pub proof fn long_snippets_are_cut(s: Seq<char>, n: int)
    requires
        0 <= n <= s.len(),
        bytes::utf8(s.take(n)).len() <= 180,
        n < s.len() ==> bytes::utf8(s.take(n + 1)).len() > 180,
    ensures
        n == s.len() ==> shortened(s) == s,
        n < s.len() ==> shortened(s) == s.take(n) + seq!['.', '.', '.'],
{
    assert(s.take(s.len() as int) =~= s);
    if n < s.len() {
        lemma_byte_len_prefix(s, n + 1, s.len() as int);
        lemma_start_within(s, n, 180);
        reveal_strlit("...");
        assert("..."@ =~= seq!['.', '.', '.']);
    }
}

/// The children of a node are the named nodes one deeper that follow it before
/// any node that is not deeper.
pub proof fn children_are_one_deeper(nodes: Seq<Node>, i: int, j: int)
    requires
        is_preorder(nodes),
        0 <= i < nodes.len(),
    ensures
        named_children(nodes, i).contains(j) <==> i < j < nodes.len() && nodes[j].named
            && nodes[j].depth == nodes[i].depth + 1 && forall|k: int|
            i < k < j ==> (#[trigger] nodes[k]).depth > nodes[i].depth,
{
    lemma_shallower(nodes, i, i + 1);
    if i + 1 < end_below(nodes, i) {
        assert(nodes[i + 1].depth <= nodes[i].depth + 1);
    }
    lemma_children(nodes, i, i + 1, j);
    if i < j < nodes.len() && nodes[j].named && nodes[j].depth == nodes[i].depth + 1 && forall|
        k: int,
    |
        i < k < j ==> (#[trigger] nodes[k]).depth > nodes[i].depth {
        assert(j < end_below(nodes, i));
    }
}

proof fn lemma_children(nodes: Seq<Node>, i: int, from: int, j: int)
    requires
        is_preorder(nodes),
        0 <= i < from <= end_below(nodes, i),
        i < nodes.len(),
        from < end_below(nodes, i) ==> nodes[from].depth == nodes[i].depth + 1,
    ensures
        named_from(nodes, i, from).contains(j) <==> from <= j < end_below(nodes, i)
            && nodes[j].named && nodes[j].depth == nodes[i].depth + 1,
    decreases nodes.len() - from,
{
    lemma_shallower(nodes, i, i + 1);
    let all = named_from(nodes, i, from);
    if from < end_below(nodes, i) {
        lemma_nested(nodes, i, from);
        lemma_shallower(nodes, from, from + 1);
        let next = end_below(nodes, from);
        if next < end_below(nodes, i) {
            assert(nodes[next].depth > nodes[i].depth);
        }
        lemma_children(nodes, i, next, j);
        let rest = named_from(nodes, i, next);
        if nodes[from].named {
            assert(all =~= seq![from] + rest);
            if all.contains(j) {
                let k = choose|k: int| 0 <= k < all.len() && all[k] == j;
                if k > 0 {
                    assert(rest[k - 1] == j);
                }
            }
            if rest.contains(j) {
                let k = choose|k: int| 0 <= k < rest.len() && rest[k] == j;
                assert(all[k + 1] == j);
            }
            if j == from {
                assert(all[0] == j);
            }
        }
        if from < j < next {
            assert(nodes[j].depth > nodes[from].depth);
        }
    }
}

/// A tree is looked at from its root down: a node, then its last child with all
/// that is below it, and so on to the first.
pub proof fn later_children_come_first(nodes: Seq<Node>, i: int, a: Seq<int>, b: Seq<int>)
    requires
        are_nodes(nodes, a),
        are_nodes(nodes, b),
        0 <= i < nodes.len(),
    ensures
        visits(nodes, seq![i]) == seq![i] + visits(nodes, named_children(nodes, i)),
        visits(nodes, a + b) == visits(nodes, b) + visits(nodes, a),
        nodes.len() > 0 ==> visiting_order(nodes) == visits(nodes, seq![0]),
    decreases weight(nodes, b),
{
    assert(are_nodes(nodes, seq![i]));
    lemma_step_down(nodes, seq![i]);
    assert(seq![i].last() == i);
    assert(seq![i].drop_last() + named_children(nodes, i) =~= named_children(nodes, i));
    assert(are_nodes(nodes, a + b)) by {
        assert forall|k: int| 0 <= k < (a + b).len() implies 0 <= #[trigger] (a + b)[k]
            < nodes.len() by {
            if k < a.len() {
                assert((a + b)[k] == a[k]);
            } else {
                assert((a + b)[k] == b[k - a.len()]);
            }
        }
    }
    if b.len() == 0 {
        assert(a + b =~= a);
        assert(visits(nodes, b) + visits(nodes, a) =~= visits(nodes, a));
    } else {
        let x = b.last();
        let below = b.drop_last() + named_children(nodes, x);
        lemma_step_down(nodes, b);
        later_children_come_first(nodes, i, a, below);
        assert((a + b).last() == x);
        assert((a + b).drop_last() + named_children(nodes, x) =~= a + below);
        assert(seq![x] + visits(nodes, below) + visits(nodes, a) =~= seq![x] + (visits(
            nodes,
            below,
        ) + visits(nodes, a)));
    }
}

/// What is asked for is the query and the kind without the spaces around them,
/// in lower case; at least one node, and at least a tenth of a second.
pub proof fn questions_are_tidied(
    options: SyntaxSearchOptions,
    before: Seq<char>,
    query: Seq<char>,
    behind: Seq<char>,
)
    requires
        options.query@ == before + query + behind,
        forall|i: int| 0 <= i < before.len() ==> text::is_space(#[trigger] before[i]),
        forall|i: int| 0 <= i < behind.len() ==> text::is_space(#[trigger] behind[i]),
        query.len() > 0 ==> !text::is_space(query[0]) && !text::is_space(query.last()),
    ensures
        asked_of(options).wanted.query == text::lower(query),
        options.node_kind is None ==> asked_of(options).wanted.kind is None,
        options.language is None ==> asked_of(options).language is None,
        asked_of(options).limit >= 1,
        options.limit >= 1 ==> asked_of(options).limit == options.limit,
        asked_of(options).timeout_nanos >= 100_000_000,
        options.timeout_nanos >= 100_000_000 ==> asked_of(options).timeout_nanos
            == options.timeout_nanos,
{
    text::trimming_takes_the_spaces(before, query, behind);
}

/// A blank kind is none; any other is sought in lower case.
pub proof fn kinds_are_tidied(before: Seq<char>, kind: Seq<char>, behind: Seq<char>)
    requires
        forall|i: int| 0 <= i < before.len() ==> text::is_space(#[trigger] before[i]),
        forall|i: int| 0 <= i < behind.len() ==> text::is_space(#[trigger] behind[i]),
        kind.len() > 0 ==> !text::is_space(kind[0]) && !text::is_space(kind.last()),
    ensures
        kind.len() == 0 ==> wanted_kind(Some(before + kind + behind)) is None,
        kind.len() > 0 ==> wanted_kind(Some(before + kind + behind)) == Some(text::lower(kind)),
        wanted_kind(None) is None,
{
    text::trimming_takes_the_spaces(before, kind, behind);
}

/// The language of a file goes by its extension, in any case of its letters.
pub proof fn files_are_read_by_their_extension(stem: Seq<char>, ext: Seq<char>)
    requires
        path::plain_name(stem + seq!['.'] + ext),
        stem.len() > 0,
        !ext.contains('.'),
    ensures
        text::lower(ext) == seq!['r', 's'] <==> language_of_file(stem + seq!['.'] + ext) == Some(
            SyntaxLanguage::Rust,
        ),
        text::lower(ext) == seq!['j', 's'] || text::lower(ext) == seq!['m', 'j', 's']
            || text::lower(ext) == seq!['c', 'j', 's'] <==> language_of_file(
            stem + seq!['.'] + ext,
        ) == Some(SyntaxLanguage::JavaScript),
        text::lower(ext) == seq!['t', 's'] || text::lower(ext) == seq!['t', 's', 'x']
            <==> language_of_file(stem + seq!['.'] + ext) == Some(SyntaxLanguage::TypeScript),
        text::lower(ext) == seq!['p', 'y'] <==> language_of_file(stem + seq!['.'] + ext) == Some(
            SyntaxLanguage::Python,
        ),
{
    path::extensions_stand_behind_the_last_dot(stem, ext);
    let x = text::lower(ext);
    reveal_strlit("rs");
    reveal_strlit("js");
    reveal_strlit("mjs");
    reveal_strlit("cjs");
    reveal_strlit("ts");
    reveal_strlit("tsx");
    reveal_strlit("py");
    assert("rs"@ =~= seq!['r', 's']);
    assert("js"@ =~= seq!['j', 's']);
    assert("mjs"@ =~= seq!['m', 'j', 's']);
    assert("cjs"@ =~= seq!['c', 'j', 's']);
    assert("ts"@ =~= seq!['t', 's']);
    assert("tsx"@ =~= seq!['t', 's', 'x']);
    assert("py"@ =~= seq!['p', 'y']);
    assert("rs"@[0] == 'r' && "js"@[0] == 'j' && "mjs"@[0] == 'm' && "cjs"@[0] == 'c');
    assert("ts"@[0] == 't' && "tsx"@[0] == 't' && "py"@[0] == 'p');
}

/// A language is known by its name and by the usual extensions, in any case of
/// their letters and with spaces around them; no other name is known.
pub proof fn languages_are_known_by_name(
    before: Seq<char>,
    name: Seq<char>,
    behind: Seq<char>,
)
    requires
        forall|i: int| 0 <= i < before.len() ==> text::is_space(#[trigger] before[i]),
        forall|i: int| 0 <= i < behind.len() ==> text::is_space(#[trigger] behind[i]),
        name.len() > 0 ==> !text::is_space(name[0]) && !text::is_space(name.last()),
    ensures
        ({
            let n = text::lower(name);
            let known = language_named(before + name + behind);
            &&& known == Some(SyntaxLanguage::Rust) <==> n == seq!['r', 's'] || n == seq![
                'r',
                'u',
                's',
                't',
            ]
            &&& known == Some(SyntaxLanguage::JavaScript) <==> n == seq!['j', 's'] || n == seq![
                'j',
                'a',
                'v',
                'a',
                's',
                'c',
                'r',
                'i',
                'p',
                't',
            ]
            &&& known == Some(SyntaxLanguage::TypeScript) <==> n == seq!['t', 's'] || n == seq![
                't',
                's',
                'x',
            ] || n == seq!['t', 'y', 'p', 'e', 's', 'c', 'r', 'i', 'p', 't']
            &&& known == Some(SyntaxLanguage::Python) <==> n == seq!['p', 'y'] || n == seq![
                'p',
                'y',
                't',
                'h',
                'o',
                'n',
            ]
        }),
{
    text::trimming_takes_the_spaces(before, name, behind);
    reveal_strlit("rs");
    reveal_strlit("rust");
    reveal_strlit("js");
    reveal_strlit("javascript");
    reveal_strlit("ts");
    reveal_strlit("tsx");
    reveal_strlit("typescript");
    reveal_strlit("py");
    reveal_strlit("python");
    assert("rs"@ =~= seq!['r', 's']);
    assert("rust"@ =~= seq!['r', 'u', 's', 't']);
    assert("js"@ =~= seq!['j', 's']);
    assert("javascript"@ =~= seq!['j', 'a', 'v', 'a', 's', 'c', 'r', 'i', 'p', 't']);
    assert("ts"@ =~= seq!['t', 's']);
    assert("tsx"@ =~= seq!['t', 's', 'x']);
    assert("typescript"@ =~= seq!['t', 'y', 'p', 'e', 's', 'c', 'r', 'i', 'p', 't']);
    assert("py"@ =~= seq!['p', 'y']);
    assert("python"@ =~= seq!['p', 'y', 't', 'h', 'o', 'n']);
    assert("rs"@[0] == 'r' && "rust"@[0] == 'r' && "js"@[0] == 'j' && "javascript"@[0] == 'j');
    assert("ts"@[0] == 't' && "tsx"@[0] == 't' && "typescript"@[0] == 't');
    assert("py"@[0] == 'p' && "python"@[0] == 'p');
}

/// Where no directory is given, the one that the program runs in is read.
pub proof fn directories_are_read_as_asked(dir: Seq<char>)
    ensures
        root_of(Some(dir)) == dir,
        root_of(None) == seq!['.'],
{
    reveal_strlit(".");
    assert("."@ =~= seq!['.']);
}

} // verus!
