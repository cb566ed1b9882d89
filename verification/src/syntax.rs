//! Syntax trees: source text parsed by tree-sitter, as plain rows.

use vstd::prelude::*;

verus! {

/// The grammars source text is parsed with.
#[derive(Clone, Copy, Debug, PartialEq, Eq, Structural)]
pub enum Grammar {
    Rust,
    Python,
    TypeScript,
    Tsx,
    Go,
    Java,
    Nix,
}

/// A node of a syntax tree as the tree lists it, parents before children.
#[derive(Debug)]
pub struct Node {
    /// How many ancestors the node has.
    pub depth: u32,
    /// The node's type in the grammar.
    pub kind: String,
    /// Whether the node stands for a named rule of the grammar.
    pub named: bool,
    /// Whether the node is or holds a syntax error.
    pub error: bool,
    /// 0-based first row.
    pub start_row: usize,
    /// 0-based last row.
    pub end_row: usize,
    /// The bytes of the node.
    pub span: (usize, usize),
    /// The bytes of its child under the field `name`.
    pub name: Option<(usize, usize)>,
    /// The bytes of its child under the field `type`.
    pub typ: Option<(usize, usize)>,
}

/// What a [`Node`] says, as mathematical values.
pub struct NodeView {
    pub depth: int,
    pub kind: Seq<char>,
    pub named: bool,
    pub error: bool,
    pub start_row: int,
    pub end_row: int,
    pub span: (int, int),
    pub name: Option<(int, int)>,
    pub typ: Option<(int, int)>,
}

/// A pair of byte offsets as integers.
pub open spec fn span_view(p: Option<(usize, usize)>) -> Option<(int, int)> {
    match p {
        Some((a, b)) => Some((a as int, b as int)),
        None => None,
    }
}

impl View for Node {
    type V = NodeView;

    open spec fn view(&self) -> NodeView {
        NodeView {
            depth: self.depth as int,
            kind: self.kind@,
            named: self.named,
            error: self.error,
            start_row: self.start_row as int,
            end_row: self.end_row as int,
            span: (self.span.0 as int, self.span.1 as int),
            name: span_view(self.name),
            typ: span_view(self.typ),
        }
    }
}

#[verifier::external_type_specification]
#[verifier::external_body]
pub struct ExTree(tree_sitter::Tree);

/// The nodes of a tree in the order in which a cursor counts descendants:
/// the root first, each node before its children.
pub uninterp spec fn tree_nodes(tree: tree_sitter::Tree) -> Seq<NodeView>;

/// The nodes of the tree that tree-sitter parses `text` into under a grammar.
pub uninterp spec fn parsed_nodes(grammar: Grammar, text: Seq<char>) -> Option<Seq<NodeView>>;

/// `tree_sitter::Parser::parse` under the language of `grammar`: the tree is a
/// function of the grammar and the text. There is none where the parser does
/// not take the language.
#[verifier::external_body]
fn parse(grammar: Grammar, text: &str) -> (r: Option<tree_sitter::Tree>)
    ensures
        parsed_nodes(grammar, text@) == (match r {
            Some(tree) => Some(tree_nodes(tree)),
            None => None,
        }),
{
    let language = match grammar {
        Grammar::Rust => tree_sitter_rust::LANGUAGE,
        Grammar::Python => tree_sitter_python::LANGUAGE,
        Grammar::TypeScript => tree_sitter_typescript::LANGUAGE_TYPESCRIPT,
        Grammar::Tsx => tree_sitter_typescript::LANGUAGE_TSX,
        Grammar::Go => tree_sitter_go::LANGUAGE,
        Grammar::Java => tree_sitter_java::LANGUAGE,
        Grammar::Nix => tree_sitter_nix::LANGUAGE,
    };
    let mut parser = tree_sitter::Parser::new();
    parser.set_language(&language.into()).ok()?;
    parser.parse(text, None)
}

/// `tree_sitter::Node::descendant_count` of the root: how many nodes the tree
/// has, the root among them.
#[verifier::external_body]
fn node_count(tree: &tree_sitter::Tree) -> (r: usize)
    ensures
        r == tree_nodes(*tree).len(),
{
    tree.root_node().descendant_count()
}

/// `tree_sitter::TreeCursor::goto_descendant`, and what the node it leads to
/// says of itself. Rows are 32-bit numbers.
#[verifier::external_body]
fn node_at(tree: &tree_sitter::Tree, i: usize) -> (r: Node)
    requires
        i < tree_nodes(*tree).len(),
    ensures
        r@ == tree_nodes(*tree)[i as int],
        r.start_row <= u32::MAX,
        r.end_row <= u32::MAX,
{
    let mut cursor = tree.walk();
    cursor.goto_descendant(i);
    let node = cursor.node();
    Node {
        depth: cursor.depth(),
        kind: node.kind().to_owned(),
        named: node.is_named(),
        error: node.has_error(),
        start_row: node.start_position().row,
        end_row: node.end_position().row,
        span: (node.start_byte(), node.end_byte()),
        name: node.child_by_field_name("name").map(|n| (n.start_byte(), n.end_byte())),
        typ: node.child_by_field_name("type").map(|n| (n.start_byte(), n.end_byte())),
    }
}

/// What the nodes of `v` say.
pub open spec fn node_views(v: Seq<Node>) -> Seq<NodeView> {
    Seq::new(v.len(), |i: int| v[i]@)
}

/// Whether the rows of every node are 32-bit numbers.
pub open spec fn rows_fit(v: Seq<NodeView>) -> bool {
    forall|i: int|
        0 <= i < v.len() ==> 0 <= (#[trigger] v[i]).start_row <= u32::MAX && 0 <= v[i].end_row
            <= u32::MAX
}

/// Parses `text` and lists the nodes of its tree, parents before children.
pub fn parse_nodes(grammar: Grammar, text: &str) -> (r: Option<Vec<Node>>)
    ensures
        match r {
            Some(v) => parsed_nodes(grammar, text@) == Some(node_views(v@)) && rows_fit(
                node_views(v@),
            ),
            None => parsed_nodes(grammar, text@) is None,
        },
{
    match parse(grammar, text) {
        None => None,
        Some(tree) => {
            let n = node_count(&tree);
            let mut out: Vec<Node> = Vec::new();
            let mut i: usize = 0;
            while i < n
                invariant
                    i <= n,
                    n == tree_nodes(tree).len(),
                    node_views(out@) == tree_nodes(tree).take(i as int),
                    rows_fit(node_views(out@)),
                decreases n - i,
            {
                let ghost before = out@;
                let node = node_at(&tree, i);
                out.push(node);
                proof {
                    assert(node_views(out@) =~= node_views(before).push(node@));
                    assert(node_views(out@) =~= tree_nodes(tree).take(i + 1));
                }
                i += 1;
            }
            proof {
                assert(tree_nodes(tree).take(i as int) =~= tree_nodes(tree));
            }
            Some(out)
        },
    }
}

} // verus!
