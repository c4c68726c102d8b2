//! The structural syntax tree the extractor walks: each node carries its
//! kind, its byte range in the source text, and its named children.  The
//! tree itself comes from the tree-sitter Scala grammar.

use vstd::prelude::*;
use vstd::string::StringSliceAdditionalSpecFns;

verus! {

/// One node of a parsed file's syntax tree.
#[derive(Debug)]
pub struct SynNode {
    pub kind: String,
    pub start: usize,
    pub end: usize,
    pub children: Vec<SynNode>,
}

/// Mathematical model of a syntax-tree node.
pub struct NodeView {
    pub kind: Seq<char>,
    pub start: usize,
    pub end: usize,
    pub children: Seq<NodeView>,
}

pub open spec fn syn_node_view(n: SynNode) -> NodeView
    decreases n, 1int,
    via syn_node_view_decreases
{
    NodeView {
        kind: n.kind@,
        start: n.start,
        end: n.end,
        children: syn_children_views(n.children@),
    }
}

pub open spec fn syn_children_views(s: Seq<SynNode>) -> Seq<NodeView>
    decreases s, 0int,
{
    if s.len() == 0 {
        Seq::empty()
    } else {
        syn_children_views(s.drop_last()).push(syn_node_view(s.last()))
    }
}

#[via_fn]
proof fn syn_node_view_decreases(n: SynNode) {
    assert(decreases_to!(n => n.children));
    assert(decreases_to!(n.children => n.children@));
}

impl View for SynNode {
    type V = NodeView;

    open spec fn view(&self) -> NodeView {
        syn_node_view(*self)
    }
}

impl DeepView for SynNode {
    type V = NodeView;

    open spec fn deep_view(&self) -> NodeView {
        self.view()
    }
}

/// A node's model has one child model per child, in order.
pub proof fn lemma_children_views(s: Seq<SynNode>)
    ensures
        syn_children_views(s).len() == s.len(),
        forall|i: int| 0 <= i < s.len() ==> #[trigger] syn_children_views(s)[i] == s[i]@,
    decreases s.len(),
{
    if s.len() > 0 {
        lemma_children_views(s.drop_last());
        assert forall|i: int| 0 <= i < s.len() implies #[trigger] syn_children_views(s)[i]
            == s[i]@ by {
            if i < s.len() - 1 {
                assert(s.drop_last()[i] == s[i]);
                assert(syn_children_views(s)[i] == syn_children_views(s.drop_last())[i]);
            }
        }
    }
}

/// Every byte range of the tree lies within a text of length `len`.
pub open spec fn node_spans_within(n: NodeView, len: nat) -> bool
    decreases n,
{
    n.start <= n.end <= len && forall|i: int|
        0 <= i < n.children.len() ==> node_spans_within(#[trigger] n.children[i], len)
}

/// The syntax tree that the Scala grammar assigns to a source text.  The
/// parse is a function of the text alone.
pub uninterp spec fn scala_parse(code: Seq<u8>) -> NodeView;

/// Relies on tree-sitter's `Parser::parse` with the Scala grammar of
/// tree-sitter-scala: parsing is deterministic in the source text, and
/// every node's byte range lies within it.  Called with `None` it parses
/// `code` whole; the `Some` form copies one already-parsed node, and of
/// that call nothing is promised.
#[verifier::external_body]
fn scala_tree(code: &str, node: Option<tree_sitter::Node<'_>>) -> (r: SynNode)
    ensures
        node is None ==> r@ == scala_parse(code.spec_bytes()) && node_spans_within(
            r@,
            code.spec_bytes().len(),
        ),
{
    let n = match node {
        None => {
            let mut parser = tree_sitter::Parser::new();
            parser.set_language(&tree_sitter_scala::LANGUAGE.into()).unwrap();
            let tree = parser.parse(code, None).unwrap();
            return scala_tree(code, Some(tree.root_node()));
        },
        Some(n) => n,
    };
    let mut cursor = n.walk();
    let children = n.named_children(&mut cursor).map(|c| scala_tree(code, Some(c))).collect();
    SynNode { kind: n.kind().to_string(), start: n.start_byte(), end: n.end_byte(), children }
}

#[verifier::external_type_specification]
#[verifier::external_body]
pub struct ExNode<'a>(tree_sitter::Node<'a>);

/// Parse a Scala source text into its syntax tree.
pub fn parse_tree(code: &str) -> (r: SynNode)
    ensures
        r@ == scala_parse(code.spec_bytes()),
        node_spans_within(r@, code.spec_bytes().len()),
{
    scala_tree(code, None)
}

} // verus!
