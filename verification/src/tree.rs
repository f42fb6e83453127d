//! The document tree: a rooted, ordered tree of nodes, each owning its children.
//!
//! A [`Node`] is the executable tree; its view is a [`Tree`], the mathematical
//! tree over which every contract of this crate is stated. Because a parent
//! owns its children, a tree is finite, acyclic and has no shared node by
//! construction.

use vstd::prelude::*;

verus! {

/// What a node is, with the payload of its kind.
#[derive(Clone, Debug, PartialEq, Eq)]
pub enum NodeValue {
    /// The root of a parsed document.
    Document,
    /// A paragraph of inline content.
    Paragraph,
    /// A region of literal code. `info` holds the language tag and may be empty.
    CodeBlock { literal: String, info: String },
    /// Markup that is already rendered and is emitted verbatim, unescaped.
    HtmlBlock { block_type: u8, literal: String },
    /// Any other structural or inline kind, under the name that the parser has for it.
    Other(String),
}

/// One node of the document tree with the subtree below it.
#[derive(Debug, PartialEq, Eq)]
pub struct Node {
    pub value: NodeValue,
    pub children: Vec<Node>,
}

impl Node {
    /// A node with the given value over the given children, in their order.
    pub fn new(value: NodeValue, children: Vec<Node>) -> (node: Node)
        ensures
            node@.value == value@,
            node@.children == node_views(children@),
    {
        let node = Node { value, children };
        proof {
            lemma_view_unfold(node);
        }
        node
    }

    /// A node without children.
    pub fn leaf(value: NodeValue) -> (node: Node)
        ensures
            node@ == (Tree { value: value@, children: Seq::empty() }),
    {
        let node = Node { value, children: Vec::new() };
        proof {
            lemma_view_unfold(node);
            assert(node@.children =~= Seq::<Tree>::empty());
        }
        node
    }
}

/// The view of a [`NodeValue`]: the same kinds, with text as sequences of characters.
pub enum Value {
    Document,
    Paragraph,
    CodeBlock { literal: Seq<char>, info: Seq<char> },
    HtmlBlock { block_type: u8, literal: Seq<char> },
    Other(Seq<char>),
}

/// The view of a [`Node`]: a value and the ordered sequence of child trees.
pub struct Tree {
    pub value: Value,
    pub children: Seq<Tree>,
}

impl View for NodeValue {
    type V = Value;

    open spec fn view(&self) -> Value {
        match *self {
            NodeValue::Document => Value::Document,
            NodeValue::Paragraph => Value::Paragraph,
            NodeValue::CodeBlock { literal, info } => Value::CodeBlock {
                literal: literal@,
                info: info@,
            },
            NodeValue::HtmlBlock { block_type, literal } => Value::HtmlBlock {
                block_type,
                literal: literal@,
            },
            NodeValue::Other(kind) => Value::Other(kind@),
        }
    }
}

impl View for Node {
    type V = Tree;

    open spec fn view(&self) -> Tree {
        tree_of(*self)
    }
}

/// The mathematical tree that a node stands for.
pub open spec fn tree_of(node: Node) -> Tree
    decreases node,
{
    Tree {
        value: node.value@,
        children: Seq::new(
            node.children@.len(),
            |i: int|
                if 0 <= i < node.children@.len() {
                    tree_of(node.children@[i])
                } else {
                    arbitrary()
                },
        ),
    }
}

/// The values of a tree's nodes in pre-order: a parent before its children,
/// the children in their own order.
pub open spec fn preorder(t: Tree) -> Seq<Value>
    decreases t,
{
    seq![t.value] + forest_preorder(t.children)
}

/// The pre-order values of a sequence of sibling trees, one tree after the other.
pub open spec fn forest_preorder(f: Seq<Tree>) -> Seq<Value>
    decreases f,
{
    if f.len() == 0 {
        Seq::empty()
    } else {
        forest_preorder(f.drop_last()) + preorder(f.last())
    }
}

/// Two trees have the same shape: node for node, the same number of children.
pub open spec fn same_shape(a: Tree, b: Tree) -> bool
    decreases a,
{
    &&& a.children.len() == b.children.len()
    &&& forall|i: int|
        0 <= i < a.children.len() ==> same_shape(#[trigger] a.children[i], b.children[i])
}

/// The views of a sequence of nodes.
pub open spec fn node_views(nodes: Seq<Node>) -> Seq<Tree> {
    Seq::new(nodes.len(), |i: int| nodes[i]@)
}

/// The view of a node is the view of its value over the views of its children.
pub proof fn lemma_view_unfold(node: Node)
    ensures
        node@.value == node.value@,
        node@.children == node_views(node.children@),
{
    let kids = node@.children;
    assert(kids.len() == node.children@.len());
    assert forall|i: int| 0 <= i < kids.len() implies kids[i] == node_views(node.children@)[i] by {
        assert(kids[i] == node.children@[i]@);
    }
    assert(kids =~= node_views(node.children@));
}

/// The pre-order of the first `i + 1` siblings is that of the first `i`
/// followed by the pre-order of sibling `i`.
pub proof fn lemma_forest_preorder_step(f: Seq<Tree>, i: int)
    requires
        0 <= i < f.len(),
    ensures
        forest_preorder(f.take(i + 1)) == forest_preorder(f.take(i)) + preorder(f[i]),
{
    assert(f.take(i + 1).drop_last() =~= f.take(i));
    assert(f.take(i + 1).last() == f[i]);
}

/// Every tree has the shape of itself.
pub proof fn lemma_same_shape_reflexive(t: Tree)
    ensures
        same_shape(t, t),
    decreases t,
{
    assert forall|i: int| 0 <= i < t.children.len() implies same_shape(
        #[trigger] t.children[i],
        t.children[i],
    ) by {
        lemma_same_shape_reflexive(t.children[i]);
    }
}

/// Having the same shape goes both ways.
pub proof fn lemma_same_shape_symmetric(a: Tree, b: Tree)
    requires
        same_shape(a, b),
    ensures
        same_shape(b, a),
    decreases a,
{
    assert forall|i: int| 0 <= i < b.children.len() implies same_shape(
        #[trigger] b.children[i],
        a.children[i],
    ) by {
        lemma_same_shape_symmetric(a.children[i], b.children[i]);
    }
}

/// Two trees with the shape of a third have the same shape.
pub proof fn lemma_same_shape_transitive(a: Tree, b: Tree, c: Tree)
    requires
        same_shape(a, b),
        same_shape(b, c),
    ensures
        same_shape(a, c),
    decreases a,
{
    assert forall|i: int| 0 <= i < a.children.len() implies same_shape(
        #[trigger] a.children[i],
        c.children[i],
    ) by {
        assert(same_shape(b.children[i], c.children[i]));
        lemma_same_shape_transitive(a.children[i], b.children[i], c.children[i]);
    }
}

/// Trees of the same shape have as many nodes.
pub proof fn lemma_same_shape_same_size(a: Tree, b: Tree)
    requires
        same_shape(a, b),
    ensures
        preorder(a).len() == preorder(b).len(),
    decreases a,
{
    lemma_same_shape_forest_same_size(a.children, b.children);
}

/// Forests whose trees pairwise have the same shape have as many nodes.
pub proof fn lemma_same_shape_forest_same_size(f: Seq<Tree>, g: Seq<Tree>)
    requires
        f.len() == g.len(),
        forall|i: int| 0 <= i < f.len() ==> same_shape(#[trigger] f[i], g[i]),
    ensures
        forest_preorder(f).len() == forest_preorder(g).len(),
    decreases f,
{
    if f.len() > 0 {
        lemma_same_shape_forest_same_size(f.drop_last(), g.drop_last());
        lemma_same_shape_same_size(f.last(), g.last());
    }
}

/// A tree is determined by its shape and the pre-order of its values.
pub proof fn lemma_shape_and_values_determine(a: Tree, b: Tree)
    requires
        same_shape(a, b),
        preorder(a) == preorder(b),
    ensures
        a == b,
    decreases a,
{
    assert(preorder(a)[0] == a.value);
    assert(preorder(b)[0] == b.value);
    assert(forest_preorder(a.children) =~= preorder(a).subrange(1, preorder(a).len() as int));
    assert(forest_preorder(b.children) =~= preorder(b).subrange(1, preorder(b).len() as int));
    lemma_forest_determined(a.children, b.children);
}

/// A forest is determined by the shapes of its trees and the pre-order of its values.
pub proof fn lemma_forest_determined(f: Seq<Tree>, g: Seq<Tree>)
    requires
        f.len() == g.len(),
        forall|i: int| 0 <= i < f.len() ==> same_shape(#[trigger] f[i], g[i]),
        forest_preorder(f) == forest_preorder(g),
    ensures
        f == g,
    decreases f,
{
    if f.len() > 0 {
        let fp = forest_preorder(f.drop_last());
        let gp = forest_preorder(g.drop_last());
        let fl = preorder(f.last());
        let gl = preorder(g.last());
        lemma_same_shape_same_size(f.last(), g.last());
        lemma_same_shape_forest_same_size(f.drop_last(), g.drop_last());
        assert(fp =~= (fp + fl).subrange(0, fp.len() as int));
        assert(gp =~= (gp + gl).subrange(0, gp.len() as int));
        assert(fl =~= (fp + fl).subrange(fp.len() as int, (fp + fl).len() as int));
        assert(gl =~= (gp + gl).subrange(gp.len() as int, (gp + gl).len() as int));
        lemma_forest_determined(f.drop_last(), g.drop_last());
        lemma_shape_and_values_determine(f.last(), g.last());
        assert(f =~= f.drop_last().push(f.last()));
        assert(g =~= g.drop_last().push(g.last()));
    }
    assert(f =~= g);
}

} // verus!
