use vstd::prelude::*;

verus! {

/// A node of the output forest.
#[derive(Debug, PartialEq, Eq)]
pub enum Node {
    /// A fragment of source text that holds no newline.
    Text(String),
    /// A highlighted region and what it holds on one line.
    Span { name: String, children: Vec<Node> },
    /// The end of one output line; it only stands at the top of the forest.
    LineBreak,
}

/// The mathematical value of a `Node`.
pub ghost enum Tree {
    Text(Seq<char>),
    Span(Seq<char>, Seq<Tree>),
    LineBreak,
}

pub open spec fn tree_of(n: Node) -> Tree
    decreases n,
{
    match n {
        Node::Text(s) => Tree::Text(s@),
        Node::Span { name, children } => Tree::Span(name@, trees_of(children@)),
        Node::LineBreak => Tree::LineBreak,
    }
}

pub open spec fn trees_of(s: Seq<Node>) -> Seq<Tree>
    decreases s,
{
    if s.len() == 0 {
        Seq::empty()
    } else {
        trees_of(s.drop_last()).push(tree_of(s.last()))
    }
}

impl View for Node {
    type V = Tree;

    open spec fn view(&self) -> Tree {
        tree_of(*self)
    }
}

} // verus!
