//! The nodes of the content tree: one for each segment of the normalized
//! paths, under a root.

use crate::depth::Depth;
use vstd::prelude::*;

verus! {

/// A node of the content tree, with everything below it.
pub struct Node {
    /// The node's rank in the hierarchy.
    pub rank: Depth,
    /// The path segment that the node was made for.
    pub name: Seq<char>,
    /// The names of the node's ancestors, the root's first.
    pub context: Seq<Seq<char>>,
    /// The node's children, in the order in which they were first met.
    pub children: Seq<Node>,
}

/// The name of the root of every tree.
pub open spec fn root_name() -> Seq<char> {
    "#ROOT#"@
}

/// The root of an empty tree.
pub open spec fn root(rank: Depth) -> Node {
    Node { rank, name: root_name(), context: Seq::empty(), children: Seq::empty() }
}

/// A new child of `parent`, without children of its own.
pub open spec fn fresh(parent: Node, name: Seq<char>) -> Node {
    Node {
        rank: parent.rank.finer(),
        name,
        context: parent.context.push(parent.name),
        children: Seq::empty(),
    }
}

/// What holds of every node of a tree: no two children share a name, each
/// child is one rank finer than its parent and knows the names above it, and
/// a node of the finest rank has somebody above it.
pub open spec fn well_formed(node: Node) -> bool
    decreases node,
{
    &&& node.rank == Depth::Beat ==> node.context.len() > 0
    &&& forall|i: int, j: int|
        0 <= i < j < node.children.len() ==> node.children[i].name != node.children[j].name
    &&& forall|i: int|
        0 <= i < node.children.len() ==> {
            &&& (#[trigger] node.children[i]).rank == node.rank.finer()
            &&& node.children[i].context == node.context.push(node.name)
            &&& well_formed(node.children[i])
        }
}

} // verus!
