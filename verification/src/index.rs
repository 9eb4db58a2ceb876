//! The content tree as it is held and built: each path is walked down from
//! the root, and a node is added wherever a segment names no child yet.

use crate::depth::Depth;
use crate::insert::{inserted, inserted_all, lemma_inserted_all_is_grown};
use crate::insert::{lemma_inserted_all_well_formed, lemma_inserted_well_formed};
use crate::insert::lemma_position_found;
use crate::node::{fresh, root, well_formed, Node};
use crate::shape::{ends_in_beats, lemma_tree_ends_in_beats, segmented, tree_of};
use crate::text::{chars_of, split, split_chars};
use vstd::prelude::*;
use vstd::slice::slice_subrange;

verus! {

/// A node of the content tree together with everything below it.
#[derive(Debug)]
pub struct ContentIndex {
    pub(crate) depth: Depth,
    pub(crate) name: String,
    pub(crate) context: Vec<String>,
    pub(crate) children: Vec<ContentIndex>,
}

/// The node that `index` stands for.
pub closed spec fn node_of(index: ContentIndex) -> Node
    decreases index,
{
    Node {
        rank: index.depth,
        name: index.name@,
        context: index.context.deep_view(),
        children: Seq::new(
            index.children@.len(),
            |i: int|
                if 0 <= i < index.children@.len() {
                    node_of(index.children@[i])
                } else {
                    arbitrary()
                },
        ),
    }
}

impl View for ContentIndex {
    type V = Node;

    closed spec fn view(&self) -> Node {
        node_of(*self)
    }
}

impl ContentIndex {
    /// Every `ContentIndex` stands for a well-formed node.
    #[verifier::type_invariant]
    pub open spec fn is_well_formed(&self) -> bool {
        well_formed(self@)
    }

    /// The node's rank.
    pub fn depth(&self) -> (rank: Depth)
        ensures
            rank == self@.rank,
    {
        self.depth
    }

    /// The path segment that the node was made for.
    pub fn name(&self) -> (name: &str)
        ensures
            name@ == self@.name,
    {
        self.name.as_str()
    }

    /// The names of the node's ancestors, the root's first.
    pub fn context(&self) -> (context: &Vec<String>)
        ensures
            context.deep_view() == self@.context,
    {
        &self.context
    }

    /// The node's children, in the order in which they were first met.
    pub fn children(&self) -> (children: &Vec<ContentIndex>)
        ensures
            children@.len() == self@.children.len(),
            forall|i: int| 0 <= i < children@.len() ==>
                (#[trigger] children@[i])@ == self@.children[i],
    {
        &self.children
    }
}

/// A `ContentIndex` stands for the node made of its rank, its name, its
/// ancestors' names and what its children stand for.
pub(crate) proof fn lemma_node_of(index: &ContentIndex)
    ensures
        index@.rank == index.depth,
        index@.name == index.name@,
        index@.context == index.context.deep_view(),
        index@.children.len() == index.children@.len(),
        forall|i: int|
            0 <= i < index.children@.len() ==>
                index@.children[i] == (#[trigger] index.children@[i])@,
{
}

/// Walks the path `parts` down from `tree`, which has the rank `depth`, and
/// adds a node wherever a segment names no child yet.
fn add_to_tree(tree: &mut ContentIndex, parts: &[String], depth: Depth)
    requires
        depth == old(tree)@.rank,
    ensures
        final(tree)@ == inserted(old(tree)@, parts.deep_view()),
    decreases parts.len(),
{
    if parts.len() == 0 {
        return;
    }
    let ghost before = tree@;
    let ghost segments = parts.deep_view();
    let ghost old_children = tree.children@;
    proof {
        use_type_invariant(&*tree);
        lemma_inserted_well_formed(before, segments);
        assert(before.children.len() == old_children.len());
        assert(forall|k: int| 0 <= k < old_children.len() ==>
            before.children[k] == old_children[k]@);
    }
    let child_depth = depth.next_level();
    let rest = slice_subrange(parts, 1, parts.len());
    assert(rest.deep_view() =~= segments.skip(1));
    // The children leave the node while they change and come back when they
    // are in order again.
    let mut children: Vec<ContentIndex> = Vec::new();
    core::mem::swap(&mut tree.children, &mut children);
    assert(children@ == old_children);
    let mut at: usize = 0;
    while at < children.len() && !(children[at].name == parts[0])
        invariant
            at <= children.len(),
            parts.len() > 0,
            before.children.len() == children.len(),
            forall|k: int| 0 <= k < children.len() ==>
                (#[trigger] before.children[k]) == children@[k]@,
            forall|k: int| 0 <= k < at ==> (#[trigger] before.children[k]).name != parts[0]@,
        decreases children.len() - at,
    {
        at += 1;
    }
    proof {
        lemma_position_found(before.children, segments[0], at as int);
    }
    if at < children.len() {
        add_to_tree(&mut children[at], rest, child_depth);
        proof {
            assert(children@.len() == old_children.len());
            assert(children@[at as int]@ == inserted(before.children[at as int], segments.skip(1)));
            assert forall|k: int| 0 <= k < children@.len() && k != at implies children@[k]
                == old_children[k] by {}
        }
    } else {
        let mut context = tree.context.clone();
        assert(context.deep_view() =~= before.context);
        context.push(tree.name.clone());
        assert(context.deep_view() =~= before.context.push(before.name));
        let mut new_node = ContentIndex {
            name: parts[0].clone(),
            children: Vec::new(),
            context,
            depth: child_depth,
        };
        assert(new_node@.children =~= Seq::empty());
        assert(new_node@ == fresh(before, segments[0]));
        add_to_tree(&mut new_node, rest, child_depth);
        children.push(new_node);
    }
    proof {
        let after = ContentIndex {
            depth: tree.depth,
            name: tree.name,
            context: tree.context,
            children,
        };
        let target = inserted(before, segments);
        assert(node_of(after).children =~= target.children);
        assert(node_of(after) == target);
    }
    core::mem::swap(&mut tree.children, &mut children);
}

/// Builds the content tree of `paths` under a root of rank `depth`. Each
/// path is cut at its slashes and walked down from the root; the paths are
/// taken in the order given, so the children of a node stand in the order in
/// which the paths first named them. Where every path has as many segments
/// as there are ranks below the root, the leaves of the tree are its beats.
pub fn create_tree(paths: Vec<String>, depth: Depth) -> (tree: ContentIndex)
    requires
        depth != Depth::Beat,
    ensures
        tree@ == tree_of(paths.deep_view(), depth),
        well_formed(tree@),
        (forall|i: int|
            0 <= i < paths.len() ==> split(#[trigger] paths[i]@, '/').len()
                == depth.levels_below()) ==> ends_in_beats(tree@),
{
    let mut tree = ContentIndex {
        name: "#ROOT#".to_string(),
        children: Vec::new(),
        context: Vec::new(),
        depth,
    };
    let ghost all = segmented(paths.deep_view());
    proof {
        assert(tree@.children =~= Seq::empty());
        assert(tree@.context =~= Seq::empty());
        assert(all.take(0) =~= Seq::empty());
    }
    let mut i: usize = 0;
    while i < paths.len()
        invariant
            i <= paths.len(),
            depth != Depth::Beat,
            all == segmented(paths.deep_view()),
            tree@ == inserted_all(root(depth), all.take(i as int)),
        decreases paths.len() - i,
    {
        let chars = chars_of(paths[i].as_str());
        let parts = split_chars(&chars, chars.len(), '/');
        proof {
            assert(chars@.take(chars.len() as int) =~= chars@);
            assert(parts.deep_view() == all[i as int]);
            assert(all.take(i + 1).drop_last() =~= all.take(i as int));
            lemma_inserted_all_well_formed(root(depth), all.take(i as int));
        }
        add_to_tree(&mut tree, parts.as_slice(), depth);
        i += 1;
    }
    proof {
        assert(all.take(paths.len() as int) =~= all);
        lemma_inserted_all_is_grown(root(depth), all);
        use_type_invariant(&tree);
        if forall|i: int|
            0 <= i < paths.len() ==> split(#[trigger] paths[i]@, '/').len()
                == depth.levels_below() {
            assert forall|i: int| 0 <= i < paths.len() implies split(
                #[trigger] paths.deep_view()[i],
                '/',
            ).len() == depth.levels_below() by {
                assert(paths.deep_view()[i] == paths[i]@);
            }
            lemma_tree_ends_in_beats(paths.deep_view(), depth);
        }
    }
    tree
}

} // verus!
