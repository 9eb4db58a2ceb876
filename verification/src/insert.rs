//! Walking a path down the content tree: how the tree is built, one path
//! after the other, and that this makes the tree that the paths describe.

use crate::node::{fresh, well_formed, Node};
use crate::shape::{grown, heads, lemma_heads, lemma_tails, lemma_tails_of_other, longest};
use crate::shape::{starts_some, tails};
use vstd::prelude::*;

verus! {

/// The place of the first of `children` that is called `name`: their number
/// where none is.
pub open spec fn position_of(children: Seq<Node>, name: Seq<char>) -> int
    decreases children.len(),
{
    if children.len() == 0 || children[0].name == name {
        0
    } else {
        1 + position_of(children.skip(1), name)
    }
}

/// The tree below `node` after the path `segments` has been walked down from
/// `node`: a segment that names a child leads into that child, any other
/// gets a new last child.
pub open spec fn inserted(node: Node, segments: Seq<Seq<char>>) -> Node
    decreases segments.len(),
{
    if segments.len() == 0 {
        node
    } else {
        let at = position_of(node.children, segments[0]);
        if at < node.children.len() {
            Node {
                children: node.children.update(
                    at,
                    inserted(node.children[at], segments.skip(1)),
                ),
                ..node
            }
        } else {
            Node {
                children: node.children.push(
                    inserted(fresh(node, segments[0]), segments.skip(1)),
                ),
                ..node
            }
        }
    }
}

/// The tree below `node` after each of `paths` has been walked down from it,
/// one after the other.
pub open spec fn inserted_all(node: Node, paths: Seq<Seq<Seq<char>>>) -> Node
    decreases paths.len(),
{
    if paths.len() == 0 {
        node
    } else {
        inserted(inserted_all(node, paths.drop_last()), paths.last())
    }
}

/// No child before `position_of` has the name, and the child there has it.
pub proof fn lemma_position_of(children: Seq<Node>, name: Seq<char>)
    ensures
        0 <= position_of(children, name) <= children.len(),
        position_of(children, name) < children.len() ==> children[position_of(
            children,
            name,
        )].name == name,
        forall|k: int| 0 <= k < position_of(children, name) ==>
            (#[trigger] children[k]).name != name,
    decreases children.len(),
{
    if children.len() > 0 && children[0].name != name {
        let rest = children.skip(1);
        lemma_position_of(rest, name);
        assert forall|k: int| 0 <= k < position_of(children, name) implies
            (#[trigger] children[k]).name
            != name by {
            if k > 0 {
                assert(children[k] == rest[k - 1]);
            }
        }
    }
}

/// A place with no child of that name before it, which holds one or is the
/// end, is the `position_of` the name.
pub proof fn lemma_position_found(children: Seq<Node>, name: Seq<char>, at: int)
    requires
        0 <= at <= children.len(),
        forall|k: int| 0 <= k < at ==> (#[trigger] children[k]).name != name,
        at < children.len() ==> children[at].name == name,
    ensures
        position_of(children, name) == at,
    decreases at,
{
    if at > 0 {
        let rest = children.skip(1);
        assert(children[0].name != name);
        assert forall|k: int| 0 <= k < at - 1 implies (#[trigger] rest[k]).name != name by {
            assert(rest[k] == children[k + 1]);
        }
        lemma_position_found(rest, name, at - 1);
    }
}

/// Walking a path down a well-formed tree leaves it well-formed, and leaves
/// the node it started from its rank, name and ancestors.
pub proof fn lemma_inserted_well_formed(node: Node, segments: Seq<Seq<char>>)
    requires
        well_formed(node),
    ensures
        well_formed(inserted(node, segments)),
        inserted(node, segments).rank == node.rank,
        inserted(node, segments).name == node.name,
        inserted(node, segments).context == node.context,
        inserted(node, segments).children.len() >= node.children.len(),
        forall|k: int|
            0 <= k < node.children.len() ==> (#[trigger] inserted(node, segments).children[k]).name
                == node.children[k].name,
    decreases segments.len(),
{
    if segments.len() > 0 {
        let at = position_of(node.children, segments[0]);
        let after = inserted(node, segments);
        lemma_position_of(node.children, segments[0]);
        if at < node.children.len() {
            lemma_inserted_well_formed(node.children[at], segments.skip(1));
            assert forall|i: int| 0 <= i < after.children.len() implies {
                &&& (#[trigger] after.children[i]).rank == after.rank.finer()
                &&& after.children[i].context == after.context.push(after.name)
                &&& well_formed(after.children[i])
            } by {
                if i != at {
                    assert(after.children[i] == node.children[i]);
                }
            }
            assert forall|i: int, j: int| 0 <= i < j < after.children.len() implies
                after.children[i].name
                != after.children[j].name by {
                assert(after.children[i].name == node.children[i].name);
                assert(after.children[j].name == node.children[j].name);
            }
        } else {
            let child = fresh(node, segments[0]);
            assert(well_formed(child));
            lemma_inserted_well_formed(child, segments.skip(1));
            assert forall|i: int| 0 <= i < after.children.len() implies {
                &&& (#[trigger] after.children[i]).rank == after.rank.finer()
                &&& after.children[i].context == after.context.push(after.name)
                &&& well_formed(after.children[i])
            } by {
                if i < node.children.len() {
                    assert(after.children[i] == node.children[i]);
                }
            }
            assert forall|i: int, j: int| 0 <= i < j < after.children.len() implies
                after.children[i].name
                != after.children[j].name by {
                assert(after.children[i] == node.children[i]);
                if j < node.children.len() {
                    assert(after.children[j] == node.children[j]);
                }
            }
        }
    }
}

/// Walking paths down a well-formed tree leaves it well-formed, and leaves
/// the node they started from its rank, name and ancestors.
pub proof fn lemma_inserted_all_well_formed(node: Node, paths: Seq<Seq<Seq<char>>>)
    requires
        well_formed(node),
    ensures
        well_formed(inserted_all(node, paths)),
        inserted_all(node, paths).rank == node.rank,
        inserted_all(node, paths).name == node.name,
        inserted_all(node, paths).context == node.context,
    decreases paths.len(),
{
    if paths.len() > 0 {
        lemma_inserted_all_well_formed(node, paths.drop_last());
        lemma_inserted_well_formed(inserted_all(node, paths.drop_last()), paths.last());
    }
}

/// Walking paths down from a node changes what is below it, not the node.
pub proof fn lemma_inserted_all_keeps_node(node: Node, paths: Seq<Seq<Seq<char>>>)
    ensures
        inserted_all(node, paths).rank == node.rank,
        inserted_all(node, paths).name == node.name,
        inserted_all(node, paths).context == node.context,
    decreases paths.len(),
{
    if paths.len() > 0 {
        lemma_inserted_all_keeps_node(node, paths.drop_last());
    }
}

/// The children of a tree built from a node without children are called
/// after the heads of the paths and stand in the order of the heads: the
/// order in which the paths first named them. Below each child stands the
/// tree of the paths that went through it, built in the same way, so the same
/// holds at every level.
pub proof fn lemma_inserted_all_children(node: Node, paths: Seq<Seq<Seq<char>>>)
    requires
        node.children.len() == 0,
    ensures
        inserted_all(node, paths).children.len() == heads(paths).len(),
        forall|k: int|
            0 <= k < heads(paths).len() ==> {
                &&& (#[trigger] inserted_all(node, paths).children[k]).name == heads(paths)[k]
                &&& inserted_all(node, paths).children[k] == inserted_all(
                    fresh(node, heads(paths)[k]),
                    tails(paths, heads(paths)[k]),
                )
            },
    decreases paths.len(),
{
    let tree = inserted_all(node, paths);
    if paths.len() > 0 {
        let init = paths.drop_last();
        let path = paths.last();
        let before = inserted_all(node, init);
        lemma_inserted_all_children(node, init);
        lemma_inserted_all_keeps_node(node, init);
        lemma_heads(init);
        if path.len() > 0 {
            let head = path[0];
            let rest = path.skip(1);
            if heads(init).contains(head) {
                let at = choose|at: int| 0 <= at < heads(init).len() && heads(init)[at] == head;
                assert forall|k: int| 0 <= k < at implies (#[trigger] before.children[k]).name
                    != head by {}
                lemma_position_found(before.children, head, at);
                assert(tails(paths, head).drop_last() =~= tails(init, head));
                assert forall|k: int| 0 <= k < heads(paths).len() implies {
                    &&& (#[trigger] tree.children[k]).name == heads(paths)[k]
                    &&& tree.children[k] == inserted_all(
                        fresh(node, heads(paths)[k]),
                        tails(paths, heads(paths)[k]),
                    )
                } by {
                    lemma_inserted_all_keeps_node(
                        fresh(node, heads(paths)[k]),
                        tails(paths, heads(paths)[k]),
                    );
                    if k != at {
                        assert(tree.children[k] == before.children[k]);
                    }
                }
            } else {
                assert forall|k: int| 0 <= k < before.children.len() implies (
                #[trigger] before.children[k]).name != head by {
                    assert(heads(init).contains(heads(init)[k]));
                }
                lemma_position_found(before.children, head, before.children.len() as int);
                lemma_tails_of_other(init, head);
                assert(tails(paths, head) =~= seq![rest]);
                assert(tails(paths, head).drop_last() =~= Seq::empty());
                assert(fresh(before, head) == fresh(node, head));
                assert forall|k: int| 0 <= k < heads(paths).len() implies {
                    &&& (#[trigger] tree.children[k]).name == heads(paths)[k]
                    &&& tree.children[k] == inserted_all(
                        fresh(node, heads(paths)[k]),
                        tails(paths, heads(paths)[k]),
                    )
                } by {
                    lemma_inserted_all_keeps_node(
                        fresh(node, heads(paths)[k]),
                        tails(paths, heads(paths)[k]),
                    );
                    if k < before.children.len() {
                        assert(tree.children[k] == before.children[k]);
                        assert(heads(init).contains(heads(init)[k]));
                        assert(heads(paths)[k] != head);
                        assert(tails(paths, heads(paths)[k]) == tails(init, heads(init)[k]));
                    } else {
                        let child = fresh(node, head);
                        assert(heads(paths)[k] == head);
                        assert(tree.children[k] == inserted(child, rest));
                        assert(inserted_all(child, Seq::empty()) == child);
                        assert(seq![rest].last() == rest);
                        assert(inserted_all(child, seq![rest]) == inserted(child, rest));
                    }
                }
            }
        }
    }
}

/// Walking the paths down from a node without children, one after the
/// other, makes the tree that the paths grow below it.
pub proof fn lemma_inserted_all_is_grown(node: Node, paths: Seq<Seq<Seq<char>>>)
    requires
        node.children.len() == 0,
    ensures
        inserted_all(node, paths) == grown(node, paths),
    decreases longest(paths),
{
    let walked = inserted_all(node, paths);
    let made = grown(node, paths);
    lemma_inserted_all_children(node, paths);
    lemma_inserted_all_keeps_node(node, paths);
    lemma_heads(paths);
    assert forall|k: int| 0 <= k < made.children.len() implies walked.children[k]
        == made.children[k] by {
        lemma_tails(paths, heads(paths)[k]);
        assert(starts_some(paths, heads(paths)[k]));
        lemma_inserted_all_is_grown(fresh(node, heads(paths)[k]), tails(paths, heads(paths)[k]));
    }
    assert(walked.children =~= made.children);
}

} // verus!
