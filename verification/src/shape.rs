//! What the content tree of a list of paths is: which children a node has,
//! in which order they stand, and at which rank the tree ends.

use crate::depth::Depth;
use crate::node::{fresh, root, well_formed, Node};
use crate::text::split;
use vstd::prelude::*;

verus! {

/// Whether `path` starts with the segment `head`.
pub open spec fn starts_with(path: Seq<Seq<char>>, head: Seq<char>) -> bool {
    path.len() > 0 && path[0] == head
}

/// The first segments of the paths, each once, in the order in which they
/// first appear. A path without segments adds nothing.
pub open spec fn heads(paths: Seq<Seq<Seq<char>>>) -> Seq<Seq<char>>
    decreases paths.len(),
{
    if paths.len() == 0 {
        Seq::empty()
    } else {
        let before = heads(paths.drop_last());
        let path = paths.last();
        if path.len() == 0 || before.contains(path[0]) {
            before
        } else {
            before.push(path[0])
        }
    }
}

/// What is left of the paths that start with `head` once that segment is
/// taken off, in the order of the paths.
pub open spec fn tails(paths: Seq<Seq<Seq<char>>>, head: Seq<char>) -> Seq<Seq<Seq<char>>>
    decreases paths.len(),
{
    if paths.len() == 0 {
        Seq::empty()
    } else {
        let before = tails(paths.drop_last(), head);
        if starts_with(paths.last(), head) {
            before.push(paths.last().skip(1))
        } else {
            before
        }
    }
}

/// Whether some path starts with `head`.
pub open spec fn starts_some(paths: Seq<Seq<Seq<char>>>, head: Seq<char>) -> bool {
    exists|m: int| 0 <= m < paths.len() && starts_with(#[trigger] paths[m], head)
}

/// Whether some path starts with `first` before any path starts with
/// `second`.
pub open spec fn appears_before(
    paths: Seq<Seq<Seq<char>>>,
    first: Seq<char>,
    second: Seq<char>,
) -> bool {
    exists|m: int|
        0 <= m < paths.len() && starts_with(#[trigger] paths[m], first) && forall|n: int|
            0 <= n <= m ==> !starts_with(#[trigger] paths[n], second)
}

/// `heads` lists exactly the first segments of the paths, none of them
/// twice, and in the order of first appearance: of two heads, the earlier one
/// starts a path before any path starts with the later one.
pub proof fn lemma_heads(paths: Seq<Seq<Seq<char>>>)
    ensures
        forall|i: int, j: int|
            0 <= i < j < heads(paths).len() ==> heads(paths)[i] != heads(paths)[j],
        forall|m: int|
            0 <= m < paths.len() && paths[m].len() > 0 ==> heads(paths).contains(
                #[trigger] paths[m][0],
            ),
        forall|i: int, j: int|
            0 <= i < j < heads(paths).len() ==> appears_before(
                paths,
                #[trigger] heads(paths)[i],
                #[trigger] heads(paths)[j],
            ),
        forall|i: int| 0 <= i < heads(paths).len() ==>
            starts_some(paths, #[trigger] heads(paths)[i]),
    decreases paths.len(),
{
    if paths.len() > 0 {
        let init = paths.drop_last();
        let path = paths.last();
        let before = heads(init);
        let all = heads(paths);
        lemma_heads(init);
        assert forall|m: int| 0 <= m < paths.len() && paths[m].len() > 0 implies all.contains(
            #[trigger] paths[m][0],
        ) by {
            if m < init.len() {
                assert(init[m] == paths[m]);
                assert(before.contains(init[m][0]));
                let at = choose|at: int| 0 <= at < before.len() && before[at] == init[m][0];
                assert(all[at] == paths[m][0]);
            } else if before.contains(path[0]) {
                let at = choose|at: int| 0 <= at < before.len() && before[at] == path[0];
                assert(all[at] == path[0]);
            } else {
                assert(all[all.len() - 1] == path[0]);
            }
        }
        assert forall|i: int| 0 <= i < all.len() implies starts_some(paths, #[trigger] all[i]) by {
            if i < before.len() {
                assert(starts_some(init, before[i]));
                let m = choose|m: int| 0 <= m < init.len()
                    && starts_with(#[trigger] init[m], before[i]);
                assert(starts_with(paths[m], all[i]));
            } else {
                assert(starts_with(paths[paths.len() - 1], all[i]));
            }
        }
        assert forall|i: int, j: int| 0 <= i < j < all.len() implies all[i] != all[j] by {
            if j >= before.len() {
                assert(before.contains(before[i]));
            }
        }
        assert forall|i: int, j: int| 0 <= i < j < all.len() implies appears_before(
            paths,
            #[trigger] all[i],
            #[trigger] all[j],
        ) by {
            if j < before.len() {
                assert(appears_before(init, before[i], before[j]));
                let m = choose|m: int|
                    0 <= m < init.len() && starts_with(#[trigger] init[m], before[i])
                        && forall|n: int|
                        0 <= n <= m ==> !starts_with(#[trigger] init[n], before[j]);
                assert(starts_with(paths[m], all[i]));
                assert forall|n: int| 0 <= n <= m implies
                    !starts_with(#[trigger] paths[n], all[j]) by {
                    assert(init[n] == paths[n]);
                }
            } else {
                assert(starts_some(init, before[i]));
                let m = choose|m: int| 0 <= m < init.len()
                    && starts_with(#[trigger] init[m], before[i]);
                assert(starts_with(paths[m], all[i]));
                assert forall|n: int| 0 <= n <= m implies
                    !starts_with(#[trigger] paths[n], all[j]) by {
                    assert(init[n] == paths[n]);
                    if starts_with(init[n], all[j]) {
                        assert(before.contains(init[n][0]));
                    }
                }
            }
        }
    }
}

/// No path starts with a segment that is not among the heads.
pub proof fn lemma_tails_of_other(paths: Seq<Seq<Seq<char>>>, head: Seq<char>)
    requires
        !heads(paths).contains(head),
    ensures
        tails(paths, head) == Seq::<Seq<Seq<char>>>::empty(),
    decreases paths.len(),
{
    if paths.len() > 0 {
        let before = heads(paths.drop_last());
        if before.contains(head) {
            let at = choose|at: int| 0 <= at < before.len() && before[at] == head;
            assert(heads(paths)[at] == head);
        }
        lemma_tails_of_other(paths.drop_last(), head);
        if starts_with(paths.last(), head) {
            assert(heads(paths)[heads(paths).len() - 1] == head);
        }
    }
}

/// How many segments the longest of the paths has.
pub open spec fn longest(paths: Seq<Seq<Seq<char>>>) -> nat
    decreases paths.len(),
{
    if paths.len() == 0 {
        0
    } else {
        let before = longest(paths.drop_last());
        if paths.last().len() > before {
            paths.last().len()
        } else {
            before
        }
    }
}

/// No path has more segments than the longest.
pub proof fn lemma_longest(paths: Seq<Seq<Seq<char>>>)
    ensures
        forall|i: int| 0 <= i < paths.len() ==> (#[trigger] paths[i]).len() <= longest(paths),
    decreases paths.len(),
{
    if paths.len() > 0 {
        lemma_longest(paths.drop_last());
        assert forall|i: int| 0 <= i < paths.len() implies (#[trigger] paths[i]).len() <= longest(
            paths,
        ) by {
            if i < paths.len() - 1 {
                assert(paths[i] == paths.drop_last()[i]);
            }
        }
    }
}

/// What is left of the paths behind a head is shorter than the paths, and
/// there is something left behind every head.
pub proof fn lemma_tails(paths: Seq<Seq<Seq<char>>>, head: Seq<char>)
    ensures
        longest(tails(paths, head)) + 1 <= longest(paths) || longest(tails(paths, head)) == 0,
        starts_some(paths, head) ==> longest(tails(paths, head)) < longest(paths) && tails(
            paths,
            head,
        ).len() > 0,
        forall|i: int|
            0 <= i < tails(paths, head).len() ==> exists|m: int|
                0 <= m < paths.len() && starts_with(#[trigger] paths[m], head) && (
                #[trigger] tails(paths, head)[i]) == paths[m].skip(1),
    decreases paths.len(),
{
    if paths.len() > 0 {
        let init = paths.drop_last();
        let after = tails(paths, head);
        lemma_tails(init, head);
        lemma_longest(paths);
        if starts_with(paths.last(), head) {
            assert(after.drop_last() =~= tails(init, head));
            assert(after.last().len() == paths.last().len() - 1);
        }
        if starts_some(paths, head) {
            let m = choose|m: int| 0 <= m < paths.len() && starts_with(#[trigger] paths[m], head);
            assert(paths[m].len() >= 1);
            if m < init.len() {
                assert(starts_with(init[m], head));
            }
        }
        assert forall|i: int| 0 <= i < after.len() implies exists|m: int|
            0 <= m < paths.len() && starts_with(#[trigger] paths[m], head) && (#[trigger] after[i])
                == paths[m].skip(1) by {
            if i < tails(init, head).len() {
                let m = choose|m: int|
                    0 <= m < init.len() && starts_with(#[trigger] init[m], head) && (
                    #[trigger] tails(init, head)[i]) == init[m].skip(1);
                assert(starts_with(paths[m], head) && after[i] == paths[m].skip(1));
            } else {
                let m = paths.len() - 1;
                assert(starts_with(paths[m], head) && after[i] == paths[m].skip(1));
            }
        }
    }
}

/// The tree that `paths` make below `node`, which has no children yet. The
/// node gets one child for each head of the paths, in the order of the
/// heads; below the child stands the tree that the paths through it make
/// with what follows their head.
pub open spec fn grown(node: Node, paths: Seq<Seq<Seq<char>>>) -> Node
    decreases longest(paths),
{
    Node {
        children: Seq::new(
            heads(paths).len(),
            |k: int|
                if 0 <= k < heads(paths).len() {
                    proof {
                        lemma_heads(paths);
                        lemma_tails(paths, heads(paths)[k]);
                    }
                    grown(fresh(node, heads(paths)[k]), tails(paths, heads(paths)[k]))
                } else {
                    arbitrary()
                },
        ),
        ..node
    }
}

/// Each path cut into its segments.
pub open spec fn segmented(paths: Seq<Seq<char>>) -> Seq<Seq<Seq<char>>> {
    Seq::new(paths.len(), |i: int| split(paths[i], '/'))
}

/// The content tree of the given paths under a root of the given rank.
pub open spec fn tree_of(paths: Seq<Seq<char>>, rank: Depth) -> Node {
    grown(root(rank), segmented(paths))
}

/// The children of the root of a content tree are called after the heads of
/// the paths and stand in the order in which the paths first named them;
/// below each stands the tree of what the paths through it went on with,
/// which is made in the same way, so the same holds at every level.
pub proof fn lemma_tree_siblings_in_order(paths: Seq<Seq<char>>, rank: Depth)
    ensures
        tree_of(paths, rank).children.len() == heads(segmented(paths)).len(),
        forall|k: int|
            0 <= k < heads(segmented(paths)).len() ==> {
                &&& (#[trigger] tree_of(paths, rank).children[k]).name == heads(segmented(paths))[k]
                &&& tree_of(paths, rank).children[k] == grown(
                    fresh(root(rank), heads(segmented(paths))[k]),
                    tails(segmented(paths), heads(segmented(paths))[k]),
                )
            },
        forall|i: int, j: int|
            0 <= i < j < heads(segmented(paths)).len() ==> appears_before(
                segmented(paths),
                #[trigger] heads(segmented(paths))[i],
                #[trigger] heads(segmented(paths))[j],
            ),
{
    lemma_heads(segmented(paths));
}

/// Growing a tree below a node gives the node children and leaves it its
/// rank, its name and its ancestors.
pub proof fn lemma_grown_keeps_node(node: Node, paths: Seq<Seq<Seq<char>>>)
    ensures
        grown(node, paths).rank == node.rank,
        grown(node, paths).name == node.name,
        grown(node, paths).context == node.context,
        grown(node, paths).children.len() == heads(paths).len(),
{
}

/// A tree grown below a node that may stand in a tree is well-formed.
pub proof fn lemma_grown_well_formed(node: Node, paths: Seq<Seq<Seq<char>>>)
    requires
        node.rank == Depth::Beat ==> node.context.len() > 0,
    ensures
        well_formed(grown(node, paths)),
    decreases longest(paths),
{
    let tree = grown(node, paths);
    lemma_heads(paths);
    assert forall|i: int| 0 <= i < tree.children.len() implies {
        &&& (#[trigger] tree.children[i]).rank == tree.rank.finer()
        &&& tree.children[i].context == tree.context.push(tree.name)
        &&& well_formed(tree.children[i])
    } by {
        lemma_tails(paths, heads(paths)[i]);
        lemma_grown_keeps_node(fresh(node, heads(paths)[i]), tails(paths, heads(paths)[i]));
        lemma_grown_well_formed(fresh(node, heads(paths)[i]), tails(paths, heads(paths)[i]));
    }
    assert forall|i: int, j: int| 0 <= i < j < tree.children.len() implies tree.children[i].name
        != tree.children[j].name by {
        lemma_grown_keeps_node(fresh(node, heads(paths)[i]), tails(paths, heads(paths)[i]));
        lemma_grown_keeps_node(fresh(node, heads(paths)[j]), tails(paths, heads(paths)[j]));
    }
}

/// The content tree of any paths is well-formed, as long as its root is not
/// of the finest rank.
pub proof fn lemma_tree_well_formed(paths: Seq<Seq<char>>, rank: Depth)
    requires
        rank != Depth::Beat,
    ensures
        well_formed(tree_of(paths, rank)),
{
    lemma_grown_well_formed(root(rank), segmented(paths));
}

/// Whether the tree below `node` ends in beats and nowhere else: every node
/// below `node` that has no children is a beat, and no beat has children.
pub open spec fn ends_in_beats(node: Node) -> bool
    decreases node,
{
    &&& node.rank == Depth::Beat ==> node.children.len() == 0
    &&& forall|i: int|
        0 <= i < node.children.len() ==> {
            &&& (#[trigger] node.children[i]).children.len() == 0 ==> node.children[i].rank
                == Depth::Beat
            &&& ends_in_beats(node.children[i])
        }
}

/// Paths that all have as many segments as there are ranks below `node`
/// grow a tree that ends in beats.
pub proof fn lemma_grown_ends_in_beats(node: Node, paths: Seq<Seq<Seq<char>>>)
    requires
        forall|i: int|
            0 <= i < paths.len() ==> (#[trigger] paths[i]).len() == node.rank.levels_below(),
    ensures
        ends_in_beats(grown(node, paths)),
    decreases longest(paths),
{
    let tree = grown(node, paths);
    lemma_heads(paths);
    if node.rank == Depth::Beat && heads(paths).len() > 0 {
        assert(starts_some(paths, heads(paths)[0]));
    }
    assert forall|i: int| 0 <= i < tree.children.len() implies {
        &&& (#[trigger] tree.children[i]).children.len() == 0 ==> tree.children[i].rank
            == Depth::Beat
        &&& ends_in_beats(tree.children[i])
    } by {
        let head = heads(paths)[i];
        let rest = tails(paths, head);
        let child = fresh(node, head);
        lemma_tails(paths, head);
        assert(starts_some(paths, head));
        assert forall|k: int| 0 <= k < rest.len() implies (#[trigger] rest[k]).len()
            == child.rank.levels_below() by {
            let m = choose|m: int|
                0 <= m < paths.len() && starts_with(#[trigger] paths[m], head) && rest[k]
                    == paths[m].skip(1);
            assert(paths[m].len() == node.rank.levels_below());
        }
        lemma_grown_ends_in_beats(child, rest);
        if tree.children[i].children.len() == 0 {
            lemma_heads(rest);
            assert(rest[0].len() == child.rank.levels_below());
            if rest[0].len() > 0 {
                assert(heads(rest).contains(rest[0][0]));
            }
        }
    }
}

/// Paths that all have as many segments as there are ranks below the root
/// make a content tree that ends in beats.
pub proof fn lemma_tree_ends_in_beats(paths: Seq<Seq<char>>, rank: Depth)
    requires
        forall|i: int|
            0 <= i < paths.len() ==> split(#[trigger] paths[i], '/').len() == rank.levels_below(),
    ensures
        ends_in_beats(tree_of(paths, rank)),
{
    lemma_grown_ends_in_beats(root(rank), segmented(paths));
}

/// In a tree that ends in beats every child is exactly one rank finer than
/// its parent, and no two children of one parent share a name. Both hold
/// again of each child, and so of every node.
pub proof fn lemma_children_one_rank_finer(node: Node)
    requires
        well_formed(node),
        ends_in_beats(node),
    ensures
        forall|i: int|
            0 <= i < node.children.len() ==> {
                &&& (#[trigger] node.children[i]).rank.levels_below() + 1
                    == node.rank.levels_below()
                &&& well_formed(node.children[i])
                &&& ends_in_beats(node.children[i])
            },
        forall|i: int, j: int|
            0 <= i < j < node.children.len() ==> node.children[i].name != node.children[j].name,
{
}

} // verus!
