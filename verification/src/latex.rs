//! Writes the content tree as structural markup: headings for parts and
//! chapters, a break between the scenes of a chapter, and an input line for
//! each beat.

use crate::depth::Depth;
use crate::index::{lemma_node_of, ContentIndex};
use crate::node::{root_name, Node};
use crate::text::{join, push_joined};
use vstd::prelude::*;

verus! {

/// The line that separates two scenes of a chapter.
pub open spec fn scene_break() -> Seq<char> {
    "***\n"@
}

/// The heading of a part or chapter: nothing for a node with the root's name.
pub open spec fn heading(command: Seq<char>, name: Seq<char>) -> Seq<char> {
    if name == root_name() {
        Seq::empty()
    } else {
        command + name + "}\n"@
    }
}

/// The path of a beat's file below the content directory: the names of its
/// ancestors but the root, then its own, with slashes between them.
pub open spec fn beat_path(node: Node) -> Seq<char> {
    join(node.context.skip(1).push(node.name), '/')
}

/// The markup of the first `count` children of `node`, one after another.
pub open spec fn latex_of_children(node: Node, count: nat) -> Seq<char>
    decreases node, count,
{
    if count == 0 || count > node.children.len() {
        Seq::empty()
    } else {
        latex_of_children(node, (count - 1) as nat) + latex(node.children[count - 1])
    }
}

/// The markup of the first `count` children of `node` with a scene break
/// between each two neighbours.
pub open spec fn latex_of_scenes(node: Node, count: nat) -> Seq<char>
    decreases node, count,
{
    if count == 0 || count > node.children.len() {
        Seq::empty()
    } else if count == 1 {
        latex(node.children[0])
    } else {
        latex_of_scenes(node, (count - 1) as nat) + scene_break() + latex(node.children[count - 1])
    }
}

/// The markup of the tree below `node`. A root and a scene give what their
/// children give. A part and a chapter write their heading first, and a
/// chapter separates its scenes. A beat gives the line that reads its file,
/// whatever stands below it.
pub open spec fn latex(node: Node) -> Seq<char>
    decreases node, node.children.len() + 1,
{
    match node.rank {
        Depth::Root => latex_of_children(node, node.children.len()),
        Depth::Part => heading("\\part{"@, node.name) + latex_of_children(
            node,
            node.children.len(),
        ),
        Depth::Chapter => heading("\\chapter{"@, node.name) + latex_of_scenes(
            node,
            node.children.len(),
        ),
        Depth::Scene => latex_of_children(node, node.children.len()),
        Depth::Beat => "\\input{content/"@ + beat_path(node) + "}\n"@,
    }
}

/// What a chapter writes for its first `count` scenes, piece by piece: the
/// scenes in order, and a scene break after each but the last.
pub open spec fn scene_pieces(node: Node, count: nat) -> Seq<Seq<char>>
    decreases count,
{
    if count == 0 || count > node.children.len() {
        Seq::empty()
    } else if count == 1 {
        seq![latex(node.children[0])]
    } else {
        scene_pieces(node, (count - 1) as nat).push(scene_break()).push(
            latex(node.children[count - 1]),
        )
    }
}

/// The pieces written one after another.
pub open spec fn concat(pieces: Seq<Seq<char>>) -> Seq<char>
    decreases pieces.len(),
{
    if pieces.len() == 0 {
        Seq::empty()
    } else {
        concat(pieces.drop_last()) + pieces.last()
    }
}

/// The first `count` scenes of a chapter are written as `2 * count - 1`
/// pieces: the scenes stand at the even places, in their order, and a scene
/// break at every odd place. So there is one break fewer than scenes, each
/// between two scenes, none before the first scene and none after the last.
pub proof fn lemma_scene_pieces(node: Node, count: nat)
    requires
        1 <= count <= node.children.len(),
    ensures
        latex_of_scenes(node, count) == concat(scene_pieces(node, count)),
        scene_pieces(node, count).len() == 2 * count - 1,
        forall|k: int|
            0 <= k < 2 * count - 1 ==> #[trigger] scene_pieces(node, count)[k] == if k % 2 == 0 {
                latex(node.children[k / 2])
            } else {
                scene_break()
            },
    decreases count,
{
    let pieces = scene_pieces(node, count);
    if count == 1 {
        assert(pieces.drop_last() =~= Seq::empty());
        assert(concat(pieces.drop_last()) =~= Seq::empty());
        assert(concat(pieces) =~= latex(node.children[0]));
    } else {
        let before = scene_pieces(node, (count - 1) as nat);
        lemma_scene_pieces(node, (count - 1) as nat);
        assert(pieces.drop_last() =~= before.push(scene_break()));
        assert(pieces.drop_last().drop_last() =~= before);
        assert(concat(pieces.drop_last()) == concat(before) + scene_break());
        assert forall|k: int| 0 <= k < 2 * count - 1 implies #[trigger] pieces[k] == if k % 2 == 0 {
            latex(node.children[k / 2])
        } else {
            scene_break()
        } by {
            if k < 2 * count - 3 {
                assert(pieces[k] == before[k]);
            }
        }
    }
}

/// A chapter with at least one scene writes its heading and then its scenes
/// with one break between each two neighbours, and nothing else.
pub proof fn lemma_scene_breaks_between_scenes(node: Node)
    requires
        node.rank == Depth::Chapter,
        node.children.len() >= 1,
    ensures
        latex(node) == heading("\\chapter{"@, node.name) + concat(
            scene_pieces(node, node.children.len()),
        ),
        scene_pieces(node, node.children.len()).len() == 2 * node.children.len() - 1,
        forall|i: int|
            0 <= i < node.children.len() ==> scene_pieces(node, node.children.len())[2 * i]
                == latex(#[trigger] node.children[i]),
        forall|k: int|
            0 <= k < 2 * node.children.len() - 1 && k % 2 == 1 ==> #[trigger] scene_pieces(
                node,
                node.children.len(),
            )[k] == scene_break(),
{
    let count = node.children.len();
    lemma_scene_pieces(node, count);
    let pieces = scene_pieces(node, count);
    assert forall|i: int| 0 <= i < count implies pieces[2 * i] == latex(
        #[trigger] node.children[i],
    ) by {
        assert(pieces[2 * i] == if (2 * i) % 2 == 0 {
            latex(node.children[(2 * i) / 2])
        } else {
            scene_break()
        });
    }
}

/// Whether `name` is the name that the root of every tree has.
fn is_root_name(name: &String) -> (same: bool)
    ensures
        same == (name@ == root_name()),
{
    *name == "#ROOT#".to_string()
}

impl ContentIndex {
    /// The markup of the whole tree below this node.
    pub fn write_latex(&self) -> (latex_string: String)
        ensures
            latex_string@ == latex(self@),
    {
        let mut latex_string = String::new();
        self.print(&mut latex_string);
        latex_string
    }

    fn print(&self, page: &mut String)
        ensures
            final(page)@ == old(page)@ + latex(self@),
        decreases self, 2nat,
    {
        proof {
            lemma_node_of(self);
        }
        match self.depth {
            Depth::Root => self.print_root(page),
            Depth::Part => self.print_part(page),
            Depth::Chapter => self.print_chapter(page),
            Depth::Scene => self.print_scene(page),
            Depth::Beat => self.print_beat(page),
        }
    }

    /// Writes what the children give, one after another.
    fn print_children(&self, page: &mut String)
        ensures
            final(page)@ == old(page)@ + latex_of_children(self@, self@.children.len()),
        decreases self, 0nat,
    {
        proof {
            lemma_node_of(self);
        }
        let mut i: usize = 0;
        while i < self.children.len()
            invariant
                i <= self.children.len(),
                self@.children.len() == self.children@.len(),
                forall|k: int|
                    0 <= k < self.children@.len() ==> self@.children[k] == (
                    #[trigger] self.children@[k])@,
                page@ == old(page)@ + latex_of_children(self@, i as nat),
            decreases self.children.len() - i,
        {
            let ghost before = page@;
            self.children[i].print(page);
            proof {
                assert(page@ =~= old(page)@ + (latex_of_children(self@, i as nat) + latex(
                    self@.children[i as int],
                )));
            }
            i += 1;
        }
    }

    fn print_root(&self, page: &mut String)
        ensures
            final(page)@ == old(page)@ + latex_of_children(self@, self@.children.len()),
        decreases self, 1nat,
    {
        self.print_children(page);
    }

    fn print_part(&self, page: &mut String)
        ensures
            final(page)@ == old(page)@ + (heading("\\part{"@, self@.name) + latex_of_children(
                self@,
                self@.children.len(),
            )),
        decreases self, 1nat,
    {
        proof {
            lemma_node_of(self);
        }
        if !is_root_name(&self.name) {
            page.append("\\part{");
            page.append(self.name.as_str());
            page.append("}\n");
        }
        let ghost headed = page@;
        assert(headed =~= old(page)@ + heading("\\part{"@, self@.name));
        self.print_children(page);
        assert(page@ =~= old(page)@ + (heading("\\part{"@, self@.name) + latex_of_children(
            self@,
            self@.children.len(),
        )));
    }

    fn print_chapter(&self, page: &mut String)
        ensures
            final(page)@ == old(page)@ + (heading("\\chapter{"@, self@.name) + latex_of_scenes(
                self@,
                self@.children.len(),
            )),
        decreases self, 1nat,
    {
        proof {
            lemma_node_of(self);
        }
        if !is_root_name(&self.name) {
            page.append("\\chapter{");
            page.append(self.name.as_str());
            page.append("}\n");
        }
        let ghost headed = page@;
        assert(headed =~= old(page)@ + heading("\\chapter{"@, self@.name));
        let mut i: usize = 0;
        while i < self.children.len()
            invariant
                i <= self.children.len(),
                self@.children.len() == self.children@.len(),
                forall|k: int|
                    0 <= k < self.children@.len() ==> self@.children[k] == (
                    #[trigger] self.children@[k])@,
                page@ == headed + latex_of_scenes(self@, i as nat),
            decreases self.children.len() - i,
        {
            if i > 0 {
                page.append("***\n");
            }
            self.children[i].print(page);
            proof {
                let scene = latex(self@.children[i as int]);
                if i > 0 {
                    assert(page@ =~= headed + (latex_of_scenes(self@, i as nat) + scene_break()
                        + scene));
                } else {
                    assert(page@ =~= headed + scene);
                }
            }
            i += 1;
        }
        assert(page@ =~= old(page)@ + (heading("\\chapter{"@, self@.name) + latex_of_scenes(
            self@,
            self@.children.len(),
        )));
    }

    fn print_scene(&self, page: &mut String)
        ensures
            final(page)@ == old(page)@ + latex_of_children(self@, self@.children.len()),
        decreases self, 1nat,
    {
        self.print_children(page);
    }

    fn print_beat(&self, page: &mut String)
        requires
            self@.rank == Depth::Beat,
        ensures
            final(page)@ == old(page)@ + ("\\input{content/"@ + beat_path(self@) + "}\n"@),
    {
        proof {
            lemma_node_of(self);
            use_type_invariant(self);
        }
        let ghost above = self@.context.skip(1);
        page.append("\\input{content/");
        push_joined(page, &self.context, 1, self.context.len(), '/');
        if self.context.len() > 1 {
            page.push('/');
        }
        page.append(self.name.as_str());
        page.append("}\n");
        proof {
            assert(self.context.deep_view().subrange(1, self.context.len() as int) =~= above);
            assert(above.push(self@.name).drop_last() =~= above);
            assert(page@ =~= old(page)@ + ("\\input{content/"@ + beat_path(self@) + "}\n"@));
        }
    }
}

} // verus!
