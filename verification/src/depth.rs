//! The ranks of the manuscript hierarchy.

use vstd::prelude::*;

verus! {

/// A rank in the manuscript hierarchy, from the coarsest to the finest.
#[derive(Clone, Copy, Debug, PartialEq, Eq, Structural)]
pub enum Depth {
    Root,
    Part,
    Chapter,
    Scene,
    Beat,
}

/// The rank of the root of the tree when the directories at the top of the
/// content are of the rank that `token` names: the rank one step coarser.
/// Any token other than `part`, `chapter`, `scene` and `beat` gives `Beat`.
pub open spec fn depth_of_token(token: Seq<char>) -> Depth {
    if token == "part"@ {
        Depth::Root
    } else if token == "chapter"@ {
        Depth::Part
    } else if token == "scene"@ {
        Depth::Chapter
    } else if token == "beat"@ {
        Depth::Scene
    } else {
        Depth::Beat
    }
}

impl Depth {
    /// The rank one step finer; `Beat` is the finest and stays `Beat`.
    pub open spec fn finer(self) -> Depth {
        match self {
            Depth::Root => Depth::Part,
            Depth::Part => Depth::Chapter,
            Depth::Chapter => Depth::Scene,
            Depth::Scene => Depth::Beat,
            Depth::Beat => Depth::Beat,
        }
    }

    /// How many ranks lie below this one: four below `Root`, none below
    /// `Beat`.
    pub open spec fn levels_below(self) -> nat {
        match self {
            Depth::Root => 4,
            Depth::Part => 3,
            Depth::Chapter => 2,
            Depth::Scene => 1,
            Depth::Beat => 0,
        }
    }

    /// The rank one step finer.
    pub fn next_level(self) -> (next: Depth)
        ensures
            next == self.finer(),
    {
        match self {
            Depth::Root => Depth::Part,
            Depth::Part => Depth::Chapter,
            Depth::Chapter => Depth::Scene,
            Depth::Scene => Depth::Beat,
            Depth::Beat => Depth::Beat,
        }
    }

    /// The rank of the root of the tree for the depth that `depth` names.
    pub fn from_string(depth: &str) -> (rank: Depth)
        ensures
            rank == depth_of_token(depth@),
    {
        let token = depth.to_string();
        if token == "part".to_string() {
            Depth::Root
        } else if token == "chapter".to_string() {
            Depth::Part
        } else if token == "scene".to_string() {
            Depth::Chapter
        } else if token == "beat".to_string() {
            Depth::Scene
        } else {
            Depth::Beat
        }
    }

    /// How many ranks lie below this one, which is how many segments the
    /// paths in a tree with a root of this rank have.
    pub fn to_usize(&self) -> (levels: usize)
        ensures
            levels == self.levels_below(),
    {
        match self {
            Depth::Root => 4,
            Depth::Part => 3,
            Depth::Chapter => 2,
            Depth::Scene => 1,
            Depth::Beat => 0,
        }
    }
}

/// Each step towards `Beat` leaves one level fewer below, until none is left.
pub proof fn lemma_finer_is_one_step(rank: Depth)
    ensures
        rank != Depth::Beat ==> rank.finer().levels_below() + 1 == rank.levels_below(),
        rank == Depth::Beat ==> rank.finer() == Depth::Beat,
{
}

} // verus!
