//! Passes over layered worlds.
use vstd::prelude::*;
use crate::flood::direction_at;
use crate::layers::{Grid, LayeredWorld, WorldLayer};
use crate::patch::WorldPatch;

verus! {

/// One step in making a world: it reads layers and writes others.
pub trait WorldPass {
    /// What a pass calls itself. A pass that does not say here what it is
    /// called, reads, writes and owes owes nothing in particular.
    open spec fn title(&self) -> Seq<char> {
        arbitrary()
    }

    open spec fn inputs(&self) -> Seq<WorldLayer> {
        arbitrary()
    }

    open spec fn outputs(&self) -> Seq<WorldLayer> {
        arbitrary()
    }

    /// Whether a result is the one that the pass owes for a world and a seed.
    open spec fn owes(
        &self,
        world: LayeredWorld,
        pass_seed: u64,
        outcome: Result<WorldPatch, String>,
    ) -> bool {
        true
    }

    fn name(&self) -> (name: &'static str)
        ensures
            name@ == self.title(),
    ;

    fn reads(&self) -> (layers: Vec<WorldLayer>)
        ensures
            layers@ == self.inputs(),
    ;

    fn writes(&self) -> (layers: Vec<WorldLayer>)
        ensures
            layers@ == self.outputs(),
    ;

    /// Computes typed writes without mutating the input world.
    ///
    /// An error says why the pass cannot satisfy its layer contract.
    fn run(&self, world: &LayeredWorld, pass_seed: u64) -> (outcome: Result<WorldPatch, String>)
        requires
            world.is_laid_out(),
        ensures
            self.owes(*world, pass_seed, outcome),
    ;
}

/// Whether the neighbour in a direction is marked.
pub open spec fn marked_beside(g: Grid, mask: Seq<bool>, id: int, d: int) -> bool {
    g.beside(id, d) matches Some(n) && mask[n]
}

/// Whether some neighbour is marked.
pub open spec fn some_beside(g: Grid, mask: Seq<bool>, id: int) -> bool {
    exists|d: int| 0 <= d < 6 && #[trigger] marked_beside(g, mask, id, d)
}

impl LayeredWorld {
    /// Whether some neighbour of a cell is marked.
    pub fn is_any_beside(&self, mask: &[bool], id: u32) -> (found: bool)
        requires
            self.is_laid_out(),
            mask@.len() == self.layers().len(),
            id < self.layers().len(),
        ensures
            found == some_beside(self.grid(), mask@, id as int),
    {
        let mut d: usize = 0;
        while d < 6
            invariant
                self.is_laid_out(),
                mask@.len() == self.layers().len(),
                id < self.layers().len(),
                d <= 6,
                forall|e: int| 0 <= e < d ==> !marked_beside(self.grid(), mask@, id as int, e),
            decreases 6 - d,
        {
            match self.neighbor_id(id, direction_at(d)) {
                Some(next) => {
                    if mask[next as usize] {
                        assert(marked_beside(self.grid(), mask@, id as int, d as int));
                        return true;
                    }
                },
                None => {},
            }
            d += 1;
        }
        false
    }
}

} // verus!
