//! Gameplay: what each cell means to the players.
use vstd::prelude::*;
use crate::coast::{is_last_longest, land_mask, last_longest, mark_land};
use crate::continent::every_cell;
use crate::layers::{Biome, CellLayers, GameplayCell, Landform, LayeredWorld, Surface, WorldLayer};
use crate::parts::{cells_of, is_part_list, law_parts_are_what_is_linked};
use crate::patch::{how_many, note, report, writes_where, WorldPatch};
use crate::text::{decimal, text};
use crate::world_pass::WorldPass;

verus! {

pub struct GameplayPass;

pub open spec fn cost_of(cell: CellLayers) -> int {
    let base = match cell.landform {
        Landform::Plain => 10int,
        Landform::Valley => 10,
        Landform::Hill => 14,
        Landform::Plateau => 14,
        Landform::Mountain => 22,
    };
    if cell.river is Some {
        base + 2
    } else {
        base
    }
}

pub open spec fn room_of(landform: Landform) -> int {
    match landform {
        Landform::Plain => 100,
        Landform::Valley => 100,
        Landform::Hill => 82,
        Landform::Plateau => 82,
        Landform::Mountain => 58,
    }
}

/// What a cell means to the players; land off the main part is scenery.
pub open spec fn gameplay_of(cell: CellLayers, on_main: bool) -> GameplayCell {
    let land = cell.surface == Surface::Land && on_main;
    let habitable = land && cell.biome != Biome::Alpine && cell.biome != Biome::Tundra;
    GameplayCell {
        passable: land,
        capturable: land,
        habitable,
        movement_cost: cost_of(cell) as u16,
        military_capacity: if land {
            room_of(cell.landform) as u16
        } else {
            0
        },
        civilian_capacity: if habitable {
            (cell.fertility * 2) as u16
        } else {
            0
        },
    }
}

pub open spec fn gameplay_writes(world: LayeredWorld, main: Seq<u32>) -> spec_fn(
    int,
) -> GameplayCell {
    |id: int| gameplay_of(world.layers()[id], main.contains(id as u32))
}

/// Whether a cell is land off the main part.
pub open spec fn is_scenery(world: LayeredWorld, main: Seq<u32>) -> spec_fn(int) -> bool {
    |id: int| world.layers()[id].surface == Surface::Land && !main.contains(id as u32)
}

pub open spec fn gameplay_outputs() -> Seq<WorldLayer> {
    seq![WorldLayer::Gameplay]
}

/// Whether this patch lays down what cells mean to the players, with some part
/// of the land as the main one.
pub open spec fn is_playable(world: LayeredWorld, main: Seq<u32>, p: WorldPatch) -> bool {
    let n = world.grid().count();
    &&& p.gameplay@ == writes_where(n, every_cell(), gameplay_writes(world, main))
    &&& p.report.tells(
        n,
        seq![
            "derived gameplay properties and excluded "@ + decimal(
                how_many(n, is_scenery(world, main)) as int,
            ) + " disconnected decorative land cells"@,
        ],
    )
    &&& p.stays_within(gameplay_outputs())
}

/// Whether a part is the last of the largest parts of the land.
pub open spec fn is_mainland(world: LayeredWorld, parts: Seq<Seq<u32>>, k: int) -> bool {
    is_part_list(world.grid(), land_mask(world), parts) && is_last_longest(parts, k)
}

pub open spec fn has_no_land(world: LayeredWorld) -> bool {
    forall|id: int|
        0 <= id < world.layers().len() ==> (#[trigger] world.layers()[id]).surface != Surface::Land
}

fn derive_gameplay(cell: &CellLayers, on_main: bool) -> (gameplay: GameplayCell)
    ensures
        gameplay == gameplay_of(*cell, on_main),
{
    let land: bool = cell.surface == Surface::Land && on_main;
    let habitable: bool = land && cell.biome != Biome::Alpine && cell.biome != Biome::Tundra;
    let (base, room): (u16, u16) = match cell.landform {
        Landform::Plain => (10, 100),
        Landform::Valley => (10, 100),
        Landform::Hill => (14, 82),
        Landform::Plateau => (14, 82),
        Landform::Mountain => (22, 58),
    };
    let movement_cost: u16 = if cell.river.is_some() {
        base + 2
    } else {
        base
    };
    GameplayCell {
        passable: land,
        capturable: land,
        habitable,
        movement_cost,
        military_capacity: if land {
            room
        } else {
            0
        },
        civilian_capacity: if habitable {
            cell.fertility as u16 * 2
        } else {
            0
        },
    }
}

impl WorldPass for GameplayPass {
    open spec fn title(&self) -> Seq<char> {
        "gameplay"@
    }

    open spec fn inputs(&self) -> Seq<WorldLayer> {
        seq![
            WorldLayer::Surface,
            WorldLayer::Landform,
            WorldLayer::Biome,
            WorldLayer::Hydrology,
            WorldLayer::Fertility,
        ]
    }

    open spec fn outputs(&self) -> Seq<WorldLayer> {
        gameplay_outputs()
    }

    open spec fn owes(
        &self,
        world: LayeredWorld,
        pass_seed: u64,
        outcome: Result<WorldPatch, String>,
    ) -> bool {
        match outcome {
            Ok(patch) => exists|parts: Seq<Seq<u32>>, k: int| #[trigger]
                is_mainland(world, parts, k) && is_playable(world, parts[k], patch),
            Err(message) => has_no_land(world) && message@ == "gameplay pass has no land component"@,
        }
    }

    fn name(&self) -> (name: &'static str) {
        "gameplay"
    }

    fn reads(&self) -> (layers: Vec<WorldLayer>) {
        vec![
            WorldLayer::Surface,
            WorldLayer::Landform,
            WorldLayer::Biome,
            WorldLayer::Hydrology,
            WorldLayer::Fertility,
        ]
    }

    fn writes(&self) -> (layers: Vec<WorldLayer>) {
        vec![WorldLayer::Gameplay]
    }

    fn run(&self, world: &LayeredWorld, pass_seed: u64) -> (outcome: Result<WorldPatch, String>) {
        let ghost g = world.grid();
        let count: usize = world.cells.len();
        let land = mark_land(world);
        let found = world.parts(land.as_slice());
        let ghost parts = cells_of(found.parts@);
        if found.parts.len() == 0 {
            assert forall|id: int| 0 <= id < world.layers().len() implies (
            #[trigger] world.layers()[id]).surface != Surface::Land by {
                assert(!land@[id]);
            }
            return Err(text("gameplay pass has no land component"));
        }
        let k: usize = last_longest(&found.parts);
        let ghost main = parts[k as int];
        let mut gameplay: Vec<(u32, GameplayCell)> = Vec::new();
        let mut excluded: usize = 0;
        let mut id: u32 = 0;
        while (id as usize) < count
            invariant
                world.is_laid_out(),
                g == world.grid(),
                count == g.count(),
                id <= count,
                land@ == land_mask(*world),
                found.are_of(g, land@),
                parts == cells_of(found.parts@),
                k < parts.len(),
                main == parts[k as int],
                gameplay@ == writes_where(id as int, every_cell(), gameplay_writes(*world, main)),
                excluded == how_many(id as int, is_scenery(*world, main)) <= id,
            decreases count - id,
        {
            let i: usize = id as usize;
            let on_main: bool = match found.labels[i] {
                Some(label) => label as usize == k,
                None => false,
            };
            proof {
                match found.labels@[i as int] {
                    Some(label) => {
                        assert(parts[label as int].contains(id as int as u32));
                        if main.contains(id as int as u32) {
                            law_parts_are_what_is_linked(
                                g,
                                land@,
                                parts,
                                k as int,
                                label as int,
                                id as int,
                                id as int,
                            );
                        }
                    },
                    None => {
                        if main.contains(id as int as u32) {
                            assert(crate::parts::is_part(g, land@, main));
                            crate::parts::lemma_in_part(g, land@, main, id as int);
                        }
                    },
                }
                assert(on_main == main.contains(id as int as u32));
            }
            if world.cells[i].surface == Surface::Land && !on_main {
                excluded += 1;
            }
            gameplay.push((id, derive_gameplay(&world.cells[i], on_main)));
            id += 1;
        }
        let patch = WorldPatch {
            report: report(
                count,
                note(
                    "derived gameplay properties and excluded ",
                    excluded,
                    " disconnected decorative land cells",
                ),
            ),
            gameplay,
            ..WorldPatch::default()
        };
        proof {
            assert(gameplay_outputs()[0] == WorldLayer::Gameplay);
            assert(is_mainland(*world, parts, k as int));
            assert(is_playable(*world, parts[k as int], patch));
        }
        Ok(patch)
    }
}

} // verus!
