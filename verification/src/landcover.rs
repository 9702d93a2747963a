//! Land cover: landforms from relief, biomes from climate.
use vstd::prelude::*;
use crate::coord::abs;
use crate::flood::direction_at;
use crate::layers::{
    lemma_line_bounds, Biome, CellLayers, Landform, LayeredWorld, Surface, WorldLayer,
};
use crate::noise::{mix, mixed};
use crate::patch::{report, writes_where, WorldPatch};
use crate::text::text;
use crate::world_pass::WorldPass;

verus! {

pub struct LandformPass;

pub struct BiomePass;

/// Whether a cell is land.
pub open spec fn is_ground(world: LayeredWorld) -> spec_fn(int) -> bool {
    |id: int| world.layers()[id].surface == Surface::Land
}

/// How steeply a cell rises or falls to the neighbour in a direction.
pub open spec fn steepness(world: LayeredWorld, id: int, d: int) -> int {
    match world.grid().beside(id, d) {
        Some(n) => abs(world.layers()[id].elevation - world.layers()[n].elevation),
        None => 0,
    }
}

/// The steepest rise or fall to one of the first neighbours.
pub open spec fn steepest(world: LayeredWorld, id: int, directions: int) -> int
    decreases directions,
{
    if directions <= 0 {
        0
    } else if steepness(world, id, directions - 1) > steepest(world, id, directions - 1) {
        steepness(world, id, directions - 1)
    } else {
        steepest(world, id, directions - 1)
    }
}

pub open spec fn landform_for(cell: CellLayers, relief: int) -> Landform {
    if cell.river is Some && relief > 28 {
        Landform::Valley
    } else if cell.elevation >= 430 || relief >= 170 {
        Landform::Mountain
    } else if cell.elevation >= 300 && relief < 48 {
        Landform::Plateau
    } else if cell.elevation >= 155 || relief >= 58 {
        Landform::Hill
    } else {
        Landform::Plain
    }
}

pub open spec fn landforms_of(world: LayeredWorld) -> spec_fn(int) -> Landform {
    |id: int| landform_for(world.layers()[id], steepest(world, id, 6))
}

pub open spec fn landform_outputs() -> Seq<WorldLayer> {
    seq![WorldLayer::Landform]
}

/// Whether this patch classifies the landforms.
pub open spec fn is_formed(world: LayeredWorld, p: WorldPatch) -> bool {
    &&& p.landforms@ == writes_where(world.grid().count(), is_ground(world), landforms_of(world))
    &&& p.report.tells(
        p.landforms@.len() as int,
        seq!["derived landforms from final relief and hydrology"@],
    )
    &&& p.stays_within(landform_outputs())
}

fn relief_of(world: &LayeredWorld, id: u32) -> (relief: i32)
    requires
        world.is_laid_out(),
        id < world.layers().len(),
    ensures
        relief == steepest(*world, id as int, 6),
{
    let mut relief: i32 = 0;
    let mut d: usize = 0;
    while d < 6
        invariant
            world.is_laid_out(),
            id < world.layers().len(),
            d <= 6,
            relief == steepest(*world, id as int, d as int),
        decreases 6 - d,
    {
        match world.neighbor_id(id, direction_at(d)) {
            Some(next) => {
                let mut here: i32 = world.cells[id as usize].elevation as i32
                    - world.cells[next as usize].elevation as i32;
                if here < 0 {
                    here = -here;
                }
                assert(here == steepness(*world, id as int, d as int));
                if here > relief {
                    relief = here;
                }
            },
            None => {
                assert(steepness(*world, id as int, d as int) == 0);
                proof {
                    lemma_steepest(*world, id as int, d as int);
                }
            },
        }
        d += 1;
    }
    relief
}

proof fn lemma_steepest(world: LayeredWorld, id: int, directions: int)
    ensures
        steepest(world, id, directions) >= 0,
    decreases directions,
{
    if directions > 0 {
        lemma_steepest(world, id, directions - 1);
    }
}

fn classify_landform(cell: &CellLayers, relief: i32) -> (landform: Landform)
    ensures
        landform == landform_for(*cell, relief as int),
{
    if cell.river.is_some() && relief > 28 {
        Landform::Valley
    } else if cell.elevation >= 430 || relief >= 170 {
        Landform::Mountain
    } else if cell.elevation >= 300 && relief < 48 {
        Landform::Plateau
    } else if cell.elevation >= 155 || relief >= 58 {
        Landform::Hill
    } else {
        Landform::Plain
    }
}

impl WorldPass for LandformPass {
    open spec fn title(&self) -> Seq<char> {
        "landforms"@
    }

    open spec fn inputs(&self) -> Seq<WorldLayer> {
        seq![WorldLayer::Elevation, WorldLayer::Surface, WorldLayer::Hydrology]
    }

    open spec fn outputs(&self) -> Seq<WorldLayer> {
        landform_outputs()
    }

    open spec fn owes(
        &self,
        world: LayeredWorld,
        pass_seed: u64,
        outcome: Result<WorldPatch, String>,
    ) -> bool {
        outcome matches Ok(patch) && is_formed(world, patch)
    }

    fn name(&self) -> (name: &'static str) {
        "landforms"
    }

    fn reads(&self) -> (layers: Vec<WorldLayer>) {
        vec![WorldLayer::Elevation, WorldLayer::Surface, WorldLayer::Hydrology]
    }

    fn writes(&self) -> (layers: Vec<WorldLayer>) {
        vec![WorldLayer::Landform]
    }

    fn run(&self, world: &LayeredWorld, pass_seed: u64) -> (outcome: Result<WorldPatch, String>) {
        let mut landforms: Vec<(u32, Landform)> = Vec::new();
        let mut id: u32 = 0;
        while (id as usize) < world.cells.len()
            invariant
                world.is_laid_out(),
                id <= world.cells@.len(),
                landforms@ == writes_where(id as int, is_ground(*world), landforms_of(*world)),
            decreases world.cells.len() - id,
        {
            if world.cells[id as usize].surface == Surface::Land {
                let relief: i32 = relief_of(world, id);
                landforms.push((id, classify_landform(&world.cells[id as usize], relief)));
            }
            id += 1;
        }
        assert(landform_outputs()[0] == WorldLayer::Landform);
        Ok(
            WorldPatch {
                report: report(
                    landforms.len(),
                    text("derived landforms from final relief and hydrology"),
                ),
                landforms,
                ..WorldPatch::default()
            },
        )
    }
}

/// How far a row lies from the equator, in parts of 255.
pub open spec fn latitude(row: int, height: int) -> int {
    abs(row * 2 - height) * 255 / height
}

pub open spec fn biome_for(cell: CellLayers, latitude: int) -> Biome {
    if cell.landform == Landform::Mountain || cell.elevation >= 480 {
        Biome::Alpine
    } else if latitude > 215 {
        Biome::Tundra
    } else if cell.moisture >= 205 {
        Biome::Wetland
    } else if cell.moisture >= 135 {
        Biome::Forest
    } else if cell.moisture < 68 {
        Biome::Dryland
    } else {
        Biome::TemperateGrassland
    }
}

pub open spec fn base_fertility(biome: Biome) -> int {
    match biome {
        Biome::Wetland => 205,
        Biome::Forest => 165,
        Biome::TemperateGrassland => 180,
        Biome::Dryland => 70,
        Biome::Alpine => 45,
        Biome::Tundra => 45,
    }
}

pub open spec fn biome_at(world: LayeredWorld, id: int) -> Biome {
    biome_for(
        world.layers()[id],
        latitude(id / world.grid().width, world.grid().height),
    )
}

/// The fertility of a cell: that of its biome, give or take fifteen.
pub open spec fn fertility_at(world: LayeredWorld, seed: u64, id: int) -> int {
    let varied = base_fertility(biome_at(world, id)) + mixed(seed, id as i32, 9) % 31 - 15;
    if varied < 0 {
        0
    } else if varied > 255 {
        255
    } else {
        varied
    }
}

pub open spec fn biomes_of(world: LayeredWorld) -> spec_fn(int) -> Biome {
    |id: int| biome_at(world, id)
}

pub open spec fn fertility_of(world: LayeredWorld, seed: u64) -> spec_fn(int) -> u8 {
    |id: int| fertility_at(world, seed, id) as u8
}

pub open spec fn biome_outputs() -> Seq<WorldLayer> {
    seq![WorldLayer::Biome, WorldLayer::Fertility]
}

/// Whether this patch classifies the biomes.
pub open spec fn is_settled_by_life(world: LayeredWorld, seed: u64, p: WorldPatch) -> bool {
    let n = world.grid().count();
    &&& p.biomes@ == writes_where(n, is_ground(world), biomes_of(world))
    &&& p.fertility@ == writes_where(n, is_ground(world), fertility_of(world, seed))
    &&& p.report.tells(
        p.biomes@.len() as int,
        seq!["classified biome and fertility without replacing landforms"@],
    )
    &&& p.stays_within(biome_outputs())
}

fn classify_biome(world: &LayeredWorld, id: u32) -> (biome: Biome)
    requires
        world.is_laid_out(),
        id < world.layers().len(),
    ensures
        biome == biome_at(*world, id as int),
{
    let cell = world.cells[id as usize];
    let row: u32 = id / world.manifest.width;
    proof {
        lemma_line_bounds(world.grid(), id as int);
    }
    let mut off: i64 = row as i64 * 2 - world.manifest.height as i64;
    if off < 0 {
        off = -off;
    }
    let latitude: i64 = off * 255 / world.manifest.height as i64;
    if cell.landform == Landform::Mountain || cell.elevation >= 480 {
        Biome::Alpine
    } else if latitude > 215 {
        Biome::Tundra
    } else if cell.moisture >= 205 {
        Biome::Wetland
    } else if cell.moisture >= 135 {
        Biome::Forest
    } else if cell.moisture < 68 {
        Biome::Dryland
    } else {
        Biome::TemperateGrassland
    }
}

fn fertility_in(biome: Biome, seed: u64, id: u32) -> (fertility: u8)
    ensures
        ({
            let varied = base_fertility(biome) + mixed(seed, id as i32, 9) % 31 - 15;
            fertility == (if varied < 0 {
                0
            } else if varied > 255 {
                255
            } else {
                varied
            })
        }),
{
    let base: i64 = match biome {
        Biome::Wetland => 205,
        Biome::Forest => 165,
        Biome::TemperateGrassland => 180,
        Biome::Dryland => 70,
        Biome::Alpine => 45,
        Biome::Tundra => 45,
    };
    let draw: u64 = mix(seed, id as i32, 9) % 31;
    let varied: i64 = base + draw as i64 - 15;
    if varied < 0 {
        0
    } else if varied > 255 {
        255
    } else {
        varied as u8
    }
}

impl WorldPass for BiomePass {
    open spec fn title(&self) -> Seq<char> {
        "biomes"@
    }

    open spec fn inputs(&self) -> Seq<WorldLayer> {
        seq![
            WorldLayer::Elevation,
            WorldLayer::Surface,
            WorldLayer::Landform,
            WorldLayer::Moisture,
        ]
    }

    open spec fn outputs(&self) -> Seq<WorldLayer> {
        biome_outputs()
    }

    open spec fn owes(
        &self,
        world: LayeredWorld,
        pass_seed: u64,
        outcome: Result<WorldPatch, String>,
    ) -> bool {
        outcome matches Ok(patch) && is_settled_by_life(world, pass_seed, patch)
    }

    fn name(&self) -> (name: &'static str) {
        "biomes"
    }

    fn reads(&self) -> (layers: Vec<WorldLayer>) {
        vec![
            WorldLayer::Elevation,
            WorldLayer::Surface,
            WorldLayer::Landform,
            WorldLayer::Moisture,
        ]
    }

    fn writes(&self) -> (layers: Vec<WorldLayer>) {
        vec![WorldLayer::Biome, WorldLayer::Fertility]
    }

    fn run(&self, world: &LayeredWorld, pass_seed: u64) -> (outcome: Result<WorldPatch, String>) {
        let mut biomes: Vec<(u32, Biome)> = Vec::new();
        let mut fertility: Vec<(u32, u8)> = Vec::new();
        let mut id: u32 = 0;
        while (id as usize) < world.cells.len()
            invariant
                world.is_laid_out(),
                id <= world.cells@.len(),
                biomes@ == writes_where(id as int, is_ground(*world), biomes_of(*world)),
                fertility@ == writes_where(
                    id as int,
                    is_ground(*world),
                    fertility_of(*world, pass_seed),
                ),
            decreases world.cells.len() - id,
        {
            if world.cells[id as usize].surface == Surface::Land {
                let biome = classify_biome(world, id);
                biomes.push((id, biome));
                fertility.push((id, fertility_in(biome, pass_seed, id)));
            }
            id += 1;
        }
        proof {
            let layers = biome_outputs();
            assert(layers[0] == WorldLayer::Biome && layers[1] == WorldLayer::Fertility);
        }
        Ok(
            WorldPatch {
                report: report(
                    biomes.len(),
                    text("classified biome and fertility without replacing landforms"),
                ),
                biomes,
                fertility,
                ..WorldPatch::default()
            },
        )
    }
}

} // verus!
