//! The continent: land where the ground rises above the sea.
use vstd::prelude::*;
use crate::layers::{LayeredWorld, Surface, TerrainTags, V2Manifest, WorldLayer};
use crate::noise::{fractal_noise, fractal_noise_at, quotient, toward_zero};
use crate::patch::{how_many, note, report, writes_where, ElevationWrite, WorldPatch};
use crate::text::decimal;
use crate::world_pass::{some_beside, WorldPass};

verus! {

pub struct ContinentPass;

/// How far a column or row lies from the middle, in parts of 1024.
pub open spec fn off_middle(i: int, size: int) -> int {
    (i * 2 + 1) * 1_024 / size - 1_024
}

/// How far a place lies out, whatever the direction.
pub open spec fn outlying(x: int, y: int) -> int {
    toward_zero(x * x + y * y + toward_zero(x * y, 3), 1_024)
}

/// The elevation of the continent at a cell: a broad dome, roughened by noise.
#[verifier::opaque]
pub open spec fn continent_height(m: V2Manifest, seed: u64, id: int) -> int {
    let column = id % m.grid().width;
    let row = id / m.grid().width;
    let far = outlying(off_middle(column, m.grid().width), off_middle(row, m.grid().height));
    let noise = fractal_noise_at(seed, column, row, m.macro_cell_size * 4);
    let height = 440 - far / 2 + toward_zero(noise * 9, 32);
    if height < -1_024 {
        -1_024
    } else if height > 1_024 {
        1_024
    } else {
        height
    }
}

pub open spec fn raises(m: V2Manifest, seed: u64) -> spec_fn(int) -> ElevationWrite {
    |id: int| ElevationWrite::Assign(continent_height(m, seed, id) as i16)
}

pub open spec fn is_dry(m: V2Manifest, seed: u64) -> spec_fn(int) -> bool {
    |id: int| continent_height(m, seed, id) > 0
}

pub open spec fn dry_surface(m: V2Manifest, seed: u64) -> spec_fn(int) -> Surface {
    |id: int|
        if continent_height(m, seed, id) > 0 {
            Surface::Land
        } else {
            Surface::Ocean
        }
}

/// Where the sea is.
pub open spec fn sea_mask(m: V2Manifest, seed: u64) -> Seq<bool> {
    Seq::new(m.grid().count() as nat, |id: int| continent_height(m, seed, id) <= 0)
}

/// Whether a cell is land beside the sea.
pub open spec fn is_shore(m: V2Manifest, seed: u64) -> spec_fn(int) -> bool {
    |id: int|
        continent_height(m, seed, id) > 0 && some_beside(m.grid(), sea_mask(m, seed), id)
}

pub open spec fn shore_tags() -> spec_fn(int) -> TerrainTags {
    |id: int| TerrainTags(TerrainTags::COAST)
}

pub open spec fn every_cell() -> spec_fn(int) -> bool {
    |id: int| true
}

pub open spec fn continent_outputs() -> Seq<WorldLayer> {
    seq![WorldLayer::Elevation, WorldLayer::Surface, WorldLayer::Tags]
}

/// Whether this patch makes the continent.
pub open spec fn is_continent(m: V2Manifest, seed: u64, p: WorldPatch) -> bool {
    let n = m.grid().count();
    &&& p.elevation@ == writes_where(n, every_cell(), raises(m, seed))
    &&& p.surfaces@ == writes_where(n, every_cell(), dry_surface(m, seed))
    &&& p.tags@ == writes_where(n, is_shore(m, seed), shore_tags())
    &&& p.report.tells(
        n,
        seq![
            "created "@ + decimal(how_many(n, is_dry(m, seed)) as int)
                + " land cells with interpolated multi-scale coast noise"@,
        ],
    )
    &&& p.stays_within(continent_outputs())
}

fn off_middle_of(i: u32, size: u32) -> (x: i64)
    requires
        i < size,
    ensures
        x == off_middle(i as int, size as int),
        -1_024 <= x <= 1_024,
{
    proof {
        let n = (i * 2 + 1) * 1_024;
        vstd::arithmetic::div_mod::lemma_div_pos_is_pos(n, size as int);
        assert(n / (size as int) <= 2_048) by (nonlinear_arith)
            requires
                n == (i * 2 + 1) * 1_024,
                i < size,
        ;
    }
    (i as i64 * 2 + 1) * 1_024 / size as i64 - 1_024
}

fn height_at(world: &LayeredWorld, seed: u64, id: u32) -> (height: i16)
    requires
        world.is_laid_out(),
        id < world.layers().len(),
    ensures
        height == continent_height(world.manifest, seed, id as int),
{
    let column: u32 = id % world.manifest.width;
    let row: u32 = id / world.manifest.width;
    proof {
        reveal(continent_height);
        crate::layers::lemma_line_bounds(world.grid(), id as int);
    }
    let x: i64 = off_middle_of(column, world.manifest.width);
    let y: i64 = off_middle_of(row, world.manifest.height);
    proof {
        assert(0 <= x * x <= 1_048_576) by (nonlinear_arith)
            requires
                -1_024 <= x <= 1_024,
        ;
        assert(0 <= y * y <= 1_048_576) by (nonlinear_arith)
            requires
                -1_024 <= y <= 1_024,
        ;
        assert(-1_048_576 <= x * y <= 1_048_576) by (nonlinear_arith)
            requires
                -1_024 <= x <= 1_024,
                -1_024 <= y <= 1_024,
        ;
        assert(x * x + y * y + toward_zero(x * y, 3) >= 0) by (nonlinear_arith);
    }
    let far: i64 = quotient(x * x + y * y + quotient(x * y, 3), 1_024);
    let noise: i32 = fractal_noise(
        seed,
        column,
        row,
        world.manifest.macro_cell_size as u32 * 4,
    );
    let height: i64 = 440 - far / 2 + quotient(noise as i64 * 9, 32);
    if height < -1_024 {
        -1_024
    } else if height > 1_024 {
        1_024
    } else {
        height as i16
    }
}

impl WorldPass for ContinentPass {
    open spec fn title(&self) -> Seq<char> {
        "continent"@
    }

    open spec fn inputs(&self) -> Seq<WorldLayer> {
        seq![]
    }

    open spec fn outputs(&self) -> Seq<WorldLayer> {
        continent_outputs()
    }

    open spec fn owes(
        &self,
        world: LayeredWorld,
        pass_seed: u64,
        outcome: Result<WorldPatch, String>,
    ) -> bool {
        outcome matches Ok(patch) && is_continent(world.manifest, pass_seed, patch)
    }

    fn name(&self) -> (name: &'static str) {
        "continent"
    }

    fn reads(&self) -> (layers: Vec<WorldLayer>) {
        Vec::new()
    }

    fn writes(&self) -> (layers: Vec<WorldLayer>) {
        vec![WorldLayer::Elevation, WorldLayer::Surface, WorldLayer::Tags]
    }

    fn run(&self, world: &LayeredWorld, pass_seed: u64) -> (outcome: Result<WorldPatch, String>) {
        let ghost m = world.manifest;
        let count: usize = world.cells.len();
        let mut elevation: Vec<(u32, ElevationWrite)> = Vec::new();
        let mut surfaces: Vec<(u32, Surface)> = Vec::new();
        let mut sea: Vec<bool> = Vec::new();
        let mut land: usize = 0;
        let mut id: u32 = 0;
        while (id as usize) < count
            invariant
                world.is_laid_out(),
                m == world.manifest,
                count == m.grid().count(),
                id <= count,
                land == how_many(id as int, is_dry(m, pass_seed)) <= id,
                sea@ =~= sea_mask(m, pass_seed).take(id as int),
                elevation@ == writes_where(id as int, every_cell(), raises(m, pass_seed)),
                surfaces@ == writes_where(
                    id as int,
                    every_cell(),
                    dry_surface(m, pass_seed),
                ),
            decreases count - id,
        {
            let height: i16 = height_at(world, pass_seed, id);
            elevation.push((id, ElevationWrite::Assign(height)));
            if height > 0 {
                surfaces.push((id, Surface::Land));
                land += 1;
            } else {
                surfaces.push((id, Surface::Ocean));
            }
            sea.push(height <= 0);
            id += 1;
        }
        assert(sea@ =~= sea_mask(m, pass_seed));
        let mut tags: Vec<(u32, TerrainTags)> = Vec::new();
        id = 0;
        while (id as usize) < count
            invariant
                world.is_laid_out(),
                m == world.manifest,
                count == m.grid().count(),
                id <= count,
                sea@ == sea_mask(m, pass_seed),
                tags@ == writes_where(id as int, is_shore(m, pass_seed), shore_tags()),
            decreases count - id,
        {
            if !sea[id as usize] && world.is_any_beside(sea.as_slice(), id) {
                tags.push((id, TerrainTags(TerrainTags::COAST)));
            }
            id += 1;
        }
        proof {
            let layers = continent_outputs();
            assert(layers[0] == WorldLayer::Elevation && layers[1] == WorldLayer::Surface
                && layers[2] == WorldLayer::Tags);
        }
        Ok(
            WorldPatch {
                elevation,
                surfaces,
                tags,
                report: report(
                    count,
                    note("created ", land, " land cells with interpolated multi-scale coast noise"),
                ),
                ..WorldPatch::default()
            },
        )
    }
}

} // verus!
