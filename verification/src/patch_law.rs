//! What patches do: each write reaches its cell and its layer, and nothing else.
use vstd::prelude::*;
use crate::layers::{Biome, CellLayers, GameplayCell, Landform, RiverCell, Surface, TerrainTags};
use crate::patch::{
    cells_after, put_biome, put_elevation, put_fertility, put_gameplay, put_landform, put_moisture,
    put_river, put_surface, put_tags, put_water_body, stray, stray_cell, written, ElevationWrite,
    WorldPatch,
};

verus! {

/// Whether a list writes to a cell once, with a value.
pub open spec fn writes_once<A>(writes: Seq<(u32, A)>, id: int, value: A) -> bool {
    exists|k: int|
        0 <= k < writes.len() && #[trigger] writes[k] == (id as u32, value) && forall|j: int|
            0 <= j < writes.len() && j != k ==> (#[trigger] writes[j]).0 != id
}

/// Whether a list leaves a cell alone.
pub open spec fn leaves_alone<A>(writes: Seq<(u32, A)>, id: int) -> bool {
    forall|j: int| 0 <= j < writes.len() ==> (#[trigger] writes[j]).0 != id
}

/// Whether a list writes only to cells that are there.
pub open spec fn stays_inside<A>(writes: Seq<(u32, A)>, count: int) -> bool {
    forall|j: int| 0 <= j < writes.len() ==> (#[trigger] writes[j]).0 < count
}

proof fn lemma_stray<A>(writes: Seq<(u32, A)>, count: int)
    requires
        stray(writes, count) is None,
    ensures
        stays_inside(writes, count),
    decreases writes.len(),
{
    if writes.len() > 0 {
        let rest = writes.drop_last();
        lemma_stray(rest, count);
        assert forall|j: int| 0 <= j < writes.len() implies (#[trigger] writes[j]).0 < count by {
            if j < rest.len() {
                assert(rest[j].0 < count);
            }
        }
    }
}

proof fn lemma_inside(p: WorldPatch, count: int)
    requires
        stray_cell(p, count) is None,
    ensures
        stays_inside(p.elevation@, count),
        stays_inside(p.surfaces@, count),
        stays_inside(p.landforms@, count),
        stays_inside(p.biomes@, count),
        stays_inside(p.moisture@, count),
        stays_inside(p.fertility@, count),
        stays_inside(p.water_bodies@, count),
        stays_inside(p.rivers@, count),
        stays_inside(p.tags@, count),
        stays_inside(p.gameplay@, count),
{
    lemma_stray(p.elevation@, count);
    lemma_stray(p.surfaces@, count);
    lemma_stray(p.landforms@, count);
    lemma_stray(p.biomes@, count);
    lemma_stray(p.moisture@, count);
    lemma_stray(p.fertility@, count);
    lemma_stray(p.water_bodies@, count);
    lemma_stray(p.rivers@, count);
    lemma_stray(p.tags@, count);
    lemma_stray(p.gameplay@, count);
}

proof fn lemma_alone<A>(
    cells: Seq<CellLayers>,
    writes: Seq<(u32, A)>,
    put: spec_fn(CellLayers, A) -> CellLayers,
    id: int,
)
    requires
        0 <= id < cells.len(),
        leaves_alone(writes, id),
        stays_inside(writes, cells.len() as int),
    ensures
        written(cells, writes, put).len() == cells.len(),
        written(cells, writes, put)[id] == cells[id],
    decreases writes.len(),
{
    if writes.len() > 0 {
        let rest = writes.drop_last();
        assert forall|j: int| 0 <= j < rest.len() implies (#[trigger] rest[j]).0 < cells.len() by {
            assert(rest[j] == writes[j]);
        }
        assert(writes[writes.len() - 1].0 < cells.len());
        assert forall|j: int| 0 <= j < rest.len() implies (#[trigger] rest[j]).0 != id by {
            assert(rest[j] == writes[j]);
        }
        lemma_alone(cells, rest, put, id);
        assert(writes[writes.len() - 1].0 != id);
    }
}

proof fn lemma_once<A>(
    cells: Seq<CellLayers>,
    writes: Seq<(u32, A)>,
    put: spec_fn(CellLayers, A) -> CellLayers,
    id: int,
    value: A,
)
    requires
        0 <= id < cells.len() <= u32::MAX,
        writes_once(writes, id, value),
        stays_inside(writes, cells.len() as int),
    ensures
        written(cells, writes, put)[id] == put(cells[id], value),
    decreases writes.len(),
{
    let k = choose|k: int|
        0 <= k < writes.len() && #[trigger] writes[k] == (id as u32, value) && forall|j: int|
            0 <= j < writes.len() && j != k ==> (#[trigger] writes[j]).0 != id;
    let rest = writes.drop_last();
    let end = writes.len() - 1;
    assert forall|j: int| 0 <= j < rest.len() implies (#[trigger] rest[j]).0 < cells.len() by {
        assert(rest[j] == writes[j]);
    }
    assert(writes[end].0 < cells.len());
    lemma_length(cells, rest, put);
    if k == end {
        assert forall|j: int| 0 <= j < rest.len() implies (#[trigger] rest[j]).0 != id by {
            assert(rest[j] == writes[j]);
        }
        lemma_alone(cells, rest, put, id);
    } else {
        assert(rest[k] == (id as u32, value));
        assert forall|j: int| 0 <= j < rest.len() && j != k implies (#[trigger] rest[j]).0
            != id by {
            assert(rest[j] == writes[j]);
        }
        assert(writes_once(rest, id, value));
        lemma_once(cells, rest, put, id, value);
        assert(writes[end].0 != id);
    }
}

/// Writes that keep a layer keep it in every cell.
proof fn lemma_keeps<A, B>(
    cells: Seq<CellLayers>,
    writes: Seq<(u32, A)>,
    put: spec_fn(CellLayers, A) -> CellLayers,
    layer: spec_fn(CellLayers) -> B,
    id: int,
)
    requires
        0 <= id < cells.len(),
        stays_inside(writes, cells.len() as int),
        forall|cell: CellLayers, value: A| layer(#[trigger] put(cell, value)) == layer(cell),
    ensures
        written(cells, writes, put).len() == cells.len(),
        layer(written(cells, writes, put)[id]) == layer(cells[id]),
    decreases writes.len(),
{
    if writes.len() > 0 {
        let rest = writes.drop_last();
        assert forall|j: int| 0 <= j < rest.len() implies (#[trigger] rest[j]).0 < cells.len() by {
            assert(rest[j] == writes[j]);
        }
        assert(writes[writes.len() - 1].0 < cells.len());
        lemma_keeps(cells, rest, put, layer, id);
    }
}

/// A cell that no list of a patch names stays as it is.
pub proof fn law_patches_leave_the_rest_alone(cells: Seq<CellLayers>, p: WorldPatch, id: int)
    requires
        0 <= id < cells.len(),
        stray_cell(p, cells.len() as int) is None,
        leaves_alone(p.elevation@, id),
        leaves_alone(p.surfaces@, id),
        leaves_alone(p.landforms@, id),
        leaves_alone(p.biomes@, id),
        leaves_alone(p.moisture@, id),
        leaves_alone(p.fertility@, id),
        leaves_alone(p.water_bodies@, id),
        leaves_alone(p.rivers@, id),
        leaves_alone(p.tags@, id),
        leaves_alone(p.gameplay@, id),
    ensures
        cells_after(cells, p)[id] == cells[id],
{
    lemma_inside(p, cells.len() as int);
    let s0 = written(cells, p.elevation@, put_elevation());
    lemma_alone(cells, p.elevation@, put_elevation(), id);
    let s1 = written(s0, p.surfaces@, put_surface());
    lemma_alone(s0, p.surfaces@, put_surface(), id);
    let s2 = written(s1, p.landforms@, put_landform());
    lemma_alone(s1, p.landforms@, put_landform(), id);
    let s3 = written(s2, p.biomes@, put_biome());
    lemma_alone(s2, p.biomes@, put_biome(), id);
    let s4 = written(s3, p.moisture@, put_moisture());
    lemma_alone(s3, p.moisture@, put_moisture(), id);
    let s5 = written(s4, p.fertility@, put_fertility());
    lemma_alone(s4, p.fertility@, put_fertility(), id);
    let s6 = written(s5, p.water_bodies@, put_water_body());
    lemma_alone(s5, p.water_bodies@, put_water_body(), id);
    let s7 = written(s6, p.rivers@, put_river());
    lemma_alone(s6, p.rivers@, put_river(), id);
    let s8 = written(s7, p.tags@, put_tags());
    lemma_alone(s7, p.tags@, put_tags(), id);
    lemma_alone(s8, p.gameplay@, put_gameplay(), id);
}

/// A height that is written once is set, or shifted by what is written as far as
/// heights go, whatever else a patch writes.
pub proof fn law_elevation_is_set_or_shifted(
    cells: Seq<CellLayers>,
    p: WorldPatch,
    id: int,
    value: ElevationWrite,
)
    requires
        0 <= id < cells.len() <= u32::MAX,
        stray_cell(p, cells.len() as int) is None,
        writes_once(p.elevation@, id, value),
    ensures
        match value {
            ElevationWrite::Assign(height) => cells_after(cells, p)[id].elevation == height,
            ElevationWrite::Add(change) => {
                let whole = cells[id].elevation + change;
                &&& i16::MIN <= whole <= i16::MAX ==> cells_after(cells, p)[id].elevation == whole
                &&& whole > i16::MAX ==> cells_after(cells, p)[id].elevation == i16::MAX
                &&& whole < i16::MIN ==> cells_after(cells, p)[id].elevation == i16::MIN
            },
        },
{
    lemma_inside(p, cells.len() as int);
    let layer = |cell: CellLayers| cell.elevation;
    let s0 = written(cells, p.elevation@, put_elevation());
    lemma_once(cells, p.elevation@, put_elevation(), id, value);
    lemma_length(cells, p.elevation@, put_elevation());
    let s1 = written(s0, p.surfaces@, put_surface());
    lemma_keeps(s0, p.surfaces@, put_surface(), layer, id);
    let s2 = written(s1, p.landforms@, put_landform());
    lemma_keeps(s1, p.landforms@, put_landform(), layer, id);
    let s3 = written(s2, p.biomes@, put_biome());
    lemma_keeps(s2, p.biomes@, put_biome(), layer, id);
    let s4 = written(s3, p.moisture@, put_moisture());
    lemma_keeps(s3, p.moisture@, put_moisture(), layer, id);
    let s5 = written(s4, p.fertility@, put_fertility());
    lemma_keeps(s4, p.fertility@, put_fertility(), layer, id);
    let s6 = written(s5, p.water_bodies@, put_water_body());
    lemma_keeps(s5, p.water_bodies@, put_water_body(), layer, id);
    let s7 = written(s6, p.rivers@, put_river());
    lemma_keeps(s6, p.rivers@, put_river(), layer, id);
    let s8 = written(s7, p.tags@, put_tags());
    lemma_keeps(s7, p.tags@, put_tags(), layer, id);
    lemma_keeps(s8, p.gameplay@, put_gameplay(), layer, id);
}

/// What is written once to this layer of a cell stands there afterwards, whatever
/// else a patch writes: `surface`.
pub proof fn law_surfaces_are_set(
    cells: Seq<CellLayers>,
    p: WorldPatch,
    id: int,
    value: Surface,
)
    requires
        0 <= id < cells.len() <= u32::MAX,
        stray_cell(p, cells.len() as int) is None,
        writes_once(p.surfaces@, id, value),
    ensures
        cells_after(cells, p)[id].surface == value,
{
    lemma_inside(p, cells.len() as int);
    let layer = |cell: CellLayers| cell.surface;
    let s0 = written(cells, p.elevation@, put_elevation());
    lemma_keeps(cells, p.elevation@, put_elevation(), layer, id);
    let s1 = written(s0, p.surfaces@, put_surface());
    lemma_once(s0, p.surfaces@, put_surface(), id, value);
    lemma_length(s0, p.surfaces@, put_surface());
    let s2 = written(s1, p.landforms@, put_landform());
    lemma_keeps(s1, p.landforms@, put_landform(), layer, id);
    let s3 = written(s2, p.biomes@, put_biome());
    lemma_keeps(s2, p.biomes@, put_biome(), layer, id);
    let s4 = written(s3, p.moisture@, put_moisture());
    lemma_keeps(s3, p.moisture@, put_moisture(), layer, id);
    let s5 = written(s4, p.fertility@, put_fertility());
    lemma_keeps(s4, p.fertility@, put_fertility(), layer, id);
    let s6 = written(s5, p.water_bodies@, put_water_body());
    lemma_keeps(s5, p.water_bodies@, put_water_body(), layer, id);
    let s7 = written(s6, p.rivers@, put_river());
    lemma_keeps(s6, p.rivers@, put_river(), layer, id);
    let s8 = written(s7, p.tags@, put_tags());
    lemma_keeps(s7, p.tags@, put_tags(), layer, id);
    lemma_keeps(s8, p.gameplay@, put_gameplay(), layer, id);
}

/// What is written once to this layer of a cell stands there afterwards, whatever
/// else a patch writes: `landform`.
pub proof fn law_landforms_are_set(
    cells: Seq<CellLayers>,
    p: WorldPatch,
    id: int,
    value: Landform,
)
    requires
        0 <= id < cells.len() <= u32::MAX,
        stray_cell(p, cells.len() as int) is None,
        writes_once(p.landforms@, id, value),
    ensures
        cells_after(cells, p)[id].landform == value,
{
    lemma_inside(p, cells.len() as int);
    let layer = |cell: CellLayers| cell.landform;
    let s0 = written(cells, p.elevation@, put_elevation());
    lemma_keeps(cells, p.elevation@, put_elevation(), layer, id);
    let s1 = written(s0, p.surfaces@, put_surface());
    lemma_keeps(s0, p.surfaces@, put_surface(), layer, id);
    let s2 = written(s1, p.landforms@, put_landform());
    lemma_once(s1, p.landforms@, put_landform(), id, value);
    lemma_length(s1, p.landforms@, put_landform());
    let s3 = written(s2, p.biomes@, put_biome());
    lemma_keeps(s2, p.biomes@, put_biome(), layer, id);
    let s4 = written(s3, p.moisture@, put_moisture());
    lemma_keeps(s3, p.moisture@, put_moisture(), layer, id);
    let s5 = written(s4, p.fertility@, put_fertility());
    lemma_keeps(s4, p.fertility@, put_fertility(), layer, id);
    let s6 = written(s5, p.water_bodies@, put_water_body());
    lemma_keeps(s5, p.water_bodies@, put_water_body(), layer, id);
    let s7 = written(s6, p.rivers@, put_river());
    lemma_keeps(s6, p.rivers@, put_river(), layer, id);
    let s8 = written(s7, p.tags@, put_tags());
    lemma_keeps(s7, p.tags@, put_tags(), layer, id);
    lemma_keeps(s8, p.gameplay@, put_gameplay(), layer, id);
}

/// What is written once to this layer of a cell stands there afterwards, whatever
/// else a patch writes: `biome`.
pub proof fn law_biomes_are_set(
    cells: Seq<CellLayers>,
    p: WorldPatch,
    id: int,
    value: Biome,
)
    requires
        0 <= id < cells.len() <= u32::MAX,
        stray_cell(p, cells.len() as int) is None,
        writes_once(p.biomes@, id, value),
    ensures
        cells_after(cells, p)[id].biome == value,
{
    lemma_inside(p, cells.len() as int);
    let layer = |cell: CellLayers| cell.biome;
    let s0 = written(cells, p.elevation@, put_elevation());
    lemma_keeps(cells, p.elevation@, put_elevation(), layer, id);
    let s1 = written(s0, p.surfaces@, put_surface());
    lemma_keeps(s0, p.surfaces@, put_surface(), layer, id);
    let s2 = written(s1, p.landforms@, put_landform());
    lemma_keeps(s1, p.landforms@, put_landform(), layer, id);
    let s3 = written(s2, p.biomes@, put_biome());
    lemma_once(s2, p.biomes@, put_biome(), id, value);
    lemma_length(s2, p.biomes@, put_biome());
    let s4 = written(s3, p.moisture@, put_moisture());
    lemma_keeps(s3, p.moisture@, put_moisture(), layer, id);
    let s5 = written(s4, p.fertility@, put_fertility());
    lemma_keeps(s4, p.fertility@, put_fertility(), layer, id);
    let s6 = written(s5, p.water_bodies@, put_water_body());
    lemma_keeps(s5, p.water_bodies@, put_water_body(), layer, id);
    let s7 = written(s6, p.rivers@, put_river());
    lemma_keeps(s6, p.rivers@, put_river(), layer, id);
    let s8 = written(s7, p.tags@, put_tags());
    lemma_keeps(s7, p.tags@, put_tags(), layer, id);
    lemma_keeps(s8, p.gameplay@, put_gameplay(), layer, id);
}

/// What is written once to this layer of a cell stands there afterwards, whatever
/// else a patch writes: `moisture`.
pub proof fn law_moisture_is_set(
    cells: Seq<CellLayers>,
    p: WorldPatch,
    id: int,
    value: u8,
)
    requires
        0 <= id < cells.len() <= u32::MAX,
        stray_cell(p, cells.len() as int) is None,
        writes_once(p.moisture@, id, value),
    ensures
        cells_after(cells, p)[id].moisture == value,
{
    lemma_inside(p, cells.len() as int);
    let layer = |cell: CellLayers| cell.moisture;
    let s0 = written(cells, p.elevation@, put_elevation());
    lemma_keeps(cells, p.elevation@, put_elevation(), layer, id);
    let s1 = written(s0, p.surfaces@, put_surface());
    lemma_keeps(s0, p.surfaces@, put_surface(), layer, id);
    let s2 = written(s1, p.landforms@, put_landform());
    lemma_keeps(s1, p.landforms@, put_landform(), layer, id);
    let s3 = written(s2, p.biomes@, put_biome());
    lemma_keeps(s2, p.biomes@, put_biome(), layer, id);
    let s4 = written(s3, p.moisture@, put_moisture());
    lemma_once(s3, p.moisture@, put_moisture(), id, value);
    lemma_length(s3, p.moisture@, put_moisture());
    let s5 = written(s4, p.fertility@, put_fertility());
    lemma_keeps(s4, p.fertility@, put_fertility(), layer, id);
    let s6 = written(s5, p.water_bodies@, put_water_body());
    lemma_keeps(s5, p.water_bodies@, put_water_body(), layer, id);
    let s7 = written(s6, p.rivers@, put_river());
    lemma_keeps(s6, p.rivers@, put_river(), layer, id);
    let s8 = written(s7, p.tags@, put_tags());
    lemma_keeps(s7, p.tags@, put_tags(), layer, id);
    lemma_keeps(s8, p.gameplay@, put_gameplay(), layer, id);
}

/// What is written once to this layer of a cell stands there afterwards, whatever
/// else a patch writes: `fertility`.
pub proof fn law_fertility_is_set(
    cells: Seq<CellLayers>,
    p: WorldPatch,
    id: int,
    value: u8,
)
    requires
        0 <= id < cells.len() <= u32::MAX,
        stray_cell(p, cells.len() as int) is None,
        writes_once(p.fertility@, id, value),
    ensures
        cells_after(cells, p)[id].fertility == value,
{
    lemma_inside(p, cells.len() as int);
    let layer = |cell: CellLayers| cell.fertility;
    let s0 = written(cells, p.elevation@, put_elevation());
    lemma_keeps(cells, p.elevation@, put_elevation(), layer, id);
    let s1 = written(s0, p.surfaces@, put_surface());
    lemma_keeps(s0, p.surfaces@, put_surface(), layer, id);
    let s2 = written(s1, p.landforms@, put_landform());
    lemma_keeps(s1, p.landforms@, put_landform(), layer, id);
    let s3 = written(s2, p.biomes@, put_biome());
    lemma_keeps(s2, p.biomes@, put_biome(), layer, id);
    let s4 = written(s3, p.moisture@, put_moisture());
    lemma_keeps(s3, p.moisture@, put_moisture(), layer, id);
    let s5 = written(s4, p.fertility@, put_fertility());
    lemma_once(s4, p.fertility@, put_fertility(), id, value);
    lemma_length(s4, p.fertility@, put_fertility());
    let s6 = written(s5, p.water_bodies@, put_water_body());
    lemma_keeps(s5, p.water_bodies@, put_water_body(), layer, id);
    let s7 = written(s6, p.rivers@, put_river());
    lemma_keeps(s6, p.rivers@, put_river(), layer, id);
    let s8 = written(s7, p.tags@, put_tags());
    lemma_keeps(s7, p.tags@, put_tags(), layer, id);
    lemma_keeps(s8, p.gameplay@, put_gameplay(), layer, id);
}

/// What is written once to this layer of a cell stands there afterwards, whatever
/// else a patch writes: `water_body_id`.
pub proof fn law_water_bodies_are_set(
    cells: Seq<CellLayers>,
    p: WorldPatch,
    id: int,
    value: Option<u32>,
)
    requires
        0 <= id < cells.len() <= u32::MAX,
        stray_cell(p, cells.len() as int) is None,
        writes_once(p.water_bodies@, id, value),
    ensures
        cells_after(cells, p)[id].water_body_id == value,
{
    lemma_inside(p, cells.len() as int);
    let layer = |cell: CellLayers| cell.water_body_id;
    let s0 = written(cells, p.elevation@, put_elevation());
    lemma_keeps(cells, p.elevation@, put_elevation(), layer, id);
    let s1 = written(s0, p.surfaces@, put_surface());
    lemma_keeps(s0, p.surfaces@, put_surface(), layer, id);
    let s2 = written(s1, p.landforms@, put_landform());
    lemma_keeps(s1, p.landforms@, put_landform(), layer, id);
    let s3 = written(s2, p.biomes@, put_biome());
    lemma_keeps(s2, p.biomes@, put_biome(), layer, id);
    let s4 = written(s3, p.moisture@, put_moisture());
    lemma_keeps(s3, p.moisture@, put_moisture(), layer, id);
    let s5 = written(s4, p.fertility@, put_fertility());
    lemma_keeps(s4, p.fertility@, put_fertility(), layer, id);
    let s6 = written(s5, p.water_bodies@, put_water_body());
    lemma_once(s5, p.water_bodies@, put_water_body(), id, value);
    lemma_length(s5, p.water_bodies@, put_water_body());
    let s7 = written(s6, p.rivers@, put_river());
    lemma_keeps(s6, p.rivers@, put_river(), layer, id);
    let s8 = written(s7, p.tags@, put_tags());
    lemma_keeps(s7, p.tags@, put_tags(), layer, id);
    lemma_keeps(s8, p.gameplay@, put_gameplay(), layer, id);
}

/// What is written once to this layer of a cell stands there afterwards, whatever
/// else a patch writes: `river`.
pub proof fn law_rivers_are_set(
    cells: Seq<CellLayers>,
    p: WorldPatch,
    id: int,
    value: Option<RiverCell>,
)
    requires
        0 <= id < cells.len() <= u32::MAX,
        stray_cell(p, cells.len() as int) is None,
        writes_once(p.rivers@, id, value),
    ensures
        cells_after(cells, p)[id].river == value,
{
    lemma_inside(p, cells.len() as int);
    let layer = |cell: CellLayers| cell.river;
    let s0 = written(cells, p.elevation@, put_elevation());
    lemma_keeps(cells, p.elevation@, put_elevation(), layer, id);
    let s1 = written(s0, p.surfaces@, put_surface());
    lemma_keeps(s0, p.surfaces@, put_surface(), layer, id);
    let s2 = written(s1, p.landforms@, put_landform());
    lemma_keeps(s1, p.landforms@, put_landform(), layer, id);
    let s3 = written(s2, p.biomes@, put_biome());
    lemma_keeps(s2, p.biomes@, put_biome(), layer, id);
    let s4 = written(s3, p.moisture@, put_moisture());
    lemma_keeps(s3, p.moisture@, put_moisture(), layer, id);
    let s5 = written(s4, p.fertility@, put_fertility());
    lemma_keeps(s4, p.fertility@, put_fertility(), layer, id);
    let s6 = written(s5, p.water_bodies@, put_water_body());
    lemma_keeps(s5, p.water_bodies@, put_water_body(), layer, id);
    let s7 = written(s6, p.rivers@, put_river());
    lemma_once(s6, p.rivers@, put_river(), id, value);
    lemma_length(s6, p.rivers@, put_river());
    let s8 = written(s7, p.tags@, put_tags());
    lemma_keeps(s7, p.tags@, put_tags(), layer, id);
    lemma_keeps(s8, p.gameplay@, put_gameplay(), layer, id);
}

/// Tags that are written once are added to those a cell has.
pub proof fn law_tags_are_added(
    cells: Seq<CellLayers>,
    p: WorldPatch,
    id: int,
    value: TerrainTags,
)
    requires
        0 <= id < cells.len() <= u32::MAX,
        stray_cell(p, cells.len() as int) is None,
        writes_once(p.tags@, id, value),
    ensures
        cells_after(cells, p)[id].tags.0 == cells[id].tags.0 | value.0,
{
    lemma_inside(p, cells.len() as int);
    let layer = |cell: CellLayers| cell.tags;
    let s0 = written(cells, p.elevation@, put_elevation());
    lemma_keeps(cells, p.elevation@, put_elevation(), layer, id);
    let s1 = written(s0, p.surfaces@, put_surface());
    lemma_keeps(s0, p.surfaces@, put_surface(), layer, id);
    let s2 = written(s1, p.landforms@, put_landform());
    lemma_keeps(s1, p.landforms@, put_landform(), layer, id);
    let s3 = written(s2, p.biomes@, put_biome());
    lemma_keeps(s2, p.biomes@, put_biome(), layer, id);
    let s4 = written(s3, p.moisture@, put_moisture());
    lemma_keeps(s3, p.moisture@, put_moisture(), layer, id);
    let s5 = written(s4, p.fertility@, put_fertility());
    lemma_keeps(s4, p.fertility@, put_fertility(), layer, id);
    let s6 = written(s5, p.water_bodies@, put_water_body());
    lemma_keeps(s5, p.water_bodies@, put_water_body(), layer, id);
    let s7 = written(s6, p.rivers@, put_river());
    lemma_keeps(s6, p.rivers@, put_river(), layer, id);
    let s8 = written(s7, p.tags@, put_tags());
    lemma_once(s7, p.tags@, put_tags(), id, value);
    lemma_length(s7, p.tags@, put_tags());
    lemma_keeps(s8, p.gameplay@, put_gameplay(), layer, id);
}

/// What is written once to this layer of a cell stands there afterwards, whatever
/// else a patch writes: `gameplay`.
pub proof fn law_worth_is_set(
    cells: Seq<CellLayers>,
    p: WorldPatch,
    id: int,
    value: GameplayCell,
)
    requires
        0 <= id < cells.len() <= u32::MAX,
        stray_cell(p, cells.len() as int) is None,
        writes_once(p.gameplay@, id, value),
    ensures
        cells_after(cells, p)[id].gameplay == value,
{
    lemma_inside(p, cells.len() as int);
    let layer = |cell: CellLayers| cell.gameplay;
    let s0 = written(cells, p.elevation@, put_elevation());
    lemma_keeps(cells, p.elevation@, put_elevation(), layer, id);
    let s1 = written(s0, p.surfaces@, put_surface());
    lemma_keeps(s0, p.surfaces@, put_surface(), layer, id);
    let s2 = written(s1, p.landforms@, put_landform());
    lemma_keeps(s1, p.landforms@, put_landform(), layer, id);
    let s3 = written(s2, p.biomes@, put_biome());
    lemma_keeps(s2, p.biomes@, put_biome(), layer, id);
    let s4 = written(s3, p.moisture@, put_moisture());
    lemma_keeps(s3, p.moisture@, put_moisture(), layer, id);
    let s5 = written(s4, p.fertility@, put_fertility());
    lemma_keeps(s4, p.fertility@, put_fertility(), layer, id);
    let s6 = written(s5, p.water_bodies@, put_water_body());
    lemma_keeps(s5, p.water_bodies@, put_water_body(), layer, id);
    let s7 = written(s6, p.rivers@, put_river());
    lemma_keeps(s6, p.rivers@, put_river(), layer, id);
    let s8 = written(s7, p.tags@, put_tags());
    lemma_keeps(s7, p.tags@, put_tags(), layer, id);
    lemma_once(s8, p.gameplay@, put_gameplay(), id, value);
    lemma_length(s8, p.gameplay@, put_gameplay());
}

proof fn lemma_length<A>(
    cells: Seq<CellLayers>,
    writes: Seq<(u32, A)>,
    put: spec_fn(CellLayers, A) -> CellLayers,
)
    requires
        stays_inside(writes, cells.len() as int),
    ensures
        written(cells, writes, put).len() == cells.len(),
    decreases writes.len(),
{
    if writes.len() > 0 {
        let rest = writes.drop_last();
        assert forall|j: int| 0 <= j < rest.len() implies (#[trigger] rest[j]).0 < cells.len() by {
            assert(rest[j] == writes[j]);
        }
        assert(writes[writes.len() - 1].0 < cells.len());
        lemma_length(cells, rest, put);
    }
}

} // verus!
