//! Layered generation is deterministic: one world spec and one relief make one
//! world.
use vstd::prelude::*;
use crate::coast::{
    coast_layers, is_coast_patch, is_left, is_mended, is_mending, land_mask, law_coast_is_unique,
    lemma_one_is_longest, Coast,
};
use crate::continent::{
    continent_height, continent_outputs, dry_surface, is_continent, is_dry, is_shore, raises,
    sea_mask, ContinentPass,
};
use crate::coord::Axial;
use crate::fill::{elevations, ocean_mask};
use crate::fingerprint::header_words;
use crate::gameplay::{gameplay_outputs, gameplay_writes, is_mainland, is_playable, is_scenery};
use crate::hydrology::{
    hydrology_outputs, is_hydrology, is_laid, is_watered, lake_mask, law_rivers_are_unique,
    waters_of, Rivers,
};
use crate::landcover::{
    biome_at, biome_outputs, biomes_of, fertility_of, is_formed, is_ground, is_settled_by_life,
    landform_outputs, landforms_of, steepest, steepness,
};
use crate::layers::{
    is_empty_world, same_record, same_world, spec_fault, CellLayers, LayeredWorld,
    PassProvenance, Surface, V2Manifest, WorldLayer, WorldSpec,
};
use crate::parts::{is_part, is_part_list, law_labels_are_unique, law_part_list_is_unique};
use crate::patch::{
    cells_after, is_applied, notes_of, put_biome, put_elevation, put_fertility, put_gameplay,
    put_landform, put_moisture, put_river, put_surface, put_tags, put_water_body, stray, stray_cell,
    stray_text, written, PassReport, WorldPatch,
};
use crate::pipeline::{
    are_reports, is_failed, is_made, is_progress, is_refused, is_sealed, records, stage_seed,
    standard_stages, stops, Relief, Stage,
};
use crate::placement::{
    capturable_mask, first_wanted, is_habitable, is_placed, law_placement_is_unique, may_start,
    places_of, pool, start_outputs,
};
use crate::relief::{
    are_centers, carve, is_carved, is_hollowed, is_lifted, is_raised, land_places,
    law_centers_are_unique, relief_outputs, wanted,
};
use crate::spawning::is_nearest;
use crate::world_check::{
    body_mask, is_broken, is_endless, is_first_broken, is_first_passable, is_leaving, is_passable,
    is_reached, lake_fault, land_fault, layer_faults, lemma_first_broken, manifest_fault, onward,
    passable_mask, reach_fault, river_fault, river_faults, start_faults, trace, world_fault,
};
use crate::world_pass::WorldPass;

verus! {

pub open spec fn same_report(a: PassReport, b: PassReport) -> bool {
    &&& a.name@ == b.name@
    &&& a.changed_cells == b.changed_cells
    &&& a.changed_edges == b.changed_edges
    &&& notes_of(a.notes@) == notes_of(b.notes@)
}

/// Whether two lists of reports tell the same.
pub open spec fn same_reports(a: Seq<PassReport>, b: Seq<PassReport>) -> bool {
    &&& a.len() == b.len()
    &&& forall|i: int| 0 <= i < a.len() ==> same_report(#[trigger] a[i], b[i])
}

pub open spec fn same_starts(a: Option<Vec<Axial>>, b: Option<Vec<Axial>>) -> bool {
    match (a, b) {
        (Some(s), Some(t)) => s@ == t@,
        (None, None) => true,
        _ => false,
    }
}

/// Whether two patches write the same.
pub open spec fn same_writes(p: WorldPatch, q: WorldPatch) -> bool {
    &&& p.elevation@ == q.elevation@
    &&& p.surfaces@ == q.surfaces@
    &&& p.landforms@ == q.landforms@
    &&& p.biomes@ == q.biomes@
    &&& p.moisture@ == q.moisture@
    &&& p.fertility@ == q.fertility@
    &&& p.water_bodies@ == q.water_bodies@
    &&& p.rivers@ == q.rivers@
    &&& p.tags@ == q.tags@
    &&& p.gameplay@ == q.gameplay@
    &&& p.edges@ == q.edges@
    &&& same_starts(p.spawns, q.spawns)
}

/// Whether two patches write and report the same.
pub open spec fn same_patch(p: WorldPatch, q: WorldPatch) -> bool {
    same_writes(p, q) && same_report(p.report, q.report)
}

/// Patches that keep to some layers and agree on those agree.
proof fn lemma_same_writes(layers: Seq<WorldLayer>, p: WorldPatch, q: WorldPatch)
    requires
        p.stays_within(layers),
        q.stays_within(layers),
        layers.contains(WorldLayer::Elevation) ==> p.elevation@ == q.elevation@,
        layers.contains(WorldLayer::Surface) ==> p.surfaces@ == q.surfaces@,
        layers.contains(WorldLayer::Landform) ==> p.landforms@ == q.landforms@,
        layers.contains(WorldLayer::Biome) ==> p.biomes@ == q.biomes@,
        layers.contains(WorldLayer::Moisture) ==> p.moisture@ == q.moisture@,
        layers.contains(WorldLayer::Fertility) ==> p.fertility@ == q.fertility@,
        layers.contains(WorldLayer::Hydrology) ==> p.water_bodies@ == q.water_bodies@,
        layers.contains(WorldLayer::Hydrology) ==> p.rivers@ == q.rivers@,
        layers.contains(WorldLayer::Tags) ==> p.tags@ == q.tags@,
        layers.contains(WorldLayer::Gameplay) ==> p.gameplay@ == q.gameplay@,
        layers.contains(WorldLayer::Edges) ==> p.edges@ == q.edges@,
        layers.contains(WorldLayer::Spawns) ==> same_starts(p.spawns, q.spawns),
    ensures
        same_writes(p, q),
{
    assert(p.elevation@ =~= q.elevation@);
    assert(p.surfaces@ =~= q.surfaces@);
    assert(p.landforms@ =~= q.landforms@);
    assert(p.biomes@ =~= q.biomes@);
    assert(p.moisture@ =~= q.moisture@);
    assert(p.fertility@ =~= q.fertility@);
    assert(p.water_bodies@ =~= q.water_bodies@);
    assert(p.rivers@ =~= q.rivers@);
    assert(p.tags@ =~= q.tags@);
    assert(p.gameplay@ =~= q.gameplay@);
    assert(p.edges@ =~= q.edges@);
}

#[verifier::rlimit(40)]
proof fn lemma_same_continent(
    a: LayeredWorld,
    b: LayeredWorld,
    seed: u64,
    p: WorldPatch,
    q: WorldPatch,
)
    requires
        same_world(a, b),
        is_continent(a.manifest, seed, p),
        is_continent(b.manifest, seed, q),
    ensures
        same_patch(p, q),
{
    let m = a.manifest;
    let n = b.manifest;
    assert(m.grid() == n.grid());
    assert forall|id: int| #[trigger]
        continent_height(m, seed, id) == continent_height(n, seed, id) by {
        reveal(continent_height);
    }
    assert(raises(m, seed) =~= raises(n, seed));
    assert(is_dry(m, seed) =~= is_dry(n, seed));
    assert(dry_surface(m, seed) =~= dry_surface(n, seed));
    assert(sea_mask(m, seed) =~= sea_mask(n, seed));
    assert(is_shore(m, seed) =~= is_shore(n, seed));
    lemma_same_writes(continent_outputs(), p, q);
}

/// Worlds that are the same have the same coast.
proof fn lemma_coast_alike(a: LayeredWorld, b: LayeredWorld, coast: Coast)
    requires
        same_world(a, b),
        coast.is_of(b),
    ensures
        coast.is_of(a),
        land_mask(a) == land_mask(b),
{
    assert(a.grid() == b.grid());
    assert(land_mask(a) =~= land_mask(b));
}

#[verifier::rlimit(40)]
proof fn lemma_same_mending(
    n: int,
    parts: int,
    bridges: spec_fn(int) -> bool,
    sinks: spec_fn(int) -> bool,
    joins: spec_fn(int) -> bool,
    p: WorldPatch,
    q: WorldPatch,
)
    requires
        is_mending(n, parts, bridges, sinks, joins, p),
        is_mending(n, parts, bridges, sinks, joins, q),
    ensures
        same_patch(p, q),
{
    lemma_same_writes(coast_layers(), p, q);
}

/// Worlds that are the same have the same coast.
proof fn lemma_coasts_alike(a: LayeredWorld, b: LayeredWorld, coast: Coast, coast2: Coast)
    requires
        a.is_laid_out(),
        same_world(a, b),
        coast.is_of(a),
        coast2.is_of(b),
    ensures
        coast.parts == coast2.parts,
        coast.bridges(land_mask(a)) == coast2.bridges(land_mask(b)),
        coast.sinks() == coast2.sinks(),
        coast.joins() == coast2.joins(),
{
    lemma_coast_alike(a, b, coast2);
    law_coast_is_unique(a, coast, coast2);
}

proof fn lemma_same_mended(
    a: LayeredWorld,
    b: LayeredWorld,
    coast: Coast,
    coast2: Coast,
    p: WorldPatch,
    q: WorldPatch,
)
    requires
        a.is_laid_out(),
        same_world(a, b),
        is_mended(a, coast, p),
        is_mended(b, coast2, q),
    ensures
        same_patch(p, q),
{
    let n = a.grid().count();
    let parts = coast.parts.len() as int;
    let bridges = coast.bridges(land_mask(a));
    lemma_coasts_alike(a, b, coast, coast2);
    lemma_same_mending(n, parts, bridges, coast.sinks(), coast.joins(), p, q);
}

/// A coast is one part or several, whatever the patch.
proof fn lemma_same_parts(
    a: LayeredWorld,
    b: LayeredWorld,
    parts: Seq<Seq<u32>>,
    parts2: Seq<Seq<u32>>,
)
    requires
        a.is_laid_out(),
        same_world(a, b),
        is_part_list(a.grid(), land_mask(a), parts),
        is_part_list(b.grid(), land_mask(b), parts2),
    ensures
        parts == parts2,
{
    assert(a.grid() == b.grid());
    assert(land_mask(a) =~= land_mask(b));
    law_part_list_is_unique(a.grid(), land_mask(a), parts, parts2);
}

proof fn lemma_same_coast(a: LayeredWorld, b: LayeredWorld, p: WorldPatch, q: WorldPatch)
    requires
        a.is_laid_out(),
        same_world(a, b),
        is_coast_patch(a, p),
        is_coast_patch(b, q),
    ensures
        same_patch(p, q),
{
    if exists|parts: Seq<Seq<u32>>| #[trigger] is_left(a, parts, p) {
        let parts = choose|parts: Seq<Seq<u32>>| #[trigger] is_left(a, parts, p);
        if !exists|parts2: Seq<Seq<u32>>| #[trigger] is_left(b, parts2, q) {
            let coast2 = choose|coast: Coast|
                coast.parts.len() > 1 && #[trigger] is_mended(b, coast, q);
            assert(coast2.is_of(b));
            lemma_same_parts(a, b, parts, coast2.parts);
        }
    } else {
        let coast = choose|coast: Coast| coast.parts.len() > 1 && #[trigger] is_mended(a, coast, p);
        assert(coast.is_of(a));
        if exists|parts2: Seq<Seq<u32>>| #[trigger] is_left(b, parts2, q) {
            let parts2 = choose|parts2: Seq<Seq<u32>>| #[trigger] is_left(b, parts2, q);
            lemma_same_parts(a, b, coast.parts, parts2);
        } else {
            let coast2 = choose|coast: Coast|
                coast.parts.len() > 1 && #[trigger] is_mended(b, coast, q);
            lemma_same_mended(a, b, coast, coast2, p, q);
        }
    }
}

proof fn lemma_same_mountains(
    a: LayeredWorld,
    b: LayeredWorld,
    uplift: Seq<i16>,
    p: WorldPatch,
    q: WorldPatch,
)
    requires
        same_world(a, b),
        is_raised(a, uplift, p),
        is_raised(b, uplift, q),
    ensures
        same_patch(p, q),
{
    assert(a.grid() == b.grid());
    assert(is_lifted(a, uplift) =~= is_lifted(b, uplift));
    lemma_same_writes(relief_outputs(), p, q);
}

proof fn lemma_same_basins(
    a: LayeredWorld,
    b: LayeredWorld,
    seed: u64,
    depths: Seq<i16>,
    centers: Seq<Axial>,
    centers2: Seq<Axial>,
    p: WorldPatch,
    q: WorldPatch,
)
    requires
        same_world(a, b),
        are_centers(a, seed, centers),
        are_centers(b, seed, centers2),
        is_hollowed(a, depths, centers, p),
        is_hollowed(b, depths, centers2, q),
    ensures
        same_patch(p, q),
{
    assert(a.grid() == b.grid());
    assert(land_places(a) =~= land_places(b));
    assert forall|i: int| 0 <= i < centers2.len() implies is_nearest(
        land_places(a),
        wanted(a.manifest, seed, i),
        #[trigger] centers2[i],
    ) by {
        assert(wanted(a.manifest, seed, i) == wanted(b.manifest, seed, i));
    }
    assert(are_centers(a, seed, centers2));
    law_centers_are_unique(a, seed, centers, centers2);
    assert(is_carved(a, depths, centers) =~= is_carved(b, depths, centers));
    assert(carve(a, depths, centers) =~= carve(b, depths, centers));
    lemma_same_writes(relief_outputs(), p, q);
}

/// Worlds that are the same have the same rivers.
proof fn lemma_same_rivers(
    a: LayeredWorld,
    b: LayeredWorld,
    seed: u64,
    rivers: Rivers,
    rivers2: Rivers,
)
    requires
        a.is_laid_out(),
        same_world(a, b),
        rivers.are_of(a, seed),
        rivers2.are_of(b, seed),
    ensures
        rivers == rivers2,
{
    assert(a.grid() == b.grid());
    assert(elevations(a) =~= elevations(b));
    assert(ocean_mask(a) =~= ocean_mask(b));
    assert(land_mask(a) =~= land_mask(b));
    let filled = rivers2.waters.filled;
    assert(lake_mask(a, filled) =~= lake_mask(b, filled));
    assert(waters_of(a, filled) == waters_of(b, filled));
    assert(rivers2.are_of(a, seed));
    law_rivers_are_unique(a, seed, rivers, rivers2);
}

/// The layers that water is laid down in.
proof fn lemma_water_layers(layer: WorldLayer)
    ensures
        hydrology_outputs().contains(layer) <==> layer == WorldLayer::Surface || layer
            == WorldLayer::Moisture || layer == WorldLayer::Hydrology || layer == WorldLayer::Tags,
{
    let layers = hydrology_outputs();
    assert(layers[0] == WorldLayer::Surface);
    assert(layers[1] == WorldLayer::Moisture);
    assert(layers[2] == WorldLayer::Hydrology);
    assert(layers[3] == WorldLayer::Tags);
}

/// The same water is laid down in one way.
#[verifier::rlimit(40)]
proof fn lemma_same_laid(
    n: int,
    seed: u64,
    rivers: Rivers,
    labels: Seq<Option<u32>>,
    lake_count: int,
    p: WorldPatch,
    q: WorldPatch,
)
    requires
        is_laid(n, seed, rivers, labels, lake_count, p),
        is_laid(n, seed, rivers, labels, lake_count, q),
    ensures
        same_patch(p, q),
{
    assert(same_report(p.report, q.report));
    lemma_water_layers(WorldLayer::Elevation);
    lemma_water_layers(WorldLayer::Landform);
    lemma_water_layers(WorldLayer::Biome);
    lemma_water_layers(WorldLayer::Fertility);
    lemma_water_layers(WorldLayer::Gameplay);
    lemma_water_layers(WorldLayer::Edges);
    lemma_water_layers(WorldLayer::Spawns);
    lemma_same_writes(hydrology_outputs(), p, q);
}

proof fn lemma_same_water(
    a: LayeredWorld,
    b: LayeredWorld,
    seed: u64,
    p: WorldPatch,
    q: WorldPatch,
)
    requires
        a.is_laid_out(),
        same_world(a, b),
        is_hydrology(a, seed, p),
        is_hydrology(b, seed, q),
    ensures
        same_patch(p, q),
{
    let g = a.grid();
    assert(b.grid() == g);
    let (rivers, parts, labels) = choose|
        rivers: Rivers,
        parts: Seq<Seq<u32>>,
        labels: Seq<Option<u32>>,
    | #[trigger]
        is_watered(a, seed, rivers, parts, labels, p);
    let (rivers2, parts2, labels2) = choose|
        rivers: Rivers,
        parts: Seq<Seq<u32>>,
        labels: Seq<Option<u32>>,
    | #[trigger]
        is_watered(b, seed, rivers, parts, labels, q);
    lemma_same_rivers(a, b, seed, rivers, rivers2);
    let lake = rivers.waters.lake;
    assert(lake.len() == g.count());
    law_part_list_is_unique(g, lake, parts, parts2);
    law_labels_are_unique(g, lake, parts, labels, labels2);
    lemma_same_laid(g.count(), seed, rivers, labels, parts.len() as int, p, q);
}

proof fn lemma_same_landforms(a: LayeredWorld, b: LayeredWorld, p: WorldPatch, q: WorldPatch)
    requires
        same_world(a, b),
        is_formed(a, p),
        is_formed(b, q),
    ensures
        same_patch(p, q),
{
    assert(a.grid() == b.grid());
    assert forall|id: int| #[trigger] steepest(a, id, 6) == steepest(b, id, 6) by {
        lemma_same_slopes(a, b, id, 6);
    }
    assert(is_ground(a) =~= is_ground(b));
    assert(landforms_of(a) =~= landforms_of(b));
    lemma_same_writes(landform_outputs(), p, q);
}

proof fn lemma_same_slopes(a: LayeredWorld, b: LayeredWorld, id: int, directions: int)
    requires
        a.layers() == b.layers(),
        a.grid() == b.grid(),
    ensures
        steepest(a, id, directions) == steepest(b, id, directions),
    decreases directions,
{
    if directions > 0 {
        lemma_same_slopes(a, b, id, directions - 1);
        assert(steepness(a, id, directions - 1) == steepness(b, id, directions - 1));
    }
}

#[verifier::rlimit(40)]
proof fn lemma_same_biomes(
    a: LayeredWorld,
    b: LayeredWorld,
    seed: u64,
    p: WorldPatch,
    q: WorldPatch,
)
    requires
        same_world(a, b),
        is_settled_by_life(a, seed, p),
        is_settled_by_life(b, seed, q),
    ensures
        same_patch(p, q),
{
    assert(a.grid() == b.grid());
    assert forall|id: int| #[trigger] biome_at(a, id) == biome_at(b, id) by {}
    assert(is_ground(a) =~= is_ground(b));
    assert(biomes_of(a) =~= biomes_of(b));
    assert(fertility_of(a, seed) =~= fertility_of(b, seed));
    lemma_same_writes(biome_outputs(), p, q);
}

#[verifier::rlimit(40)]
proof fn lemma_same_gameplay(
    a: LayeredWorld,
    b: LayeredWorld,
    parts: Seq<Seq<u32>>,
    k: int,
    parts2: Seq<Seq<u32>>,
    k2: int,
    p: WorldPatch,
    q: WorldPatch,
)
    requires
        a.is_laid_out(),
        same_world(a, b),
        is_mainland(a, parts, k),
        is_mainland(b, parts2, k2),
        is_playable(a, parts[k], p),
        is_playable(b, parts2[k2], q),
    ensures
        same_patch(p, q),
{
    assert(a.grid() == b.grid());
    assert(land_mask(a) =~= land_mask(b));
    law_part_list_is_unique(a.grid(), land_mask(a), parts, parts2);
    lemma_one_is_longest(parts, k, k2);
    assert(gameplay_writes(a, parts[k]) =~= gameplay_writes(b, parts[k]));
    assert(is_scenery(a, parts[k]) =~= is_scenery(b, parts[k]));
    lemma_same_writes(gameplay_outputs(), p, q);
}

#[verifier::rlimit(40)]
proof fn lemma_same_placement(a: LayeredWorld, b: LayeredWorld, p: WorldPatch, q: WorldPatch)
    requires
        same_world(a, b),
        is_placed(a, p),
        is_placed(b, q),
    ensures
        same_patch(p, q),
{
    assert(a.grid() == b.grid());
    assert(capturable_mask(a) =~= capturable_mask(b));
    assert(may_start(a) =~= may_start(b));
    assert(is_habitable(a) =~= is_habitable(b));
    assert(pool(a) == pool(b));
    assert(places_of(a, pool(a)) =~= places_of(b, pool(b)));
    law_placement_is_unique(
        places_of(a, pool(a)),
        first_wanted(a.manifest),
        p.spawns.unwrap()@,
        q.spawns.unwrap()@,
    );
    lemma_same_writes(start_outputs(), p, q);
}

proof fn lemma_written_length<A>(
    cells: Seq<CellLayers>,
    writes: Seq<(u32, A)>,
    put: spec_fn(CellLayers, A) -> CellLayers,
)
    requires
        stray(writes, cells.len() as int) is None,
    ensures
        written(cells, writes, put).len() == cells.len(),
    decreases writes.len(),
{
    if writes.len() > 0 {
        lemma_written_length(cells, writes.drop_last(), put);
    }
}

/// A patch within the world leaves as many cells.
proof fn lemma_cells_length(cells: Seq<CellLayers>, p: WorldPatch)
    requires
        stray_cell(p, cells.len() as int) is None,
    ensures
        cells_after(cells, p).len() == cells.len(),
{
    let a = written(cells, p.elevation@, put_elevation());
    lemma_written_length(cells, p.elevation@, put_elevation());
    let b = written(a, p.surfaces@, put_surface());
    lemma_written_length(a, p.surfaces@, put_surface());
    let c = written(b, p.landforms@, put_landform());
    lemma_written_length(b, p.landforms@, put_landform());
    let d = written(c, p.biomes@, put_biome());
    lemma_written_length(c, p.biomes@, put_biome());
    let e = written(d, p.moisture@, put_moisture());
    lemma_written_length(d, p.moisture@, put_moisture());
    let f = written(e, p.fertility@, put_fertility());
    lemma_written_length(e, p.fertility@, put_fertility());
    let g = written(f, p.water_bodies@, put_water_body());
    lemma_written_length(f, p.water_bodies@, put_water_body());
    let h = written(g, p.rivers@, put_river());
    lemma_written_length(g, p.rivers@, put_river());
    let i = written(h, p.tags@, put_tags());
    lemma_written_length(h, p.tags@, put_tags());
    lemma_written_length(i, p.gameplay@, put_gameplay());
}

/// Whether two reliefs hold the same fields.
spec fn same_relief(a: Relief, b: Relief) -> bool {
    &&& a.uplift@ == b.uplift@
    &&& a.depths@ == b.depths@
}

/// Whether a standard pass owes a patch.
#[verifier::opaque]
spec fn is_owed(
    relief: Relief,
    i: int,
    world: LayeredWorld,
    seed: u64,
    patch: WorldPatch,
) -> bool {
    standard_stages::<ContinentPass>(relief)[i].owes(world, seed, Ok(patch))
}

/// A standard pass writes one patch to one world.
#[verifier::rlimit(40)]
proof fn lemma_same_pass(
    relief: Relief,
    i: int,
    a: LayeredWorld,
    b: LayeredWorld,
    seed: u64,
    p: WorldPatch,
    q: WorldPatch,
)
    requires
        0 <= i < 9,
        a.is_laid_out(),
        same_world(a, b),
        is_owed(relief, i, a, seed, p),
        is_owed(relief, i, b, seed, q),
    ensures
        same_patch(p, q),
{
    reveal(is_owed);
    let stage = standard_stages::<ContinentPass>(relief)[i];
    match stage {
        Stage::Continent(_) => {
            lemma_same_continent(a, b, seed, p, q);
        },
        Stage::Coast(_) => {
            lemma_same_coast(a, b, p, q);
        },
        Stage::Mountains(pass) => {
            lemma_same_mountains(a, b, pass.uplift@, p, q);
        },
        Stage::Basins(pass) => {
            let depths = pass.depths@;
            let centers = choose|centers: Seq<Axial>|
                are_centers(a, seed, centers) && #[trigger] is_hollowed(a, depths, centers, p);
            let centers2 = choose|centers: Seq<Axial>|
                are_centers(b, seed, centers) && #[trigger] is_hollowed(b, depths, centers, q);
            lemma_same_basins(a, b, seed, depths, centers, centers2, p, q);
        },
        Stage::Hydrology(_) => {
            lemma_same_water(a, b, seed, p, q);
        },
        Stage::Landforms(_) => {
            lemma_same_landforms(a, b, p, q);
        },
        Stage::Biomes(_) => {
            lemma_same_biomes(a, b, seed, p, q);
        },
        Stage::Gameplay(_) => {
            let (parts, k) = choose|parts: Seq<Seq<u32>>, k: int| #[trigger]
                is_mainland(a, parts, k) && is_playable(a, parts[k], p);
            let (parts2, k2) = choose|parts: Seq<Seq<u32>>, k: int| #[trigger]
                is_mainland(b, parts, k) && is_playable(b, parts[k], q);
            lemma_same_gameplay(a, b, parts, k, parts2, k2, p, q);
        },
        Stage::Spawns(_) => {
            lemma_same_placement(a, b, p, q);
        },
        Stage::Custom(_) => {},
    }
}

/// The record of a standard pass.
spec fn is_record(relief: Relief, i: int, root: u64, record: PassProvenance) -> bool {
    records(record, standard_stages::<ContinentPass>(relief)[i], root)
}

/// Whether a standard pass turns one world into another.
spec fn is_step(
    relief: Relief,
    i: int,
    root: u64,
    before: LayeredWorld,
    patch: WorldPatch,
    after: LayeredWorld,
) -> bool {
    let title = standard_stages::<ContinentPass>(relief)[i].title();
    &&& is_owed(relief, i, before, stage_seed(root, title), patch)
    &&& stray_cell(patch, before.layers().len() as int) is None
    &&& after.manifest.pipeline@.len() == before.manifest.pipeline@.len() + 1
    &&& after.manifest.pipeline@.drop_last() == before.manifest.pipeline@
    &&& is_record(relief, i, root, after.manifest.pipeline@.last())
    &&& is_applied(
        before,
        patch,
        LayeredWorld {
            manifest: V2Manifest { pipeline: before.manifest.pipeline, ..after.manifest },
            ..after
        },
    )
}

/// Reliefs that hold the same fields ask the same of the standard passes.
proof fn lemma_same_owed(
    relief: Relief,
    other: Relief,
    i: int,
    world: LayeredWorld,
    seed: u64,
    outcome: Result<WorldPatch, String>,
)
    requires
        0 <= i < 9,
        same_relief(relief, other),
    ensures
        standard_stages::<ContinentPass>(other)[i].title() == standard_stages::<ContinentPass>(
            relief,
        )[i].title(),
        standard_stages::<ContinentPass>(other)[i].owes(world, seed, outcome) ==> standard_stages::<
            ContinentPass,
        >(relief)[i].owes(world, seed, outcome),
{
    let stage = standard_stages::<ContinentPass>(relief)[i];
    let stage2 = standard_stages::<ContinentPass>(other)[i];
    match (stage, stage2) {
        (Stage::Mountains(pass), Stage::Mountains(pass2)) => {
            assert(stage2.owes(world, seed, outcome) == pass2.owes(world, seed, outcome));
            assert(pass2.owes(world, seed, outcome) ==> pass.owes(world, seed, outcome));
        },
        (Stage::Basins(pass), Stage::Basins(pass2)) => {
            assert(stage2.owes(world, seed, outcome) == pass2.owes(world, seed, outcome));
            if pass2.owes(world, seed, outcome) && outcome is Ok {
                let patch = outcome->Ok_0;
                let centers = choose|centers: Seq<Axial>|
                    are_centers(world, seed, centers) && #[trigger] is_hollowed(
                        world,
                        pass2.depths@,
                        centers,
                        patch,
                    );
                assert(is_hollowed(world, pass.depths@, centers, patch));
            }
            assert(pass2.owes(world, seed, outcome) ==> pass.owes(world, seed, outcome));
        },
        _ => {
            assert(stage == stage2);
        },
    }
}

proof fn lemma_owed_alike(
    relief: Relief,
    other: Relief,
    i: int,
    world: LayeredWorld,
    seed: u64,
    patch: WorldPatch,
)
    requires
        0 <= i < 9,
        same_relief(relief, other),
        is_owed(other, i, world, seed, patch),
    ensures
        is_owed(relief, i, world, seed, patch),
{
    reveal(is_owed);
    lemma_same_owed(relief, other, i, world, seed, Ok(patch));
}

/// A standard pass has one title and names one set of layers, whatever the relief.
proof fn lemma_same_titles(relief: Relief, other: Relief, i: int)
    requires
        0 <= i < 9,
    ensures
        standard_stages::<ContinentPass>(other)[i].title() == standard_stages::<ContinentPass>(
            relief,
        )[i].title(),
        standard_stages::<ContinentPass>(other)[i].inputs() == standard_stages::<ContinentPass>(
            relief,
        )[i].inputs(),
        standard_stages::<ContinentPass>(other)[i].outputs() == standard_stages::<ContinentPass>(
            relief,
        )[i].outputs(),
{
}

/// Reliefs that hold the same fields take the same steps.
proof fn lemma_step_alike(
    relief: Relief,
    other: Relief,
    i: int,
    root: u64,
    before: LayeredWorld,
    patch: WorldPatch,
    after: LayeredWorld,
)
    requires
        0 <= i < 9,
        same_relief(relief, other),
        is_step(other, i, root, before, patch, after),
    ensures
        is_step(relief, i, root, before, patch, after),
{
    let stage = standard_stages::<ContinentPass>(relief)[i];
    let seed = stage_seed(root, stage.title());
    lemma_same_titles(relief, other, i);
    assert(is_owed(relief, i, before, seed, patch)) by {
        lemma_owed_alike(relief, other, i, before, seed, patch);
    }
}

/// A standard pass makes one world of one.
proof fn lemma_same_step(
    relief: Relief,
    i: int,
    root: u64,
    a: LayeredWorld,
    b: LayeredWorld,
    p: WorldPatch,
    q: WorldPatch,
    after: LayeredWorld,
    after2: LayeredWorld,
)
    requires
        0 <= i < 9,
        a.is_laid_out(),
        same_world(a, b),
        is_step(relief, i, root, a, p, after),
        is_step(relief, i, root, b, q, after2),
    ensures
        same_patch(p, q),
        same_world(after, after2),
        after.is_laid_out(),
{
    let title = standard_stages::<ContinentPass>(relief)[i].title();
    lemma_same_pass(relief, i, a, b, stage_seed(root, title), p, q);
    lemma_cells_length(a.layers(), p);
    assert(cells_after(a.layers(), p) == cells_after(b.layers(), q));
    let r = after.manifest.pipeline@;
    let s = after2.manifest.pipeline@;
    assert forall|k: int| 0 <= k < r.len() implies same_record(#[trigger] r[k], s[k]) by {
        if k < r.len() - 1 {
            assert(r[k] == r.drop_last()[k]);
            assert(s[k] == s.drop_last()[k]);
            assert(same_record(a.manifest.pipeline@[k], b.manifest.pipeline@[k]));
        }
    }
}

/// A world spec has one empty world.
proof fn lemma_same_empty(spec: WorldSpec, a: LayeredWorld, b: LayeredWorld)
    requires
        spec_fault(spec) is None,
        is_empty_world(a, spec),
        is_empty_world(b, spec),
    ensures
        same_world(a, b),
        a.is_laid_out(),
{
}

proof fn lemma_steps(
    relief: Relief,
    other: Relief,
    spec: WorldSpec,
    worlds: Seq<LayeredWorld>,
    patches: Seq<WorldPatch>,
)
    requires
        same_relief(relief, other),
        is_progress(standard_stages::<ContinentPass>(other), spec, worlds, patches),
    ensures
        forall|i: int|
            0 <= i < patches.len() ==> is_step(
                relief,
                i,
                spec.seed,
                worlds[i],
                #[trigger] patches[i],
                worlds[i + 1],
            ),
{
    assert forall|i: int| 0 <= i < patches.len() implies is_step(
        relief,
        i,
        spec.seed,
        worlds[i],
        #[trigger] patches[i],
        worlds[i + 1],
    ) by {
        assert(is_step(other, i, spec.seed, worlds[i], patches[i], worlds[i + 1])) by {
            reveal(is_owed);
        }
        lemma_step_alike(relief, other, i, spec.seed, worlds[i], patches[i], worlds[i + 1]);
    }
}

/// The standard passes make one world of a world spec, pass by pass.
proof fn lemma_same_progress(
    relief: Relief,
    spec: WorldSpec,
    worlds: Seq<LayeredWorld>,
    patches: Seq<WorldPatch>,
    worlds2: Seq<LayeredWorld>,
    patches2: Seq<WorldPatch>,
    n: int,
)
    requires
        spec_fault(spec) is None,
        is_empty_world(worlds[0], spec),
        is_empty_world(worlds2[0], spec),
        forall|i: int|
            0 <= i < n ==> is_step(
                relief,
                i,
                spec.seed,
                worlds[i],
                #[trigger] patches[i],
                worlds[i + 1],
            ),
        forall|i: int|
            0 <= i < n ==> is_step(
                relief,
                i,
                spec.seed,
                worlds2[i],
                #[trigger] patches2[i],
                worlds2[i + 1],
            ),
        0 <= n <= 9,
    ensures
        same_world(worlds[n], worlds2[n]),
        worlds[n].is_laid_out(),
        forall|i: int| 0 <= i < n ==> same_patch(#[trigger] patches[i], patches2[i]),
    decreases n,
{
    if n == 0 {
        lemma_same_empty(spec, worlds[0], worlds2[0]);
    } else {
        let i = n - 1;
        let p = patches[i];
        let q = patches2[i];
        lemma_same_progress(relief, spec, worlds, patches, worlds2, patches2, i);
        lemma_same_step(
            relief,
            i,
            spec.seed,
            worlds[i],
            worlds2[i],
            p,
            q,
            worlds[i + 1],
            worlds2[i + 1],
        );
    }
}

/// Worlds that are the same are sealed in the same way.
proof fn lemma_same_seal(
    before: LayeredWorld,
    before2: LayeredWorld,
    a: LayeredWorld,
    b: LayeredWorld,
)
    requires
        same_world(before, before2),
        is_sealed(before, a),
        is_sealed(before2, b),
    ensures
        same_world(a, b),
{
    assert(header_words(before) =~= header_words(before2));
}

/// Two worlds that the standard passes make of one world spec, with reliefs that
/// hold the same fields, are the same, and so are the reports.
pub proof fn law_layered_generation_is_deterministic(
    relief: Relief,
    relief2: Relief,
    spec: WorldSpec,
    a: LayeredWorld,
    b: LayeredWorld,
    reports: Seq<PassReport>,
    reports2: Seq<PassReport>,
)
    requires
        relief.uplift@ == relief2.uplift@,
        relief.depths@ == relief2.depths@,
        is_made(standard_stages::<ContinentPass>(relief), spec, a, reports),
        is_made(standard_stages::<ContinentPass>(relief2), spec, b, reports2),
    ensures
        same_world(a, b),
        same_reports(reports, reports2),
{
    let stages = standard_stages::<ContinentPass>(relief);
    let stages2 = standard_stages::<ContinentPass>(relief2);
    let (worlds, patches) = choose|worlds: Seq<LayeredWorld>, patches: Seq<WorldPatch>| #[trigger]
        is_progress(stages, spec, worlds, patches) && patches.len() == stages.len() && is_sealed(
            worlds.last(),
            a,
        ) && are_reports(stages, patches, reports);
    let (worlds2, patches2) = choose|worlds: Seq<LayeredWorld>, patches: Seq<WorldPatch>| #[trigger]
        is_progress(stages2, spec, worlds, patches) && patches.len() == stages2.len() && is_sealed(
            worlds.last(),
            b,
        ) && are_reports(stages2, patches, reports2);
    lemma_steps(relief, relief, spec, worlds, patches);
    lemma_steps(relief, relief2, spec, worlds2, patches2);
    lemma_same_progress(relief, spec, worlds, patches, worlds2, patches2, 9);
    lemma_same_seal(worlds.last(), worlds2.last(), a, b);
    assert forall|i: int| 0 <= i < reports.len() implies same_report(
        #[trigger] reports[i],
        reports2[i],
    ) by {
        assert(same_patch(patches[i], patches2[i]));
        assert(reports2[i].name@ == stages2[i].title());
        assert(stages2[i].title() == stages[i].title());
    }
}

/// A standard pass that owes a patch for a world owes no failure for it.
proof fn lemma_passes_do_not_waver(
    relief: Relief,
    i: int,
    a: LayeredWorld,
    b: LayeredWorld,
    seed: u64,
    p: WorldPatch,
    message: String,
)
    requires
        0 <= i < 9,
        a.is_laid_out(),
        same_world(a, b),
        is_owed(relief, i, a, seed, p),
    ensures
        !standard_stages::<ContinentPass>(relief)[i].owes(b, seed, Err(message)),
{
    reveal(is_owed);
    let stage = standard_stages::<ContinentPass>(relief)[i];
    assert(a.grid() == b.grid());
    match stage {
        Stage::Basins(pass) => {
            let depths = pass.depths@;
            let centers = choose|centers: Seq<Axial>|
                are_centers(a, seed, centers) && #[trigger] is_hollowed(a, depths, centers, p);
            assert(is_nearest(land_places(a), wanted(a.manifest, seed, 0), centers[0]));
            assert(land_places(a).contains(centers[0]));
            assert(land_places(a) =~= land_places(b));
            assert(land_places(b).contains(centers[0]));
        },
        Stage::Gameplay(_) => {
            let (parts, k) = choose|parts: Seq<Seq<u32>>, k: int| #[trigger]
                is_mainland(a, parts, k) && is_playable(a, parts[k], p);
            let id = parts[k][0] as int;
            assert(is_part(a.grid(), land_mask(a), parts[k]));
            assert(land_mask(a)[id]);
            assert(b.layers()[id].surface == Surface::Land);
        },
        Stage::Spawns(_) => {
            assert(capturable_mask(a) =~= capturable_mask(b));
            assert(may_start(a) =~= may_start(b));
        },
        _ => {},
    }
}

/// Whether a standard pass stops at a world.
#[verifier::opaque]
spec fn is_stop(
    relief: Relief,
    i: int,
    root: u64,
    world: LayeredWorld,
    message: String,
) -> bool {
    stops(standard_stages::<ContinentPass>(relief)[i], root, world, message)
}

/// Where a standard pass makes something of a world, it does not stop at it.
proof fn lemma_passes_do_not_stop(
    relief: Relief,
    i: int,
    root: u64,
    a: LayeredWorld,
    b: LayeredWorld,
    p: WorldPatch,
    after: LayeredWorld,
    message: String,
)
    requires
        0 <= i < 9,
        a.is_laid_out(),
        same_world(a, b),
        is_step(relief, i, root, a, p, after),
    ensures
        !is_stop(relief, i, root, b, message),
{
    reveal(is_stop);
    let stage = standard_stages::<ContinentPass>(relief)[i];
    let seed = stage_seed(root, stage.title());
    if stops(stage, root, b, message) {
        if stage.owes(b, seed, Err(message)) {
            lemma_passes_do_not_waver(relief, i, a, b, seed, p, message);
        } else {
            let q = choose|patch: WorldPatch| #[trigger]
                stage.owes(b, seed, Ok(patch)) && (stray_cell(patch, b.layers().len() as int)
                    matches Some(id) && message@ == stray_text(id));
            assert(is_owed(relief, i, b, seed, q)) by {
                reveal(is_owed);
            }
            lemma_same_pass(relief, i, a, b, seed, p, q);
            assert(stray_cell(q, b.layers().len() as int) == stray_cell(
                p,
                a.layers().len() as int,
            ));
        }
    }
}

/// Reliefs that hold the same fields stop at the same worlds.
proof fn lemma_same_stop(
    relief: Relief,
    other: Relief,
    i: int,
    root: u64,
    world: LayeredWorld,
    message: String,
)
    requires
        0 <= i < 9,
        same_relief(relief, other),
        is_stop(other, i, root, world, message),
    ensures
        is_stop(relief, i, root, world, message),
{
    reveal(is_stop);
    let stage = standard_stages::<ContinentPass>(relief)[i];
    let stage2 = standard_stages::<ContinentPass>(other)[i];
    let seed = stage_seed(root, stage.title());
    lemma_same_owed(relief, other, i, world, seed, Err(message));
    if !stage2.owes(world, seed, Err(message)) {
        let q = choose|patch: WorldPatch| #[trigger]
            stage2.owes(world, seed, Ok(patch)) && (stray_cell(patch, world.layers().len() as int)
                matches Some(id) && message@ == stray_text(id));
        lemma_same_owed(relief, other, i, world, seed, Ok(q));
        assert(stage.owes(world, seed, Ok(q)));
    }
}

/// The same rivers run the same way.
proof fn lemma_same_course(a: LayeredWorld, b: LayeredWorld, id: int, steps: nat)
    requires
        a.layers() == b.layers(),
        a.grid() == b.grid(),
    ensures
        trace(a, id, steps) == trace(b, id, steps),
    decreases steps,
{
    if steps > 0 {
        lemma_same_course(a, b, id, (steps - 1) as nat);
        if let Some(at) = trace(a, id, (steps - 1) as nat) {
            assert(onward(a, at) == onward(b, at));
        }
    }
}

proof fn lemma_same_river_fault(a: LayeredWorld, b: LayeredWorld, id: int)
    requires
        a.layers() == b.layers(),
        a.grid() == b.grid(),
    ensures
        river_fault(a, id) == river_fault(b, id),
{
    assert forall|steps: nat| #[trigger] trace(a, id, steps) == trace(b, id, steps) by {
        lemma_same_course(a, b, id, steps);
    }
    assert forall|at: int| #[trigger] onward(a, at) == onward(b, at) by {}
    assert(is_endless(a, id) == is_endless(b, id)) by {
        assert forall|steps: nat| #[trigger] trace(b, id, steps) == trace(a, id, steps) by {
            lemma_same_course(a, b, id, steps);
        }
    }
    assert(is_leaving(a, id) == is_leaving(b, id)) by {
        assert forall|steps: nat| #[trigger] trace(b, id, steps) == trace(a, id, steps) by {
            lemma_same_course(a, b, id, steps);
        }
    }
}

proof fn lemma_same_lakes(a: LayeredWorld, b: LayeredWorld)
    requires
        a.layers() == b.layers(),
        a.grid() == b.grid(),
    ensures
        lake_fault(a) == lake_fault(b),
{
    assert forall|body: u32| #[trigger] is_broken(a, body) == is_broken(b, body) by {
        assert(body_mask(a, body) =~= body_mask(b, body));
    }
    assert forall|body: u32| #[trigger] is_broken(b, body) == is_broken(a, body) by {
        assert(body_mask(a, body) =~= body_mask(b, body));
    }
    assert forall|body: u32| is_first_broken(a, body) == is_first_broken(b, body) by {
        if is_first_broken(a, body) {
            assert forall|other: u32| #[trigger] is_broken(b, other) implies body <= other by {
                assert(is_broken(a, other));
            }
        }
        if is_first_broken(b, body) {
            assert forall|other: u32| #[trigger] is_broken(a, other) implies body <= other by {
                assert(is_broken(b, other));
            }
        }
    }
    if exists|body: u32| is_first_broken(a, body) {
        let body = choose|body: u32| is_first_broken(a, body);
        assert(is_first_broken(b, body));
        lemma_first_broken(a, body);
        lemma_first_broken(b, body);
    }
}

proof fn lemma_same_land(a: LayeredWorld, b: LayeredWorld)
    requires
        a.layers() == b.layers(),
        a.grid() == b.grid(),
    ensures
        land_fault(a) == land_fault(b),
{
    assert(passable_mask(a) =~= passable_mask(b));
    assert(is_passable(a) =~= is_passable(b));
    assert forall|id: int| is_first_passable(a, id) == is_first_passable(b, id) by {}
    if exists|id: int| is_first_passable(a, id) {
        let x = choose|id: int| is_first_passable(a, id);
        assert(is_first_passable(b, x));
        let y = choose|id: int| is_first_passable(b, id);
        assert(is_first_passable(a, y));
        assert(x == y) by {
            if x < y {
                assert(!passable_mask(b)[x]);
            }
            if y < x {
                assert(!passable_mask(a)[y]);
            }
        }
        assert(is_reached(a, x) =~= is_reached(b, x));
        assert(reach_fault(a, x) == reach_fault(b, x));
    }
}

/// Worlds that are the same have the same fault, or none.
proof fn lemma_same_fault(a: LayeredWorld, b: LayeredWorld)
    requires
        same_world(a, b),
    ensures
        world_fault(a) == world_fault(b),
{
    assert(a.grid() == b.grid());
    assert(header_words(a) =~= header_words(b));
    assert(manifest_fault(a) == manifest_fault(b));
    assert(layer_faults(a) =~= layer_faults(b));
    lemma_same_lakes(a, b);
    assert forall|id: int| #[trigger] river_fault(a, id) == river_fault(b, id) by {
        lemma_same_river_fault(a, b, id);
    }
    assert(river_faults(a) =~= river_faults(b));
    assert(start_faults(a) =~= start_faults(b));
    assert(crate::world_check::placement_fault(a) == crate::world_check::placement_fault(b));
    lemma_same_land(a, b);
}

/// Where a world has been made, the passes do not fail with a relief that holds the
/// same fields.
proof fn lemma_no_failure(
    relief: Relief,
    relief2: Relief,
    spec: WorldSpec,
    worlds: Seq<LayeredWorld>,
    patches: Seq<WorldPatch>,
    worlds2: Seq<LayeredWorld>,
    patches2: Seq<WorldPatch>,
    message: String,
)
    requires
        same_relief(relief, relief2),
        spec_fault(spec) is None,
        is_empty_world(worlds[0], spec),
        is_empty_world(worlds2[0], spec),
        forall|i: int|
            0 <= i < 9 ==> is_step(
                relief,
                i,
                spec.seed,
                worlds[i],
                #[trigger] patches[i],
                worlds[i + 1],
            ),
        forall|i: int|
            0 <= i < patches2.len() ==> is_step(
                relief,
                i,
                spec.seed,
                worlds2[i],
                #[trigger] patches2[i],
                worlds2[i + 1],
            ),
        patches2.len() < 9,
    ensures
        !is_stop(
            relief2,
            patches2.len() as int,
            spec.seed,
            worlds2[patches2.len() as int],
            message,
        ),
{
    let n = patches2.len() as int;
    let p = patches[n];
    lemma_same_progress(relief, spec, worlds, patches, worlds2, patches2, n);
    lemma_passes_do_not_stop(
        relief,
        n,
        spec.seed,
        worlds[n],
        worlds2[n],
        p,
        worlds[n + 1],
        message,
    );
    if is_stop(relief2, n, spec.seed, worlds2[n], message) {
        lemma_same_stop(relief, relief2, n, spec.seed, worlds2[n], message);
    }
}

/// Where a valid world has been made of a world spec and a relief once, no later
/// attempt with a relief that holds the same fields is refused.
pub proof fn law_generation_succeeds_again(
    relief: Relief,
    relief2: Relief,
    spec: WorldSpec,
    world: LayeredWorld,
    reports: Seq<PassReport>,
    message: String,
)
    requires
        relief.uplift@ == relief2.uplift@,
        relief.depths@ == relief2.depths@,
        is_made(standard_stages::<ContinentPass>(relief), spec, world, reports),
        world_fault(world) is None,
    ensures
        !is_refused(spec, relief2, message),
{
    let stages = standard_stages::<ContinentPass>(relief);
    let stages2 = standard_stages::<ContinentPass>(relief2);
    if is_failed(stages2, spec, message) {
        let (worlds, patches) = choose|worlds: Seq<LayeredWorld>, patches: Seq<WorldPatch>|
            #[trigger]
            is_progress(stages, spec, worlds, patches) && patches.len() == stages.len()
                && is_sealed(worlds.last(), world) && are_reports(stages, patches, reports);
        let (worlds2, patches2) = choose|worlds: Seq<LayeredWorld>, patches: Seq<WorldPatch>|
            #[trigger]
            is_progress(stages2, spec, worlds, patches) && patches.len() < stages2.len() && stops(
                stages2[patches.len() as int],
                spec.seed,
                worlds.last(),
                message,
            );
        lemma_steps(relief, relief, spec, worlds, patches);
        lemma_steps(relief, relief2, spec, worlds2, patches2);
        assert(is_stop(relief2, patches2.len() as int, spec.seed, worlds2.last(), message)) by {
            reveal(is_stop);
        }
        lemma_no_failure(
            relief,
            relief2,
            spec,
            worlds,
            patches,
            worlds2,
            patches2,
            message,
        );
    } else if is_refused(spec, relief2, message) {
        let (other, told) = choose|other: LayeredWorld, told: Seq<PassReport>| #[trigger]
            is_made(stages2, spec, other, told) && world_fault(other) == Some(message@);
        law_layered_generation_is_deterministic(
            relief,
            relief2,
            spec,
            world,
            other,
            reports,
            told,
        );
        lemma_same_fault(world, other);
    }
}

} // verus!
