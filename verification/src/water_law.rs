//! What water does: where it runs, where it stands, and how far it wets the land.
use vstd::prelude::*;
use crate::climate_law::{lemma_writes, lemma_writes_align, lemma_written};
use crate::coord::{hex_distance, Axial};
use crate::fill::{is_filled, is_level, is_runoff, peak};
use crate::ground_law::{lemma_every_write, lemma_fractal_bounds};
use crate::hydrology::{
    bit, floor_log2, is_watered, lake_mask, lake_numbers, lake_surface, law_inflow_names_its_rivers,
    lemma_log_bound, lemma_sound, Rivers,
};
use crate::layers::{Grid, LayeredWorld, Surface, TerrainTags, V2Manifest};
use crate::patch::{ElevationWrite, WorldPatch};
use crate::relief::{
    basins, carve, deepest, depth_at, is_carved, is_hollowed, is_lifted, is_raised, lift, ranges,
    wanted_line,
};
use crate::streams::{capped_flow, gathered, is_discharge, rain, runs_in, Step, Waters};
use crate::world_pass::{marked_beside, some_beside};
use vstd::arithmetic::power2::pow2;

verus! {

/// Water leaves a land cell for the neighbour where it stands lowest, but for
/// open water first of all; among equals, for the one with the lowest number. It
/// never runs up, and it stays only where all around it stands higher, or as high
/// with a higher number.
pub proof fn law_water_takes_the_lowest_way(w: Waters, down: Seq<Step>, id: int, d: int)
    requires
        w.is_sound(),
        w.is_downstream(down),
        0 <= id < w.grid.count(),
        0 <= d < 6,
        w.grid.beside(id, d) is Some,
        w.land[id],
        !w.lake[id],
    ensures
        ({
            let m = w.grid.beside(id, d).unwrap();
            match down[id] {
                Some((_, n)) => {
                    let open = w.ocean[n as int] || w.lake[n as int];
                    &&& w.ocean[m] || w.lake[m] ==> open
                    &&& !open ==> w.filled[n as int] <= w.filled[id]
                    &&& open == (w.ocean[m] || w.lake[m]) ==> {
                        &&& w.filled[n as int] <= w.filled[m]
                        &&& w.filled[n as int] == w.filled[m] ==> n <= m
                    }
                    &&& !open && w.filled[m] < w.filled[id] ==> w.filled[n as int] < w.filled[id]
                },
                None => {
                    &&& !w.ocean[m] && !w.lake[m]
                    &&& w.filled[m] >= w.filled[id]
                    &&& w.filled[m] == w.filled[id] ==> m >= id
                },
            }
        }),
{
    assert(w.is_step(id, down[id]));
    match down[id] {
        Some((direction, n)) => {
            let o = direction.ordinal();
            assert(w.may_drain(id, o));
            if o != d && w.may_drain(id, d) {
                assert(w.is_sooner(n as int, w.grid.beside(id, d).unwrap()));
            }
        },
        None => {
            assert(!w.may_drain(id, d));
        },
    }
}

/// What the neighbour in a direction brings, if its water runs here.
pub open spec fn brought(w: Waters, down: Seq<Step>, flow: Seq<u32>, id: int, d: int) -> int {
    match w.grid.beside(id, d) {
        Some(n) => match down[n] {
            Some((_, m)) => if m == id {
                flow[n] as int
            } else {
                0
            },
            None => 0,
        },
        None => 0,
    }
}

/// A cell carries what falls on it, one to four parts, and all that runs into it
/// from its six neighbours, up to what can be counted.
pub proof fn law_streams_gather_all_that_runs_in(
    w: Waters,
    seed: u64,
    down: Seq<Step>,
    flow: Seq<u32>,
    id: int,
)
    requires
        w.is_sound(),
        w.is_downstream(down),
        is_discharge(w.grid, seed, down, flow),
        0 <= id < w.grid.count(),
    ensures
        ({
            let all = brought(w, down, flow, id, 0) + brought(w, down, flow, id, 1) + brought(
                w,
                down,
                flow,
                id,
                2,
            ) + brought(w, down, flow, id, 3) + brought(w, down, flow, id, 4) + brought(
                w,
                down,
                flow,
                id,
                5,
            );
            &&& flow[id] < u32::MAX ==> all + 1 <= flow[id] <= all + 4
            &&& flow[id] == u32::MAX ==> all + 4 >= u32::MAX
            &&& flow[id] >= 1
        }),
{
    let g = w.grid;
    let counted = crate::coast::all_open(g.count());
    assert(flow[id] == capped_flow(rain(seed, id) + gathered(g, down, flow, counted, id, 6)));
    assert forall|d: int| 0 <= d < 6 implies (if #[trigger] runs_in(g, down, counted, id, d) {
        flow[g.beside(id, d).unwrap()] as int
    } else {
        0
    }) == brought(w, down, flow, id, d) by {
        if g.beside(id, d) is Some {
            crate::layers::law_neighbours_are_mutual(g, id, d);
            let n = g.beside(id, d).unwrap();
            assert(counted[n]);
        }
    }
    reveal_with_fuel(gathered, 7);
    assert(runs_in(g, down, counted, id, 0) || !runs_in(g, down, counted, id, 0));
    assert(runs_in(g, down, counted, id, 1) || !runs_in(g, down, counted, id, 1));
    assert(runs_in(g, down, counted, id, 2) || !runs_in(g, down, counted, id, 2));
    assert(runs_in(g, down, counted, id, 3) || !runs_in(g, down, counted, id, 3));
    assert(runs_in(g, down, counted, id, 4) || !runs_in(g, down, counted, id, 4));
    assert(runs_in(g, down, counted, id, 5) || !runs_in(g, down, counted, id, 5));
}

/// Lakes stand exactly where water over land comes to be as deep as the world
/// asks, and at least one deep; each cell of one becomes lake surface and gets a
/// lake's number, counted from one.
pub proof fn law_lakes_stand_in_deep_hollows(
    world: LayeredWorld,
    seed: u64,
    rivers: Rivers,
    parts: Seq<Seq<u32>>,
    labels: Seq<Option<u32>>,
    p: WorldPatch,
    id: int,
)
    requires
        world.is_laid_out(),
        is_watered(world, seed, rivers, parts, labels, p),
        parts.len() < u32::MAX,
        0 <= id < world.layers().len(),
    ensures
        ({
            let depth = rivers.waters.filled[id] - world.layers()[id].elevation;
            let stands = world.layers()[id].surface == Surface::Land && depth >= 1 && depth
                >= world.manifest.parameters.lake_depth_threshold;
            &&& stands <==> p.surfaces@.contains((id as u32, Surface::Lake))
            &&& stands <==> exists|k: u32| #[trigger]
                p.water_bodies@.contains((id as u32, Some(k))) && k >= 1
        }),
{
    let n = world.grid().count();
    let lakes = rivers.lakes();
    lemma_writes(n, lakes, lake_surface());
    lemma_writes(n, lakes, lake_numbers(labels));
    assert(rivers.waters.lake == lake_mask(world, rivers.waters.filled));
    if lakes(id) {
        lemma_written(n, lakes, lake_surface(), id);
        lemma_written(n, lakes, lake_numbers(labels), id);
        assert(labels[id] is Some);
        let k = labels[id].unwrap();
        assert(k < parts.len());
        assert(p.water_bodies@.contains((id as u32, Some((k + 1) as u32))));
    }
    if p.surfaces@.contains((id as u32, Surface::Lake)) {
        let i = choose|i: int|
            0 <= i < p.surfaces@.len() && p.surfaces@[i] == (id as u32, Surface::Lake);
        assert(lakes(p.surfaces@[i].0 as int));
    }
    if exists|k: u32| #[trigger] p.water_bodies@.contains((id as u32, Some(k))) && k >= 1 {
        let k = choose|k: u32| #[trigger] p.water_bodies@.contains((id as u32, Some(k))) && k >= 1;
        let i = choose|i: int|
            0 <= i < p.water_bodies@.len() && p.water_bodies@[i] == (id as u32, Some(k));
        assert(lakes(p.water_bodies@[i].0 as int));
    }
}

/// The logarithm counts the doublings.
proof fn lemma_doublings(n: int)
    requires
        n >= 1,
    ensures
        0 <= floor_log2(n),
        pow2(floor_log2(n) as nat) <= n < pow2((floor_log2(n) + 1) as nat),
    decreases n,
{
    if n <= 1 {
        vstd::arithmetic::power2::lemma2_to64();
    } else {
        lemma_doublings(n / 2);
        let k = floor_log2(n / 2) as nat;
        vstd::arithmetic::power2::lemma_pow2_unfold(k + 1);
        vstd::arithmetic::power2::lemma_pow2_unfold(k + 2);
    }
}

/// A stream over land is a river exactly when it carries enough and comes to a
/// lake or the sea. The order of a river counts how often what is enough doubles
/// in what it carries. What is enough is what the world asks; where it asks
/// nothing, it is at least 64, twice the short side of the world, and one in 512
/// of its cells, and one of these three.
pub proof fn law_rivers_carry_enough(
    world: LayeredWorld,
    seed: u64,
    rivers: Rivers,
    parts: Seq<Seq<u32>>,
    labels: Seq<Option<u32>>,
    p: WorldPatch,
    i: int,
)
    requires
        world.is_laid_out(),
        is_watered(world, seed, rivers, parts, labels, p),
        0 <= i < p.rivers@.len(),
    ensures
        ({
            let id = p.rivers@[i].0 as int;
            let river = p.rivers@[i].1.unwrap();
            let asked = world.manifest.parameters.river_threshold as int;
            let w = world.manifest.width as int;
            let h = world.manifest.height as int;
            &&& 0 <= id < world.layers().len()
            &&& p.rivers@[i].1 is Some
            &&& world.layers()[id].surface == Surface::Land
            &&& !p.surfaces@.contains((id as u32, Surface::Lake))
            &&& river.discharge == rivers.flow[id]
            &&& river.discharge >= rivers.limit
            &&& rivers.drains[id]
            &&& rivers.down[id] matches Some((out, _)) && river.outflow == out
            &&& river.order >= 1
            &&& pow2((river.order - 1) as nat) * rivers.limit <= river.discharge
            &&& river.discharge < pow2(river.order as nat) * rivers.limit
            &&& asked != 0 ==> rivers.limit == asked
            &&& asked == 0 ==> {
                &&& rivers.limit >= 64
                &&& rivers.limit >= (w * h) / 512
                &&& rivers.limit >= 2 * w || rivers.limit >= 2 * h
                &&& rivers.limit == 64 || rivers.limit == (w * h) / 512 || (rivers.limit == 2 * w
                    && w <= h) || (rivers.limit == 2 * h && h <= w)
            }
        }),
{
    let n = world.grid().count();
    lemma_writes(n, rivers.rivers(), rivers.river_writes());
    lemma_writes(n, rivers.lakes(), lake_surface());
    lemma_sound(world, rivers);
    let id = p.rivers@[i].0 as int;
    assert(rivers.is_river(id));
    assert(p.rivers@[i].1 == Some(rivers.river(id)));
    assert(rivers.waters.is_step(id, rivers.down[id]));
    if p.surfaces@.contains((id as u32, Surface::Lake)) {
        let k = choose|k: int|
            0 <= k < p.surfaces@.len() && p.surfaces@[k] == (id as u32, Surface::Lake);
        assert(rivers.lakes()(p.surfaces@[k].0 as int));
    }
    let flow = rivers.flow[id] as int;
    let limit = rivers.limit;
    assert(limit > 0);
    let q = flow / limit;
    vstd::arithmetic::div_mod::lemma_fundamental_div_mod(flow, limit);
    vstd::arithmetic::div_mod::lemma_mod_bound(flow, limit);
    assert(q >= 1) by (nonlinear_arith)
        requires
            flow == limit * q + flow % limit,
            flow >= limit,
            flow % limit < limit,
            limit > 0,
    ;
    assert(q <= flow) by (nonlinear_arith)
        requires
            flow == limit * q + flow % limit,
            flow % limit >= 0,
            limit > 0,
            q >= 1,
    ;
    lemma_doublings(q);
    vstd::arithmetic::power2::lemma2_to64();
    lemma_log_bound(q, 32);
    let order = floor_log2(q) + 1;
    assert(rivers.river(id).order == order);
    let low = pow2(floor_log2(q) as nat) as int;
    let high = pow2(order as nat) as int;
    assert(low * limit <= flow && flow < high * limit) by (nonlinear_arith)
        requires
            low <= q,
            q + 1 <= high,
            flow == limit * q + flow % limit,
            0 <= flow % limit < limit,
            limit > 0,
    ;
}

/// Every stream that carries enough and comes to water is a river.
pub proof fn law_no_river_is_left_out(
    world: LayeredWorld,
    seed: u64,
    rivers: Rivers,
    parts: Seq<Seq<u32>>,
    labels: Seq<Option<u32>>,
    p: WorldPatch,
    id: int,
)
    requires
        world.is_laid_out(),
        is_watered(world, seed, rivers, parts, labels, p),
        0 <= id < world.layers().len(),
        rivers.down[id] is Some,
        rivers.flow[id] >= rivers.limit,
        rivers.drains[id],
    ensures
        exists|i: int| 0 <= i < p.rivers@.len() && (#[trigger] p.rivers@[i]).0 == id,
{
    let n = world.grid().count();
    lemma_written(n, rivers.rivers(), rivers.river_writes(), id);
    let i = choose|i: int|
        0 <= i < p.rivers@.len() && p.rivers@[i] == (id as u32, rivers.river_writes()(id));
    assert(p.rivers@[i].0 == id);
}

/// Whether the neighbour in a direction has a river that runs into a cell.
pub open spec fn comes_in(rivers: Rivers, id: int, d: int) -> bool {
    match rivers.waters.grid.beside(id, d) {
        Some(n) => rivers.flow[n] >= rivers.limit && rivers.drains[n] && (match rivers.down[n] {
            Some((_, to)) => to == id,
            None => false,
        }),
        None => false,
    }
}

/// River cells are tagged as banks; as a source exactly where no river runs in,
/// and as an outlet exactly where the river meets a lake or the sea. The bit of a
/// direction stands in a river's mask exactly where a river runs in from there.
pub proof fn law_rivers_are_tagged(
    world: LayeredWorld,
    seed: u64,
    rivers: Rivers,
    parts: Seq<Seq<u32>>,
    labels: Seq<Option<u32>>,
    p: WorldPatch,
    i: int,
    d: int,
)
    requires
        world.is_laid_out(),
        is_watered(world, seed, rivers, parts, labels, p),
        0 <= i < p.rivers@.len(),
        0 <= d < 6,
    ensures
        p.tags@.len() == p.rivers@.len(),
        ({
            let id = p.rivers@[i].0 as int;
            let river = p.rivers@[i].1.unwrap();
            let tags = p.tags@[i].1.0;
            let next = rivers.down[id].unwrap().1 as int;
            &&& p.tags@[i].0 == p.rivers@[i].0
            &&& tags & 2 != 0
            &&& tags & 4 != 0 <==> river.inflow_mask == 0
            &&& tags & 8 != 0 <==> world.layers()[next].surface == Surface::Ocean
                || p.surfaces@.contains((next as u32, Surface::Lake))
            &&& tags & 1 == 0
            &&& d == 0 ==> (river.inflow_mask & 1 != 0 <==> comes_in(rivers, id, 0))
            &&& d == 1 ==> (river.inflow_mask & 2 != 0 <==> comes_in(rivers, id, 1))
            &&& d == 2 ==> (river.inflow_mask & 4 != 0 <==> comes_in(rivers, id, 2))
            &&& d == 3 ==> (river.inflow_mask & 8 != 0 <==> comes_in(rivers, id, 3))
            &&& d == 4 ==> (river.inflow_mask & 16 != 0 <==> comes_in(rivers, id, 4))
            &&& d == 5 ==> (river.inflow_mask & 32 != 0 <==> comes_in(rivers, id, 5))
        }),
{
    let n = world.grid().count();
    law_inflow_names_its_rivers(rivers, p.rivers@[i].0 as int, d);
    lemma_writes(n, rivers.rivers(), rivers.river_writes());
    lemma_writes(n, rivers.rivers(), rivers.tag_writes());
    lemma_writes(n, rivers.lakes(), lake_surface());
    lemma_writes_align(n, rivers.rivers(), rivers.river_writes(), rivers.tag_writes());
    let id = p.rivers@[i].0 as int;
    assert(rivers.is_river(id));
    assert(p.rivers@[i].1 == Some(rivers.river(id)));
    assert(p.tags@[i].1 == TerrainTags(rivers.flags(id)));
    let next = rivers.down[id].unwrap().1 as int;
    lemma_sound(world, rivers);
    crate::streams::law_streams_run_down(rivers.waters, rivers.down, id);
    if rivers.waters.lake[next] {
        lemma_written(n, rivers.lakes(), lake_surface(), next);
    }
    if p.surfaces@.contains((next as u32, Surface::Lake)) {
        let k = choose|k: int|
            0 <= k < p.surfaces@.len() && p.surfaces@[k] == (next as u32, Surface::Lake);
        assert(rivers.lakes()(p.surfaces@[k].0 as int));
    }
    assert(rivers.waters.ocean[next] == (world.layers()[next].surface == Surface::Ocean));
    let spring: u16 = if rivers.inflow(id) == 0 {
        4
    } else {
        0
    };
    let mouth: u16 = if rivers.waters.is_water(next) {
        8
    } else {
        0
    };
    let tags: u16 = 2 | spring | mouth;
    assert(tags == rivers.flags(id));
    assert(tags & 2 != 0 && (tags & 4 != 0 <==> spring != 0) && (tags & 8 != 0 <==> mouth != 0)
        && tags & 1 == 0) by (bit_vector)
        requires
            tags == 2 | spring | mouth,
            spring == 0 || spring == 4,
            mouth == 0 || mouth == 8,
    ;
}

/// Every cell gets a moisture. Lakes and rivers are as wet as can be, what lies
/// beside water of any kind comes next, and all else is drier than that.
pub proof fn law_water_wets_the_land(
    world: LayeredWorld,
    seed: u64,
    rivers: Rivers,
    parts: Seq<Seq<u32>>,
    labels: Seq<Option<u32>>,
    p: WorldPatch,
    id: int,
)
    requires
        world.is_laid_out(),
        is_watered(world, seed, rivers, parts, labels, p),
        0 <= id < world.layers().len(),
    ensures
        p.moisture@.len() == world.layers().len(),
        p.moisture@[id].0 == id,
        ({
            let moisture = p.moisture@[id].1;
            let standing = rivers.waters.lake[id] || rivers.is_river(id);
            let beside = exists|d: int|
                0 <= d < 6 && (#[trigger] world.grid().beside(id, d) matches Some(n) && (
                rivers.waters.ocean[n] || rivers.waters.lake[n] || rivers.is_river(n)));
            &&& standing ==> moisture == 255
            &&& !standing && beside ==> moisture == 190
            &&& !standing && !beside ==> 28 <= moisture <= 156
        }),
{
    let n = world.grid().count();
    lemma_every_write(n, rivers.moisture_writes(seed));
    assert(p.moisture@[id] == (id as u32, rivers.moisture_at(seed, id) as u8));
    crate::layers::lemma_line_bounds(world.grid(), id);
    let width = world.grid().width;
    lemma_fractal_bounds(seed ^ 0x4D4F_4953_5455_5245, id % width, id / width, 96);
    let g = world.grid();
    let beside = exists|d: int|
        0 <= d < 6 && (#[trigger] g.beside(id, d) matches Some(n) && (rivers.waters.ocean[n]
            || rivers.waters.lake[n] || rivers.is_river(n)));
    if beside {
        let d = choose|d: int|
            0 <= d < 6 && (#[trigger] g.beside(id, d) matches Some(n) && (rivers.waters.ocean[n]
                || rivers.waters.lake[n] || rivers.is_river(n)));
        crate::layers::law_neighbours_are_mutual(g, id, d);
        assert(marked_beside(g, rivers.wet_mask(), id, d));
    }
    if some_beside(g, rivers.wet_mask(), id) {
        let d = choose|d: int| 0 <= d < 6 && #[trigger] marked_beside(g, rivers.wet_mask(), id, d);
        crate::layers::law_neighbours_are_mutual(g, id, d);
        assert(g.beside(id, d) is Some);
    }
}

/// Mountains only ever raise land, and where they should they do.
pub proof fn law_mountains_raise_land(
    world: LayeredWorld,
    uplift: Seq<i16>,
    p: WorldPatch,
    i: int,
    id: int,
)
    requires
        world.is_laid_out(),
        is_raised(world, uplift, p),
        uplift.len() == world.layers().len(),
        0 <= i < p.elevation@.len(),
        0 <= id < world.layers().len(),
    ensures
        ({
            let at = p.elevation@[i].0 as int;
            &&& world.layers()[at].surface == Surface::Land
            &&& p.elevation@[i].1 == ElevationWrite::Add(uplift[at])
            &&& uplift[at] > 0
        }),
        world.layers()[id].surface == Surface::Land && uplift[id] > 0 ==> p.elevation@.contains(
            (id as u32, ElevationWrite::Add(uplift[id])),
        ),
{
    let n = world.grid().count();
    lemma_writes(n, is_lifted(world, uplift), lift(uplift));
    assert(is_lifted(world, uplift)(p.elevation@[i].0 as int));
    if world.layers()[id].surface == Surface::Land && uplift[id] > 0 {
        lemma_written(n, is_lifted(world, uplift), lift(uplift), id);
    }
}

proof fn lemma_deepest(depths: Seq<i16>, centers: Seq<Axial>, c: Axial)
    ensures
        deepest(depths, centers, c) >= 0,
        forall|k: int|
            0 <= k < centers.len() ==> depth_at(depths, hex_distance(c, #[trigger] centers[k]))
                <= deepest(depths, centers, c),
        deepest(depths, centers, c) > 0 ==> exists|k: int|
            0 <= k < centers.len() && depth_at(depths, hex_distance(c, #[trigger] centers[k]))
                == deepest(depths, centers, c),
    decreases centers.len(),
{
    if centers.len() > 0 {
        let rest = centers.drop_last();
        lemma_deepest(depths, rest, c);
        assert forall|k: int| 0 <= k < centers.len() implies depth_at(
            depths,
            hex_distance(c, #[trigger] centers[k]),
        ) <= deepest(depths, centers, c) by {
            if k < rest.len() {
                assert(rest[k] == centers[k]);
            }
        }
        if deepest(depths, centers, c) > 0 {
            if deepest(depths, centers, c) == deepest(depths, rest, c) {
                let k = choose|k: int|
                    0 <= k < rest.len() && depth_at(depths, hex_distance(c, #[trigger] rest[k]))
                        == deepest(depths, rest, c);
                assert(centers[k] == rest[k]);
            } else {
                assert(centers[centers.len() - 1] == centers.last());
            }
        }
    }
}

/// Basins only ever lower land: by the depth that one of the centers has at that
/// distance, and no center has more there.
pub proof fn law_basins_lower_land(
    world: LayeredWorld,
    depths: Seq<i16>,
    centers: Seq<Axial>,
    p: WorldPatch,
    i: int,
    k: int,
)
    requires
        world.is_laid_out(),
        is_hollowed(world, depths, centers, p),
        0 <= i < p.elevation@.len(),
        0 <= k < centers.len(),
    ensures
        ({
            let at = p.elevation@[i].0 as int;
            let c = world.grid().place(at);
            let distance = hex_distance(c, centers[k]);
            let depth = -(p.elevation@[i].1->Add_0 as int);
            &&& world.layers()[at].surface == Surface::Land
            &&& p.elevation@[i].1 is Add
            &&& depth > 0
            &&& distance < depths.len() ==> depth >= depths[distance]
            &&& exists|l: int|
                0 <= l < centers.len() && hex_distance(c, #[trigger] centers[l]) < depths.len()
                    && depths[hex_distance(c, centers[l])] == depth
        }),
{
    let n = world.grid().count();
    lemma_writes(n, is_carved(world, depths, centers), carve(world, depths, centers));
    let at = p.elevation@[i].0 as int;
    let c = world.grid().place(at);
    assert(is_carved(world, depths, centers)(at));
    lemma_deepest(depths, centers, c);
    let l = choose|l: int|
        0 <= l < centers.len() && depth_at(depths, hex_distance(c, #[trigger] centers[l]))
            == deepest(depths, centers, c);
    assert(depth_at(depths, hex_distance(c, centers[l])) == deepest(depths, centers, c));
    assert(depth_at(depths, hex_distance(c, centers[k])) <= deepest(depths, centers, c));
}

/// A world has two to twelve mountain ranges, and as many as its size times its
/// density gives in between, and one to six basins, by its size alone. A basin is
/// wanted in the middle half of each side.
pub proof fn law_larger_worlds_have_more_relief(m: V2Manifest, side: int, draw: u64)
    requires
        m.grid().fits(),
        side > 0,
    ensures
        2 <= ranges(m) <= 12,
        ranges(m) > 2 ==> ranges(m) * 65_536 * 10_000 <= m.width * m.height
            * m.parameters.mountain_density_bps,
        ranges(m) < 12 ==> m.width * m.height * m.parameters.mountain_density_bps < (ranges(m) + 1)
            * 65_536 * 10_000,
        1 <= basins(m) <= 6,
        basins(m) > 1 ==> basins(m) * 147_456 <= m.width * m.height,
        basins(m) < 6 ==> m.width * m.height < (basins(m) + 1) * 147_456,
        side / 4 <= wanted_line(side, draw),
        side >= 2 ==> wanted_line(side, draw) < side / 4 + side / 2,
{
    assert(m.grid().count() >= 0) by (nonlinear_arith)
        requires
            m.grid().fits(),
            m.grid().count() == m.grid().width * m.grid().height,
    ;
    let n = m.grid().count() * m.parameters.mountain_density_bps;
    assert(n >= 0) by (nonlinear_arith)
        requires
            m.grid().count() >= 0,
            n == m.grid().count() * m.parameters.mountain_density_bps,
    ;
}

proof fn lemma_peak(elev: Seq<i16>, path: Seq<int>)
    ensures
        forall|k: int| 0 <= k < path.len() ==> elev[#[trigger] path[k]] <= peak(elev, path),
        path.len() > 0 ==> exists|k: int|
            0 <= k < path.len() && elev[#[trigger] path[k]] == peak(elev, path),
    decreases path.len(),
{
    if path.len() > 0 {
        let rest = path.skip(1);
        lemma_peak(elev, rest);
        assert forall|k: int| 0 <= k < path.len() implies elev[#[trigger] path[k]] <= peak(
            elev,
            path,
        ) by {
            if k > 0 {
                assert(rest[k - 1] == path[k]);
            }
        }
        if elev[path[0]] > peak(elev, rest) || rest.len() == 0 {
            assert(elev[path[0]] == peak(elev, path));
        } else {
            let k = choose|k: int|
                0 <= k < rest.len() && elev[#[trigger] rest[k]] == peak(elev, rest);
            assert(path[k + 1] == rest[k]);
        }
    }
}

/// Water stands as high as the lowest rim it must pass on its way to the sea: every
/// way there somewhere rises at least as high, and one way rises no higher.
pub proof fn law_water_spills_over_the_lowest_rim(
    g: Grid,
    elev: Seq<i16>,
    ocean: Seq<bool>,
    filled: Seq<i16>,
    id: int,
    path: Seq<int>,
)
    requires
        is_filled(g, elev, ocean, filled),
        0 <= id < g.count(),
        is_runoff(g, ocean, id, path),
    ensures
        exists|k: int| 0 <= k < path.len() && elev[#[trigger] path[k]] >= filled[id],
        exists|way: Seq<int>| #[trigger]
            is_runoff(g, ocean, id, way) && forall|k: int|
                0 <= k < way.len() ==> elev[#[trigger] way[k]] <= filled[id],
        filled[id] >= elev[id],
{
    assert(is_level(g, elev, ocean, id, filled[id] as int));
    lemma_peak(elev, path);
    assert(path.len() > 0);
    let k = choose|k: int| 0 <= k < path.len() && elev[#[trigger] path[k]] == peak(elev, path);
    assert(elev[path[k]] >= filled[id]);
    let way = choose|way: Seq<int>| #[trigger]
        is_runoff(g, ocean, id, way) && peak(elev, way) <= filled[id];
    lemma_peak(elev, way);
    assert(way[0] == id);
    assert(elev[way[0]] <= peak(elev, way));
}

} // verus!
