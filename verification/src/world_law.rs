//! What sound worlds are: how their layers agree, where rivers end, and that the
//! land hangs together.
use vstd::prelude::*;
use crate::climate_law::{lemma_writes, lemma_written};
use crate::coast::{always, bridge_height, is_mended, land_mask, Coast};
use crate::connectivity::{is_component_list, law_component_list_is_unique};
use crate::coord::Axial;
use crate::flood::linked;
use crate::front_law::is_earlier;
use crate::gameplay::is_mainland;
use crate::hydrology::bit;
use crate::island::{is_first_longest, is_largest_part, is_longest_part, standard_movement};
use crate::layers::{
    chunks_along, spec_fault, CellLayers, LayeredWorld, Surface, WorldSpec,
};
use crate::map::Cell;
use crate::patch::{how_many, ElevationWrite, WorldPatch};
use crate::world_check::{
    first_fault, is_first_passable, is_passable, is_reached, land_fault, layer_faults,
    passable_mask, reach_fault, river_fault, river_faults, start_fault, start_faults, world_fault,
};

verus! {

proof fn lemma_first_fault(n: int, fault: spec_fn(int) -> Option<Seq<char>>)
    ensures
        first_fault(n, fault) is None <==> forall|i: int|
            0 <= i < n ==> #[trigger] fault(i) is None,
    decreases n,
{
    if n > 0 {
        lemma_first_fault(n - 1, fault);
        if first_fault(n - 1, fault) is None && fault(n - 1) is None {
            assert forall|i: int| 0 <= i < n implies #[trigger] fault(i) is None by {
                if i < n - 1 {
                    assert(fault(i) is None);
                }
            }
        }
        if forall|i: int| 0 <= i < n ==> #[trigger] fault(i) is None {
            assert(fault(n - 1) is None);
        }
    }
}

/// Whether the layers of a cell agree: only lakes belong to a water body, rivers
/// run over land alone, and nothing but land can be crossed or taken, nor taken
/// without being crossed.
pub open spec fn layers_agree(cell: CellLayers) -> bool {
    &&& cell.surface == Surface::Lake <==> cell.water_body_id is Some
    &&& cell.river is Some ==> cell.surface == Surface::Land
    &&& cell.surface != Surface::Land ==> !cell.gameplay.passable && !cell.gameplay.capturable
    &&& cell.gameplay.capturable ==> cell.gameplay.passable
}

/// The layers of a world pass exactly when those of every cell agree.
pub proof fn law_sound_layers_agree(world: LayeredWorld)
    ensures
        first_fault(world.layers().len() as int, layer_faults(world)) is None <==> forall|id: int|
            0 <= id < world.layers().len() ==> layers_agree(#[trigger] world.layers()[id]),
        world_fault(world) is None ==> forall|id: int|
            0 <= id < world.layers().len() ==> layers_agree(#[trigger] world.layers()[id]),
{
    let n = world.layers().len() as int;
    let f = layer_faults(world);
    lemma_first_fault(n, f);
    assert forall|id: int| 0 <= id < n implies (f(id) is None <==> layers_agree(
        #[trigger] world.layers()[id],
    )) by {}
    if first_fault(n, f) is None {
        assert forall|id: int| 0 <= id < n implies layers_agree(#[trigger] world.layers()[id]) by {
            assert(f(id) is None);
        }
    }
    if forall|id: int| 0 <= id < n ==> layers_agree(#[trigger] world.layers()[id]) {
        assert forall|id: int| 0 <= id < n implies #[trigger] f(id) is None by {
            assert(layers_agree(world.layers()[id]));
        }
    }
}

/// In a sound world a river runs over land into a neighbouring cell: into open
/// water, or into a river that names it among its inflows and carries no less.
pub proof fn law_sound_rivers_run_on(world: LayeredWorld, id: int)
    requires
        world_fault(world) is None,
        0 <= id < world.layers().len(),
        world.layers()[id].river is Some,
    ensures
        ({
            let river = world.layers()[id].river.unwrap();
            let out = river.outflow.ordinal();
            &&& world.layers()[id].surface == Surface::Land
            &&& world.grid().beside(id, out) is Some
            &&& {
                let next = world.layers()[world.grid().beside(id, out).unwrap()];
                ||| next.surface != Surface::Land
                ||| next.river is Some && next.river.unwrap().inflow_mask & bit((out + 3) % 6) != 0
                    && next.river.unwrap().discharge >= river.discharge
            }
        }),
{
    let n = world.layers().len() as int;
    lemma_first_fault(n, river_faults(world));
    assert(river_faults(world)(id) is None);
    assert(river_fault(world, id) is None);
}

/// In a sound world every player has a start of their own, on land in the world
/// that can be taken and lived on.
pub proof fn law_sound_worlds_have_starts(world: LayeredWorld, i: int, j: int)
    requires
        world_fault(world) is None,
        0 <= j < i < world.manifest.spawn_cells@.len(),
    ensures
        ({
            let starts = world.manifest.spawn_cells@;
            let g = world.grid();
            &&& starts.len() == world.manifest.player_count
            &&& starts[i] != starts[j]
            &&& g.q_min <= starts[i].q < g.q_min + g.width
            &&& g.r_min <= starts[i].r < g.r_min + g.height
            &&& world.layers()[g.id(starts[i])].gameplay.capturable
            &&& world.layers()[g.id(starts[i])].gameplay.habitable
        }),
{
    let starts = world.manifest.spawn_cells@;
    lemma_first_fault(starts.len() as int, start_faults(world));
    assert(start_faults(world)(i) is None);
    assert(start_fault(world, starts[i]) is None);
}

/// Where one test passes only if another does, and both pass as often, they pass
/// alike.
proof fn lemma_same_count(n: int, f: spec_fn(int) -> bool, g: spec_fn(int) -> bool)
    requires
        forall|i: int| 0 <= i < n && #[trigger] f(i) ==> g(i),
    ensures
        how_many(n, f) <= how_many(n, g),
        how_many(n, f) == how_many(n, g) ==> forall|i: int|
            0 <= i < n && #[trigger] g(i) ==> f(i),
    decreases n,
{
    if n > 0 {
        lemma_same_count(n - 1, f, g);
        assert(f(n - 1) ==> g(n - 1));
    }
}

/// In a sound world there is land to walk on, and from any of it all of it can be
/// reached.
pub proof fn law_sound_land_hangs_together(world: LayeredWorld, a: int, b: int)
    requires
        world.is_laid_out(),
        world_fault(world) is None,
        0 <= a < world.layers().len(),
        0 <= b < world.layers().len(),
        world.layers()[a].gameplay.passable,
        world.layers()[b].gameplay.passable,
    ensures
        linked(
            world.grid(),
            Seq::new(
                world.layers().len(),
                |id: int| world.layers()[id].gameplay.passable,
            ),
            a,
            b,
        ),
        exists|id: int|
            0 <= id < world.layers().len() && (#[trigger] world.layers()[id]).gameplay.passable,
{
    let n = world.layers().len() as int;
    let mask = passable_mask(world);
    assert(mask =~= Seq::new(
        world.layers().len(),
        |id: int| world.layers()[id].gameplay.passable,
    ));
    assert(land_fault(world) is None);
    let from = choose|id: int| is_first_passable(world, id);
    assert(is_first_passable(world, from));
    assert(reach_fault(world, from) is None);
    let f = is_reached(world, from);
    let g = is_passable(world);
    let x = how_many(n, f) as int;
    let y = how_many(n, g) as int;
    assert(x == y);
    assert forall|i: int| 0 <= i < n && #[trigger] f(i) implies g(i) by {
        let path = choose|path: Seq<int>| #[trigger]
            crate::flood::is_path(world.grid(), mask, path) && path.first() == from && path.last()
                == i;
        assert(mask[path[path.len() - 1]]);
    }
    lemma_same_count(n, f, g);
    assert(g(a) && g(b));
    assert(f(a) && f(b));
    crate::flood::law_linked_is_an_equivalence(world.grid(), mask, from, a, b);
    crate::flood::law_linked_is_an_equivalence(world.grid(), mask, a, from, b);
}

/// Mending a coast raises bridges of height one, and only where there was no land.
/// The part that all others are joined to is a largest one, and a bridge is at
/// most as long as a macro cell is wide, or four cells.
pub proof fn law_coasts_are_mended_sparingly(
    world: LayeredWorld,
    coast: Coast,
    p: WorldPatch,
    i: int,
    k: int,
)
    requires
        world.is_laid_out(),
        is_mended(world, coast, p),
        0 <= i < p.elevation@.len(),
        0 <= k < coast.parts.len(),
    ensures
        ({
            let at = p.elevation@[i].0 as int;
            &&& 0 <= at < world.layers().len()
            &&& world.layers()[at].surface != Surface::Land
            &&& p.elevation@[i].1 == ElevationWrite::Assign(1)
            &&& p.surfaces@.contains((at as u32, Surface::Land))
        }),
        coast.parts[k].len() <= coast.parts[coast.main].len(),
        coast.reach >= 4,
        coast.reach >= world.manifest.macro_cell_size,
        coast.reach == 4 || coast.reach == world.manifest.macro_cell_size,
{
    let n = world.grid().count();
    let test = coast.bridges(land_mask(world));
    lemma_writes(n, test, bridge_height());
    let at = p.elevation@[i].0 as int;
    assert(test(at));
    lemma_written(n, test, always(Surface::Land), at);
    let raised = crate::patch::writes_where(n, test, always(Surface::Land));
    let x = choose|x: int| 0 <= x < raised.len() && raised[x] == (at as u32, Surface::Land);
    assert(p.surfaces@[x] == raised[x]);
}

/// An island with no landfall within the reach of a bridge sinks, every cell of it.
pub proof fn law_remote_islands_sink(
    world: LayeredWorld,
    coast: Coast,
    p: WorldPatch,
    k: int,
    i: int,
)
    requires
        world.is_laid_out(),
        is_mended(world, coast, p),
        0 <= k < coast.parts.len(),
        k != coast.main,
        0 <= i < coast.parts[k].len(),
        coast.parts[k][i] < world.layers().len(),
        forall|j: int| #[trigger]
            coast.is_landfall(k, j) ==> crate::flood::hops(
                coast.links,
                coast.parts[coast.main].len() as int,
                j,
            ) > coast.reach,
    ensures
        p.surfaces@.contains((coast.parts[k][i], Surface::Ocean)),
{
    let n = world.grid().count();
    let id = coast.parts[k][i] as int;
    assert forall|j: int| !#[trigger] coast.is_near(k, j) by {
        if coast.is_near(k, j) {
            assert(coast.is_landfall(k, j));
        }
    }
    assert(!coast.is_joined(k));
    assert(coast.parts[k].contains(id as u32));
    assert(coast.is_remote(coast.parts.len() as int, id));
    assert(coast.sinks()(id));
    lemma_written(n, coast.sinks(), always(Surface::Ocean), id);
    let raised = crate::patch::writes_where(
        n,
        coast.bridges(land_mask(world)),
        always(Surface::Land),
    );
    let sunk = crate::patch::writes_where(n, coast.sinks(), always(Surface::Ocean));
    let x = choose|x: int| 0 <= x < sunk.len() && sunk[x] == (id as u32, Surface::Ocean);
    assert(p.surfaces@[raised.len() + x] == sunk[x]);
}

/// A world can be made exactly of at least 24 by 24 cells, for two to 500 players,
/// with chunks and macro cells that have a size, at most all of it mountains,
/// lakes that have a depth, and cells that can be numbered.
pub proof fn law_sound_specs_are_in_range(s: WorldSpec)
    ensures
        spec_fault(s) is None <==> {
            &&& 24 <= s.width <= i32::MAX
            &&& 24 <= s.height <= i32::MAX
            &&& s.width * s.height < u32::MAX
            &&& 2 <= s.player_count <= 500
            &&& s.chunk_size > 0
            &&& s.macro_cell_size > 0
            &&& s.parameters.mountain_density_bps <= 10_000
            &&& s.parameters.lake_depth_threshold >= 1
        },
{
}

/// Chunks cover a side, and no fewer would.
pub proof fn law_chunks_cover_a_side(side: u32, size: u16)
    requires
        side > 0,
        size > 0,
    ensures
        chunks_along(side, size) * size >= side,
        (chunks_along(side, size) - 1) * size < side,
{
    let s = size as int;
    let n = side + size - 1;
    vstd::arithmetic::div_mod::lemma_fundamental_div_mod(n, s);
    vstd::arithmetic::div_mod::lemma_mod_bound(n, s);
    let q = n / s;
    assert(q * s >= side && (q - 1) * s < side) by (nonlinear_arith)
        requires
            n == s * q + n % s,
            0 <= n % s < s,
            n == side + s - 1,
    ;
}

/// The mainland is a largest part of the land, and of several the one that begins
/// last.
pub proof fn law_the_mainland_is_largest(
    world: LayeredWorld,
    parts: Seq<Seq<u32>>,
    k: int,
    l: int,
)
    requires
        is_mainland(world, parts, k),
        0 <= l < parts.len(),
    ensures
        parts[l].len() <= parts[k].len(),
        parts[l].len() == parts[k].len() ==> parts[l][0] <= parts[k][0],
{
    if k < l {
        assert(parts[l].len() < parts[k].len());
    }
    if l < k {
        assert(parts[l][0] < parts[k][0]);
    }
}

/// An island is a largest part of the ground that rises, and of several the one
/// with the earliest cell.
pub proof fn law_the_largest_part_is_kept(
    cells: Map<Axial, Cell>,
    region: Set<Axial>,
    list: Seq<Seq<Axial>>,
    part: Set<Axial>,
    i: int,
)
    requires
        is_component_list(cells, standard_movement(), region, list),
        is_largest_part(cells, region, part),
        0 <= i < list.len(),
    ensures
        part.finite(),
        list[i].len() <= part.len(),
        list[i].len() == part.len() ==> exists|c: Axial| #[trigger]
            part.contains(c) && (c == list[i][0] || is_earlier(c, list[i][0])),
        part.subset_of(region),
{
    let other = choose|other: Seq<Seq<Axial>>| #[trigger]
        is_component_list(cells, standard_movement(), region, other) && is_longest_part(
            other,
            part,
        );
    law_component_list_is_unique(cells, standard_movement(), region, list, other);
    let k = choose|k: int| #[trigger] is_first_longest(list, k) && part == list[k].to_set();
    vstd::seq_lib::seq_to_set_is_finite(list[k]);
    crate::axials::lemma_ascending_no_duplicates(list[k]);
    list[k].unique_seq_to_set();
    assert(list[k].contains(list[k][0]));
    assert(part.contains(list[k][0]));
    if i < k {
        assert(list[i].len() < list[k].len());
    }
    crate::island::lemma_part_is_land(cells, region, part);
}

} // verus!
