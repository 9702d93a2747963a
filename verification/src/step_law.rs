//! What the map means to those who move on it: when a step may be taken, what it
//! costs there and back, what routes add up to, and what hangs together.
use vstd::prelude::*;
use crate::axials::{lemma_ascending_no_duplicates, lemma_ordered, ordered};
use crate::connectivity::{connected, eligible, is_component_list, is_walk, joined, owned_by};
use crate::conquest::controlled_cells;
use crate::coord::{adjacent, hex_distance, Axial, HexEdge};
use crate::front_law::is_earlier;
use crate::map::{
    cell_fault, force_sum, map_force, step_cost, traversable, Cell, HexMap, LogisticsConfig,
    MovementConfig, PlayerId, TerrainKind, Traversal,
};
use crate::order::sum;
use crate::pathfinding::{is_best_path, law_best_route_is_cheapest, Path, Routing};
use crate::redistribution::constraint_fault;
use crate::transfer::{
    is_sound, plans, refuses, routing, PlanError, TransferPlan, TransferRequest,
};
use crate::transfer_law::law_legs_take_the_cheapest_way;

verus! {

/// A step can be taken both ways or neither way. Water is never entered or left,
/// nor is a slope taken that is steeper than the limit. The way up costs what
/// climbing costs, the way back what descending costs, and on the level both
/// cost the same.
pub proof fn law_steps_are_priced_by_their_slope(
    low: Cell,
    high: Cell,
    config: MovementConfig,
    up: Option<Traversal>,
    down: Option<Traversal>,
)
    requires
        low.elevation <= high.elevation,
        up is Some <==> traversable(low, high, config),
        down is Some <==> traversable(high, low, config),
        up matches Some(t) ==> t.cost == step_cost(low, high, config) && t.elevation_delta
            == high.elevation - low.elevation,
        down matches Some(t) ==> t.cost == step_cost(high, low, config) && t.elevation_delta
            == low.elevation - high.elevation,
    ensures
        up is Some <==> down is Some,
        up is Some <==> low.terrain != TerrainKind::Water && high.terrain != TerrainKind::Water
            && high.elevation - low.elevation <= config.max_elevation_step && adjacent(
            low.coordinate,
            high.coordinate,
        ),
        up is Some && low.elevation < high.elevation ==> {
            &&& up.unwrap().cost == config.uphill_cost
            &&& down.unwrap().cost == config.downhill_cost
            &&& up.unwrap().elevation_delta > 0
            &&& down.unwrap().elevation_delta < 0
        },
        up is Some && low.elevation == high.elevation ==> {
            &&& up.unwrap().cost == config.level_cost
            &&& down.unwrap().cost == config.level_cost
            &&& up.unwrap().elevation_delta == 0
            &&& down.unwrap().elevation_delta == 0
        },
{
    assert(adjacent(low.coordinate, high.coordinate) == adjacent(high.coordinate, low.coordinate));
}

/// Whether a way may lead from one place to another: to a neighbour, over dry
/// land, up or down no further than the limit, and not where entry is refused.
pub open spec fn paces(
    cells: Map<Axial, Cell>,
    movement: MovementConfig,
    enters: spec_fn(Cell) -> bool,
    from: Axial,
    to: Axial,
) -> bool {
    &&& cells.contains_key(from)
    &&& cells.contains_key(to)
    &&& enters(cells[to])
    &&& adjacent(from, to)
    &&& cells[from].terrain != TerrainKind::Water
    &&& cells[to].terrain != TerrainKind::Water
    &&& cells[to].elevation - cells[from].elevation <= movement.max_elevation_step
    &&& cells[from].elevation - cells[to].elevation <= movement.max_elevation_step
}

/// A way over the ground.
pub open spec fn walks(
    cells: Map<Axial, Cell>,
    movement: MovementConfig,
    enters: spec_fn(Cell) -> bool,
    p: Seq<Axial>,
) -> bool {
    &&& p.len() > 0
    &&& forall|i: int|
        0 <= i < p.len() - 1 ==> paces(cells, movement, enters, #[trigger] p[i], p[i + 1])
}

/// What each step of a way costs: the climbs, the descents and the level steps
/// each at their price.
pub open spec fn tolls_of(
    cells: Map<Axial, Cell>,
    movement: MovementConfig,
    p: Seq<Axial>,
) -> Seq<int> {
    Seq::new(
        (p.len() - 1) as nat,
        |i: int|
            {
                let rise = cells[p[i + 1]].elevation - cells[p[i]].elevation;
                if rise > 0 {
                    movement.uphill_cost as int
                } else if rise < 0 {
                    movement.downhill_cost as int
                } else {
                    movement.level_cost as int
                }
            },
    )
}

proof fn lemma_tolls(r: Routing, p: Seq<Axial>)
    requires
        p.len() > 0,
    ensures
        r.route_cost(p) == sum(tolls_of(r.cells, r.movement, p)),
    decreases p.len(),
{
    let t = tolls_of(r.cells, r.movement, p);
    if p.len() == 1 {
        assert(t.len() == 0);
    } else {
        lemma_tolls(r, p.drop_last());
        assert(t.drop_last() =~= tolls_of(r.cells, r.movement, p.drop_last()));
        assert(t.last() == r.link_cost(p[p.len() - 2], p[p.len() - 1]));
    }
}

proof fn lemma_paces(r: Routing, from: Axial, to: Axial)
    requires
        forall|c: Axial| #[trigger] r.cells.contains_key(c) ==> r.cells[c].coordinate == c,
    ensures
        r.linked(from, to) <==> paces(r.cells, r.movement, r.enters, from, to),
{
}

proof fn lemma_walks(r: Routing, p: Seq<Axial>)
    requires
        forall|c: Axial| #[trigger] r.cells.contains_key(c) ==> r.cells[c].coordinate == c,
    ensures
        r.is_route(p) <==> p.len() > 0 && p[0] == r.start && walks(
            r.cells,
            r.movement,
            r.enters,
            p,
        ),
{
    if p.len() > 0 && p[0] == r.start {
        if walks(r.cells, r.movement, r.enters, p) {
            assert forall|i: int| 0 <= i < p.len() - 1 implies r.linked(
                #[trigger] p[i],
                p[i + 1],
            ) by {
                lemma_paces(r, p[i], p[i + 1]);
            }
        }
        if r.is_route(p) {
            assert forall|i: int| 0 <= i < p.len() - 1 implies paces(
                r.cells,
                r.movement,
                r.enters,
                #[trigger] p[i],
                p[i + 1],
            ) by {
                lemma_paces(r, p[i], p[i + 1]);
            }
        }
    }
}

/// A path found leads over dry and admitted ground from start to goal, costs what
/// its steps add up to, and no way from start to goal adds up to less. No path is
/// found only where an end is missing or refused, or where every way costs more
/// than can be counted.
pub proof fn law_paths_are_the_cheapest_walks(r: Routing, path: Option<Path>)
    requires
        r.cells.dom().finite(),
        forall|c: Axial| #[trigger] r.cells.contains_key(c) ==> r.cells[c].coordinate == c,
        is_best_path(r, path),
    ensures
        path matches Some(found) ==> {
            let p = found.cells@;
            &&& walks(r.cells, r.movement, r.enters, p)
            &&& p[0] == r.start
            &&& p.last() == r.goal
            &&& r.cells.contains_key(r.start)
            &&& (r.enters)(r.cells[r.start])
            &&& found.total_cost == sum(tolls_of(r.cells, r.movement, p))
            &&& forall|o: Seq<Axial>| #[trigger]
                walks(r.cells, r.movement, r.enters, o) && o[0] == r.start && o.last() == r.goal
                    ==> found.total_cost <= sum(tolls_of(r.cells, r.movement, o))
        },
        path is None ==> {
            ||| !r.cells.contains_key(r.start)
            ||| !r.cells.contains_key(r.goal)
            ||| !(r.enters)(r.cells[r.start])
            ||| !(r.enters)(r.cells[r.goal])
            ||| forall|o: Seq<Axial>| #[trigger]
                walks(r.cells, r.movement, r.enters, o) && o[0] == r.start && o.last() == r.goal
                    ==> sum(tolls_of(r.cells, r.movement, o)) >= u64::MAX
        },
{
    law_best_route_is_cheapest(r);
    if let Some(found) = path {
        lemma_walks(r, found.cells@);
        lemma_tolls(r, found.cells@);
    }
    assert forall|o: Seq<Axial>|
        #[trigger] walks(r.cells, r.movement, r.enters, o) && o[0] == r.start && o.last()
            == r.goal implies r.is_route(o) && r.route_cost(o) == sum(
        tolls_of(r.cells, r.movement, o),
    ) by {
        lemma_walks(r, o);
        lemma_tolls(r, o);
    }
}

/// A cell is sound exactly when its force and its people fit, and water holds
/// nothing: nobody owns it, nobody can take it or live on it.
pub proof fn law_sound_cells_hold_what_fits(cell: Cell)
    ensures
        cell_fault(cell) is None <==> {
            &&& cell.forces.infantry <= cell.military_capacity
            &&& cell.civilian_population <= cell.civilian_capacity
            &&& cell.terrain == TerrainKind::Water ==> cell.forces.infantry == 0
                && cell.civilian_population == 0 && cell.military_capacity == 0
                && cell.civilian_capacity == 0 && cell.owner is None && !cell.capturable
                && !cell.habitable
        },
{
}

/// Admits cells of a selection.
pub open spec fn within(selection: Set<Axial>) -> spec_fn(Cell) -> bool {
    |cell: Cell| selection.contains(cell.coordinate)
}

/// Admits cells of a player.
pub open spec fn held_by(owner: PlayerId) -> spec_fn(Cell) -> bool {
    |cell: Cell| cell.owner == Some(owner)
}

proof fn lemma_joined_walk(
    cells: Map<Axial, Cell>,
    movement: MovementConfig,
    selection: Set<Axial>,
    p: Seq<Axial>,
)
    requires
        forall|c: Axial| #[trigger] cells.contains_key(c) ==> cells[c].coordinate == c,
        p.len() > 0,
        eligible(cells, selection).contains(p[0]),
    ensures
        is_walk(cells, movement, eligible(cells, selection), p) <==> walks(
            cells,
            movement,
            within(selection),
            p,
        ),
{
    let region = eligible(cells, selection);
    let enters = within(selection);
    if is_walk(cells, movement, region, p) {
        assert forall|i: int| 0 <= i < p.len() - 1 implies paces(
            cells,
            movement,
            enters,
            #[trigger] p[i],
            p[i + 1],
        ) by {
            assert(region.contains(p[i]) && region.contains(p[i + 1]));
            assert(joined(cells, movement, p[i], p[i + 1]));
        }
    }
    if walks(cells, movement, enters, p) {
        assert forall|i: int| 0 <= i < p.len() implies region.contains(#[trigger] p[i]) by {
            if i > 0 {
                assert(paces(cells, movement, enters, p[i - 1], p[i - 1 + 1]));
            }
        }
        assert forall|i: int| 0 <= i < p.len() - 1 implies joined(
            cells,
            movement,
            #[trigger] p[i],
            p[i + 1],
        ) by {
            assert(paces(cells, movement, enters, p[i], p[i + 1]));
        }
    }
}

/// Two selected dry cells are in one component exactly where a way over selected
/// ground leads from one to the other. Every such cell is in a component and
/// nothing else is; components, and the cells in each, come in their order.
pub proof fn law_components_are_what_can_be_walked(
    cells: Map<Axial, Cell>,
    movement: MovementConfig,
    selection: Set<Axial>,
    list: Seq<Seq<Axial>>,
    i: int,
    a: Axial,
    b: Axial,
)
    requires
        forall|c: Axial| #[trigger] cells.contains_key(c) ==> cells[c].coordinate == c,
        is_component_list(cells, movement, eligible(cells, selection), list),
        0 <= i < list.len(),
        list[i].contains(a),
        selection.contains(b) && cells.contains_key(b) && cells[b].terrain != TerrainKind::Water,
    ensures
        selection.contains(a) && cells.contains_key(a) && cells[a].terrain != TerrainKind::Water,
        list[i].contains(b) <==> exists|p: Seq<Axial>| #[trigger]
            walks(cells, movement, within(selection), p) && p[0]
                == a && p.last() == b,
        exists|j: int| 0 <= j < list.len() && (#[trigger] list[j]).contains(b),
        forall|j: int, k: int|
            0 <= j < k < list.len() ==> is_earlier((#[trigger] list[j])[0], (#[trigger] list[k])[0]),
        forall|j: int, k: int|
            0 <= j < k < list[i].len() ==> is_earlier(#[trigger] list[i][j], #[trigger] list[i][k]),
{
    let region = eligible(cells, selection);
    let enters = within(selection);
    assert(region.contains(a)) by {
        assert(exists|j: int| 0 <= j < list.len() && (#[trigger] list[j]).contains(a));
    }
    assert(region.contains(b));
    if list[i].contains(b) {
        let p = choose|p: Seq<Axial>| #[trigger]
            is_walk(cells, movement, region, p) && p[0] == a && p.last() == b;
        lemma_joined_walk(cells, movement, selection, p);
        assert(walks(cells, movement, enters, p));
    }
    if exists|p: Seq<Axial>| #[trigger]
        walks(cells, movement, enters, p) && p[0] == a && p.last() == b {
        let p = choose|p: Seq<Axial>| #[trigger]
            walks(cells, movement, enters, p) && p[0] == a && p.last() == b;
        lemma_joined_walk(cells, movement, selection, p);
        assert(connected(cells, movement, region, a, b));
    }
}

/// An edge has the limits that were set for it; any other has the throughput and
/// the frontage that all edges have.
pub proof fn law_edges_have_their_limits(map: HexMap, edge: HexEdge, config: LogisticsConfig)
    ensures
        map.overrides().contains_key(edge) ==> map.limits_of(edge, config)
            == map.overrides()[edge],
        !map.overrides().contains_key(edge) ==> map.limits_of(edge, config).throughput
            == config.default_edge_throughput && map.limits_of(edge, config).frontage
            == config.default_combat_frontage,
{
}

/// A leg leads over dry ground that its owner holds.
pub proof fn law_legs_stay_on_own_ground(
    cells: Map<Axial, Cell>,
    movement: MovementConfig,
    request: TransferRequest,
    plan: TransferPlan,
    i: int,
    k: int,
)
    requires
        cells.dom().finite(),
        forall|c: Axial| #[trigger] cells.contains_key(c) ==> cells[c].coordinate == c,
        is_sound(cells, request),
        plans(cells, movement, request, plan),
        0 <= i < plan.legs@.len(),
        0 <= k < plan.legs@[i].path.cells@.len(),
    ensures
        ({
            let p = plan.legs@[i].path.cells@;
            &&& cells.contains_key(p[k])
            &&& cells[p[k]].owner == Some(request.owner)
            &&& walks(cells, movement, held_by(request.owner), p)
            &&& plan.legs@[i].path.total_cost == sum(tolls_of(cells, movement, p))
        }),
{
    let leg = plan.legs@[i];
    let p = leg.path.cells@;
    law_legs_take_the_cheapest_way(cells, movement, request, plan, i);
    let r = routing(cells, movement, request.owner, leg.source, leg.destination);
    assert(r.is_route(p));
    lemma_walks(r, p);
    lemma_tolls(r, p);
    let enters = held_by(request.owner);
    assert forall|x: int| 0 <= x < p.len() - 1 implies paces(
        cells,
        movement,
        enters,
        #[trigger] p[x],
        p[x + 1],
    ) by {
        assert(paces(r.cells, r.movement, r.enters, p[x], p[x + 1]));
    }
    if k > 0 {
        assert(paces(cells, movement, enters, p[k - 1], p[k - 1 + 1]));
    } else {
        assert(request.sources@.to_set().contains(leg.source));
    }
}

/// A request can be planned exactly where it names soldiers, sources and
/// destinations, no cell as both, and only cells of the map that the owner holds.
pub proof fn law_sound_requests_name_own_cells(cells: Map<Axial, Cell>, request: TransferRequest)
    ensures
        is_sound(cells, request) <==> {
            &&& request.amount > 0
            &&& request.sources@.len() > 0
            &&& request.destinations@.len() > 0
            &&& forall|i: int|
                0 <= i < request.sources@.len() ==> cells.contains_key(
                    #[trigger] request.sources@[i],
                ) && cells[request.sources@[i]].owner == Some(request.owner)
            &&& forall|i: int|
                0 <= i < request.destinations@.len() ==> cells.contains_key(
                    #[trigger] request.destinations@[i],
                ) && cells[request.destinations@[i]].owner == Some(request.owner)
            &&& forall|i: int, j: int|
                0 <= i < request.sources@.len() && 0 <= j < request.destinations@.len()
                    ==> #[trigger] request.sources@[i] != #[trigger] request.destinations@[j]
        },
{
    let s = request.sources@;
    let d = request.destinations@;
    if is_sound(cells, request) {
        assert forall|i: int| 0 <= i < s.len() implies cells.contains_key(#[trigger] s[i])
            && cells[s[i]].owner == Some(request.owner) by {
            assert(s.to_set().contains(s[i]));
        }
        assert forall|i: int| 0 <= i < d.len() implies cells.contains_key(#[trigger] d[i])
            && cells[d[i]].owner == Some(request.owner) by {
            assert(d.to_set().contains(d[i]));
        }
        assert forall|i: int, j: int| 0 <= i < s.len() && 0 <= j < d.len() implies #[trigger] s[i]
            != #[trigger] d[j] by {
            assert(s.to_set().contains(s[i]));
            assert(d.to_set().contains(d[j]));
        }
    }
}

/// A cell can be given a share exactly where it is one of the owner's on the map,
/// holds no more than it can, and is to keep no more than it has.
pub proof fn law_cells_with_a_share_are_sound(
    cells: Map<Axial, Cell>,
    owner: PlayerId,
    lower_bound: u64,
    c: Axial,
)
    ensures
        constraint_fault(cells, owner, lower_bound, c) is None <==> {
            &&& cells.contains_key(c)
            &&& cells[c].owner == Some(owner)
            &&& lower_bound <= cells[c].forces.infantry <= cells[c].military_capacity
        },
{
}

/// A refusal names what is wrong: a cell that is named as both, one that is not on
/// the map, or one that somebody else holds, and none before it is wrong alike.
pub proof fn law_refusals_name_the_first_fault(
    cells: Map<Axial, Cell>,
    request: TransferRequest,
    error: PlanError,
    d: Axial,
)
    requires
        refuses(cells, request, error),
    ensures
        match error {
            PlanError::EmptySources => request.sources@.len() == 0,
            PlanError::EmptyDestinations => request.destinations@.len() == 0,
            PlanError::ZeroAmount => request.amount == 0,
            PlanError::OverlappingSelections(c) => {
                &&& request.sources@.contains(c) && request.destinations@.contains(c)
                &&& is_earlier(d, c) ==> !request.sources@.contains(d)
                    || !request.destinations@.contains(d)
            },
            PlanError::UnknownSource(c) => {
                &&& request.sources@.contains(c) && !cells.contains_key(c)
                &&& is_earlier(d, c) && request.sources@.contains(d) ==> cells.contains_key(d)
            },
            PlanError::SourceNotOwned(c) => {
                &&& request.sources@.contains(c) && cells.contains_key(c)
                &&& cells[c].owner != Some(request.owner)
                &&& is_earlier(d, c) && request.sources@.contains(d) ==> cells[d].owner == Some(
                    request.owner,
                )
            },
            PlanError::UnknownDestination(c) => {
                &&& request.destinations@.contains(c) && !cells.contains_key(c)
                &&& is_earlier(d, c) && request.destinations@.contains(d) ==> cells.contains_key(d)
            },
            PlanError::DestinationNotOwned(c) => {
                &&& request.destinations@.contains(c) && cells.contains_key(c)
                &&& cells[c].owner != Some(request.owner)
                &&& is_earlier(d, c) && request.destinations@.contains(d) ==> cells[d].owner
                    == Some(request.owner)
            },
        },
{
    assert(request.sources@.to_set().contains(d) == request.sources@.contains(d));
    assert(request.destinations@.to_set().contains(d) == request.destinations@.contains(d));
}

/// The six directions go round: each leads to a cell of its own, from which the
/// opposite one leads back, and neighbouring directions lead to neighbouring cells.
pub proof fn law_directions_go_round(c: Axial, d: int)
    requires
        c.interior(),
        0 <= d < 6,
    ensures
        adjacent(c, c.step(d)),
        adjacent(c.step(d), c.step((d + 1) % 6)),
        !adjacent(c.step(d), c.step((d + 2) % 6)),
        !adjacent(c.step(d), c.step((d + 3) % 6)),
        c.step(d).step((d + 3) % 6) == c,
        forall|e: int| 0 <= e < 6 && e != d ==> #[trigger] c.step(e) != c.step(d),
        c.step(0).q == c.q + 1 && c.step(0).r == c.r,
{
}

/// The distance is the fewest steps: no step changes it by more than one, and as
/// long as there is any, some step takes one off.
pub proof fn law_distance_is_the_fewest_steps(a: Axial, b: Axial, d: int)
    requires
        a.interior(),
        0 <= d < 6,
    ensures
        hex_distance(a, b) - 1 <= hex_distance(a.step(d), b) <= hex_distance(a, b) + 1,
        hex_distance(a, b) == 0 <==> a == b,
        a != b ==> exists|e: int|
            0 <= e < 6 && hex_distance(#[trigger] a.step(e), b) == hex_distance(a, b) - 1,
{
    let x = b.q - a.q;
    let y = b.r - a.r;
    if a != b {
        if x > 0 && y < 0 {
            assert(hex_distance(a.step(1), b) == hex_distance(a, b) - 1);
        } else if x < 0 && y > 0 {
            assert(hex_distance(a.step(4), b) == hex_distance(a, b) - 1);
        } else if x > 0 {
            assert(hex_distance(a.step(0), b) == hex_distance(a, b) - 1);
        } else if x < 0 {
            assert(hex_distance(a.step(3), b) == hex_distance(a, b) - 1);
        } else if y > 0 {
            assert(hex_distance(a.step(5), b) == hex_distance(a, b) - 1);
        } else {
            assert(hex_distance(a.step(2), b) == hex_distance(a, b) - 1);
        }
    }
}

/// The force on a map is what stands on its cells, each counted once.
pub proof fn law_map_force_adds_up(cells: Map<Axial, Cell>)
    requires
        cells.dom().finite(),
    ensures
        ({
            let keys = ordered(cells.dom());
            &&& map_force(cells) == sum(
                Seq::new(keys.len(), |i: int| cells[keys[i]].forces.infantry as int),
            )
            &&& keys.no_duplicates()
            &&& forall|c: Axial| #[trigger] keys.contains(c) <==> cells.contains_key(c)
        }),
{
    let keys = ordered(cells.dom());
    lemma_ordered(cells.dom());
    lemma_ascending_no_duplicates(keys);
    lemma_force_sum(cells, keys);
    assert forall|c: Axial| #[trigger] keys.contains(c) <==> cells.contains_key(c) by {
        assert(keys.to_set().contains(c) <==> cells.dom().contains(c));
    }
}

proof fn lemma_force_sum(cells: Map<Axial, Cell>, keys: Seq<Axial>)
    ensures
        force_sum(cells, keys) == sum(
            Seq::new(keys.len(), |i: int| cells[keys[i]].forces.infantry as int),
        ),
    decreases keys.len(),
{
    let s = Seq::new(keys.len(), |i: int| cells[keys[i]].forces.infantry as int);
    if keys.len() > 0 {
        let rest = keys.drop_last();
        lemma_force_sum(cells, rest);
        assert(s.drop_last() =~= Seq::new(
            rest.len(),
            |i: int| cells[rest[i]].forces.infantry as int,
        ));
    }
}

/// A player controls the capturable cells that they own, and what they own is what
/// says so.
pub proof fn law_control_is_ownership(cells: Map<Axial, Cell>, player: PlayerId, c: Axial)
    requires
        forall|k: Axial| #[trigger] cells.contains_key(k) ==> cells[k].coordinate == k,
    ensures
        controlled_cells(cells, player).contains(c) <==> cells.contains_key(c)
            && cells[c].capturable && cells[c].owner == Some(player),
        owned_by(cells, player).contains(c) <==> cells.contains_key(c) && cells[c].owner == Some(
            player,
        ),
{
}

} // verus!
