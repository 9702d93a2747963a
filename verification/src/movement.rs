//! One simultaneous step of friendly movement.
use vstd::prelude::*;
use std::collections::BTreeMap;
use crate::axials::{
    ascending, lemma_ascending_no_duplicates, lemma_ordered_is, ordered, AxialMap, AxialSet, EdgeMap,
};
use crate::combat::least;
use crate::coord::{adjacent, edge_of, Axial, HexEdge};
use crate::map::{
    force_sum, ground_traversal, map_force, traversable, Cell, ForceComposition, HexMap,
    LogisticsConfig, MovementConfig, PlayerId, Strength,
};
use crate::order::{
    ints, is_order, key_before, lemma_sum_add, lemma_sum_bounds, lemma_sum_le, lemma_sum_push,
    lemma_sum_update, lemma_sum_zeros, look, put, stable_order, sum,
};

verus! {

#[derive(Clone, Copy, Debug, Eq, PartialEq, Structural)]
pub struct MovementIntent {
    pub id: u64,
    /// Lower values are served first. ID is the stable tie-break.
    pub priority: u32,
    pub owner: PlayerId,
    pub from: Axial,
    pub to: Axial,
    pub requested: Strength,
}

#[derive(Clone, Copy, Debug, Eq, Ord, PartialEq, PartialOrd, Structural)]
pub enum MovementLimit {
    ZeroRequest,
    MissingSource,
    MissingDestination,
    NonAdjacent,
    Impassable,
    SourceNotOwned,
    DestinationNotOwned,
    SourceStrength,
    EdgeThroughput,
    DestinationCapacity,
}

#[derive(Clone, Debug, Eq, PartialEq)]
pub struct MovementOutcome {
    pub intent_id: u64,
    pub requested: Strength,
    pub approved: Strength,
    /// What held the intent back, each limit once, in ascending order.
    pub limits: Vec<MovementLimit>,
}

#[derive(Clone, Copy, Debug, Eq, PartialEq, Structural)]
pub enum MovementError {
    DuplicateIntentId(u64),
    CellOverCapacity(Axial),
    ArithmeticOverflow,
}

#[derive(Clone, Debug, Eq, PartialEq)]
pub struct MovementStep {
    pub outcomes: BTreeMap<u64, MovementOutcome>,
    /// Sum crossing edges this step. This is not a unique-unit count when a
    /// pipeline contains multiple independently occupied cells.
    pub moved_total: Strength,
    pub strength_before: Strength,
    pub strength_after: Strength,
}

/// Whether one intent is served before another.
pub open spec fn served_before(a: MovementIntent, b: MovementIntent) -> bool {
    a.priority < b.priority || (a.priority == b.priority && a.id < b.id)
}

/// The intents in the order in which they are served.
pub open spec fn is_service_order(
    intents: Seq<MovementIntent>,
    order: Seq<MovementIntent>,
) -> bool {
    &&& forall|i: int, j: int|
        0 <= i < j < order.len() ==> served_before(#[trigger] order[i], #[trigger] order[j])
    &&& order.to_set() == intents.to_set()
}

/// The rule that rules an intent out altogether, if one does.
pub open spec fn fault(
    cells: Map<Axial, Cell>,
    movement: MovementConfig,
    intent: MovementIntent,
) -> Option<MovementLimit> {
    if intent.requested == 0 {
        Some(MovementLimit::ZeroRequest)
    } else if !cells.contains_key(intent.from) {
        Some(MovementLimit::MissingSource)
    } else if !cells.contains_key(intent.to) {
        Some(MovementLimit::MissingDestination)
    } else if !adjacent(intent.from, intent.to) {
        Some(MovementLimit::NonAdjacent)
    } else if cells[intent.from].owner != Some(intent.owner) {
        Some(MovementLimit::SourceNotOwned)
    } else if cells[intent.to].owner != Some(intent.owner) {
        Some(MovementLimit::DestinationNotOwned)
    } else if !traversable(cells[intent.from], cells[intent.to], movement) {
        Some(MovementLimit::Impassable)
    } else {
        None
    }
}

/// The amounts whose end is a given cell, and nothing in the other places.
pub open spec fn flow_terms(ends: Seq<Axial>, amounts: Seq<int>, c: Axial) -> Seq<int> {
    Seq::new(
        ends.len(),
        |i: int|
            if ends[i] == c {
                amounts[i]
            } else {
                0
            },
    )
}

/// The sum of the amounts whose end is a given cell.
pub open spec fn flow_at(ends: Seq<Axial>, amounts: Seq<int>, c: Axial) -> int {
    sum(flow_terms(ends, amounts, c))
}

pub open spec fn sources(order: Seq<MovementIntent>) -> Seq<Axial> {
    Seq::new(order.len(), |i: int| order[i].from)
}

pub open spec fn destinations(order: Seq<MovementIntent>) -> Seq<Axial> {
    Seq::new(order.len(), |i: int| order[i].to)
}

/// What leaves a cell.
pub open spec fn outflow(order: Seq<MovementIntent>, amounts: Seq<int>, c: Axial) -> int {
    flow_at(sources(order), amounts, c)
}

/// What enters a cell.
pub open spec fn inflow(order: Seq<MovementIntent>, amounts: Seq<int>, c: Axial) -> int {
    flow_at(destinations(order), amounts, c)
}

pub open spec fn edge_terms(
    order: Seq<MovementIntent>,
    amounts: Seq<int>,
    e: HexEdge,
) -> Seq<int> {
    Seq::new(
        order.len(),
        |i: int|
            if edge_of(order[i].from, order[i].to) == e {
                amounts[i]
            } else {
                0
            },
    )
}

/// What crosses an edge, in either direction.
pub open spec fn edge_flow(order: Seq<MovementIntent>, amounts: Seq<int>, e: HexEdge) -> int {
    sum(edge_terms(order, amounts, e))
}

/// What is left at the source of the next intent after the earlier grants.
pub open spec fn source_left(
    cells: Map<Axial, Cell>,
    served: Seq<MovementIntent>,
    granted: Seq<int>,
    intent: MovementIntent,
) -> int {
    cells[intent.from].forces.infantry - outflow(served, granted, intent.from)
}

/// What is left of the throughput of the edge of the next intent after the
/// earlier grants.
pub open spec fn edge_left(
    map: HexMap,
    logistics: LogisticsConfig,
    served: Seq<MovementIntent>,
    granted: Seq<int>,
    intent: MovementIntent,
) -> int {
    let e = edge_of(intent.from, intent.to);
    map.limits_of(e, logistics).throughput - edge_flow(served, granted, e)
}

/// What sources and edges allow each intent, in the order of service.
pub open spec fn grants(
    map: HexMap,
    movement: MovementConfig,
    logistics: LogisticsConfig,
    order: Seq<MovementIntent>,
) -> Seq<int>
    decreases order.len(),
{
    if order.len() == 0 {
        Seq::empty()
    } else {
        let served = order.drop_last();
        let earlier = grants(map, movement, logistics, served);
        let intent = order.last();
        earlier.push(
            if fault(map@, movement, intent) is Some {
                0
            } else {
                least(
                    least(
                        intent.requested as int,
                        source_left(map@, served, earlier, intent),
                    ),
                    edge_left(map, logistics, served, earlier, intent),
                )
            },
        )
    }
}

/// The force on a cell after the flows.
pub open spec fn force_after(
    cells: Map<Axial, Cell>,
    order: Seq<MovementIntent>,
    amounts: Seq<int>,
    c: Axial,
) -> int {
    cells[c].forces.infantry + inflow(order, amounts, c) - outflow(order, amounts, c)
}

/// Flows within the grants that fill no cell beyond its capacity, and in which
/// a flow that is cut back makes every later-served flow into the same cell
/// yield completely.
pub open spec fn is_tolerable(
    cells: Map<Axial, Cell>,
    order: Seq<MovementIntent>,
    granted: Seq<int>,
    amounts: Seq<int>,
) -> bool {
    &&& amounts.len() == order.len()
    &&& forall|i: int| 0 <= i < order.len() ==> 0 <= #[trigger] amounts[i] <= granted[i]
    &&& forall|c: Axial| #[trigger]
        cells.contains_key(c) ==> force_after(cells, order, amounts, c)
            <= cells[c].military_capacity
    &&& yields_in_order(order, granted, amounts)
}

/// Later-served flows into a cell yield first.
pub open spec fn yields_in_order(
    order: Seq<MovementIntent>,
    granted: Seq<int>,
    amounts: Seq<int>,
) -> bool {
    forall|i: int, j: int|
        #![trigger amounts[i], amounts[j]]
        0 <= i < j < order.len() && order[i].to == order[j].to && amounts[i] < granted[i]
            ==> amounts[j] == 0
}

/// The greatest tolerable flows. A flow that is cut back leaves its destination
/// exactly full.
pub open spec fn is_settlement(
    cells: Map<Axial, Cell>,
    order: Seq<MovementIntent>,
    granted: Seq<int>,
    amounts: Seq<int>,
) -> bool {
    &&& is_tolerable(cells, order, granted, amounts)
    &&& forall|i: int|
        0 <= i < order.len() && (#[trigger] amounts[i]) < granted[i] ==> force_after(
            cells,
            order,
            amounts,
            order[i].to,
        ) == cells[order[i].to].military_capacity
    &&& forall|other: Seq<int>, i: int|
        #![trigger is_tolerable(cells, order, granted, other), other[i]]
        is_tolerable(cells, order, granted, other) && 0 <= i < order.len() ==> other[i]
            <= amounts[i]
}

/// The greatest tolerable flows are unique.
pub proof fn law_settlement_is_unique(
    cells: Map<Axial, Cell>,
    order: Seq<MovementIntent>,
    granted: Seq<int>,
    a: Seq<int>,
    b: Seq<int>,
)
    requires
        is_settlement(cells, order, granted, a),
        is_settlement(cells, order, granted, b),
    ensures
        a == b,
{
    assert forall|i: int| 0 <= i < order.len() implies a[i] == b[i] by {
        assert(b[i] <= a[i]);
        assert(a[i] <= b[i]);
    }
    assert(a =~= b);
}

/// The limits that are reported for an intent, in ascending order.
pub open spec fn limits_of(
    map: HexMap,
    movement: MovementConfig,
    logistics: LogisticsConfig,
    order: Seq<MovementIntent>,
    amounts: Seq<int>,
    k: int,
) -> Seq<MovementLimit> {
    let granted = grants(map, movement, logistics, order);
    let served = order.take(k);
    let earlier = granted.take(k);
    match fault(map@, movement, order[k]) {
        Some(limit) => seq![limit],
        None => {
            let source = if source_left(map@, served, earlier, order[k]) < order[k].requested {
                seq![MovementLimit::SourceStrength]
            } else {
                Seq::empty()
            };
            let edge = if edge_left(map, logistics, served, earlier, order[k])
                < order[k].requested {
                seq![MovementLimit::EdgeThroughput]
            } else {
                Seq::empty()
            };
            let capacity = if amounts[k] < granted[k] {
                seq![MovementLimit::DestinationCapacity]
            } else {
                Seq::empty()
            };
            source + edge + capacity
        },
    }
}

/// A cell with another force on it.
pub open spec fn with_force(cell: Cell, force: int) -> Cell {
    Cell { forces: ForceComposition { infantry: force as u64 }, ..cell }
}

/// The outcome of a step: what each intent got and how the map changed.
pub open spec fn is_step(
    before: HexMap,
    after: HexMap,
    intents: Seq<MovementIntent>,
    movement: MovementConfig,
    logistics: LogisticsConfig,
    order: Seq<MovementIntent>,
    amounts: Seq<int>,
    step: MovementStep,
) -> bool {
    &&& is_service_order(intents, order)
    &&& is_settlement(before@, order, grants(before, movement, logistics, order), amounts)
    &&& after@.dom() == before@.dom()
    &&& forall|c: Axial| #[trigger]
        before@.contains_key(c) ==> after@[c] == with_force(
            before@[c],
            force_after(before@, order, amounts, c),
        ) && 0 <= force_after(before@, order, amounts, c) <= u64::MAX
    &&& after.overrides() == before.overrides()
    &&& forall|id: u64| #[trigger]
        step.outcomes@.contains_key(id) <==> exists|k: int|
            0 <= k < order.len() && (#[trigger] order[k]).id == id
    &&& forall|k: int|
        0 <= k < order.len() ==> {
            let o = step.outcomes@[(#[trigger] order[k]).id];
            &&& o.intent_id == order[k].id
            &&& o.requested == order[k].requested
            &&& o.approved == amounts[k]
            &&& o.limits@ == limits_of(before, movement, logistics, order, amounts, k)
        }
    &&& step.moved_total == sum(amounts)
    &&& step.strength_before == map_force(before@)
    &&& step.strength_after == map_force(after@)
    &&& step.strength_after == step.strength_before
}

/// Whether a step is the one that the rules prescribe.
pub open spec fn steps_to(
    before: HexMap,
    after: HexMap,
    intents: Seq<MovementIntent>,
    movement: MovementConfig,
    logistics: LogisticsConfig,
    step: MovementStep,
) -> bool {
    exists|order: Seq<MovementIntent>, amounts: Seq<int>| #[trigger]
        is_step(before, after, intents, movement, logistics, order, amounts, step)
}

/// Whether an ID occurs for the second time at an index, and no ID earlier.
pub open spec fn first_repeat(intents: Seq<MovementIntent>, k: int) -> bool {
    &&& 0 <= k < intents.len()
    &&& repeats(intents, k)
    &&& forall|j: int| 0 <= j < k ==> !#[trigger] repeats(intents, j)
}

/// Whether an earlier intent has the same ID.
pub open spec fn repeats(intents: Seq<MovementIntent>, k: int) -> bool {
    exists|j: int| 0 <= j < k && (#[trigger] intents[j]).id == intents[k].id
}

/// Whether all IDs differ.
pub open spec fn ids_differ(intents: Seq<MovementIntent>) -> bool {
    forall|k: int| 0 <= k < intents.len() ==> !#[trigger] repeats(intents, k)
}

/// Whether a cell holds more than its capacity.
pub open spec fn overfull(cells: Map<Axial, Cell>, c: Axial) -> bool {
    cells[c].forces.infantry > cells[c].military_capacity
}

/// Whether the cell at a place of the ascending order is overfull, and none
/// before it.
pub open spec fn first_overfull(cells: Map<Axial, Cell>, i: int) -> bool {
    let keys = ordered(cells.dom());
    &&& 0 <= i < keys.len()
    &&& overfull(cells, keys[i])
    &&& forall|j: int|
        #![trigger ordered(cells.dom())[j]]
        0 <= j < i ==> !overfull(cells, ordered(cells.dom())[j])
}

proof fn lemma_flow_push(ends: Seq<Axial>, amounts: Seq<int>, e: Axial, x: int, c: Axial)
    requires
        ends.len() == amounts.len(),
    ensures
        flow_at(ends.push(e), amounts.push(x), c) == flow_at(ends, amounts, c) + if e == c {
            x
        } else {
            0
        },
{
    let s = flow_terms(ends, amounts, c);
    let t = flow_terms(ends.push(e), amounts.push(x), c);
    assert(t =~= s.push(
        if e == c {
            x
        } else {
            0
        },
    ));
    lemma_sum_push(
        s,
        if e == c {
            x
        } else {
            0
        },
    );
}

proof fn lemma_flow_update(ends: Seq<Axial>, amounts: Seq<int>, i: int, x: int, c: Axial)
    requires
        ends.len() == amounts.len(),
        0 <= i < ends.len(),
    ensures
        flow_at(ends, amounts.update(i, x), c) == flow_at(ends, amounts, c) + if ends[i] == c {
            x - amounts[i]
        } else {
            0
        },
{
    let s = flow_terms(ends, amounts, c);
    let t = flow_terms(ends, amounts.update(i, x), c);
    let y = if ends[i] == c {
        x
    } else {
        0
    };
    assert(t =~= s.update(i, y));
    lemma_sum_update(s, i, y);
}

/// Greater amounts make greater flows.
proof fn lemma_flow_le(ends: Seq<Axial>, a: Seq<int>, b: Seq<int>, c: Axial)
    requires
        ends.len() == a.len() == b.len(),
        forall|i: int| 0 <= i < a.len() ==> 0 <= #[trigger] a[i] <= b[i],
    ensures
        0 <= flow_at(ends, a, c) <= flow_at(ends, b, c),
        flow_at(ends, b, c) <= sum(b),
{
    let s = flow_terms(ends, a, c);
    let t = flow_terms(ends, b, c);
    assert forall|i: int| 0 <= i < s.len() implies #[trigger] s[i] <= t[i] && 0 <= s[i] by {
        assert(0 <= a[i] <= b[i]);
    }
    assert forall|i: int| 0 <= i < t.len() implies #[trigger] t[i] <= b[i] by {
        assert(0 <= a[i] <= b[i]);
    }
    lemma_sum_le(s, t);
    lemma_sum_le(t, b);
    lemma_sum_bounds(s, 0);
}

/// The flows of all cells add up to the sum of the amounts.
proof fn lemma_flow_total(keys: Seq<Axial>, ends: Seq<Axial>, amounts: Seq<int>)
    requires
        ends.len() == amounts.len(),
        keys.no_duplicates(),
        forall|i: int|
            0 <= i < ends.len() && (#[trigger] amounts[i]) != 0 ==> keys.contains(ends[i]),
    ensures
        sum(Seq::new(keys.len(), |x: int| flow_at(ends, amounts, keys[x]))) == sum(amounts),
    decreases ends.len(),
{
    let totals = Seq::new(keys.len(), |x: int| flow_at(ends, amounts, keys[x]));
    if ends.len() == 0 {
        assert forall|x: int| 0 <= x < totals.len() implies #[trigger] totals[x] == 0 by {}
        lemma_sum_zeros(totals);
    } else {
        let e = ends.last();
        let y = amounts.last();
        let ends1 = ends.drop_last();
        let amounts1 = amounts.drop_last();
        assert forall|i: int| 0 <= i < ends1.len() && (#[trigger] amounts1[i])
            != 0 implies keys.contains(ends1[i]) by {
            assert(amounts[i] != 0);
        }
        lemma_flow_total(keys, ends1, amounts1);
        let totals1 = Seq::new(keys.len(), |x: int| flow_at(ends1, amounts1, keys[x]));
        assert(ends =~= ends1.push(e));
        assert(amounts =~= amounts1.push(y));
        assert forall|x: int| 0 <= x < keys.len() implies #[trigger] totals[x] == totals1[x] + if e
            == keys[x] {
            y
        } else {
            0
        } by {
            lemma_flow_push(ends1, amounts1, e, y, keys[x]);
        }
        if y == 0 {
            assert(totals =~= totals1);
        } else {
            assert(amounts[amounts.len() - 1] != 0);
            assert(keys.contains(e));
            let p = choose|p: int| 0 <= p < keys.len() && keys[p] == e;
            assert(totals =~= totals1.update(p, totals1[p] + y));
            lemma_sum_update(totals1, p, totals1[p] + y);
        }
    }
}

/// The force of the map as a sum over its cells.
proof fn lemma_force_is_sum(cells: Map<Axial, Cell>, keys: Seq<Axial>)
    ensures
        force_sum(cells, keys) == sum(
            Seq::new(keys.len(), |x: int| cells[keys[x]].forces.infantry as int),
        ),
    decreases keys.len(),
{
    let s = Seq::new(keys.len(), |x: int| cells[keys[x]].forces.infantry as int);
    if keys.len() > 0 {
        let k1 = keys.drop_last();
        lemma_force_is_sum(cells, k1);
        assert(s.drop_last() =~= Seq::new(k1.len(), |x: int| cells[k1[x]].forces.infantry as int));
    }
}

/// What holds of the grants.
pub proof fn lemma_grants(
    map: HexMap,
    movement: MovementConfig,
    logistics: LogisticsConfig,
    order: Seq<MovementIntent>,
)
    ensures
        grants(map, movement, logistics, order).len() == order.len(),
        forall|i: int|
            0 <= i < order.len() ==> 0 <= #[trigger] grants(map, movement, logistics, order)[i]
                <= order[i].requested,
        forall|i: int|
            0 <= i < order.len() && #[trigger] grants(map, movement, logistics, order)[i] > 0
                ==> fault(map@, movement, order[i]) is None,
        forall|c: Axial| #[trigger]
            map@.contains_key(c) ==> outflow(order, grants(map, movement, logistics, order), c)
                <= map@[c].forces.infantry,
        forall|e: HexEdge|
            #![trigger map.limits_of(e, logistics)]
            edge_flow(order, grants(map, movement, logistics, order), e) <= map.limits_of(
                e,
                logistics,
            ).throughput,
    decreases order.len(),
{
    let g = grants(map, movement, logistics, order);
    if order.len() == 0 {
        assert forall|e: HexEdge|
            #![trigger map.limits_of(e, logistics)]
            edge_flow(order, g, e) <= map.limits_of(e, logistics).throughput by {}
    } else {
        let served = order.drop_last();
        let intent = order.last();
        lemma_grants(map, movement, logistics, served);
        let earlier = grants(map, movement, logistics, served);
        let own = edge_of(intent.from, intent.to);
        assert(edge_flow(served, earlier, own) <= map.limits_of(own, logistics).throughput);
        assert(fault(map@, movement, intent) is None ==> map@.contains_key(intent.from));
        assert(0 <= g.last() <= intent.requested);
        assert forall|i: int| 0 <= i < order.len() implies 0 <= #[trigger] g[i]
            <= order[i].requested by {
            if i < served.len() {
                assert(g[i] == earlier[i]);
                assert(served[i] == order[i]);
            }
        }
        assert forall|i: int| 0 <= i < order.len() && #[trigger] g[i] > 0 implies fault(
            map@,
            movement,
            order[i],
        ) is None by {
            if i < served.len() {
                assert(g[i] == earlier[i]);
                assert(served[i] == order[i]);
            }
        }
        assert forall|c: Axial| #[trigger] map@.contains_key(c) implies outflow(order, g, c)
            <= map@[c].forces.infantry by {
            assert(sources(order) =~= sources(served).push(intent.from));
            lemma_flow_push(sources(served), earlier, intent.from, g.last(), c);
            assert(outflow(served, earlier, c) <= map@[c].forces.infantry);
        }
        assert forall|e: HexEdge|
            #![trigger map.limits_of(e, logistics)]
            edge_flow(order, g, e) <= map.limits_of(e, logistics).throughput by {
            lemma_edge_flow_push(served, earlier, intent, g.last(), e);
            assert(order =~= served.push(intent));
            assert(g =~= earlier.push(g.last()));
            assert(edge_flow(served, earlier, e) <= map.limits_of(e, logistics).throughput);
        }
    }
}

proof fn lemma_edge_flow_push(
    order: Seq<MovementIntent>,
    amounts: Seq<int>,
    intent: MovementIntent,
    x: int,
    e: HexEdge,
)
    requires
        order.len() == amounts.len(),
    ensures
        edge_flow(order.push(intent), amounts.push(x), e) == edge_flow(order, amounts, e)
            + if edge_of(intent.from, intent.to) == e {
            x
        } else {
            0
        },
{
    let y = if edge_of(intent.from, intent.to) == e {
        x
    } else {
        0
    };
    let s = edge_terms(order, amounts, e);
    let t = edge_terms(order.push(intent), amounts.push(x), e);
    assert(t =~= s.push(y));
    lemma_sum_push(s, y);
}

/// The grants of the first intents do not depend on the later ones.
pub proof fn lemma_grants_prefix(
    map: HexMap,
    movement: MovementConfig,
    logistics: LogisticsConfig,
    order: Seq<MovementIntent>,
    k: int,
)
    requires
        0 <= k <= order.len(),
    ensures
        grants(map, movement, logistics, order).take(k) == grants(
            map,
            movement,
            logistics,
            order.take(k),
        ),
    decreases order.len(),
{
    let g = grants(map, movement, logistics, order);
    lemma_grants(map, movement, logistics, order);
    if k == order.len() {
        assert(order.take(k) =~= order);
        assert(g.take(k) =~= g);
    } else {
        let served = order.drop_last();
        lemma_grants_prefix(map, movement, logistics, served, k);
        assert(served.take(k) =~= order.take(k));
        lemma_grants(map, movement, logistics, served);
        assert(g.take(k) =~= grants(map, movement, logistics, served).take(k));
    }
}

/// The sum of amounts within the grants is within the force on the map.
proof fn lemma_moved_within_force(
    map: HexMap,
    movement: MovementConfig,
    logistics: LogisticsConfig,
    order: Seq<MovementIntent>,
    amounts: Seq<int>,
)
    requires
        amounts.len() == order.len(),
        map@.dom().finite(),
        ascending(ordered(map@.dom())),
        ordered(map@.dom()).to_set() == map@.dom(),
        forall|i: int|
            0 <= i < order.len() ==> 0 <= #[trigger] amounts[i] <= grants(
                map,
                movement,
                logistics,
                order,
            )[i],
    ensures
        0 <= sum(amounts) <= map_force(map@),
        forall|c: Axial| #[trigger]
            map@.contains_key(c) ==> outflow(order, amounts, c) <= map@[c].forces.infantry,
{
    let g = grants(map, movement, logistics, order);
    let keys = ordered(map@.dom());
    lemma_grants(map, movement, logistics, order);
    lemma_ascending_no_duplicates(keys);
    assert forall|i: int| 0 <= i < order.len() && (#[trigger] amounts[i])
        != 0 implies keys.contains(sources(order)[i]) by {
        assert(g[i] > 0);
        assert(fault(map@, movement, order[i]) is None);
        assert(keys.to_set().contains(order[i].from));
    }
    lemma_flow_total(keys, sources(order), amounts);
    lemma_force_is_sum(map@, keys);
    assert forall|c: Axial| #[trigger] map@.contains_key(c) implies outflow(order, amounts, c)
        <= map@[c].forces.infantry by {
        lemma_flow_le(sources(order), amounts, g, c);
    }
    let totals = Seq::new(keys.len(), |x: int| flow_at(sources(order), amounts, keys[x]));
    let forces = Seq::new(keys.len(), |x: int| map@[keys[x]].forces.infantry as int);
    assert forall|x: int| 0 <= x < totals.len() implies #[trigger] totals[x] <= forces[x] by {
        assert(keys.to_set().contains(keys[x]));
        assert(outflow(order, amounts, keys[x]) <= map@[keys[x]].forces.infantry);
    }
    lemma_sum_le(totals, forces);
    lemma_sum_bounds(amounts, 0);
}

/// Movement keeps the force of the map.
proof fn lemma_force_conserved(
    before: Map<Axial, Cell>,
    after: Map<Axial, Cell>,
    keys: Seq<Axial>,
    order: Seq<MovementIntent>,
    amounts: Seq<int>,
)
    requires
        amounts.len() == order.len(),
        ascending(keys),
        keys.to_set() == before.dom(),
        after.dom() == before.dom(),
        forall|c: Axial| #[trigger]
            before.contains_key(c) ==> after[c].forces.infantry == force_after(
                before,
                order,
                amounts,
                c,
            ),
        forall|i: int|
            0 <= i < order.len() && (#[trigger] amounts[i]) != 0 ==> before.contains_key(
                order[i].from,
            ) && before.contains_key(order[i].to),
    ensures
        map_force(after) == map_force(before),
{
    lemma_ordered_is(keys, before.dom());
    lemma_ascending_no_duplicates(keys);
    lemma_force_is_sum(before, keys);
    lemma_force_is_sum(after, keys);
    assert forall|i: int| 0 <= i < order.len() && (#[trigger] amounts[i])
        != 0 implies keys.contains(sources(order)[i]) && keys.contains(destinations(order)[i]) by {
        assert(keys.to_set().contains(order[i].from));
        assert(keys.to_set().contains(order[i].to));
    }
    lemma_flow_total(keys, sources(order), amounts);
    lemma_flow_total(keys, destinations(order), amounts);
    let outs = Seq::new(keys.len(), |x: int| flow_at(sources(order), amounts, keys[x]));
    let ins = Seq::new(keys.len(), |x: int| flow_at(destinations(order), amounts, keys[x]));
    let b = Seq::new(keys.len(), |x: int| before[keys[x]].forces.infantry as int);
    let a = Seq::new(keys.len(), |x: int| after[keys[x]].forces.infantry as int);
    let x1 = Seq::new(keys.len(), |x: int| a[x] + outs[x]);
    assert forall|x: int| 0 <= x < keys.len() implies #[trigger] x1[x] == b[x] + ins[x] by {
        assert(keys.to_set().contains(keys[x]));
        assert(before.contains_key(keys[x]));
    }
    lemma_sum_add(a, outs, x1);
    lemma_sum_add(b, ins, x1);
}

/// What holds of the approvals while destinations apply backpressure.
#[verifier::opaque]
spec fn is_relaxation(
    cells: Map<Axial, Cell>,
    order: Seq<MovementIntent>,
    granted: Seq<int>,
    amounts: Seq<int>,
) -> bool {
    &&& amounts.len() == order.len() == granted.len()
    &&& forall|i: int| 0 <= i < order.len() ==> 0 <= #[trigger] amounts[i] <= granted[i]
    &&& yields_in_order(order, granted, amounts)
    &&& forall|i: int|
        0 <= i < order.len() && (#[trigger] amounts[i]) < granted[i] ==> force_after(
            cells,
            order,
            amounts,
            order[i].to,
        ) >= cells[order[i].to].military_capacity
    &&& forall|other: Seq<int>, i: int|
        #![trigger is_tolerable(cells, order, granted, other), other[i]]
        is_tolerable(cells, order, granted, other) && 0 <= i < order.len() ==> other[i]
            <= amounts[i]
}

/// Cutting the flows into an overfull cell back to its capacity, later-served
/// ones first, keeps the relaxation.
proof fn lemma_cut_back(
    cells: Map<Axial, Cell>,
    order: Seq<MovementIntent>,
    granted: Seq<int>,
    before: Seq<int>,
    after: Seq<int>,
    c: Axial,
    overflow: int,
)
    requires
        is_relaxation(cells, order, granted, before),
        cells.contains_key(c),
        after.len() == order.len(),
        forall|i: int| 0 <= i < order.len() ==> 0 <= #[trigger] after[i] <= before[i],
        forall|i: int|
            0 <= i < order.len() && (#[trigger] order[i]).to != c ==> after[i] == before[i],
        forall|i: int, j: int|
            #![trigger after[i], after[j]]
            0 <= i < j < order.len() && order[i].to == c && order[j].to == c && after[i] < before[i]
                ==> after[j] == 0,
        overflow == force_after(cells, order, before, c) - cells[c].military_capacity,
        overflow > 0,
        inflow(order, after, c) == inflow(order, before, c) - overflow,
    ensures
        is_relaxation(cells, order, granted, after),
{
    reveal(is_relaxation);
    assert forall|d: Axial| force_after(cells, order, after, d) >= force_after(
        cells,
        order,
        before,
        d,
    ) || d == c by {
        if d != c {
            lemma_flow_le(sources(order), after, before, d);
            let s = flow_terms(destinations(order), before, d);
            let t = flow_terms(destinations(order), after, d);
            assert forall|i: int| 0 <= i < s.len() implies s[i] == t[i] by {
                if order[i].to == d {
                    assert(after[i] == before[i]);
                }
            }
            assert(s =~= t);
        }
    }
    lemma_flow_le(sources(order), after, before, c);
    assert forall|i: int| 0 <= i < order.len() implies 0 <= #[trigger] after[i] <= granted[i] by {
        assert(0 <= before[i] <= granted[i]);
    }
    assert(yields_in_order(order, granted, after)) by {
        assert forall|i: int, j: int|
            #![trigger after[i], after[j]]
            0 <= i < j < order.len() && order[i].to == order[j].to && after[i]
                < granted[i] implies after[j] == 0 by {
            if order[i].to == c {
                if after[i] >= before[i] {
                    assert(before[i] < granted[i]);
                    assert(before[j] == 0);
                    assert(0 <= after[j] <= before[j]);
                }
            } else {
                assert(after[i] == before[i]);
                assert(after[j] == before[j]);
            }
        }
    }
    assert forall|i: int| 0 <= i < order.len() && (#[trigger] after[i])
        < granted[i] implies force_after(cells, order, after, order[i].to)
        >= cells[order[i].to].military_capacity by {
        if order[i].to != c {
            assert(after[i] == before[i]);
            assert(before[i] < granted[i]);
        }
    }
    assert forall|other: Seq<int>, i: int|
        #![trigger is_tolerable(cells, order, granted, other), other[i]]
        is_tolerable(cells, order, granted, other) && 0 <= i < order.len() implies other[i]
        <= after[i] by {
        lemma_still_greatest(cells, order, granted, before, after, c, overflow, other, i);
    }
}

proof fn lemma_still_greatest(
    cells: Map<Axial, Cell>,
    order: Seq<MovementIntent>,
    granted: Seq<int>,
    before: Seq<int>,
    after: Seq<int>,
    c: Axial,
    overflow: int,
    other: Seq<int>,
    i: int,
)
    requires
        is_relaxation(cells, order, granted, before),
        cells.contains_key(c),
        after.len() == order.len(),
        forall|i: int| 0 <= i < order.len() ==> 0 <= #[trigger] after[i] <= before[i],
        forall|i: int|
            0 <= i < order.len() && (#[trigger] order[i]).to != c ==> after[i] == before[i],
        forall|i: int, j: int|
            #![trigger after[i], after[j]]
            0 <= i < j < order.len() && order[i].to == c && order[j].to == c && after[i] < before[i]
                ==> after[j] == 0,
        overflow == force_after(cells, order, before, c) - cells[c].military_capacity,
        inflow(order, after, c) == inflow(order, before, c) - overflow,
        is_tolerable(cells, order, granted, other),
        0 <= i < order.len(),
    ensures
        other[i] <= after[i],
    decreases i,
{
    reveal(is_relaxation);
    assert(other[i] <= before[i]);
    if other[i] > after[i] {
        assert(order[i].to == c) by {
            if order[i].to != c {
                assert(after[i] == before[i]);
            }
        }
        assert forall|j: int| 0 <= j < i implies other[j] <= #[trigger] after[j] by {
            lemma_still_greatest(cells, order, granted, before, after, c, overflow, other, j);
        }
        let s = flow_terms(destinations(order), other, c);
        let t = flow_terms(destinations(order), after, c);
        let u = t.update(i, t[i] + 1);
        assert forall|k: int| 0 <= k < u.len() implies #[trigger] u[k] <= s[k] by {
            assert(0 <= after[k] <= before[k]);
            assert(0 <= other[k] <= granted[k]);
            if order[k].to == c {
                if k < i {
                    // An earlier flow that yields would make this one yield.
                    assert(other[k] == granted[k]) by {
                        if other[k] < granted[k] {
                            assert(other[i] == 0);
                        }
                    }
                    assert(0 <= before[k] <= granted[k]);
                } else if k > i {
                    assert(after[i] < before[i]);
                    assert(after[k] == 0);
                }
            }
        }
        lemma_sum_le(u, s);
        lemma_sum_update(t, i, t[i] + 1);
        assert forall|k: int| 0 <= k < order.len() implies 0 <= #[trigger] other[k]
            <= before[k] by {
            assert(0 <= other[k] <= granted[k]);
        }
        lemma_flow_le(sources(order), other, before, c);
        assert(force_after(cells, order, other, c) <= cells[c].military_capacity);
        assert(false);
    }
}

/// Once no cell is overfull, the relaxation has settled.
proof fn lemma_settled(
    cells: Map<Axial, Cell>,
    movement: MovementConfig,
    order: Seq<MovementIntent>,
    granted: Seq<int>,
    amounts: Seq<int>,
)
    requires
        is_relaxation(cells, order, granted, amounts),
        forall|i: int|
            0 <= i < order.len() && (#[trigger] granted[i]) > 0 ==> cells.contains_key(
                order[i].to,
            ),
        forall|c: Axial| #[trigger]
            cells.contains_key(c) ==> force_after(cells, order, amounts, c)
                <= cells[c].military_capacity,
    ensures
        is_settlement(cells, order, granted, amounts),
{
    reveal(is_relaxation);
    assert forall|i: int| 0 <= i < order.len() && (#[trigger] amounts[i])
        < granted[i] implies force_after(cells, order, amounts, order[i].to)
        == cells[order[i].to].military_capacity by {
        assert(granted[i] > 0);
        assert(cells.contains_key(order[i].to));
    }
}

proof fn lemma_relaxation_starts(
    cells: Map<Axial, Cell>,
    order: Seq<MovementIntent>,
    granted: Seq<int>,
)
    requires
        granted.len() == order.len(),
        forall|i: int| 0 <= i < order.len() ==> 0 <= #[trigger] granted[i],
    ensures
        is_relaxation(cells, order, granted, granted),
{
    reveal(is_relaxation);
}

/// The index of the first intent whose ID occurred before.
fn find_repeat(intents: &[MovementIntent]) -> (found: Option<usize>)
    ensures
        match found {
            Some(k) => first_repeat(intents@, k as int),
            None => ids_differ(intents@),
        },
{
    let mut seen: BTreeMap<u64, usize> = BTreeMap::new();
    let mut k: usize = 0;
    while k < intents.len()
        invariant
            k <= intents.len(),
            forall|j: int| 0 <= j < k ==> !#[trigger] repeats(intents@, j),
            forall|id: u64| #[trigger]
                seen@.contains_key(id) <==> exists|j: int|
                    0 <= j < k && (#[trigger] intents@[j]).id == id,
        decreases intents.len() - k,
    {
        let id: u64 = intents[k].id;
        if look(&seen, id).is_some() {
            return Some(k);
        }
        let ghost was = seen@;
        put(&mut seen, id, k);
        proof {
            assert forall|x: u64| #[trigger] seen@.contains_key(x) <==> exists|j: int|
                0 <= j < k + 1 && (#[trigger] intents@[j]).id == x by {
                if was.contains_key(x) {
                    let j = choose|j: int| 0 <= j < k && (#[trigger] intents@[j]).id == x;
                    assert(intents@[j].id == x);
                }
                if x == id {
                    assert(intents@[k as int].id == x);
                }
                if exists|j: int| 0 <= j < k + 1 && (#[trigger] intents@[j]).id == x {
                    let j = choose|j: int| 0 <= j < k + 1 && (#[trigger] intents@[j]).id == x;
                    if j < k {
                        assert(was.contains_key(intents@[j].id));
                    }
                }
            }
        }
        k += 1;
    }
    None
}

/// The first cell that holds more than its capacity, by its stated coordinate.
fn find_overfull(map: &HexMap) -> (found: Option<Axial>)
    ensures
        match found {
            Some(c) => exists|i: int| #[trigger]
                first_overfull(map@, i) && map@[ordered(map@.dom())[i]].coordinate == c,
            None => forall|c: Axial| #[trigger] map@.contains_key(c) ==> !overfull(map@, c),
        },
{
    let cells = map.cells();
    let keys = map.coordinates();
    let mut i: usize = 0;
    while i < cells.len()
        invariant
            i <= cells.len(),
            cells@.len() == keys@.len(),
            keys@ == ordered(map@.dom()),
            forall|j: int| 0 <= j < cells@.len() ==> *(#[trigger] cells@[j]) == map@[keys@[j]],
            forall|j: int| 0 <= j < i ==> !overfull(map@, #[trigger] keys@[j]),
        decreases cells.len() - i,
    {
        if cells[i].force() > cells[i].military_capacity {
            assert(first_overfull(map@, i as int));
            return Some(cells[i].coordinate);
        }
        i += 1;
    }
    assert forall|c: Axial| #[trigger] map@.contains_key(c) implies !overfull(map@, c) by {
        assert(keys@.to_set().contains(c));
        let j = choose|j: int| 0 <= j < keys@.len() && keys@[j] == c;
        assert(!overfull(map@, keys@[j]));
    }
    None
}

/// The force on the map, where it is representable.
fn checked_total_force(map: &HexMap) -> (total: Option<Strength>)
    ensures
        total is Some <==> map_force(map@) <= u64::MAX,
        total matches Some(t) ==> t == map_force(map@),
{
    let cells = map.cells();
    let ghost keys = ordered(map@.dom());
    let mut total: u64 = 0;
    let mut i: usize = 0;
    assert(keys.take(0) =~= Seq::<Axial>::empty());
    while i < cells.len()
        invariant
            i <= cells.len(),
            cells@.len() == keys.len(),
            keys == ordered(map@.dom()),
            forall|j: int| 0 <= j < cells@.len() ==> *(#[trigger] cells@[j]) == map@[keys[j]],
            total == force_sum(map@, keys.take(i as int)),
        decreases cells.len() - i,
    {
        proof {
            assert(keys.take(i + 1).drop_last() =~= keys.take(i as int));
            crate::map::lemma_force_sum_prefix(map@, keys, i + 1);
        }
        match total.checked_add(cells[i].force()) {
            Some(next) => {
                total = next;
            },
            None => {
                return None;
            },
        }
        i += 1;
    }
    assert(keys.take(i as int) =~= keys);
    Some(total)
}

/// The intents in the order in which they are served.
fn service_order(intents: &[MovementIntent]) -> (order: Vec<MovementIntent>)
    requires
        ids_differ(intents@),
    ensures
        is_service_order(intents@, order@),
{
    let mut keys: Vec<(u128, u128)> = Vec::new();
    let mut i: usize = 0;
    while i < intents.len()
        invariant
            i <= intents.len(),
            keys@.len() == i,
            forall|j: int|
                0 <= j < i ==> (#[trigger] keys@[j]).0 == intents@[j].priority && keys@[j].1
                    == intents@[j].id,
        decreases intents.len() - i,
    {
        keys.push((intents[i].priority as u128, intents[i].id as u128));
        i += 1;
    }
    let places = stable_order(keys.as_slice());
    let mut order: Vec<MovementIntent> = Vec::new();
    let mut p: usize = 0;
    while p < places.len()
        invariant
            p <= places.len(),
            is_order(keys@, places@),
            keys@.len() == intents@.len(),
            order@.len() == p,
            forall|a: int| 0 <= a < p ==> #[trigger] order@[a] == intents@[places@[a] as int],
        decreases places.len() - p,
    {
        order.push(intents[places[p]]);
        p += 1;
    }
    proof {
        assert forall|a: int, b: int| 0 <= a < b < order@.len() implies served_before(
            #[trigger] order@[a],
            #[trigger] order@[b],
        ) by {
            let x = places@[a];
            let y = places@[b];
            assert(key_before(keys@, x, y));
            if keys@[x as int] == keys@[y as int] {
                assert(repeats(intents@, y as int)) by {
                    assert(intents@[x as int].id == intents@[y as int].id);
                }
            }
        }
        assert forall|m: MovementIntent| order@.to_set().contains(m) <==> intents@.to_set().contains(
            m,
        ) by {
            if order@.contains(m) {
                let a = choose|a: int| 0 <= a < order@.len() && order@[a] == m;
                assert(intents@[places@[a] as int] == m);
            }
            if intents@.contains(m) {
                let k = choose|k: int| 0 <= k < intents@.len() && intents@[k] == m;
                assert(places@.contains(k as usize));
                let a = choose|a: int| 0 <= a < places@.len() && places@[a] == k as usize;
                assert(order@[a] == m);
            }
        }
        assert(order@.to_set() =~= intents@.to_set());
    }
    order
}

fn owned_by(cell: &Cell, owner: PlayerId) -> (mine: bool)
    ensures
        mine == (cell.owner == Some(owner)),
{
    match cell.owner {
        Some(o) => o == owner,
        None => false,
    }
}

/// The rule that rules an intent out altogether, if one does.
fn find_fault(map: &HexMap, movement: &MovementConfig, intent: &MovementIntent) -> (limit: Option<
    MovementLimit,
>)
    ensures
        limit == fault(map@, *movement, *intent),
{
    if intent.requested == 0 {
        return Some(MovementLimit::ZeroRequest);
    }
    let from = match map.get(intent.from) {
        Some(cell) => cell,
        None => {
            return Some(MovementLimit::MissingSource);
        },
    };
    let to = match map.get(intent.to) {
        Some(cell) => cell,
        None => {
            return Some(MovementLimit::MissingDestination);
        },
    };
    if intent.from.distance(intent.to) != 1 {
        return Some(MovementLimit::NonAdjacent);
    }
    if !owned_by(from, intent.owner) {
        return Some(MovementLimit::SourceNotOwned);
    }
    if !owned_by(to, intent.owner) {
        return Some(MovementLimit::DestinationNotOwned);
    }
    if ground_traversal(from, to, movement).is_none() {
        return Some(MovementLimit::Impassable);
    }
    None
}

/// What sources and edges allow each intent, and what held it back there.
struct Service {
    granted: Vec<u64>,
    limits: Vec<Vec<MovementLimit>>,
}

/// The limits that are known once sources and edges have been served.
spec fn early_limits(
    map: HexMap,
    movement: MovementConfig,
    logistics: LogisticsConfig,
    order: Seq<MovementIntent>,
    k: int,
) -> Seq<MovementLimit> {
    limits_of(
        map,
        movement,
        logistics,
        order,
        grants(map, movement, logistics, order),
        k,
    )
}

/// The limits of an intent that was not ruled out.
fn shortage(short_source: bool, short_edge: bool) -> (limits: Vec<MovementLimit>)
    ensures
        limits@ == (if short_source {
            seq![MovementLimit::SourceStrength]
        } else {
            Seq::empty()
        }) + (if short_edge {
            seq![MovementLimit::EdgeThroughput]
        } else {
            Seq::empty()
        }) + Seq::<MovementLimit>::empty(),
{
    let mut limits: Vec<MovementLimit> = Vec::new();
    if short_source {
        limits.push(MovementLimit::SourceStrength);
    }
    if short_edge {
        limits.push(MovementLimit::EdgeThroughput);
    }
    assert(limits@ =~= (if short_source {
        seq![MovementLimit::SourceStrength]
    } else {
        Seq::empty()
    }) + (if short_edge {
        seq![MovementLimit::EdgeThroughput]
    } else {
        Seq::empty()
    }) + Seq::<MovementLimit>::empty());
    limits
}

/// Serves the intents from sources and edges, in order.
fn serve(
    map: &HexMap,
    movement: &MovementConfig,
    logistics: &LogisticsConfig,
    order: &Vec<MovementIntent>,
) -> (service: Service)
    ensures
        ints(service.granted@) == grants(*map, *movement, *logistics, order@),
        service.granted@.len() == order@.len(),
        service.limits@.len() == order@.len(),
        forall|k: int|
            0 <= k < order@.len() ==> (#[trigger] service.limits@[k])@ == early_limits(
                *map,
                *movement,
                *logistics,
                order@,
                k,
            ),
{
    let ghost all = grants(*map, *movement, *logistics, order@);
    let mut granted: Vec<u64> = Vec::new();
    let mut limits: Vec<Vec<MovementLimit>> = Vec::new();
    let mut source_remaining: AxialMap<u64> = AxialMap::new();
    let mut edge_remaining: EdgeMap<u64> = EdgeMap::new();
    let mut k: usize = 0;
    proof {
        lemma_grants(*map, *movement, *logistics, order@);
        assert(order@.take(0) =~= Seq::empty());
        assert(ints(granted@) =~= Seq::empty());
    }
    while k < order.len()
        invariant
            k <= order.len(),
            all == grants(*map, *movement, *logistics, order@),
            all.len() == order@.len(),
            granted@.len() == k,
            limits@.len() == k,
            ints(granted@) == grants(*map, *movement, *logistics, order@.take(k as int)),
            forall|j: int|
                0 <= j < k ==> (#[trigger] limits@[j])@ == early_limits(
                    *map,
                    *movement,
                    *logistics,
                    order@,
                    j,
                ),
            forall|c: Axial|
                #![trigger source_remaining@.contains_key(c)]
                map@.contains_key(c) ==> (if source_remaining@.contains_key(c) {
                    source_remaining@[c] as int
                } else {
                    map@[c].forces.infantry as int
                }) == map@[c].forces.infantry - outflow(
                    order@.take(k as int),
                    ints(granted@),
                    c,
                ),
            forall|e: HexEdge|
                #![trigger edge_remaining@.contains_key(e)]
                (if edge_remaining@.contains_key(e) {
                    edge_remaining@[e] as int
                } else {
                    map.limits_of(e, *logistics).throughput as int
                }) == map.limits_of(e, *logistics).throughput - edge_flow(
                    order@.take(k as int),
                    ints(granted@),
                    e,
                ),
        decreases order.len() - k,
    {
        let intent = order[k];
        let ghost served = order@.take(k as int);
        let ghost earlier = ints(granted@);
        proof {
            let now = order@.take(k + 1);
            assert(now.drop_last() =~= served);
            assert(now.last() == intent);
            assert(now =~= served.push(intent));
            assert(sources(now) =~= sources(served).push(intent.from));
            lemma_grants(*map, *movement, *logistics, served);
            lemma_grants(*map, *movement, *logistics, now);
            lemma_grants_prefix(*map, *movement, *logistics, order@, k as int);
            lemma_grants_prefix(*map, *movement, *logistics, order@, k + 1);
            assert(all.take(k + 1).drop_last() =~= all.take(k as int));
            assert(all[k as int] == all.take(k + 1).last());
        }
        let amount: u64;
        match find_fault(map, movement, &intent) {
            Some(limit) => {
                amount = 0;
                let single: Vec<MovementLimit> = vec![limit];
                assert(single@ =~= seq![limit]);
                limits.push(single);
            },
            None => {
                let available_source: u64 = match source_remaining.get(intent.from) {
                    Some(left) => *left,
                    None => match map.get(intent.from) {
                        Some(cell) => cell.force(),
                        None => {
                            assert(false);
                            0
                        },
                    },
                };
                let edge = match HexEdge::new(intent.from, intent.to) {
                    Some(edge) => edge,
                    None => {
                        assert(false);
                        HexEdge { a: intent.from, b: intent.to }
                    },
                };
                let available_edge: u64 = match edge_remaining.get(edge) {
                    Some(left) => *left,
                    None => match map.edge_limits(intent.from, intent.to, logistics) {
                        Some(edge_limits) => edge_limits.throughput,
                        None => {
                            assert(false);
                            0
                        },
                    },
                };
                let by_source: u64 = if intent.requested <= available_source {
                    intent.requested
                } else {
                    available_source
                };
                amount = if by_source <= available_edge {
                    by_source
                } else {
                    available_edge
                };
                limits.push(
                    shortage(
                        available_source < intent.requested,
                        available_edge < intent.requested,
                    ),
                );
                source_remaining.insert(intent.from, available_source - amount);
                edge_remaining.insert(edge, available_edge - amount);
            },
        }
        granted.push(amount);
        proof {
            assert(ints(granted@) =~= earlier.push(amount as int));
            assert(ints(granted@) =~= grants(*map, *movement, *logistics, order@.take(k + 1)));
            assert forall|c: Axial|
                #![trigger source_remaining@.contains_key(c)]
                map@.contains_key(c) implies (if source_remaining@.contains_key(c) {
                source_remaining@[c] as int
            } else {
                map@[c].forces.infantry as int
            }) == map@[c].forces.infantry - outflow(order@.take(k + 1), ints(granted@), c) by {
                lemma_flow_push(sources(served), earlier, intent.from, amount as int, c);
            }
            assert forall|e: HexEdge|
                #![trigger edge_remaining@.contains_key(e)]
                (if edge_remaining@.contains_key(e) {
                    edge_remaining@[e] as int
                } else {
                    map.limits_of(e, *logistics).throughput as int
                }) == map.limits_of(e, *logistics).throughput - edge_flow(
                    order@.take(k + 1),
                    ints(granted@),
                    e,
                ) by {
                lemma_edge_flow_push(served, earlier, intent, amount as int, e);
            }
            assert(limits@[k as int]@ =~= early_limits(
                *map,
                *movement,
                *logistics,
                order@,
                k as int,
            ));
        }
        k += 1;
    }
    assert(order@.take(k as int) =~= order@);
    Service { granted, limits }
}

/// The flows into and out of each cell.
struct FlowTotals {
    incoming: AxialMap<u64>,
    outgoing: AxialMap<u64>,
}

/// Whether a map of totals holds the flows at each end.
spec fn totals_match(totals: Map<Axial, u64>, ends: Seq<Axial>, amounts: Seq<int>) -> bool {
    forall|c: Axial|
        #![trigger totals.contains_key(c)]
        #![trigger flow_at(ends, amounts, c)]
        flow_at(ends, amounts, c) == (if totals.contains_key(c) {
            totals[c] as int
        } else {
            0
        }) && (totals.contains_key(c) ==> totals[c] > 0)
}

/// Adds an amount to the total of a cell.
fn add_flow(totals: &mut AxialMap<u64>, end: Axial, amount: u64, Ghost(ends): Ghost<Seq<Axial>>, Ghost(
    amounts,
): Ghost<Seq<int>>)
    requires
        ends.len() == amounts.len(),
        totals_match(old(totals)@, ends, amounts),
        forall|i: int| 0 <= i < amounts.len() ==> 0 <= #[trigger] amounts[i],
        sum(amounts) + amount <= u64::MAX,
    ensures
        totals_match(final(totals)@, ends.push(end), amounts.push(amount as int)),
{
    let old_total: u64 = match totals.get(end) {
        Some(total) => *total,
        None => 0,
    };
    proof {
        lemma_flow_le(ends, amounts, amounts, end);
        assert(flow_at(ends, amounts, end) == old_total);
        assert forall|c: Axial| #[trigger] flow_at(
            ends.push(end),
            amounts.push(amount as int),
            c,
        ) == flow_at(ends, amounts, c) + if end == c {
            amount as int
        } else {
            0
        } by {
            lemma_flow_push(ends, amounts, end, amount as int, c);
        }
    }
    if amount > 0 {
        totals.insert(end, old_total + amount);
    }
    assert forall|c: Axial|
        #![trigger totals@.contains_key(c)]
        flow_at(ends.push(end), amounts.push(amount as int), c) == (if totals@.contains_key(c) {
            totals@[c] as int
        } else {
            0
        }) && (totals@.contains_key(c) ==> totals@[c] > 0) by {
        let _ = old(totals)@.contains_key(c);
        lemma_flow_push(ends, amounts, end, amount as int, c);
    }
}

/// Adds the flows up.
fn flow_totals(order: &Vec<MovementIntent>, amounts: &Vec<u64>) -> (totals: FlowTotals)
    requires
        order@.len() == amounts@.len(),
        sum(ints(amounts@)) <= u64::MAX,
    ensures
        totals_match(totals.incoming@, destinations(order@), ints(amounts@)),
        totals_match(totals.outgoing@, sources(order@), ints(amounts@)),
{
    let ghost a = ints(amounts@);
    let mut incoming: AxialMap<u64> = AxialMap::new();
    let mut outgoing: AxialMap<u64> = AxialMap::new();
    let mut i: usize = 0;
    proof {
        assert(a.take(0) =~= Seq::empty());
        assert(destinations(order@).take(0) =~= Seq::empty());
        assert(sources(order@).take(0) =~= Seq::empty());
        assert forall|c: Axial| #[trigger] flow_at(Seq::empty(), Seq::empty(), c) == 0 by {
            assert(flow_terms(Seq::empty(), Seq::empty(), c) =~= Seq::empty());
        }
    }
    while i < order.len()
        invariant
            i <= order.len(),
            order@.len() == amounts@.len(),
            a == ints(amounts@),
            sum(a) <= u64::MAX,
            totals_match(incoming@, destinations(order@).take(i as int), a.take(i as int)),
            totals_match(outgoing@, sources(order@).take(i as int), a.take(i as int)),
        decreases order.len() - i,
    {
        let amount: u64 = amounts[i];
        let ghost d = destinations(order@);
        let ghost s = sources(order@);
        proof {
            assert(a.take(i + 1) =~= a.take(i as int).push(amount as int));
            assert(d.take(i + 1) =~= d.take(i as int).push(order@[i as int].to));
            assert(s.take(i + 1) =~= s.take(i as int).push(order@[i as int].from));
            lemma_sum_push(a.take(i as int), amount as int);
            lemma_sum_bounds(a, i + 1);
        }
        add_flow(
            &mut incoming,
            order[i].to,
            amount,
            Ghost(d.take(i as int)),
            Ghost(a.take(i as int)),
        );
        add_flow(
            &mut outgoing,
            order[i].from,
            amount,
            Ghost(s.take(i as int)),
            Ghost(a.take(i as int)),
        );
        i += 1;
    }
    proof {
        assert(a.take(i as int) =~= a);
        assert(destinations(order@).take(i as int) =~= destinations(order@));
        assert(sources(order@).take(i as int) =~= sources(order@));
    }
    FlowTotals { incoming, outgoing }
}

/// A cell that the flows would fill beyond its capacity, and by how much.
fn find_pressure(
    map: &HexMap,
    order: &Vec<MovementIntent>,
    amounts: &Vec<u64>,
    totals: &FlowTotals,
) -> (found: Option<(Axial, u64)>)
    requires
        order@.len() == amounts@.len(),
        totals_match(totals.incoming@, destinations(order@), ints(amounts@)),
        totals_match(totals.outgoing@, sources(order@), ints(amounts@)),
        forall|c: Axial| #[trigger] map@.contains_key(c) ==> !overfull(map@, c),
        forall|c: Axial| #[trigger]
            map@.contains_key(c) ==> 0 <= outflow(order@, ints(amounts@), c)
                <= map@[c].forces.infantry,
        forall|c: Axial| #[trigger] totals.incoming@.contains_key(c) ==> map@.contains_key(c),
    ensures
        match found {
            Some((c, overflow)) => {
                &&& map@.contains_key(c)
                &&& overflow > 0
                &&& overflow == force_after(map@, order@, ints(amounts@), c)
                    - map@[c].military_capacity
            },
            None => forall|c: Axial| #[trigger]
                map@.contains_key(c) ==> force_after(map@, order@, ints(amounts@), c)
                    <= map@[c].military_capacity,
        },
{
    let ghost a = ints(amounts@);
    let keys = totals.incoming.keys();
    let mut i: usize = 0;
    while i < keys.len()
        invariant
            i <= keys.len(),
            a == ints(amounts@),
            keys@.to_set() == totals.incoming@.dom(),
            totals_match(totals.incoming@, destinations(order@), a),
            totals_match(totals.outgoing@, sources(order@), a),
            forall|c: Axial| #[trigger] map@.contains_key(c) ==> !overfull(map@, c),
            forall|c: Axial| #[trigger]
                map@.contains_key(c) ==> 0 <= outflow(order@, a, c) <= map@[c].forces.infantry,
            forall|c: Axial| #[trigger] totals.incoming@.contains_key(c) ==> map@.contains_key(c),
            forall|j: int|
                0 <= j < i ==> force_after(map@, order@, a, #[trigger] keys@[j])
                    <= map@[keys@[j]].military_capacity,
        decreases keys.len() - i,
    {
        let c = keys[i];
        assert(keys@.to_set().contains(c));
        assert(totals.incoming@.contains_key(c));
        let amount_in: u64 = match totals.incoming.get(c) {
            Some(total) => *total,
            None => 0,
        };
        let amount_out: u64 = match totals.outgoing.get(c) {
            Some(total) => *total,
            None => 0,
        };
        proof {
            assert(flow_at(destinations(order@), a, c) == amount_in);
            assert(flow_at(sources(order@), a, c) == amount_out);
            assert(map@.contains_key(c));
            assert(outflow(order@, a, c) == amount_out);
        }
        match map.get(c) {
            Some(cell) => {
                let after: u128 = cell.force() as u128 + amount_in as u128 - amount_out as u128;
                if after > cell.military_capacity as u128 {
                    let overflow: u64 = (after - cell.military_capacity as u128) as u64;
                    return Some((c, overflow));
                }
            },
            None => {
                assert(false);
            },
        }
        i += 1;
    }
    assert forall|c: Axial| #[trigger] map@.contains_key(c) implies force_after(map@, order@, a, c)
        <= map@[c].military_capacity by {
        assert(flow_at(destinations(order@), a, c) == (if totals.incoming@.contains_key(c) {
            totals.incoming@[c] as int
        } else {
            0
        }));
        if totals.incoming@.contains_key(c) {
            assert(keys@.to_set().contains(c));
            let j = choose|j: int| 0 <= j < keys@.len() && keys@[j] == c;
            assert(force_after(map@, order@, a, keys@[j]) <= map@[keys@[j]].military_capacity);
        }
    }
    None
}

/// Cuts the flows into a cell back, later-served ones first.
fn cut_back(order: &Vec<MovementIntent>, amounts: &mut Vec<u64>, c: Axial, overflow: u64)
    requires
        order@.len() == old(amounts)@.len(),
        overflow <= inflow(order@, ints(old(amounts)@), c),
    ensures
        final(amounts)@.len() == order@.len(),
        forall|i: int|
            0 <= i < order@.len() ==> (#[trigger] final(amounts)@[i]) <= old(amounts)@[i],
        forall|i: int|
            0 <= i < order@.len() && (#[trigger] order@[i]).to != c ==> final(amounts)@[i]
                == old(amounts)@[i],
        forall|i: int, j: int|
            #![trigger final(amounts)@[i], final(amounts)@[j]]
            0 <= i < j < order@.len() && order@[i].to == c && order@[j].to == c
                && final(amounts)@[i] < old(amounts)@[i] ==> final(amounts)@[j] == 0,
        inflow(order@, ints(final(amounts)@), c) == inflow(order@, ints(old(amounts)@), c)
            - overflow,
        sum(ints(final(amounts)@)) == sum(ints(old(amounts)@)) - overflow,
{
    let ghost start = amounts@;
    let ghost d = destinations(order@);
    let mut left: u64 = overflow;
    let mut i: usize = order.len();
    while i > 0 && left > 0
        invariant
            i <= order.len(),
            d == destinations(order@),
            order@.len() == amounts@.len() == start.len(),
            left <= overflow,
            forall|k: int| 0 <= k < i ==> #[trigger] amounts@[k] == start[k],
            forall|k: int| 0 <= k < order@.len() ==> (#[trigger] amounts@[k]) <= start[k],
            forall|k: int|
                0 <= k < order@.len() && (#[trigger] order@[k]).to != c ==> amounts@[k] == start[k],
            left > 0 ==> forall|k: int|
                i <= k < order@.len() && (#[trigger] order@[k]).to == c ==> amounts@[k] == 0,
            forall|k: int, j: int|
                #![trigger amounts@[k], amounts@[j]]
                0 <= k < j < order@.len() && order@[k].to == c && order@[j].to == c && amounts@[k]
                    < start[k] ==> amounts@[j] == 0,
            flow_at(d, ints(amounts@), c) == flow_at(d, ints(start), c) - (overflow - left),
            sum(ints(amounts@)) == sum(ints(start)) - (overflow - left),
        decreases i,
    {
        i -= 1;
        if order[i].to == c {
            let approved: u64 = amounts[i];
            let reduction: u64 = if left <= approved {
                left
            } else {
                approved
            };
            let ghost was = ints(amounts@);
            amounts.set(i, approved - reduction);
            left = left - reduction;
            proof {
                assert(ints(amounts@) =~= was.update(i as int, approved - reduction));
                lemma_flow_update(d, was, i as int, approved - reduction, c);
                lemma_sum_update(was, i as int, approved - reduction);
            }
        }
    }
    proof {
        if left > 0 {
            let t = flow_terms(d, ints(amounts@), c);
            assert forall|k: int| 0 <= k < t.len() implies #[trigger] t[k] == 0 by {
                if order@[k].to == c {
                    assert(amounts@[k] == 0);
                }
            }
            lemma_sum_zeros(t);
        }
    }
}

/// Lets full destinations push back until every cell stays within capacity.
fn settle(
    map: &HexMap,
    movement: &MovementConfig,
    logistics: &LogisticsConfig,
    order: &Vec<MovementIntent>,
    granted: &Vec<u64>,
) -> (amounts: Vec<u64>)
    requires
        ints(granted@) == grants(*map, *movement, *logistics, order@),
        granted@.len() == order@.len(),
        forall|c: Axial| #[trigger] map@.contains_key(c) ==> !overfull(map@, c),
        map_force(map@) <= u64::MAX,
    ensures
        amounts@.len() == order@.len(),
        is_settlement(map@, order@, ints(granted@), ints(amounts@)),
        sum(ints(amounts@)) <= map_force(map@),
        forall|c: Axial| #[trigger]
            map@.contains_key(c) ==> 0 <= outflow(order@, ints(amounts@), c)
                <= map@[c].forces.infantry,
{
    let ghost g = ints(granted@);
    let ghost keys = ordered(map@.dom());
    let mut amounts: Vec<u64> = Vec::new();
    let mut i: usize = 0;
    while i < granted.len()
        invariant
            i <= granted.len(),
            amounts@.len() == i,
            forall|j: int| 0 <= j < i ==> #[trigger] amounts@[j] == granted@[j],
        decreases granted.len() - i,
    {
        amounts.push(granted[i]);
        i += 1;
    }
    proof {
        assert(ints(amounts@) =~= g);
        lemma_grants(*map, *movement, *logistics, order@);
        lemma_relaxation_starts(map@, order@, g);
        map.lemma_finite();
    }
    loop
        invariant
            amounts@.len() == order@.len() == granted@.len(),
            g == ints(granted@),
            g == grants(*map, *movement, *logistics, order@),
            is_relaxation(map@, order@, g, ints(amounts@)),
            forall|c: Axial| #[trigger] map@.contains_key(c) ==> !overfull(map@, c),
            map_force(map@) <= u64::MAX,
            ascending(keys),
            keys == ordered(map@.dom()),
            keys.to_set() == map@.dom(),
            map@.dom().finite(),
            forall|i: int|
                0 <= i < order@.len() && #[trigger] g[i] > 0 ==> fault(
                    map@,
                    *movement,
                    order@[i],
                ) is None,
        decreases sum(ints(amounts@)),
    {
        let ghost a = ints(amounts@);
        proof {
            assert forall|i: int| 0 <= i < order@.len() implies 0 <= #[trigger] a[i] <= g[i] by {
                reveal(is_relaxation);
            }
            lemma_moved_within_force(*map, *movement, *logistics, order@, a);
            assert forall|c: Axial| 0 <= outflow(order@, a, c) by {
                lemma_flow_le(sources(order@), a, a, c);
            }
        }
        let totals = flow_totals(order, &amounts);
        proof {
            assert forall|c: Axial| #[trigger]
                totals.incoming@.contains_key(c) implies map@.contains_key(c) by {
                lemma_flow_source(destinations(order@), a, c);
                let i = choose|i: int|
                    0 <= i < order@.len() && destinations(order@)[i] == c && #[trigger] a[i] != 0;
                assert(g[i] > 0);
            }
        }
        match find_pressure(map, order, &amounts, &totals) {
            None => {
                proof {
                    lemma_settled(map@, *movement, order@, g, a);
                }
                return amounts;
            },
            Some((c, overflow)) => {
                proof {
                    assert(!overfull(map@, c));
                }
                cut_back(order, &mut amounts, c, overflow);
                proof {
                    lemma_cut_back(
                        map@,
                        order@,
                        g,
                        a,
                        ints(amounts@),
                        c,
                        overflow as int,
                    );
                    lemma_sum_bounds(ints(amounts@), 0);
                }
            },
        }
    }
}

/// A flow comes from an amount.
proof fn lemma_flow_source(ends: Seq<Axial>, amounts: Seq<int>, c: Axial)
    requires
        ends.len() == amounts.len(),
        flow_at(ends, amounts, c) != 0,
    ensures
        exists|i: int| 0 <= i < ends.len() && ends[i] == c && #[trigger] amounts[i] != 0,
{
    let t = flow_terms(ends, amounts, c);
    if forall|i: int| 0 <= i < ends.len() && ends[i] == c ==> #[trigger] amounts[i] == 0 {
        assert forall|i: int| 0 <= i < t.len() implies #[trigger] t[i] == 0 by {
            assert(amounts[i] == 0 || ends[i] != c);
        }
        lemma_sum_zeros(t);
    }
}

/// Writes the flows into the map.
fn commit(
    map: &mut HexMap,
    totals: &FlowTotals,
    Ghost(order): Ghost<Seq<MovementIntent>>,
    Ghost(amounts): Ghost<Seq<int>>,
)
    requires
        totals_match(totals.incoming@, destinations(order), amounts),
        totals_match(totals.outgoing@, sources(order), amounts),
        forall|c: Axial| #[trigger]
            old(map)@.contains_key(c) ==> 0 <= outflow(order, amounts, c)
                <= old(map)@[c].forces.infantry && force_after(old(map)@, order, amounts, c)
                <= u64::MAX,
        forall|c: Axial| #[trigger]
            totals.incoming@.contains_key(c) ==> old(map)@.contains_key(c),
        forall|c: Axial| #[trigger]
            totals.outgoing@.contains_key(c) ==> old(map)@.contains_key(c),
    ensures
        final(map)@.dom() == old(map)@.dom(),
        final(map).overrides() == old(map).overrides(),
        forall|c: Axial| #[trigger]
            old(map)@.contains_key(c) ==> final(map)@[c] == with_force(
                old(map)@[c],
                force_after(old(map)@, order, amounts, c),
            ),
{
    let ghost before = map@;
    let mut touched = AxialSet::new();
    let ins = totals.incoming.keys();
    let outs = totals.outgoing.keys();
    let mut i: usize = 0;
    while i < ins.len()
        invariant
            i <= ins.len(),
            touched@ == ins@.take(i as int).to_set(),
        decreases ins.len() - i,
    {
        touched.insert(ins[i]);
        proof {
            assert(ins@.take(i + 1) =~= ins@.take(i as int).push(ins@[i as int]));
            crate::axials::lemma_to_set_push(ins@.take(i as int), ins@[i as int]);
        }
        i += 1;
    }
    proof {
        assert(ins@.take(i as int) =~= ins@);
        assert(outs@.take(0) =~= Seq::empty());
        assert(touched@ =~= ins@.to_set() + outs@.take(0).to_set());
    }
    let mut k: usize = 0;
    while k < outs.len()
        invariant
            k <= outs.len(),
            touched@ == ins@.to_set() + outs@.take(k as int).to_set(),
        decreases outs.len() - k,
    {
        touched.insert(outs[k]);
        proof {
            assert(outs@.take(k + 1) =~= outs@.take(k as int).push(outs@[k as int]));
            crate::axials::lemma_to_set_push(outs@.take(k as int), outs@[k as int]);
            assert(touched@ =~= ins@.to_set() + outs@.take(k + 1).to_set());
        }
        k += 1;
    }
    assert(outs@.take(k as int) =~= outs@);
    let cells = touched.to_vec();
    proof {
        lemma_ascending_no_duplicates(cells@);
    }
    let mut n: usize = 0;
    while n < cells.len()
        invariant
            n <= cells.len(),
            cells@.no_duplicates(),
            cells@.to_set() == totals.incoming@.dom() + totals.outgoing@.dom(),
            totals_match(totals.incoming@, destinations(order), amounts),
            totals_match(totals.outgoing@, sources(order), amounts),
            forall|c: Axial| #[trigger] totals.incoming@.contains_key(c) ==> before.contains_key(c),
            forall|c: Axial| #[trigger] totals.outgoing@.contains_key(c) ==> before.contains_key(c),
            forall|c: Axial| #[trigger]
                before.contains_key(c) ==> 0 <= outflow(order, amounts, c)
                    <= before[c].forces.infantry && force_after(before, order, amounts, c)
                    <= u64::MAX,
            map@.dom() == before.dom(),
            map.overrides() == old(map).overrides(),
            forall|c: Axial| #[trigger]
                before.contains_key(c) ==> map@[c] == (if cells@.take(n as int).contains(c) {
                    with_force(before[c], force_after(before, order, amounts, c))
                } else {
                    before[c]
                }),
        decreases cells.len() - n,
    {
        let c = cells[n];
        assert(cells@.to_set().contains(c));
        assert(before.contains_key(c));
        let amount_in: u64 = match totals.incoming.get(c) {
            Some(total) => *total,
            None => 0,
        };
        let amount_out: u64 = match totals.outgoing.get(c) {
            Some(total) => *total,
            None => 0,
        };
        let ghost map_was = map@;
        proof {
            assert(flow_at(destinations(order), amounts, c) == amount_in);
            assert(flow_at(sources(order), amounts, c) == amount_out);
            assert(outflow(order, amounts, c) == amount_out);
            assert(!cells@.take(n as int).contains(c)) by {
                if cells@.take(n as int).contains(c) {
                    let j = choose|j: int| 0 <= j < n && cells@.take(n as int)[j] == c;
                    assert(cells@[j] == cells@[n as int]);
                }
            }
            assert(map_was[c] == before[c]);
        }
        match map.get_mut(c) {
            Some(cell) => {
                let force: u64 = (cell.forces.infantry - amount_out) + amount_in;
                cell.forces = ForceComposition { infantry: force };
            },
            None => {
                assert(false);
            },
        }
        proof {
            assert(map@ =~= map_was.insert(
                c,
                with_force(before[c], force_after(before, order, amounts, c)),
            ));
            assert(map@.dom() =~= before.dom());
            assert forall|d: Axial| #[trigger] before.contains_key(d) implies map@[d] == (
            if cells@.take(n + 1).contains(d) {
                with_force(before[d], force_after(before, order, amounts, d))
            } else {
                before[d]
            }) by {
                let now = cells@.take(n + 1);
                let then = cells@.take(n as int);
                assert(now =~= then.push(c));
                if d == c {
                    assert(now[n as int] == c);
                } else if then.contains(d) {
                    let j = choose|j: int| 0 <= j < then.len() && then[j] == d;
                    assert(now[j] == d);
                } else if now.contains(d) {
                    let j = choose|j: int| 0 <= j < now.len() && now[j] == d;
                    assert(then[j] == d);
                }
            }
        }
        n += 1;
    }
    proof {
        assert(cells@.take(n as int) =~= cells@);
        assert forall|c: Axial| #[trigger] before.contains_key(c) implies map@[c] == with_force(
            before[c],
            force_after(before, order, amounts, c),
        ) by {
            if !cells@.contains(c) {
                assert(!cells@.to_set().contains(c));
                assert(!totals.incoming@.contains_key(c));
                assert(!totals.outgoing@.contains_key(c));
                assert(flow_at(destinations(order), amounts, c) == 0);
                assert(flow_at(sources(order), amounts, c) == 0);
                assert(before[c] == with_force(before[c], before[c].forces.infantry as int));
            }
        }
    }
}

/// Collects what each intent got.
fn report_outcomes(
    map: &HexMap,
    movement: &MovementConfig,
    logistics: &LogisticsConfig,
    order: &Vec<MovementIntent>,
    service: &Service,
    amounts: &Vec<u64>,
) -> (outcomes: BTreeMap<u64, MovementOutcome>)
    requires
        ints(service.granted@) == grants(*map, *movement, *logistics, order@),
        service.granted@.len() == order@.len(),
        service.limits@.len() == order@.len(),
        amounts@.len() == order@.len(),
        forall|i: int| 0 <= i < order@.len() ==> (#[trigger] amounts@[i]) <= service.granted@[i],
        forall|k: int|
            0 <= k < order@.len() ==> (#[trigger] service.limits@[k])@ == early_limits(
                *map,
                *movement,
                *logistics,
                order@,
                k,
            ),
        forall|i: int, j: int|
            0 <= i < j < order@.len() ==> (#[trigger] order@[i]).id != (#[trigger] order@[j]).id,
    ensures
        forall|id: u64| #[trigger]
            outcomes@.contains_key(id) <==> exists|k: int|
                0 <= k < order@.len() && (#[trigger] order@[k]).id == id,
        forall|k: int|
            0 <= k < order@.len() ==> {
                let o = outcomes@[(#[trigger] order@[k]).id];
                &&& o.intent_id == order@[k].id
                &&& o.requested == order@[k].requested
                &&& o.approved == amounts@[k]
                &&& o.limits@ == limits_of(
                    *map,
                    *movement,
                    *logistics,
                    order@,
                    ints(amounts@),
                    k,
                )
            },
{
    let mut outcomes: BTreeMap<u64, MovementOutcome> = BTreeMap::new();
    let mut k: usize = 0;
    while k < order.len()
        invariant
            k <= order.len(),
            ints(service.granted@) == grants(*map, *movement, *logistics, order@),
            service.granted@.len() == order@.len(),
            service.limits@.len() == order@.len(),
            amounts@.len() == order@.len(),
            forall|i: int|
                0 <= i < order@.len() ==> (#[trigger] amounts@[i]) <= service.granted@[i],
            forall|k: int|
                0 <= k < order@.len() ==> (#[trigger] service.limits@[k])@ == early_limits(
                    *map,
                    *movement,
                    *logistics,
                    order@,
                    k,
                ),
            forall|i: int, j: int|
                0 <= i < j < order@.len() ==> (#[trigger] order@[i]).id != (
                #[trigger] order@[j]).id,
            forall|id: u64| #[trigger]
                outcomes@.contains_key(id) <==> exists|j: int|
                    0 <= j < k && (#[trigger] order@[j]).id == id,
            forall|j: int|
                0 <= j < k ==> {
                    let o = outcomes@[(#[trigger] order@[j]).id];
                    &&& o.intent_id == order@[j].id
                    &&& o.requested == order@[j].requested
                    &&& o.approved == amounts@[j]
                    &&& o.limits@ == limits_of(
                        *map,
                        *movement,
                        *logistics,
                        order@,
                        ints(amounts@),
                        j,
                    )
                },
        decreases order.len() - k,
    {
        let intent = order[k];
        let mut limits: Vec<MovementLimit> = Vec::new();
        let known = &service.limits[k];
        let mut j: usize = 0;
        while j < known.len()
            invariant
                j <= known.len(),
                limits@.len() == j,
                forall|x: int| 0 <= x < j ==> #[trigger] limits@[x] == known@[x],
            decreases known.len() - j,
        {
            limits.push(known[j]);
            j += 1;
        }
        assert(limits@ =~= known@);
        if amounts[k] < service.granted[k] {
            limits.push(MovementLimit::DestinationCapacity);
        }
        proof {
            let g = grants(*map, *movement, *logistics, order@);
            assert(g[k as int] == service.granted@[k as int]);
            if amounts@[k as int] < service.granted@[k as int] {
                lemma_grants(*map, *movement, *logistics, order@);
                assert(fault(map@, *movement, order@[k as int]) is None);
            }
            assert(limits@ =~= limits_of(
                *map,
                *movement,
                *logistics,
                order@,
                ints(amounts@),
                k as int,
            ));
        }
        let ghost was = outcomes@;
        let outcome = MovementOutcome {
            intent_id: intent.id,
            requested: intent.requested,
            approved: amounts[k],
            limits,
        };
        put(&mut outcomes, intent.id, outcome);
        proof {
            assert forall|id: u64| #[trigger] outcomes@.contains_key(id) <==> exists|j: int|
                0 <= j < k + 1 && (#[trigger] order@[j]).id == id by {
                if was.contains_key(id) {
                    let j = choose|j: int| 0 <= j < k && (#[trigger] order@[j]).id == id;
                    assert(order@[j].id == id);
                }
                if id == intent.id {
                    assert(order@[k as int].id == id);
                }
                if exists|j: int| 0 <= j < k + 1 && (#[trigger] order@[j]).id == id {
                    let j = choose|j: int| 0 <= j < k + 1 && (#[trigger] order@[j]).id == id;
                    if j < k {
                        assert(was.contains_key(order@[j].id));
                    }
                }
            }
            assert forall|j: int| 0 <= j < k + 1 implies {
                let o = outcomes@[(#[trigger] order@[j]).id];
                &&& o.intent_id == order@[j].id
                &&& o.requested == order@[j].requested
                &&& o.approved == amounts@[j]
                &&& o.limits@ == limits_of(
                    *map,
                    *movement,
                    *logistics,
                    order@,
                    ints(amounts@),
                    j,
                )
            } by {
                if j < k {
                    assert(order@[j].id != order@[k as int].id);
                }
            }
        }
        k += 1;
    }
    outcomes
}

/// Intents with different IDs keep them in the order of service.
pub proof fn lemma_order_ids_differ(intents: Seq<MovementIntent>, order: Seq<MovementIntent>)
    requires
        ids_differ(intents),
        is_service_order(intents, order),
    ensures
        forall|i: int, j: int|
            0 <= i < j < order.len() ==> (#[trigger] order[i]).id != (#[trigger] order[j]).id,
{
    assert forall|i: int, j: int| 0 <= i < j < order.len() implies (#[trigger] order[i]).id != (
    #[trigger] order[j]).id by {
        assert(served_before(order[i], order[j]));
        assert(order.to_set().contains(order[i]));
        assert(order.to_set().contains(order[j]));
        assert(intents.contains(order[i]));
        assert(intents.contains(order[j]));
        let p = choose|p: int| 0 <= p < intents.len() && intents[p] == order[i];
        let q = choose|q: int| 0 <= q < intents.len() && intents[q] == order[j];
        if order[i].id == order[j].id {
            if p < q {
                assert(intents[p].id == intents[q].id);
                assert(repeats(intents, q));
            } else {
                assert(intents[q].id == intents[p].id);
                assert(repeats(intents, p));
            }
        }
    }
}

/// Applies one friendly logical movement step atomically.
///
/// The function first approves source/edge flow, then propagates destination
/// backpressure until every final occupancy is within capacity, and only then
/// commits all deltas. This allows a full column to advance as a simultaneous
/// pipeline while preventing a blocked downstream cell from creating overflow.
pub fn movement_step(
    map: &mut HexMap,
    intents: &[MovementIntent],
    movement: &MovementConfig,
    logistics: &LogisticsConfig,
) -> (step: Result<MovementStep, MovementError>)
    ensures
        match step {
            Ok(s) => {
                &&& ids_differ(intents@)
                &&& forall|c: Axial| #[trigger]
                    old(map)@.contains_key(c) ==> !overfull(old(map)@, c)
                &&& map_force(old(map)@) <= u64::MAX
                &&& steps_to(*old(map), *final(map), intents@, *movement, *logistics, s)
                &&& forall|c: Axial| #[trigger]
                    final(map)@.contains_key(c) ==> !overfull(final(map)@, c)
            },
            Err(e) => {
                &&& final(map)@ == old(map)@
                &&& final(map).overrides() == old(map).overrides()
                &&& match e {
                    MovementError::DuplicateIntentId(id) => exists|k: int| #[trigger]
                        first_repeat(intents@, k) && intents@[k].id == id,
                    MovementError::CellOverCapacity(c) => ids_differ(intents@) && exists|i: int|
                     #[trigger]
                        first_overfull(old(map)@, i) && old(map)@[ordered(
                            old(map)@.dom(),
                        )[i]].coordinate == c,
                    MovementError::ArithmeticOverflow => {
                        &&& ids_differ(intents@)
                        &&& forall|c: Axial| #[trigger]
                            old(map)@.contains_key(c) ==> !overfull(old(map)@, c)
                        &&& map_force(old(map)@) > u64::MAX
                    },
                }
            },
        },
{
    match find_repeat(intents) {
        Some(k) => {
            return Err(MovementError::DuplicateIntentId(intents[k].id));
        },
        None => {},
    }
    match find_overfull(map) {
        Some(c) => {
            return Err(MovementError::CellOverCapacity(c));
        },
        None => {},
    }
    let strength_before: u64 = match checked_total_force(map) {
        Some(total) => total,
        None => {
            return Err(MovementError::ArithmeticOverflow);
        },
    };
    let ghost keys = ordered(map@.dom());
    let order = service_order(intents);
    let service = serve(map, movement, logistics, &order);
    let amounts = settle(map, movement, logistics, &order, &service.granted);
    let ghost a = ints(amounts@);
    let ghost g = ints(service.granted@);
    let ghost before = *map;
    proof {
        map.lemma_finite();
        lemma_grants(before, *movement, *logistics, order@);
        assert forall|i: int| 0 <= i < order@.len() implies (#[trigger] amounts@[i])
            <= service.granted@[i] by {
            assert(0 <= a[i] <= g[i]);
        }
    }
    proof {
        lemma_order_ids_differ(intents@, order@);
    }
    let outcomes = report_outcomes(map, movement, logistics, &order, &service, &amounts);
    let totals = flow_totals(&order, &amounts);
    proof {
        assert forall|c: Axial| #[trigger]
            totals.incoming@.contains_key(c) implies map@.contains_key(c) by {
            lemma_flow_source(destinations(order@), a, c);
            let i = choose|i: int|
                0 <= i < order@.len() && destinations(order@)[i] == c && #[trigger] a[i] != 0;
            assert(g[i] > 0);
            assert(fault(map@, *movement, order@[i]) is None);
        }
        assert forall|c: Axial| #[trigger]
            totals.outgoing@.contains_key(c) implies map@.contains_key(c) by {
            lemma_flow_source(sources(order@), a, c);
            let i = choose|i: int|
                0 <= i < order@.len() && sources(order@)[i] == c && #[trigger] a[i] != 0;
            assert(g[i] > 0);
            assert(fault(map@, *movement, order@[i]) is None);
        }
        assert forall|c: Axial| #[trigger] map@.contains_key(c) implies 0 <= outflow(order@, a, c)
            <= map@[c].forces.infantry && 0 <= force_after(map@, order@, a, c) <= u64::MAX by {
            assert(force_after(map@, order@, a, c) <= map@[c].military_capacity);
            lemma_flow_le(destinations(order@), a, a, c);
        }
    }
    commit(map, &totals, Ghost(order@), Ghost(a));
    proof {
        assert forall|i: int| 0 <= i < order@.len() && (#[trigger] a[i])
            != 0 implies before@.contains_key(order@[i].from) && before@.contains_key(
            order@[i].to,
        ) by {
            assert(0 <= a[i] <= g[i]);
            assert(g[i] > 0);
            assert(fault(before@, *movement, order@[i]) is None);
        }
        assert forall|c: Axial| #[trigger] before@.contains_key(
            c,
        ) implies map@[c].forces.infantry == force_after(before@, order@, a, c) by {
            assert(0 <= force_after(before@, order@, a, c) <= u64::MAX);
        }
        lemma_force_conserved(before@, map@, keys, order@, a);
        assert forall|c: Axial| #[trigger] map@.contains_key(c) implies !overfull(map@, c) by {
            assert(before@.contains_key(c));
            assert(force_after(before@, order@, a, c) <= before@[c].military_capacity);
        }
    }
    let mut moved_total: u64 = 0;
    let mut i: usize = 0;
    assert(a.take(0) =~= Seq::empty());
    while i < amounts.len()
        invariant
            i <= amounts.len(),
            a == ints(amounts@),
            sum(a) <= u64::MAX,
            moved_total == sum(a.take(i as int)),
        decreases amounts.len() - i,
    {
        proof {
            assert(a.take(i + 1).drop_last() =~= a.take(i as int));
            lemma_sum_bounds(a, i + 1);
        }
        moved_total = moved_total + amounts[i];
        i += 1;
    }
    assert(a.take(i as int) =~= a);
    let step = MovementStep {
        outcomes,
        moved_total,
        strength_before,
        strength_after: strength_before,
    };
    assert(is_step(before, *map, intents@, *movement, *logistics, order@, a, step));
    assert(steps_to(before, *map, intents@, *movement, *logistics, step));
    Ok(step)
}

/// The order of service is determined by the intents.
pub proof fn law_service_order_is_unique(
    intents: Seq<MovementIntent>,
    s: Seq<MovementIntent>,
    t: Seq<MovementIntent>,
)
    requires
        is_service_order(intents, s),
        is_service_order(intents, t),
    ensures
        s == t,
{
    let before = |a: MovementIntent, b: MovementIntent| served_before(a, b);
    crate::order::lemma_strictly_sorted_unique(s, t, before);
}

/// A step does not depend on the order in which the intents are listed: lists
/// of the same intents lead to the same map and the same totals.
pub proof fn law_step_ignores_list_order(
    before: HexMap,
    after: HexMap,
    after2: HexMap,
    intents: Seq<MovementIntent>,
    intents2: Seq<MovementIntent>,
    movement: MovementConfig,
    logistics: LogisticsConfig,
    order: Seq<MovementIntent>,
    order2: Seq<MovementIntent>,
    amounts: Seq<int>,
    amounts2: Seq<int>,
    step: MovementStep,
    step2: MovementStep,
)
    requires
        intents.to_set() == intents2.to_set(),
        is_step(before, after, intents, movement, logistics, order, amounts, step),
        is_step(before, after2, intents2, movement, logistics, order2, amounts2, step2),
    ensures
        order == order2,
        amounts == amounts2,
        after@ == after2@,
        step.moved_total == step2.moved_total,
        step.strength_before == step2.strength_before,
        step.strength_after == step2.strength_after,
        step.outcomes@.dom() == step2.outcomes@.dom(),
        forall|id: u64| #[trigger]
            step.outcomes@.contains_key(id) ==> step.outcomes@[id].approved
                == step2.outcomes@[id].approved && step.outcomes@[id].limits@
                == step2.outcomes@[id].limits@,
{
    law_service_order_is_unique(intents, order, order2);
    law_settlement_is_unique(
        before@,
        order,
        grants(before, movement, logistics, order),
        amounts,
        amounts2,
    );
    assert forall|c: Axial| before@.contains_key(c) implies after@[c] == after2@[c] by {}
    assert(after@ =~= after2@);
    assert forall|id: u64| step.outcomes@.contains_key(id) <==> step2.outcomes@.contains_key(
        id,
    ) by {}
    assert(step.outcomes@.dom() =~= step2.outcomes@.dom());
    assert forall|id: u64| #[trigger] step.outcomes@.contains_key(
        id,
    ) implies step.outcomes@[id].approved == step2.outcomes@[id].approved
        && step.outcomes@[id].limits@ == step2.outcomes@[id].limits@ by {
        let k = choose|k: int| 0 <= k < order.len() && (#[trigger] order[k]).id == id;
        assert(order[k].id == id);
        assert(order2[k].id == id);
    }
}

/// No edge carries more than its throughput.
pub proof fn law_edges_carry_at_most_their_throughput(
    map: HexMap,
    movement: MovementConfig,
    logistics: LogisticsConfig,
    order: Seq<MovementIntent>,
    amounts: Seq<int>,
    e: HexEdge,
)
    requires
        is_settlement(map@, order, grants(map, movement, logistics, order), amounts),
    ensures
        edge_flow(order, amounts, e) <= map.limits_of(e, logistics).throughput,
{
    let g = grants(map, movement, logistics, order);
    lemma_grants(map, movement, logistics, order);
    let s = edge_terms(order, amounts, e);
    let t = edge_terms(order, g, e);
    assert forall|i: int| 0 <= i < s.len() implies #[trigger] s[i] <= t[i] by {
        assert(0 <= amounts[i] <= g[i]);
    }
    lemma_sum_le(s, t);
    assert(edge_flow(order, g, e) <= map.limits_of(e, logistics).throughput);
}

} // verus!
