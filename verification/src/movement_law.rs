//! What a movement step means, said of the intents, the map and the outcomes
//! themselves.
use vstd::prelude::*;
use crate::coord::{edge_of, hex_distance, Axial, HexEdge};
use crate::map::{Cell, HexMap, LogisticsConfig, MovementConfig, TerrainKind};
use crate::movement::{
    destinations, edge_flow, edge_left, edge_terms, fault, flow_terms, force_after, grants,
    ids_differ, is_service_order, is_step, lemma_grants, lemma_grants_prefix,
    lemma_order_ids_differ, limits_of, outflow, repeats, served_before, source_left, sources,
    steps_to, MovementIntent, MovementLimit, MovementStep,
};
use crate::order::{lemma_sum_bounds, lemma_sum_push, sum};

verus! {

/// Whether nothing rules an intent out: it asks for something, both cells are
/// there, lie side by side and belong to its owner, and the way is dry and not too
/// steep.
pub open spec fn is_admissible(
    cells: Map<Axial, Cell>,
    movement: MovementConfig,
    intent: MovementIntent,
) -> bool {
    let from = cells[intent.from];
    let to = cells[intent.to];
    &&& intent.requested > 0
    &&& cells.contains_key(intent.from)
    &&& cells.contains_key(intent.to)
    &&& hex_distance(intent.from, intent.to) == 1
    &&& from.owner == Some(intent.owner)
    &&& to.owner == Some(intent.owner)
    &&& hex_distance(from.coordinate, to.coordinate) == 1
    &&& from.terrain != TerrainKind::Water
    &&& to.terrain != TerrainKind::Water
    &&& to.elevation - from.elevation <= movement.max_elevation_step
    &&& from.elevation - to.elevation <= movement.max_elevation_step
}

/// The step as it was served: the order and what each intent got.
proof fn lemma_served(
    before: HexMap,
    after: HexMap,
    intents: Seq<MovementIntent>,
    movement: MovementConfig,
    logistics: LogisticsConfig,
    step: MovementStep,
) -> (served: (Seq<MovementIntent>, Seq<int>))
    requires
        steps_to(before, after, intents, movement, logistics, step),
    ensures
        is_step(before, after, intents, movement, logistics, served.0, served.1, step),
{
    choose|order: Seq<MovementIntent>, amounts: Seq<int>| #[trigger]
        is_step(before, after, intents, movement, logistics, order, amounts, step)
}

proof fn lemma_place(intents: Seq<MovementIntent>, order: Seq<MovementIntent>, a: MovementIntent)
    -> (k: int)
    requires
        is_service_order(intents, order),
        intents.contains(a),
    ensures
        0 <= k < order.len(),
        order[k] == a,
{
    assert(intents.to_set().contains(a));
    assert(order.to_set().contains(a));
    assert(order.contains(a));
    choose|k: int| 0 <= k < order.len() && order[k] == a
}

/// What an intent is granted when its turn comes.
proof fn lemma_grant_at(
    map: HexMap,
    movement: MovementConfig,
    logistics: LogisticsConfig,
    order: Seq<MovementIntent>,
    k: int,
)
    requires
        0 <= k < order.len(),
        fault(map@, movement, order[k]) is None,
    ensures
        ({
            let g = grants(map, movement, logistics, order);
            let source = source_left(map@, order.take(k), g.take(k), order[k]);
            let edge = edge_left(map, logistics, order.take(k), g.take(k), order[k]);
            &&& g.len() == order.len()
            &&& g[k] <= order[k].requested
            &&& g[k] <= source
            &&& g[k] <= edge
            &&& g[k] == order[k].requested || g[k] == source || g[k] == edge
        }),
{
    let g = grants(map, movement, logistics, order);
    let first = order.take(k + 1);
    lemma_grants(map, movement, logistics, order);
    lemma_grants_prefix(map, movement, logistics, order, k + 1);
    lemma_grants_prefix(map, movement, logistics, order, k);
    assert(first.drop_last() =~= order.take(k));
    assert(g.take(k + 1)[k] == g[k]);
    assert(first.last() == order[k]);
}

/// The flow of the first amounts only grows with their number.
proof fn lemma_flow_grows(order: Seq<MovementIntent>, g: Seq<int>, k: int, l: int, c: Axial)
    requires
        0 <= k < l <= order.len(),
        g.len() == order.len(),
        forall|i: int| 0 <= i < g.len() ==> 0 <= #[trigger] g[i],
    ensures
        outflow(order.take(k), g.take(k), c) + (if order[k].from == c {
            g[k]
        } else {
            0
        }) <= outflow(order.take(l), g.take(l), c),
{
    let t = flow_terms(sources(order), g, c);
    assert(flow_terms(sources(order.take(k)), g.take(k), c) =~= t.take(k));
    assert(flow_terms(sources(order.take(l)), g.take(l), c) =~= t.take(l));
    assert forall|i: int| 0 <= i < t.take(l).len() implies 0 <= #[trigger] t.take(l)[i] by {
        assert(0 <= g[i]);
    }
    lemma_sum_bounds(t.take(l), k + 1);
    assert(t.take(l).take(k + 1) =~= t.take(k).push(t[k]));
    lemma_sum_push(t.take(k), t[k]);
}

proof fn lemma_edge_flow_grows(order: Seq<MovementIntent>, g: Seq<int>, k: int, l: int, e: HexEdge)
    requires
        0 <= k < l <= order.len(),
        g.len() == order.len(),
        forall|i: int| 0 <= i < g.len() ==> 0 <= #[trigger] g[i],
    ensures
        edge_flow(order.take(k), g.take(k), e) + (if edge_of(order[k].from, order[k].to) == e {
            g[k]
        } else {
            0
        }) <= edge_flow(order.take(l), g.take(l), e),
{
    let t = edge_terms(order, g, e);
    assert(edge_terms(order.take(k), g.take(k), e) =~= t.take(k));
    assert(edge_terms(order.take(l), g.take(l), e) =~= t.take(l));
    assert forall|i: int| 0 <= i < t.take(l).len() implies 0 <= #[trigger] t.take(l)[i] by {
        assert(0 <= g[i]);
    }
    lemma_sum_bounds(t.take(l), k + 1);
    assert(t.take(l).take(k + 1) =~= t.take(k).push(t[k]));
    lemma_sum_push(t.take(k), t[k]);
}

/// An intent with a smaller priority number, or with the same and a smaller ID, has
/// an earlier place.
proof fn lemma_place_by_priority(
    intents: Seq<MovementIntent>,
    order: Seq<MovementIntent>,
    k: int,
    l: int,
)
    requires
        is_service_order(intents, order),
        0 <= k < order.len(),
        0 <= l < order.len(),
        order[k].priority < order[l].priority || (order[k].priority == order[l].priority
            && order[k].id < order[l].id),
    ensures
        k < l,
{
    if l < k {
        assert(served_before(order[l], order[k]));
    }
}

/// Lower priority numbers are served first, and smaller IDs where they are equal: of
/// two intents over the same step, the later one gets anything only if the earlier
/// one gets all that it asks for.
pub proof fn law_lower_priorities_are_served_first(
    before: HexMap,
    after: HexMap,
    intents: Seq<MovementIntent>,
    movement: MovementConfig,
    logistics: LogisticsConfig,
    step: MovementStep,
    a: MovementIntent,
    b: MovementIntent,
)
    requires
        steps_to(before, after, intents, movement, logistics, step),
        intents.contains(a),
        intents.contains(b),
        a.from == b.from,
        a.to == b.to,
        is_admissible(before@, movement, a),
        a.priority < b.priority || (a.priority == b.priority && a.id < b.id),
    ensures
        step.outcomes@[b.id].approved > 0 ==> step.outcomes@[a.id].approved == a.requested,
{
    let (order, amounts) = lemma_served(before, after, intents, movement, logistics, step);
    let g = grants(before, movement, logistics, order);
    let k = lemma_place(intents, order, a);
    let l = lemma_place(intents, order, b);
    lemma_place_by_priority(intents, order, k, l);
    lemma_grants(before, movement, logistics, order);
    assert(fault(before@, movement, a) is None);
    lemma_grant_at(before, movement, logistics, order, k);
    assert(step.outcomes@[order[k].id].approved == amounts[k]);
    assert(step.outcomes@[order[l].id].approved == amounts[l]);
    assert(0 <= amounts[k] <= g[k]);
    assert(0 <= amounts[l] <= g[l]);
    if amounts[l] > 0 && amounts[k] < a.requested {
        assert(fault(before@, movement, order[l]) is None);
        lemma_grant_at(before, movement, logistics, order, l);
        assert(amounts[k] == g[k]);
        lemma_flow_grows(order, g, k, l, a.from);
        lemma_edge_flow_grows(order, g, k, l, edge_of(a.from, a.to));
    }
}

/// An intent that the room at its destination cuts back leaves that cell exactly
/// full, and no intent to the same cell that is served later gets anything.
pub proof fn law_full_cells_turn_later_intents_away(
    before: HexMap,
    after: HexMap,
    intents: Seq<MovementIntent>,
    movement: MovementConfig,
    logistics: LogisticsConfig,
    step: MovementStep,
    a: MovementIntent,
)
    requires
        steps_to(before, after, intents, movement, logistics, step),
        intents.contains(a),
        step.outcomes@[a.id].limits@.contains(MovementLimit::DestinationCapacity),
    ensures
        after@[a.to].forces.infantry == before@[a.to].military_capacity,
        forall|b: MovementIntent| #[trigger]
            intents.contains(b) && b.to == a.to && (a.priority < b.priority || (a.priority
                == b.priority && a.id < b.id)) ==> step.outcomes@[b.id].approved == 0,
{
    let (order, amounts) = lemma_served(before, after, intents, movement, logistics, step);
    let g = grants(before, movement, logistics, order);
    let k = lemma_place(intents, order, a);
    lemma_grants(before, movement, logistics, order);
    assert(step.outcomes@[order[k].id].limits@ == limits_of(
        before,
        movement,
        logistics,
        order,
        amounts,
        k,
    ));
    lemma_limits(before, movement, logistics, order, amounts, k);
    assert(amounts[k] < g[k]);
    assert(g[k] > 0);
    assert(fault(before@, movement, order[k]) is None);
    assert(before@.contains_key(a.to));
    assert(force_after(before@, order, amounts, order[k].to)
        == before@[order[k].to].military_capacity);
    assert forall|b: MovementIntent| #[trigger]
        intents.contains(b) && b.to == a.to && (a.priority < b.priority || (a.priority
            == b.priority && a.id < b.id)) implies step.outcomes@[b.id].approved == 0 by {
        let l = lemma_place(intents, order, b);
        lemma_place_by_priority(intents, order, k, l);
        assert(amounts[l] == 0);
        assert(step.outcomes@[order[l].id].approved == amounts[l]);
    }
}

/// Which limits are named.
proof fn lemma_limits(
    map: HexMap,
    movement: MovementConfig,
    logistics: LogisticsConfig,
    order: Seq<MovementIntent>,
    amounts: Seq<int>,
    k: int,
)
    ensures
        ({
            let g = grants(map, movement, logistics, order);
            let named = limits_of(map, movement, logistics, order, amounts, k);
            let source = source_left(map@, order.take(k), g.take(k), order[k]);
            let edge = edge_left(map, logistics, order.take(k), g.take(k), order[k]);
            fault(map@, movement, order[k]) is None ==> {
                &&& named.contains(MovementLimit::SourceStrength) <==> source < order[k].requested
                &&& named.contains(MovementLimit::EdgeThroughput) <==> edge < order[k].requested
                &&& named.contains(MovementLimit::DestinationCapacity) <==> amounts[k] < g[k]
                &&& forall|limit: MovementLimit| #[trigger]
                    named.contains(limit) ==> limit == MovementLimit::SourceStrength || limit
                        == MovementLimit::EdgeThroughput || limit
                        == MovementLimit::DestinationCapacity
            }
        }),
        fault(map@, movement, order[k]) matches Some(limit) ==> limits_of(
            map,
            movement,
            logistics,
            order,
            amounts,
            k,
        ) == seq![limit],
        fault(map@, movement, order[k]) is Some ==> !limits_of(
            map,
            movement,
            logistics,
            order,
            amounts,
            k,
        ).contains(MovementLimit::DestinationCapacity),
{
    let g = grants(map, movement, logistics, order);
    let named = limits_of(map, movement, logistics, order, amounts, k);
    if fault(map@, movement, order[k]) is None {
        let source = if source_left(map@, order.take(k), g.take(k), order[k])
            < order[k].requested {
            seq![MovementLimit::SourceStrength]
        } else {
            Seq::empty()
        };
        let edge = if edge_left(map, logistics, order.take(k), g.take(k), order[k])
            < order[k].requested {
            seq![MovementLimit::EdgeThroughput]
        } else {
            Seq::empty()
        };
        let capacity = if amounts[k] < g[k] {
            seq![MovementLimit::DestinationCapacity]
        } else {
            Seq::empty()
        };
        assert(named == source + edge + capacity);
        if source.len() > 0 {
            assert(named[0] == MovementLimit::SourceStrength);
        }
        if edge.len() > 0 {
            assert(named[source.len() as int] == MovementLimit::EdgeThroughput);
        }
        if capacity.len() > 0 {
            assert(named[(source.len() + edge.len()) as int] == MovementLimit::DestinationCapacity);
        }
    }
}

/// Why an intent gets what it gets. Where something rules it out, it gets nothing and
/// the first such thing alone is named. Otherwise it gets at most what it asks for,
/// and less only where a shortage at its source, on its edge or at its destination is
/// named.
pub proof fn law_limits_tell_why(
    before: HexMap,
    after: HexMap,
    intents: Seq<MovementIntent>,
    movement: MovementConfig,
    logistics: LogisticsConfig,
    step: MovementStep,
    a: MovementIntent,
)
    requires
        steps_to(before, after, intents, movement, logistics, step),
        intents.contains(a),
    ensures
        step.outcomes@.contains_key(a.id),
        ({
            let o = step.outcomes@[a.id];
            let cells = before@;
            let from = cells[a.from];
            let to = cells[a.to];
            let there = cells.contains_key(a.from) && cells.contains_key(a.to);
            let near = hex_distance(a.from, a.to) == 1;
            let ours = from.owner == Some(a.owner) && to.owner == Some(a.owner);
            &&& o.intent_id == a.id
            &&& o.requested == a.requested
            &&& o.approved <= a.requested
            &&& !is_admissible(cells, movement, a) ==> o.approved == 0 && o.limits@.len() == 1
            &&& a.requested == 0 ==> o.limits@ == seq![MovementLimit::ZeroRequest]
            &&& a.requested > 0 && !cells.contains_key(a.from) ==> o.limits@ == seq![
                MovementLimit::MissingSource,
            ]
            &&& a.requested > 0 && cells.contains_key(a.from) && !cells.contains_key(a.to)
                ==> o.limits@ == seq![MovementLimit::MissingDestination]
            &&& a.requested > 0 && there && !near ==> o.limits@ == seq![MovementLimit::NonAdjacent]
            &&& a.requested > 0 && there && near && from.owner != Some(a.owner) ==> o.limits@
                == seq![MovementLimit::SourceNotOwned]
            &&& a.requested > 0 && there && near && from.owner == Some(a.owner) && to.owner != Some(
                a.owner,
            ) ==> o.limits@ == seq![MovementLimit::DestinationNotOwned]
            &&& a.requested > 0 && there && near && ours && !is_admissible(cells, movement, a)
                ==> o.limits@ == seq![MovementLimit::Impassable]
            &&& is_admissible(cells, movement, a) ==> (o.approved < a.requested
                <==> o.limits@.len() > 0)
            &&& is_admissible(cells, movement, a) ==> forall|i: int|
                0 <= i < o.limits@.len() ==> (#[trigger] o.limits@[i])
                    == MovementLimit::SourceStrength || o.limits@[i]
                    == MovementLimit::EdgeThroughput || o.limits@[i]
                    == MovementLimit::DestinationCapacity
        }),
{
    let (order, amounts) = lemma_served(before, after, intents, movement, logistics, step);
    let g = grants(before, movement, logistics, order);
    let k = lemma_place(intents, order, a);
    lemma_grants(before, movement, logistics, order);
    lemma_limits(before, movement, logistics, order, amounts, k);
    assert(0 <= amounts[k] <= g[k] <= order[k].requested);
    let o = step.outcomes@[order[k].id];
    assert(step.outcomes@.contains_key(a.id));
    assert(o.limits@ == limits_of(before, movement, logistics, order, amounts, k));
    assert(is_admissible(before@, movement, a) <==> fault(before@, movement, a) is None);
    if fault(before@, movement, a) is None {
        lemma_grant_at(before, movement, logistics, order, k);
        if o.approved < a.requested {
            if amounts[k] < g[k] {
                assert(o.limits@.contains(MovementLimit::DestinationCapacity));
            } else {
                assert(o.limits@.contains(MovementLimit::SourceStrength) || o.limits@.contains(
                    MovementLimit::EdgeThroughput,
                ));
            }
            assert(o.limits@.len() > 0);
        }
        assert forall|i: int| 0 <= i < o.limits@.len() implies (#[trigger] o.limits@[i])
            == MovementLimit::SourceStrength || o.limits@[i] == MovementLimit::EdgeThroughput
            || o.limits@[i] == MovementLimit::DestinationCapacity by {
            assert(o.limits@.contains(o.limits@[i]));
        }
        if o.limits@.len() > 0 {
            assert(o.limits@.contains(o.limits@[0]));
        }
    } else {
        if g[k] > 0 {
            assert(fault(before@, movement, order[k]) is None);
        }
    }
}

/// Sums over two lists of the same different things are equal.
pub proof fn lemma_sum_rearranged<A>(s: Seq<A>, t: Seq<A>, f: spec_fn(A) -> int)
    requires
        s.no_duplicates(),
        t.no_duplicates(),
        forall|x: A| #[trigger] s.contains(x) <==> t.contains(x),
    ensures
        sum(Seq::new(s.len(), |i: int| f(s[i]))) == sum(Seq::new(t.len(), |i: int| f(t[i]))),
    decreases s.len(),
{
    let fs = Seq::new(s.len(), |i: int| f(s[i]));
    let ft = Seq::new(t.len(), |i: int| f(t[i]));
    if s.len() == 0 {
        if t.len() > 0 {
            assert(t.contains(t[0]));
            assert(s.contains(t[0]));
        }
    } else {
        let x = s.last();
        assert(s.contains(x));
        assert(t.contains(x));
        let k = choose|k: int| 0 <= k < t.len() && t[k] == x;
        let rest = t.remove(k);
        let d = s.drop_last();
        assert forall|y: A| #[trigger] d.contains(y) <==> rest.contains(y) by {
            if d.contains(y) {
                let i = choose|i: int| 0 <= i < d.len() && d[i] == y;
                assert(s[i] == y);
                assert(s.contains(y));
                assert(t.contains(y));
                let j = choose|j: int| 0 <= j < t.len() && t[j] == y;
                assert(y != x);
                if j < k {
                    assert(rest[j] == y);
                } else {
                    assert(rest[j - 1] == y);
                }
            }
            if rest.contains(y) {
                let j = choose|j: int| 0 <= j < rest.len() && rest[j] == y;
                let j2 = if j < k {
                    j
                } else {
                    j + 1
                };
                assert(t[j2] == y);
                assert(t.contains(y));
                assert(s.contains(y));
                let i = choose|i: int| 0 <= i < s.len() && s[i] == y;
                assert(j2 != k);
                assert(y != x);
                assert(d[i] == y);
            }
        }
        assert(rest.no_duplicates()) by {
            assert forall|i: int, j: int|
                0 <= i < rest.len() && 0 <= j < rest.len() && i != j implies rest[i] != rest[j] by {
                let i2 = if i < k {
                    i
                } else {
                    i + 1
                };
                let j2 = if j < k {
                    j
                } else {
                    j + 1
                };
                assert(rest[i] == t[i2] && rest[j] == t[j2]);
            }
        }
        lemma_sum_rearranged(d, rest, f);
        assert(fs.drop_last() =~= Seq::new(d.len(), |i: int| f(d[i])));
        let fr = Seq::new(rest.len(), |i: int| f(rest[i]));
        assert(fr =~= ft.remove(k));
        lemma_sum_remove(ft, k);
    }
}

pub proof fn lemma_sum_remove(s: Seq<int>, k: int)
    requires
        0 <= k < s.len(),
    ensures
        sum(s.remove(k)) == sum(s) - s[k],
    decreases s.len(),
{
    if k == s.len() - 1 {
        assert(s.remove(k) =~= s.drop_last());
    } else {
        lemma_sum_remove(s.drop_last(), k);
        assert(s.remove(k).drop_last() =~= s.drop_last().remove(k));
        assert(s.remove(k).last() == s.last());
    }
}

proof fn lemma_no_intent_twice(intents: Seq<MovementIntent>, order: Seq<MovementIntent>)
    requires
        ids_differ(intents),
        is_service_order(intents, order),
    ensures
        intents.no_duplicates(),
        order.no_duplicates(),
        forall|a: MovementIntent| #[trigger] order.contains(a) <==> intents.contains(a),
{
    assert forall|i: int, j: int|
        0 <= i < intents.len() && 0 <= j < intents.len() && i != j implies intents[i]
        != intents[j] by {
        if intents[i] == intents[j] {
            if i < j {
                assert(intents[i].id == intents[j].id);
                assert(repeats(intents, j));
            } else {
                assert(intents[j].id == intents[i].id);
                assert(repeats(intents, i));
            }
        }
    }
    lemma_order_ids_differ(intents, order);
    assert forall|i: int, j: int|
        0 <= i < order.len() && 0 <= j < order.len() && i != j implies order[i] != order[j] by {
        if i < j {
            assert(order[i].id != order[j].id);
        } else {
            assert(order[j].id != order[i].id);
        }
    }
    assert forall|a: MovementIntent| #[trigger] order.contains(a) <==> intents.contains(a) by {
        assert(order.to_set().contains(a) <==> intents.to_set().contains(a));
    }
}

/// Nothing is lost on the way: a cell gains what the intents to it get and loses what
/// the intents from it get, and nothing else about it changes. No more leaves it than
/// stood on it, and no more stands on it afterwards than it can hold.
pub proof fn law_cells_gain_what_arrives(
    before: HexMap,
    after: HexMap,
    intents: Seq<MovementIntent>,
    movement: MovementConfig,
    logistics: LogisticsConfig,
    step: MovementStep,
    c: Axial,
)
    requires
        ids_differ(intents),
        steps_to(before, after, intents, movement, logistics, step),
        before@.contains_key(c),
    ensures
        after@.contains_key(c),
        ({
            let arriving = sum(
                Seq::new(
                    intents.len(),
                    |i: int|
                        if intents[i].to == c {
                            step.outcomes@[intents[i].id].approved as int
                        } else {
                            0
                        },
                ),
            );
            let leaving = sum(
                Seq::new(
                    intents.len(),
                    |i: int|
                        if intents[i].from == c {
                            step.outcomes@[intents[i].id].approved as int
                        } else {
                            0
                        },
                ),
            );
            &&& after@[c].forces.infantry == before@[c].forces.infantry + arriving - leaving
            &&& leaving <= before@[c].forces.infantry
            &&& after@[c].forces.infantry <= before@[c].military_capacity
            &&& after@[c].owner == before@[c].owner
            &&& after@[c].military_capacity == before@[c].military_capacity
            &&& after@[c].civilian_population == before@[c].civilian_population
            &&& after@[c].terrain == before@[c].terrain
            &&& after@[c].elevation == before@[c].elevation
        }),
        step.moved_total == sum(
            Seq::new(intents.len(), |i: int| step.outcomes@[intents[i].id].approved as int),
        ),
{
    let (order, amounts) = lemma_served(before, after, intents, movement, logistics, step);
    let g = grants(before, movement, logistics, order);
    lemma_grants(before, movement, logistics, order);
    lemma_no_intent_twice(intents, order);
    let to = |a: MovementIntent|
        if a.to == c {
            step.outcomes@[a.id].approved as int
        } else {
            0
        };
    let from = |a: MovementIntent|
        if a.from == c {
            step.outcomes@[a.id].approved as int
        } else {
            0
        };
    let all = |a: MovementIntent| step.outcomes@[a.id].approved as int;
    lemma_sum_rearranged(order, intents, to);
    lemma_sum_rearranged(order, intents, from);
    lemma_sum_rearranged(order, intents, all);
    assert forall|i: int| 0 <= i < order.len() implies step.outcomes@[order[i].id].approved
        == #[trigger] amounts[i] by {
        assert(step.outcomes@[order[i].id].approved == amounts[i]);
    }
    assert(Seq::new(order.len(), |i: int| to(order[i])) =~= flow_terms(
        destinations(order),
        amounts,
        c,
    ));
    assert(Seq::new(order.len(), |i: int| from(order[i])) =~= flow_terms(
        sources(order),
        amounts,
        c,
    ));
    assert(Seq::new(order.len(), |i: int| all(order[i])) =~= amounts);
    assert(Seq::new(intents.len(), |i: int| to(intents[i])) =~= Seq::new(
        intents.len(),
        |i: int|
            if intents[i].to == c {
                step.outcomes@[intents[i].id].approved as int
            } else {
                0
            },
    ));
    assert(Seq::new(intents.len(), |i: int| from(intents[i])) =~= Seq::new(
        intents.len(),
        |i: int|
            if intents[i].from == c {
                step.outcomes@[intents[i].id].approved as int
            } else {
                0
            },
    ));
    assert(Seq::new(intents.len(), |i: int| all(intents[i])) =~= Seq::new(
        intents.len(),
        |i: int| step.outcomes@[intents[i].id].approved as int,
    ));
    let s = flow_terms(sources(order), amounts, c);
    let t = flow_terms(sources(order), g, c);
    assert forall|i: int| 0 <= i < s.len() implies #[trigger] s[i] <= t[i] by {
        assert(0 <= amounts[i] <= g[i]);
    }
    crate::order::lemma_sum_le(s, t);
    assert(outflow(order, g, c) <= before@[c].forces.infantry);
}

/// No edge carries more than its throughput, counting both directions.
pub proof fn law_crossings_stay_within_throughput(
    before: HexMap,
    after: HexMap,
    intents: Seq<MovementIntent>,
    movement: MovementConfig,
    logistics: LogisticsConfig,
    step: MovementStep,
    x: Axial,
    y: Axial,
)
    requires
        ids_differ(intents),
        steps_to(before, after, intents, movement, logistics, step),
    ensures
        sum(
            Seq::new(
                intents.len(),
                |i: int|
                    if (intents[i].from == x && intents[i].to == y) || (intents[i].from == y
                        && intents[i].to == x) {
                        step.outcomes@[intents[i].id].approved as int
                    } else {
                        0
                    },
            ),
        ) <= before.limits_of(edge_of(x, y), logistics).throughput,
{
    let (order, amounts) = lemma_served(before, after, intents, movement, logistics, step);
    let e = edge_of(x, y);
    lemma_no_intent_twice(intents, order);
    let crossing = |a: MovementIntent|
        if (a.from == x && a.to == y) || (a.from == y && a.to == x) {
            step.outcomes@[a.id].approved as int
        } else {
            0
        };
    lemma_sum_rearranged(order, intents, crossing);
    assert forall|i: int| 0 <= i < order.len() implies step.outcomes@[order[i].id].approved
        == #[trigger] amounts[i] by {
        assert(step.outcomes@[order[i].id].approved == amounts[i]);
    }
    assert(Seq::new(order.len(), |i: int| crossing(order[i])) =~= edge_terms(order, amounts, e));
    assert(Seq::new(intents.len(), |i: int| crossing(intents[i])) =~= Seq::new(
        intents.len(),
        |i: int|
            if (intents[i].from == x && intents[i].to == y) || (intents[i].from == y
                && intents[i].to == x) {
                step.outcomes@[intents[i].id].approved as int
            } else {
                0
            },
    ));
    crate::movement::law_edges_carry_at_most_their_throughput(
        before,
        movement,
        logistics,
        order,
        amounts,
        e,
    );
}

/// Who comes first is not short of what others leave: an intent that nobody served
/// earlier shares its source or its edge with is short of soldiers only where fewer
/// stand there than it asks for, and of throughput only where the edge carries less;
/// and unless its destination is full, it gets the least of the three.
pub proof fn law_first_comers_get_their_fill(
    before: HexMap,
    after: HexMap,
    intents: Seq<MovementIntent>,
    movement: MovementConfig,
    logistics: LogisticsConfig,
    step: MovementStep,
    a: MovementIntent,
)
    requires
        steps_to(before, after, intents, movement, logistics, step),
        intents.contains(a),
        is_admissible(before@, movement, a),
        forall|b: MovementIntent| #[trigger]
            intents.contains(b) && (b.priority < a.priority || (b.priority == a.priority && b.id
                < a.id)) ==> b.from != a.from && !(b.from == a.to && b.to == a.from),
    ensures
        ({
            let o = step.outcomes@[a.id];
            let force = before@[a.from].forces.infantry as int;
            let width = before.limits_of(edge_of(a.from, a.to), logistics).throughput as int;
            &&& o.limits@.contains(MovementLimit::SourceStrength) <==> force < a.requested
            &&& o.limits@.contains(MovementLimit::EdgeThroughput) <==> width < a.requested
            &&& o.approved <= force
            &&& o.approved <= width
            &&& !o.limits@.contains(MovementLimit::DestinationCapacity) ==> o.approved == a.requested
                || o.approved == force || o.approved == width
        }),
{
    let (order, amounts) = lemma_served(before, after, intents, movement, logistics, step);
    let g = grants(before, movement, logistics, order);
    let k = lemma_place(intents, order, a);
    let e = edge_of(a.from, a.to);
    lemma_grants(before, movement, logistics, order);
    assert(fault(before@, movement, a) is None);
    lemma_grant_at(before, movement, logistics, order, k);
    lemma_limits(before, movement, logistics, order, amounts, k);
    assert(step.outcomes@[order[k].id].approved == amounts[k]);
    assert(0 <= amounts[k] <= g[k]);
    let out = flow_terms(sources(order.take(k)), g.take(k), a.from);
    let over = edge_terms(order.take(k), g.take(k), e);
    assert forall|i: int| 0 <= i < k implies #[trigger] order[i].from != a.from && edge_of(
        order[i].from,
        order[i].to,
    ) != e by {
        assert(served_before(order[i], order[k]));
        assert(order.to_set().contains(order[i]));
        assert(intents.to_set().contains(order[i]));
        assert(intents.contains(order[i]));
    }
    assert forall|i: int| 0 <= i < out.len() implies #[trigger] out[i] == 0 by {
        assert(order[i].from != a.from);
    }
    assert forall|i: int| 0 <= i < over.len() implies #[trigger] over[i] == 0 by {
        assert(order[i].from != a.from);
    }
    crate::order::lemma_sum_zeros(out);
    crate::order::lemma_sum_zeros(over);
}

} // verus!
