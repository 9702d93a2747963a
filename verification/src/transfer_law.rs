//! What a transfer plan means, said of its legs.
use vstd::prelude::*;
use crate::coord::{axial_lt, Axial};
use crate::map::{Cell, MovementConfig};
use crate::order::{lemma_sum_bounds, sum};
use crate::transfer::{
    allot, amounts_where, any_share, arrives, brought, free_capacity, is_leg, is_plan, is_sound,
    law_plans_stay_within_limits, leaves, lemma_amounts_push, moved, pair_before, pair_cost, plans,
    reaches, routing, taken, Share, TransferLeg, TransferPlan, TransferRequest,
};

verus! {

/// The order of legs: by cost, source and destination.
pub open spec fn key_lt(
    cost: int,
    source: Axial,
    destination: Axial,
    cost2: int,
    source2: Axial,
    destination2: Axial,
) -> bool {
    cost < cost2 || (cost == cost2 && (axial_lt(source, source2) || (source == source2 && axial_lt(
        destination,
        destination2,
    ))))
}

/// What the first legs take from a source.
pub open spec fn legs_from(legs: Seq<TransferLeg>, n: int, source: Axial) -> int {
    sum(
        Seq::new(
            n as nat,
            |j: int|
                if legs[j].source == source {
                    legs[j].amount as int
                } else {
                    0
                },
        ),
    )
}

/// What the first legs bring to a destination.
pub open spec fn legs_to(legs: Seq<TransferLeg>, n: int, destination: Axial) -> int {
    sum(
        Seq::new(
            n as nat,
            |j: int|
                if legs[j].destination == destination {
                    legs[j].amount as int
                } else {
                    0
                },
        ),
    )
}

/// The shares of the first pairs come first.
proof fn lemma_allot_prefix(cells: Map<Axial, Cell>, amount: int, pairs: Seq<(Axial, Axial)>, m: int)
    requires
        0 <= m <= pairs.len(),
    ensures
        ({
            let shares = allot(cells, amount, pairs);
            let first = allot(cells, amount, pairs.take(m));
            &&& first.len() <= shares.len()
            &&& first == shares.take(first.len() as int)
        }),
    decreases pairs.len() - m,
{
    let shares = allot(cells, amount, pairs);
    let first = allot(cells, amount, pairs.take(m));
    if m == pairs.len() {
        assert(pairs.take(m) =~= pairs);
        assert(shares.take(shares.len() as int) =~= shares);
    } else {
        lemma_allot_prefix(cells, amount, pairs, m + 1);
        let next = allot(cells, amount, pairs.take(m + 1));
        assert(pairs.take(m + 1).drop_last() =~= pairs.take(m));
        assert(first =~= next.take(first.len() as int));
        assert(first =~= shares.take(first.len() as int));
    }
}

/// Every share is that of a pair, with all earlier shares those of earlier pairs.
proof fn lemma_pair_of_share(cells: Map<Axial, Cell>, amount: int, pairs: Seq<(Axial, Axial)>, i: int)
    -> (m: int)
    requires
        0 <= i < allot(cells, amount, pairs).len(),
    ensures
        0 <= m < pairs.len(),
        ({
            let shares = allot(cells, amount, pairs);
            &&& pairs[m] == (shares[i].0, shares[i].1)
            &&& allot(cells, amount, pairs.take(m)) == shares.take(i)
            &&& allot(cells, amount, pairs.take(m + 1)) == shares.take(i + 1)
            &&& shares[i].2 > 0
            &&& shares[i].2 <= amount - moved(shares.take(i))
        }),
    decreases pairs.len(),
{
    let shares = allot(cells, amount, pairs);
    let n = pairs.len() - 1;
    let earlier = allot(cells, amount, pairs.drop_last());
    assert(pairs.drop_last() =~= pairs.take(n));
    if i < earlier.len() {
        let m = lemma_pair_of_share(cells, amount, pairs.drop_last(), i);
        assert(pairs.drop_last().take(m) =~= pairs.take(m));
        assert(pairs.drop_last().take(m + 1) =~= pairs.take(m + 1));
        assert(earlier.take(i) =~= shares.take(i));
        assert(earlier.take(i + 1) =~= shares.take(i + 1));
        m
    } else {
        assert(i == earlier.len());
        assert(shares.take(i) =~= earlier);
        assert(shares.take(i + 1) =~= shares);
        assert(pairs.take(n + 1) =~= pairs);
        n
    }
}

/// Once a pair has had its turn, the request, its source or the room at its
/// destination is used up.
proof fn lemma_turn_uses_up(cells: Map<Axial, Cell>, amount: int, pairs: Seq<(Axial, Axial)>, m: int)
    requires
        0 <= m < pairs.len(),
        amount >= 0,
    ensures
        ({
            let shares = allot(cells, amount, pairs.take(m + 1));
            let (s, d) = pairs[m];
            ||| moved(shares) >= amount
            ||| taken(shares, s) >= cells[s].forces.infantry
            ||| brought(shares, d) >= free_capacity(cells[d])
        }),
{
    let (s, d) = pairs[m];
    let earlier = allot(cells, amount, pairs.take(m));
    let shares = allot(cells, amount, pairs.take(m + 1));
    assert(pairs.take(m + 1).drop_last() =~= pairs.take(m));
    if shares.len() > earlier.len() {
        let x = shares.last();
        lemma_amounts_push(earlier, x, any_share());
        lemma_amounts_push(earlier, x, leaves(s));
        lemma_amounts_push(earlier, x, arrives(d));
    }
}

/// The amounts of more shares are no less.
proof fn lemma_amounts_grow(
    shares: Seq<Share>,
    i: int,
    j: int,
    wanted: spec_fn(Share) -> bool,
)
    requires
        0 <= i <= j <= shares.len(),
        forall|k: int| 0 <= k < shares.len() ==> (#[trigger] shares[k]).2 >= 0,
    ensures
        sum(amounts_where(shares.take(i), wanted)) <= sum(amounts_where(shares.take(j), wanted)),
{
    let t = amounts_where(shares.take(j), wanted);
    assert(amounts_where(shares.take(i), wanted) =~= t.take(i));
    assert forall|k: int| 0 <= k < t.len() implies 0 <= #[trigger] t[k] by {
        assert(shares[k].2 >= 0);
    }
    lemma_sum_bounds(t, i);
}

/// The legs carry the shares.
proof fn lemma_legs_carry(
    cells: Map<Axial, Cell>,
    movement: MovementConfig,
    request: TransferRequest,
    pairs: Seq<(Axial, Axial)>,
    plan: TransferPlan,
    n: int,
    c: Axial,
)
    requires
        is_plan(cells, movement, request, pairs, plan),
        0 <= n <= plan.legs@.len(),
    ensures
        ({
            let shares = allot(cells, request.amount as int, pairs);
            &&& legs_from(plan.legs@, n, c) == taken(shares.take(n), c)
            &&& legs_to(plan.legs@, n, c) == brought(shares.take(n), c)
            &&& sum(Seq::new(n as nat, |j: int| plan.legs@[j].amount as int)) == moved(
                shares.take(n),
            )
        }),
{
    let shares = allot(cells, request.amount as int, pairs);
    let legs = plan.legs@;
    assert forall|j: int| 0 <= j < n implies (#[trigger] legs[j]).source == shares[j].0
        && legs[j].destination == shares[j].1 && legs[j].amount == shares[j].2 by {
        assert(is_leg(cells, movement, request.owner, shares[j], legs[j]));
    }
    assert(amounts_where(shares.take(n), leaves(c)) =~= Seq::new(
        n as nat,
        |j: int|
            if legs[j].source == c {
                legs[j].amount as int
            } else {
                0
            },
    )) by {
        assert forall|j: int| 0 <= j < n implies amounts_where(shares.take(n), leaves(c))[j]
            == (if legs[j].source == c {
            legs[j].amount as int
        } else {
            0
        }) by {
            assert(shares.take(n)[j] == shares[j]);
        }
    }
    assert(amounts_where(shares.take(n), arrives(c)) =~= Seq::new(
        n as nat,
        |j: int|
            if legs[j].destination == c {
                legs[j].amount as int
            } else {
                0
            },
    )) by {
        assert forall|j: int| 0 <= j < n implies amounts_where(shares.take(n), arrives(c))[j]
            == (if legs[j].destination == c {
            legs[j].amount as int
        } else {
            0
        }) by {
            assert(shares.take(n)[j] == shares[j]);
        }
    }
    assert(amounts_where(shares.take(n), any_share()) =~= Seq::new(
        n as nat,
        |j: int| legs[j].amount as int,
    )) by {
        assert forall|j: int| 0 <= j < n implies amounts_where(shares.take(n), any_share())[j]
            == legs[j].amount by {
            assert(shares.take(n)[j] == shares[j]);
        }
    }
}

proof fn lemma_shares_positive(cells: Map<Axial, Cell>, amount: int, pairs: Seq<(Axial, Axial)>)
    ensures
        forall|k: int|
            0 <= k < allot(cells, amount, pairs).len() ==> (#[trigger] allot(cells, amount, pairs)[k]).2
                > 0,
    decreases pairs.len(),
{
    if pairs.len() > 0 {
        lemma_shares_positive(cells, amount, pairs.drop_last());
        let shares = allot(cells, amount, pairs);
        let earlier = allot(cells, amount, pairs.drop_last());
        assert forall|k: int| 0 <= k < shares.len() implies (#[trigger] shares[k]).2 > 0 by {
            if k < earlier.len() {
                assert(shares[k] == earlier[k]);
            }
        }
    }
}

/// A leg goes from a selected source to a selected destination, carries something,
/// and takes a cheapest way through the owner's cells.
pub proof fn law_legs_take_the_cheapest_way(
    cells: Map<Axial, Cell>,
    movement: MovementConfig,
    request: TransferRequest,
    plan: TransferPlan,
    i: int,
)
    requires
        plans(cells, movement, request, plan),
        0 <= i < plan.legs@.len(),
    ensures
        ({
            let leg = plan.legs@[i];
            let r = routing(cells, movement, request.owner, leg.source, leg.destination);
            &&& request.sources@.contains(leg.source)
            &&& request.destinations@.contains(leg.destination)
            &&& leg.amount > 0
            &&& leg.path.cells@.len() > 0
            &&& leg.path.cells@[0] == leg.source
            &&& leg.path.cells@.last() == leg.destination
            &&& forall|k: int|
                0 <= k < leg.path.cells@.len() - 1 ==> r.linked(
                    #[trigger] leg.path.cells@[k],
                    leg.path.cells@[k + 1],
                )
            &&& leg.path.total_cost == r.route_cost(leg.path.cells@)
            &&& forall|o: Seq<Axial>| #[trigger]
                r.is_route(o) && o.last() == leg.destination ==> leg.path.total_cost
                    <= r.route_cost(o)
        }),
{
    let pairs = choose|pairs: Seq<(Axial, Axial)>| #[trigger]
        is_plan(cells, movement, request, pairs, plan);
    let shares = allot(cells, request.amount as int, pairs);
    assert(is_leg(cells, movement, request.owner, shares[i], plan.legs@[i]));
    let m = lemma_pair_of_share(cells, request.amount as int, pairs, i);
    assert(pairs.contains(pairs[m]));
    assert(request.sources@.to_set().contains(pairs[m].0));
    assert(request.destinations@.to_set().contains(pairs[m].1));
}

/// The legs of a plan come in the order of their cost, then of their source, then of
/// their destination: the cheapest first.
pub proof fn law_cheap_legs_come_first(
    cells: Map<Axial, Cell>,
    movement: MovementConfig,
    request: TransferRequest,
    plan: TransferPlan,
    i: int,
    j: int,
)
    requires
        plans(cells, movement, request, plan),
        0 <= i < j < plan.legs@.len(),
    ensures
        key_lt(
            plan.legs@[i].path.total_cost as int,
            plan.legs@[i].source,
            plan.legs@[i].destination,
            plan.legs@[j].path.total_cost as int,
            plan.legs@[j].source,
            plan.legs@[j].destination,
        ),
{
    let pairs = choose|pairs: Seq<(Axial, Axial)>| #[trigger]
        is_plan(cells, movement, request, pairs, plan);
    let amount = request.amount as int;
    let shares = allot(cells, amount, pairs);
    assert(is_leg(cells, movement, request.owner, shares[i], plan.legs@[i]));
    assert(is_leg(cells, movement, request.owner, shares[j], plan.legs@[j]));
    let a = lemma_pair_of_share(cells, amount, pairs, i);
    let b = lemma_pair_of_share(cells, amount, pairs, j);
    if b <= a {
        // More pairs have no fewer shares.
        lemma_allot_prefix(cells, amount, pairs.take(a), b);
        assert(pairs.take(a).take(b) =~= pairs.take(b));
        assert(shares.take(j).len() <= shares.take(i).len());
    }
    assert(pair_before(cells, movement, request.owner, pairs[a], pairs[b]));
}

/// Nobody is passed over: where a way leads from a selected source to a selected
/// destination, and its cost, source and destination come before those of some leg,
/// the legs before that one have used up the soldiers at the source or the room at the
/// destination. So no leg goes farther while a nearer destination has room.
pub proof fn law_nobody_is_passed_over(
    cells: Map<Axial, Cell>,
    movement: MovementConfig,
    request: TransferRequest,
    plan: TransferPlan,
    i: int,
    source: Axial,
    destination: Axial,
    way: Seq<Axial>,
)
    requires
        cells.dom().finite(),
        is_sound(cells, request),
        plans(cells, movement, request, plan),
        0 <= i < plan.legs@.len(),
        request.sources@.contains(source),
        request.destinations@.contains(destination),
        ({
            let r = routing(cells, movement, request.owner, source, destination);
            &&& r.is_route(way)
            &&& way.last() == destination
            &&& key_lt(
                r.route_cost(way) as int,
                source,
                destination,
                plan.legs@[i].path.total_cost as int,
                plan.legs@[i].source,
                plan.legs@[i].destination,
            )
        }),
    ensures
        ({
            let there = cells[destination];
            ||| legs_from(plan.legs@, i, source) == cells[source].forces.infantry
            ||| legs_to(plan.legs@, i, destination) + there.forces.infantry
                == there.military_capacity
            ||| there.forces.infantry >= there.military_capacity
        }),
{
    let pairs = choose|pairs: Seq<(Axial, Axial)>| #[trigger]
        is_plan(cells, movement, request, pairs, plan);
    let amount = request.amount as int;
    let shares = allot(cells, amount, pairs);
    let r = routing(cells, movement, request.owner, source, destination);
    assert(is_leg(cells, movement, request.owner, shares[i], plan.legs@[i]));
    let leg = plan.legs@[i];
    crate::pathfinding::law_best_route_is_cheapest(
        routing(cells, movement, request.owner, leg.source, leg.destination),
    );
    lemma_way_reaches(cells, movement, request, source, destination, way);
    assert(request.sources@.to_set().contains(source));
    assert(request.destinations@.to_set().contains(destination));
    assert(pairs.contains((source, destination)));
    let m = choose|m: int| 0 <= m < pairs.len() && pairs[m] == (source, destination);
    let a = lemma_pair_of_share(cells, amount, pairs, i);
    if a <= m {
        if a < m {
            assert(pair_before(cells, movement, request.owner, pairs[a], pairs[m]));
        }
    }
    assert(m < a);
    let done = allot(cells, amount, pairs.take(m + 1));
    lemma_turn_uses_up(cells, amount, pairs, m);
    lemma_allot_prefix(cells, amount, pairs.take(a), m + 1);
    assert(pairs.take(a).take(m + 1) =~= pairs.take(m + 1));
    let n = done.len() as int;
    assert(done =~= shares.take(i).take(n));
    assert(shares.take(i).take(n) =~= shares.take(n));
    lemma_shares_positive(cells, amount, pairs);
    lemma_amounts_grow(shares, n, i, any_share());
    lemma_amounts_grow(shares, n, i, leaves(source));
    lemma_amounts_grow(shares, n, i, arrives(destination));
    lemma_legs_carry(cells, movement, request, pairs, plan, i, source);
    lemma_legs_carry(cells, movement, request, pairs, plan, i, destination);
    law_plans_stay_within_limits(cells, amount, pairs.take(a), source);
    law_plans_stay_within_limits(cells, amount, pairs.take(a), destination);
}

/// Where something stays unplanned, every pair that a way joins has used up the
/// soldiers at its source or the room at its destination. What is planned is what the
/// legs carry; no source gives more than stands there, no destination takes more than
/// it has room for.
pub proof fn law_plans_leave_no_room_unused(
    cells: Map<Axial, Cell>,
    movement: MovementConfig,
    request: TransferRequest,
    plan: TransferPlan,
    source: Axial,
    destination: Axial,
    way: Seq<Axial>,
)
    requires
        cells.dom().finite(),
        is_sound(cells, request),
        plans(cells, movement, request, plan),
        request.sources@.contains(source),
        request.destinations@.contains(destination),
        ({
            let r = routing(cells, movement, request.owner, source, destination);
            r.is_route(way) && way.last() == destination && r.route_cost(way) < u64::MAX
        }),
    ensures
        plan.planned + plan.unplanned == request.amount,
        plan.requested == request.amount,
        plan.owner == request.owner,
        plan.planned == sum(Seq::new(plan.legs@.len(), |j: int| plan.legs@[j].amount as int)),
        legs_from(plan.legs@, plan.legs@.len() as int, source) <= cells[source].forces.infantry,
        ({
            let there = cells[destination];
            let given = legs_from(plan.legs@, plan.legs@.len() as int, source);
            let got = legs_to(plan.legs@, plan.legs@.len() as int, destination);
            &&& got == 0 || got + there.forces.infantry <= there.military_capacity
            &&& plan.unplanned > 0 ==> given == cells[source].forces.infantry || got
                + there.forces.infantry == there.military_capacity || there.forces.infantry
                >= there.military_capacity
        }),
{
    let pairs = choose|pairs: Seq<(Axial, Axial)>| #[trigger]
        is_plan(cells, movement, request, pairs, plan);
    let amount = request.amount as int;
    let shares = allot(cells, amount, pairs);
    let all = shares.len() as int;
    lemma_way_reaches(cells, movement, request, source, destination, way);
    assert(request.sources@.to_set().contains(source));
    assert(request.destinations@.to_set().contains(destination));
    assert(pairs.contains((source, destination)));
    let m = choose|m: int| 0 <= m < pairs.len() && pairs[m] == (source, destination);
    let done = allot(cells, amount, pairs.take(m + 1));
    lemma_turn_uses_up(cells, amount, pairs, m);
    lemma_allot_prefix(cells, amount, pairs, m + 1);
    let n = done.len() as int;
    lemma_shares_positive(cells, amount, pairs);
    assert(shares.take(all) =~= shares);
    lemma_amounts_grow(shares, n, all, any_share());
    lemma_amounts_grow(shares, n, all, leaves(source));
    lemma_amounts_grow(shares, n, all, arrives(destination));
    lemma_legs_carry(cells, movement, request, pairs, plan, all, source);
    lemma_legs_carry(cells, movement, request, pairs, plan, all, destination);
    law_plans_stay_within_limits(cells, amount, pairs, source);
    law_plans_stay_within_limits(cells, amount, pairs, destination);
}

/// Where a way exists, the pair is joined, at no greater cost.
proof fn lemma_way_reaches(
    cells: Map<Axial, Cell>,
    movement: MovementConfig,
    request: TransferRequest,
    source: Axial,
    destination: Axial,
    way: Seq<Axial>,
)
    requires
        cells.dom().finite(),
        is_sound(cells, request),
        request.sources@.contains(source),
        request.destinations@.contains(destination),
        ({
            let r = routing(cells, movement, request.owner, source, destination);
            r.is_route(way) && way.last() == destination && r.route_cost(way) < u64::MAX
        }),
    ensures
        reaches(cells, movement, request.owner, source, destination),
        pair_cost(cells, movement, request.owner, (source, destination)) <= routing(
            cells,
            movement,
            request.owner,
            source,
            destination,
        ).route_cost(way),
{
    let r = routing(cells, movement, request.owner, source, destination);
    assert(request.sources@.to_set().contains(source));
    assert(request.destinations@.to_set().contains(destination));
    assert(r.enterable(source) && r.enterable(destination));
    crate::pathfinding::law_best_route_is_cheapest(r);
}

/// A plan names, in order, the selected destinations that are full already, and the
/// selected ends that no way joins to a selected other end.
pub proof fn law_plans_name_what_cannot_serve(
    cells: Map<Axial, Cell>,
    movement: MovementConfig,
    request: TransferRequest,
    plan: TransferPlan,
    c: Axial,
)
    requires
        plans(cells, movement, request, plan),
    ensures
        plan.full_destinations@.contains(c) <==> request.destinations@.contains(c)
            && cells[c].forces.infantry >= cells[c].military_capacity,
        plan.unreachable_sources@.contains(c) <==> request.sources@.contains(c) && forall|d: Axial|
            request.destinations@.contains(d) ==> !#[trigger] reaches(
                cells,
                movement,
                request.owner,
                c,
                d,
            ),
        plan.unreachable_destinations@.contains(c) <==> request.destinations@.contains(c) && forall|
            s: Axial,
        |
            request.sources@.contains(s) ==> !#[trigger] reaches(
                cells,
                movement,
                request.owner,
                s,
                c,
            ),
{
    let pairs = choose|pairs: Seq<(Axial, Axial)>| #[trigger]
        is_plan(cells, movement, request, pairs, plan);
    let sources = request.sources@.to_set();
    let destinations = request.destinations@.to_set();
    vstd::seq_lib::seq_to_set_is_finite(request.sources@);
    vstd::seq_lib::seq_to_set_is_finite(request.destinations@);
    let full = destinations.filter(|d: Axial| free_capacity(cells[d]) == 0);
    let lost = sources.filter(
        |s: Axial|
            forall|d: Axial|
                destinations.contains(d) ==> !#[trigger] reaches(
                    cells,
                    movement,
                    request.owner,
                    s,
                    d,
                ),
    );
    let cut = destinations.filter(
        |d: Axial|
            forall|s: Axial|
                sources.contains(s) ==> !#[trigger] reaches(
                    cells,
                    movement,
                    request.owner,
                    s,
                    d,
                ),
    );
    crate::axials::lemma_ordered(full);
    crate::axials::lemma_ordered(lost);
    crate::axials::lemma_ordered(cut);
    assert(full.contains(c) <==> plan.full_destinations@.to_set().contains(c));
    assert(lost.contains(c) <==> plan.unreachable_sources@.to_set().contains(c));
    assert(cut.contains(c) <==> plan.unreachable_destinations@.to_set().contains(c));
    assert forall|d: Axial| destinations.contains(d) <==> request.destinations@.contains(d) by {}
    assert forall|d: Axial| sources.contains(d) <==> request.sources@.contains(d) by {}
}

} // verus!
