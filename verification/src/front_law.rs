//! What fronts mean: which edges they hold, how cells reach them, and who comes
//! first.
use vstd::prelude::*;
use crate::axials::{lemma_ordered, ordered};
use crate::coord::{adjacent, axial_lt, Axial};
use crate::front::{anchors, contact_lt, faces_along, faces_outward, lists, DirectedFrontEdge};
use crate::local_front::{earlier, lemma_trail_is_way, Ground, LocalFrontLabel, LocalFrontRoute};
use crate::order::sum;
use crate::perimeter::{fronts_ascending, stretch, Perimeter, StrategicFront};
use crate::ring::{
    at, faces, is_arc, is_context, is_lone_from, lemma_context_is_unique, StrategicExterior,
};

verus! {

/// Whether one place comes before another: in an earlier column, or in the same
/// column and an earlier row.
pub open spec fn is_earlier(a: Axial, b: Axial) -> bool {
    a.q < b.q || (a.q == b.q && a.r < b.r)
}

/// The edges of a front in a direction are exactly those that lead from a
/// selected cell one step in that direction, out of the selection, and are
/// accepted; each once, by their sources.
pub proof fn law_directed_fronts_lead_out(
    sources: Set<Axial>,
    direction: Axial,
    eligible: spec_fn(Axial, Axial) -> bool,
    edges: Seq<DirectedFrontEdge>,
)
    requires
        lists(edges, faces_along(sources, direction, eligible)),
        forall|c: Axial| #[trigger]
            sources.contains(c) ==> i32::MIN <= c.q + direction.q <= i32::MAX && i32::MIN <= c.r
                + direction.r <= i32::MAX,
    ensures
        forall|i: int|
            0 <= i < edges.len() ==> {
                let e = #[trigger] edges[i];
                &&& sources.contains(e.source)
                &&& !sources.contains(e.target)
                &&& e.target.q == e.source.q + direction.q
                &&& e.target.r == e.source.r + direction.r
                &&& eligible(e.source, e.target)
            },
        forall|i: int, j: int|
            0 <= i < j < edges.len() ==> is_earlier(
                (#[trigger] edges[i]).source,
                (#[trigger] edges[j]).source,
            ),
        forall|c: Axial, d: Axial| #[trigger]
            eligible(c, d) && sources.contains(c) && !sources.contains(d) && d.q == c.q
                + direction.q && d.r == c.r + direction.r ==> edges.contains(
                DirectedFrontEdge { source: c, target: d },
            ),
{
    let f = faces_along(sources, direction, eligible);
    assert forall|i: int| 0 <= i < edges.len() implies f(#[trigger] edges[i]) by {
        assert(edges.contains(edges[i]));
    }
    assert forall|i: int, j: int| 0 <= i < j < edges.len() implies is_earlier(
        (#[trigger] edges[i]).source,
        (#[trigger] edges[j]).source,
    ) by {
        assert(contact_lt(edges[i], edges[j]));
        assert(f(edges[i]) && f(edges[j]));
    }
    assert forall|c: Axial, d: Axial| #[trigger]
        eligible(c, d) && sources.contains(c) && !sources.contains(d) && d.q == c.q + direction.q
            && d.r == c.r + direction.r implies edges.contains(
        DirectedFrontEdge { source: c, target: d },
    ) by {
        let e = DirectedFrontEdge { source: c, target: d };
        assert(f(e));
    }
}

/// The edges of a front all round are exactly those that lead from a selected
/// cell to a neighbour outside and are accepted; each once, by their sources and
/// then their targets.
pub proof fn law_fronts_all_round_lead_out(
    sources: Set<Axial>,
    eligible: spec_fn(Axial, Axial) -> bool,
    edges: Seq<DirectedFrontEdge>,
)
    requires
        lists(edges, faces_outward(sources, eligible)),
    ensures
        forall|i: int|
            0 <= i < edges.len() ==> {
                let e = #[trigger] edges[i];
                &&& sources.contains(e.source)
                &&& !sources.contains(e.target)
                &&& adjacent(e.source, e.target)
                &&& eligible(e.source, e.target)
            },
        forall|i: int, j: int|
            0 <= i < j < edges.len() ==> {
                ||| is_earlier((#[trigger] edges[i]).source, (#[trigger] edges[j]).source)
                ||| edges[i].source == edges[j].source && is_earlier(
                    edges[i].target,
                    edges[j].target,
                )
            },
        forall|c: Axial, d: Axial| #[trigger]
            eligible(c, d) && sources.contains(c) && !sources.contains(d) && adjacent(c, d)
                ==> edges.contains(DirectedFrontEdge { source: c, target: d }),
{
    let f = faces_outward(sources, eligible);
    assert forall|i: int| 0 <= i < edges.len() implies f(#[trigger] edges[i]) by {
        assert(edges.contains(edges[i]));
    }
    assert forall|i: int, j: int| 0 <= i < j < edges.len() implies {
        ||| is_earlier((#[trigger] edges[i]).source, (#[trigger] edges[j]).source)
        ||| edges[i].source == edges[j].source && is_earlier(edges[i].target, edges[j].target)
    } by {
        assert(contact_lt(edges[i], edges[j]));
    }
    assert forall|c: Axial, d: Axial| #[trigger]
        eligible(c, d) && sources.contains(c) && !sources.contains(d) && adjacent(
            c,
            d,
        ) implies edges.contains(DirectedFrontEdge { source: c, target: d }) by {
        let e = DirectedFrontEdge { source: c, target: d };
        assert(f(e));
    }
}

/// Of the edges that lead to one target, the one with the earliest source is kept.
pub proof fn law_targets_keep_their_earliest_source(
    edges: Seq<DirectedFrontEdge>,
    kept: Seq<DirectedFrontEdge>,
    i: int,
    j: int,
)
    requires
        lists(kept, anchors(edges)),
        0 <= i < kept.len(),
        0 <= j < edges.len(),
        kept[i].target == edges[j].target,
    ensures
        kept[i].source == edges[j].source || is_earlier(kept[i].source, edges[j].source),
        edges.contains(kept[i]),
{
    assert(kept.contains(kept[i]));
    assert(anchors(edges)(kept[i]));
    assert(edges.contains(edges[j]));
}

/// A way through a selection to one of its contacts: from selected cell to
/// selected neighbour, each step at a price, up to a cell with an edge out.
pub open spec fn leads_out(g: Ground, p: Seq<Axial>) -> bool {
    &&& p.len() > 0
    &&& forall|k: int| 0 <= k < p.len() - 1 ==> steps_inside(g, #[trigger] p[k], p[k + 1])
    &&& exists|t: Axial| #[trigger] touches(g, p.last(), t)
}

/// Whether an edge is offered from a selected cell to a neighbour outside.
pub open spec fn touches(g: Ground, c: Axial, t: Axial) -> bool {
    &&& g.edges.contains(DirectedFrontEdge { source: c, target: t })
    &&& g.selected.contains(c)
    &&& !g.selected.contains(t)
    &&& adjacent(c, t)
}

pub open spec fn steps_inside(g: Ground, a: Axial, b: Axial) -> bool {
    &&& g.selected.contains(a)
    &&& g.selected.contains(b)
    &&& adjacent(a, b)
    &&& (g.toll)(a, b) matches Some(price) && price > 0
}

/// The prices of the steps of a way.
pub open spec fn prices(g: Ground, p: Seq<Axial>) -> Seq<int> {
    Seq::new((p.len() - 1) as nat, |k: int| (g.toll)(p[k], p[k + 1]).unwrap() as int)
}

proof fn lemma_prices(g: Ground, p: Seq<Axial>)
    requires
        p.len() > 0,
    ensures
        g.way_cost(p) == sum(prices(g, p)),
    decreases p.len(),
{
    let s = prices(g, p);
    if p.len() > 1 {
        let rest = p.drop_first();
        lemma_prices(g, rest);
        assert(s =~= seq![s[0]] + prices(g, rest));
        crate::order::lemma_sum_concat(seq![s[0]], prices(g, rest));
        assert(seq![s[0]].drop_last().len() == 0);
        assert(sum(seq![s[0]].drop_last()) == 0);
        assert(sum(seq![s[0]]) == s[0]);
    } else {
        assert(s.len() == 0);
    }
}

proof fn lemma_ways(g: Ground, p: Seq<Axial>)
    ensures
        g.is_way(p) <==> leads_out(g, p),
{
    assert forall|a: Axial, b: Axial| g.passes(a, b) == #[trigger] steps_inside(g, a, b) by {}
    if p.len() > 0 {
        assert forall|t: Axial|
            g.contact(DirectedFrontEdge { source: p.last(), target: t }) == #[trigger] touches(
                g,
                p.last(),
                t,
            ) by {}
        if g.is_way(p) {
            let t = choose|t: Axial| #[trigger]
                g.contact(DirectedFrontEdge { source: p.last(), target: t });
            assert(touches(g, p.last(), t));
            assert forall|k: int| 0 <= k < p.len() - 1 implies steps_inside(
                g,
                #[trigger] p[k],
                p[k + 1],
            ) by {
                assert(g.passes(p[k], p[k + 1]));
            }
        }
        if leads_out(g, p) {
            let t = choose|t: Axial| #[trigger] touches(g, p.last(), t);
            assert(g.contact(DirectedFrontEdge { source: p.last(), target: t }));
            assert forall|k: int| 0 <= k < p.len() - 1 implies g.passes(
                #[trigger] p[k],
                p[k + 1],
            ) by {
                assert(steps_inside(g, p[k], p[k + 1]));
            }
        }
    }
}

/// Labels are no worse than any way: they cost no more, and at the same cost the
/// way ends at no earlier place.
proof fn lemma_no_way_is_better(g: Ground, labels: Map<Axial, LocalFrontLabel>, p: Seq<Axial>)
    requires
        g.is_labelling(labels),
        g.is_way(p),
        g.way_cost(p) <= u64::MAX,
    ensures
        labels.contains_key(p[0]),
        labels[p[0]].cost <= g.way_cost(p),
        labels[p[0]].cost == g.way_cost(p) ==> !axial_lt(p.last(), labels[p[0]].boundary),
    decreases p.len(),
{
    assert(g.settles(labels, labels.dom(), p[0]));
    if p.len() > 1 {
        let rest = p.drop_first();
        assert forall|k: int| 0 <= k < rest.len() - 1 implies g.passes(
            #[trigger] rest[k],
            rest[k + 1],
        ) by {
            assert(g.passes(p[k + 1], p[k + 1 + 1]));
        }
        assert(rest.last() == p.last());
        lemma_no_way_is_better(g, labels, rest);
        assert(g.passes(p[0], p[0int + 1]));
        assert(g.offer(labels, p[1], p[0]) is Some);
        let offer = g.offer(labels, p[1], p[0]).unwrap();
        assert(labels[p[0]].le(offer));
    }
}

/// Every route leads through the selection to one of its contacts and out by it.
/// It costs inside what its steps cost, no way out from the same cell costs less,
/// and none that costs as little ends at an earlier place.
pub proof fn law_local_routes_are_cheapest(
    g: Ground,
    routes: Map<Axial, LocalFrontRoute>,
    c: Axial,
    other: Seq<Axial>,
)
    requires
        g.are_routes(routes),
        routes.contains_key(c),
        leads_out(g, other),
        other[0] == c,
    ensures
        ({
            let route = routes[c];
            let inside = route.cells@.drop_last();
            &&& route.cells@.len() > 1
            &&& route.cells@[0] == c
            &&& route.cells@.last() == route.edge.target
            &&& inside.last() == route.edge.source
            &&& touches(g, route.edge.source, route.edge.target)
            &&& leads_out(g, inside)
            &&& route.interior_cost == sum(prices(g, inside))
            &&& sum(prices(g, inside)) <= sum(prices(g, other))
            &&& sum(prices(g, inside)) == sum(prices(g, other)) ==> inside.last() == other.last()
                || is_earlier(inside.last(), other.last())
        }),
{
    let labels = choose|labels: Map<Axial, LocalFrontLabel>| #[trigger]
        g.is_labelling(labels) && labels.dom() == routes.dom() && forall|c: Axial| #[trigger]
            routes.contains_key(c) ==> g.follows(labels, c, routes[c]);
    let route = routes[c];
    let inside = route.cells@.drop_last();
    assert(g.follows(labels, c, route));
    assert(inside.last() == route.cells@[route.cells@.len() - 2]);
    lemma_trail_is_way(g, labels, inside);
    lemma_ways(g, inside);
    lemma_prices(g, inside);
    lemma_ways(g, other);
    lemma_prices(g, other);
    if g.way_cost(other) <= u64::MAX {
        lemma_no_way_is_better(g, labels, other);
    }
    let b = labels[c].boundary;
    let targets = g.targets_of(b);
    let s = ordered(targets);
    let k = earlier(labels, c).len() as int % s.len() as int;
    assert(touches(g, b, route.edge.target)) by {
        lemma_ordered_within(g, labels, c);
    }
}

/// The contacts of a boundary cell can be listed.
proof fn lemma_ordered_within(g: Ground, labels: Map<Axial, LocalFrontLabel>, c: Axial)
    requires
        g.is_labelling(labels),
        ordered(g.targets_of(labels[c].boundary)).len() > 0,
    ensures
        forall|k: int|
            0 <= k < ordered(g.targets_of(labels[c].boundary)).len() ==> touches(
                g,
                labels[c].boundary,
                #[trigger] ordered(g.targets_of(labels[c].boundary))[k],
            ),
{
    let b = labels[c].boundary;
    let targets = g.targets_of(b);
    let s = ordered(targets);
    lemma_targets_finite(g, b);
    lemma_ordered(targets);
    assert forall|k: int| 0 <= k < s.len() implies touches(g, b, #[trigger] s[k]) by {
        assert(s.to_set().contains(s[k]));
        assert(targets.contains(s[k]));
    }
}

/// A cell has finitely many contacts.
proof fn lemma_targets_finite(g: Ground, c: Axial)
    ensures
        g.targets_of(c).finite(),
{
    let around = Set::new(|d: int| 0 <= d < 6).map(|d: int| c.step(d));
    let six = vstd::set_lib::set_int_range(0, 6);
    vstd::set_lib::lemma_int_range(0, 6);
    let f = |d: int| c.step(d);
    six.lemma_map_finite(f);
    assert forall|t: Axial| g.targets_of(c).contains(t) implies six.map(f).contains(t) by {
        assert(adjacent(c, t));
        lemma_neighbour(c, t);
        let d = choose|d: int| 0 <= d < 6 && #[trigger] c.step(d) == t;
        assert(six.contains(d));
        assert(f(d) == t);
    }
    assert(g.targets_of(c).subset_of(six.map(f)));
    vstd::set_lib::lemma_len_subset(g.targets_of(c), six.map(f));
}

proof fn lemma_neighbour(c: Axial, t: Axial)
    requires
        adjacent(c, t),
    ensures
        exists|d: int| 0 <= d < 6 && #[trigger] c.step(d) == t,
{
    let x = t.q - c.q;
    let y = t.r - c.r;
    if x == 1 && y == 0 {
        assert(c.step(0) == t);
    } else if x == 1 && y == -1 {
        assert(c.step(1) == t);
    } else if x == 0 && y == -1 {
        assert(c.step(2) == t);
    } else if x == -1 && y == 0 {
        assert(c.step(3) == t);
    } else if x == -1 && y == 1 {
        assert(c.step(4) == t);
    } else {
        assert(x == 0 && y == 1);
        assert(c.step(5) == t);
    }
}

/// The cells that feed one contact cell take turns at its edges: the earliest of
/// them leaves by the earliest edge, and of two with none between them the later
/// one leaves by the next edge, or by the earliest again behind the last.
pub proof fn law_feeders_take_turns(
    g: Ground,
    routes: Map<Axial, LocalFrontRoute>,
    c: Axial,
    d: Axial,
    t: Axial,
)
    requires
        g.are_routes(routes),
        routes.contains_key(c),
        routes.contains_key(d),
        routes[c].edge.source == routes[d].edge.source,
        is_earlier(c, d),
        forall|e: Axial| #[trigger]
            routes.contains_key(e) && routes[e].edge.source == routes[c].edge.source
                ==> !(is_earlier(c, e) && is_earlier(e, d)),
        touches(g, routes[c].edge.source, t),
    ensures
        (forall|e: Axial| #[trigger]
            routes.contains_key(e) && routes[e].edge.source == routes[c].edge.source
                ==> !is_earlier(e, c)) ==> !is_earlier(t, routes[c].edge.target),
        is_earlier(routes[c].edge.target, routes[d].edge.target) ==> !(is_earlier(
            routes[c].edge.target,
            t,
        ) && is_earlier(t, routes[d].edge.target)),
        !is_earlier(routes[c].edge.target, routes[d].edge.target) ==> !is_earlier(
            routes[c].edge.target,
            t,
        ) && !is_earlier(t, routes[d].edge.target),
{
    let labels = choose|labels: Map<Axial, LocalFrontLabel>| #[trigger]
        g.is_labelling(labels) && labels.dom() == routes.dom() && forall|c: Axial| #[trigger]
            routes.contains_key(c) ==> g.follows(labels, c, routes[c]);
    assert(g.follows(labels, c, routes[c]));
    assert(g.follows(labels, d, routes[d]));
    let b = labels[c].boundary;
    assert(labels[d].boundary == b);
    let targets = g.targets_of(b);
    let s = ordered(targets);
    let n = s.len() as int;
    lemma_targets_finite(g, b);
    lemma_ordered(targets);
    assert(targets.contains(t));
    assert(s.to_set().contains(t));
    let z = choose|z: int| 0 <= z < n && s[z] == t;
    assert forall|e: Axial| labels.contains_key(e) implies (#[trigger] labels[e]).boundary
        == routes[e].edge.source by {
        assert(routes.contains_key(e));
        assert(g.follows(labels, e, routes[e]));
    }
    let before = earlier(labels, c);
    let after = earlier(labels, d);
    assert(before.subset_of(labels.dom()));
    vstd::set_lib::lemma_len_subset(before, labels.dom());
    assert(after =~= before.insert(c)) by {
        assert forall|e: Axial| after.contains(e) <==> before.insert(c).contains(e) by {
            if after.contains(e) && e != c {
                assert(routes.contains_key(e));
                assert(!(is_earlier(c, e) && is_earlier(e, d)));
                assert(axial_lt(e, c));
            }
        }
    }
    assert(!before.contains(c));
    let x = before.len() as int;
    assert(after.len() == x + 1);
    let i = x % n;
    let j = (x + 1) % n;
    assert(routes[c].edge.target == s[i]);
    assert(routes[d].edge.target == s[j]);
    vstd::arithmetic::div_mod::lemma_mod_bound(x, n);
    lemma_next(x, n);
    if forall|e: Axial| #[trigger]
        routes.contains_key(e) && routes[e].edge.source == routes[c].edge.source ==> !is_earlier(
            e,
            c,
        ) {
        assert(before =~= Set::empty()) by {
            assert forall|e: Axial| !before.contains(e) by {
                if before.contains(e) {
                    assert(routes.contains_key(e));
                }
            }
        }
        vstd::arithmetic::div_mod::lemma_small_mod(0, n as nat);
        assert(i == 0);
    }
    if z < i {
        assert(axial_lt(s[z], s[i]));
    }
    if i < z {
        assert(axial_lt(s[i], s[z]));
    }
    if z < j {
        assert(axial_lt(s[z], s[j]));
    }
    if j < z {
        assert(axial_lt(s[j], s[z]));
    }
    if i < j {
        assert(axial_lt(s[i], s[j]));
    }
    if j < i {
        assert(axial_lt(s[j], s[i]));
    }
}

proof fn lemma_next(x: int, n: int)
    requires
        0 <= x,
        n > 0,
    ensures
        (x + 1) % n == (if x % n == n - 1 {
            0
        } else {
            x % n + 1
        }),
{
    vstd::arithmetic::div_mod::lemma_fundamental_div_mod(x, n);
    vstd::arithmetic::div_mod::lemma_mod_bound(x, n);
    let q = x / n;
    if x % n == n - 1 {
        assert(x + 1 == (q + 1) * n + 0) by (nonlinear_arith)
            requires
                x == n * q + (n - 1),
        ;
        vstd::arithmetic::div_mod::lemma_fundamental_div_mod_converse(x + 1, n, q + 1, 0);
    } else {
        assert(x + 1 == q * n + (x % n + 1)) by (nonlinear_arith)
            requires
                x == n * q + x % n,
        ;
        vstd::arithmetic::div_mod::lemma_fundamental_div_mod_converse(x + 1, n, q, x % n + 1);
    }
}

/// Fronts against opponents come first, by the opponents' numbers, and neutral
/// fronts behind them.
pub proof fn law_hostile_fronts_come_first(s: Seq<StrategicFront>, i: int, j: int)
    requires
        fronts_ascending(s),
        0 <= i < j < s.len(),
    ensures
        s[i].opponent is None ==> s[j].opponent is None,
        s[i].opponent is Some && s[j].opponent is Some ==> s[i].opponent.unwrap()
            <= s[j].opponent.unwrap(),
{
}

proof fn lemma_single_contact(m: Seq<StrategicExterior>, k: int, q: u32, i: int)
    requires
        m.len() > 1,
        0 <= k < m.len(),
        0 <= i < m.len(),
        m[k] == StrategicExterior::Opponent(q),
        forall|x: int| 0 <= x < m.len() && x != k ==> (#[trigger] m[x]) is Neutral,
        faces(m, i, q),
    ensures
        i == k,
{
    let n = m.len() as int;
    crate::ring::lemma_at_period(m, i);
    crate::ring::lemma_at_period(m, k);
    if i != k {
        assert(m[i] is Neutral);
        assert forall|x: int| k + 1 <= x < k + n implies (#[trigger] at(m, x)) is Neutral by {
            if x < n {
                crate::ring::lemma_at_period(m, x);
                assert(m[x] is Neutral);
            } else {
                crate::ring::lemma_at_period(m, x - n);
                assert(m[x - n] is Neutral);
            }
        }
        assert(is_lone_from(m, k, 1));
        assert(crate::ring::is_lone(m));
    }
}

/// A single contact with an opponent does not claim the rest of the way round:
/// where all else around is unclaimed, the front against them is that one edge.
pub proof fn law_a_single_contact_claims_no_more(
    p: Perimeter,
    c: Seq<(Axial, int)>,
    k: int,
    q: u32,
    edges: Set<DirectedFrontEdge>,
    e: DirectedFrontEdge,
)
    requires
        p.is_cycle(c),
        c.len() > 1,
        0 <= k < c.len(),
        (p.exterior)(c[k].0, c[k].0.step(c[k].1)) == StrategicExterior::Opponent(q),
        forall|i: int|
            0 <= i < c.len() && i != k ==> (p.exterior)(
                (#[trigger] c[i]).0,
                c[i].0.step(c[i].1),
            ) is Neutral,
        p.is_front_of(c, Some(q), edges),
        edges.contains(e),
    ensures
        e.source == c[k].0,
        e.target == c[k].0.step(c[k].1),
{
    let m = p.marks(c);
    let n = c.len() as int;
    let (a, l) = choose|a: int, l: int| #[trigger]
        is_arc(m, q, a, l) && edges == p.arc_edges(c, a, l);
    let j = choose|j: int| 0 <= j < l && #[trigger] stretch(c, a, j) == e;
    let i = (a + j) % n;
    vstd::arithmetic::div_mod::lemma_mod_bound(a + j, n);
    assert(faces(m, i, q));
    assert forall|x: int| 0 <= x < m.len() && x != k implies (#[trigger] m[x]) is Neutral by {
        assert((p.exterior)(c[x].0, c[x].0.step(c[x].1)) is Neutral);
    }
    lemma_single_contact(m, k, q, i);
}

/// What lies beyond a place of a round, counted on past its end.
pub open spec fn beyond(p: Perimeter, c: Seq<(Axial, int)>, k: int) -> StrategicExterior {
    let h = c[k % (c.len() as int)];
    (p.exterior)(h.0, h.0.step(h.1))
}

/// The edge at a place of a round, counted on past its end.
pub open spec fn edge_at(c: Seq<(Axial, int)>, k: int) -> DirectedFrontEdge {
    let h = c[k % (c.len() as int)];
    DirectedFrontEdge { source: h.0, target: h.0.step(h.1) }
}

proof fn lemma_beyond(p: Perimeter, c: Seq<(Axial, int)>, k: int)
    requires
        c.len() > 0,
    ensures
        at(p.marks(c), k) == beyond(p, c, k),
{
    vstd::arithmetic::div_mod::lemma_mod_bound(k, c.len() as int);
}

/// One edge stands at one place of a round only.
proof fn lemma_one_place(p: Perimeter, c: Seq<(Axial, int)>, a: int, b: int)
    requires
        p.is_cycle(c),
        forall|x: Axial| #[trigger] p.component.contains(x) ==> x.interior(),
        edge_at(c, a) == edge_at(c, b),
    ensures
        a % (c.len() as int) == b % (c.len() as int),
{
    let n = c.len() as int;
    let i = a % n;
    let j = b % n;
    vstd::arithmetic::div_mod::lemma_mod_bound(a, n);
    vstd::arithmetic::div_mod::lemma_mod_bound(b, n);
    assert(p.exposed(c[i]));
    assert(p.exposed(c[j]));
    assert(c[i].0.interior());
    lemma_one_side(c[i].0, c[i].1, c[j].1);
    assert(c[i] == c[j]);
}

proof fn lemma_one_side(c: Axial, d: int, e: int)
    requires
        c.interior(),
        0 <= d < 6,
        0 <= e < 6,
        c.step(d) == c.step(e),
    ensures
        d == e,
{
}

/// A stretch that holds a place holds the next one too, if that belongs to it.
proof fn lemma_arc_goes_on(m: Seq<StrategicExterior>, q: u32, a: int, l: int, j: int)
    requires
        is_arc(m, q, a, l),
        0 <= j < l,
        faces(m, (a + j + 1) % (m.len() as int), q),
    ensures
        j + 1 < l || l == m.len(),
{
}

proof fn lemma_arc_reaches(m: Seq<StrategicExterior>, q: u32, a: int, l: int, j: int, k: int)
    requires
        is_arc(m, q, a, l),
        0 <= j < l,
        l < m.len(),
        0 <= k,
        forall|x: int| 0 <= x <= k ==> faces(m, #[trigger] ((a + j + x) % (m.len() as int)), q),
    ensures
        j + k < l,
    decreases k,
{
    if k > 0 {
        lemma_arc_reaches(m, q, a, l, j, k - 1);
        assert(faces(m, (a + j + k) % (m.len() as int), q));
        lemma_arc_goes_on(m, q, a, l, j + k - 1);
    }
}

/// Unclaimed edges between two contacts with one opponent belong to the front
/// against them, where somebody else or something ignored is met on the round.
pub proof fn law_fronts_bridge_unclaimed_edges(
    p: Perimeter,
    c: Seq<(Axial, int)>,
    q: u32,
    edges: Set<DirectedFrontEdge>,
    a: int,
    b: int,
    i: int,
    other: int,
)
    requires
        p.is_cycle(c),
        forall|x: Axial| #[trigger] p.component.contains(x) ==> x.interior(),
        p.is_front_of(c, Some(q), edges),
        0 <= a < c.len(),
        a <= i <= b,
        beyond(p, c, a) == StrategicExterior::Opponent(q),
        beyond(p, c, b) == StrategicExterior::Opponent(q),
        forall|k: int| a < k < b ==> (#[trigger] beyond(p, c, k)) is Neutral,
        !(beyond(p, c, other) is Neutral),
        beyond(p, c, other) != StrategicExterior::Opponent(q),
        edges.contains(edge_at(c, a)),
    ensures
        edges.contains(edge_at(c, i)),
{
    let m = p.marks(c);
    let n = c.len() as int;
    let (s, l) = choose|s: int, l: int| #[trigger]
        is_arc(m, q, s, l) && edges == p.arc_edges(c, s, l);
    let j = choose|j: int| 0 <= j < l && #[trigger] stretch(c, s, j) == edge_at(c, a);
    assert(edge_at(c, s + j) == stretch(c, s, j));
    lemma_one_place(p, c, s + j, a);
    vstd::arithmetic::div_mod::lemma_small_mod(a as nat, n as nat);
    assert((s + j) % n == a);
    lemma_not_lone(p, c, q, a, other);
    assert forall|x: int| 0 <= x <= i - a implies faces(m, #[trigger] ((s + j + x) % n), q) by {
        lemma_shifted(s + j, a, x, n);
        lemma_bridge(p, c, q, a, b, a + x);
    }
    let x = i - a;
    lemma_shifted(s + j, a, x, n);
    if l < n {
        lemma_arc_reaches(m, q, s, l, j, x);
        assert(stretch(c, s, j + x) == edge_at(c, i));
    } else {
        let y = (j + x) % n;
        vstd::arithmetic::div_mod::lemma_mod_bound(j + x, n);
        vstd::arithmetic::div_mod::lemma_add_mod_noop_right(s, j + x, n);
        assert((s + y) % n == (s + j + x) % n);
        assert(stretch(c, s, y) == edge_at(c, i));
    }
}

proof fn lemma_shifted(u: int, a: int, x: int, n: int)
    requires
        n > 0,
        u % n == a % n,
    ensures
        (u + x) % n == (a + x) % n,
{
    vstd::arithmetic::div_mod::lemma_add_mod_noop(u, x, n);
    vstd::arithmetic::div_mod::lemma_add_mod_noop(a, x, n);
}

proof fn lemma_not_lone(p: Perimeter, c: Seq<(Axial, int)>, q: u32, a: int, other: int)
    requires
        c.len() > 0,
        beyond(p, c, a) == StrategicExterior::Opponent(q),
        !(beyond(p, c, other) is Neutral),
        beyond(p, c, other) != StrategicExterior::Opponent(q),
    ensures
        !crate::ring::is_lone(p.marks(c)),
{
    let m = p.marks(c);
    let n = c.len() as int;
    if crate::ring::is_lone(m) {
        let (b, l) = choose|b: int, l: int| 0 <= b < n && #[trigger] is_lone_from(m, b, l);
        lemma_alike(p, c, b, l, a);
        lemma_alike(p, c, b, l, other);
    }
}

/// On a round that meets one opponent only, whatever is not unclaimed is theirs.
proof fn lemma_alike(p: Perimeter, c: Seq<(Axial, int)>, b: int, l: int, k: int)
    requires
        c.len() > 0,
        is_lone_from(p.marks(c), b, l),
        !(beyond(p, c, k) is Neutral),
    ensures
        beyond(p, c, k) == at(p.marks(c), b),
{
    let m = p.marks(c);
    let n = c.len() as int;
    let x = b + (k - b) % n;
    vstd::arithmetic::div_mod::lemma_mod_bound(k - b, n);
    vstd::arithmetic::div_mod::lemma_add_mod_noop_right(b, k - b, n);
    assert(x % n == k % n);
    lemma_beyond(p, c, x);
    assert(beyond(p, c, x) == beyond(p, c, k));
    assert(b <= x < b + n);
    if x >= b + l {
        assert(at(m, x) is Neutral);
    }
}

proof fn lemma_bridge(p: Perimeter, c: Seq<(Axial, int)>, q: u32, a: int, b: int, i: int)
    requires
        c.len() > 0,
        a <= i <= b,
        beyond(p, c, a) == StrategicExterior::Opponent(q),
        beyond(p, c, b) == StrategicExterior::Opponent(q),
        forall|k: int| a < k < b ==> (#[trigger] beyond(p, c, k)) is Neutral,
        !crate::ring::is_lone(p.marks(c)),
    ensures
        faces(p.marks(c), i % (c.len() as int), q),
{
    let m = p.marks(c);
    let n = c.len() as int;
    let k = i % n;
    vstd::arithmetic::div_mod::lemma_mod_bound(i, n);
    vstd::arithmetic::div_mod::lemma_small_mod(k as nat, n as nat);
    lemma_beyond(p, c, i);
    assert(at(m, k) == at(m, i));
    if a < i < b {
        assert(beyond(p, c, i) is Neutral);
        let shift = k - i;
        vstd::arithmetic::div_mod::lemma_fundamental_div_mod(i, n);
        let t = i / n;
        assert(shift == -(n * t));
        assert forall|y: int| #[trigger] at(m, y + shift) == at(m, y) by {
            assert((y + shift) % n == y % n) by {
                vstd::arithmetic::div_mod::lemma_mod_multiples_vanish(-t, y, n);
                assert(n * (-t) + y == y + shift) by (nonlinear_arith)
                    requires
                        shift == -(n * t),
                ;
            }
        }
        let opponent = StrategicExterior::Opponent(q);
        let stop = crate::ring::is_marked();
        assert(crate::ring::last_before(m, stop, k, opponent)) by {
            let z = a + shift;
            lemma_beyond(p, c, a);
            assert(at(m, a + shift) == at(m, a));
            assert forall|y: int| z < y < k implies !stop(#[trigger] at(m, y)) by {
                lemma_beyond(p, c, y - shift);
                assert(beyond(p, c, y - shift) is Neutral);
                assert(at(m, (y - shift) + shift) == at(m, y - shift));
            }
            assert(crate::ring::is_quiet(m, stop, z, k));
            assert(at(m, z) == opponent);
        }
        assert(crate::ring::first_after(m, stop, k, opponent)) by {
            let z = b + shift;
            lemma_beyond(p, c, b);
            assert(at(m, b + shift) == at(m, b));
            assert forall|y: int| k < y < z implies !stop(#[trigger] at(m, y)) by {
                lemma_beyond(p, c, y - shift);
                assert(beyond(p, c, y - shift) is Neutral);
                assert(at(m, (y - shift) + shift) == at(m, y - shift));
            }
            assert(crate::ring::is_quiet(m, stop, k, z));
            assert(at(m, z) == opponent);
        }
    } else {
        lemma_beyond(p, c, a);
        lemma_beyond(p, c, b);
    }
}

/// An unclaimed edge belongs to a front against an opponent only where it lies
/// between two contacts with them and nothing but unclaimed edges is in between.
pub proof fn law_fronts_take_no_more_than_they_bridge(
    p: Perimeter,
    c: Seq<(Axial, int)>,
    q: u32,
    edges: Set<DirectedFrontEdge>,
    i: int,
)
    requires
        p.is_cycle(c),
        forall|x: Axial| #[trigger] p.component.contains(x) ==> x.interior(),
        p.is_front_of(c, Some(q), edges),
        0 <= i < c.len(),
        edges.contains(edge_at(c, i)),
        beyond(p, c, i) != StrategicExterior::Opponent(q),
    ensures
        beyond(p, c, i) is Neutral,
        exists|a: int, b: int|
            a < i < b && #[trigger] beyond(p, c, a) == StrategicExterior::Opponent(q)
                && #[trigger] beyond(p, c, b) == StrategicExterior::Opponent(q) && forall|k: int|
                a < k < b ==> (#[trigger] beyond(p, c, k)) is Neutral,
{
    let m = p.marks(c);
    let n = c.len() as int;
    let (s, l) = choose|s: int, l: int| #[trigger]
        is_arc(m, q, s, l) && edges == p.arc_edges(c, s, l);
    let j = choose|j: int| 0 <= j < l && #[trigger] stretch(c, s, j) == edge_at(c, i);
    assert(edge_at(c, s + j) == stretch(c, s, j));
    lemma_one_place(p, c, s + j, i);
    vstd::arithmetic::div_mod::lemma_small_mod(i as nat, n as nat);
    assert(faces(m, (s + j) % n, q));
    assert(faces(m, i, q));
    lemma_beyond(p, c, i);
    let opponent = StrategicExterior::Opponent(q);
    let stop = crate::ring::is_marked();
    let a = choose|a: int|
        a < i && #[trigger] at(m, a) == opponent && stop(opponent) && crate::ring::is_quiet(
            m,
            stop,
            a,
            i,
        );
    let b = choose|b: int|
        i < b && #[trigger] at(m, b) == opponent && stop(opponent) && crate::ring::is_quiet(
            m,
            stop,
            i,
            b,
        );
    lemma_beyond(p, c, a);
    lemma_beyond(p, c, b);
    assert forall|k: int| a < k < b implies (#[trigger] beyond(p, c, k)) is Neutral by {
        lemma_beyond(p, c, k);
        if k != i {
            assert(!stop(at(m, k)));
        }
    }
    assert(beyond(p, c, a) == opponent && beyond(p, c, b) == opponent);
}

/// Whether an opponent is the last one met before a place of a round.
pub open spec fn met_before(p: Perimeter, c: Seq<(Axial, int)>, i: int, x: u32) -> bool {
    exists|a: int|
        a < i && #[trigger] beyond(p, c, a) == StrategicExterior::Opponent(x) && forall|k: int|
            a < k < i ==> !((#[trigger] beyond(p, c, k)) is Opponent)
}

/// Whether an opponent is the first one met behind a place of a round.
pub open spec fn met_after(p: Perimeter, c: Seq<(Axial, int)>, i: int, y: u32) -> bool {
    exists|b: int|
        i < b && #[trigger] beyond(p, c, b) == StrategicExterior::Opponent(y) && forall|k: int|
            i < k < b ==> !((#[trigger] beyond(p, c, k)) is Opponent)
}

proof fn lemma_met(p: Perimeter, c: Seq<(Axial, int)>, i: int, x: u32)
    requires
        c.len() > 0,
    ensures
        met_before(p, c, i, x) <==> crate::ring::last_before(
            p.marks(c),
            crate::ring::is_hostile(),
            i,
            StrategicExterior::Opponent(x),
        ),
        met_after(p, c, i, x) <==> crate::ring::first_after(
            p.marks(c),
            crate::ring::is_hostile(),
            i,
            StrategicExterior::Opponent(x),
        ),
{
    let m = p.marks(c);
    let stop = crate::ring::is_hostile();
    let opponent = StrategicExterior::Opponent(x);
    assert forall|k: int| #[trigger] at(m, k) == beyond(p, c, k) by {
        lemma_beyond(p, c, k);
    }
    assert forall|k: int| #[trigger] beyond(p, c, k) == at(m, k) by {
        lemma_beyond(p, c, k);
    }
    if met_before(p, c, i, x) {
        let a = choose|a: int|
            a < i && #[trigger] beyond(p, c, a) == opponent && forall|k: int|
                a < k < i ==> !((#[trigger] beyond(p, c, k)) is Opponent);
        assert(crate::ring::is_quiet(m, stop, a, i));
        assert(at(m, a) == opponent);
    }
    if crate::ring::last_before(m, stop, i, opponent) {
        let a = choose|a: int|
            a < i && #[trigger] at(m, a) == opponent && stop(opponent) && crate::ring::is_quiet(
                m,
                stop,
                a,
                i,
            );
        assert forall|k: int| a < k < i implies !((#[trigger] beyond(p, c, k)) is Opponent) by {
            assert(!stop(at(m, k)));
        }
        assert(beyond(p, c, a) == opponent);
    }
    if met_after(p, c, i, x) {
        let b = choose|b: int|
            i < b && #[trigger] beyond(p, c, b) == opponent && forall|k: int|
                i < k < b ==> !((#[trigger] beyond(p, c, k)) is Opponent);
        assert(crate::ring::is_quiet(m, stop, i, b));
        assert(at(m, b) == opponent);
    }
    if crate::ring::first_after(m, stop, i, opponent) {
        let b = choose|b: int|
            i < b && #[trigger] at(m, b) == opponent && stop(opponent) && crate::ring::is_quiet(
                m,
                stop,
                i,
                b,
            );
        assert forall|k: int| i < k < b implies !((#[trigger] beyond(p, c, k)) is Opponent) by {
            assert(!stop(at(m, k)));
        }
        assert(beyond(p, c, b) == opponent);
    }
}

/// A neutral front holds unclaimed edges only, and all those of its round that lie
/// between the same two opponents, the last one met before them and the first one
/// met behind them.
pub proof fn law_neutral_fronts_lie_between_the_same_opponents(
    p: Perimeter,
    c: Seq<(Axial, int)>,
    edges: Set<DirectedFrontEdge>,
    i: int,
    x: u32,
    y: u32,
    k: int,
)
    requires
        p.is_cycle(c),
        forall|v: Axial| #[trigger] p.component.contains(v) ==> v.interior(),
        p.is_front_of(c, None, edges),
        0 <= i < c.len(),
        0 <= k < c.len(),
        edges.contains(edge_at(c, i)),
        met_before(p, c, i, x),
        met_after(p, c, i, y),
    ensures
        beyond(p, c, i) is Neutral,
        edges.contains(edge_at(c, k)) <==> beyond(p, c, k) is Neutral && met_before(p, c, k, x)
            && met_after(p, c, k, y),
{
    let m = p.marks(c);
    let n = c.len() as int;
    let (u, v) = choose|u: u32, v: u32| edges == #[trigger] p.neutral_edges(c, u, v);
    lemma_met(p, c, i, x);
    lemma_met(p, c, i, y);
    lemma_met(p, c, k, x);
    lemma_met(p, c, k, y);
    lemma_beyond(p, c, i);
    lemma_beyond(p, c, k);
    assert(!crate::ring::is_peaceful(m)) by {
        let a = choose|a: int|
            a < i && #[trigger] beyond(p, c, a) == StrategicExterior::Opponent(x) && forall|z: int|
                a < z < i ==> !((#[trigger] beyond(p, c, z)) is Opponent);
        lemma_beyond(p, c, a);
        assert(crate::ring::is_hostile()(at(m, a)));
    }
    lemma_in_neutral(p, c, edges, u, v, i);
    lemma_in_neutral(p, c, edges, u, v, k);
    assert(is_context(m, i, Some((u, v))));
    assert(is_context(m, i, Some((x, y))));
    lemma_context_is_unique(m, i, Some((u, v)), Some((x, y)));
}

proof fn lemma_in_neutral(
    p: Perimeter,
    c: Seq<(Axial, int)>,
    edges: Set<DirectedFrontEdge>,
    u: u32,
    v: u32,
    k: int,
)
    requires
        p.is_cycle(c),
        forall|x: Axial| #[trigger] p.component.contains(x) ==> x.interior(),
        edges == p.neutral_edges(c, u, v),
        0 <= k < c.len(),
    ensures
        edges.contains(edge_at(c, k)) <==> is_context(p.marks(c), k, Some((u, v))),
{
    let m = p.marks(c);
    let n = c.len() as int;
    vstd::arithmetic::div_mod::lemma_small_mod(k as nat, n as nat);
    assert(edge_at(c, k) == crate::perimeter::contact_at(c[k]));
    if edges.contains(edge_at(c, k)) {
        let z = choose|z: int|
            0 <= z < c.len() && is_context(m, z, Some((u, v))) && crate::perimeter::contact_at(
                #[trigger] c[z],
            ) == edge_at(c, k);
        vstd::arithmetic::div_mod::lemma_small_mod(z as nat, n as nat);
        assert(edge_at(c, z) == crate::perimeter::contact_at(c[z]));
        lemma_one_place(p, c, z, k);
        assert(z == k);
    }
}

} // verus!
