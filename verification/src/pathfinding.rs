//! Deterministic best-first routing.
use vstd::prelude::*;
use crate::agenda::{entry_lt, Agenda};
use crate::axials::AxialMap;
use crate::coord::{adjacent, axial_lt, hex_distance, law_adjacent_iff_neighbor, Axial};
use crate::map::{ground_traversal, step_cost, traversable, Cell, HexMap, MovementConfig};

verus! {

#[derive(Clone, Debug, Eq, PartialEq)]
pub struct Path {
    /// Coordinates from start through goal, inclusive.
    pub cells: Vec<Axial>,
    pub total_cost: u64,
}

/// What an entry policy says of a cell.
pub open spec fn admits<F: Fn(&Cell) -> bool>(policy: F) -> spec_fn(Cell) -> bool {
    |cell: Cell| call_ensures(policy, (&cell,), true)
}

/// An entry policy can be asked of every cell, and answers the same each time.
pub open spec fn is_policy<F: Fn(&Cell) -> bool>(policy: F) -> bool {
    &&& forall|cell: &Cell| call_requires(policy, (cell,))
    &&& forall|cell: &Cell, answer: bool|
        call_ensures(policy, (cell,), answer) ==> answer == admits(policy)(*cell)
}

/// An entry policy can be asked of every cell, and answers by a predicate.
pub open spec fn obeys<F: Fn(&Cell) -> bool>(policy: F, enters: spec_fn(Cell) -> bool) -> bool {
    &&& forall|cell: &Cell| call_requires(policy, (cell,))
    &&& forall|cell: &Cell, answer: bool|
        call_ensures(policy, (cell,), answer) ==> answer == enters(*cell)
}

/// What a search for a route gives back.
pub open spec fn is_best_path(r: Routing, path: Option<Path>) -> bool {
    &&& path is Some <==> r.best_route() is Some
    &&& path matches Some(p) ==> {
        &&& p.cells@ == r.best_route().unwrap()
        &&& p.total_cost == r.route_cost(p.cells@)
        &&& r.is_route(p.cells@)
        &&& p.cells@.last() == r.goal
        &&& forall|o: Seq<Axial>| #[trigger]
            r.is_route(o) && o.last() == r.goal ==> p.total_cost <= r.route_cost(o)
    }
    &&& path is None ==> (r.enterable(r.start) && r.enterable(r.goal) ==> forall|o: Seq<Axial>|
        #[trigger]
        r.is_route(o) && o.last() == r.goal ==> r.route_cost(o) >= u64::MAX)
}

/// A routing problem.
pub struct Routing {
    pub cells: Map<Axial, Cell>,
    pub movement: MovementConfig,
    pub enters: spec_fn(Cell) -> bool,
    pub start: Axial,
    pub goal: Axial,
}

/// The routes found so far and the cells whose route is final.
pub struct Search {
    pub routes: Map<Axial, Seq<Axial>>,
    pub settled: Set<Axial>,
}

impl Routing {
    /// Whether the policy lets a route pass through a cell of the map.
    pub open spec fn enterable(self, c: Axial) -> bool {
        self.cells.contains_key(c) && (self.enters)(self.cells[c])
    }

    /// Whether a route may step from one cell to another.
    pub open spec fn linked(self, a: Axial, b: Axial) -> bool {
        &&& adjacent(a, b)
        &&& self.cells.contains_key(a)
        &&& self.enterable(b)
        &&& traversable(self.cells[a], self.cells[b], self.movement)
    }

    pub open spec fn link_cost(self, a: Axial, b: Axial) -> nat {
        step_cost(self.cells[a], self.cells[b], self.movement)
    }

    /// A sequence of linked cells that begins at the start.
    pub open spec fn is_route(self, p: Seq<Axial>) -> bool {
        &&& p.len() > 0
        &&& p[0] == self.start
        &&& forall|i: int| 0 <= i < p.len() - 1 ==> self.linked(#[trigger] p[i], p[i + 1])
    }

    /// The sum of the link costs of a route.
    pub open spec fn route_cost(self, p: Seq<Axial>) -> nat
        decreases p.len(),
    {
        if p.len() <= 1 {
            0
        } else {
            self.route_cost(p.drop_last()) + self.link_cost(p[p.len() - 2], p[p.len() - 1])
        }
    }

    /// The cheapest cost that a single link can have.
    pub open spec fn minimum_link_cost(self) -> nat {
        let m = self.movement;
        let low = if m.level_cost <= m.uphill_cost {
            m.level_cost
        } else {
            m.uphill_cost
        };
        if low <= m.downhill_cost {
            low as nat
        } else {
            m.downhill_cost as nat
        }
    }

    /// The estimated cost from a cell to the goal.
    pub open spec fn heuristic(self, c: Axial) -> nat {
        saturated(self.minimum_link_cost() * hex_distance(c, self.goal) as nat)
    }

    pub open spec fn cost_to(self, s: Search, c: Axial) -> nat {
        self.route_cost(s.routes[c])
    }

    pub open spec fn estimate(self, s: Search, c: Axial) -> nat {
        saturated(self.cost_to(s, c) + self.heuristic(c))
    }

    /// Whether a cell has been reached and its route may still improve.
    pub open spec fn is_open(self, s: Search, c: Axial) -> bool {
        s.routes.contains_key(c) && !s.settled.contains(c)
    }

    /// The order in which open cells are settled: by estimate, then cost, then
    /// coordinate.
    pub open spec fn precedes(self, s: Search, a: Axial, b: Axial) -> bool {
        ||| self.estimate(s, a) < self.estimate(s, b)
        ||| self.estimate(s, a) == self.estimate(s, b) && (self.cost_to(s, a) < self.cost_to(s, b)
            || (self.cost_to(s, a) == self.cost_to(s, b) && axial_lt(a, b)))
    }

    pub open spec fn is_next(self, s: Search, c: Axial) -> bool {
        self.is_open(s, c) && forall|d: Axial| #[trigger]
            self.is_open(s, d) && d != c ==> self.precedes(s, c, d)
    }

    /// Whether going through `c` improves the route to `z`.
    pub open spec fn improves(self, s: Search, c: Axial, z: Axial) -> bool {
        &&& self.linked(c, z)
        &&& z != c
        &&& !s.settled.contains(z)
        &&& self.cost_to(s, c) + self.link_cost(c, z) < (if s.routes.contains_key(z) {
            self.cost_to(s, z)
        } else {
            u64::MAX as nat
        })
    }

    /// The search after `c` is settled and the links from `c` to the cells of
    /// `done` are taken into account.
    pub open spec fn relax(self, s: Search, c: Axial, done: Set<Axial>) -> Search {
        Search {
            routes: Map::new(
                |z: Axial|
                    s.routes.contains_key(z) || (done.contains(z) && self.improves(s, c, z)),
                |z: Axial|
                    if done.contains(z) && self.improves(s, c, z) {
                        s.routes[c].push(z)
                    } else {
                        s.routes[z]
                    },
            ),
            settled: s.settled.insert(c),
        }
    }

    /// The search after `c` is settled.
    pub open spec fn settle(self, s: Search, c: Axial) -> Search {
        self.relax(s, c, Set::full())
    }

    /// Settles at most `n` cells, the next one each time, until the goal is the
    /// next one.
    pub open spec fn explore(self, s: Search, n: nat) -> Option<Seq<Axial>>
        decreases n,
    {
        if n == 0 || !(exists|c: Axial| self.is_next(s, c)) {
            None
        } else {
            let c = choose|c: Axial| self.is_next(s, c);
            if c == self.goal {
                Some(s.routes[c])
            } else {
                self.explore(self.settle(s, c), (n - 1) as nat)
            }
        }
    }

    pub open spec fn initial(self) -> Search {
        Search { routes: map![self.start => seq![self.start]], settled: Set::empty() }
    }

    /// The route that the search finds.
    pub open spec fn best_route(self) -> Option<Seq<Axial>> {
        if self.enterable(self.start) && self.enterable(self.goal) {
            self.explore(self.initial(), self.cells.dom().len())
        } else {
            None
        }
    }

    /// What holds of every state of the search.
    #[verifier::opaque]
    spec fn sound(self, s: Search) -> bool {
        &&& self.cells.dom().finite()
        &&& self.enterable(self.start)
        &&& s.routes.dom().subset_of(self.cells.dom())
        &&& s.settled.subset_of(s.routes.dom())
        &&& s.routes.contains_key(self.start)
        &&& s.routes[self.start] == seq![self.start]
        &&& forall|z: Axial| #[trigger]
            s.routes.contains_key(z) ==> self.is_route(s.routes[z]) && s.routes[z].last() == z
                && self.cost_to(s, z) < u64::MAX
        &&& forall|x: Axial, p: Seq<Axial>|
            s.settled.contains(x) && #[trigger] self.is_route(p) && p.last() == x
                ==> self.route_cost(p) >= #[trigger] self.cost_to(s, x) || self.route_cost(p)
                + self.heuristic(x) >= u64::MAX
        &&& forall|x: Axial, z: Axial|
            s.settled.contains(x) && #[trigger] self.linked(x, z) && !s.settled.contains(z)
                && self.cost_to(s, x) + self.link_cost(x, z) < u64::MAX ==> s.routes.contains_key(z)
                && self.cost_to(s, z) <= self.cost_to(s, x) + self.link_cost(x, z)
    }
}

/// A number capped at the greatest `u64`.
pub open spec fn saturated(n: nat) -> nat {
    if n > u64::MAX {
        u64::MAX as nat
    } else {
        n
    }
}

/// The heuristic never drops by more than the cost of a link.
proof fn lemma_consistent(r: Routing, a: Axial, b: Axial)
    requires
        r.linked(a, b),
    ensures
        r.heuristic(a) <= r.link_cost(a, b) + r.heuristic(b),
{
    let m = r.minimum_link_cost() as int;
    let da = hex_distance(a, r.goal);
    let db = hex_distance(b, r.goal);
    assert(da <= db + 1);
    assert(m * da <= m * db + m) by (nonlinear_arith)
        requires
            0 <= da <= db + 1,
            0 <= m,
    ;
}

/// Costs plus heuristic do not decrease along a route.
proof fn lemma_prefix_estimate(r: Routing, p: Seq<Axial>, k: int)
    requires
        r.is_route(p),
        0 <= k < p.len(),
    ensures
        r.is_route(p.take(k + 1)),
        r.route_cost(p.take(k + 1)) <= r.route_cost(p),
        r.route_cost(p.take(k + 1)) + r.heuristic(p[k]) <= r.route_cost(p) + r.heuristic(p.last()),
    decreases p.len() - k,
{
    let q = p.take(k + 1);
    assert(q[0] == r.start);
    assert forall|i: int| 0 <= i < q.len() - 1 implies r.linked(#[trigger] q[i], q[i + 1]) by {
        assert(r.linked(p[i], p[i + 1]));
    }
    if k + 1 == p.len() {
        assert(q =~= p);
    } else {
        lemma_prefix_estimate(r, p, k + 1);
        assert(p.take(k + 2).drop_last() =~= q);
        assert(r.linked(p[k], p[k + 1]));
        lemma_consistent(r, p[k], p[k + 1]);
    }
}

/// On a route to an unsettled cell some open cell has its cheapest prefix.
proof fn lemma_open_cell_on_route(r: Routing, s: Search, p: Seq<Axial>) -> (k: int)
    requires
        r.sound(s),
        r.is_route(p),
        !s.settled.contains(p.last()),
        r.route_cost(p) + r.heuristic(p.last()) < u64::MAX,
    ensures
        0 <= k < p.len(),
        r.is_open(s, p[k]),
        r.cost_to(s, p[k]) <= r.route_cost(p.take(k + 1)),
{
    reveal(Routing::sound);
    let k = lemma_first_unsettled(s.settled, p);
    lemma_prefix_estimate(r, p, k);
    if k == 0 {
        assert(p.take(1).len() == 1);
    } else {
        lemma_prefix_estimate(r, p, k - 1);
        let q = p.take(k);
        let x = p[k - 1];
        assert(q.last() == x);
        assert(p.take(k + 1).drop_last() =~= q);
        assert(r.linked(p[k - 1], p[k]));
        assert(r.is_route(q));
        assert(r.route_cost(q) >= r.cost_to(s, x));
    }
    k
}

proof fn lemma_first_unsettled(settled: Set<Axial>, p: Seq<Axial>) -> (k: int)
    requires
        p.len() > 0,
        !settled.contains(p.last()),
    ensures
        0 <= k < p.len(),
        !settled.contains(p[k]),
        forall|i: int| 0 <= i < k ==> settled.contains(#[trigger] p[i]),
    decreases p.len(),
{
    if p.len() == 1 || settled.contains(p[p.len() - 2]) && forall|i: int|
        0 <= i < p.len() - 1 ==> settled.contains(#[trigger] p[i]) {
        p.len() - 1
    } else if !settled.contains(p[p.len() - 2]) {
        let k = lemma_first_unsettled(settled, p.drop_last());
        assert forall|i: int| 0 <= i < k implies settled.contains(#[trigger] p[i]) by {
            assert(p.drop_last()[i] == p[i]);
        }
        k
    } else {
        let j = choose|j: int| 0 <= j < p.len() - 1 && !settled.contains(#[trigger] p[j]);
        let q = p.take(j + 1);
        assert(q.last() == p[j]);
        let k = lemma_first_unsettled(settled, q);
        assert forall|i: int| 0 <= i < k implies settled.contains(#[trigger] p[i]) by {
            assert(q[i] == p[i]);
        }
        k
    }
}

/// The cost of a route grows by the cost of an added link.
proof fn lemma_extended_cost(r: Routing, p: Seq<Axial>, z: Axial)
    requires
        r.is_route(p),
        r.linked(p.last(), z),
    ensures
        r.is_route(p.push(z)),
        r.route_cost(p.push(z)) == r.route_cost(p) + r.link_cost(p.last(), z),
{
    let q = p.push(z);
    assert(q.drop_last() =~= p);
    assert forall|i: int| 0 <= i < q.len() - 1 implies r.linked(#[trigger] q[i], q[i + 1]) by {
        if i < p.len() - 1 {
            assert(r.linked(p[i], p[i + 1]));
        }
    }
}

/// The route of the next cell is a cheapest one.
proof fn lemma_next_is_optimal(r: Routing, s: Search, c: Axial, p: Seq<Axial>)
    requires
        r.sound(s),
        r.is_next(s, c),
        r.is_route(p),
        p.last() == c,
    ensures
        r.route_cost(p) >= r.cost_to(s, c) || r.route_cost(p) + r.heuristic(c) >= u64::MAX,
{
    reveal(Routing::sound);
    if r.route_cost(p) < r.cost_to(s, c) && r.route_cost(p) + r.heuristic(c) < u64::MAX {
        let k = lemma_open_cell_on_route(r, s, p);
        lemma_prefix_estimate(r, p, k);
        let y = p[k];
        if y != c {
            assert(r.precedes(s, c, y));
        }
        assert(false);
    }
}

/// Settling the next cell keeps the search sound.
proof fn lemma_settle_sound(r: Routing, s: Search, c: Axial)
    requires
        r.sound(s),
        r.is_next(s, c),
    ensures
        r.sound(r.settle(s, c)),
{
    reveal(Routing::sound);
    let t = r.settle(s, c);
    assert forall|z: Axial| #[trigger] t.routes.contains_key(z) implies r.is_route(t.routes[z])
        && t.routes[z].last() == z && r.cost_to(t, z) < u64::MAX by {
        if r.improves(s, c, z) {
            lemma_extended_cost(r, s.routes[c], z);
        } else {
            assert(s.routes.contains_key(z));
        }
    }
    assert(t.routes[c] == s.routes[c]);
    assert forall|z: Axial| s.settled.contains(z) implies t.routes[z] == s.routes[z] by {}
    assert(!r.improves(s, c, r.start)) by {
        if r.improves(s, c, r.start) {
            assert(r.cost_to(s, r.start) == 0);
        }
    }
    assert forall|x: Axial, p: Seq<Axial>|
        t.settled.contains(x) && #[trigger] r.is_route(p) && p.last() == x implies r.route_cost(p)
        >= #[trigger] r.cost_to(t, x) || r.route_cost(p) + r.heuristic(x) >= u64::MAX by {
        if x == c {
            lemma_next_is_optimal(r, s, c, p);
        } else {
            assert(r.route_cost(p) >= r.cost_to(s, x) || r.route_cost(p) + r.heuristic(x)
                >= u64::MAX);
        }
    }
    assert forall|x: Axial, z: Axial|
        t.settled.contains(x) && #[trigger] r.linked(x, z) && !t.settled.contains(z) && r.cost_to(
            t,
            x,
        ) + r.link_cost(x, z) < u64::MAX implies t.routes.contains_key(z) && r.cost_to(t, z)
        <= r.cost_to(t, x) + r.link_cost(x, z) by {
        if r.improves(s, c, z) {
            lemma_extended_cost(r, s.routes[c], z);
        }
    }
}

/// What `explore` gives back is a cheapest route to the goal.
proof fn lemma_explore_optimal(r: Routing, s: Search, n: nat)
    requires
        r.sound(s),
        n >= r.cells.dom().difference(s.settled).len(),
    ensures
        match r.explore(s, n) {
            Some(p) => {
                &&& r.is_route(p)
                &&& p.last() == r.goal
                &&& r.route_cost(p) < u64::MAX
                &&& forall|o: Seq<Axial>| #[trigger]
                    r.is_route(o) && o.last() == r.goal ==> r.route_cost(p) <= r.route_cost(o)
            },
            None => forall|o: Seq<Axial>| #[trigger]
                r.is_route(o) && o.last() == r.goal ==> s.settled.contains(r.goal) || r.route_cost(
                    o,
                ) >= u64::MAX,
        },
    decreases n,
{
    reveal(Routing::sound);
    assert(r.heuristic(r.goal) == 0) by {
        assert(hex_distance(r.goal, r.goal) == 0);
        assert(r.minimum_link_cost() * 0 == 0) by (nonlinear_arith);
    }
    let rest = r.cells.dom().difference(s.settled);
    if !(exists|c: Axial| r.is_next(s, c)) {
        assert forall|o: Seq<Axial>| #[trigger] r.is_route(o) && o.last() == r.goal implies
            s.settled.contains(r.goal) || r.route_cost(o) >= u64::MAX by {
            if !s.settled.contains(r.goal) && r.route_cost(o) < u64::MAX {
                let k = lemma_open_cell_on_route(r, s, o);
                lemma_next_exists(r, s, o[k]);
            }
        }
    } else {
        let c = choose|c: Axial| r.is_next(s, c);
        assert(rest.contains(c));
        assert(rest.finite());
        assert(rest.len() > 0) by {
            vstd::set_lib::lemma_set_empty_equivalency_len(rest);
        }
        if c == r.goal {
            assert forall|o: Seq<Axial>| #[trigger] r.is_route(o) && o.last() == r.goal implies
                r.route_cost(s.routes[c]) <= r.route_cost(o) by {
                lemma_next_is_optimal(r, s, c, o);
            }
        } else {
            let t = r.settle(s, c);
            lemma_settle_sound(r, s, c);
            assert(r.cells.dom().difference(t.settled) =~= rest.remove(c));
            lemma_explore_optimal(r, t, (n - 1) as nat);
        }
    }
}

/// Where a cell is open, one is the next.
proof fn lemma_next_exists(r: Routing, s: Search, some: Axial)
    requires
        r.sound(s),
        r.is_open(s, some),
    ensures
        exists|c: Axial| r.is_next(s, c),
{
    reveal(Routing::sound);
    let open = r.cells.dom().filter(|c: Axial| r.is_open(s, c));
    assert(open.contains(some));
    let c = lemma_least(r, s, open);
    assert forall|d: Axial| #[trigger] r.is_open(s, d) && d != c implies r.precedes(s, c, d) by {
        assert(open.contains(d));
    }
    assert(r.is_next(s, c));
}

proof fn lemma_least(r: Routing, s: Search, set: Set<Axial>) -> (c: Axial)
    requires
        set.finite(),
        set.len() > 0 || exists|d: Axial| set.contains(d),
    ensures
        set.contains(c),
        forall|d: Axial| #[trigger] set.contains(d) && d != c ==> r.precedes(s, c, d),
    decreases set.len(),
{
    vstd::set_lib::lemma_set_empty_equivalency_len(set);
    let x = set.choose();
    assert(set.contains(x));
    let rest = set.remove(x);
    if rest.len() == 0 {
        assert(rest =~= Set::empty());
        assert forall|d: Axial| #[trigger] set.contains(d) && d != x implies r.precedes(
            s,
            x,
            d,
        ) by {
            assert(rest.contains(d));
        }
        x
    } else {
        let y = lemma_least(r, s, rest);
        let c = if r.precedes(s, x, y) {
            x
        } else {
            y
        };
        assert forall|d: Axial| #[trigger] set.contains(d) && d != c implies r.precedes(
            s,
            c,
            d,
        ) by {
            if d != x && d != y {
                assert(rest.contains(d));
                assert(r.precedes(s, y, d));
            }
        }
        c
    }
}

proof fn lemma_initial_sound(r: Routing)
    requires
        r.cells.dom().finite(),
        r.enterable(r.start),
    ensures
        r.sound(r.initial()),
        r.cells.dom().difference(r.initial().settled) == r.cells.dom(),
{
    reveal(Routing::sound);
    let s = r.initial();
    assert(r.cells.dom().difference(s.settled) =~= r.cells.dom());
    assert(seq![r.start].last() == r.start);
    assert(r.is_route(seq![r.start]));
    assert(s.routes.dom().subset_of(r.cells.dom()));
}

/// The route found is a route from start to goal and no route is cheaper; none
/// is found only where an end may not be entered, or where every route costs
/// too much to be counted.
pub proof fn law_best_route_is_cheapest(r: Routing)
    requires
        r.cells.dom().finite(),
    ensures
        match r.best_route() {
            Some(p) => {
                &&& r.enterable(r.start)
                &&& r.enterable(r.goal)
                &&& r.is_route(p)
                &&& p.last() == r.goal
                &&& r.route_cost(p) < u64::MAX
                &&& forall|o: Seq<Axial>| #[trigger]
                    r.is_route(o) && o.last() == r.goal ==> r.route_cost(p) <= r.route_cost(o)
            },
            None => r.enterable(r.start) && r.enterable(r.goal) ==> forall|o: Seq<Axial>|
                #[trigger]
                r.is_route(o) && o.last() == r.goal ==> r.route_cost(o) >= u64::MAX,
        },
{
    if r.enterable(r.start) && r.enterable(r.goal) {
        lemma_initial_sound(r);
        lemma_explore_optimal(r, r.initial(), r.cells.dom().len());
    }
}

/// A route that stays at its start costs nothing and is the one found.
pub proof fn law_staying_is_free(r: Routing)
    requires
        r.cells.dom().finite(),
        r.start == r.goal,
        r.enterable(r.start),
    ensures
        r.best_route() == Some(seq![r.start]),
        r.route_cost(seq![r.start]) == 0,
{
    let s = r.initial();
    assert(r.is_open(s, r.start));
    assert(r.is_next(s, r.start));
    assert forall|c: Axial| r.is_next(s, c) implies c == r.start by {}
    assert(r.cells.dom().contains(r.start));
    vstd::set_lib::lemma_set_empty_equivalency_len(r.cells.dom());
}

/// What a search knows of a cell that it has reached: the cost, the cell before
/// it on the way, and whether that is final.
#[derive(Clone, Copy)]
struct Mark {
    cost: u64,
    previous: Axial,
    settled: bool,
}

/// The cells that a search has reached.
struct Marks {
    entries: AxialMap<Mark>,
}

impl Marks {
    spec fn distances(&self) -> Map<Axial, u64> {
        self.entries@.map_values(|m: Mark| m.cost)
    }

    spec fn previous(&self) -> Map<Axial, Axial> {
        self.entries@.map_values(|m: Mark| m.previous)
    }

    spec fn visited(&self) -> Set<Axial> {
        Set::new(|c: Axial| self.entries@.contains_key(c) && self.entries@[c].settled)
    }

    fn new() -> (marks: Marks)
        ensures
            marks.distances() == Map::<Axial, u64>::empty(),
            marks.previous() == Map::<Axial, Axial>::empty(),
            marks.visited() == Set::<Axial>::empty(),
    {
        let marks = Marks { entries: AxialMap::new() };
        assert(marks.distances() =~= Map::<Axial, u64>::empty());
        assert(marks.previous() =~= Map::<Axial, Axial>::empty());
        assert(marks.visited() =~= Set::<Axial>::empty());
        marks
    }

    fn look(&self, c: Axial) -> (mark: Option<Mark>)
        ensures
            match mark {
                Some(m) => {
                    &&& self.distances().contains_key(c)
                    &&& self.previous().contains_key(c)
                    &&& m.cost == self.distances()[c]
                    &&& m.previous == self.previous()[c]
                    &&& m.settled == self.visited().contains(c)
                },
                None => {
                    &&& !self.distances().contains_key(c)
                    &&& !self.previous().contains_key(c)
                    &&& !self.visited().contains(c)
                },
            },
    {
        match self.entries.get(c) {
            Some(mark) => Some(*mark),
            None => None,
        }
    }

    /// Takes note of a way to a cell.
    fn reach(&mut self, c: Axial, cost: u64, previous: Axial)
        requires
            !old(self).visited().contains(c),
        ensures
            final(self).distances() == old(self).distances().insert(c, cost),
            final(self).previous() == old(self).previous().insert(c, previous),
            final(self).visited() == old(self).visited(),
    {
        self.entries.insert(c, Mark { cost, previous, settled: false });
        assert(self.distances() =~= old(self).distances().insert(c, cost));
        assert(self.previous() =~= old(self).previous().insert(c, previous));
        assert(self.visited() =~= old(self).visited());
    }

    /// Takes note that the way to a cell is final.
    fn settle(&mut self, c: Axial)
        requires
            old(self).distances().contains_key(c),
        ensures
            final(self).distances() == old(self).distances(),
            final(self).previous() == old(self).previous(),
            final(self).visited() == old(self).visited().insert(c),
    {
        if let Some(mark) = self.entries.get_mut(c) {
            mark.settled = true;
        }
        assert(self.distances() =~= old(self).distances());
        assert(self.previous() =~= old(self).previous());
        assert(self.visited() =~= old(self).visited().insert(c));
    }
}

/// The search in the form in which the loops below keep it.
#[verifier::opaque]
spec fn mirrors(
    r: Routing,
    s: Search,
    distances: Map<Axial, u64>,
    previous: Map<Axial, Axial>,
    visited: Set<Axial>,
    frontier: Set<(u64, u64, Axial)>,
) -> bool {
    &&& visited == s.settled
    &&& distances.dom() == s.routes.dom()
    &&& forall|z: Axial| #[trigger]
        s.routes.contains_key(z) ==> distances[z] == r.cost_to(s, z)
    &&& forall|z: Axial| #[trigger]
        s.routes.contains_key(z) && z != r.start ==> {
            &&& previous.contains_key(z)
            &&& s.settled.contains(previous[z])
            &&& s.routes[z] == s.routes[previous[z]].push(z)
        }
    &&& forall|e: (u64, u64, Axial)| #[trigger]
        frontier.contains(e) <==> r.is_open(s, e.2) && e.0 == r.estimate(s, e.2) && e.1
            == r.cost_to(s, e.2)
}

/// Deterministic A* routing over ground-traversable cells.
///
/// `can_enter` expresses order-specific policy such as friendly ownership. The
/// hex-distance heuristic is scaled by the cheapest configured edge cost, so
/// it is admissible and consistent. The ordered frontier and coordinate
/// tie-break make the same map and predicate produce the same path regardless
/// of map insertion order.
pub fn shortest_path<F>(
    map: &HexMap,
    start: Axial,
    goal: Axial,
    movement: &MovementConfig,
    can_enter: F,
) -> (path: Option<Path>) where F: Fn(&Cell) -> bool
    requires
        is_policy(can_enter),
        forall|c: Axial| #[trigger]
            map@.contains_key(c) && admits(can_enter)(map@[c]) ==> c.interior(),
    ensures
        is_best_path(
            Routing { cells: map@, movement: *movement, enters: admits(can_enter), start, goal },
            path,
        ),
{
    route_under(map, start, goal, movement, &can_enter, Ghost(admits(can_enter)))
}

/// Routing under a policy that answers by a known predicate.
pub(crate) fn route_under<F>(
    map: &HexMap,
    start: Axial,
    goal: Axial,
    movement: &MovementConfig,
    can_enter: &F,
    Ghost(enters): Ghost<spec_fn(Cell) -> bool>,
) -> (path: Option<Path>) where F: Fn(&Cell) -> bool
    requires
        obeys(*can_enter, enters),
        forall|c: Axial| #[trigger] map@.contains_key(c) && enters(map@[c]) ==> c.interior(),
    ensures
        is_best_path(Routing { cells: map@, movement: *movement, enters, start, goal }, path),
{
    let ghost r = Routing { cells: map@, movement: *movement, enters, start, goal };
    proof {
        map.lemma_finite();
        law_best_route_is_cheapest(r);
    }
    let start_cell = match map.get(start) {
        Some(cell) => cell,
        None => {
            return None;
        },
    };
    let goal_cell = match map.get(goal) {
        Some(cell) => cell,
        None => {
            return None;
        },
    };
    if !can_enter(start_cell) || !can_enter(goal_cell) {
        return None;
    }
    if start == goal {
        proof {
            law_staying_is_free(r);
        }
        let cells: Vec<Axial> = vec![start];
        assert(cells@ =~= seq![start]);
        return Some(Path { cells, total_cost: 0 });
    }
    let mut minimum: u64 = movement.level_cost as u64;
    if (movement.uphill_cost as u64) < minimum {
        minimum = movement.uphill_cost as u64;
    }
    if (movement.downhill_cost as u64) < minimum {
        minimum = movement.downhill_cost as u64;
    }
    assert(minimum == r.minimum_link_cost());
    let mut frontier = Agenda::new();
    let mut marks = Marks::new();
    frontier.insert(scaled_distance(minimum, start, goal), 0, start);
    marks.reach(start, 0, start);
    let ghost mut s = r.initial();
    let ghost mut n: nat = r.cells.dom().len();
    proof {
        reveal(mirrors);
        lemma_initial_sound(r);
        assert(marks.distances().dom() =~= s.routes.dom());
        assert(marks.visited() =~= s.settled);
        assert(r.cost_to(s, start) == 0);
    }
    loop
        invariant
            mirrors(r, s, marks.distances(), marks.previous(), marks.visited(), frontier@),
            r.sound(s),
            n == r.cells.dom().difference(s.settled).len(),
            r.explore(r.initial(), r.cells.dom().len()) == r.explore(s, n),
            r.cells == map@,
            r.movement == *movement,
            r.enters == enters,
            r.start == start,
            r.goal == goal,
            r.enterable(start),
            r.enterable(goal),
            obeys(*can_enter, enters),
            minimum == r.minimum_link_cost(),
            minimum <= u32::MAX,
            forall|c: Axial| #[trigger]
                map@.contains_key(c) && enters(map@[c]) ==> c.interior(),
            r == (Routing {
                cells: map@,
                movement: *movement,
                enters: enters,
                start,
                goal,
            }),
            match r.best_route() {
                Some(p) => {
                    &&& r.is_route(p)
                    &&& p.last() == r.goal
                    &&& forall|o: Seq<Axial>| #[trigger]
                        r.is_route(o) && o.last() == r.goal ==> r.route_cost(p) <= r.route_cost(o)
                },
                None => forall|o: Seq<Axial>| #[trigger]
                    r.is_route(o) && o.last() == r.goal ==> r.route_cost(o) >= u64::MAX,
            },
        decreases n,
    {
        let ghost frontier_before = frontier@;
        let (cost, current) = match frontier.pop_first() {
            Some(entry) => (entry.1, entry.2),
            None => {
                proof {
                    lemma_nothing_open(r, s, marks.distances(), marks.previous(), marks.visited(), frontier@);
                }
                return None;
            },
        };
        proof {
            let e = choose|e: (u64, u64, Axial)|
                frontier_before.contains(e) && e.1 == cost && e.2 == current && frontier@
                    == frontier_before.remove(e) && forall|f: (u64, u64, Axial)| #[trigger]
                    frontier_before.contains(f) && f != e ==> entry_lt(e, f);
            assert(marks.distances().contains_key(current)) by {
                reveal(mirrors);
                assert(r.is_open(s, current));
                assert(marks.distances().dom().contains(current));
            }
            lemma_popped_is_next(
                r,
                s,
                marks.distances(),
                marks.previous(),
                marks.visited(),
                frontier_before,
                e,
            );
            lemma_mirror_popped(
                r,
                s,
                marks.distances(),
                marks.previous(),
                marks.visited(),
                frontier_before,
                e,
            );
            lemma_unsettled_count(r, s, current);
            lemma_reached_is_enterable(r, s, current);
        }
        marks.settle(current);
        if current == goal {
            proof {
                reveal(Routing::sound);
                reveal(mirrors);
            }
            let cells = reconstruct_path(start, goal, &marks, Ghost(s.routes), Ghost(s.settled));
            return Some(Path { cells, total_cost: cost });
        }
        relax_neighbors(
            map,
            goal,
            movement,
            can_enter,
            minimum,
            current,
            cost,
            &mut frontier,
            &mut marks,
            Ghost(r),
            Ghost(s),
            Ghost(enters),
        );
        proof {
            lemma_settle_sound(r, s, current);
            s = r.settle(s, current);
            n = (n - 1) as nat;
        }
    }
}

/// What the search has reached may be entered.
proof fn lemma_reached_is_enterable(r: Routing, s: Search, c: Axial)
    requires
        r.sound(s),
        s.routes.contains_key(c),
    ensures
        r.enterable(c),
{
    reveal(Routing::sound);
    let p = s.routes[c];
    assert(r.is_route(p) && p.last() == c);
    if p.len() > 1 {
        assert(r.linked(p[p.len() - 2], p[p.len() - 2 + 1]));
    }
}

/// Takes the links from a settled cell into account.
fn relax_neighbors<F>(
    map: &HexMap,
    goal: Axial,
    movement: &MovementConfig,
    can_enter: &F,
    minimum: u64,
    current: Axial,
    cost: u64,
    frontier: &mut Agenda,
    marks: &mut Marks,
    Ghost(r): Ghost<Routing>,
    Ghost(s): Ghost<Search>,
    Ghost(enters): Ghost<spec_fn(Cell) -> bool>,
) where F: Fn(&Cell) -> bool
    requires
        r.cells == map@,
        r.movement == *movement,
        r.enters == enters,
        r.goal == goal,
        obeys(*can_enter, enters),
        minimum == r.minimum_link_cost(),
        minimum <= u32::MAX,
        current.interior(),
        map@.contains_key(current),
        cost == r.cost_to(s, current),
        r.sound(s),
        r.is_open(s, current),
        mirrors(
            r,
            r.relax(s, current, Set::empty()),
            old(marks).distances(),
            old(marks).previous(),
            old(marks).visited(),
            old(frontier)@,
        ),
    ensures
        mirrors(
            r,
            r.settle(s, current),
            final(marks).distances(),
            final(marks).previous(),
            final(marks).visited(),
            final(frontier)@,
        ),
{
    let from = match map.get(current) {
        Some(cell) => cell,
        None => {
            assert(false);
            return ;
        },
    };
    let neighbors = current.neighbors();
    let mut i: usize = 0;
    let ghost mut done = Set::<Axial>::empty();
    while i < 6
        invariant
            i <= 6,
            neighbors@ == Seq::new(6, |k: int| current.step(k)),
            current.interior(),
            r.sound(s),
            r.is_open(s, current),
            cost == r.cost_to(s, current),
            map@.contains_key(current),
            *from == r.cells[current],
            r.cells == map@,
            r.movement == *movement,
            r.enters == enters,
            r.goal == goal,
            obeys(*can_enter, enters),
            minimum == r.minimum_link_cost(),
            minimum <= u32::MAX,
            forall|z: Axial| done.contains(z) <==> exists|k: int|
                0 <= k < i && #[trigger] current.step(k) == z,
            mirrors(
                r,
                r.relax(s, current, done),
                marks.distances(),
                marks.previous(),
                marks.visited(),
                frontier@,
            ),
        decreases 6 - i,
    {
        let z = neighbors[i];
        let ghost t = r.relax(s, current, done);
        proof {
            assert(z == current.step(i as int));
            assert forall|k: int| 0 <= k < i implies #[trigger] current.step(k) != z by {}
            assert(!done.contains(z));
            law_adjacent_iff_neighbor(current, z);
            assert(adjacent(current, z));
            assert(z != current);
            lemma_mirror_reads(
                r,
                s,
                current,
                done,
                marks.distances(),
                marks.previous(),
                marks.visited(),
                frontier@,
                z,
            );
        }
        let ghost before = (marks.distances(), marks.previous(), frontier@);
        let mark = marks.look(z);
        let (settled, best): (bool, u64) = match mark {
            Some(known) => (known.settled, known.cost),
            None => (false, u64::MAX),
        };
        let step = candidate_cost(
            map,
            from,
            movement,
            can_enter,
            cost,
            settled,
            z,
            Ghost(enters),
        );
        let mut improved: Option<u64> = None;
        if let Some(candidate) = step {
            if candidate < best {
                improved = Some(candidate);
            }
        }
        match improved {
            Some(candidate) => {
                assert(r.improves(s, current, z));
                let h: u64 = scaled_distance(minimum, z, goal);
                if best != u64::MAX {
                    frontier.remove(best.saturating_add(h), best, z);
                }
                marks.reach(z, candidate, current);
                frontier.insert(candidate.saturating_add(h), candidate, z);
                proof {
                    lemma_mirror_improved(
                        r,
                        s,
                        current,
                        done,
                        before.0,
                        before.1,
                        marks.visited(),
                        before.2,
                        z,
                        candidate,
                        marks.distances(),
                        marks.previous(),
                        frontier@,
                    );
                }
            },
            None => {
                assert(!r.improves(s, current, z));
                assert(r.relax(s, current, done.insert(z)).routes =~= t.routes);
            },
        }
        proof {
            assert forall|x: Axial| done.insert(z).contains(x) <==> exists|k: int|
                0 <= k < i + 1 && #[trigger] current.step(k) == x by {
                if x == z {
                    assert(current.step(i as int) == x);
                }
                if exists|k: int| 0 <= k < i + 1 && #[trigger] current.step(k) == x {
                    let k = choose|k: int| 0 <= k < i + 1 && #[trigger] current.step(k) == x;
                    if k < i {
                        assert(current.step(k) == x);
                    }
                }
            }
            done = done.insert(z);
        }
        i += 1;
    }
    proof {
        let t = r.relax(s, current, done);
        let u = r.settle(s, current);
        assert forall|z: Axial| #[trigger] r.improves(s, current, z) implies done.contains(z) by {
            law_adjacent_iff_neighbor(current, z);
        }
        assert(t.routes =~= u.routes);
        assert(t.settled == u.settled);
    }
}

/// The cost of reaching a neighbour, where the link exists and the cost counts.
fn candidate_cost<F>(
    map: &HexMap,
    from: &Cell,
    movement: &MovementConfig,
    can_enter: &F,
    cost: u64,
    settled: bool,
    z: Axial,
    Ghost(enters): Ghost<spec_fn(Cell) -> bool>,
) -> (total: Option<u64>) where F: Fn(&Cell) -> bool
    requires
        obeys(*can_enter, enters),
    ensures
        total is Some <==> {
            &&& !settled
            &&& map@.contains_key(z)
            &&& enters(map@[z])
            &&& traversable(*from, map@[z], *movement)
            &&& cost + step_cost(*from, map@[z], *movement) <= u64::MAX
        },
        total matches Some(t) ==> t == cost + step_cost(*from, map@[z], *movement),
{
    if settled {
        return None;
    }
    let to = match map.get(z) {
        Some(cell) => cell,
        None => {
            return None;
        },
    };
    if !can_enter(to) {
        return None;
    }
    match ground_traversal(from, to, movement) {
        Some(traversal) => cost.checked_add(traversal.cost as u64),
        None => None,
    }
}

proof fn lemma_nothing_open(
    r: Routing,
    s: Search,
    distances: Map<Axial, u64>,
    previous: Map<Axial, Axial>,
    visited: Set<Axial>,
    frontier: Set<(u64, u64, Axial)>,
)
    requires
        r.sound(s),
        mirrors(r, s, distances, previous, visited, frontier),
        frontier == Set::<(u64, u64, Axial)>::empty(),
    ensures
        !exists|c: Axial| r.is_next(s, c),
{
    reveal(Routing::sound);
    reveal(mirrors);
    assert forall|c: Axial| !r.is_next(s, c) by {
        if r.is_open(s, c) {
            let e = (r.estimate(s, c) as u64, r.cost_to(s, c) as u64, c);
            assert(frontier.contains(e));
        }
    }
}

/// The least frontier entry belongs to the next cell.
proof fn lemma_popped_is_next(
    r: Routing,
    s: Search,
    distances: Map<Axial, u64>,
    previous: Map<Axial, Axial>,
    visited: Set<Axial>,
    frontier: Set<(u64, u64, Axial)>,
    e: (u64, u64, Axial),
)
    requires
        r.sound(s),
        mirrors(r, s, distances, previous, visited, frontier),
        frontier.contains(e),
        forall|f: (u64, u64, Axial)| #[trigger]
            frontier.contains(f) && f != e ==> entry_lt(e, f),
    ensures
        r.is_next(s, e.2),
        forall|c: Axial| r.is_next(s, c) ==> c == e.2,
        (choose|c: Axial| r.is_next(s, c)) == e.2,
        e.1 == r.cost_to(s, e.2),
        r.cells.contains_key(e.2),
{
    let current = e.2;
    assert(r.is_open(s, current) && e.0 == r.estimate(s, current) && e.1 == r.cost_to(s, current))
        by {
        reveal(mirrors);
    }
    assert(r.cells.contains_key(current)) by {
        reveal(Routing::sound);
    }
    assert forall|d: Axial| #[trigger] r.is_open(s, d) && d != current implies r.precedes(
        s,
        current,
        d,
    ) by {
        let f = (r.estimate(s, d) as u64, r.cost_to(s, d) as u64, d);
        assert(r.cost_to(s, d) < u64::MAX) by {
            reveal(Routing::sound);
        }
        assert(frontier.contains(f)) by {
            reveal(mirrors);
        }
        assert(entry_lt(e, f));
    }
    assert(r.is_next(s, current));
    assert forall|c: Axial| r.is_next(s, c) implies c == current by {
        if c != current {
            assert(r.precedes(s, c, current));
            assert(r.precedes(s, current, c));
        }
    }
}

/// Taking the entry of the next cell out settles it.
proof fn lemma_mirror_popped(
    r: Routing,
    s: Search,
    distances: Map<Axial, u64>,
    previous: Map<Axial, Axial>,
    visited: Set<Axial>,
    frontier: Set<(u64, u64, Axial)>,
    e: (u64, u64, Axial),
)
    requires
        mirrors(r, s, distances, previous, visited, frontier),
        frontier.contains(e),
    ensures
        mirrors(
            r,
            r.relax(s, e.2, Set::empty()),
            distances,
            previous,
            visited.insert(e.2),
            frontier.remove(e),
        ),
{
    reveal(mirrors);
    let current = e.2;
    let t = r.relax(s, current, Set::empty());
    assert(t.routes =~= s.routes);
    assert forall|f: (u64, u64, Axial)| #[trigger]
        frontier.remove(e).contains(f) <==> r.is_open(t, f.2) && f.0 == r.estimate(t, f.2) && f.1
            == r.cost_to(t, f.2) by {
        assert(frontier.contains(f) <==> r.is_open(s, f.2) && f.0 == r.estimate(s, f.2) && f.1
            == r.cost_to(s, f.2));
        assert(frontier.contains(e));
    }
    assert forall|z: Axial| #[trigger] t.routes.contains_key(z) && z != r.start implies {
        &&& previous.contains_key(z)
        &&& t.settled.contains(previous[z])
        &&& t.routes[z] == t.routes[previous[z]].push(z)
    } by {
        assert(s.routes.contains_key(z));
    }
}

/// Settling an open cell leaves one unsettled cell fewer.
proof fn lemma_unsettled_count(r: Routing, s: Search, current: Axial)
    requires
        r.sound(s),
        r.is_open(s, current),
    ensures
        r.cells.dom().difference(s.settled).len() > 0,
        r.cells.dom().difference(r.settle(s, current).settled).len() == r.cells.dom().difference(
            s.settled,
        ).len() - 1,
{
    reveal(Routing::sound);
    let rest = r.cells.dom().difference(s.settled);
    assert(rest.contains(current));
    vstd::set_lib::lemma_set_empty_equivalency_len(rest);
    assert(r.cells.dom().difference(r.settle(s, current).settled) =~= rest.remove(current));
}

/// What the loop reads of a neighbour that has not been looked at yet.
proof fn lemma_mirror_reads(
    r: Routing,
    s: Search,
    current: Axial,
    done: Set<Axial>,
    distances: Map<Axial, u64>,
    previous: Map<Axial, Axial>,
    visited: Set<Axial>,
    frontier: Set<(u64, u64, Axial)>,
    z: Axial,
)
    requires
        r.sound(s),
        mirrors(r, r.relax(s, current, done), distances, previous, visited, frontier),
        !done.contains(z),
    ensures
        visited == s.settled.insert(current),
        distances.contains_key(z) <==> s.routes.contains_key(z),
        distances.contains_key(z) ==> distances[z] == r.cost_to(s, z) && distances[z] < u64::MAX,
{
    reveal(Routing::sound);
    reveal(mirrors);
    let t = r.relax(s, current, done);
    assert(t.routes.contains_key(z) <==> s.routes.contains_key(z));
    assert(distances.dom().contains(z) <==> t.routes.dom().contains(z));
}

/// Recording an improvement keeps the loop's data in step with the search.
proof fn lemma_mirror_improved(
    r: Routing,
    s: Search,
    current: Axial,
    done: Set<Axial>,
    distances: Map<Axial, u64>,
    previous: Map<Axial, Axial>,
    visited: Set<Axial>,
    frontier: Set<(u64, u64, Axial)>,
    z: Axial,
    candidate: u64,
    distances2: Map<Axial, u64>,
    previous2: Map<Axial, Axial>,
    frontier2: Set<(u64, u64, Axial)>,
)
    requires
        r.sound(s),
        r.is_open(s, current),
        mirrors(r, r.relax(s, current, done), distances, previous, visited, frontier),
        !done.contains(z),
        r.improves(s, current, z),
        candidate == r.cost_to(s, current) + r.link_cost(current, z),
        distances2 == distances.insert(z, candidate),
        previous2 == previous.insert(z, current),
        frontier2 == (if s.routes.contains_key(z) {
            frontier.remove(
                (
                    saturated(r.cost_to(s, z) + r.heuristic(z)) as u64,
                    r.cost_to(s, z) as u64,
                    z,
                ),
            )
        } else {
            frontier
        }).insert((saturated(candidate as nat + r.heuristic(z)) as u64, candidate, z)),
    ensures
        mirrors(
            r,
            r.relax(s, current, done.insert(z)),
            distances2,
            previous2,
            visited,
            frontier2,
        ),
{
    reveal(Routing::sound);
    reveal(mirrors);
    let t = r.relax(s, current, done);
    let u = r.relax(s, current, done.insert(z));
    assert(t.routes.contains_key(z) <==> s.routes.contains_key(z));
    assert(s.routes.contains_key(z) ==> t.routes[z] == s.routes[z]);
    assert forall|x: Axial| x != z implies u.routes.contains_key(x) == t.routes.contains_key(x) && (
    t.routes.contains_key(x) ==> u.routes[x] == t.routes[x]) by {}
    assert(u.settled == t.settled);
    assert(t.routes[current] == s.routes[current]);
    lemma_extended_cost(r, s.routes[current], z);
    assert(u.routes[z] == s.routes[current].push(z));
    assert(distances2.dom() =~= u.routes.dom());
    assert forall|x: Axial| #[trigger] u.routes.contains_key(x) && x != r.start implies {
        &&& previous2.contains_key(x)
        &&& u.settled.contains(previous2[x])
        &&& u.routes[x] == u.routes[previous2[x]].push(x)
    } by {
        if x != z {
            assert(t.routes.contains_key(x));
            assert(previous2[x] == previous[x]);
            assert(previous2[x] != z);
        }
    }
    assert forall|x: Axial| #[trigger] u.routes.contains_key(x) implies distances2[x] == r.cost_to(
        u,
        x,
    ) by {
        if x != z {
            assert(t.routes.contains_key(x));
        }
    }
    assert forall|e: (u64, u64, Axial)| #[trigger]
        frontier2.contains(e) <==> r.is_open(u, e.2) && e.0 == r.estimate(u, e.2) && e.1
            == r.cost_to(u, e.2) by {
        assert(frontier.contains(e) <==> r.is_open(t, e.2) && e.0 == r.estimate(t, e.2) && e.1
            == r.cost_to(t, e.2));
        if e.2 == z {
            assert(r.cost_to(u, z) == candidate);
        }
    }
}

/// The heuristic: the cheapest link cost times the distance, saturated.
fn scaled_distance(minimum: u64, from: Axial, goal: Axial) -> (h: u64)
    requires
        minimum <= u32::MAX,
    ensures
        h == saturated(minimum as nat * hex_distance(from, goal) as nat),
{
    let d: u64 = from.distance(goal);
    assert(d <= 0x2_0000_0000);
    assert(0 <= minimum * d <= 0x1_0000_0000 * 0x2_0000_0000) by (nonlinear_arith)
        requires
            0 <= minimum <= 0x1_0000_0000,
            0 <= d <= 0x2_0000_0000,
    ;
    let product: u128 = minimum as u128 * d as u128;
    if product > u64::MAX as u128 {
        u64::MAX
    } else {
        product as u64
    }
}

/// Follows the predecessors from the goal back to the start.
fn reconstruct_path(
    start: Axial,
    goal: Axial,
    marks: &Marks,
    Ghost(routes): Ghost<Map<Axial, Seq<Axial>>>,
    Ghost(settled): Ghost<Set<Axial>>,
) -> (cells: Vec<Axial>)
    requires
        routes.contains_key(goal),
        routes.contains_key(start),
        routes[start] == seq![start],
        settled.subset_of(routes.dom()),
        forall|z: Axial| #[trigger] routes.contains_key(z) ==> routes[z].len() > 0,
        forall|z: Axial| #[trigger]
            routes.contains_key(z) && z != start ==> {
                &&& marks.previous().contains_key(z)
                &&& settled.contains(marks.previous()[z])
                &&& routes[z] == routes[marks.previous()[z]].push(z)
            },
    ensures
        cells@ == routes[goal],
{
    let mut backwards: Vec<Axial> = vec![goal];
    let mut current = goal;
    assert(backwards@.subrange(1, 1) =~= Seq::empty());
    assert(routes[goal] =~= routes[goal] + backwards@.subrange(1, 1).reverse());
    while current != start
        invariant
            routes.contains_key(current),
            routes.contains_key(start),
            routes[start] == seq![start],
            settled.subset_of(routes.dom()),
            forall|z: Axial| #[trigger] routes.contains_key(z) ==> routes[z].len() > 0,
            forall|z: Axial| #[trigger]
                routes.contains_key(z) && z != start ==> {
                    &&& marks.previous().contains_key(z)
                    &&& settled.contains(marks.previous()[z])
                    &&& routes[z] == routes[marks.previous()[z]].push(z)
                },
            backwards@.len() > 0,
            backwards@.last() == current,
            routes[goal] == routes[current] + backwards@.drop_last().reverse(),
        decreases routes[current].len(),
    {
        let ghost tail = backwards@.drop_last();
        match marks.look(current) {
            Some(before) => {
                let ghost was = current;
                current = before.previous;
                backwards.push(current);
                proof {
                    assert(backwards@.drop_last() =~= tail.push(was));
                    assert(tail.push(was).reverse() =~= seq![was] + tail.reverse());
                    assert(routes[was] + tail.reverse() =~= routes[current] + (seq![was]
                        + tail.reverse()));
                }
            },
            None => {
                assert(false);
                return backwards;
            },
        }
    }
    let mut cells: Vec<Axial> = Vec::new();
    let mut k: usize = backwards.len();
    while k > 0
        invariant
            k <= backwards.len(),
            cells@.len() == backwards.len() - k,
            forall|j: int|
                0 <= j < cells@.len() ==> #[trigger] cells@[j] == backwards@[backwards.len() - 1
                    - j],
        decreases k,
    {
        k -= 1;
        cells.push(backwards[k]);
    }
    assert(cells@ =~= seq![start] + backwards@.drop_last().reverse());
    cells
}

} // verus!
