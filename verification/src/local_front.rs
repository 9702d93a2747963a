//! Routes from every cell of a selection to its nearest local contact edge.
use vstd::prelude::*;
use crate::agenda::{entry_lt, Agenda};
use crate::axials::{
    ascending, coordinate_lt, lemma_ascending_no_duplicates, lemma_ordered_is, ordered, AxialMap,
    AxialSet,
};
use crate::coord::{adjacent, axial_lt, law_adjacent_iff_neighbor, Axial};
use crate::front::{ContactSet, DirectedFrontEdge};

verus! {

/// One source's deterministic route to a local contact edge.
///
/// `cells` contains the complete forward route: the selected source, zero or
/// more selected interior cells, `edge.source`, and finally the unselected
/// `edge.target`. `interior_cost` covers only traversal inside the selected
/// region; callers can add the final contact step explicitly for ETA because
/// the supplied front edge is already considered eligible.
#[derive(Clone, Debug, Eq, PartialEq)]
pub struct LocalFrontRoute {
    pub edge: DirectedFrontEdge,
    pub cells: Vec<Axial>,
    pub interior_cost: u64,
}

/// How a cell reaches the boundary: at what cost, where, and by which next cell.
#[derive(Clone, Copy, Debug, Eq, PartialEq)]
pub struct LocalFrontLabel {
    pub cost: u64,
    pub boundary: Axial,
    pub next: Option<Axial>,
}

/// What a toll says of a step.
pub open spec fn tolls<F: Fn(Axial, Axial) -> Option<u64>>(toll: F) -> spec_fn(
    Axial,
    Axial,
) -> Option<u64> {
    |from: Axial, to: Axial| choose|price: Option<u64>| call_ensures(toll, (from, to), price)
}

/// A toll can be asked of every step, and answers the same each time.
pub open spec fn is_toll<F: Fn(Axial, Axial) -> Option<u64>>(toll: F) -> bool {
    &&& forall|from: Axial, to: Axial| call_requires(toll, (from, to))
    &&& forall|from: Axial, to: Axial, price: Option<u64>|
        call_ensures(toll, (from, to), price) ==> price == tolls(toll)(from, to)
}

/// A selection, the contact edges offered to it, and the price of each step.
pub struct Ground {
    pub selected: Set<Axial>,
    pub edges: Set<DirectedFrontEdge>,
    pub toll: spec_fn(Axial, Axial) -> Option<u64>,
}

/// The order of coordinates that come after each other.
pub open spec fn next_le(a: Option<Axial>, b: Option<Axial>) -> bool {
    match (a, b) {
        (None, _) => true,
        (Some(_), None) => false,
        (Some(x), Some(y)) => x == y || axial_lt(x, y),
    }
}

impl LocalFrontLabel {
    /// The order of the search: by cost, then by boundary.
    pub open spec fn sooner(self, other: LocalFrontLabel) -> bool {
        self.cost < other.cost || (self.cost == other.cost && axial_lt(
            self.boundary,
            other.boundary,
        ))
    }

    /// The order of labels: by cost, boundary, then next cell.
    pub open spec fn le(self, other: LocalFrontLabel) -> bool {
        self.sooner(other) || (self.cost == other.cost && self.boundary == other.boundary
            && next_le(self.next, other.next))
    }
}

impl Ground {
    /// Whether an offered edge leads out of the selection to a neighbour.
    pub open spec fn contact(self, e: DirectedFrontEdge) -> bool {
        &&& self.edges.contains(e)
        &&& self.selected.contains(e.source)
        &&& !self.selected.contains(e.target)
        &&& adjacent(e.source, e.target)
    }

    /// The outside cells in contact with a cell.
    pub open spec fn targets_of(self, c: Axial) -> Set<Axial> {
        Set::new(|t: Axial| self.contact(DirectedFrontEdge { source: c, target: t }))
    }

    /// Whether a cell has a contact.
    pub open spec fn is_boundary(self, c: Axial) -> bool {
        exists|t: Axial| #[trigger]
            self.contact(DirectedFrontEdge { source: c, target: t })
    }

    /// Whether a step inside the selection can be taken. Steps without a price,
    /// or with price zero, cannot.
    pub open spec fn passes(self, from: Axial, to: Axial) -> bool {
        &&& self.selected.contains(from)
        &&& self.selected.contains(to)
        &&& adjacent(from, to)
        &&& (self.toll)(from, to) is Some
        &&& (self.toll)(from, to).unwrap() > 0
    }

    /// The price of a step.
    pub open spec fn price(self, from: Axial, to: Axial) -> nat {
        (self.toll)(from, to).unwrap() as nat
    }

    /// What a labelled cell offers to a neighbour that would step onto it.
    pub open spec fn offer(
        self,
        labels: Map<Axial, LocalFrontLabel>,
        to: Axial,
        from: Axial,
    ) -> Option<LocalFrontLabel> {
        if labels.contains_key(to) && self.passes(from, to) && labels[to].cost + self.price(from, to)
            <= u64::MAX {
            Some(
                LocalFrontLabel {
                    cost: (labels[to].cost + self.price(from, to)) as u64,
                    boundary: labels[to].boundary,
                    next: Some(to),
                },
            )
        } else {
            None
        }
    }

    /// Whether a cell has the least of the labels that some cells offer it.
    pub open spec fn settles(
        self,
        labels: Map<Axial, LocalFrontLabel>,
        settled: Set<Axial>,
        c: Axial,
    ) -> bool {
        &&& self.is_boundary(c) ==> labels.contains_key(c) && labels[c] == start_label(c)
        &&& !self.is_boundary(c) && labels.contains_key(c) ==> exists|n: Axial|
            settled.contains(n) && #[trigger] self.offer(labels, n, c) == Some(labels[c])
        &&& forall|n: Axial|
            settled.contains(n) && (#[trigger] self.offer(labels, n, c)) is Some
                ==> labels.contains_key(c) && labels[c].le(self.offer(labels, n, c).unwrap())
    }

    /// Labels in which every cell has the least label that its neighbours offer,
    /// and every boundary cell is its own destination.
    pub open spec fn is_labelling(self, labels: Map<Axial, LocalFrontLabel>) -> bool {
        &&& labels.dom().finite()
        &&& forall|c: Axial| #[trigger] self.settles(labels, labels.dom(), c)
    }
}

/// The label of a boundary cell.
pub open spec fn start_label(c: Axial) -> LocalFrontLabel {
    LocalFrontLabel { cost: 0, boundary: c, next: None }
}

/// The cells from one cell on, each the next cell of the one before.
pub open spec fn is_trail(labels: Map<Axial, LocalFrontLabel>, cells: Seq<Axial>) -> bool {
    &&& cells.len() > 0
    &&& forall|k: int| 0 <= k < cells.len() ==> labels.contains_key(#[trigger] cells[k])
    &&& forall|k: int|
        0 <= k < cells.len() - 1 ==> labels[#[trigger] cells[k]].next == Some(cells[k + 1])
    &&& labels[cells.last()].next is None
}

/// The cells that feed the same boundary cell and come earlier.
pub open spec fn earlier(labels: Map<Axial, LocalFrontLabel>, c: Axial) -> Set<Axial> {
    Set::new(
        |d: Axial|
            labels.contains_key(d) && labels[d].boundary == labels[c].boundary && axial_lt(d, c),
    )
}

impl Ground {
    /// The route of a cell: along the labels to its boundary cell, and out by
    /// one of the contacts there. The cells that feed a boundary take turns at
    /// its contacts.
    pub open spec fn follows(
        self,
        labels: Map<Axial, LocalFrontLabel>,
        c: Axial,
        route: LocalFrontRoute,
    ) -> bool {
        let targets = ordered(self.targets_of(labels[c].boundary));
        &&& route.interior_cost == labels[c].cost
        &&& route.cells@.len() > 1
        &&& route.cells@[0] == c
        &&& is_trail(labels, route.cells@.drop_last())
        &&& route.cells@[route.cells@.len() - 2] == labels[c].boundary
        &&& route.cells@.last() == route.edge.target
        &&& route.edge.source == labels[c].boundary
        &&& targets.len() > 0
        &&& route.edge.target == targets[earlier(labels, c).len() as int % targets.len() as int]
    }

    /// The routes of all cells that reach the boundary.
    pub open spec fn are_routes(self, routes: Map<Axial, LocalFrontRoute>) -> bool {
        exists|labels: Map<Axial, LocalFrontLabel>| #[trigger]
            self.is_labelling(labels) && labels.dom() == routes.dom() && forall|c: Axial| #[trigger]
                routes.contains_key(c) ==> self.follows(labels, c, routes[c])
    }

    /// A walk inside the selection that ends at a boundary cell.
    pub open spec fn is_way(self, p: Seq<Axial>) -> bool {
        &&& p.len() > 0
        &&& self.is_boundary(p.last())
        &&& forall|k: int| 0 <= k < p.len() - 1 ==> self.passes(#[trigger] p[k], p[k + 1])
    }

    /// The sum of the prices of the steps of a walk.
    pub open spec fn way_cost(self, p: Seq<Axial>) -> nat
        decreases p.len(),
    {
        if p.len() <= 1 {
            0
        } else {
            self.price(p[0], p[1]) + self.way_cost(p.drop_first())
        }
    }
}

/// There is only one labelling: neither the order of the search nor that of the
/// inputs shows in it.
pub proof fn law_labelling_is_unique(
    g: Ground,
    a: Map<Axial, LocalFrontLabel>,
    b: Map<Axial, LocalFrontLabel>,
)
    requires
        g.is_labelling(a),
        g.is_labelling(b),
    ensures
        a == b,
{
    assert forall|c: Axial|
        #![trigger a.dom().contains(c)]
        #![trigger b.dom().contains(c)]
        a.dom().contains(c) || b.dom().contains(c) implies a.dom().contains(c) && b.dom().contains(
        c,
    ) && a[c] == b[c] by {
        let k = if a.contains_key(c) {
            a[c].cost as nat
        } else {
            b[c].cost as nat
        };
        lemma_labellings_agree(g, a, b, k, c);
    }
    assert(a.dom() =~= b.dom());
    assert(a =~= b);
}

proof fn lemma_labellings_agree(
    g: Ground,
    a: Map<Axial, LocalFrontLabel>,
    b: Map<Axial, LocalFrontLabel>,
    k: nat,
    c: Axial,
)
    requires
        g.is_labelling(a),
        g.is_labelling(b),
        (a.contains_key(c) && a[c].cost <= k) || (b.contains_key(c) && b[c].cost <= k),
    ensures
        a.contains_key(c),
        b.contains_key(c),
        a[c] == b[c],
    decreases k, 1nat,
{
    assert(g.settles(a, a.dom(), c));
    assert(g.settles(b, b.dom(), c));
    if !g.is_boundary(c) {
        if a.contains_key(c) && a[c].cost <= k {
            lemma_label_bounds(g, a, b, k, c);
        }
        if b.contains_key(c) && b[c].cost <= k {
            lemma_label_bounds(g, b, a, k, c);
        }
        if a.contains_key(c) && a[c].cost <= k {
            lemma_label_bounds(g, a, b, k, c);
        }
    }
}

proof fn lemma_label_bounds(
    g: Ground,
    a: Map<Axial, LocalFrontLabel>,
    b: Map<Axial, LocalFrontLabel>,
    k: nat,
    c: Axial,
)
    requires
        g.is_labelling(a),
        g.is_labelling(b),
        !g.is_boundary(c),
        a.contains_key(c) && a[c].cost <= k,
    ensures
        b.contains_key(c),
        b[c].le(a[c]),
    decreases k, 0nat,
{
    assert(g.settles(a, a.dom(), c));
    assert(g.settles(b, b.dom(), c));
    let n = choose|n: Axial| a.dom().contains(n) && #[trigger] g.offer(a, n, c) == Some(a[c]);
    assert(a[n].cost < a[c].cost);
    lemma_labellings_agree(g, a, b, (k - 1) as nat, n);
    assert(g.offer(b, n, c) == Some(a[c]));
}

/// A labelled cell is as cheap as it can be: no walk to the boundary costs less,
/// every cell with an affordable walk is labelled, and the trail of a label is a
/// walk at exactly its cost.
pub proof fn law_labels_are_cheapest(g: Ground, labels: Map<Axial, LocalFrontLabel>)
    requires
        g.is_labelling(labels),
    ensures
        forall|p: Seq<Axial>| #[trigger]
            g.is_way(p) && g.way_cost(p) <= u64::MAX ==> labels.contains_key(p[0])
                && labels[p[0]].cost <= g.way_cost(p),
        forall|p: Seq<Axial>| #[trigger]
            is_trail(labels, p) ==> g.is_way(p) && g.way_cost(p) == labels[p[0]].cost,
{
    assert forall|p: Seq<Axial>| #[trigger]
        g.is_way(p) && g.way_cost(p) <= u64::MAX implies labels.contains_key(p[0])
        && labels[p[0]].cost <= g.way_cost(p) by {
        lemma_way_bounds(g, labels, p);
    }
    assert forall|p: Seq<Axial>| #[trigger] is_trail(labels, p) implies g.is_way(p) && g.way_cost(p)
        == labels[p[0]].cost by {
        lemma_trail_is_way(g, labels, p);
    }
}

pub proof fn lemma_way_bounds(g: Ground, labels: Map<Axial, LocalFrontLabel>, p: Seq<Axial>)
    requires
        g.is_labelling(labels),
        g.is_way(p),
        g.way_cost(p) <= u64::MAX,
    ensures
        labels.contains_key(p[0]),
        labels[p[0]].cost <= g.way_cost(p),
    decreases p.len(),
{
    assert(g.settles(labels, labels.dom(), p[0]));
    if p.len() > 1 {
        let rest = p.drop_first();
        assert forall|k: int| 0 <= k < rest.len() - 1 implies g.passes(
            #[trigger] rest[k],
            rest[k + 1],
        ) by {
            assert(g.passes(p[k + 1], p[k + 1 + 1]));
        }
        assert(rest.last() == p.last());
        lemma_way_bounds(g, labels, rest);
        assert(g.passes(p[0], p[0int + 1]));
        assert(g.offer(labels, p[1], p[0]) is Some);
    }
}

pub proof fn lemma_trail_is_way(g: Ground, labels: Map<Axial, LocalFrontLabel>, p: Seq<Axial>)
    requires
        g.is_labelling(labels),
        is_trail(labels, p),
    ensures
        g.is_way(p),
        g.way_cost(p) == labels[p[0]].cost,
        labels[p[0]].boundary == p.last(),
        g.is_boundary(p.last()),
    decreases p.len(),
{
    let c = p[0];
    assert(g.settles(labels, labels.dom(), c));
    assert(labels.contains_key(c));
    if p.len() > 1 {
        assert(labels[p[0]].next == Some(p[0int + 1]));
        let n = choose|n: Axial|
            labels.dom().contains(n) && #[trigger] g.offer(labels, n, c) == Some(labels[c]);
        assert(n == p[1]);
        let rest = p.drop_first();
        assert forall|k: int| 0 <= k < rest.len() implies labels.contains_key(
            #[trigger] rest[k],
        ) by {
            assert(labels.contains_key(p[k + 1]));
        }
        assert forall|k: int| 0 <= k < rest.len() - 1 implies labels[#[trigger] rest[k]].next
            == Some(rest[k + 1]) by {
            assert(labels[p[k + 1]].next == Some(p[k + 1 + 1]));
        }
        assert(rest.last() == p.last());
        lemma_trail_is_way(g, labels, rest);
        assert forall|k: int| 0 <= k < p.len() - 1 implies g.passes(#[trigger] p[k], p[k + 1]) by {
            if k > 0 {
                assert(g.passes(rest[k - 1], rest[k - 1 + 1]));
            }
        }
    } else {
        assert(p.last() == c);
        if !g.is_boundary(c) {
            let n = choose|n: Axial|
                labels.dom().contains(n) && #[trigger] g.offer(labels, n, c) == Some(labels[c]);
            assert(labels[c].next == Some(n));
        }
    }
}

/// Two trails from one cell are the same.
proof fn lemma_trails_agree(
    labels: Map<Axial, LocalFrontLabel>,
    a: Seq<Axial>,
    b: Seq<Axial>,
    k: int,
)
    requires
        is_trail(labels, a),
        is_trail(labels, b),
        a[0] == b[0],
        0 <= k < a.len(),
    ensures
        k < b.len(),
        a[k] == b[k],
    decreases k,
{
    if k > 0 {
        lemma_trails_agree(labels, a, b, k - 1);
        assert(labels[a[k - 1]].next == Some(a[k - 1 + 1]));
        if k - 1 == b.len() - 1 {
            assert(labels[b.last()].next is None);
        }
        assert(labels[b[k - 1]].next == Some(b[k - 1 + 1]));
    }
}

/// The routes are determined by the selection, the offered edges as a set, and
/// the prices: the order in which anything is handed in does not matter.
pub proof fn law_local_routes_are_unique(
    g: Ground,
    a: Map<Axial, LocalFrontRoute>,
    b: Map<Axial, LocalFrontRoute>,
)
    requires
        g.are_routes(a),
        g.are_routes(b),
    ensures
        a.dom() == b.dom(),
        forall|c: Axial| #[trigger]
            a.contains_key(c) ==> a[c].edge == b[c].edge && a[c].cells@ == b[c].cells@
                && a[c].interior_cost == b[c].interior_cost,
{
    let l = choose|labels: Map<Axial, LocalFrontLabel>| #[trigger]
        g.is_labelling(labels) && labels.dom() == a.dom() && forall|c: Axial| #[trigger]
            a.contains_key(c) ==> g.follows(labels, c, a[c]);
    let m = choose|labels: Map<Axial, LocalFrontLabel>| #[trigger]
        g.is_labelling(labels) && labels.dom() == b.dom() && forall|c: Axial| #[trigger]
            b.contains_key(c) ==> g.follows(labels, c, b[c]);
    law_labelling_is_unique(g, l, m);
    assert forall|c: Axial| #[trigger] a.contains_key(c) implies a[c].edge == b[c].edge
        && a[c].cells@ == b[c].cells@ && a[c].interior_cost == b[c].interior_cost by {
        assert(b.contains_key(c));
        lemma_routes_agree(g, l, c, a[c], b[c]);
    }
}

proof fn lemma_routes_agree(
    g: Ground,
    labels: Map<Axial, LocalFrontLabel>,
    c: Axial,
    a: LocalFrontRoute,
    b: LocalFrontRoute,
)
    requires
        g.follows(labels, c, a),
        g.follows(labels, c, b),
    ensures
        a.edge == b.edge,
        a.cells@ == b.cells@,
        a.interior_cost == b.interior_cost,
{
    let s = a.cells@.drop_last();
    let t = b.cells@.drop_last();
    assert(s[0] == c && t[0] == c);
    lemma_trails_agree(labels, s, t, s.len() - 1);
    lemma_trails_agree(labels, t, s, t.len() - 1);
    assert forall|k: int| 0 <= k < s.len() implies #[trigger] s[k] == t[k] by {
        lemma_trails_agree(labels, s, t, k);
    }
    assert(s =~= t);
    assert(a.cells@ =~= s.push(a.cells@.last()));
    assert(b.cells@ =~= t.push(b.cells@.last()));
}

/// A number for each coordinate, in the order of coordinates.
spec fn rank(c: Axial) -> int {
    (c.q + 0x8000_0000) * 0x1_0000_0000 + (c.r + 0x8000_0000)
}

fn rank_of(c: Axial) -> (n: u64)
    ensures
        n == rank(c),
{
    ((c.q as i64 + 0x8000_0000) as u64) * 0x1_0000_0000 + (c.r as i64 + 0x8000_0000) as u64
}

proof fn lemma_rank(a: Axial, b: Axial)
    ensures
        rank(a) < rank(b) <==> axial_lt(a, b),
        rank(a) == rank(b) ==> a == b,
{
}

/// The cells of the agenda are the labelled ones that are not settled.
spec fn awaits(
    labels: Map<Axial, LocalFrontLabel>,
    settled: Set<Axial>,
    agenda: Set<(u64, u64, Axial)>,
) -> bool {
    forall|e: (u64, u64, Axial)| #[trigger]
        agenda.contains(e) <==> labels.contains_key(e.2) && !settled.contains(e.2) && e.0
            == labels[e.2].cost && e.1 == rank(labels[e.2].boundary)
}

/// Settled cells come no later in the search than those that wait.
spec fn in_turn(labels: Map<Axial, LocalFrontLabel>, settled: Set<Axial>) -> bool {
    forall|s: Axial, c: Axial|
        #![trigger settled.contains(s), labels.contains_key(c)]
        settled.contains(s) && labels.contains_key(c) && !settled.contains(c)
            ==> !labels[c].sooner(labels[s])
}

/// The labels after a settled cell has made its offer to one neighbour.
spec fn improved(
    g: Ground,
    labels: Map<Axial, LocalFrontLabel>,
    to: Axial,
    from: Axial,
) -> Map<Axial, LocalFrontLabel> {
    match g.offer(labels, to, from) {
        Some(o) => if labels.contains_key(from) && labels[from].le(o) {
            labels
        } else {
            labels.insert(from, o)
        },
        None => labels,
    }
}

/// An offer changes no settled cell, and leaves the neighbour with the least
/// label that the settled cells offer.
proof fn lemma_improved(
    g: Ground,
    labels: Map<Axial, LocalFrontLabel>,
    settled: Set<Axial>,
    to: Axial,
    from: Axial,
)
    requires
        settled.contains(to),
        settled.subset_of(labels.dom()),
        labels.dom().subset_of(g.selected),
        in_turn(labels, settled),
        forall|s: Axial| #[trigger] settled.contains(s) ==> !labels[to].sooner(labels[s]),
        g.settles(labels, settled.remove(to), from),
    ensures
        improved(g, labels, to, from).dom().subset_of(g.selected),
        settled.subset_of(improved(g, labels, to, from).dom()),
        forall|c: Axial| #[trigger]
            labels.contains_key(c) ==> improved(g, labels, to, from).contains_key(c),
        forall|c: Axial|
            c != from ==> (#[trigger] improved(g, labels, to, from).contains_key(c)
                <==> labels.contains_key(c)),
        forall|c: Axial| c != from ==> #[trigger] improved(g, labels, to, from)[c] == labels[c],
        forall|c: Axial| #[trigger]
            settled.contains(c) ==> improved(g, labels, to, from)[c] == labels[c],
        in_turn(improved(g, labels, to, from), settled),
        g.settles(improved(g, labels, to, from), settled, from),
        forall|n: Axial, c: Axial|
            settled.contains(n) ==> #[trigger] g.offer(improved(g, labels, to, from), n, c)
                == g.offer(labels, n, c),
{
    let after = improved(g, labels, to, from);
    if g.offer(labels, to, from) is Some {
        let o = g.offer(labels, to, from).unwrap();
        if settled.contains(from) {
            assert(!labels[to].sooner(labels[from]));
            assert(labels[from].sooner(o));
            assert(after == labels);
        }
        if g.is_boundary(from) {
            assert(labels[from].sooner(o));
        }
    }
    assert forall|n: Axial, c: Axial| settled.contains(n) implies #[trigger] g.offer(after, n, c)
        == g.offer(labels, n, c) by {
        assert(after[n] == labels[n]);
    }
    assert forall|s: Axial, c: Axial|
        #![trigger settled.contains(s), after.contains_key(c)]
        settled.contains(s) && after.contains_key(c) && !settled.contains(c) implies !after[c].sooner(
        after[s],
    ) by {
        assert(!labels[to].sooner(labels[s]));
        if labels.contains_key(c) {
            assert(!labels[c].sooner(labels[s]));
        }
    }
    assert forall|n: Axial|
        settled.contains(n) && (#[trigger] g.offer(after, n, from)) is Some implies after.contains_key(
        from,
    ) && after[from].le(g.offer(after, n, from).unwrap()) by {
        assert(g.offer(after, n, from) == g.offer(labels, n, from));
        if n != to {
            assert(settled.remove(to).contains(n));
        }
    }
    if !g.is_boundary(from) && after.contains_key(from) {
        if after == labels {
            let n = choose|n: Axial|
                settled.remove(to).contains(n) && #[trigger] g.offer(labels, n, from) == Some(
                    labels[from],
                );
            assert(settled.contains(n) && g.offer(after, n, from) == Some(after[from]));
        } else {
            assert(settled.contains(to) && g.offer(after, to, from) == Some(after[from]));
        }
    }
}

/// Makes the offer of a settled cell to one neighbour.
fn relax<F>(
    selected: &AxialSet,
    traversal_cost: &F,
    labels: &mut AxialMap<LocalFrontLabel>,
    agenda: &mut Agenda,
    to: Axial,
    from: Axial,
    Ghost(g): Ghost<Ground>,
    Ghost(settled): Ghost<Set<Axial>>,
) where F: Fn(Axial, Axial) -> Option<u64>
    requires
        is_toll(*traversal_cost),
        g.selected == selected@,
        g.toll == tolls(*traversal_cost),
        adjacent(from, to),
        settled.contains(to),
        old(labels)@.contains_key(to),
        selected@.contains(to),
        awaits(old(labels)@, settled, old(agenda)@),
        settled.contains(from) ==> improved(g, old(labels)@, to, from) == old(labels)@,
    ensures
        final(labels)@ == improved(g, old(labels)@, to, from),
        awaits(final(labels)@, settled, final(agenda)@),
{
    if !selected.contains(from) {
        return ;
    }
    let price: u64 = match traversal_cost(from, to) {
        Some(price) => price,
        None => {
            return ;
        },
    };
    if price == 0 {
        return ;
    }
    let base: LocalFrontLabel = match labels.get(to) {
        Some(label) => *label,
        None => {
            return ;
        },
    };
    let cost: u64 = match base.cost.checked_add(price) {
        Some(cost) => cost,
        None => {
            return ;
        },
    };
    let candidate = LocalFrontLabel { cost, boundary: base.boundary, next: Some(to) };
    assert(g.offer(labels@, to, from) == Some(candidate));
    match labels.get(from) {
        Some(existing) => {
            let e: LocalFrontLabel = *existing;
            if label_le(&e, &candidate) {
                return ;
            }
            agenda.remove(e.cost, rank_of(e.boundary), from);
        },
        None => {},
    }
    labels.insert(from, candidate);
    agenda.insert(cost, rank_of(candidate.boundary), from);
}

fn label_le(a: &LocalFrontLabel, b: &LocalFrontLabel) -> (le: bool)
    ensures
        le == a.le(*b),
{
    if a.cost != b.cost {
        return a.cost < b.cost;
    }
    if a.boundary != b.boundary {
        return coordinate_lt(a.boundary, b.boundary);
    }
    match (a.next, b.next) {
        (None, _) => true,
        (Some(_), None) => false,
        (Some(x), Some(y)) => x == y || coordinate_lt(x, y),
    }
}

/// The offered edges that lead out of the selection.
fn contacts_of(selected: &AxialSet, edges: &[DirectedFrontEdge], Ghost(g): Ghost<Ground>) -> (found:
    ContactSet)
    requires
        g.selected == selected@,
        g.edges == edges@.to_set(),
    ensures
        forall|e: DirectedFrontEdge| #[trigger] found@.contains(e) <==> g.contact(e),
{
    let mut found = ContactSet::new();
    let mut i: usize = 0;
    while i < edges.len()
        invariant
            i <= edges.len(),
            g.selected == selected@,
            g.edges == edges@.to_set(),
            forall|e: DirectedFrontEdge| #[trigger]
                found@.contains(e) <==> g.contact(e) && exists|j: int|
                    0 <= j < i && #[trigger] edges@[j] == e,
        decreases edges.len() - i,
    {
        let e = edges[i];
        let ghost before = found@;
        assert(edges@.contains(e));
        if selected.contains(e.source) && !selected.contains(e.target) && e.source.distance(e.target)
            == 1 {
            found.insert(e);
        }
        proof {
            assert forall|f: DirectedFrontEdge| #[trigger]
                found@.contains(f) <==> g.contact(f) && exists|j: int|
                    0 <= j < i + 1 && #[trigger] edges@[j] == f by {
                assert(before.contains(f) <==> g.contact(f) && exists|j: int|
                    0 <= j < i && #[trigger] edges@[j] == f);
                assert(edges@[i as int] == e);
            }
        }
        i += 1;
    }
    proof {
        assert forall|e: DirectedFrontEdge| #[trigger] found@.contains(e) <==> g.contact(e) by {
            if g.contact(e) {
                assert(edges@.to_set().contains(e));
                let j = choose|j: int| 0 <= j < edges@.len() && edges@[j] == e;
                assert(edges@[j] == e);
            }
        }
    }
    found
}

/// Labels every cell that reaches the boundary.
fn label_cells<F>(
    selected: &AxialSet,
    contacts: &ContactSet,
    traversal_cost: &F,
    Ghost(g): Ghost<Ground>,
) -> (labels: AxialMap<LocalFrontLabel>) where F: Fn(Axial, Axial) -> Option<u64>
    requires
        is_toll(*traversal_cost),
        g.selected == selected@,
        g.toll == tolls(*traversal_cost),
        forall|e: DirectedFrontEdge| #[trigger] contacts@.contains(e) <==> g.contact(e),
        forall|c: Axial| #[trigger] selected@.contains(c) ==> c.interior(),
    ensures
        g.is_labelling(labels@),
        labels@.dom().subset_of(selected@),
{
    let listed = contacts.to_vec();
    let mut labels: AxialMap<LocalFrontLabel> = AxialMap::new();
    let mut agenda = Agenda::new();
    let mut i: usize = 0;
    while i < listed.len()
        invariant
            i <= listed.len(),
            listed@.to_set() == contacts@,
            forall|e: DirectedFrontEdge| #[trigger] contacts@.contains(e) <==> g.contact(e),
            awaits(labels@, Set::empty(), agenda@),
            forall|c: Axial| #[trigger]
                labels@.contains_key(c) ==> labels@[c] == start_label(c) && g.is_boundary(c),
            forall|j: int| 0 <= j < i ==> labels@.contains_key((#[trigger] listed@[j]).source),
        decreases listed.len() - i,
    {
        let e = listed[i];
        assert(listed@.to_set().contains(e));
        assert(contacts@.contains(e));
        assert(g.contact(DirectedFrontEdge { source: e.source, target: e.target }));
        labels.insert(e.source, LocalFrontLabel { cost: 0, boundary: e.source, next: None });
        agenda.insert(0, rank_of(e.source), e.source);
        i += 1;
    }
    let ghost mut settled = Set::<Axial>::empty();
    proof {
        selected.lemma_finite();
        assert forall|c: Axial| #[trigger] g.is_boundary(c) implies labels@.contains_key(c) by {
            let t = choose|t: Axial| #[trigger]
                g.contact(DirectedFrontEdge { source: c, target: t });
            let e = DirectedFrontEdge { source: c, target: t };
            assert(contacts@.contains(e));
            assert(listed@.to_set().contains(e));
            let j = choose|j: int| 0 <= j < listed@.len() && listed@[j] == e;
            assert(labels@.contains_key(listed@[j].source));
        }
        assert(labels@.dom().subset_of(selected@));
        assert forall|c: Axial| #[trigger] g.settles(labels@, settled, c) by {}
    }
    loop
        invariant
            is_toll(*traversal_cost),
            g.selected == selected@,
            g.toll == tolls(*traversal_cost),
            selected@.finite(),
            forall|c: Axial| #[trigger] selected@.contains(c) ==> c.interior(),
            settled.subset_of(labels@.dom()),
            labels@.dom().subset_of(selected@),
            awaits(labels@, settled, agenda@),
            in_turn(labels@, settled),
            forall|c: Axial| #[trigger] g.settles(labels@, settled, c),
            settled.len() <= selected@.len(),
        ensures
            settled =~= labels@.dom(),
        decreases selected@.len() - settled.len(),
    {
        let entry = match agenda.pop_first() {
            Some(entry) => entry,
            None => {
                proof {
                    assert forall|c: Axial| #[trigger] labels@.dom().contains(c) implies settled.contains(
                        c,
                    ) by {
                        if !settled.contains(c) {
                            lemma_rank(labels@[c].boundary, labels@[c].boundary);
                            let e = (labels@[c].cost, rank(labels@[c].boundary) as u64, c);
                            assert(agenda@.contains(e));
                        }
                    }
                }
                break;
            },
        };
        let current = entry.2;
        let ghost queue = agenda@.insert(entry);
        let ghost start = labels@;
        let ghost done = settled.insert(current);
        proof {
            vstd::set_lib::lemma_len_subset(settled, selected@);
            assert(queue.contains(entry));
            assert(labels@.contains_key(current) && !settled.contains(current));
            assert(done.subset_of(selected@));
            vstd::set_lib::lemma_len_subset(done, selected@);
            assert(awaits(labels@, done, agenda@)) by {
                assert forall|e: (u64, u64, Axial)| #[trigger]
                    agenda@.contains(e) <==> labels@.contains_key(e.2) && !done.contains(e.2) && e.0
                        == labels@[e.2].cost && e.1 == rank(labels@[e.2].boundary) by {
                    assert(queue.contains(e) <==> labels@.contains_key(e.2) && !settled.contains(
                        e.2,
                    ) && e.0 == labels@[e.2].cost && e.1 == rank(labels@[e.2].boundary));
                }
            }
            assert forall|s: Axial| #[trigger] done.contains(s) implies !labels@[current].sooner(
                labels@[s],
            ) by {
                if s != current {
                    assert(settled.contains(s) && labels@.contains_key(current));
                }
            }
            assert forall|s: Axial, c: Axial|
                #![trigger done.contains(s), labels@.contains_key(c)]
                done.contains(s) && labels@.contains_key(c) && !done.contains(
                    c,
                ) implies !labels@[c].sooner(labels@[s]) by {
                if s == current {
                    let e = (labels@[c].cost, rank(labels@[c].boundary) as u64, c);
                    lemma_rank(labels@[c].boundary, labels@[c].boundary);
                    assert(0 <= rank(labels@[c].boundary) <= u64::MAX);
                    assert(queue.contains(e));
                    assert(entry_lt(entry, e));
                    lemma_rank(labels@[c].boundary, labels@[current].boundary);
                } else {
                    assert(settled.contains(s));
                }
            }
            assert(done.remove(current) =~= settled);
        }
        let around = current.neighbors();
        let mut k: usize = 0;
        while k < 6
            invariant
                k <= 6,
                is_toll(*traversal_cost),
                g.selected == selected@,
                g.toll == tolls(*traversal_cost),
                around@ == Seq::new(6, |d: int| current.step(d)),
                current.interior(),
                done.contains(current),
                done.remove(current) == settled,
                done.subset_of(labels@.dom()),
                labels@.dom().subset_of(selected@),
                awaits(labels@, done, agenda@),
                in_turn(labels@, done),
                forall|s: Axial| #[trigger]
                    done.contains(s) ==> !labels@[current].sooner(labels@[s]),
                forall|c: Axial|
                    #![trigger g.settles(labels@, settled, c)]
                    (forall|d: int| 0 <= d < k ==> #[trigger] current.step(d) != c) ==> g.settles(
                        labels@,
                        settled,
                        c,
                    ),
                forall|d: int|
                    0 <= d < k ==> g.settles(labels@, done, #[trigger] current.step(d)),
            decreases 6 - k,
        {
            let from = around[k];
            let ghost mid = labels@;
            proof {
                assert(from == current.step(k as int));
                law_adjacent_iff_neighbor(current, from);
                assert forall|d: int| 0 <= d < k implies #[trigger] current.step(d) != from by {
                    lemma_steps_differ(current, d, k as int);
                }
                assert(g.settles(labels@, settled, from));
                lemma_improved(g, mid, done, current, from);
                if done.contains(from) {
                    assert(improved(g, mid, current, from)[from] == mid[from]);
                    assert(improved(g, mid, current, from) =~= mid);
                }
                assert(done.contains(current));
            }
            relax(
                selected,
                traversal_cost,
                &mut labels,
                &mut agenda,
                current,
                from,
                Ghost(g),
                Ghost(done),
            );
            proof {
                assert forall|c: Axial|
                    #![trigger g.settles(labels@, settled, c)]
                    (forall|d: int| 0 <= d < k + 1 ==> #[trigger] current.step(d)
                        != c) implies g.settles(labels@, settled, c) by {
                    assert(current.step(k as int) != c);
                    assert(g.settles(mid, settled, c));
                    lemma_settles_same(g, mid, labels@, settled, c);
                }
                assert forall|d: int| 0 <= d < k + 1 implies g.settles(
                    labels@,
                    done,
                    #[trigger] current.step(d),
                ) by {
                    if d < k {
                        assert(g.settles(mid, done, current.step(d)));
                        lemma_steps_differ(current, d, k as int);
                        lemma_settles_same(g, mid, labels@, done, current.step(d));
                    }
                }
            }
            k += 1;
        }
        proof {
            assert forall|c: Axial| #[trigger] g.settles(labels@, done, c) by {
                if exists|d: int| 0 <= d < 6 && #[trigger] current.step(d) == c {
                } else {
                    assert(g.settles(labels@, settled, c));
                    law_adjacent_iff_neighbor(current, c);
                    lemma_adjacent_symmetric(current, c);
                    assert(g.offer(labels@, current, c) is None);
                    assert forall|n: Axial|
                        done.contains(n) && (#[trigger] g.offer(labels@, n, c)) is Some
                        implies labels@.contains_key(c) && labels@[c].le(
                        g.offer(labels@, n, c).unwrap(),
                    ) by {
                        assert(settled.contains(n));
                    }
                }
            }
            settled = done;
            vstd::set_lib::lemma_len_subset(done, selected@);
        }
    }
    proof {
        labels.lemma_finite();
    }
    labels
}

proof fn lemma_steps_differ(c: Axial, d: int, e: int)
    requires
        c.interior(),
        0 <= d < 6,
        0 <= e < 6,
        d != e,
    ensures
        c.step(d) != c.step(e),
{
}

proof fn lemma_adjacent_symmetric(a: Axial, b: Axial)
    ensures
        adjacent(a, b) <==> adjacent(b, a),
{
}

/// Whether a cell is settled depends on its own label and those of the settled.
proof fn lemma_settles_same(
    g: Ground,
    a: Map<Axial, LocalFrontLabel>,
    b: Map<Axial, LocalFrontLabel>,
    settled: Set<Axial>,
    c: Axial,
)
    requires
        g.settles(a, settled, c),
        a.contains_key(c) <==> b.contains_key(c),
        a[c] == b[c],
        forall|n: Axial, d: Axial|
            settled.contains(n) ==> #[trigger] g.offer(b, n, d) == g.offer(a, n, d),
    ensures
        g.settles(b, settled, c),
{
    if !g.is_boundary(c) && b.contains_key(c) {
        let n = choose|n: Axial| settled.contains(n) && #[trigger] g.offer(a, n, c) == Some(a[c]);
        assert(settled.contains(n) && g.offer(b, n, c) == Some(b[c]));
    }
    assert forall|n: Axial| settled.contains(n) && (#[trigger] g.offer(b, n, c)) is Some implies b.contains_key(
        c,
    ) && b[c].le(g.offer(b, n, c).unwrap()) by {
        assert(g.offer(b, n, c) == g.offer(a, n, c));
    }
}

/// The cells from one labelled cell to its boundary.
fn trail_of(
    labels: &AxialMap<LocalFrontLabel>,
    source: Axial,
    boundary: Axial,
    Ghost(g): Ghost<Ground>,
) -> (cells: Vec<Axial>)
    requires
        g.is_labelling(labels@),
        labels@.contains_key(source),
        labels@[source].boundary == boundary,
    ensures
        is_trail(labels@, cells@),
        cells@[0] == source,
        cells@.last() == boundary,
{
    let mut cells: Vec<Axial> = Vec::new();
    cells.push(source);
    let mut current = source;
    loop
        invariant
            g.is_labelling(labels@),
            cells@.len() > 0,
            cells@[0] == source,
            cells@.last() == current,
            labels@.contains_key(current),
            labels@[current].boundary == boundary,
            forall|k: int| 0 <= k < cells@.len() ==> labels@.contains_key(#[trigger] cells@[k]),
            forall|k: int|
                0 <= k < cells@.len() - 1 ==> labels@[#[trigger] cells@[k]].next == Some(
                    cells@[k + 1],
                ),
        ensures
            labels@[current].next is None,
            current == boundary,
        decreases labels@[current].cost,
    {
        let label: LocalFrontLabel = match labels.get(current) {
            Some(label) => *label,
            None => {
                assert(false);
                break;
            },
        };
        assert(g.settles(labels@, labels@.dom(), current));
        match label.next {
            Some(next) => {
                let ghost before = cells@;
                proof {
                    let n = choose|n: Axial|
                        labels@.dom().contains(n) && #[trigger] g.offer(labels@, n, current)
                            == Some(labels@[current]);
                    assert(n == next);
                }
                cells.push(next);
                proof {
                    assert forall|k: int| 0 <= k < cells@.len() - 1 implies labels@[
                        #[trigger] cells@[k]
                    ].next == Some(cells@[k + 1]) by {
                        assert(cells@[k] == before[k]);
                        if k < before.len() - 1 {
                            assert(cells@[k + 1] == before[k + 1]);
                        }
                    }
                }
                current = next;
            },
            None => {
                break;
            },
        }
    }
    cells
}

/// The contacts of a cell, in ascending order.
fn targets_at(contacts: &ContactSet, c: Axial, Ghost(g): Ghost<Ground>) -> (targets: Vec<Axial>)
    requires
        c.interior(),
        forall|e: DirectedFrontEdge| #[trigger] contacts@.contains(e) <==> g.contact(e),
    ensures
        targets@ == ordered(g.targets_of(c)),
        g.is_boundary(c) ==> targets@.len() > 0,
{
    let around = c.neighbors();
    let turns: [usize; 6] = [3, 4, 2, 5, 1, 0];
    let mut targets: Vec<Axial> = Vec::new();
    let mut k: usize = 0;
    while k < 6
        invariant
            k <= 6,
            c.interior(),
            around@ == Seq::new(6, |d: int| c.step(d)),
            turns@ == seq![3usize, 4, 2, 5, 1, 0],
            forall|e: DirectedFrontEdge| #[trigger] contacts@.contains(e) <==> g.contact(e),
            ascending(targets@),
            forall|t: Axial| #[trigger]
                targets@.contains(t) <==> g.targets_of(c).contains(t) && exists|j: int|
                    0 <= j < k && t == c.step(#[trigger] turns@[j] as int),
        decreases 6 - k,
    {
        let t = around[turns[k]];
        let ghost before = targets@;
        proof {
            assert(t == c.step(turns@[k as int] as int));
            if before.len() > 0 {
                assert(before.contains(before.last()));
            }
        }
        if contacts.contains(DirectedFrontEdge { source: c, target: t }) {
            targets.push(t);
        }
        proof {
            assert forall|x: Axial| #[trigger]
                targets@.contains(x) <==> g.targets_of(c).contains(x) && exists|j: int|
                    0 <= j < k + 1 && x == c.step(#[trigger] turns@[j] as int) by {
                assert(before.contains(x) <==> g.targets_of(c).contains(x) && exists|j: int|
                    0 <= j < k && x == c.step(#[trigger] turns@[j] as int));
                if before.contains(x) {
                    let i = choose|i: int| 0 <= i < before.len() && before[i] == x;
                    assert(targets@[i] == x);
                }
                if targets@.len() > before.len() {
                    assert(targets@[before.len() as int] == t);
                }
            }
            assert forall|i: int, j: int| 0 <= i < j < targets@.len() implies axial_lt(
                #[trigger] targets@[i],
                #[trigger] targets@[j],
            ) by {
                if j == before.len() {
                    assert(before.contains(before[i]));
                    let m = choose|m: int|
                        0 <= m < k && before[i] == c.step(#[trigger] turns@[m] as int);
                    assert(axial_lt(
                        c.step(turns@[m] as int),
                        c.step(turns@[k as int] as int),
                    ));
                }
            }
        }
        k += 1;
    }
    proof {
        assert forall|t: Axial| targets@.to_set().contains(t) <==> g.targets_of(c).contains(t) by {
            if g.targets_of(c).contains(t) {
                law_adjacent_iff_neighbor(c, t);
                let d = choose|d: int| 0 <= d < 6 && #[trigger] c.step(d) == t;
                let j: int = if d == 0 {
                    5
                } else if d == 1 {
                    4
                } else if d == 2 {
                    2
                } else if d == 3 {
                    0
                } else if d == 4 {
                    1
                } else {
                    3
                };
                assert(turns@[j] == d);
            }
        }
        assert(targets@.to_set() =~= g.targets_of(c));
        lemma_ordered_is(targets@, g.targets_of(c));
        if g.is_boundary(c) {
            let t = choose|t: Axial| #[trigger]
                g.contact(DirectedFrontEdge { source: c, target: t });
            assert(targets@.to_set().contains(t));
        }
    }
    targets
}

/// The first cells of a list that feed a boundary cell.
spec fn feeders(
    labels: Map<Axial, LocalFrontLabel>,
    keys: Seq<Axial>,
    i: int,
    boundary: Axial,
) -> Set<Axial> {
    keys.take(i).filter(|c: Axial| labels[c].boundary == boundary).to_set()
}

proof fn lemma_feeders(
    labels: Map<Axial, LocalFrontLabel>,
    keys: Seq<Axial>,
    i: int,
    boundary: Axial,
)
    requires
        ascending(keys),
        keys.to_set() == labels.dom(),
        0 <= i < keys.len(),
    ensures
        feeders(labels, keys, i, boundary).finite(),
        labels[keys[i]].boundary == boundary ==> feeders(labels, keys, i, boundary) == earlier(
            labels,
            keys[i],
        ),
        feeders(labels, keys, i + 1, boundary).len() == feeders(labels, keys, i, boundary).len() + (
        if labels[keys[i]].boundary == boundary {
            1nat
        } else {
            0nat
        }),
        feeders(labels, keys, i, boundary).len() <= i,
{
    let p = |c: Axial| labels[c].boundary == boundary;
    let s = keys.take(i);
    let t = s.filter(p);
    reveal(Seq::filter);
    assert(keys.take(i + 1).drop_last() =~= s);
    vstd::seq_lib::seq_to_set_is_finite(t);
    let c = keys[i];
    assert forall|x: Axial| t.contains(x) <==> s.contains(x) && p(x) by {
        if s.contains(x) && p(x) {
            let j = choose|j: int| 0 <= j < s.len() && s[j] == x;
            s.lemma_filter_contains(p, j);
        }
        if t.contains(x) {
            let j = choose|j: int| 0 <= j < t.len() && t[j] == x;
            s.lemma_filter_pred(p, j);
            s.lemma_filter_contains_rev(p, x);
        }
    }
    assert(!s.contains(c)) by {
        if s.contains(c) {
            let j = choose|j: int| 0 <= j < s.len() && s[j] == c;
            assert(axial_lt(keys[j], keys[i]));
        }
    }
    if p(c) {
        crate::axials::lemma_to_set_push(t, c);
        assert(keys.take(i + 1).filter(p) == t.push(c));
        assert forall|x: Axial| t.to_set().contains(x) <==> earlier(labels, c).contains(x) by {
            if t.contains(x) {
                let j = choose|j: int| 0 <= j < s.len() && s[j] == x;
                assert(axial_lt(keys[j], keys[i]));
                assert(keys.to_set().contains(keys[j]));
            }
            if earlier(labels, c).contains(x) {
                assert(keys.to_set().contains(x));
                let j = choose|j: int| 0 <= j < keys.len() && keys[j] == x;
                if j > i {
                    assert(axial_lt(keys[i], keys[j]));
                }
                assert(s[j] == x);
            }
        }
        assert(t.to_set() =~= earlier(labels, c));
    } else {
        assert(keys.take(i + 1).filter(p) == t);
    }
    lemma_ascending_no_duplicates(keys);
    assert forall|a: int, b: int| 0 <= a < b < s.len() implies s[a] != s[b] by {}
    vstd::seq_lib::seq_to_set_is_finite(s);
    s.unique_seq_to_set();
    vstd::set_lib::lemma_len_subset(t.to_set(), s.to_set());
}

/// Assigns every reachable selected source to exactly one local contact edge.
///
/// Valid front edges start at a selected coordinate, end at an unselected
/// adjacent coordinate, and use one of the six axial directions. Malformed and
/// duplicate edges are ignored. A reverse search by cost grows inward from the
/// remaining boundary edges. The callback is evaluated in the eventual forward
/// direction (`neighbor -> current`), which preserves asymmetric uphill/downhill
/// costs. `None` and zero-cost steps are treated as non-traversable.
///
/// Ties are resolved by `(cost, boundary, next cell)`. Sources are assigned to
/// their nearest boundary coordinate first; the sorted sources feeding each
/// boundary are then distributed round-robin over that boundary's sorted
/// eligible edges. This activates corner arcs fairly without assigning any
/// source twice, while distinct boundary coordinates may still enter the same
/// outside target from different local normals. Disconnected cells with no
/// reachable front are omitted.
pub fn selected_local_front_routes<F>(
    selected_coordinates: &[Axial],
    eligible_edges: &[DirectedFrontEdge],
    traversal_cost: F,
) -> (routes: AxialMap<LocalFrontRoute>) where F: Fn(Axial, Axial) -> Option<u64>
    requires
        is_toll(traversal_cost),
        forall|i: int|
            0 <= i < selected_coordinates@.len() ==> (#[trigger] selected_coordinates@[i]).interior(),
    ensures
        (Ground {
            selected: selected_coordinates@.to_set(),
            edges: eligible_edges@.to_set(),
            toll: tolls(traversal_cost),
        }).are_routes(routes@),
{
    let ghost g = Ground {
        selected: selected_coordinates@.to_set(),
        edges: eligible_edges@.to_set(),
        toll: tolls(traversal_cost),
    };
    let selected = AxialSet::from_slice(selected_coordinates);
    let contacts = contacts_of(&selected, eligible_edges, Ghost(g));
    proof {
        assert forall|c: Axial| #[trigger] selected@.contains(c) implies c.interior() by {
            assert(selected_coordinates@.contains(c));
            let i = choose|i: int|
                0 <= i < selected_coordinates@.len() && selected_coordinates@[i] == c;
            assert(selected_coordinates@[i].interior());
        }
    }
    let labels = label_cells(&selected, &contacts, &traversal_cost, Ghost(g));
    let keys = labels.keys();
    let mut turns: AxialMap<usize> = AxialMap::new();
    let mut routes: AxialMap<LocalFrontRoute> = AxialMap::new();
    let mut i: usize = 0;
    assert(keys@.take(0).to_set() =~= Set::empty());
    proof {
        reveal(Seq::filter);
    }
    assert forall|b: Axial| (#[trigger] feeders(labels@, keys@, 0, b)).len() == 0 by {
        reveal(Seq::filter);
        assert(keys@.take(0) =~= Seq::<Axial>::empty());
        assert(feeders(labels@, keys@, 0, b) =~= Set::<Axial>::empty());
    }
    while i < keys.len()
        invariant
            i <= keys.len(),
            g.is_labelling(labels@),
            ascending(keys@),
            keys@.to_set() == labels@.dom(),
            labels@.dom().subset_of(selected@),
            selected@ == g.selected,
            forall|c: Axial| #[trigger] selected@.contains(c) ==> c.interior(),
            forall|e: DirectedFrontEdge| #[trigger] contacts@.contains(e) <==> g.contact(e),
            forall|b: Axial|
                (if turns@.contains_key(b) {
                    turns@[b] as nat
                } else {
                    0nat
                }) == (#[trigger] feeders(labels@, keys@, i as int, b)).len(),
            routes@.dom() == keys@.take(i as int).to_set(),
            forall|c: Axial| #[trigger]
                routes@.contains_key(c) ==> g.follows(labels@, c, routes@[c]),
        decreases keys.len() - i,
    {
        let source = keys[i];
        assert(keys@.to_set().contains(source));
        let label: LocalFrontLabel = match labels.get(source) {
            Some(label) => *label,
            None => {
                assert(false);
                return routes;
            },
        };
        let ghost counts = turns@;
        let turn: usize = match turns.get(label.boundary) {
            Some(n) => *n,
            None => 0,
        };
        let mut cells = trail_of(&labels, source, label.boundary, Ghost(g));
        let ghost trail = cells@;
        proof {
            lemma_trail_is_way(g, labels@, trail);
            assert(trail.contains(trail.last()));
            assert(labels@.contains_key(trail[trail.len() - 1]));
            assert(selected@.contains(label.boundary));
            assert(feeders(labels@, keys@, i as int, label.boundary).len() == turn);
            lemma_feeders(labels@, keys@, i as int, label.boundary);
        }
        let targets = targets_at(&contacts, label.boundary, Ghost(g));
        let target = targets[turn % targets.len()];
        let edge = DirectedFrontEdge { source: label.boundary, target };
        cells.push(target);
        assert(cells@.drop_last() =~= trail);
        turns.insert(label.boundary, turn + 1);
        let ghost filed = routes@;
        let route = LocalFrontRoute { edge, cells, interior_cost: label.cost };
        assert(g.follows(labels@, source, route));
        routes.insert(source, route);
        proof {
            assert(keys@.take(i + 1) =~= keys@.take(i as int).push(source));
            crate::axials::lemma_to_set_push(keys@.take(i as int), source);
            assert forall|b: Axial|
                (if turns@.contains_key(b) {
                    turns@[b] as nat
                } else {
                    0nat
                }) == (#[trigger] feeders(labels@, keys@, i + 1, b)).len() by {
                assert((if counts.contains_key(b) {
                    counts[b] as nat
                } else {
                    0nat
                }) == feeders(labels@, keys@, i as int, b).len());
                lemma_feeders(labels@, keys@, i as int, b);
            }
            assert forall|c: Axial| #[trigger] routes@.contains_key(c) implies g.follows(
                labels@,
                c,
                routes@[c],
            ) by {
                if c != source {
                    assert(filed.contains_key(c));
                }
            }
        }
        i += 1;
    }
    assert(keys@.take(i as int) =~= keys@);
    assert(g.is_labelling(labels@) && labels@.dom() == routes@.dom());
    routes
}

} // verus!
