//! Strategic fronts around an owned component.
use vstd::prelude::*;
use std::collections::BTreeMap;
use crate::axials::{coordinate_lt, lemma_to_set_push, AxialMap, AxialSet};
use crate::coord::{adjacent, law_adjacent_iff_neighbor, Axial};
use crate::front::{
    contact_lt, contacts_ascending, law_listing_is_unique, ContactSet, DirectedFrontEdge,
};
use crate::order::{lemma_strictly_sorted_unique, look, put, sorted_keys, take_out};
use crate::ring::{arcs_of, contexts_of, faces, is_arc, is_context, StrategicExterior};

verus! {

/// One strategic perimeter arc of an owned component.
///
/// `opponent == None` marks an all-neutral front. `Some(player)` marks a front
/// that faces that opponent, including any neutral boundary edges that only
/// bridge hostile runs against the same opponent.
#[derive(Clone, Debug, Eq, PartialEq)]
pub struct StrategicFront {
    pub opponent: Option<u32>,
    /// Boundary edges sorted by `(source, target)`.
    pub edges: Vec<DirectedFrontEdge>,
}

#[derive(Clone, Copy, Debug, Eq, PartialEq, Structural)]
pub enum StrategicFrontError {
    EmptyComponent,
}

/// What a classifier says of a contact.
pub open spec fn classes<F: Fn(Axial, Axial) -> StrategicExterior>(classify: F) -> spec_fn(
    Axial,
    Axial,
) -> StrategicExterior {
    |source: Axial, target: Axial|
        choose|x: StrategicExterior| call_ensures(classify, (source, target), x)
}

/// A classifier can be asked of every contact, and answers the same each time.
pub open spec fn is_classifier<F: Fn(Axial, Axial) -> StrategicExterior>(classify: F) -> bool {
    &&& forall|source: Axial, target: Axial| call_requires(classify, (source, target))
    &&& forall|source: Axial, target: Axial, x: StrategicExterior|
        call_ensures(classify, (source, target), x) ==> x == classes(classify)(source, target)
}

/// A component and the classes of its surroundings.
pub struct Perimeter {
    pub component: Set<Axial>,
    pub exterior: spec_fn(Axial, Axial) -> StrategicExterior,
}

/// The contact edge at one side of a cell.
pub open spec fn contact_at(h: (Axial, int)) -> DirectedFrontEdge {
    DirectedFrontEdge { source: h.0, target: h.0.step(h.1) }
}

impl Perimeter {
    /// Whether a side of a cell of the component faces outward.
    pub open spec fn exposed(self, h: (Axial, int)) -> bool {
        &&& self.component.contains(h.0)
        &&& 0 <= h.1 < 6
        &&& !self.component.contains(h.0.step(h.1))
    }

    /// The next outward side around the component: the next side of the cell, or
    /// the side of the next cell that meets the same outside cell.
    pub open spec fn turn(self, h: (Axial, int)) -> (Axial, int) {
        let next = h.0.step((h.1 + 1) % 6);
        if self.component.contains(next) {
            (next, (h.1 + 5) % 6)
        } else {
            (h.0, (h.1 + 1) % 6)
        }
    }

    /// A round of the component's outward sides, from its least contact edge on.
    /// Holes have rounds of their own.
    pub open spec fn is_cycle(self, c: Seq<(Axial, int)>) -> bool {
        &&& c.len() > 0
        &&& forall|k: int| 0 <= k < c.len() ==> self.exposed(#[trigger] c[k])
        &&& forall|k: int| 0 <= k < c.len() - 1 ==> #[trigger] self.turn(c[k]) == c[k + 1]
        &&& self.turn(c.last()) == c[0]
        &&& c.no_duplicates()
        &&& forall|k: int|
            0 < k < c.len() ==> contact_lt(contact_at(c[0]), contact_at(#[trigger] c[k]))
    }

    /// The class of what lies at one side of a cell.
    pub open spec fn mark(self, h: (Axial, int)) -> StrategicExterior {
        (self.exterior)(h.0, h.0.step(h.1))
    }

    /// The ring of classes along a round.
    pub open spec fn marks(self, c: Seq<(Axial, int)>) -> Seq<StrategicExterior> {
        Seq::new(c.len(), |k: int| self.mark(c[k]))
    }

    /// The contact edges of a stretch of a round.
    pub open spec fn arc_edges(self, c: Seq<(Axial, int)>, a: int, l: int) -> Set<
        DirectedFrontEdge,
    > {
        Set::new(
            |e: DirectedFrontEdge|
                exists|j: int| 0 <= j < l && #[trigger] stretch(c, a, j) == e,
        )
    }

    /// The unclaimed contact edges of a round between two opponents.
    pub open spec fn neutral_edges(self, c: Seq<(Axial, int)>, p: u32, q: u32) -> Set<
        DirectedFrontEdge,
    > {
        Set::new(
            |e: DirectedFrontEdge|
                exists|i: int|
                    0 <= i < c.len() && is_context(self.marks(c), i, Some((p, q))) && contact_at(
                        #[trigger] c[i],
                    ) == e,
        )
    }

    /// Whether some edges form a stretch of a round that faces an opponent.
    pub open spec fn is_hostile_front(
        self,
        c: Seq<(Axial, int)>,
        p: u32,
        edges: Set<DirectedFrontEdge>,
    ) -> bool {
        exists|a: int, l: int| #[trigger]
            is_arc(self.marks(c), p, a, l) && edges == self.arc_edges(c, a, l)
    }

    /// Whether some edges are all that is unclaimed between two opponents along
    /// a round.
    pub open spec fn is_neutral_front(
        self,
        c: Seq<(Axial, int)>,
        edges: Set<DirectedFrontEdge>,
    ) -> bool {
        &&& edges != Set::<DirectedFrontEdge>::empty()
        &&& exists|p: u32, q: u32| edges == #[trigger] self.neutral_edges(c, p, q)
    }

    /// Whether some edges form a front along a round.
    pub open spec fn is_front_of(
        self,
        c: Seq<(Axial, int)>,
        opponent: Option<u32>,
        edges: Set<DirectedFrontEdge>,
    ) -> bool {
        match opponent {
            Some(p) => self.is_hostile_front(c, p, edges),
            None => self.is_neutral_front(c, edges),
        }
    }

    /// Whether some edges form a front of the component.
    pub open spec fn is_front(self, opponent: Option<u32>, edges: Set<DirectedFrontEdge>) -> bool {
        exists|c: Seq<(Axial, int)>| #[trigger]
            self.is_cycle(c) && self.is_front_of(c, opponent, edges)
    }
}

/// The contact edge some steps into a stretch.
pub open spec fn stretch(c: Seq<(Axial, int)>, a: int, j: int) -> DirectedFrontEdge {
    contact_at(c[(a + j) % (c.len() as int)])
}

/// The order of edge lists: the first difference decides, and a list comes
/// before its extensions.
pub open spec fn list_lt(s: Seq<DirectedFrontEdge>, t: Seq<DirectedFrontEdge>) -> bool
    decreases s.len(),
{
    if t.len() == 0 {
        false
    } else if s.len() == 0 {
        true
    } else if s[0] == t[0] {
        list_lt(s.drop_first(), t.drop_first())
    } else {
        contact_lt(s[0], t[0])
    }
}

/// The order of fronts: those against opponents first, by opponent, then the
/// neutral ones; ties go by the edges.
pub open spec fn front_lt(
    f: (Option<u32>, Seq<DirectedFrontEdge>),
    g: (Option<u32>, Seq<DirectedFrontEdge>),
) -> bool {
    match (f.0, g.0) {
        (Some(p), Some(q)) => p < q || (p == q && list_lt(f.1, g.1)),
        (Some(_), None) => true,
        (None, Some(_)) => false,
        (None, None) => list_lt(f.1, g.1),
    }
}

impl View for StrategicFront {
    type V = (Option<u32>, Seq<DirectedFrontEdge>);

    open spec fn view(&self) -> (Option<u32>, Seq<DirectedFrontEdge>) {
        (self.opponent, self.edges@)
    }
}

/// Strictly ascending fronts.
pub open spec fn fronts_ascending(s: Seq<StrategicFront>) -> bool {
    forall|i: int, j: int| 0 <= i < j < s.len() ==> front_lt((#[trigger] s[i])@, (#[trigger] s[j])@)
}

/// Whether a list holds a front.
pub open spec fn holds(s: Seq<StrategicFront>, v: (Option<u32>, Seq<DirectedFrontEdge>)) -> bool {
    exists|i: int| 0 <= i < s.len() && (#[trigger] s[i])@ == v
}

impl Perimeter {
    /// The fronts of a component, each once and with ascending edges, in order.
    pub open spec fn is_front_list(self, s: Seq<StrategicFront>) -> bool {
        &&& fronts_ascending(s)
        &&& forall|v: (Option<u32>, Seq<DirectedFrontEdge>)| #[trigger]
            holds(s, v) <==> contacts_ascending(v.1) && self.is_front(v.0, v.1.to_set())
    }
}

/// Whether a list has a front of a kind that holds an edge.
pub open spec fn has_edge(
    s: Seq<StrategicFront>,
    opponent: Option<u32>,
    e: DirectedFrontEdge,
) -> bool {
    exists|i: int|
        0 <= i < s.len() && (#[trigger] s[i]).opponent == opponent && s[i].edges@.contains(e)
}

impl Perimeter {
    /// Whether every contact edge that is not ignored lies on a front of its
    /// kind: an edge that meets an opponent on a front against them, and an
    /// unclaimed one on a neutral front.
    pub open spec fn covers(self, s: Seq<StrategicFront>) -> bool {
        forall|h: (Axial, int)| #[trigger]
            self.exposed(h) ==> match self.mark(h) {
                StrategicExterior::Ignored => true,
                StrategicExterior::Neutral => has_edge(s, None, contact_at(h)),
                StrategicExterior::Opponent(q) => has_edge(s, Some(q), contact_at(h)),
            }
    }
}

proof fn lemma_list_order(s: Seq<DirectedFrontEdge>, t: Seq<DirectedFrontEdge>)
    ensures
        list_lt(s, t) ==> !list_lt(t, s) && s != t,
        !list_lt(s, t) && !list_lt(t, s) ==> s == t,
    decreases s.len(),
{
    if s.len() > 0 && t.len() > 0 && s[0] == t[0] {
        lemma_list_order(s.drop_first(), t.drop_first());
        if s.drop_first() == t.drop_first() {
            assert(s =~= seq![s[0]].add(s.drop_first()));
            assert(t =~= seq![t[0]].add(t.drop_first()));
        }
    }
    if s.len() == 0 && t.len() == 0 {
        assert(s =~= t);
    }
}

proof fn lemma_list_transitive(
    s: Seq<DirectedFrontEdge>,
    t: Seq<DirectedFrontEdge>,
    u: Seq<DirectedFrontEdge>,
)
    requires
        list_lt(s, t),
        list_lt(t, u),
    ensures
        list_lt(s, u),
    decreases s.len(),
{
    if s.len() > 0 && s[0] == t[0] && t[0] == u[0] {
        lemma_list_transitive(s.drop_first(), t.drop_first(), u.drop_first());
    }
}

proof fn lemma_front_order(
    f: (Option<u32>, Seq<DirectedFrontEdge>),
    g: (Option<u32>, Seq<DirectedFrontEdge>),
)
    ensures
        front_lt(f, g) ==> !front_lt(g, f) && f != g,
        !front_lt(f, g) && !front_lt(g, f) ==> f == g,
{
    lemma_list_order(f.1, g.1);
    lemma_list_order(g.1, f.1);
}

proof fn lemma_front_transitive(
    f: (Option<u32>, Seq<DirectedFrontEdge>),
    g: (Option<u32>, Seq<DirectedFrontEdge>),
    h: (Option<u32>, Seq<DirectedFrontEdge>),
)
    requires
        front_lt(f, g),
        front_lt(g, h),
    ensures
        front_lt(f, h),
{
    if list_lt(f.1, g.1) && list_lt(g.1, h.1) {
        lemma_list_transitive(f.1, g.1, h.1);
    }
}

/// There is only one list of the fronts of a component: it depends on the set of
/// its cells alone, not on the order in which they are handed in.
pub proof fn law_front_list_is_unique(
    p: Perimeter,
    s: Seq<StrategicFront>,
    t: Seq<StrategicFront>,
)
    requires
        p.is_front_list(s),
        p.is_front_list(t),
    ensures
        s.len() == t.len(),
        forall|i: int| 0 <= i < s.len() ==> (#[trigger] s[i])@ == t[i]@,
{
    let a = s.map_values(|f: StrategicFront| f@);
    let b = t.map_values(|f: StrategicFront| f@);
    let lt = |f: (Option<u32>, Seq<DirectedFrontEdge>), g: (Option<u32>, Seq<DirectedFrontEdge>)|
        front_lt(f, g);
    assert forall|v: (Option<u32>, Seq<DirectedFrontEdge>)| a.to_set().contains(v)
        <==> b.to_set().contains(v) by {
        assert(holds(s, v) <==> holds(t, v));
        if a.contains(v) {
            let i = choose|i: int| 0 <= i < a.len() && a[i] == v;
            assert(s[i]@ == v);
            assert(holds(s, v));
            let j = choose|j: int| 0 <= j < t.len() && (#[trigger] t[j])@ == v;
            assert(b[j] == v);
        }
        if b.contains(v) {
            let i = choose|i: int| 0 <= i < b.len() && b[i] == v;
            assert(t[i]@ == v);
            assert(holds(t, v));
            let j = choose|j: int| 0 <= j < s.len() && (#[trigger] s[j])@ == v;
            assert(a[j] == v);
        }
    }
    assert(a.to_set() =~= b.to_set());
    assert forall|f: (Option<u32>, Seq<DirectedFrontEdge>), g: (Option<u32>, Seq<DirectedFrontEdge>)|
        #[trigger] lt(f, g) implies !lt(g, f) by {
        lemma_front_order(f, g);
    }
    assert forall|i: int, j: int| 0 <= i < j < a.len() implies lt(
        #[trigger] a[i],
        #[trigger] a[j],
    ) by {
        assert(front_lt(s[i]@, s[j]@));
    }
    assert forall|i: int, j: int| 0 <= i < j < b.len() implies lt(
        #[trigger] b[i],
        #[trigger] b[j],
    ) by {
        assert(front_lt(t[i]@, t[j]@));
    }
    lemma_strictly_sorted_unique(a, b, lt);
    assert forall|i: int| 0 <= i < s.len() implies (#[trigger] s[i])@ == t[i]@ by {
        assert(a[i] == b[i]);
    }
}

/// A front against an opponent has no contact with another opponent, a neutral
/// front has none with any, and no front holds an ignored edge.
pub proof fn law_fronts_face_one_opponent(
    p: Perimeter,
    opponent: Option<u32>,
    edges: Set<DirectedFrontEdge>,
    e: DirectedFrontEdge,
)
    requires
        p.is_front(opponent, edges),
        edges.contains(e),
    ensures
        p.component.contains(e.source),
        !p.component.contains(e.target),
        match (p.exterior)(e.source, e.target) {
            StrategicExterior::Ignored => false,
            StrategicExterior::Neutral => true,
            StrategicExterior::Opponent(q) => opponent == Some(q),
        },
{
    let c = choose|c: Seq<(Axial, int)>| #[trigger]
        p.is_cycle(c) && p.is_front_of(c, opponent, edges);
    let m = p.marks(c);
    let n = c.len() as int;
    match opponent {
        Some(q) => {
            let (a, l) = choose|a: int, l: int| #[trigger]
                is_arc(m, q, a, l) && edges == p.arc_edges(c, a, l);
            let j = choose|j: int| 0 <= j < l && #[trigger] stretch(c, a, j) == e;
            let k = (a + j) % n;
            vstd::arithmetic::div_mod::lemma_mod_bound(a + j, n);
            assert(faces(m, (a + j) % n, q));
            crate::ring::lemma_at_period(m, k);
            assert(p.exposed(c[k]));
        },
        None => {
            let (x, y) = choose|x: u32, y: u32| edges == #[trigger] p.neutral_edges(c, x, y);
            let i = choose|i: int|
                0 <= i < c.len() && is_context(m, i, Some((x, y))) && contact_at(#[trigger] c[i])
                    == e;
            crate::ring::lemma_at_period(m, i);
            assert(p.exposed(c[i]));
        },
    }
}

fn edge_before(e: DirectedFrontEdge, f: DirectedFrontEdge) -> (before: bool)
    ensures
        before == contact_lt(e, f),
{
    coordinate_lt(e.source, f.source) || (e.source == f.source && coordinate_lt(e.target, f.target))
}

fn list_before(s: &Vec<DirectedFrontEdge>, t: &Vec<DirectedFrontEdge>) -> (before: bool)
    ensures
        before == list_lt(s@, t@),
{
    let mut i: usize = 0;
    assert(s@.skip(0) =~= s@);
    assert(t@.skip(0) =~= t@);
    while i < s.len() && i < t.len() && s[i] == t[i]
        invariant
            i <= s@.len(),
            i <= t@.len(),
            list_lt(s@, t@) == list_lt(s@.skip(i as int), t@.skip(i as int)),
        decreases s.len() - i,
    {
        assert(s@.skip(i as int).drop_first() =~= s@.skip(i + 1));
        assert(t@.skip(i as int).drop_first() =~= t@.skip(i + 1));
        i += 1;
    }
    if i == t.len() {
        return false;
    }
    if i == s.len() {
        return true;
    }
    edge_before(s[i], t[i])
}

fn front_before(f: &StrategicFront, g: &StrategicFront) -> (before: bool)
    ensures
        before == front_lt(f@, g@),
{
    match (f.opponent, g.opponent) {
        (Some(p), Some(q)) => p < q || (p == q && list_before(&f.edges, &g.edges)),
        (Some(_), None) => true,
        (None, Some(_)) => false,
        (None, None) => list_before(&f.edges, &g.edges),
    }
}

/// Files a front in its place, unless it is filed already.
fn file_front(fronts: &mut Vec<StrategicFront>, front: StrategicFront)
    requires
        fronts_ascending(old(fronts)@),
    ensures
        fronts_ascending(final(fronts)@),
        forall|v: (Option<u32>, Seq<DirectedFrontEdge>)| #[trigger]
            holds(final(fronts)@, v) <==> holds(old(fronts)@, v) || v == front@,
{
    let ghost s = fronts@;
    let mut i: usize = 0;
    while i < fronts.len() && front_before(&fronts[i], &front)
        invariant
            fronts@ == s,
            i <= s.len(),
            forall|k: int| 0 <= k < i ==> front_lt((#[trigger] s[k])@, front@),
        decreases s.len() - i,
    {
        i += 1;
    }
    if i < fronts.len() && !front_before(&front, &fronts[i]) {
        proof {
            lemma_front_order(front@, s[i as int]@);
            assert(s[i as int]@ == front@);
        }
        return ;
    }
    fronts.insert(i, front);
    proof {
        let t = s.insert(i as int, front);
        assert(fronts@ == t);
        assert forall|j: int, k: int| 0 <= j < k < t.len() implies front_lt(
            (#[trigger] t[j])@,
            (#[trigger] t[k])@,
        ) by {
            if k < i {
                assert(front_lt(s[j]@, s[k]@));
            } else if k == i {
                assert(front_lt(s[j]@, front@));
            } else if j == i {
                if k > i + 1 {
                    assert(front_lt(s[i as int]@, s[k - 1]@));
                    lemma_front_transitive(front@, s[i as int]@, s[k - 1]@);
                }
            } else if j > i {
                assert(front_lt(s[j - 1]@, s[k - 1]@));
            } else {
                assert(front_lt(s[j]@, s[k - 1]@));
            }
        }
        assert forall|v: (Option<u32>, Seq<DirectedFrontEdge>)| #[trigger]
            holds(t, v) <==> holds(s, v) || v == front@ by {
            if holds(t, v) {
                let k = choose|k: int| 0 <= k < t.len() && (#[trigger] t[k])@ == v;
                if k < i {
                    assert(s[k]@ == v);
                } else if k > i {
                    assert(s[k - 1]@ == v);
                }
            }
            if holds(s, v) {
                let k = choose|k: int| 0 <= k < s.len() && (#[trigger] s[k])@ == v;
                if k < i {
                    assert(t[k]@ == v);
                } else {
                    assert(t[k + 1]@ == v);
                }
            }
            assert(t[i as int]@ == front@);
        }
    }
}

/// The sides of a round, numbered without bound.
spec fn sides(cycle: Seq<(Axial, usize)>) -> Seq<(Axial, int)> {
    cycle.map_values(|h: (Axial, usize)| (h.0, h.1 as int))
}

/// The contact edge at one side of a cell.
fn contact(h: (Axial, usize)) -> (e: DirectedFrontEdge)
    requires
        h.0.interior(),
        h.1 < 6,
    ensures
        e == contact_at((h.0, h.1 as int)),
{
    let around = h.0.neighbors();
    DirectedFrontEdge { source: h.0, target: around[h.1] }
}

/// The next outward side around the component.
fn next_outline_half_edge(cell: Axial, dir: usize, component: &AxialSet, Ghost(p): Ghost<Perimeter>) -> (next:
    (Axial, usize))
    requires
        p.component == component@,
        p.exposed((cell, dir as int)),
        cell.interior(),
    ensures
        (next.0, next.1 as int) == p.turn((cell, dir as int)),
{
    let around = cell.neighbors();
    let turned: usize = (dir + 1) % 6;
    let neighbor = around[turned];
    if component.contains(neighbor) {
        (neighbor, (dir + 5) % 6)
    } else {
        (cell, turned)
    }
}

/// A turn leads from an outward side to an outward side, and no two sides have
/// the same next side.
proof fn lemma_turn(p: Perimeter, h: (Axial, int), g: (Axial, int))
    requires
        forall|c: Axial| #[trigger] p.component.contains(c) ==> c.interior(),
        p.exposed(h),
        p.exposed(g),
    ensures
        p.exposed(p.turn(h)),
        p.turn(h) == p.turn(g) ==> h == g,
{
    lemma_turn_exposed(p, h);
    if p.turn(h) == p.turn(g) {
        lemma_turn_back(p, h);
        lemma_turn_back(p, g);
    }
}

proof fn lemma_turn_exposed(p: Perimeter, h: (Axial, int))
    requires
        forall|c: Axial| #[trigger] p.component.contains(c) ==> c.interior(),
        p.exposed(h),
    ensures
        p.exposed(p.turn(h)),
{
    let next = h.0.step((h.1 + 1) % 6);
    assert(h.0.interior());
    if p.component.contains(next) {
        assert(next.interior());
        assert(next.step((h.1 + 5) % 6) == h.0.step(h.1));
    }
}

/// The side before a given one can be told from the given one.
proof fn lemma_turn_back(p: Perimeter, h: (Axial, int))
    requires
        forall|c: Axial| #[trigger] p.component.contains(c) ==> c.interior(),
        p.exposed(h),
    ensures
        ({
            let t = p.turn(h);
            let back = t.0.step((t.1 + 5) % 6);
            h == if p.component.contains(back) {
                (back, (t.1 + 1) % 6)
            } else {
                (t.0, (t.1 + 5) % 6)
            }
        }),
{
    let next = h.0.step((h.1 + 1) % 6);
    assert(h.0.interior());
    if p.component.contains(next) {
        assert(next.interior());
        assert(next.step(((h.1 + 5) % 6 + 5) % 6) == h.0);
    }
}

/// Two outward sides with the same contact edge are the same.
proof fn lemma_contact_injective(h: (Axial, int), g: (Axial, int))
    requires
        h.0.interior(),
        0 <= h.1 < 6,
        0 <= g.1 < 6,
        contact_at(h) == contact_at(g),
    ensures
        h == g,
{
}

/// The side of a cell that meets a neighbour.
fn side_of(e: DirectedFrontEdge) -> (dir: usize)
    requires
        e.source.interior(),
        adjacent(e.source, e.target),
    ensures
        dir < 6,
        contact_at((e.source, dir as int)) == e,
{
    let around = e.source.neighbors();
    let mut d: usize = 0;
    proof {
        law_adjacent_iff_neighbor(e.source, e.target);
    }
    while d < 5 && around[d] != e.target
        invariant
            d <= 5,
            around@ == Seq::new(6, |i: int| e.source.step(i)),
            exists|i: int| 0 <= i < 6 && #[trigger] e.source.step(i) == e.target,
            forall|i: int| 0 <= i < d ==> #[trigger] e.source.step(i) != e.target,
        decreases 5 - d,
    {
        assert(around@[d as int] == e.source.step(d as int));
        d += 1;
    }
    proof {
        assert(around@[d as int] == e.source.step(d as int));
        let i = choose|i: int| 0 <= i < 6 && #[trigger] e.source.step(i) == e.target;
        if d == 5 {
            assert(i == 5);
        }
    }
    d
}

/// The outward sides that have not been walked.
#[verifier::opaque]
spec fn is_pending(p: Perimeter, pending: Set<DirectedFrontEdge>) -> bool {
    &&& forall|e: DirectedFrontEdge| #[trigger]
        pending.contains(e) ==> exists|h: (Axial, int)| #[trigger] contact_at(h) == e && p.exposed(h)
    &&& forall|h: (Axial, int)|
        p.exposed(h) && pending.contains(#[trigger] contact_at(h)) ==> pending.contains(
            contact_at(p.turn(h)),
        )
}

proof fn lemma_pending_turn(p: Perimeter, pending: Set<DirectedFrontEdge>, h: (Axial, int))
    requires
        is_pending(p, pending),
        p.exposed(h),
        pending.contains(contact_at(h)),
    ensures
        pending.contains(contact_at(p.turn(h))),
{
    reveal(is_pending);
}

proof fn lemma_pending_side(p: Perimeter, pending: Set<DirectedFrontEdge>, e: DirectedFrontEdge) -> (h:
    (Axial, int))
    requires
        is_pending(p, pending),
        pending.contains(e),
    ensures
        p.exposed(h),
        contact_at(h) == e,
{
    reveal(is_pending);
    choose|h: (Axial, int)| #[trigger] contact_at(h) == e && p.exposed(h)
}

/// What is pending stays closed under turns when a whole round is taken out.
proof fn lemma_pending_after(
    p: Perimeter,
    before: Set<DirectedFrontEdge>,
    after: Set<DirectedFrontEdge>,
    s: Seq<(Axial, int)>,
)
    requires
        forall|c: Axial| #[trigger] p.component.contains(c) ==> c.interior(),
        is_pending(p, before),
        p.is_cycle(s),
        forall|e: DirectedFrontEdge| #[trigger]
            after.contains(e) <==> before.contains(e) && forall|k: int|
                0 <= k < s.len() ==> contact_at(#[trigger] s[k]) != e,
    ensures
        is_pending(p, after),
{
    assert forall|e: DirectedFrontEdge| #[trigger] after.contains(e) implies exists|h: (Axial, int)|
        #[trigger] contact_at(h) == e && p.exposed(h) by {
        let h = lemma_pending_side(p, before, e);
        assert(contact_at(h) == e && p.exposed(h));
    }
    assert forall|h: (Axial, int)|
        p.exposed(h) && after.contains(#[trigger] contact_at(h)) implies after.contains(
        contact_at(p.turn(h)),
    ) by {
        lemma_pending_turn(p, before, h);
        assert forall|k: int| 0 <= k < s.len() implies contact_at(#[trigger] s[k]) != contact_at(
            p.turn(h),
        ) by {
            if contact_at(s[k]) == contact_at(p.turn(h)) {
                lemma_turn(p, h, h);
                assert(p.exposed(s[k]));
                assert(p.component.contains(s[k].0));
                lemma_contact_injective(s[k], p.turn(h));
                let j = if k == 0 {
                    s.len() - 1
                } else {
                    k - 1
                };
                if k > 0 {
                    assert(p.turn(s[k - 1]) == s[k - 1 + 1]);
                }
                assert(p.turn(s[j]) == s[k]);
                assert(p.exposed(s[j]));
                lemma_turn(p, h, s[j]);
                assert(contact_at(s[j]) != contact_at(h));
            }
        }
    }
    reveal(is_pending);
}

/// What is left when some sides are taken out.
spec fn left_after(before: Set<DirectedFrontEdge>, s: Seq<(Axial, int)>) -> Set<DirectedFrontEdge> {
    before.difference(s.map_values(|h: (Axial, int)| contact_at(h)).to_set())
}

proof fn lemma_left_after(before: Set<DirectedFrontEdge>, s: Seq<(Axial, int)>, h: (Axial, int))
    ensures
        left_after(before, s.push(h)) == left_after(before, s).remove(contact_at(h)),
        forall|e: DirectedFrontEdge| #[trigger]
            left_after(before, s).contains(e) <==> before.contains(e) && forall|k: int|
                0 <= k < s.len() ==> contact_at(#[trigger] s[k]) != e,
{
    let f = |h: (Axial, int)| contact_at(h);
    assert(s.push(h).map_values(f) =~= s.map_values(f).push(contact_at(h)));
    lemma_to_set_push(s.map_values(f), contact_at(h));
    assert(left_after(before, s.push(h)) =~= left_after(before, s).remove(contact_at(h)));
    assert forall|e: DirectedFrontEdge| #[trigger]
        left_after(before, s).contains(e) <==> before.contains(e) && forall|k: int|
            0 <= k < s.len() ==> contact_at(#[trigger] s[k]) != e by {
        let t = s.map_values(f);
        if left_after(before, s).contains(e) {
            assert forall|k: int| 0 <= k < s.len() implies contact_at(#[trigger] s[k]) != e by {
                assert(t[k] == contact_at(s[k]));
                assert(t.to_set().contains(t[k]));
            }
        }
        if t.to_set().contains(e) {
            let k = choose|k: int| 0 <= k < t.len() && t[k] == e;
            assert(contact_at(s[k]) == e);
        }
    }
}

/// A walk along outward sides that has come to a side it has not seen.
#[verifier::opaque]
spec fn is_walk(
    p: Perimeter,
    before: Set<DirectedFrontEdge>,
    origin: (Axial, int),
    s: Seq<(Axial, int)>,
    here: (Axial, int),
) -> bool {
    let t = s.push(here);
    &&& forall|c: Axial| #[trigger] p.component.contains(c) ==> c.interior()
    &&& is_pending(p, before)
    &&& t[0] == origin
    &&& forall|k: int|
        0 <= k < t.len() ==> p.exposed(#[trigger] t[k]) && before.contains(contact_at(t[k]))
    &&& forall|k: int| 0 <= k < t.len() - 1 ==> #[trigger] p.turn(t[k]) == t[k + 1]
    &&& t.no_duplicates()
}

proof fn lemma_walk_starts(p: Perimeter, before: Set<DirectedFrontEdge>, origin: (Axial, int))
    requires
        forall|c: Axial| #[trigger] p.component.contains(c) ==> c.interior(),
        is_pending(p, before),
        p.exposed(origin),
        before.contains(contact_at(origin)),
    ensures
        is_walk(p, before, origin, Seq::empty(), origin),
{
    reveal(is_walk);
}

proof fn lemma_walk_step(
    p: Perimeter,
    before: Set<DirectedFrontEdge>,
    origin: (Axial, int),
    s: Seq<(Axial, int)>,
    here: (Axial, int),
)
    requires
        is_walk(p, before, origin, s, here),
    ensures
        p.exposed(here),
        here.0.interior(),
        p.turn(here) != origin ==> is_walk(p, before, origin, s.push(here), p.turn(here)),
{
    reveal(is_walk);
    let t = s.push(here);
    assert(t[t.len() - 1] == here);
    let there = p.turn(here);
    lemma_turn(p, here, here);
    lemma_pending_turn(p, before, here);
    if there != origin {
        let u = t.push(there);
        assert(!t.contains(there)) by {
            if t.contains(there) {
                let k = choose|k: int| 0 <= k < t.len() && t[k] == there;
                assert(k > 0);
                assert(p.turn(t[k - 1]) == t[k - 1 + 1]);
                assert(p.exposed(t[k - 1]));
                lemma_turn(p, t[k - 1], here);
                assert(t[k - 1] == t[t.len() - 1]);
            }
        }
        assert forall|k: int| 0 <= k < u.len() - 1 implies #[trigger] p.turn(u[k]) == u[k + 1] by {
            if k < t.len() - 1 {
                assert(p.turn(t[k]) == t[k + 1]);
            }
        }
        assert forall|k: int| 0 <= k < u.len() implies p.exposed(#[trigger] u[k])
            && before.contains(contact_at(u[k])) by {
            if k < t.len() {
                assert(p.exposed(t[k]) && before.contains(contact_at(t[k])));
            }
        }
        assert forall|i: int, j: int| 0 <= i < u.len() && 0 <= j < u.len() && i != j implies u[i]
            != u[j] by {
            if i == t.len() {
                assert(t.contains(t[j]));
            } else if j == t.len() {
                assert(t.contains(t[i]));
            } else {
                assert(t[i] != t[j]);
            }
        }
    }
}

proof fn lemma_walk_closes(
    p: Perimeter,
    before: Set<DirectedFrontEdge>,
    origin: (Axial, int),
    s: Seq<(Axial, int)>,
    here: (Axial, int),
)
    requires
        is_walk(p, before, origin, s, here),
        p.turn(here) == origin,
        forall|e: DirectedFrontEdge| #[trigger]
            before.contains(e) ==> e == contact_at(origin) || contact_lt(contact_at(origin), e),
    ensures
        p.is_cycle(s.push(here)),
        s.push(here)[0] == origin,
        is_pending(p, left_after(before, s.push(here))),
{
    reveal(is_walk);
    let t = s.push(here);
    assert forall|k: int| 0 < k < t.len() implies contact_lt(
        contact_at(t[0]),
        contact_at(#[trigger] t[k]),
    ) by {
        assert(p.exposed(t[k]) && before.contains(contact_at(t[k])));
        if contact_at(t[k]) == contact_at(origin) {
            assert(p.component.contains(t[k].0));
            assert(p.exposed(t[0]));
            lemma_contact_injective(t[k], t[0]);
        }
    }
    assert(p.is_cycle(t));
    lemma_left_after(before, t, here);
    lemma_pending_after(p, before, left_after(before, t), t);
}

proof fn lemma_walk_is_short(
    p: Perimeter,
    before: Set<DirectedFrontEdge>,
    origin: (Axial, int),
    s: Seq<(Axial, int)>,
    here: (Axial, int),
    all: Seq<DirectedFrontEdge>,
)
    requires
        is_walk(p, before, origin, s, here),
        before.subset_of(all.to_set()),
    ensures
        s.len() < all.len(),
{
    reveal(is_walk);
    lemma_walk_bound(p, s.push(here), before, all);
}

/// Walks the round that starts at the least pending contact edge.
fn walk_cycle(
    component: &AxialSet,
    start: DirectedFrontEdge,
    pending: &mut ContactSet,
    Ghost(p): Ghost<Perimeter>,
    Ghost(all): Ghost<Seq<DirectedFrontEdge>>,
) -> (cycle: Vec<(Axial, usize)>)
    requires
        p.component == component@,
        forall|c: Axial| #[trigger] component@.contains(c) ==> c.interior(),
        is_pending(p, old(pending)@),
        old(pending)@.contains(start),
        forall|e: DirectedFrontEdge| #[trigger]
            old(pending)@.contains(e) ==> e == start || contact_lt(start, e),
        old(pending)@.subset_of(all.to_set()),
    ensures
        p.is_cycle(sides(cycle@)),
        contact_at(sides(cycle@)[0]) == start,
        is_pending(p, final(pending)@),
        final(pending)@ == left_after(old(pending)@, sides(cycle@)),
{
    let ghost before = pending@;
    proof {
        let h = lemma_pending_side(p, before, start);
        assert(component@.contains(h.0));
        law_adjacent_iff_neighbor(start.source, start.target);
        assert(start.source.step(h.1) == start.target);
    }
    let first: (Axial, usize) = (start.source, side_of(start));
    let ghost origin = (first.0, first.1 as int);
    let mut cycle: Vec<(Axial, usize)> = Vec::new();
    let mut current = first;
    proof {
        let h = lemma_pending_side(p, before, start);
        lemma_contact_injective(h, origin);
        lemma_walk_starts(p, before, origin);
        assert(sides(cycle@) =~= Seq::empty());
        assert(left_after(before, Seq::empty()) =~= before);
    }
    loop
        invariant_except_break
            is_walk(p, before, origin, sides(cycle@), (current.0, current.1 as int)),
        invariant
            p.component == component@,
            before.subset_of(all.to_set()),
            origin == (first.0, first.1 as int),
            contact_at(origin) == start,
            forall|e: DirectedFrontEdge| #[trigger]
                before.contains(e) ==> e == start || contact_lt(start, e),
            pending@ == left_after(before, sides(cycle@)),
        ensures
            p.is_cycle(sides(cycle@)),
            contact_at(sides(cycle@)[0]) == start,
            is_pending(p, pending@),
            pending@ == left_after(before, sides(cycle@)),
        decreases all.len() - cycle@.len(),
    {
        let ghost walked = sides(cycle@);
        let ghost here = (current.0, current.1 as int);
        proof {
            lemma_walk_step(p, before, origin, walked, here);
            lemma_walk_is_short(p, before, origin, walked, here, all);
            lemma_left_after(before, walked, here);
        }
        pending.remove(contact(current));
        cycle.push(current);
        assert(sides(cycle@) =~= walked.push(here));
        let next = next_outline_half_edge(current.0, current.1, component, Ghost(p));
        if next.0 == first.0 && next.1 == first.1 {
            proof {
                lemma_walk_closes(p, before, origin, walked, here);
            }
            break;
        }
        current = next;
    }
    cycle
}

/// Distinct outward sides are no more than the contact edges.
proof fn lemma_walk_bound(
    p: Perimeter,
    s: Seq<(Axial, int)>,
    before: Set<DirectedFrontEdge>,
    all: Seq<DirectedFrontEdge>,
)
    requires
        s.no_duplicates(),
        forall|c: Axial| #[trigger] p.component.contains(c) ==> c.interior(),
        forall|k: int|
            0 <= k < s.len() ==> p.exposed(#[trigger] s[k]) && before.contains(contact_at(s[k])),
        before.subset_of(all.to_set()),
    ensures
        s.len() <= all.len(),
{
    let t = s.map_values(|h: (Axial, int)| contact_at(h));
    assert forall|i: int, j: int| 0 <= i < t.len() && 0 <= j < t.len() && i != j implies t[i]
        != t[j] by {
        assert(p.exposed(s[i]) && p.exposed(s[j]));
        assert(p.component.contains(s[i].0));
        if t[i] == t[j] {
            lemma_contact_injective(s[i], s[j]);
        }
    }
    t.unique_seq_to_set();
    vstd::seq_lib::seq_to_set_is_finite(all);
    assert(t.to_set().subset_of(all.to_set())) by {
        assert forall|e: DirectedFrontEdge| t.to_set().contains(e) implies all.to_set().contains(
            e,
        ) by {
            let k = choose|k: int| 0 <= k < t.len() && t[k] == e;
            assert(before.contains(contact_at(s[k])));
        }
    }
    vstd::set_lib::lemma_len_subset(t.to_set(), all.to_set());
    all.lemma_cardinality_of_set();
}

/// The outward contact edges of a component.
fn contacts_of(component: &AxialSet, Ghost(p): Ghost<Perimeter>) -> (found: ContactSet)
    requires
        p.component == component@,
        forall|c: Axial| #[trigger] component@.contains(c) ==> c.interior(),
    ensures
        forall|e: DirectedFrontEdge| #[trigger]
            found@.contains(e) <==> component@.contains(e.source) && !component@.contains(e.target)
                && adjacent(e.source, e.target),
{
    let listed = component.to_vec();
    let mut found = ContactSet::new();
    let mut i: usize = 0;
    while i < listed.len()
        invariant
            i <= listed.len(),
            listed@.to_set() == component@,
            forall|c: Axial| #[trigger] component@.contains(c) ==> c.interior(),
            forall|e: DirectedFrontEdge| #[trigger]
                found@.contains(e) <==> component@.contains(e.source) && !component@.contains(
                    e.target,
                ) && adjacent(e.source, e.target) && exists|j: int|
                    0 <= j < i && #[trigger] listed@[j] == e.source,
        decreases listed.len() - i,
    {
        let source = listed[i];
        assert(listed@.to_set().contains(source));
        let around = source.neighbors();
        let ghost before = found@;
        let mut k: usize = 0;
        while k < 6
            invariant
                k <= 6,
                around@ == Seq::new(6, |d: int| source.step(d)),
                component@.contains(source),
                source.interior(),
                forall|e: DirectedFrontEdge| #[trigger]
                    found@.contains(e) <==> before.contains(e) || (!component@.contains(e.target)
                        && e.source == source && exists|d: int|
                        0 <= d < k && #[trigger] source.step(d) == e.target),
            decreases 6 - k,
        {
            let target = around[k];
            let ghost mid = found@;
            if !component.contains(target) {
                found.insert(DirectedFrontEdge { source, target });
            }
            proof {
                assert(target == source.step(k as int));
                assert forall|e: DirectedFrontEdge| #[trigger]
                    found@.contains(e) <==> before.contains(e) || (!component@.contains(e.target)
                        && e.source == source && exists|d: int|
                        0 <= d < k + 1 && #[trigger] source.step(d) == e.target) by {
                    assert(mid.contains(e) <==> before.contains(e) || (!component@.contains(
                        e.target,
                    ) && e.source == source && exists|d: int|
                        0 <= d < k && #[trigger] source.step(d) == e.target));
                }
            }
            k += 1;
        }
        proof {
            assert forall|e: DirectedFrontEdge| #[trigger]
                found@.contains(e) <==> component@.contains(e.source) && !component@.contains(
                    e.target,
                ) && adjacent(e.source, e.target) && exists|j: int|
                    0 <= j < i + 1 && #[trigger] listed@[j] == e.source by {
                assert(before.contains(e) <==> component@.contains(e.source)
                    && !component@.contains(e.target) && adjacent(e.source, e.target) && exists|j: int|
                    0 <= j < i && #[trigger] listed@[j] == e.source);
                assert(listed@[i as int] == source);
                law_adjacent_iff_neighbor(source, e.target);
            }
        }
        i += 1;
    }
    proof {
        assert forall|e: DirectedFrontEdge| #[trigger] found@.contains(e) <==> component@.contains(
            e.source,
        ) && !component@.contains(e.target) && adjacent(e.source, e.target) by {
            if component@.contains(e.source) {
                assert(listed@.to_set().contains(e.source));
                let j = choose|j: int| 0 <= j < listed@.len() && listed@[j] == e.source;
                assert(listed@[j] == e.source);
            }
        }
    }
    found
}

/// The classes along a round.
fn marks_of<F>(cycle: &Vec<(Axial, usize)>, exterior_owner: &F, Ghost(p): Ghost<Perimeter>) -> (marks:
    Vec<StrategicExterior>) where F: Fn(Axial, Axial) -> StrategicExterior
    requires
        is_classifier(*exterior_owner),
        p.exterior == classes(*exterior_owner),
        forall|c: Axial| #[trigger] p.component.contains(c) ==> c.interior(),
        p.is_cycle(sides(cycle@)),
    ensures
        marks@ == p.marks(sides(cycle@)),
{
    let mut marks: Vec<StrategicExterior> = Vec::new();
    let mut i: usize = 0;
    while i < cycle.len()
        invariant
            i <= cycle.len(),
            marks@.len() == i,
            is_classifier(*exterior_owner),
            p.exterior == classes(*exterior_owner),
            forall|c: Axial| #[trigger] p.component.contains(c) ==> c.interior(),
            p.is_cycle(sides(cycle@)),
            forall|k: int| 0 <= k < i ==> #[trigger] marks@[k] == p.mark(sides(cycle@)[k]),
        decreases cycle.len() - i,
    {
        let h = cycle[i];
        assert(sides(cycle@)[i as int] == (h.0, h.1 as int));
        assert(p.exposed(sides(cycle@)[i as int]));
        assert(p.component.contains(h.0));
        let e = contact(h);
        marks.push(exterior_owner(e.source, e.target));
        i += 1;
    }
    assert(marks@ =~= p.marks(sides(cycle@)));
    marks
}

/// The contact edges of a stretch of a round, in ascending order.
fn arc_of(cycle: &Vec<(Axial, usize)>, a: usize, l: usize, Ghost(p): Ghost<Perimeter>) -> (edges: Vec<
    DirectedFrontEdge,
>)
    requires
        forall|c: Axial| #[trigger] p.component.contains(c) ==> c.interior(),
        p.is_cycle(sides(cycle@)),
        a < cycle@.len(),
        l <= cycle@.len(),
    ensures
        contacts_ascending(edges@),
        edges@.to_set() == p.arc_edges(sides(cycle@), a as int, l as int),
{
    let n: usize = cycle.len();
    let ghost c = sides(cycle@);
    let mut found = ContactSet::new();
    let mut j: usize = 0;
    assert(p.arc_edges(c, a as int, 0) =~= Set::empty());
    while j < l
        invariant
            j <= l,
            l <= n,
            a < n,
            n == cycle@.len(),
            c == sides(cycle@),
            forall|c: Axial| #[trigger] p.component.contains(c) ==> c.interior(),
            p.is_cycle(c),
            found@ == p.arc_edges(c, a as int, j as int),
        decreases l - j,
    {
        let k: usize = crate::ring::place(a, j, n);
        let h = cycle[k];
        assert(c[k as int] == (h.0, h.1 as int));
        assert(p.exposed(c[k as int]));
        assert(p.component.contains(h.0));
        let e = contact(h);
        proof {
            assert(e == stretch(c, a as int, j as int));
            assert forall|f: DirectedFrontEdge| p.arc_edges(c, a as int, j + 1).contains(f)
                <==> found@.insert(e).contains(f) by {
                if p.arc_edges(c, a as int, j + 1).contains(f) {
                    let i = choose|i: int|
                        0 <= i < j + 1 && #[trigger] stretch(c, a as int, i) == f;
                    if i < j {
                        assert(p.arc_edges(c, a as int, j as int).contains(f));
                    }
                }
            }
            assert(p.arc_edges(c, a as int, j + 1) =~= found@.insert(e));
        }
        found.insert(e);
        j += 1;
    }
    found.to_vec()
}

/// A number for each pair of opponents.
spec fn pair_id(context: (u32, u32)) -> int {
    context.0 * 0x1_0000_0000 + context.1
}

/// The number of a context.
spec fn id_of(context: Option<(u32, u32)>) -> Option<u64> {
    match context {
        Some(pair) => Some(pair_id(pair) as u64),
        None => None,
    }
}

proof fn lemma_id_injective(a: Option<(u32, u32)>, b: Option<(u32, u32)>)
    ensures
        id_of(a) == id_of(b) ==> a == b,
{
}

/// The contact edges among the first sides of a round that have a number.
spec fn members(c: Seq<(Axial, int)>, ids: Seq<Option<u64>>, i: int, id: u64) -> Set<
    DirectedFrontEdge,
> {
    Set::new(
        |e: DirectedFrontEdge|
            exists|k: int| 0 <= k < i && #[trigger] ids[k] == Some(id) && contact_at(c[k]) == e,
    )
}

proof fn lemma_members(c: Seq<(Axial, int)>, ids: Seq<Option<u64>>, i: int, id: u64)
    requires
        0 <= i < ids.len(),
    ensures
        members(c, ids, i + 1, id) == (if ids[i] == Some(id) {
            members(c, ids, i, id).insert(contact_at(c[i]))
        } else {
            members(c, ids, i, id)
        }),
{
    let t = if ids[i] == Some(id) {
        members(c, ids, i, id).insert(contact_at(c[i]))
    } else {
        members(c, ids, i, id)
    };
    assert forall|e: DirectedFrontEdge| members(c, ids, i + 1, id).contains(e) <==> t.contains(e) by {
        if members(c, ids, i + 1, id).contains(e) {
            let k = choose|k: int|
                0 <= k < i + 1 && #[trigger] ids[k] == Some(id) && contact_at(c[k]) == e;
            if k < i {
                assert(members(c, ids, i, id).contains(e));
            }
        }
    }
    assert(members(c, ids, i + 1, id) =~= t);
}

/// The unclaimed edges between two opponents are those with their number.
proof fn lemma_members_are_neutral(
    p: Perimeter,
    c: Seq<(Axial, int)>,
    contexts: Seq<Option<(u32, u32)>>,
    ids: Seq<Option<u64>>,
    pair: (u32, u32),
)
    requires
        contexts.len() == c.len(),
        ids.len() == c.len(),
        forall|k: int| 0 <= k < c.len() ==> is_context(p.marks(c), k, #[trigger] contexts[k]),
        forall|k: int| 0 <= k < c.len() ==> #[trigger] ids[k] == id_of(contexts[k]),
    ensures
        p.neutral_edges(c, pair.0, pair.1) == members(c, ids, c.len() as int, pair_id(pair) as u64),
{
    let id = pair_id(pair) as u64;
    let m = p.marks(c);
    assert forall|e: DirectedFrontEdge| p.neutral_edges(c, pair.0, pair.1).contains(e)
        <==> members(c, ids, c.len() as int, id).contains(e) by {
        if p.neutral_edges(c, pair.0, pair.1).contains(e) {
            let i = choose|i: int|
                0 <= i < c.len() && is_context(m, i, Some((pair.0, pair.1))) && contact_at(
                    #[trigger] c[i],
                ) == e;
            assert(is_context(m, i, contexts[i]));
            crate::ring::lemma_context_is_unique(m, i, contexts[i], Some((pair.0, pair.1)));
            assert(ids[i] == Some(id));
        }
        if members(c, ids, c.len() as int, id).contains(e) {
            let k = choose|k: int|
                0 <= k < c.len() && #[trigger] ids[k] == Some(id) && contact_at(c[k]) == e;
            assert(is_context(m, k, contexts[k]));
            lemma_id_injective(contexts[k], Some(pair));
            assert(contact_at(c[k]) == e);
        }
    }
    assert(p.neutral_edges(c, pair.0, pair.1) =~= members(c, ids, c.len() as int, id));
}

/// Files the neutral fronts of a round.
fn file_neutral(
    fronts: &mut Vec<StrategicFront>,
    cycle: &Vec<(Axial, usize)>,
    marks: &Vec<StrategicExterior>,
    Ghost(p): Ghost<Perimeter>,
)
    requires
        fronts_ascending(old(fronts)@),
        forall|c: Axial| #[trigger] p.component.contains(c) ==> c.interior(),
        p.is_cycle(sides(cycle@)),
        marks@ == p.marks(sides(cycle@)),
    ensures
        fronts_ascending(final(fronts)@),
        forall|v: (Option<u32>, Seq<DirectedFrontEdge>)| #[trigger]
            holds(final(fronts)@, v) <==> holds(old(fronts)@, v) || (v.0 is None
                && contacts_ascending(v.1) && p.is_front_of(sides(cycle@), None, v.1.to_set())),
{
    let ghost c = sides(cycle@);
    let n: usize = cycle.len();
    let contexts = contexts_of(marks.as_slice());
    let mut ids: Vec<Option<u64>> = Vec::new();
    let mut i: usize = 0;
    while i < n
        invariant
            i <= n,
            n == contexts@.len(),
            ids@.len() == i,
            forall|k: int| 0 <= k < i ==> #[trigger] ids@[k] == id_of(contexts@[k]),
        decreases n - i,
    {
        let id: Option<u64> = match contexts[i] {
            Some((x, y)) => Some(x as u64 * 0x1_0000_0000 + y as u64),
            None => None,
        };
        ids.push(id);
        i += 1;
    }
    let mut groups: BTreeMap<u64, ContactSet> = BTreeMap::new();
    let mut j: usize = 0;
    while j < n
        invariant
            j <= n,
            n == cycle@.len(),
            c == sides(cycle@),
            ids@.len() == n,
            forall|c: Axial| #[trigger] p.component.contains(c) ==> c.interior(),
            p.is_cycle(c),
            forall|id: u64| #[trigger]
                groups@.contains_key(id) <==> exists|k: int|
                    0 <= k < j && #[trigger] ids@[k] == Some(id),
            forall|id: u64| #[trigger]
                groups@.contains_key(id) ==> groups@[id]@ == members(c, ids@, j as int, id),
        decreases n - j,
    {
        let ghost before = groups@;
        match ids[j] {
            Some(id) => {
                let h = cycle[j];
                assert(c[j as int] == (h.0, h.1 as int));
                assert(p.exposed(c[j as int]));
                assert(p.component.contains(h.0));
                let mut group = match take_out(&mut groups, id) {
                    Some(group) => group,
                    None => ContactSet::new(),
                };
                proof {
                    if !before.contains_key(id) {
                        assert(members(c, ids@, j as int, id) =~= Set::empty());
                    }
                }
                group.insert(contact(h));
                put(&mut groups, id, group);
            },
            None => {},
        }
        proof {
            assert forall|id: u64| #[trigger] groups@.contains_key(id) <==> exists|k: int|
                0 <= k < j + 1 && #[trigger] ids@[k] == Some(id) by {
                assert(before.contains_key(id) <==> exists|k: int|
                    0 <= k < j && #[trigger] ids@[k] == Some(id));
                if exists|k: int| 0 <= k < j + 1 && #[trigger] ids@[k] == Some(id) {
                    let k = choose|k: int| 0 <= k < j + 1 && #[trigger] ids@[k] == Some(id);
                    if k == j {
                        assert(groups@.contains_key(id));
                    }
                }
                if groups@.contains_key(id) && !before.contains_key(id) {
                    assert(ids@[j as int] == Some(id));
                }
            }
            assert forall|id: u64| #[trigger] groups@.contains_key(id) implies groups@[id]@
                == members(c, ids@, j + 1, id) by {
                lemma_members(c, ids@, j as int, id);
                if ids@[j as int] != Some(id) {
                    assert(before.contains_key(id));
                }
            }
        }
        j += 1;
    }
    let keys = sorted_keys(&groups);
    let ghost start = fronts@;
    let mut k: usize = 0;
    while k < keys.len()
        invariant
            k <= keys.len(),
            keys@.to_set() == groups@.dom(),
            fronts_ascending(fronts@),
            forall|v: (Option<u32>, Seq<DirectedFrontEdge>)| #[trigger]
                holds(fronts@, v) <==> holds(start, v) || (v.0 is None && contacts_ascending(v.1)
                    && exists|x: int| 0 <= x < k && groups@[#[trigger] keys@[x]]@ == v.1.to_set()),
        decreases keys.len() - k,
    {
        let id: u64 = keys[k];
        assert(keys@.to_set().contains(id));
        let ghost before = fronts@;
        match look(&groups, id) {
            Some(group) => {
                let edges = group.to_vec();
                let ghost added = (None::<u32>, edges@);
                file_front(fronts, StrategicFront { opponent: None, edges });
                proof {
                    assert forall|v: (Option<u32>, Seq<DirectedFrontEdge>)| #[trigger]
                        holds(fronts@, v) <==> holds(start, v) || (v.0 is None
                            && contacts_ascending(v.1) && exists|x: int|
                            0 <= x < k + 1 && groups@[#[trigger] keys@[x]]@ == v.1.to_set()) by {
                        assert(holds(before, v) <==> holds(start, v) || (v.0 is None
                            && contacts_ascending(v.1) && exists|x: int|
                            0 <= x < k && groups@[#[trigger] keys@[x]]@ == v.1.to_set()));
                        assert(groups@[keys@[k as int]]@ == added.1.to_set());
                        if v.0 is None && contacts_ascending(v.1) && v.1.to_set()
                            == added.1.to_set() {
                            lemma_ascending_is_determined(v.1, added.1);
                        }
                        if exists|x: int|
                            0 <= x < k + 1 && groups@[#[trigger] keys@[x]]@ == v.1.to_set() {
                            let x = choose|x: int|
                                0 <= x < k + 1 && groups@[#[trigger] keys@[x]]@ == v.1.to_set();
                            if x == k {
                                assert(v.1.to_set() == added.1.to_set());
                            }
                        }
                    }
                }
            },
            None => {
                assert(false);
            },
        }
        k += 1;
    }
    proof {
        assert forall|v: (Option<u32>, Seq<DirectedFrontEdge>)| #[trigger]
            holds(fronts@, v) <==> holds(start, v) || (v.0 is None && contacts_ascending(v.1)
                && p.is_front_of(c, None, v.1.to_set())) by {
            if v.0 is None && contacts_ascending(v.1) {
                let edges = v.1.to_set();
                if exists|x: int| 0 <= x < k && groups@[#[trigger] keys@[x]]@ == edges {
                    let x = choose|x: int| 0 <= x < k && groups@[#[trigger] keys@[x]]@ == edges;
                    let id = keys@[x];
                    assert(keys@.to_set().contains(id));
                    let i = choose|i: int| 0 <= i < n && #[trigger] ids@[i] == Some(id);
                    let pair = contexts@[i].unwrap();
                    lemma_members_are_neutral(p, c, contexts@, ids@, pair);
                    assert(members(c, ids@, n as int, id).contains(contact_at(c[i])));
                    assert(edges == p.neutral_edges(c, pair.0, pair.1));
                }
                if p.is_front_of(c, None, edges) {
                    let (x, y) = choose|x: u32, y: u32| edges == #[trigger] p.neutral_edges(c, x, y);
                    lemma_members_are_neutral(p, c, contexts@, ids@, (x, y));
                    let id = pair_id((x, y)) as u64;
                    assert(exists|e: DirectedFrontEdge| edges.contains(e)) by {
                        if forall|e: DirectedFrontEdge| !edges.contains(e) {
                            assert(edges =~= Set::<DirectedFrontEdge>::empty());
                        }
                    }
                    let e = choose|e: DirectedFrontEdge| edges.contains(e);
                    let i = choose|i: int|
                        0 <= i < n && #[trigger] ids@[i] == Some(id) && contact_at(c[i]) == e;
                    assert(groups@.contains_key(id));
                    assert(keys@.to_set().contains(id));
                    let z = choose|z: int| 0 <= z < keys@.len() && keys@[z] == id;
                    assert(groups@[keys@[z]]@ == edges);
                }
            }
        }
    }
}

/// Ascending edge lists with the same edges are equal.
proof fn lemma_ascending_is_determined(s: Seq<DirectedFrontEdge>, t: Seq<DirectedFrontEdge>)
    requires
        contacts_ascending(s),
        contacts_ascending(t),
        s.to_set() == t.to_set(),
    ensures
        s == t,
{
    let f = |e: DirectedFrontEdge| s.contains(e);
    assert forall|e: DirectedFrontEdge| #[trigger] t.contains(e) <==> f(e) by {
        assert(f(e) == s.contains(e));
        assert(s.to_set().contains(e) <==> s.contains(e));
        assert(t.to_set().contains(e) <==> t.contains(e));
    }
    law_listing_is_unique(s, t, f);
}

/// Files the fronts of a round that face opponents.
fn file_hostile(
    fronts: &mut Vec<StrategicFront>,
    cycle: &Vec<(Axial, usize)>,
    marks: &Vec<StrategicExterior>,
    Ghost(p): Ghost<Perimeter>,
)
    requires
        fronts_ascending(old(fronts)@),
        forall|c: Axial| #[trigger] p.component.contains(c) ==> c.interior(),
        p.is_cycle(sides(cycle@)),
        marks@ == p.marks(sides(cycle@)),
    ensures
        fronts_ascending(final(fronts)@),
        forall|v: (Option<u32>, Seq<DirectedFrontEdge>)| #[trigger]
            holds(final(fronts)@, v) <==> holds(old(fronts)@, v) || (v.0 is Some
                && contacts_ascending(v.1) && p.is_front_of(sides(cycle@), v.0, v.1.to_set())),
{
    let ghost c = sides(cycle@);
    let ghost m = p.marks(c);
    let n: usize = marks.len();
    let arcs = arcs_of(marks.as_slice());
    let ghost start = fronts@;
    proof {
        assert forall|x: int| 0 <= x < arcs@.len() implies is_arc(
            m,
            (#[trigger] arcs@[x]).0,
            arcs@[x].1 as int,
            arcs@[x].2 as int,
        ) by {
            assert(arcs@.contains((arcs@[x].0, arcs@[x].1, arcs@[x].2)));
        }
    }
    let mut k: usize = 0;
    while k < arcs.len()
        invariant
            k <= arcs.len(),
            c == sides(cycle@),
            m == p.marks(c),
            forall|c: Axial| #[trigger] p.component.contains(c) ==> c.interior(),
            p.is_cycle(c),
            fronts_ascending(fronts@),
            forall|x: int|
                0 <= x < arcs@.len() ==> is_arc(
                    m,
                    (#[trigger] arcs@[x]).0,
                    arcs@[x].1 as int,
                    arcs@[x].2 as int,
                ),
            forall|v: (Option<u32>, Seq<DirectedFrontEdge>)| #[trigger]
                holds(fronts@, v) <==> holds(start, v) || (contacts_ascending(v.1) && exists|x: int|
                    0 <= x < k && draws(p, c, #[trigger] arcs@[x], v)),
        decreases arcs.len() - k,
    {
        let (opponent, a, l) = arcs[k];
        assert(is_arc(m, arcs@[k as int].0, a as int, l as int));
        let edges = arc_of(cycle, a, l, Ghost(p));
        let ghost before = fronts@;
        let ghost added = (Some(opponent), edges@);
        file_front(fronts, StrategicFront { opponent: Some(opponent), edges });
        proof {
            assert forall|v: (Option<u32>, Seq<DirectedFrontEdge>)| #[trigger]
                holds(fronts@, v) <==> holds(start, v) || (contacts_ascending(v.1) && exists|x: int|
                    0 <= x < k + 1 && draws(p, c, #[trigger] arcs@[x], v)) by {
                assert(holds(before, v) <==> holds(start, v) || (contacts_ascending(v.1)
                    && exists|x: int| 0 <= x < k && draws(p, c, #[trigger] arcs@[x], v)));
                assert(draws(p, c, arcs@[k as int], added));
                if contacts_ascending(v.1) && draws(p, c, arcs@[k as int], v) {
                    lemma_ascending_is_determined(v.1, added.1);
                }
                if exists|x: int| 0 <= x < k + 1 && draws(p, c, #[trigger] arcs@[x], v) {
                    let x = choose|x: int| 0 <= x < k + 1 && draws(p, c, #[trigger] arcs@[x], v);
                    if x == k {
                        assert(draws(p, c, arcs@[k as int], v));
                    }
                }
            }
        }
        k += 1;
    }
    proof {
        assert forall|v: (Option<u32>, Seq<DirectedFrontEdge>)| #[trigger]
            holds(fronts@, v) <==> holds(start, v) || (v.0 is Some && contacts_ascending(v.1)
                && p.is_front_of(c, v.0, v.1.to_set())) by {
            if contacts_ascending(v.1) {
                if exists|x: int| 0 <= x < k && draws(p, c, #[trigger] arcs@[x], v) {
                    let x = choose|x: int| 0 <= x < k && draws(p, c, #[trigger] arcs@[x], v);
                    assert(is_arc(p.marks(c), arcs@[x].0, arcs@[x].1 as int, arcs@[x].2 as int));
                    assert(p.is_hostile_front(c, arcs@[x].0, v.1.to_set()));
                }
                if v.0 is Some && p.is_front_of(c, v.0, v.1.to_set()) {
                    let q = v.0.unwrap();
                    let (a, l) = choose|a: int, l: int| #[trigger]
                        is_arc(m, q, a, l) && v.1.to_set() == p.arc_edges(c, a, l);
                    assert(arcs@.contains((q, a as usize, l as usize)));
                    let x = choose|x: int|
                        0 <= x < arcs@.len() && arcs@[x] == (q, a as usize, l as usize);
                    assert(0 <= x < k && draws(p, c, arcs@[x], v));
                }
            }
        }
    }
}

/// Whether a front is drawn by a stretch.
spec fn draws(
    p: Perimeter,
    c: Seq<(Axial, int)>,
    arc: (u32, usize, usize),
    v: (Option<u32>, Seq<DirectedFrontEdge>),
) -> bool {
    &&& v.0 == Some(arc.0)
    &&& v.1.to_set() == p.arc_edges(c, arc.1 as int, arc.2 as int)
}

/// A round is determined by its first side.
proof fn lemma_cycles_agree(p: Perimeter, a: Seq<(Axial, int)>, b: Seq<(Axial, int)>, k: int)
    requires
        p.is_cycle(a),
        p.is_cycle(b),
        a[0] == b[0],
        0 <= k < a.len(),
    ensures
        k < b.len(),
        a[k] == b[k],
    decreases k,
{
    if k > 0 {
        lemma_cycles_agree(p, a, b, k - 1);
        assert(p.turn(a[k - 1]) == a[k - 1 + 1]);
        if k - 1 == b.len() - 1 {
            assert(b[k - 1] == b.last());
            assert(a[k] == a[0]);
        }
        assert(p.turn(b[k - 1]) == b[k - 1 + 1]);
    }
}

/// Two rounds with a common side are the same.
proof fn lemma_cycles_meet(p: Perimeter, a: Seq<(Axial, int)>, b: Seq<(Axial, int)>, j: int)
    requires
        p.is_cycle(a),
        p.is_cycle(b),
        0 <= j < b.len(),
        a[0] == b[j],
    ensures
        a == b,
{
    // The first side of `b` lies on `a` as well, and both are least.
    lemma_reaches(p, a, b, j, b.len() - j);
    let i = choose|i: int| 0 <= i < a.len() && #[trigger] a[i] == b[0];
    if i > 0 && j > 0 {
        assert(contact_lt(contact_at(a[0]), contact_at(a[i])));
        assert(contact_lt(contact_at(b[0]), contact_at(b[j])));
    }
    if j > 0 {
        assert(contact_lt(contact_at(b[0]), contact_at(b[j])));
        assert(false);
    }
    lemma_cycles_agree(p, a, b, a.len() - 1);
    lemma_cycles_agree(p, b, a, b.len() - 1);
    assert forall|k: int| 0 <= k < a.len() implies #[trigger] a[k] == b[k] by {
        lemma_cycles_agree(p, a, b, k);
    }
    assert(a =~= b);
}

/// A round that starts on another one follows it to its first side.
proof fn lemma_reaches(p: Perimeter, a: Seq<(Axial, int)>, b: Seq<(Axial, int)>, j: int, t: int)
    requires
        p.is_cycle(a),
        p.is_cycle(b),
        0 <= j < b.len(),
        a[0] == b[j],
        0 <= t <= b.len() - j,
    ensures
        exists|i: int|
            0 <= i < a.len() && #[trigger] a[i] == (if j + t < b.len() {
                b[j + t]
            } else {
                b[0]
            }),
    decreases t,
{
    if t == 0 {
        assert(a[0] == b[j + t]);
    } else {
        lemma_reaches(p, a, b, j, t - 1);
        let i = choose|i: int| 0 <= i < a.len() && #[trigger] a[i] == b[j + (t - 1)];
        let next = if i + 1 < a.len() {
            i + 1
        } else {
            0
        };
        if i + 1 < a.len() {
            assert(p.turn(a[i]) == a[i + 1]);
        } else {
            assert(a[i] == a.last());
        }
        if j + t < b.len() {
            assert(p.turn(b[j + (t - 1)]) == b[j + (t - 1) + 1]);
        } else {
            assert(b[j + (t - 1)] == b.last());
        }
        assert(a[next] == (if j + t < b.len() {
            b[j + t]
        } else {
            b[0]
        }));
    }
}

/// Whether an outward side lies on one of some rounds.
spec fn is_walked(rounds: Seq<Seq<(Axial, int)>>, h: (Axial, int)) -> bool {
    exists|r: int, k: int|
        0 <= r < rounds.len() && 0 <= k < rounds[r].len() && #[trigger] rounds[r][k] == h
}

/// Whether edges form a front along one of some rounds.
spec fn is_drawn(
    p: Perimeter,
    rounds: Seq<Seq<(Axial, int)>>,
    v: (Option<u32>, Seq<DirectedFrontEdge>),
) -> bool {
    exists|r: int|
        0 <= r < rounds.len() && p.is_front_of(#[trigger] rounds[r], v.0, v.1.to_set())
}

proof fn lemma_walked_push(rounds: Seq<Seq<(Axial, int)>>, c: Seq<(Axial, int)>, h: (Axial, int))
    ensures
        is_walked(rounds.push(c), h) <==> is_walked(rounds, h) || c.contains(h),
{
    let t = rounds.push(c);
    if is_walked(t, h) {
        let (r, k) = choose|r: int, k: int|
            0 <= r < t.len() && 0 <= k < t[r].len() && #[trigger] t[r][k] == h;
        if r < rounds.len() {
            assert(rounds[r][k] == h);
        }
    }
    if is_walked(rounds, h) {
        let (r, k) = choose|r: int, k: int|
            0 <= r < rounds.len() && 0 <= k < rounds[r].len() && #[trigger] rounds[r][k] == h;
        assert(t[r][k] == h);
    }
    if c.contains(h) {
        let k = choose|k: int| 0 <= k < c.len() && c[k] == h;
        assert(t[rounds.len() as int][k] == h);
    }
}

proof fn lemma_drawn_push(
    p: Perimeter,
    rounds: Seq<Seq<(Axial, int)>>,
    c: Seq<(Axial, int)>,
    v: (Option<u32>, Seq<DirectedFrontEdge>),
)
    ensures
        is_drawn(p, rounds.push(c), v) <==> is_drawn(p, rounds, v) || p.is_front_of(
            c,
            v.0,
            v.1.to_set(),
        ),
{
    let t = rounds.push(c);
    if is_drawn(p, t, v) {
        let r = choose|r: int|
            0 <= r < t.len() && p.is_front_of(#[trigger] t[r], v.0, v.1.to_set());
        if r < rounds.len() {
            assert(p.is_front_of(rounds[r], v.0, v.1.to_set()));
        }
    }
    if is_drawn(p, rounds, v) {
        let r = choose|r: int|
            0 <= r < rounds.len() && p.is_front_of(#[trigger] rounds[r], v.0, v.1.to_set());
        assert(p.is_front_of(t[r], v.0, v.1.to_set()));
    }
    assert(t[rounds.len() as int] == c);
}

/// When every outward side has been walked, the rounds draw all fronts.
proof fn lemma_all_drawn(
    p: Perimeter,
    rounds: Seq<Seq<(Axial, int)>>,
    v: (Option<u32>, Seq<DirectedFrontEdge>),
)
    requires
        forall|r: int| 0 <= r < rounds.len() ==> p.is_cycle(#[trigger] rounds[r]),
        forall|h: (Axial, int)| #[trigger] p.exposed(h) ==> is_walked(rounds, h),
    ensures
        is_drawn(p, rounds, v) <==> p.is_front(v.0, v.1.to_set()),
{
    if is_drawn(p, rounds, v) {
        let r = choose|r: int|
            0 <= r < rounds.len() && p.is_front_of(#[trigger] rounds[r], v.0, v.1.to_set());
        assert(p.is_cycle(rounds[r]));
    }
    if p.is_front(v.0, v.1.to_set()) {
        let c = choose|c: Seq<(Axial, int)>| #[trigger]
            p.is_cycle(c) && p.is_front_of(c, v.0, v.1.to_set());
        assert(p.exposed(c[0]));
        assert(is_walked(rounds, c[0]));
        let (r, k) = choose|r: int, k: int|
            0 <= r < rounds.len() && 0 <= k < rounds[r].len() && #[trigger] rounds[r][k] == c[0];
        assert(p.is_cycle(rounds[r]));
        lemma_cycles_meet(p, c, rounds[r], k);
        assert(p.is_front_of(rounds[r], v.0, v.1.to_set()));
    }
}

/// Rounds that hold every outward side but the pending ones.
#[verifier::opaque]
spec fn is_surveyed(
    p: Perimeter,
    rounds: Seq<Seq<(Axial, int)>>,
    pending: Set<DirectedFrontEdge>,
) -> bool {
    &&& forall|r: int| 0 <= r < rounds.len() ==> p.is_cycle(#[trigger] rounds[r])
    &&& forall|h: (Axial, int)|
        p.exposed(h) && !pending.contains(#[trigger] contact_at(h)) ==> is_walked(rounds, h)
}

/// A list of the fronts that some rounds draw.
#[verifier::opaque]
spec fn is_filed(p: Perimeter, rounds: Seq<Seq<(Axial, int)>>, fronts: Seq<StrategicFront>) -> bool {
    forall|v: (Option<u32>, Seq<DirectedFrontEdge>)| #[trigger]
        holds(fronts, v) <==> contacts_ascending(v.1) && is_drawn(p, rounds, v)
}

proof fn lemma_survey_starts(p: Perimeter, pending: Set<DirectedFrontEdge>)
    requires
        forall|c: Axial| #[trigger] p.component.contains(c) ==> c.interior(),
        forall|e: DirectedFrontEdge| #[trigger]
            pending.contains(e) <==> p.component.contains(e.source) && !p.component.contains(
                e.target,
            ) && adjacent(e.source, e.target),
    ensures
        is_surveyed(p, Seq::empty(), pending),
        is_filed(p, Seq::empty(), Seq::empty()),
{
    reveal(is_surveyed);
    reveal(is_filed);
    assert forall|h: (Axial, int)| p.exposed(h) implies pending.contains(
        #[trigger] contact_at(h),
    ) by {
        assert(p.component.contains(h.0));
        law_adjacent_iff_neighbor(h.0, h.0.step(h.1));
        assert(h.0.step(h.1) == contact_at(h).target);
    }
}

proof fn lemma_survey_step(
    p: Perimeter,
    rounds: Seq<Seq<(Axial, int)>>,
    pending: Set<DirectedFrontEdge>,
    c: Seq<(Axial, int)>,
)
    requires
        forall|c: Axial| #[trigger] p.component.contains(c) ==> c.interior(),
        is_surveyed(p, rounds, pending),
        p.is_cycle(c),
    ensures
        is_surveyed(p, rounds.push(c), left_after(pending, c)),
        !left_after(pending, c).contains(contact_at(c[0])),
        left_after(pending, c).subset_of(pending),
{
    reveal(is_surveyed);
    let t = rounds.push(c);
    let left = left_after(pending, c);
    lemma_left_after(pending, c, c[0]);
    assert forall|r: int| 0 <= r < t.len() implies p.is_cycle(#[trigger] t[r]) by {
        if r < rounds.len() {
            assert(p.is_cycle(rounds[r]));
        }
    }
    assert forall|h: (Axial, int)|
        p.exposed(h) && !left.contains(#[trigger] contact_at(h)) implies is_walked(t, h) by {
        lemma_walked_push(rounds, c, h);
        if pending.contains(contact_at(h)) {
            let k = choose|k: int|
                0 <= k < c.len() && contact_at(#[trigger] c[k]) == contact_at(h);
            assert(p.exposed(c[k]));
            assert(p.component.contains(c[k].0));
            lemma_contact_injective(c[k], h);
            assert(c.contains(h));
        }
    }
}

proof fn lemma_filed_step(
    p: Perimeter,
    rounds: Seq<Seq<(Axial, int)>>,
    c: Seq<(Axial, int)>,
    filed: Seq<StrategicFront>,
    middle: Seq<StrategicFront>,
    fronts: Seq<StrategicFront>,
)
    requires
        is_filed(p, rounds, filed),
        forall|v: (Option<u32>, Seq<DirectedFrontEdge>)| #[trigger]
            holds(middle, v) <==> holds(filed, v) || (v.0 is None && contacts_ascending(v.1)
                && p.is_front_of(c, None, v.1.to_set())),
        forall|v: (Option<u32>, Seq<DirectedFrontEdge>)| #[trigger]
            holds(fronts, v) <==> holds(middle, v) || (v.0 is Some && contacts_ascending(v.1)
                && p.is_front_of(c, v.0, v.1.to_set())),
    ensures
        is_filed(p, rounds.push(c), fronts),
{
    reveal(is_filed);
    assert forall|v: (Option<u32>, Seq<DirectedFrontEdge>)| #[trigger]
        holds(fronts, v) <==> contacts_ascending(v.1) && is_drawn(p, rounds.push(c), v) by {
        lemma_drawn_push(p, rounds, c, v);
        assert(holds(middle, v) <==> holds(filed, v) || (v.0 is None && contacts_ascending(v.1)
            && p.is_front_of(c, None, v.1.to_set())));
        assert(holds(filed, v) <==> contacts_ascending(v.1) && is_drawn(p, rounds, v));
    }
}

proof fn lemma_survey_ends(
    p: Perimeter,
    rounds: Seq<Seq<(Axial, int)>>,
    pending: Set<DirectedFrontEdge>,
    fronts: Seq<StrategicFront>,
)
    requires
        is_surveyed(p, rounds, pending),
        is_filed(p, rounds, fronts),
        fronts_ascending(fronts),
        forall|e: DirectedFrontEdge| !#[trigger] pending.contains(e),
    ensures
        p.is_front_list(fronts),
{
    reveal(is_surveyed);
    reveal(is_filed);
    assert forall|h: (Axial, int)| #[trigger] p.exposed(h) implies is_walked(rounds, h) by {
        assert(!pending.contains(contact_at(h)));
    }
    assert forall|v: (Option<u32>, Seq<DirectedFrontEdge>)| #[trigger]
        holds(fronts, v) <==> contacts_ascending(v.1) && p.is_front(v.0, v.1.to_set()) by {
        lemma_all_drawn(p, rounds, v);
    }
}

/// Finitely many contact edges can be put in ascending order.
proof fn lemma_contacts_in_order(set: Set<DirectedFrontEdge>) -> (s: Seq<DirectedFrontEdge>)
    requires
        set.finite(),
    ensures
        contacts_ascending(s),
        s.to_set() == set,
    decreases set.len(),
{
    if set.len() == 0 {
        assert(set =~= Set::empty());
        assert(Seq::<DirectedFrontEdge>::empty().to_set() =~= set);
        Seq::empty()
    } else {
        let e = set.choose();
        let s = lemma_contacts_in_order(set.remove(e));
        let t = lemma_contact_inserted(s, e, s.len() as int);
        assert(t.to_set() =~= set);
        t
    }
}

/// An edge can be put in its place among ascending ones.
proof fn lemma_contact_inserted(s: Seq<DirectedFrontEdge>, e: DirectedFrontEdge, i: int) -> (t: Seq<
    DirectedFrontEdge,
>)
    requires
        contacts_ascending(s),
        !s.contains(e),
        0 <= i <= s.len(),
        forall|k: int| i <= k < s.len() ==> contact_lt(e, #[trigger] s[k]),
    ensures
        contacts_ascending(t),
        t.to_set() == s.to_set().insert(e),
    decreases i,
{
    if i > 0 && contact_lt(e, s[i - 1]) {
        lemma_contact_inserted(s, e, i - 1)
    } else {
        let t = s.insert(i, e);
        if i > 0 {
            assert(s[i - 1] != e);
            assert(contact_lt(s[i - 1], e));
        }
        assert forall|j: int, k: int| 0 <= j < k < t.len() implies contact_lt(
            #[trigger] t[j],
            #[trigger] t[k],
        ) by {
            if k == i {
                if j < i - 1 {
                    assert(contact_lt(s[j], s[i - 1]));
                }
            } else if j == i {
                assert(contact_lt(e, s[k - 1]));
            } else {
                let a = if j < i {
                    j
                } else {
                    j - 1
                };
                let b = if k < i {
                    k
                } else {
                    k - 1
                };
                assert(contact_lt(s[a], s[b]));
            }
        }
        assert forall|f: DirectedFrontEdge| t.to_set().contains(f) <==> s.to_set().insert(
            e,
        ).contains(f) by {
            if s.contains(f) {
                let k = choose|k: int| 0 <= k < s.len() && s[k] == f;
                if k < i {
                    assert(t[k] == f);
                } else {
                    assert(t[k + 1] == f);
                }
            }
            assert(t[i] == e);
            if t.contains(f) {
                let k = choose|k: int| 0 <= k < t.len() && t[k] == f;
                if k < i {
                    assert(s[k] == f);
                } else if k > i {
                    assert(s[k - 1] == f);
                }
            }
        }
        assert(t.to_set() =~= s.to_set().insert(e));
        t
    }
}

/// A front along a round is found in the list with its edges in order.
proof fn lemma_front_is_held(
    p: Perimeter,
    fronts: Seq<StrategicFront>,
    c: Seq<(Axial, int)>,
    opponent: Option<u32>,
    edges: Set<DirectedFrontEdge>,
    e: DirectedFrontEdge,
)
    requires
        p.is_front_list(fronts),
        p.is_cycle(c),
        p.is_front_of(c, opponent, edges),
        edges.contains(e),
        forall|f: DirectedFrontEdge| #[trigger]
            edges.contains(f) ==> exists|k: int|
                0 <= k < c.len() && contact_at(#[trigger] c[k]) == f,
    ensures
        has_edge(fronts, opponent, e),
{
    let all = c.map_values(|h: (Axial, int)| contact_at(h));
    vstd::seq_lib::seq_to_set_is_finite(all);
    assert(edges.subset_of(all.to_set())) by {
        assert forall|f: DirectedFrontEdge| edges.contains(f) implies all.to_set().contains(f) by {
            let k = choose|k: int| 0 <= k < c.len() && contact_at(#[trigger] c[k]) == f;
            assert(all[k] == f);
        }
    }
    vstd::set_lib::lemma_len_subset(edges, all.to_set());
    let s = lemma_contacts_in_order(edges);
    assert(p.is_front(opponent, s.to_set()));
    assert(holds(fronts, (opponent, s)));
    let i = choose|i: int| 0 <= i < fronts.len() && (#[trigger] fronts[i])@ == (opponent, s);
    assert(s.to_set().contains(e));
    assert(fronts[i].edges@.contains(e));
}

proof fn lemma_covers(
    p: Perimeter,
    rounds: Seq<Seq<(Axial, int)>>,
    pending: Set<DirectedFrontEdge>,
    fronts: Seq<StrategicFront>,
)
    requires
        is_surveyed(p, rounds, pending),
        p.is_front_list(fronts),
        forall|e: DirectedFrontEdge| !#[trigger] pending.contains(e),
    ensures
        p.covers(fronts),
{
    assert forall|h: (Axial, int)| #[trigger] p.exposed(h) implies match p.mark(h) {
        StrategicExterior::Ignored => true,
        StrategicExterior::Neutral => has_edge(fronts, None, contact_at(h)),
        StrategicExterior::Opponent(q) => has_edge(fronts, Some(q), contact_at(h)),
    } by {
        assert(!pending.contains(contact_at(h)));
        assert(is_walked(rounds, h) && forall|r: int|
            0 <= r < rounds.len() ==> p.is_cycle(#[trigger] rounds[r])) by {
            reveal(is_surveyed);
        }
        let (r, k) = choose|r: int, k: int|
            0 <= r < rounds.len() && 0 <= k < rounds[r].len() && #[trigger] rounds[r][k] == h;
        let c = rounds[r];
        assert(p.is_cycle(c));
        lemma_round_covers(p, fronts, c, k);
    }
}

proof fn lemma_round_covers(
    p: Perimeter,
    fronts: Seq<StrategicFront>,
    c: Seq<(Axial, int)>,
    k: int,
)
    requires
        p.is_front_list(fronts),
        p.is_cycle(c),
        0 <= k < c.len(),
    ensures
        match p.mark(c[k]) {
            StrategicExterior::Ignored => true,
            StrategicExterior::Neutral => has_edge(fronts, None, contact_at(c[k])),
            StrategicExterior::Opponent(q) => has_edge(fronts, Some(q), contact_at(c[k])),
        },
{
    let m = p.marks(c);
    let n = c.len() as int;
    let e = contact_at(c[k]);
    crate::ring::lemma_at_period(m, k);
    match p.mark(c[k]) {
        StrategicExterior::Ignored => {},
        StrategicExterior::Neutral => {
            let pair = crate::ring::lemma_context_exists(m, k);
            let edges = p.neutral_edges(c, pair.0, pair.1);
            assert(is_context(m, k, Some((pair.0, pair.1))) && contact_at(c[k]) == e);
            assert(edges.contains(e));
            assert(p.is_neutral_front(c, edges));
            lemma_front_is_held(p, fronts, c, None, edges, e);
        },
        StrategicExterior::Opponent(q) => {
            let arc = crate::ring::lemma_arc_through(m, q, k);
            let edges = p.arc_edges(c, arc.0, arc.1);
            assert(stretch(c, arc.0, arc.2) == e);
            assert(edges.contains(e));
            assert(p.is_hostile_front(c, q, edges));
            assert forall|f: DirectedFrontEdge| #[trigger] edges.contains(f) implies exists|i: int|
                0 <= i < c.len() && contact_at(#[trigger] c[i]) == f by {
                let j = choose|j: int| 0 <= j < arc.1 && #[trigger] stretch(c, arc.0, j) == f;
                vstd::arithmetic::div_mod::lemma_mod_bound(arc.0 + j, n);
                assert(contact_at(c[(arc.0 + j) % n]) == f);
            }
            lemma_front_is_held(p, fronts, c, Some(q), edges, e);
        },
    }
}

/// Derives deterministic strategic fronts for one owned traversable component.
///
/// # Inputs
/// - `component`: cells of exactly one owned connected component. Connectivity
///   is the caller's responsibility; this function only inspects membership.
/// - `exterior_owner(source, target)`: classifies a non-component neighbor as
///   ignored, neutral, or hostile. Same-owner and non-traversable edges should
///   be ignored by callers.
///
/// # Output
/// Fronts against opponents come first, by opponent, then neutral ones; ties go
/// by the edges. Edges inside each front are sorted by `(source, target)`. No
/// durable front IDs are assigned.
///
/// # Topology rules
/// 1. Boundary edges are component -> non-component directed axial edges.
/// 2. Complete geometric perimeter cycles are walked, **including** ignored
///    edges as markers. Holes yield additional cycles; each is independent.
/// 3. Ignored runs split a cycle into active open chains. Ignored edges never
///    appear in resulting fronts.
/// 4. A neutral run bridges two hostile runs against the **same** opponent into
///    one front. Different opponents always split fronts.
/// 5. A single hostile run does **not** absorb adjacent neutrals, so a blob
///    contacting one enemy still exposes a rebalanceable neutral arc on the far
///    side. When two or more runs against one opponent are all that is hostile
///    on a cycle without ignored edges, the whole cycle is one front.
/// 6. Neutral edges are grouped by their ordered hostile context on each cycle.
///    Sections bounded by different hostile fronts remain independent; sections
///    interrupted only by repeated contact with the same hostile front stay one
///    neutral front. Ignored markers do not by themselves create extra neutral
///    fronts.
/// 7. Neutral edges used to bridge a hostile front remain in their neutral
///    front too, so fronts may overlap at edges and source cells.
/// 8. An all-neutral perimeter cycle becomes one neutral front.
pub fn strategic_fronts<F>(component: &[Axial], exterior_owner: F) -> (result: Result<
    Vec<StrategicFront>,
    StrategicFrontError,
>) where F: Fn(Axial, Axial) -> StrategicExterior
    requires
        is_classifier(exterior_owner),
        forall|i: int| 0 <= i < component@.len() ==> (#[trigger] component@[i]).interior(),
    ensures
        match result {
            Ok(fronts) => {
                let p = Perimeter {
                    component: component@.to_set(),
                    exterior: classes(exterior_owner),
                };
                &&& component@.len() > 0
                &&& p.is_front_list(fronts@)
                &&& p.covers(fronts@)
            },
            Err(StrategicFrontError::EmptyComponent) => component@.len() == 0,
        },
{
    if component.len() == 0 {
        return Err(StrategicFrontError::EmptyComponent);
    }
    let cells = AxialSet::from_slice(component);
    let ghost p = Perimeter { component: cells@, exterior: classes(exterior_owner) };
    proof {
        assert forall|c: Axial| #[trigger] cells@.contains(c) implies c.interior() by {
            assert(component@.contains(c));
            let i = choose|i: int| 0 <= i < component@.len() && component@[i] == c;
            assert(component@[i].interior());
        }
    }
    let mut pending = contacts_of(&cells, Ghost(p));
    let all = pending.to_vec();
    let ghost mut rounds = Seq::<Seq<(Axial, int)>>::empty();
    let mut fronts: Vec<StrategicFront> = Vec::new();
    proof {
        lemma_pending_starts(p, pending@);
        lemma_survey_starts(p, pending@);
    }
    let mut i: usize = 0;
    while i < all.len()
        invariant
            i <= all.len(),
            contacts_ascending(all@),
            p.component == cells@,
            p.exterior == classes(exterior_owner),
            is_classifier(exterior_owner),
            forall|c: Axial| #[trigger] cells@.contains(c) ==> c.interior(),
            is_pending(p, pending@),
            pending@.subset_of(all@.to_set()),
            forall|k: int| 0 <= k < i ==> !pending@.contains(#[trigger] all@[k]),
            is_surveyed(p, rounds, pending@),
            is_filed(p, rounds, fronts@),
            fronts_ascending(fronts@),
        decreases all.len() - i,
    {
        let start = all[i];
        if pending.contains(start) {
            let ghost before = pending@;
            let ghost filed = fronts@;
            proof {
                assert forall|e: DirectedFrontEdge| #[trigger] pending@.contains(e) implies e
                    == start || contact_lt(start, e) by {
                    assert(all@.to_set().contains(e));
                    let k = choose|k: int| 0 <= k < all@.len() && all@[k] == e;
                    if k < i {
                        assert(!pending@.contains(all@[k]));
                    }
                    if k > i {
                        assert(contact_lt(all@[i as int], all@[k]));
                    }
                }
            }
            let cycle = walk_cycle(&cells, start, &mut pending, Ghost(p), Ghost(all@));
            let marks = marks_of(&cycle, &exterior_owner, Ghost(p));
            file_neutral(&mut fronts, &cycle, &marks, Ghost(p));
            let ghost middle = fronts@;
            file_hostile(&mut fronts, &cycle, &marks, Ghost(p));
            proof {
                let c = sides(cycle@);
                lemma_survey_step(p, rounds, before, c);
                lemma_filed_step(p, rounds, c, filed, middle, fronts@);
                rounds = rounds.push(c);
            }
        }
        i += 1;
    }
    proof {
        assert forall|e: DirectedFrontEdge| !#[trigger] pending@.contains(e) by {
            if pending@.contains(e) {
                assert(all@.to_set().contains(e));
                let k = choose|k: int| 0 <= k < all@.len() && all@[k] == e;
                assert(!pending@.contains(all@[k]));
            }
        }
        lemma_survey_ends(p, rounds, pending@, fronts@);
        lemma_covers(p, rounds, pending@, fronts@);
    }
    Ok(fronts)
}

/// All outward contact edges of a component are closed under turns.
proof fn lemma_pending_starts(p: Perimeter, pending: Set<DirectedFrontEdge>)
    requires
        forall|c: Axial| #[trigger] p.component.contains(c) ==> c.interior(),
        forall|e: DirectedFrontEdge| #[trigger]
            pending.contains(e) <==> p.component.contains(e.source) && !p.component.contains(
                e.target,
            ) && adjacent(e.source, e.target),
    ensures
        is_pending(p, pending),
{
    assert forall|e: DirectedFrontEdge| #[trigger] pending.contains(e) implies exists|h: (Axial, int)|
        #[trigger] contact_at(h) == e && p.exposed(h) by {
        law_adjacent_iff_neighbor(e.source, e.target);
        let d = choose|d: int| 0 <= d < 6 && #[trigger] e.source.step(d) == e.target;
        assert(contact_at((e.source, d)) == e && p.exposed((e.source, d)));
    }
    assert forall|h: (Axial, int)|
        p.exposed(h) && pending.contains(#[trigger] contact_at(h)) implies pending.contains(
        contact_at(p.turn(h)),
    ) by {
        lemma_turn(p, h, h);
        let t = p.turn(h);
        assert(p.component.contains(t.0));
        law_adjacent_iff_neighbor(t.0, t.0.step(t.1));
        assert(t.0.step(t.1) == contact_at(t).target);
    }
    reveal(is_pending);
}

impl StrategicFront {
    /// Owned source cells that expose at least one edge of this front.
    pub fn source_cells(&self) -> (cells: AxialSet)
        ensures
            forall|c: Axial| #[trigger]
                cells@.contains(c) <==> exists|i: int|
                    0 <= i < self.edges@.len() && (#[trigger] self.edges@[i]).source == c,
    {
        let mut cells = AxialSet::new();
        let mut i: usize = 0;
        while i < self.edges.len()
            invariant
                i <= self.edges@.len(),
                forall|c: Axial| #[trigger]
                    cells@.contains(c) <==> exists|k: int|
                        0 <= k < i && (#[trigger] self.edges@[k]).source == c,
            decreases self.edges.len() - i,
        {
            let ghost before = cells@;
            let source = self.edges[i].source;
            cells.insert(source);
            proof {
                assert forall|c: Axial| #[trigger] cells@.contains(c) <==> exists|k: int|
                    0 <= k < i + 1 && (#[trigger] self.edges@[k]).source == c by {
                    assert(before.contains(c) <==> exists|k: int|
                        0 <= k < i && (#[trigger] self.edges@[k]).source == c);
                    assert(self.edges@[i as int].source == source);
                    if exists|k: int| 0 <= k < i + 1 && (#[trigger] self.edges@[k]).source == c {
                        let k = choose|k: int|
                            0 <= k < i + 1 && (#[trigger] self.edges@[k]).source == c;
                        if k == i {
                            assert(c == source);
                        }
                    }
                }
            }
            i += 1;
        }
        cells
    }

    /// Number of exposed directed edges leaving each source cell.
    pub fn edge_count_by_source(&self) -> (counts: AxialMap<u32>)
        requires
            self.edges@.len() <= u32::MAX,
        ensures
            forall|c: Axial| #[trigger]
                counts@.contains_key(c) <==> edges_from(self.edges@, c) > 0,
            forall|c: Axial| #[trigger]
                counts@.contains_key(c) ==> counts@[c] == edges_from(self.edges@, c),
    {
        let mut counts: AxialMap<u32> = AxialMap::new();
        let mut i: usize = 0;
        assert(self.edges@.take(0) =~= Seq::empty());
        while i < self.edges.len()
            invariant
                i <= self.edges@.len() <= u32::MAX,
                forall|c: Axial| #[trigger]
                    counts@.contains_key(c) <==> edges_from(self.edges@.take(i as int), c) > 0,
                forall|c: Axial| #[trigger]
                    counts@.contains_key(c) ==> counts@[c] == edges_from(
                        self.edges@.take(i as int),
                        c,
                    ),
            decreases self.edges.len() - i,
        {
            let source = self.edges[i].source;
            let ghost before = counts@;
            let count: u32 = match counts.get(source) {
                Some(count) => *count,
                None => 0,
            };
            proof {
                let t = self.edges@.take(i as int);
                lemma_edges_from_bound(t, source);
                assert(self.edges@.take(i + 1).drop_last() =~= t);
                assert(self.edges@.take(i + 1).last() == self.edges@[i as int]);
            }
            counts.insert(source, count + 1);
            i += 1;
        }
        assert(self.edges@.take(i as int) =~= self.edges@);
        counts
    }

    pub fn contains_source(&self, seed: Axial) -> (found: bool)
        ensures
            found <==> exists_source(self.edges@, seed),
    {
        let mut i: usize = 0;
        while i < self.edges.len()
            invariant
                i <= self.edges@.len(),
                forall|k: int| 0 <= k < i ==> (#[trigger] self.edges@[k]).source != seed,
            decreases self.edges.len() - i,
        {
            if self.edges[i].source == seed {
                assert(self.edges@[i as int].source == seed);
                return true;
            }
            i += 1;
        }
        false
    }
}

/// How many of some edges leave a cell.
pub open spec fn edges_from(edges: Seq<DirectedFrontEdge>, c: Axial) -> nat
    decreases edges.len(),
{
    if edges.len() == 0 {
        0
    } else {
        edges_from(edges.drop_last(), c) + (if edges.last().source == c {
            1nat
        } else {
            0nat
        })
    }
}

proof fn lemma_edges_from_bound(edges: Seq<DirectedFrontEdge>, c: Axial)
    ensures
        edges_from(edges, c) <= edges.len(),
    decreases edges.len(),
{
    if edges.len() > 0 {
        lemma_edges_from_bound(edges.drop_last(), c);
    }
}

/// Whether one of some edges leaves a cell.
pub open spec fn exists_source(edges: Seq<DirectedFrontEdge>, seed: Axial) -> bool {
    exists|i: int| 0 <= i < edges.len() && (#[trigger] edges[i]).source == seed
}

/// Finds the front whose edge sources include `seed`.
pub fn strategic_front_index_for_seed(fronts: &[StrategicFront], seed: Axial) -> (index: Option<
    usize,
>)
    ensures
        match index {
            Some(i) => {
                &&& i < fronts@.len()
                &&& exists_source(fronts@[i as int].edges@, seed)
                &&& forall|k: int|
                    0 <= k < i ==> !exists_source((#[trigger] fronts@[k]).edges@, seed)
            },
            None => forall|k: int|
                0 <= k < fronts@.len() ==> !exists_source((#[trigger] fronts@[k]).edges@, seed),
        },
{
    let mut i: usize = 0;
    while i < fronts.len()
        invariant
            i <= fronts@.len(),
            forall|k: int| 0 <= k < i ==> !exists_source((#[trigger] fronts@[k]).edges@, seed),
        decreases fronts.len() - i,
    {
        if fronts[i].contains_source(seed) {
            return Some(i);
        }
        i += 1;
    }
    None
}

} // verus!
