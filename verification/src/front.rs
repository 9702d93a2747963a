//! Contact edges between a selection of hexes and what lies outside it.
use vstd::prelude::*;
use crate::axials::{ascending, AxialMap, AxialSet};
use crate::coord::{adjacent, axial_lt, law_adjacent_iff_neighbor, Axial};
use crate::order::lemma_strictly_sorted_unique;

verus! {

#[derive(Clone, Copy, Debug, Eq, Ord, PartialEq, PartialOrd, Structural)]
pub struct DirectedFrontEdge {
    pub source: Axial,
    pub target: Axial,
}

#[derive(Clone, Copy, Debug, Eq, PartialEq, Structural)]
pub enum FrontSelectionError {
    EmptySelection,
    InvalidDirection,
    NoEligibleFront,
}

/// The order of contact edges: by source, then by target.
pub open spec fn contact_lt(e: DirectedFrontEdge, f: DirectedFrontEdge) -> bool {
    axial_lt(e.source, f.source) || (e.source == f.source && axial_lt(e.target, f.target))
}

/// Strictly ascending contact edges.
pub open spec fn contacts_ascending(s: Seq<DirectedFrontEdge>) -> bool {
    forall|i: int, j: int| 0 <= i < j < s.len() ==> contact_lt(#[trigger] s[i], #[trigger] s[j])
}

/// The edges that satisfy a predicate, in ascending order.
pub open spec fn lists(
    s: Seq<DirectedFrontEdge>,
    faces: spec_fn(DirectedFrontEdge) -> bool,
) -> bool {
    &&& contacts_ascending(s)
    &&& forall|e: DirectedFrontEdge| #[trigger] s.contains(e) <==> faces(e)
}

/// At most one sequence lists the edges that satisfy a predicate: a listing does
/// not depend on the order in which anything was handed in.
pub proof fn law_listing_is_unique(
    s: Seq<DirectedFrontEdge>,
    t: Seq<DirectedFrontEdge>,
    faces: spec_fn(DirectedFrontEdge) -> bool,
)
    requires
        lists(s, faces),
        lists(t, faces),
    ensures
        s == t,
{
    let lt = |e: DirectedFrontEdge, f: DirectedFrontEdge| contact_lt(e, f);
    assert forall|e: DirectedFrontEdge| s.to_set().contains(e) <==> t.to_set().contains(e) by {
        assert(s.contains(e) <==> faces(e));
        assert(t.contains(e) <==> faces(e));
    }
    assert(s.to_set() =~= t.to_set());
    assert forall|i: int, j: int| 0 <= i < j < s.len() implies lt(
        #[trigger] s[i],
        #[trigger] s[j],
    ) by {
        assert(contact_lt(s[i], s[j]));
    }
    assert forall|i: int, j: int| 0 <= i < j < t.len() implies lt(
        #[trigger] t[i],
        #[trigger] t[j],
    ) by {
        assert(contact_lt(t[i], t[j]));
    }
    lemma_strictly_sorted_unique(s, t, lt);
}

/// What a judge says of a contact between a source and a target.
pub open spec fn accepts<F: Fn(Axial, Axial) -> bool>(judge: F) -> spec_fn(Axial, Axial) -> bool {
    |source: Axial, target: Axial| call_ensures(judge, (source, target), true)
}

/// A judge can be asked of every contact, and answers the same each time.
pub open spec fn is_judge<F: Fn(Axial, Axial) -> bool>(judge: F) -> bool {
    &&& forall|source: Axial, target: Axial| call_requires(judge, (source, target))
    &&& forall|source: Axial, target: Axial, answer: bool|
        call_ensures(judge, (source, target), answer) ==> answer == accepts(judge)(source, target)
}

/// Whether a coordinate is one of the six steps to a neighbour.
pub open spec fn is_direction(d: Axial) -> bool {
    adjacent(Axial { q: 0, r: 0 }, d)
}

/// Whether the coordinate one step away can be represented.
pub open spec fn has_room(c: Axial, d: Axial) -> bool {
    &&& i32::MIN <= c.q + d.q <= i32::MAX
    &&& i32::MIN <= c.r + d.r <= i32::MAX
}

/// The coordinate one step away.
pub open spec fn shifted(c: Axial, d: Axial) -> Axial {
    Axial { q: (c.q + d.q) as i32, r: (c.r + d.r) as i32 }
}

/// The accepted edges that leave a selection in one direction.
pub open spec fn faces_along(
    sources: Set<Axial>,
    direction: Axial,
    eligible: spec_fn(Axial, Axial) -> bool,
) -> spec_fn(DirectedFrontEdge) -> bool {
    |e: DirectedFrontEdge|
        sources.contains(e.source) && e.target == shifted(e.source, direction) && !sources.contains(
            e.target,
        ) && eligible(e.source, e.target)
}

/// The accepted edges that leave a selection.
pub open spec fn faces_outward(
    sources: Set<Axial>,
    eligible: spec_fn(Axial, Axial) -> bool,
) -> spec_fn(DirectedFrontEdge) -> bool {
    |e: DirectedFrontEdge|
        sources.contains(e.source) && adjacent(e.source, e.target) && !sources.contains(e.target)
            && eligible(e.source, e.target)
}

/// Whether a coordinate is one of the six steps to a neighbour.
fn check_direction(d: Axial) -> (ok: bool)
    ensures
        ok == is_direction(d),
{
    Axial::new(0, 0).distance(d) == 1
}

proof fn lemma_push_contact(
    s: Seq<DirectedFrontEdge>,
    e: DirectedFrontEdge,
)
    ensures
        forall|f: DirectedFrontEdge| #[trigger]
            s.push(e).contains(f) <==> s.contains(f) || f == e,
        contacts_ascending(s) && (s.len() > 0 ==> contact_lt(s.last(), e)) ==> contacts_ascending(
            s.push(e),
        ),
{
    let t = s.push(e);
    assert forall|f: DirectedFrontEdge| #[trigger] t.contains(f) <==> s.contains(f) || f == e by {
        assert(t[s.len() as int] == e);
        if s.contains(f) {
            let i = choose|i: int| 0 <= i < s.len() && s[i] == f;
            assert(t[i] == f);
        }
    }
    if contacts_ascending(s) && (s.len() > 0 ==> contact_lt(s.last(), e)) {
        assert forall|i: int, j: int| 0 <= i < j < t.len() implies contact_lt(
            #[trigger] t[i],
            #[trigger] t[j],
        ) by {
            if j == s.len() && i < s.len() - 1 {
                assert(contact_lt(s[i], s[s.len() - 1]));
            }
        }
    }
}

/// Derives the exact outward-facing edge set for every selected source region.
///
/// Only the chosen axial direction is considered. This is important for deep
/// selections: cells painted backward supply strength and routes, but their
/// side edges do not silently become additional fronts. Disconnected source
/// regions are intentional: each region contributes its own eligible boundary.
pub fn selected_front_edges<F>(sources: &AxialSet, direction: Axial, target_is_eligible: F) -> (result:
    Result<Vec<DirectedFrontEdge>, FrontSelectionError>) where F: Fn(Axial, Axial) -> bool
    requires
        is_judge(target_is_eligible),
        is_direction(direction) ==> forall|c: Axial| #[trigger]
            sources@.contains(c) ==> has_room(c, direction),
    ensures
        match result {
            Ok(edges) => {
                &&& is_direction(direction)
                &&& edges@.len() > 0
                &&& lists(
                    edges@,
                    faces_along(sources@, direction, accepts(target_is_eligible)),
                )
            },
            Err(FrontSelectionError::EmptySelection) => sources@ == Set::<Axial>::empty(),
            Err(FrontSelectionError::InvalidDirection) => {
                &&& sources@ != Set::<Axial>::empty()
                &&& !is_direction(direction)
            },
            Err(FrontSelectionError::NoEligibleFront) => {
                &&& sources@ != Set::<Axial>::empty()
                &&& is_direction(direction)
                &&& forall|e: DirectedFrontEdge|
                    !#[trigger] faces_along(sources@, direction, accepts(target_is_eligible))(e)
            },
        },
{
    if sources.is_empty() {
        return Err(FrontSelectionError::EmptySelection);
    }
    if !check_direction(direction) {
        return Err(FrontSelectionError::InvalidDirection);
    }
    let listed = sources.to_vec();
    let ghost faces = faces_along(sources@, direction, accepts(target_is_eligible));
    let mut edges: Vec<DirectedFrontEdge> = Vec::new();
    let mut i: usize = 0;
    while i < listed.len()
        invariant
            i <= listed.len(),
            ascending(listed@),
            listed@.to_set() == sources@,
            is_judge(target_is_eligible),
            faces == faces_along(sources@, direction, accepts(target_is_eligible)),
            forall|c: Axial| #[trigger] sources@.contains(c) ==> has_room(c, direction),
            contacts_ascending(edges@),
            forall|e: DirectedFrontEdge| #[trigger]
                edges@.contains(e) <==> faces(e) && exists|j: int|
                    0 <= j < i && #[trigger] listed@[j] == e.source,
        decreases listed.len() - i,
    {
        let source = listed[i];
        assert(listed@.to_set().contains(source));
        let target = source + direction;
        let ghost before = edges@;
        if !sources.contains(target) && target_is_eligible(source, target) {
            proof {
                if before.len() > 0 {
                    assert(before.contains(before.last()));
                    let j = choose|j: int|
                        0 <= j < i && #[trigger] listed@[j] == before.last().source;
                    assert(axial_lt(listed@[j], listed@[i as int]));
                }
                lemma_push_contact(before, DirectedFrontEdge { source, target });
            }
            edges.push(DirectedFrontEdge { source, target });
        }
        proof {
            assert forall|e: DirectedFrontEdge| #[trigger]
                edges@.contains(e) <==> faces(e) && exists|j: int|
                    0 <= j < i + 1 && #[trigger] listed@[j] == e.source by {
                assert(before.contains(e) <==> faces(e) && exists|j: int|
                    0 <= j < i && #[trigger] listed@[j] == e.source);
                if exists|j: int| 0 <= j < i + 1 && #[trigger] listed@[j] == e.source {
                    let j = choose|j: int| 0 <= j < i + 1 && #[trigger] listed@[j] == e.source;
                    if j == i {
                        assert(e.source == source);
                    }
                }
                assert(listed@[i as int] == source);
            }
        }
        i += 1;
    }
    proof {
        assert forall|e: DirectedFrontEdge| #[trigger] edges@.contains(e) <==> faces(e) by {
            if faces(e) {
                assert(listed@.to_set().contains(e.source));
            }
        }
    }
    if edges.len() == 0 {
        assert forall|e: DirectedFrontEdge| !#[trigger] faces(e) by {
            assert(!edges@.contains(e));
        }
        return Err(FrontSelectionError::NoEligibleFront);
    }
    Ok(edges)
}

/// A straight run from a source along a direction to the first front cell, all
/// of it inside the selection and traversable.
pub open spec fn is_lane(
    sources: Set<Axial>,
    direction: Axial,
    fronts: Set<Axial>,
    passes: spec_fn(Axial, Axial) -> bool,
    lane: Seq<Axial>,
) -> bool {
    &&& lane.len() > 0
    &&& fronts.contains(lane.last())
    &&& forall|k: int| 0 <= k < lane.len() ==> sources.contains(#[trigger] lane[k])
    &&& forall|k: int| 0 <= k < lane.len() - 1 ==> !fronts.contains(#[trigger] lane[k])
    &&& forall|k: int|
        0 <= k < lane.len() - 1 ==> lane[k + 1] == shifted(#[trigger] lane[k], direction) && passes(
            lane[k],
            lane[k + 1],
        )
}

/// Two lanes with the same source are the same: no source has a choice of lanes.
pub proof fn law_lane_is_unique(
    sources: Set<Axial>,
    direction: Axial,
    fronts: Set<Axial>,
    passes: spec_fn(Axial, Axial) -> bool,
    a: Seq<Axial>,
    b: Seq<Axial>,
)
    requires
        is_lane(sources, direction, fronts, passes, a),
        is_lane(sources, direction, fronts, passes, b),
        a[0] == b[0],
    ensures
        a == b,
{
    lemma_lanes_agree(sources, direction, fronts, passes, a, b, a.len() - 1);
    lemma_lanes_agree(sources, direction, fronts, passes, b, a, b.len() - 1);
    assert forall|k: int| 0 <= k < a.len() implies #[trigger] a[k] == b[k] by {
        lemma_lanes_agree(sources, direction, fronts, passes, a, b, k);
    }
    assert(a =~= b);
}

proof fn lemma_lanes_agree(
    sources: Set<Axial>,
    direction: Axial,
    fronts: Set<Axial>,
    passes: spec_fn(Axial, Axial) -> bool,
    a: Seq<Axial>,
    b: Seq<Axial>,
    k: int,
)
    requires
        is_lane(sources, direction, fronts, passes, a),
        is_lane(sources, direction, fronts, passes, b),
        a[0] == b[0],
        0 <= k < a.len(),
    ensures
        k < b.len(),
        a[k] == b[k],
    decreases k,
{
    if k > 0 {
        lemma_lanes_agree(sources, direction, fronts, passes, a, b, k - 1);
        assert(!fronts.contains(a[k - 1]));
        assert(k - 1 < b.len() - 1);
        assert(a[k - 1 + 1] == shifted(a[k - 1], direction));
        assert(b[k - 1 + 1] == shifted(b[k - 1], direction));
    }
}

/// The lane of one source, if it has one.
fn lane_of<F>(
    sources: &AxialSet,
    direction: Axial,
    fronts: &AxialSet,
    can_traverse: &F,
    source: Axial,
) -> (lane: Option<Vec<Axial>>) where F: Fn(Axial, Axial) -> bool
    requires
        is_judge(*can_traverse),
        is_direction(direction),
        sources@.contains(source),
        forall|c: Axial| #[trigger] sources@.contains(c) && !fronts@.contains(c) ==> has_room(c, direction),
    ensures
        match lane {
            Some(l) => {
                &&& is_lane(sources@, direction, fronts@, accepts(*can_traverse), l@)
                &&& l@[0] == source
            },
            None => forall|l: Seq<Axial>| #[trigger]
                is_lane(sources@, direction, fronts@, accepts(*can_traverse), l) ==> l[0] != source,
        },
{
    let ghost passes = accepts(*can_traverse);
    let mut current = source;
    let mut route: Vec<Axial> = Vec::new();
    route.push(source);
    while !fronts.contains(current)
        invariant
            is_judge(*can_traverse),
            is_direction(direction),
            passes == accepts(*can_traverse),
            sources@.contains(current),
            route@.len() > 0,
            route@[0] == source,
            route@.last() == current,
            forall|c: Axial| #[trigger]
                sources@.contains(c) && !fronts@.contains(c) ==> has_room(c, direction),
            forall|k: int| 0 <= k < route@.len() ==> sources@.contains(#[trigger] route@[k]),
            forall|k: int| 0 <= k < route@.len() - 1 ==> !fronts@.contains(#[trigger] route@[k]),
            forall|k: int|
                0 <= k < route@.len() - 1 ==> route@[k + 1] == shifted(
                    #[trigger] route@[k],
                    direction,
                ) && passes(route@[k], route@[k + 1]),
            forall|l: Seq<Axial>| #[trigger]
                is_lane(sources@, direction, fronts@, passes, l) && l[0] == source
                    ==> route@.len() <= l.len() && l[route@.len() - 1] == current,
        decreases
                if direction.q == 1 {
                    i32::MAX - current.q
                } else if direction.q == -1 {
                    current.q - i32::MIN
                } else if direction.r == 1 {
                    i32::MAX - current.r
                } else {
                    current.r - i32::MIN
                },
    {
        let next = current + direction;
        let ghost before = route@;
        if !sources.contains(next) || !can_traverse(current, next) {
            assert forall|l: Seq<Axial>| #[trigger]
                is_lane(sources@, direction, fronts@, passes, l) implies l[0] != source by {
                if l[0] == source {
                    let k = before.len() - 1;
                    assert(l[k] == current);
                    assert(k < l.len() - 1);
                    assert(l[k + 1] == shifted(l[k], direction));
                    assert(sources@.contains(l[k + 1]));
                }
            }
            return None;
        }
        route.push(next);
        proof {
            assert forall|k: int| 0 <= k < route@.len() - 1 implies route@[k + 1] == shifted(
                #[trigger] route@[k],
                direction,
            ) && passes(route@[k], route@[k + 1]) by {
                assert(route@[k] == before[k]);
                if k < before.len() - 1 {
                    assert(route@[k + 1] == before[k + 1]);
                }
            }
            assert forall|l: Seq<Axial>| #[trigger]
                is_lane(sources@, direction, fronts@, passes, l) && l[0] == source implies route@.len()
                <= l.len() && l[route@.len() - 1] == next by {
                let k = before.len() - 1;
                assert(l[k] == current);
                assert(k < l.len() - 1);
                assert(l[k + 1] == shifted(l[k], direction));
            }
        }
        current = next;
    }
    Some(route)
}

/// Routes each selected source straight along the commanded direction to an
/// eligible boundary. Sources do not drift sideways into a different lane.
pub fn selected_directional_routes<F>(
    sources: &AxialSet,
    direction: Axial,
    front_sources: &AxialSet,
    can_traverse: F,
) -> (routes: AxialMap<Vec<Axial>>) where F: Fn(Axial, Axial) -> bool
    requires
        is_judge(can_traverse),
        is_direction(direction) ==> forall|c: Axial| #[trigger]
            sources@.contains(c) && !front_sources@.contains(c) ==> has_room(c, direction),
    ensures
        !is_direction(direction) ==> routes@ == Map::<Axial, Vec<Axial>>::empty(),
        forall|c: Axial| #[trigger]
            routes@.contains_key(c) ==> {
                &&& is_lane(
                    sources@,
                    direction,
                    front_sources@,
                    accepts(can_traverse),
                    routes@[c]@,
                )
                &&& routes@[c]@[0] == c
            },
        is_direction(direction) ==> forall|l: Seq<Axial>| #[trigger]
            is_lane(sources@, direction, front_sources@, accepts(can_traverse), l)
                ==> routes@.contains_key(l[0]),
{
    let mut routes: AxialMap<Vec<Axial>> = AxialMap::new();
    if !check_direction(direction) {
        return routes;
    }
    let ghost passes = accepts(can_traverse);
    let listed = sources.to_vec();
    let mut i: usize = 0;
    while i < listed.len()
        invariant
            i <= listed.len(),
            is_judge(can_traverse),
            is_direction(direction),
            passes == accepts(can_traverse),
            listed@.to_set() == sources@,
            forall|c: Axial| #[trigger]
                sources@.contains(c) && !front_sources@.contains(c) ==> has_room(c, direction),
            forall|c: Axial| #[trigger]
                routes@.contains_key(c) ==> is_lane(
                    sources@,
                    direction,
                    front_sources@,
                    passes,
                    routes@[c]@,
                ) && routes@[c]@[0] == c,
            forall|l: Seq<Axial>, j: int| #[trigger]
                is_lane(sources@, direction, front_sources@, passes, l) && 0 <= j < i && l[0]
                    == #[trigger] listed@[j] ==> routes@.contains_key(l[0]),
        decreases listed.len() - i,
    {
        let source = listed[i];
        assert(listed@.to_set().contains(source));
        match lane_of(sources, direction, front_sources, &can_traverse, source) {
            Some(route) => {
                routes.insert(source, route);
            },
            None => {},
        }
        i += 1;
    }
    proof {
        assert forall|l: Seq<Axial>| #[trigger]
            is_lane(sources@, direction, front_sources@, passes, l) implies routes@.contains_key(
            l[0],
        ) by {
            assert(listed@.to_set().contains(l[0]));
            let j = choose|j: int| 0 <= j < listed@.len() && listed@[j] == l[0];
            assert(l[0] == listed@[j]);
        }
    }
    routes
}

/// A set of contact edges, filed by source.
#[derive(Debug, PartialEq, Eq)]
pub struct ContactSet {
    rows: AxialMap<AxialSet>,
}

impl View for ContactSet {
    type V = Set<DirectedFrontEdge>;

    closed spec fn view(&self) -> Set<DirectedFrontEdge> {
        Set::new(
            |e: DirectedFrontEdge|
                self.rows@.contains_key(e.source) && self.rows@[e.source]@.contains(e.target),
        )
    }
}

impl ContactSet {
    pub fn new() -> (set: ContactSet)
        ensures
            set@ == Set::<DirectedFrontEdge>::empty(),
    {
        let set = ContactSet { rows: AxialMap::new() };
        assert(set@ =~= Set::<DirectedFrontEdge>::empty());
        set
    }

    pub fn insert(&mut self, e: DirectedFrontEdge)
        ensures
            final(self)@ == old(self)@.insert(e),
    {
        let mut row = match self.rows.remove(e.source) {
            Some(row) => row,
            None => AxialSet::new(),
        };
        row.insert(e.target);
        self.rows.insert(e.source, row);
        assert(self@ =~= old(self)@.insert(e));
    }

    pub fn remove(&mut self, e: DirectedFrontEdge)
        ensures
            final(self)@ == old(self)@.remove(e),
    {
        match self.rows.remove(e.source) {
            Some(mut row) => {
                row.remove(e.target);
                self.rows.insert(e.source, row);
            },
            None => {},
        }
        assert(self@ =~= old(self)@.remove(e));
    }

    pub fn contains(&self, e: DirectedFrontEdge) -> (found: bool)
        ensures
            found == self@.contains(e),
    {
        match self.rows.get(e.source) {
            Some(row) => row.contains(e.target),
            None => false,
        }
    }

    /// The edges in ascending order.
    pub fn to_vec(&self) -> (listed: Vec<DirectedFrontEdge>)
        ensures
            contacts_ascending(listed@),
            listed@.to_set() == self@,
    {
        let keys = self.rows.keys();
        let mut listed: Vec<DirectedFrontEdge> = Vec::new();
        let mut i: usize = 0;
        while i < keys.len()
            invariant
                i <= keys.len(),
                ascending(keys@),
                keys@.to_set() == self.rows@.dom(),
                contacts_ascending(listed@),
                forall|e: DirectedFrontEdge| #[trigger]
                    listed@.contains(e) <==> self@.contains(e) && exists|j: int|
                        0 <= j < i && #[trigger] keys@[j] == e.source,
            decreases keys.len() - i,
        {
            let source = keys[i];
            assert(keys@.to_set().contains(source));
            let ghost before = listed@;
            match self.rows.get(source) {
                Some(row) => {
                    let targets = row.to_vec();
                    let mut k: usize = 0;
                    while k < targets.len()
                        invariant
                            i < keys.len(),
                            k <= targets.len(),
                            source == keys@[i as int],
                            ascending(keys@),
                            ascending(targets@),
                            contacts_ascending(listed@),
                            forall|e: DirectedFrontEdge| #[trigger]
                                before.contains(e) ==> exists|j: int|
                                    0 <= j < i && #[trigger] keys@[j] == e.source,
                            forall|e: DirectedFrontEdge| #[trigger]
                                listed@.contains(e) <==> before.contains(e) || (e.source == source
                                    && exists|l: int| 0 <= l < k && #[trigger] targets@[l]
                                    == e.target),
                        decreases targets.len() - k,
                    {
                        let e = DirectedFrontEdge { source, target: targets[k] };
                        let ghost mid = listed@;
                        proof {
                            if mid.len() > 0 {
                                assert(mid.contains(mid.last()));
                                if before.contains(mid.last()) {
                                    let j = choose|j: int|
                                        0 <= j < i && #[trigger] keys@[j] == mid.last().source;
                                    assert(axial_lt(keys@[j], keys@[i as int]));
                                } else {
                                    let l = choose|l: int|
                                        0 <= l < k && #[trigger] targets@[l] == mid.last().target;
                                    assert(axial_lt(targets@[l], targets@[k as int]));
                                }
                            }
                            lemma_push_contact(mid, e);
                        }
                        listed.push(e);
                        proof {
                            assert forall|f: DirectedFrontEdge| #[trigger]
                                listed@.contains(f) <==> before.contains(f) || (f.source == source
                                    && exists|l: int| 0 <= l < k + 1 && #[trigger] targets@[l]
                                    == f.target) by {
                                assert(mid.contains(f) <==> before.contains(f) || (f.source
                                    == source && exists|l: int|
                                    0 <= l < k && #[trigger] targets@[l] == f.target));
                                assert(targets@[k as int] == e.target);
                            }
                        }
                        k += 1;
                    }
                    proof {
                        assert forall|e: DirectedFrontEdge| #[trigger]
                            listed@.contains(e) <==> self@.contains(e) && exists|j: int|
                                0 <= j < i + 1 && #[trigger] keys@[j] == e.source by {
                            assert(before.contains(e) <==> self@.contains(e) && exists|j: int|
                                0 <= j < i && #[trigger] keys@[j] == e.source);
                            assert(keys@[i as int] == source);
                            if e.source == source {
                                assert(self@.contains(e) <==> row@.contains(e.target));
                                assert(targets@.to_set().contains(e.target) <==> row@.contains(
                                    e.target,
                                ));
                            }
                        }
                    }
                },
                None => {
                    assert(false);
                },
            }
            i += 1;
        }
        proof {
            assert forall|e: DirectedFrontEdge| listed@.to_set().contains(e) <==> self@.contains(
                e,
            ) by {
                assert(listed@.contains(e) <==> self@.contains(e) && exists|j: int|
                    0 <= j < i && #[trigger] keys@[j] == e.source);
                if self@.contains(e) {
                    assert(keys@.to_set().contains(e.source));
                    let j = choose|j: int| 0 <= j < keys@.len() && keys@[j] == e.source;
                    assert(keys@[j] == e.source);
                }
            }
            assert(listed@.to_set() =~= self@);
        }
        listed
    }
}

/// Derives every eligible outward edge around all selected source regions.
///
/// Unlike [`selected_front_edges`], this operation has no orientation and
/// considers all six sides. Both the source selection and its active boundary
/// may contain disconnected regions; callers route each region independently.
/// Callers decide eligibility, which lets the authoritative simulation restrict
/// expansion to neutral, passable, capturable ground without coupling this pure
/// crate to a particular ownership policy.
pub fn selected_all_front_edges<F>(sources: &AxialSet, target_is_eligible: F) -> (result: Result<
    Vec<DirectedFrontEdge>,
    FrontSelectionError,
>) where F: Fn(Axial, Axial) -> bool
    requires
        is_judge(target_is_eligible),
        forall|c: Axial| #[trigger] sources@.contains(c) ==> c.interior(),
    ensures
        match result {
            Ok(edges) => edges@.len() > 0 && lists(
                edges@,
                faces_outward(sources@, accepts(target_is_eligible)),
            ),
            Err(FrontSelectionError::EmptySelection) => sources@ == Set::<Axial>::empty(),
            Err(FrontSelectionError::InvalidDirection) => false,
            Err(FrontSelectionError::NoEligibleFront) => {
                &&& sources@ != Set::<Axial>::empty()
                &&& forall|e: DirectedFrontEdge|
                    !#[trigger] faces_outward(sources@, accepts(target_is_eligible))(e)
            },
        },
{
    if sources.is_empty() {
        return Err(FrontSelectionError::EmptySelection);
    }
    let ghost faces = faces_outward(sources@, accepts(target_is_eligible));
    let listed = sources.to_vec();
    let mut found = ContactSet::new();
    let mut i: usize = 0;
    while i < listed.len()
        invariant
            i <= listed.len(),
            listed@.to_set() == sources@,
            is_judge(target_is_eligible),
            faces == faces_outward(sources@, accepts(target_is_eligible)),
            forall|c: Axial| #[trigger] sources@.contains(c) ==> c.interior(),
            forall|e: DirectedFrontEdge| #[trigger]
                found@.contains(e) <==> faces(e) && exists|j: int|
                    0 <= j < i && #[trigger] listed@[j] == e.source,
        decreases listed.len() - i,
    {
        let source = listed[i];
        assert(listed@.to_set().contains(source));
        let targets = source.neighbors();
        let ghost before = found@;
        let mut k: usize = 0;
        while k < 6
            invariant
                k <= 6,
                targets@ == Seq::new(6, |d: int| source.step(d)),
                sources@.contains(source),
                source.interior(),
                is_judge(target_is_eligible),
                faces == faces_outward(sources@, accepts(target_is_eligible)),
                forall|e: DirectedFrontEdge| #[trigger]
                    found@.contains(e) <==> before.contains(e) || (faces(e) && e.source == source
                        && exists|d: int| 0 <= d < k && #[trigger] source.step(d) == e.target),
            decreases 6 - k,
        {
            let target = targets[k];
            let ghost mid = found@;
            if !sources.contains(target) && target_is_eligible(source, target) {
                found.insert(DirectedFrontEdge { source, target });
            }
            proof {
                assert(target == source.step(k as int));
                law_adjacent_iff_neighbor(source, target);
                assert forall|e: DirectedFrontEdge| #[trigger]
                    found@.contains(e) <==> before.contains(e) || (faces(e) && e.source == source
                        && exists|d: int| 0 <= d < k + 1 && #[trigger] source.step(d) == e.target) by {
                    assert(mid.contains(e) <==> before.contains(e) || (faces(e) && e.source
                        == source && exists|d: int| 0 <= d < k && #[trigger] source.step(d)
                        == e.target));
                }
            }
            k += 1;
        }
        proof {
            assert forall|e: DirectedFrontEdge| #[trigger]
                found@.contains(e) <==> faces(e) && exists|j: int|
                    0 <= j < i + 1 && #[trigger] listed@[j] == e.source by {
                assert(before.contains(e) <==> faces(e) && exists|j: int|
                    0 <= j < i && #[trigger] listed@[j] == e.source);
                assert(listed@[i as int] == source);
                law_adjacent_iff_neighbor(source, e.target);
            }
        }
        i += 1;
    }
    let edges = found.to_vec();
    proof {
        assert forall|e: DirectedFrontEdge| #[trigger] edges@.contains(e) <==> faces(e) by {
            assert(edges@.to_set().contains(e) <==> found@.contains(e));
            if faces(e) {
                assert(listed@.to_set().contains(e.source));
                let j = choose|j: int| 0 <= j < listed@.len() && listed@[j] == e.source;
                assert(listed@[j] == e.source);
            }
        }
    }
    if edges.len() == 0 {
        assert forall|e: DirectedFrontEdge| !#[trigger] faces(e) by {
            assert(!edges@.contains(e));
        }
        return Err(FrontSelectionError::NoEligibleFront);
    }
    Ok(edges)
}

/// The listed edges whose source is the least among those with their target.
pub open spec fn anchors(edges: Seq<DirectedFrontEdge>) -> spec_fn(DirectedFrontEdge) -> bool {
    |e: DirectedFrontEdge|
        edges.contains(e) && forall|f: DirectedFrontEdge| #[trigger]
            edges.contains(f) && f.target == e.target ==> !axial_lt(f.source, e.source)
}

/// Keeps one deterministic incoming lane for every target cell.
///
/// Concave selections can expose the same outside hex from more than one
/// boundary cell. A stable target anchor must identify exactly one lane, so the
/// lowest source coordinate wins.
pub fn unique_target_front_edges(edges: &[DirectedFrontEdge]) -> (kept: Vec<DirectedFrontEdge>)
    ensures
        lists(kept@, anchors(edges@)),
        forall|i: int, j: int|
            0 <= i < j < kept@.len() ==> (#[trigger] kept@[i]).target != (#[trigger] kept@[j]).target,
        forall|e: DirectedFrontEdge| #[trigger]
            edges@.contains(e) ==> exists|k: int|
                0 <= k < kept@.len() && (#[trigger] kept@[k]).target == e.target,
{
    let mut least: AxialMap<Axial> = AxialMap::new();
    let mut i: usize = 0;
    while i < edges.len()
        invariant
            i <= edges.len(),
            forall|t: Axial| #[trigger]
                least@.contains_key(t) <==> exists|j: int|
                    0 <= j < i && (#[trigger] edges@[j]).target == t,
            forall|t: Axial| #[trigger]
                least@.contains_key(t) ==> edges@.take(i as int).contains(
                    (DirectedFrontEdge { source: least@[t], target: t }),
                ),
            forall|j: int|
                0 <= j < i ==> !axial_lt(
                    (#[trigger] edges@[j]).source,
                    least@[edges@[j].target],
                ),
        decreases edges.len() - i,
    {
        let e = edges[i];
        let ghost before = least@;
        let better = match least.get(e.target) {
            Some(s) => e.source.q < s.q || (e.source.q == s.q && e.source.r < s.r),
            None => true,
        };
        if better {
            least.insert(e.target, e.source);
        }
        proof {
            let s = edges@.take(i as int);
            assert(edges@.take(i + 1) =~= s.push(e));
            lemma_push_contact(s, e);
            assert forall|t: Axial| #[trigger]
                least@.contains_key(t) <==> exists|j: int|
                    0 <= j < i + 1 && (#[trigger] edges@[j]).target == t by {
                assert(before.contains_key(t) <==> exists|j: int|
                    0 <= j < i && (#[trigger] edges@[j]).target == t);
                assert(edges@[i as int] == e);
                if exists|j: int| 0 <= j < i + 1 && (#[trigger] edges@[j]).target == t {
                    let j = choose|j: int| 0 <= j < i + 1 && (#[trigger] edges@[j]).target == t;
                    if j == i {
                        assert(t == e.target);
                    }
                }
            }
            assert forall|t: Axial| #[trigger]
                least@.contains_key(t) implies edges@.take(i + 1).contains(
                (DirectedFrontEdge { source: least@[t], target: t }),
            ) by {
                if t == e.target && better {
                } else {
                    assert(before.contains_key(t));
                }
            }
            assert forall|j: int| 0 <= j < i + 1 implies !axial_lt(
                (#[trigger] edges@[j]).source,
                least@[edges@[j].target],
            ) by {
                if j < i {
                    assert(!axial_lt(edges@[j].source, before[edges@[j].target]));
                }
            }
        }
        i += 1;
    }
    assert(edges@.take(i as int) =~= edges@);
    let targets = least.keys();
    let mut found = ContactSet::new();
    let mut k: usize = 0;
    while k < targets.len()
        invariant
            k <= targets.len(),
            targets@.to_set() == least@.dom(),
            forall|e: DirectedFrontEdge| #[trigger]
                found@.contains(e) <==> least@.contains_key(e.target) && least@[e.target]
                    == e.source && exists|j: int|
                    0 <= j < k && #[trigger] targets@[j] == e.target,
        decreases targets.len() - k,
    {
        let target = targets[k];
        assert(targets@.to_set().contains(target));
        let ghost before = found@;
        match least.get(target) {
            Some(source) => {
                found.insert(DirectedFrontEdge { source: *source, target });
            },
            None => {},
        }
        proof {
            assert forall|e: DirectedFrontEdge| #[trigger]
                found@.contains(e) <==> least@.contains_key(e.target) && least@[e.target]
                    == e.source && exists|j: int|
                    0 <= j < k + 1 && #[trigger] targets@[j] == e.target by {
                assert(before.contains(e) <==> least@.contains_key(e.target) && least@[e.target]
                    == e.source && exists|j: int| 0 <= j < k && #[trigger] targets@[j] == e.target);
                assert(targets@[k as int] == target);
            }
        }
        k += 1;
    }
    let kept = found.to_vec();
    proof {
        assert forall|e: DirectedFrontEdge| #[trigger] kept@.contains(e) <==> least@.contains_key(
            e.target,
        ) && least@[e.target] == e.source by {
            assert(kept@.to_set().contains(e) <==> found@.contains(e));
            if least@.contains_key(e.target) {
                assert(targets@.to_set().contains(e.target));
                let j = choose|j: int| 0 <= j < targets@.len() && targets@[j] == e.target;
                assert(targets@[j] == e.target);
            }
        }
        assert forall|e: DirectedFrontEdge| #[trigger] kept@.contains(e) <==> anchors(edges@)(e) by {
            if kept@.contains(e) {
                assert(least@.contains_key(e.target));
                assert forall|f: DirectedFrontEdge| #[trigger]
                    edges@.contains(f) && f.target == e.target implies !axial_lt(
                    f.source,
                    e.source,
                ) by {
                    let j = choose|j: int| 0 <= j < edges@.len() && edges@[j] == f;
                    assert(!axial_lt(edges@[j].source, least@[edges@[j].target]));
                }
            }
            if anchors(edges@)(e) {
                let j = choose|j: int| 0 <= j < edges@.len() && edges@[j] == e;
                assert(edges@[j].target == e.target);
                assert(least@.contains_key(e.target));
                let f = DirectedFrontEdge { source: least@[e.target], target: e.target };
                assert(edges@.contains(f));
                assert(!axial_lt(edges@[j].source, least@[edges@[j].target]));
            }
        }
        assert forall|i: int, j: int| 0 <= i < j < kept@.len() implies (#[trigger] kept@[i]).target
            != (#[trigger] kept@[j]).target by {
            assert(kept@.contains(kept@[i]));
            assert(kept@.contains(kept@[j]));
            assert(contact_lt(kept@[i], kept@[j]));
        }
        assert forall|e: DirectedFrontEdge| #[trigger] edges@.contains(e) implies exists|k: int|
            0 <= k < kept@.len() && (#[trigger] kept@[k]).target == e.target by {
            let j = choose|j: int| 0 <= j < edges@.len() && edges@[j] == e;
            assert(edges@[j].target == e.target);
            assert(least@.contains_key(e.target));
            let f = DirectedFrontEdge { source: least@[e.target], target: e.target };
            assert(kept@.contains(f));
        }
    }
    kept
}

} // verus!
