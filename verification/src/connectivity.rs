//! Ground-connected components of selected cells.
use vstd::prelude::*;
use crate::axials::{ascending, lemma_ascending_unique, AxialSet};
use crate::coord::{adjacent, axial_lt, law_adjacent_iff_neighbor, Axial};
use crate::map::{ground_traversal, traversable, Cell, HexMap, MovementConfig, PlayerId, TerrainKind};

verus! {

/// The selected coordinates that name a passable cell of the map.
pub open spec fn eligible(cells: Map<Axial, Cell>, selection: Set<Axial>) -> Set<Axial> {
    selection.filter(
        |c: Axial| cells.contains_key(c) && cells[c].terrain != TerrainKind::Water,
    )
}

/// Whether ground forces may step between two coordinates.
pub open spec fn joined(
    cells: Map<Axial, Cell>,
    movement: MovementConfig,
    a: Axial,
    b: Axial,
) -> bool {
    adjacent(a, b) && traversable(cells[a], cells[b], movement)
}

/// A sequence of joined cells that stays in a region.
pub open spec fn is_walk(
    cells: Map<Axial, Cell>,
    movement: MovementConfig,
    region: Set<Axial>,
    p: Seq<Axial>,
) -> bool {
    &&& p.len() > 0
    &&& forall|i: int| 0 <= i < p.len() ==> region.contains(#[trigger] p[i])
    &&& forall|i: int|
        0 <= i < p.len() - 1 ==> joined(cells, movement, #[trigger] p[i], p[i + 1])
}

/// Whether a walk inside the region leads from one cell to another.
pub open spec fn connected(
    cells: Map<Axial, Cell>,
    movement: MovementConfig,
    region: Set<Axial>,
    a: Axial,
    b: Axial,
) -> bool {
    exists|p: Seq<Axial>| #[trigger]
        is_walk(cells, movement, region, p) && p[0] == a && p.last() == b
}

/// The list of the connected components of a region, each in ascending order,
/// in ascending order of their first cells.
pub open spec fn is_component_list(
    cells: Map<Axial, Cell>,
    movement: MovementConfig,
    region: Set<Axial>,
    list: Seq<Seq<Axial>>,
) -> bool {
    &&& forall|i: int| 0 <= i < list.len() ==> (#[trigger] list[i]).len() > 0 && ascending(list[i])
    &&& forall|i: int, j: int|
        0 <= i < j < list.len() ==> axial_lt((#[trigger] list[i])[0], (#[trigger] list[j])[0])
    &&& forall|c: Axial| #[trigger]
        region.contains(c) <==> exists|i: int| 0 <= i < list.len() && (#[trigger] list[i]).contains(
            c,
        )
    &&& forall|i: int, a: Axial, b: Axial|
        0 <= i < list.len() && #[trigger] list[i].contains(a) && #[trigger] region.contains(b) ==> (
        list[i].contains(b) <==> connected(cells, movement, region, a, b))
}

/// The contents of nested vectors.
pub open spec fn contents(list: Seq<Vec<Axial>>) -> Seq<Seq<Axial>> {
    list.map_values(|v: Vec<Axial>| v@)
}

proof fn lemma_reversed_walk(
    cells: Map<Axial, Cell>,
    movement: MovementConfig,
    region: Set<Axial>,
    a: Axial,
    b: Axial,
)
    requires
        connected(cells, movement, region, a, b),
    ensures
        connected(cells, movement, region, b, a),
{
    let p = choose|p: Seq<Axial>| #[trigger]
        is_walk(cells, movement, region, p) && p[0] == a && p.last() == b;
    let q = p.reverse();
    assert forall|i: int| 0 <= i < q.len() - 1 implies joined(
        cells,
        movement,
        #[trigger] q[i],
        q[i + 1],
    ) by {
        let j = p.len() - 2 - i;
        assert(joined(cells, movement, p[j], p[j + 1]));
    }
    assert(is_walk(cells, movement, region, q));
}

proof fn lemma_joined_walks(
    cells: Map<Axial, Cell>,
    movement: MovementConfig,
    region: Set<Axial>,
    a: Axial,
    b: Axial,
    c: Axial,
)
    requires
        connected(cells, movement, region, a, b),
        connected(cells, movement, region, b, c),
    ensures
        connected(cells, movement, region, a, c),
{
    let p = choose|p: Seq<Axial>| #[trigger]
        is_walk(cells, movement, region, p) && p[0] == a && p.last() == b;
    let q = choose|q: Seq<Axial>| #[trigger]
        is_walk(cells, movement, region, q) && q[0] == b && q.last() == c;
    let w = p + q.drop_first();
    assert forall|i: int| 0 <= i < w.len() - 1 implies joined(
        cells,
        movement,
        #[trigger] w[i],
        w[i + 1],
    ) by {
        if i < p.len() - 1 {
            assert(joined(cells, movement, p[i], p[i + 1]));
        } else {
            let j = i - (p.len() - 1);
            assert(joined(cells, movement, q[j], q[j + 1]));
            assert(w[i] == q[j]);
        }
    }
    assert forall|i: int| 0 <= i < w.len() implies region.contains(#[trigger] w[i]) by {
        if i >= p.len() {
            assert(w[i] == q[i - p.len() + 1]);
        }
    }
    assert(is_walk(cells, movement, region, w));
    assert(w.last() == c);
}

/// Cells that hold one end of a link hold every cell that a walk reaches.
proof fn lemma_walk_stays(
    cells: Map<Axial, Cell>,
    movement: MovementConfig,
    region: Set<Axial>,
    class: Set<Axial>,
    p: Seq<Axial>,
)
    requires
        is_walk(cells, movement, region, p),
        class.contains(p[0]),
        forall|x: Axial, y: Axial|
            class.contains(x) && region.contains(y) && #[trigger] joined(cells, movement, x, y)
                ==> class.contains(y),
    ensures
        class.contains(p.last()),
    decreases p.len(),
{
    if p.len() > 1 {
        let q = p.drop_last();
        assert forall|i: int| 0 <= i < q.len() - 1 implies joined(
            cells,
            movement,
            #[trigger] q[i],
            q[i + 1],
        ) by {
            assert(joined(cells, movement, p[i], p[i + 1]));
        }
        lemma_walk_stays(cells, movement, region, class, q);
        let k = p.len() - 2;
        assert(joined(cells, movement, p[k], p[k + 1]));
    }
}

/// Connection is an equivalence on the cells of a region.
pub proof fn law_connection_is_an_equivalence(
    cells: Map<Axial, Cell>,
    movement: MovementConfig,
    region: Set<Axial>,
    a: Axial,
    b: Axial,
    c: Axial,
)
    ensures
        region.contains(a) ==> connected(cells, movement, region, a, a),
        connected(cells, movement, region, a, b) ==> connected(cells, movement, region, b, a),
        connected(cells, movement, region, a, b) && connected(cells, movement, region, b, c)
            ==> connected(cells, movement, region, a, c),
{
    if region.contains(a) {
        let p = seq![a];
        assert(is_walk(cells, movement, region, p));
        assert(p.last() == a);
    }
    if connected(cells, movement, region, a, b) {
        lemma_reversed_walk(cells, movement, region, a, b);
        if connected(cells, movement, region, b, c) {
            lemma_joined_walks(cells, movement, region, a, b, c);
        }
    }
}

/// The component list of a region is unique.
pub proof fn law_component_list_is_unique(
    cells: Map<Axial, Cell>,
    movement: MovementConfig,
    region: Set<Axial>,
    s: Seq<Seq<Axial>>,
    t: Seq<Seq<Axial>>,
)
    requires
        is_component_list(cells, movement, region, s),
        is_component_list(cells, movement, region, t),
    ensures
        s == t,
{
    let heads_s = s.map_values(|v: Seq<Axial>| v[0]);
    let heads_t = t.map_values(|v: Seq<Axial>| v[0]);
    assert(ascending(heads_s));
    assert(ascending(heads_t));
    assert forall|x: Axial| heads_s.to_set().contains(x) implies heads_t.to_set().contains(x) by {
        lemma_same_head(cells, movement, region, s, t, x);
    }
    assert forall|x: Axial| heads_t.to_set().contains(x) implies heads_s.to_set().contains(x) by {
        lemma_same_head(cells, movement, region, t, s, x);
    }
    assert(heads_s.to_set() =~= heads_t.to_set());
    lemma_ascending_unique(heads_s, heads_t);
    assert forall|i: int| 0 <= i < s.len() implies s[i] == t[i] by {
        assert(heads_s[i] == heads_t[i]);
        let h = s[i][0];
        assert(s[i].contains(h));
        assert(t[i].contains(h));
        assert forall|x: Axial| s[i].to_set().contains(x) <==> t[i].to_set().contains(x) by {
            if s[i].contains(x) {
                assert(region.contains(x));
                assert(t[i].contains(x));
            }
            if t[i].contains(x) {
                assert(region.contains(x));
                assert(s[i].contains(x));
            }
        }
        assert(s[i].to_set() =~= t[i].to_set());
        lemma_ascending_unique(s[i], t[i]);
    }
    assert(s.len() == heads_s.len() && t.len() == heads_t.len());
    assert(s =~= t);
}

proof fn lemma_same_head(
    cells: Map<Axial, Cell>,
    movement: MovementConfig,
    region: Set<Axial>,
    s: Seq<Seq<Axial>>,
    t: Seq<Seq<Axial>>,
    x: Axial,
)
    requires
        is_component_list(cells, movement, region, s),
        is_component_list(cells, movement, region, t),
        s.map_values(|v: Seq<Axial>| v[0]).contains(x),
    ensures
        t.map_values(|v: Seq<Axial>| v[0]).contains(x),
{
    let heads_s = s.map_values(|v: Seq<Axial>| v[0]);
    let heads_t = t.map_values(|v: Seq<Axial>| v[0]);
    let i = choose|i: int| 0 <= i < heads_s.len() && heads_s[i] == x;
    assert(s[i].contains(x));
    assert(region.contains(x));
    let j = choose|j: int| 0 <= j < t.len() && (#[trigger] t[j]).contains(x);
    let y = t[j][0];
    assert(t[j].contains(y));
    assert(region.contains(y));
    assert(connected(cells, movement, region, x, y));
    assert(s[i].contains(y));
    let k = choose|k: int| 0 <= k < s[i].len() && s[i][k] == y;
    let l = choose|l: int| 0 <= l < t[j].len() && t[j][l] == x;
    if k > 0 {
        assert(axial_lt(s[i][0], s[i][k]));
    }
    if l > 0 {
        assert(axial_lt(t[j][0], t[j][l]));
    }
    assert(x == y);
    assert(heads_t[j] == x);
}

/// Splits a selected set into deterministic ground-traversable components.
///
/// Missing cells and impassable cells are omitted. Coordinates within each
/// component and the component list itself are returned in ascending order.
pub fn connected_components(map: &HexMap, selection: &[Axial], movement: &MovementConfig) -> (list:
    Vec<Vec<Axial>>)
    requires
        forall|c: Axial| #[trigger]
            eligible(map@, selection@.to_set()).contains(c) ==> c.interior(),
    ensures
        is_component_list(
            map@,
            *movement,
            eligible(map@, selection@.to_set()),
            contents(list@),
        ),
{
    let ghost region = eligible(map@, selection@.to_set());
    let mut remaining = AxialSet::new();
    let mut i: usize = 0;
    while i < selection.len()
        invariant
            i <= selection.len(),
            forall|c: Axial| #[trigger]
                remaining@.contains(c) <==> map@.contains_key(c) && map@[c].terrain
                    != TerrainKind::Water && exists|k: int|
                    0 <= k < i && #[trigger] selection@[k] == c,
        decreases selection.len() - i,
    {
        let c = selection[i];
        match map.get(c) {
            Some(cell) => {
                if cell.terrain.ground_passable() {
                    remaining.insert(c);
                }
            },
            None => {},
        }
        assert(selection@[i as int] == c);
        i += 1;
    }
    proof {
        assert forall|c: Axial| remaining@.contains(c) <==> region.contains(c) by {
            if region.contains(c) {
                assert(selection@.contains(c));
                let k = choose|k: int| 0 <= k < selection@.len() && selection@[k] == c;
                assert(selection@[k] == c);
            }
        }
        assert(remaining@ =~= region);
    }
    let mut list: Vec<Vec<Axial>> = Vec::new();
    let mut left: usize = remaining.len();
    loop
        invariant
            remaining@.subset_of(region),
            remaining@.finite(),
            remaining@.len() == left,
            forall|c: Axial| #[trigger] region.contains(c) ==> c.interior(),
            region == eligible(map@, selection@.to_set()),
            forall|i: int|
                0 <= i < list@.len() ==> (#[trigger] list@[i])@.len() > 0 && ascending(list@[i]@),
            forall|i: int, j: int|
                0 <= i < j < list@.len() ==> axial_lt(
                    (#[trigger] list@[i])@[0],
                    (#[trigger] list@[j])@[0],
                ),
            forall|i: int, c: Axial|
                0 <= i < list@.len() && #[trigger] remaining@.contains(c) ==> axial_lt(
                    (#[trigger] list@[i])@[0],
                    c,
                ),
            forall|c: Axial| #[trigger]
                region.contains(c) <==> remaining@.contains(c) || exists|i: int|
                    0 <= i < list@.len() && (#[trigger] list@[i])@.contains(c),
            forall|i: int, c: Axial|
                0 <= i < list@.len() && #[trigger] list@[i]@.contains(c) ==> !remaining@.contains(
                    c,
                ),
            forall|i: int, a: Axial, b: Axial|
                0 <= i < list@.len() && #[trigger] list@[i]@.contains(a) && #[trigger] region.contains(
                    b,
                ) ==> (list@[i]@.contains(b) <==> connected(map@, *movement, region, a, b)),
        decreases left,
    {
        let ghost before = remaining@;
        let seed = match remaining.pop_first() {
            Some(seed) => seed,
            None => {
                proof {
                    let view = contents(list@);
                    assert forall|c: Axial| #[trigger] region.contains(c) <==> exists|i: int|
                        0 <= i < view.len() && (#[trigger] view[i]).contains(c) by {
                        if region.contains(c) {
                            let i = choose|i: int|
                                0 <= i < list@.len() && (#[trigger] list@[i])@.contains(c);
                            assert(view[i].contains(c));
                        }
                        if exists|i: int| 0 <= i < view.len() && (#[trigger] view[i]).contains(c) {
                            let i = choose|i: int|
                                0 <= i < view.len() && (#[trigger] view[i]).contains(c);
                            assert(list@[i]@.contains(c));
                        }
                    }
                    assert forall|i: int, a: Axial, b: Axial|
                        0 <= i < view.len() && #[trigger] view[i].contains(a)
                            && #[trigger] region.contains(b) implies (view[i].contains(b)
                        <==> connected(map@, *movement, region, a, b)) by {
                        assert(list@[i]@.contains(a));
                    }
                }
                return list;
            },
        };
        assert forall|x: Axial, y: Axial|
            before.contains(x) && region.contains(y) && #[trigger] connected(
                map@,
                *movement,
                region,
                x,
                y,
            ) implies before.contains(y) by {
            if !before.contains(y) {
                let i = choose|i: int| 0 <= i < list@.len() && (#[trigger] list@[i])@.contains(y);
                lemma_reversed_walk(map@, *movement, region, x, y);
                assert(list@[i]@.contains(x));
            }
        }
        let component = collect_component(
            map,
            movement,
            seed,
            &mut remaining,
            Ghost(region),
            Ghost(before),
        );
        let ghost earlier = list@;
        list.push(component);
        left = remaining.len();
        proof {
            let n = earlier.len() as int;
            assert(list@[n] == component);
            assert forall|i: int| 0 <= i < n implies list@[i] == earlier[i] by {}
            assert(component@.to_set().contains(seed));
            let s = choose|s: int| 0 <= s < component@.len() && component@[s] == seed;
            assert(component@[0] == seed) by {
                if s > 0 {
                    assert(axial_lt(component@[0], component@[s]));
                    assert(component@.to_set().contains(component@[0]));
                    assert(before.contains(component@[0]));
                }
            }
            assert(remaining@.subset_of(before));
            assert(remaining@.subset_of(before.remove(seed)));
            vstd::set_lib::lemma_len_subset(remaining@, before.remove(seed));
            assert forall|i: int, j: int| 0 <= i < j < list@.len() implies axial_lt(
                (#[trigger] list@[i])@[0],
                (#[trigger] list@[j])@[0],
            ) by {
                if j == n {
                    assert(before.contains(seed));
                    assert(axial_lt(earlier[i]@[0], seed));
                } else {
                    assert(axial_lt(earlier[i]@[0], earlier[j]@[0]));
                }
            }
            assert forall|i: int, c: Axial|
                0 <= i < list@.len() && #[trigger] remaining@.contains(c) implies axial_lt(
                (#[trigger] list@[i])@[0],
                c,
            ) by {
                assert(before.contains(c));
                if i < n {
                    assert(axial_lt(earlier[i]@[0], c));
                } else {
                    assert(c != seed);
                }
            }
            assert forall|c: Axial| #[trigger]
                region.contains(c) <==> remaining@.contains(c) || exists|i: int|
                    0 <= i < list@.len() && (#[trigger] list@[i])@.contains(c) by {
                if region.contains(c) && !remaining@.contains(c) {
                    if before.contains(c) {
                        assert(component@.to_set().contains(c));
                        assert(list@[n]@.contains(c));
                    } else {
                        let i = choose|i: int|
                            0 <= i < earlier.len() && (#[trigger] earlier[i])@.contains(c);
                        assert(list@[i]@.contains(c));
                    }
                }
                if exists|i: int| 0 <= i < list@.len() && (#[trigger] list@[i])@.contains(c) {
                    let i = choose|i: int|
                        0 <= i < list@.len() && (#[trigger] list@[i])@.contains(c);
                    if i < n {
                        assert(earlier[i]@.contains(c));
                    } else {
                        assert(component@.to_set().contains(c));
                    }
                }
            }
            assert forall|i: int, c: Axial|
                0 <= i < list@.len() && #[trigger] list@[i]@.contains(
                    c,
                ) implies !remaining@.contains(c) by {
                if i < n {
                    assert(earlier[i]@.contains(c));
                } else {
                    assert(component@.to_set().contains(c));
                }
            }
            assert forall|i: int, a: Axial, b: Axial|
                0 <= i < list@.len() && #[trigger] list@[i]@.contains(a) && #[trigger] region.contains(
                    b,
                ) implies (list@[i]@.contains(b) <==> connected(map@, *movement, region, a, b)) by {
                if i < n {
                    assert(earlier[i]@.contains(a));
                } else {
                    assert(component@.to_set().contains(a));
                    assert(component@.contains(b) <==> component@.to_set().contains(b));
                    law_connection_is_an_equivalence(map@, *movement, region, seed, a, b);
                    law_connection_is_an_equivalence(map@, *movement, region, a, seed, b);
                }
            }
        }
    }
}

/// Takes everything that is connected to the seed out of the remaining cells.
fn collect_component(
    map: &HexMap,
    movement: &MovementConfig,
    seed: Axial,
    remaining: &mut AxialSet,
    Ghost(region): Ghost<Set<Axial>>,
    Ghost(before): Ghost<Set<Axial>>,
) -> (component: Vec<Axial>)
    requires
        before.contains(seed),
        before.finite(),
        before.subset_of(region),
        old(remaining)@ == before.remove(seed),
        forall|c: Axial| #[trigger]
            region.contains(c) ==> c.interior() && map@.contains_key(c),
        forall|x: Axial, y: Axial|
            before.contains(x) && region.contains(y) && #[trigger] connected(
                map@,
                *movement,
                region,
                x,
                y,
            ) ==> before.contains(y),
    ensures
        ascending(component@),
        component@.len() > 0,
        component@.to_set().contains(seed),
        forall|c: Axial| #[trigger]
            component@.to_set().contains(c) <==> region.contains(c) && connected(
                map@,
                *movement,
                region,
                seed,
                c,
            ),
        final(remaining)@ == before.difference(component@.to_set()),
        component@.to_set().subset_of(before),
{
    let mut found: Vec<Axial> = vec![seed];
    let mut head: usize = 0;
    proof {
        law_connection_is_an_equivalence(map@, *movement, region, seed, seed, seed);
        assert(found@ =~= seq![seed]);
        assert forall|c: Axial| found@.contains(c) implies c == seed by {}
        assert(found@[0] == seed);
        assert(found@.contains(seed));
        assert(remaining@ =~= before.difference(found@.to_set()));
    }
    while head < found.len()
        invariant
            head <= found.len(),
            found@.len() > 0,
            found@[0] == seed,
            before.finite(),
            before.subset_of(region),
            forall|c: Axial| #[trigger]
                region.contains(c) ==> c.interior() && map@.contains_key(c),
            forall|x: Axial, y: Axial|
                before.contains(x) && region.contains(y) && #[trigger] connected(
                    map@,
                    *movement,
                    region,
                    x,
                    y,
                ) ==> before.contains(y),
            remaining@ == before.difference(found@.to_set()),
            forall|k: int|
                0 <= k < found@.len() ==> before.contains(#[trigger] found@[k]) && connected(
                    map@,
                    *movement,
                    region,
                    seed,
                    found@[k],
                ),
            forall|k: int, y: Axial|
                0 <= k < head && region.contains(y) && #[trigger] joined(
                    map@,
                    *movement,
                    found@[k],
                    y,
                ) ==> found@.contains(y),
        decreases remaining@.len() + (found.len() - head),
    {
        let current = found[head];
        assert(region.contains(current));
        let from = match map.get(current) {
            Some(cell) => cell,
            None => {
                assert(false);
                return found;
            },
        };
        let neighbors = current.neighbors();
        let mut i: usize = 0;
        let ghost size = remaining@.len() + (found.len() - head);
        while i < 6
            invariant
                i <= 6,
                head < found.len(),
                found@.len() > 0,
                found@[0] == seed,
                found@[head as int] == current,
                region.contains(current),
                current.interior(),
                *from == map@[current],
                neighbors@ == Seq::new(6, |k: int| current.step(k)),
                before.finite(),
                before.subset_of(region),
                forall|c: Axial| #[trigger]
                    region.contains(c) ==> c.interior() && map@.contains_key(c),
                forall|x: Axial, y: Axial|
                    before.contains(x) && region.contains(y) && #[trigger] connected(
                        map@,
                        *movement,
                        region,
                        x,
                        y,
                    ) ==> before.contains(y),
                remaining@ == before.difference(found@.to_set()),
                forall|k: int|
                    0 <= k < found@.len() ==> before.contains(#[trigger] found@[k]) && connected(
                        map@,
                        *movement,
                        region,
                        seed,
                        found@[k],
                    ),
                forall|k: int, y: Axial|
                    0 <= k < head && region.contains(y) && #[trigger] joined(
                        map@,
                        *movement,
                        found@[k],
                        y,
                    ) ==> found@.contains(y),
                forall|k: int|
                    0 <= k < i && region.contains(#[trigger] current.step(k)) && joined(
                        map@,
                        *movement,
                        current,
                        current.step(k),
                    ) ==> found@.contains(current.step(k)),
                remaining@.len() + (found.len() - head) <= size,
            decreases 6 - i,
        {
            let z = neighbors[i];
            let ghost was = found@;
            let ghost left = remaining@;
            assert(z == current.step(i as int));
            proof {
                law_adjacent_iff_neighbor(current, z);
            }
            if remaining.contains(z) {
                match map.get(z) {
                    Some(to) => {
                        if ground_traversal(from, to, movement).is_some() {
                            remaining.remove(z);
                            found.push(z);
                            proof {
                                crate::axials::lemma_to_set_push(was, z);
                                assert(remaining@ =~= before.difference(found@.to_set()));
                                assert(left.finite());
                                assert(found@[was.len() as int] == z);
                                let w = seq![current, z];
                                assert(is_walk(map@, *movement, region, w));
                                assert(w.last() == z);
                                assert(connected(map@, *movement, region, current, z));
                                lemma_joined_walks(map@, *movement, region, seed, current, z);
                                assert forall|y: Axial| was.contains(y) implies found@.contains(
                                    y,
                                ) by {
                                    let k = choose|k: int| 0 <= k < was.len() && was[k] == y;
                                    assert(found@[k] == y);
                                }
                                assert forall|k: int| 0 <= k < found@.len() implies before.contains(
                                    #[trigger] found@[k],
                                ) && connected(map@, *movement, region, seed, found@[k]) by {
                                    if k < was.len() {
                                        assert(found@[k] == was[k]);
                                    }
                                }
                                assert forall|k: int, y: Axial|
                                    0 <= k < head && region.contains(y) && #[trigger] joined(
                                        map@,
                                        *movement,
                                        found@[k],
                                        y,
                                    ) implies found@.contains(y) by {
                                    assert(joined(map@, *movement, was[k], y));
                                }
                            }
                        }
                    },
                    None => {
                        assert(false);
                    },
                }
            }
            proof {
                if region.contains(z) && joined(map@, *movement, current, z) && !found@.contains(
                    z,
                ) {
                    let w = seq![current, z];
                    assert(is_walk(map@, *movement, region, w));
                    assert(w.last() == z);
                    assert(connected(map@, *movement, region, current, z));
                    assert(before.contains(z));
                    assert(remaining@.contains(z));
                    assert(false);
                }
            }
            i += 1;
        }
        proof {
            assert forall|k: int, y: Axial|
                0 <= k < head + 1 && region.contains(y) && #[trigger] joined(
                    map@,
                    *movement,
                    found@[k],
                    y,
                ) implies found@.contains(y) by {
                if k == head {
                    law_adjacent_iff_neighbor(current, y);
                    let j = choose|j: int| 0 <= j < 6 && #[trigger] current.step(j) == y;
                    assert(region.contains(current.step(j)));
                }
            }
        }
        head += 1;
    }
    let set = AxialSet::from_slice(found.as_slice());
    let component = set.to_vec();
    proof {
        let class = found@.to_set();
        assert forall|x: Axial, y: Axial|
            class.contains(x) && region.contains(y) && #[trigger] joined(
                map@,
                *movement,
                x,
                y,
            ) implies class.contains(y) by {
            let k = choose|k: int| 0 <= k < found@.len() && found@[k] == x;
            assert(joined(map@, *movement, found@[k], y));
        }
        assert(found@.contains(found@[0]));
        assert forall|c: Axial| #[trigger]
            component@.to_set().contains(c) <==> region.contains(c) && connected(
                map@,
                *movement,
                region,
                seed,
                c,
            ) by {
            if component@.to_set().contains(c) {
                assert(found@.contains(c));
                let k = choose|k: int| 0 <= k < found@.len() && found@[k] == c;
                assert(before.contains(found@[k]));
            }
            if region.contains(c) && connected(map@, *movement, region, seed, c) {
                let p = choose|p: Seq<Axial>| #[trigger]
                    is_walk(map@, *movement, region, p) && p[0] == seed && p.last() == c;
                lemma_walk_stays(map@, *movement, region, class, p);
            }
        }
        assert forall|c: Axial| component@.to_set().contains(c) implies before.contains(c) by {
            assert(found@.contains(c));
            let k = choose|k: int| 0 <= k < found@.len() && found@[k] == c;
            assert(before.contains(found@[k]));
        }
        if component@.len() == 0 {
            assert(component@.to_set().contains(seed));
        }
    }
    component
}

/// The coordinates of the cells that a player owns.
pub open spec fn owned_by(cells: Map<Axial, Cell>, owner: PlayerId) -> Set<Axial> {
    Set::new(
        |c: Axial|
            exists|k: Axial| #[trigger]
                cells.contains_key(k) && cells[k].owner == Some(owner) && cells[k].coordinate == c,
    )
}

/// The ground-connected components of a player's cells.
pub fn owned_components(map: &HexMap, owner: PlayerId, movement: &MovementConfig) -> (list: Vec<
    Vec<Axial>,
>)
    requires
        forall|c: Axial| #[trigger]
            eligible(map@, owned_by(map@, owner)).contains(c) ==> c.interior(),
    ensures
        is_component_list(
            map@,
            *movement,
            eligible(map@, owned_by(map@, owner)),
            contents(list@),
        ),
{
    let cells = map.cells();
    let listed = map.coordinates();
    let mut selection: Vec<Axial> = Vec::new();
    let mut i: usize = 0;
    while i < cells.len()
        invariant
            i <= cells.len(),
            cells@.len() == listed@.len(),
            forall|j: int| 0 <= j < cells@.len() ==> *(#[trigger] cells@[j]) == map@[listed@[j]],
            forall|c: Axial| #[trigger]
                selection@.contains(c) <==> exists|j: int|
                    0 <= j < i && map@[#[trigger] listed@[j]].owner == Some(owner)
                        && map@[listed@[j]].coordinate == c,
        decreases cells.len() - i,
    {
        let cell = cells[i];
        let ghost was = selection@;
        let mine = match cell.owner {
            Some(o) => o == owner,
            None => false,
        };
        if mine {
            selection.push(cell.coordinate);
            assert forall|c: Axial| #[trigger]
                selection@.contains(c) <==> was.contains(c) || c == cell.coordinate by {
                if was.contains(c) {
                    let k = choose|k: int| 0 <= k < was.len() && was[k] == c;
                    assert(selection@[k] == c);
                }
                assert(selection@[was.len() as int] == cell.coordinate);
            }
        }
        assert(*cell == map@[listed@[i as int]]);
        i += 1;
    }
    proof {
        assert forall|c: Axial| selection@.to_set().contains(c) <==> owned_by(
            map@,
            owner,
        ).contains(c) by {
            if selection@.contains(c) {
                let j = choose|j: int|
                    0 <= j < listed@.len() && map@[#[trigger] listed@[j]].owner == Some(owner)
                        && map@[listed@[j]].coordinate == c;
                assert(listed@.to_set().contains(listed@[j]));
                assert(map@.contains_key(listed@[j]));
            }
            if owned_by(map@, owner).contains(c) {
                let k = choose|k: Axial| #[trigger]
                    map@.contains_key(k) && map@[k].owner == Some(owner) && map@[k].coordinate
                        == c;
                assert(listed@.to_set().contains(k));
                let j = choose|j: int| 0 <= j < listed@.len() && listed@[j] == k;
                assert(map@[listed@[j]].owner == Some(owner));
            }
        }
        assert(selection@.to_set() =~= owned_by(map@, owner));
    }
    connected_components(map, selection.as_slice(), movement)
}

} // verus!
