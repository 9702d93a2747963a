//! Streams: where the water of each cell runs, and how much of it.
use vstd::prelude::*;
use std::collections::BTreeMap;
use crate::coast::all_open;
use crate::coord::HexDirection;
use crate::flood::direction_at;
use crate::layers::{law_neighbours_are_mutual, law_numbers_are_places, Grid, LayeredWorld};
use crate::noise::{mix, mixed};
use crate::order::{put, sorted_keys};

verus! {

/// Where the next cell of a stream lies, and which it is.
pub type Step = Option<(HexDirection, u32)>;

/// The ground as water sees it.
pub struct Waters {
    pub grid: Grid,
    pub filled: Seq<i16>,
    pub ocean: Seq<bool>,
    pub land: Seq<bool>,
    pub lake: Seq<bool>,
}

impl Waters {
    pub open spec fn is_sound(self) -> bool {
        &&& self.grid.fits()
        &&& self.filled.len() == self.grid.count()
        &&& self.ocean.len() == self.grid.count()
        &&& self.land.len() == self.grid.count()
        &&& self.lake.len() == self.grid.count()
        &&& forall|id: int| 0 <= id < self.grid.count() && #[trigger] self.ocean[id] ==> !self.land[id]
    }

    /// Whether a stream ends in a cell.
    pub open spec fn is_water(self, id: int) -> bool {
        self.ocean[id] || self.lake[id]
    }

    /// Whether water runs on from a cell.
    pub open spec fn sheds(self, id: int) -> bool {
        self.land[id] && !self.lake[id]
    }

    /// Whether water stands lower in one cell than in another; where it stands
    /// at one level the numbers of the cells decide.
    pub open spec fn lower(self, a: int, b: int) -> bool {
        self.filled[a] < self.filled[b] || (self.filled[a] == self.filled[b] && a < b)
    }

    pub open spec fn may_drain(self, id: int, d: int) -> bool {
        &&& 0 <= d < 6
        &&& self.grid.beside(id, d) matches Some(n) && (self.is_water(n) || self.lower(n, id))
    }

    /// Whether one cell takes water sooner than another: open water first, then
    /// the lower.
    pub open spec fn is_sooner(self, a: int, b: int) -> bool {
        if self.is_water(a) == self.is_water(b) {
            self.lower(a, b)
        } else {
            self.is_water(a)
        }
    }

    /// Whether water leaves a cell in a direction.
    pub open spec fn is_outlet(self, id: int, d: int) -> bool {
        &&& self.may_drain(id, d)
        &&& forall|e: int| #[trigger]
            self.may_drain(id, e) && e != d ==> self.is_sooner(
                self.grid.beside(id, d).unwrap(),
                self.grid.beside(id, e).unwrap(),
            )
    }

    pub open spec fn is_step(self, id: int, step: Step) -> bool {
        match step {
            Some((direction, n)) => {
                &&& self.sheds(id)
                &&& self.is_outlet(id, direction.ordinal())
                &&& self.grid.beside(id, direction.ordinal()) == Some(n as int)
                &&& n < self.grid.count()
            },
            None => !self.sheds(id) || forall|d: int| !#[trigger] self.may_drain(id, d),
        }
    }

    /// Whether these are the steps that water takes from each cell.
    pub open spec fn is_downstream(self, down: Seq<Step>) -> bool {
        &&& down.len() == self.grid.count()
        &&& forall|id: int|
            0 <= id < self.grid.count() ==> self.is_step(id, #[trigger] down[id])
    }
}

/// What falls on a cell.
pub open spec fn rain(seed: u64, id: int) -> int {
    1 + mixed(seed, id as i32, 17) % 4
}

/// Whether the neighbour in a direction is among those that count and runs into
/// a cell.
pub open spec fn runs_in(g: Grid, down: Seq<Step>, counted: Seq<bool>, id: int, d: int) -> bool {
    g.beside(id, d) matches Some(n) && counted[n] && (down[n] matches Some((_, m)) && m == id)
}

/// What runs into a cell from its first neighbours.
pub open spec fn gathered(
    g: Grid,
    down: Seq<Step>,
    flow: Seq<u32>,
    counted: Seq<bool>,
    id: int,
    directions: int,
) -> int
    decreases directions,
{
    if directions <= 0 {
        0
    } else {
        gathered(g, down, flow, counted, id, directions - 1) + if runs_in(
            g,
            down,
            counted,
            id,
            directions - 1,
        ) {
            flow[g.beside(id, directions - 1).unwrap()] as int
        } else {
            0
        }
    }
}

pub open spec fn capped_flow(n: int) -> int {
    if n > u32::MAX {
        u32::MAX as int
    } else {
        n
    }
}

/// Whether each cell carries what falls on it and what those that count bring.
pub open spec fn is_flow(
    g: Grid,
    seed: u64,
    down: Seq<Step>,
    flow: Seq<u32>,
    counted: Seq<bool>,
) -> bool {
    &&& flow.len() == g.count()
    &&& forall|id: int|
        0 <= id < g.count() ==> #[trigger] flow[id] == capped_flow(
            rain(seed, id) + gathered(g, down, flow, counted, id, 6),
        )
}

/// Whether each cell carries what falls on it and all that runs into it.
pub open spec fn is_discharge(g: Grid, seed: u64, down: Seq<Step>, flow: Seq<u32>) -> bool {
    is_flow(g, seed, down, flow, all_open(g.count()))
}

/// Whether these cells are those whose water comes to a lake or the sea.
pub open spec fn is_drained(w: Waters, down: Seq<Step>, drains: Seq<bool>) -> bool {
    &&& drains.len() == w.grid.count()
    &&& forall|id: int|
        0 <= id < w.grid.count() ==> #[trigger] drains[id] == drains_on(w, down, drains, id)
}

pub open spec fn drains_on(w: Waters, down: Seq<Step>, drains: Seq<bool>, id: int) -> bool {
    match down[id] {
        Some((_, n)) => w.is_water(n as int) || drains[n as int],
        None => false,
    }
}

/// Water runs to open water or downwards.
pub proof fn law_streams_run_down(w: Waters, down: Seq<Step>, id: int)
    requires
        w.is_sound(),
        w.is_downstream(down),
        0 <= id < w.grid.count(),
        down[id] is Some,
    ensures
        ({
            let n = down[id].unwrap().1 as int;
            &&& 0 <= n < w.grid.count()
            &&& w.is_water(n) || w.lower(n, id)
            &&& w.is_water(n) ==> down[n] is None
        }),
{
    let n = down[id].unwrap().1 as int;
    assert(w.is_step(id, down[id]));
    assert(w.may_drain(id, down[id].unwrap().0.ordinal()));
    if w.is_water(n) {
        assert(w.is_step(n, down[n]));
        assert(!w.sheds(n));
    }
}

/// A stream carries no less than what runs into it.
pub proof fn law_discharge_never_falls(
    g: Grid,
    seed: u64,
    down: Seq<Step>,
    flow: Seq<u32>,
    id: int,
    d: int,
)
    requires
        is_discharge(g, seed, down, flow),
        0 <= id < g.count(),
        0 <= d < 6,
        g.fits(),
        runs_in(g, down, all_open(g.count()), id, d),
    ensures
        flow[g.beside(id, d).unwrap()] <= flow[id],
{
    lemma_gathers(g, down, flow, all_open(g.count()), id, d, 6);
    assert(flow[id] == flow[id]);
}

/// Where water runs is determined by the ground.
pub proof fn law_streams_are_unique(w: Waters, down: Seq<Step>, down2: Seq<Step>)
    requires
        w.is_downstream(down),
        w.is_downstream(down2),
    ensures
        down == down2,
{
    assert forall|id: int| 0 <= id < w.grid.count() implies down[id] == down2[id] by {
        assert(w.is_step(id, down[id]));
        assert(w.is_step(id, down2[id]));
        match (down[id], down2[id]) {
            (Some((a, n)), Some((b, m))) => {
                if a.ordinal() != b.ordinal() {
                    assert(w.may_drain(id, a.ordinal()));
                    assert(w.may_drain(id, b.ordinal()));
                    assert(w.is_sooner(n as int, m as int));
                    assert(w.is_sooner(m as int, n as int));
                }
            },
            (Some((a, _)), None) => {
                assert(w.may_drain(id, a.ordinal()));
            },
            (None, Some((b, _))) => {
                assert(w.may_drain(id, b.ordinal()));
            },
            (None, None) => {},
        }
    }
    assert(down =~= down2);
}

/// What streams carry is determined by where they run and what falls.
pub proof fn law_discharge_is_unique(
    w: Waters,
    seed: u64,
    down: Seq<Step>,
    flow: Seq<u32>,
    flow2: Seq<u32>,
)
    requires
        w.is_sound(),
        w.is_downstream(down),
        is_discharge(w.grid, seed, down, flow),
        is_discharge(w.grid, seed, down, flow2),
    ensures
        flow == flow2,
{
    assert forall|id: int| 0 <= id < w.grid.count() implies flow[id] == flow2[id] by {
        lemma_same_flow(w, seed, down, flow, flow2, id);
    }
    assert(flow =~= flow2);
}

proof fn lemma_same_flow(
    w: Waters,
    seed: u64,
    down: Seq<Step>,
    flow: Seq<u32>,
    flow2: Seq<u32>,
    id: int,
)
    requires
        w.is_sound(),
        w.is_downstream(down),
        is_discharge(w.grid, seed, down, flow),
        is_discharge(w.grid, seed, down, flow2),
        0 <= id < w.grid.count(),
    ensures
        flow[id] == flow2[id],
    decreases
            if w.is_water(id) {
                1int
            } else {
                0
            },
            32_767 - w.filled[id],
            w.grid.count() - id,
{
    let g = w.grid;
    let counted = all_open(g.count());
    assert forall|d: int| 0 <= d < 6 && #[trigger] runs_in(g, down, counted, id, d) implies flow[
    g.beside(id, d).unwrap()] == flow2[g.beside(id, d).unwrap()] by {
        let n = g.beside(id, d).unwrap();
        law_neighbours_are_mutual(g, id, d);
        law_streams_run_down(w, down, n);
        assert(w.is_step(n, down[n]));
        assert(!w.is_water(n));
        lemma_same_flow(w, seed, down, flow, flow2, n);
    }
    lemma_gathered_same(g, down, flow, counted, flow2, counted, id, 6);
    assert(flow[id] == capped_flow(rain(seed, id) + gathered(g, down, flow, counted, id, 6)));
    assert(flow2[id] == capped_flow(rain(seed, id) + gathered(g, down, flow2, counted, id, 6)));
}

/// Which streams come to a lake or the sea is determined by where they run.
pub proof fn law_drainage_is_unique(
    w: Waters,
    down: Seq<Step>,
    drains: Seq<bool>,
    drains2: Seq<bool>,
)
    requires
        w.is_sound(),
        w.is_downstream(down),
        is_drained(w, down, drains),
        is_drained(w, down, drains2),
    ensures
        drains == drains2,
{
    assert forall|id: int| 0 <= id < w.grid.count() implies drains[id] == drains2[id] by {
        lemma_same_drainage(w, down, drains, drains2, id);
    }
    assert(drains =~= drains2);
}

proof fn lemma_same_drainage(
    w: Waters,
    down: Seq<Step>,
    drains: Seq<bool>,
    drains2: Seq<bool>,
    id: int,
)
    requires
        w.is_sound(),
        w.is_downstream(down),
        is_drained(w, down, drains),
        is_drained(w, down, drains2),
        0 <= id < w.grid.count(),
    ensures
        drains[id] == drains2[id],
    decreases w.filled[id] + 32_768, id,
{
    assert(drains[id] == drains_on(w, down, drains, id));
    assert(drains2[id] == drains_on(w, down, drains2, id));
    if down[id] is Some {
        law_streams_run_down(w, down, id);
        let n = down[id].unwrap().1 as int;
        if !w.is_water(n) {
            lemma_same_drainage(w, down, drains, drains2, n);
        }
    }
}

proof fn lemma_gathers(
    g: Grid,
    down: Seq<Step>,
    flow: Seq<u32>,
    counted: Seq<bool>,
    id: int,
    d: int,
    directions: int,
)
    requires
        0 <= d < directions,
        runs_in(g, down, counted, id, d),
    ensures
        gathered(g, down, flow, counted, id, directions) >= flow[g.beside(id, d).unwrap()],
    decreases directions,
{
    if d < directions - 1 {
        lemma_gathers(g, down, flow, counted, id, d, directions - 1);
    } else {
        lemma_gathered_bound(g, down, flow, counted, id, directions - 1);
    }
}

proof fn lemma_gathered_bound(
    g: Grid,
    down: Seq<Step>,
    flow: Seq<u32>,
    counted: Seq<bool>,
    id: int,
    directions: int,
)
    ensures
        0 <= gathered(g, down, flow, counted, id, directions),
    decreases directions,
{
    if directions > 0 {
        lemma_gathered_bound(g, down, flow, counted, id, directions - 1);
    }
}

/// Sums over neighbours whose parts agree agree.
proof fn lemma_gathered_same(
    g: Grid,
    down: Seq<Step>,
    flow: Seq<u32>,
    counted: Seq<bool>,
    flow2: Seq<u32>,
    counted2: Seq<bool>,
    id: int,
    directions: int,
)
    requires
        forall|d: int|
            0 <= d < directions ==> (#[trigger] runs_in(g, down, counted, id, d) <==> runs_in(
                g,
                down,
                counted2,
                id,
                d,
            )),
        forall|d: int|
            0 <= d < directions && #[trigger] runs_in(g, down, counted, id, d) ==> flow[g.beside(
                id,
                d,
            ).unwrap()] == flow2[g.beside(id, d).unwrap()],
    ensures
        gathered(g, down, flow, counted, id, directions) == gathered(
            g,
            down,
            flow2,
            counted2,
            id,
            directions,
        ),
    decreases directions,
{
    if directions > 0 {
        lemma_gathered_same(g, down, flow, counted, flow2, counted2, id, directions - 1);
        assert(runs_in(g, down, counted, id, directions - 1) <==> runs_in(
            g,
            down,
            counted2,
            id,
            directions - 1,
        ));
    }
}

/// One more neighbour that counts adds what it brings.
proof fn lemma_gathered_more(
    g: Grid,
    down: Seq<Step>,
    flow: Seq<u32>,
    counted: Seq<bool>,
    flow2: Seq<u32>,
    counted2: Seq<bool>,
    id: int,
    at: int,
    directions: int,
)
    requires
        0 <= at < directions,
        !runs_in(g, down, counted, id, at),
        runs_in(g, down, counted2, id, at),
        forall|d: int|
            0 <= d < directions && d != at ==> (#[trigger] runs_in(g, down, counted, id, d)
                <==> runs_in(g, down, counted2, id, d)),
        forall|d: int|
            0 <= d < directions && #[trigger] runs_in(g, down, counted, id, d) ==> flow[g.beside(
                id,
                d,
            ).unwrap()] == flow2[g.beside(id, d).unwrap()],
    ensures
        gathered(g, down, flow2, counted2, id, directions) == gathered(
            g,
            down,
            flow,
            counted,
            id,
            directions,
        ) + flow2[g.beside(id, at).unwrap()],
    decreases directions,
{
    if at == directions - 1 {
        lemma_gathered_same(g, down, flow, counted, flow2, counted2, id, directions - 1);
    } else {
        lemma_gathered_more(g, down, flow, counted, flow2, counted2, id, at, directions - 1);
        assert(runs_in(g, down, counted, id, directions - 1) <==> runs_in(
            g,
            down,
            counted2,
            id,
            directions - 1,
        ));
    }
}

/// Neighbours in different directions are different.
pub proof fn lemma_neighbours_differ(g: Grid, id: int, d: int, e: int)
    requires
        g.fits(),
        0 <= id < g.count(),
        0 <= d < 6,
        0 <= e < 6,
        g.beside(id, d) is Some,
        g.beside(id, d) == g.beside(id, e),
    ensures
        d == e,
{
    let c = g.place(id);
    law_numbers_are_places(g, c.step(d), id);
    law_numbers_are_places(g, c.step(e), id);
    assert(c.step(d) == c.step(e));
}

/// A cell passes what it carries on.
proof fn lemma_pass_on(
    w: Waters,
    seed: u64,
    down: Seq<Step>,
    flow: Seq<u32>,
    counted: Seq<bool>,
    c: int,
    flow2: Seq<u32>,
)
    requires
        w.is_sound(),
        w.is_downstream(down),
        counted.len() == w.grid.count(),
        is_flow(w.grid, seed, down, flow, counted),
        0 <= c < w.grid.count(),
        !counted[c],
        forall|a: int| 0 <= a < w.grid.count() && #[trigger] counted[a] ==> w.lower(c, a),
        match down[c] {
            Some((_, n)) => flow2 == flow.update(
                n as int,
                capped_flow(flow[n as int] + flow[c]) as u32,
            ),
            None => flow2 == flow,
        },
    ensures
        is_flow(w.grid, seed, down, flow2, counted.update(c, true)),
{
    let g = w.grid;
    let counted2 = counted.update(c, true);
    if down[c] is Some {
        law_streams_run_down(w, down, c);
    }
    assert forall|id: int| 0 <= id < g.count() implies #[trigger] flow2[id] == capped_flow(
        rain(seed, id) + gathered(g, down, flow2, counted2, id, 6),
    ) by {
        assert(flow[id] == capped_flow(rain(seed, id) + gathered(g, down, flow, counted, id, 6)));
        assert forall|d: int| 0 <= d < 6 && #[trigger] runs_in(g, down, counted, id, d) implies flow[
        g.beside(id, d).unwrap()] == flow2[g.beside(id, d).unwrap()] by {
            let m = g.beside(id, d).unwrap();
            law_neighbours_are_mutual(g, id, d);
            if down[c] is Some && m == down[c].unwrap().1 {
                assert(counted[m]);
                assert(w.lower(c, m));
            }
        }
        assert forall|d: int|
            0 <= d < 6 && !(down[c] is Some && down[c].unwrap().1 == id && g.beside(id, d) == Some(
                c,
            )) implies (#[trigger] runs_in(g, down, counted, id, d) <==> runs_in(
            g,
            down,
            counted2,
            id,
            d,
        )) by {
            if g.beside(id, d) is Some {
                law_neighbours_are_mutual(g, id, d);
            }
        }
        if down[c] is Some && down[c].unwrap().1 == id {
            let o = down[c].unwrap().0.ordinal();
            assert(w.is_step(c, down[c]));
            law_neighbours_are_mutual(g, c, o);
            let at = (o + 3) % 6;
            assert(g.beside(id, at) == Some(c));
            assert forall|d: int| 0 <= d < 6 && d != at implies (#[trigger] runs_in(
                g,
                down,
                counted,
                id,
                d,
            ) <==> runs_in(g, down, counted2, id, d)) by {
                if g.beside(id, d) == Some(c) {
                    lemma_neighbours_differ(g, id, d, at);
                }
            }
            assert(!runs_in(g, down, counted, id, at));
            assert(runs_in(g, down, counted2, id, at));
            lemma_gathered_more(g, down, flow, counted, flow2, counted2, id, at, 6);
            lemma_gathered_bound(g, down, flow, counted, id, 6);
            assert(flow2[c] == flow[c]);
        } else {
            lemma_gathered_same(g, down, flow, counted, flow2, counted2, id, 6);
        }
    }
}

/// Whether these are all cells, the lower ones first.
pub open spec fn is_rising_order(w: Waters, order: Seq<u32>) -> bool {
    &&& forall|i: int| 0 <= i < order.len() ==> (#[trigger] order[i]) < w.grid.count()
    &&& forall|i: int, j: int|
        0 <= i < j < order.len() ==> w.lower(#[trigger] order[i] as int, #[trigger] order[j] as int)
    &&& forall|id: int|
        0 <= id < w.grid.count() ==> #[trigger] order.contains(id as u32)
}

pub open spec fn level_key(filled: Seq<i16>, id: int) -> u64 {
    ((filled[id] + 32_768) * 4_294_967_296 + id) as u64
}

/// Lists all cells, the lower ones first.
fn rising_order(filled: &Vec<i16>, Ghost(w): Ghost<Waters>) -> (order: Vec<u32>)
    requires
        w.is_sound(),
        w.filled == filled@,
    ensures
        is_rising_order(w, order@),
{
    let mut map: BTreeMap<u64, ()> = BTreeMap::new();
    let mut id: usize = 0;
    while id < filled.len()
        invariant
            w.is_sound(),
            w.filled == filled@,
            id <= filled@.len(),
            forall|k: u64| #[trigger]
                map@.contains_key(k) <==> (k % 4_294_967_296) < id && k == level_key(
                    filled@,
                    (k % 4_294_967_296) as int,
                ),
        decreases filled.len() - id,
    {
        let key: u64 = (filled[id] as i64 + 32_768) as u64 * 4_294_967_296 + id as u64;
        assert(key == level_key(filled@, id as int));
        assert(key % 4_294_967_296 == id);
        put(&mut map, key, ());
        id += 1;
    }
    let keys = sorted_keys(&map);
    let mut order: Vec<u32> = Vec::new();
    let mut i: usize = 0;
    while i < keys.len()
        invariant
            i <= keys@.len(),
            order@.len() == i,
            forall|k: int| 0 <= k < i ==> #[trigger] order@[k] == keys@[k] % 4_294_967_296,
        decreases keys.len() - i,
    {
        order.push((keys[i] % 4_294_967_296) as u32);
        i += 1;
    }
    proof {
        assert forall|i: int| 0 <= i < order@.len() implies (#[trigger] order@[i]) < w.grid.count()
            && keys@[i] == level_key(filled@, order@[i] as int) by {
            assert(keys@.to_set().contains(keys@[i]));
            assert(map@.contains_key(keys@[i]));
        }
        assert forall|i: int, j: int| 0 <= i < j < order@.len() implies w.lower(
            #[trigger] order@[i] as int,
            #[trigger] order@[j] as int,
        ) by {
            assert(keys@[i] < keys@[j]);
            assert(keys@[i] == level_key(filled@, order@[i] as int));
            assert(keys@[j] == level_key(filled@, order@[j] as int));
        }
        assert forall|id: int| 0 <= id < w.grid.count() implies #[trigger] order@.contains(
            id as u32,
        ) by {
            let key = level_key(filled@, id);
            assert(key % 4_294_967_296 == id);
            assert(map@.contains_key(key));
            assert(keys@.to_set().contains(key));
            let i = choose|i: int| 0 <= i < keys@.len() && keys@[i] == key;
            assert(order@[i] == id as u32);
        }
    }
    order
}

/// Two different positions of the order hold different cells.
proof fn lemma_order_injective(w: Waters, order: Seq<u32>, i: int, j: int)
    requires
        is_rising_order(w, order),
        0 <= i < order.len(),
        0 <= j < order.len(),
        order[i] == order[j],
    ensures
        i == j,
{
    if i < j {
        assert(w.lower(order[i] as int, order[j] as int));
    }
    if j < i {
        assert(w.lower(order[j] as int, order[i] as int));
    }
}

/// What each cell carries, from the highest down.
fn discharge(
    down: &Vec<Step>,
    order: &Vec<u32>,
    seed: u64,
    Ghost(w): Ghost<Waters>,
) -> (flow: Vec<u32>)
    requires
        w.is_sound(),
        w.is_downstream(down@),
        is_rising_order(w, order@),
    ensures
        is_discharge(w.grid, seed, down@, flow@),
{
    let ghost g = w.grid;
    let count: usize = down.len();
    let ghost mut counted: Seq<bool> = Seq::new(g.count() as nat, |id: int| false);
    let mut flow: Vec<u32> = Vec::new();
    let mut id: usize = 0;
    while id < count
        invariant
            id <= count,
            flow@.len() == id,
            forall|k: int| 0 <= k < id ==> #[trigger] flow@[k] == rain(seed, k),
        decreases count - id,
    {
        flow.push(1 + (mix(seed, id as i32, 17) % 4) as u32);
        id += 1;
    }
    proof {
        assert forall|id: int| 0 <= id < g.count() implies #[trigger] flow@[id] == capped_flow(
            rain(seed, id) + gathered(g, down@, flow@, counted, id, 6),
        ) by {
            lemma_nothing_counts(g, down@, flow@, counted, id, 6);
        }
    }
    let mut i: usize = order.len();
    while i > 0
        invariant
            w.is_sound(),
            g == w.grid,
            w.is_downstream(down@),
            is_rising_order(w, order@),
            i <= order@.len(),
            counted.len() == g.count(),
            is_flow(g, seed, down@, flow@, counted),
            forall|j: int|
                0 <= j < order@.len() ==> counted[(#[trigger] order@[j]) as int] == (i <= j),
        decreases i,
    {
        i -= 1;
        let c: usize = order[i] as usize;
        let ghost before = flow@;
        proof {
            assert forall|a: int| 0 <= a < g.count() && #[trigger] counted[a] implies w.lower(
                c as int,
                a,
            ) by {
                assert(order@.contains(a as u32));
                let j = choose|j: int| 0 <= j < order@.len() && order@[j] == a as u32;
                assert(counted[order@[j] as int] == (i < j));
                assert(w.lower(order@[i as int] as int, order@[j] as int));
            }
        }
        match down[c] {
            Some((_, next)) => {
                proof {
                    law_streams_run_down(w, down@, c as int);
                }
                let n: usize = next as usize;
                let total: u64 = flow[n] as u64 + flow[c] as u64;
                if total > u32::MAX as u64 {
                    flow.set(n, u32::MAX);
                } else {
                    flow.set(n, total as u32);
                }
            },
            None => {},
        }
        proof {
            lemma_pass_on(w, seed, down@, before, counted, c as int, flow@);
            let was = counted;
            counted = counted.update(c as int, true);
            assert forall|j: int| 0 <= j < order@.len() implies counted[(
            #[trigger] order@[j]) as int] == (i <= j) by {
                assert(was[order@[j] as int] == (i < j));
                if order@[j] == order@[i as int] {
                    lemma_order_injective(w, order@, i as int, j);
                }
            }
        }
    }
    proof {
        assert forall|id: int| 0 <= id < g.count() implies counted[id] by {
            assert(order@.contains(id as u32));
            let j = choose|j: int| 0 <= j < order@.len() && order@[j] == id as u32;
            assert(counted[order@[j] as int]);
        }
        assert(counted =~= all_open(g.count()));
    }
    flow
}

proof fn lemma_nothing_counts(
    g: Grid,
    down: Seq<Step>,
    flow: Seq<u32>,
    counted: Seq<bool>,
    id: int,
    directions: int,
)
    requires
        g.fits(),
        counted == Seq::new(g.count() as nat, |i: int| false),
        0 <= id < g.count(),
        directions <= 6,
    ensures
        gathered(g, down, flow, counted, id, directions) == 0,
    decreases directions,
{
    if directions > 0 {
        lemma_nothing_counts(g, down, flow, counted, id, directions - 1);
        if g.beside(id, directions - 1) is Some {
            law_neighbours_are_mutual(g, id, directions - 1);
        }
    }
}

/// Which cells drain to a lake or the sea, from the lowest up.
fn drained(
    down: &Vec<Step>,
    order: &Vec<u32>,
    water: &Vec<bool>,
    Ghost(w): Ghost<Waters>,
) -> (drains: Vec<bool>)
    requires
        w.is_sound(),
        w.is_downstream(down@),
        is_rising_order(w, order@),
        water@.len() == w.grid.count(),
        forall|id: int| 0 <= id < water@.len() ==> #[trigger] water@[id] == w.is_water(id),
    ensures
        is_drained(w, down@, drains@),
{
    let ghost g = w.grid;
    let count: usize = down.len();
    let mut drains: Vec<bool> = Vec::new();
    let mut id: usize = 0;
    while id < count
        invariant
            id <= count,
            drains@.len() == id,
            forall|k: int| 0 <= k < id ==> !#[trigger] drains@[k],
        decreases count - id,
    {
        drains.push(false);
        id += 1;
    }
    let mut i: usize = 0;
    while i < order.len()
        invariant
            w.is_sound(),
            g == w.grid,
            w.is_downstream(down@),
            is_rising_order(w, order@),
            water@.len() == g.count(),
            forall|id: int| 0 <= id < water@.len() ==> #[trigger] water@[id] == w.is_water(id),
            i <= order@.len(),
            drains@.len() == g.count(),
            forall|j: int|
                0 <= j < i ==> drains@[(#[trigger] order@[j]) as int] == drains_on(
                    w,
                    down@,
                    drains@,
                    order@[j] as int,
                ),
        decreases order.len() - i,
    {
        let c: usize = order[i] as usize;
        let ghost before = drains@;
        match down[c] {
            Some((_, next)) => {
                proof {
                    law_streams_run_down(w, down@, c as int);
                }
                let n: usize = next as usize;
                drains.set(c, water[n] || drains[n]);
            },
            None => {
                drains.set(c, false);
            },
        }
        proof {
            assert forall|j: int| 0 <= j < i + 1 implies drains@[(#[trigger] order@[j]) as int]
                == drains_on(w, down@, drains@, order@[j] as int) by {
                let a = order@[j] as int;
                if j < i {
                    assert(w.lower(order@[j] as int, order@[i as int] as int));
                    assert(drains@[a] == before[a]);
                    if down@[a] is Some {
                        law_streams_run_down(w, down@, a);
                        let n = down@[a].unwrap().1 as int;
                        if n == c {
                            assert(w.is_water(n));
                        }
                    }
                } else {
                    if down@[a] is Some {
                        law_streams_run_down(w, down@, a);
                    }
                }
            }
        }
        i += 1;
    }
    proof {
        assert forall|id: int| 0 <= id < g.count() implies #[trigger] drains@[id] == drains_on(
            w,
            down@,
            drains@,
            id,
        ) by {
            assert(order@.contains(id as u32));
            let j = choose|j: int| 0 <= j < order@.len() && order@[j] == id as u32;
            assert(drains@[order@[j] as int] == drains_on(w, down@, drains@, order@[j] as int));
        }
    }
    drains
}

/// The step that water takes from a cell.
fn step_from(
    world: &LayeredWorld,
    filled: &Vec<i16>,
    water: &Vec<bool>,
    id: u32,
    Ghost(w): Ghost<Waters>,
) -> (step: Step)
    requires
        world.is_laid_out(),
        w.is_sound(),
        w.grid == world.grid(),
        w.filled == filled@,
        water@.len() == w.grid.count(),
        forall|i: int| 0 <= i < water@.len() ==> #[trigger] water@[i] == w.is_water(i),
        id < w.grid.count(),
        w.sheds(id as int),
    ensures
        w.is_step(id as int, step),
{
    let ghost g = w.grid;
    let mut best: Step = None;
    let mut d: usize = 0;
    while d < 6
        invariant
            world.is_laid_out(),
            w.is_sound(),
            g == w.grid,
            w.grid == world.grid(),
            w.filled == filled@,
            water@.len() == g.count(),
            forall|i: int| 0 <= i < water@.len() ==> #[trigger] water@[i] == w.is_water(i),
            id < g.count(),
            d <= 6,
            match best {
                Some((direction, n)) => {
                    &&& direction.ordinal() < d
                    &&& w.may_drain(id as int, direction.ordinal())
                    &&& g.beside(id as int, direction.ordinal()) == Some(n as int)
                    &&& n < g.count()
                    &&& forall|e: int| #[trigger]
                        w.may_drain(id as int, e) && e < d && e != direction.ordinal()
                            ==> w.is_sooner(n as int, g.beside(id as int, e).unwrap())
                },
                None => forall|e: int| #[trigger] w.may_drain(id as int, e) ==> e >= d,
            },
        decreases 6 - d,
    {
        let direction = direction_at(d);
        match world.neighbor_id(id, direction) {
            Some(next) => {
                let n: usize = next as usize;
                let i: usize = id as usize;
                let wet: bool = water[n];
                if wet || filled[n] < filled[i] || (filled[n] == filled[i] && next < id) {
                    assert(w.may_drain(id as int, d as int));
                    match best {
                        Some((chosen, b)) => {
                            let other: usize = b as usize;
                            let sooner: bool = if wet == water[other] {
                                filled[n] < filled[other] || (filled[n] == filled[other] && next
                                    < b)
                            } else {
                                wet
                            };
                            proof {
                                if next == b {
                                    lemma_neighbours_differ(
                                        g,
                                        id as int,
                                        d as int,
                                        chosen.ordinal(),
                                    );
                                }
                                assert(sooner == w.is_sooner(next as int, b as int));
                                assert(!sooner ==> w.is_sooner(b as int, next as int));
                            }
                            if sooner {
                                best = Some((direction, next));
                            }
                        },
                        None => {
                            best = Some((direction, next));
                        },
                    }
                } else {
                    assert(!w.may_drain(id as int, d as int));
                }
            },
            None => {
                assert(!w.may_drain(id as int, d as int));
            },
        }
        d += 1;
    }
    best
}

/// The streams of a world.
pub struct Streams {
    pub down: Vec<Step>,
    pub flow: Vec<u32>,
    pub drains: Vec<bool>,
}

impl Streams {
    /// Whether these are the streams of some ground.
    pub open spec fn are_of(&self, w: Waters, seed: u64) -> bool {
        &&& w.is_downstream(self.down@)
        &&& is_discharge(w.grid, seed, self.down@, self.flow@)
        &&& is_drained(w, self.down@, self.drains@)
    }
}

impl LayeredWorld {
    /// Traces the streams of a world with its water at some levels.
    pub fn streams(
        &self,
        filled: &Vec<i16>,
        ocean: &Vec<bool>,
        land: &Vec<bool>,
        lake: &Vec<bool>,
        seed: u64,
    ) -> (streams: Streams)
        requires
            self.is_laid_out(),
            (Waters {
                grid: self.grid(),
                filled: filled@,
                ocean: ocean@,
                land: land@,
                lake: lake@,
            }).is_sound(),
        ensures
            streams.are_of(
                Waters {
                    grid: self.grid(),
                    filled: filled@,
                    ocean: ocean@,
                    land: land@,
                    lake: lake@,
                },
                seed,
            ),
    {
        let ghost w = Waters {
            grid: self.grid(),
            filled: filled@,
            ocean: ocean@,
            land: land@,
            lake: lake@,
        };
        let count: usize = self.cells.len();
        let mut water: Vec<bool> = Vec::new();
        let mut i: usize = 0;
        while i < count
            invariant
                i <= count,
                count == w.grid.count(),
                w.is_sound(),
                w.ocean == ocean@,
                w.lake == lake@,
                water@.len() == i,
                forall|k: int| 0 <= k < i ==> #[trigger] water@[k] == w.is_water(k),
            decreases count - i,
        {
            water.push(ocean[i] || lake[i]);
            i += 1;
        }
        let mut down: Vec<Step> = Vec::new();
        let mut id: u32 = 0;
        while (id as usize) < count
            invariant
                self.is_laid_out(),
                id <= count,
                count == w.grid.count(),
                w.is_sound(),
                w.grid == self.grid(),
                w.filled == filled@,
                w.land == land@,
                w.lake == lake@,
                water@.len() == count,
                forall|k: int| 0 <= k < water@.len() ==> #[trigger] water@[k] == w.is_water(k),
                down@.len() == id,
                forall|k: int| 0 <= k < id ==> w.is_step(k, #[trigger] down@[k]),
            decreases count - id,
        {
            if land[id as usize] && !lake[id as usize] {
                let step = step_from(self, filled, &water, id, Ghost(w));
                down.push(step);
            } else {
                down.push(None);
            }
            id += 1;
        }
        let order = rising_order(filled, Ghost(w));
        let flow = discharge(&down, &order, seed, Ghost(w));
        let drains = drained(&down, &order, &water, Ghost(w));
        Streams { down, flow, drains }
    }
}

} // verus!
