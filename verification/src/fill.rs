//! Water levels: how high water must rise in a cell to run off to the sea.
use vstd::prelude::*;
use crate::agenda::{entry_lt, Agenda};
use crate::coast::all_open;
use crate::coord::Axial;
use crate::flood::{beside_each_other, direction_at, is_path};
use crate::layers::{law_neighbours_are_mutual, Grid, LayeredWorld, Surface};

verus! {

/// The elevations of a world.
pub open spec fn elevations(world: LayeredWorld) -> Seq<i16> {
    Seq::new(world.layers().len(), |id: int| world.layers()[id].elevation)
}

/// Where a world has sea.
pub open spec fn ocean_mask(world: LayeredWorld) -> Seq<bool> {
    Seq::new(world.layers().len(), |id: int| world.layers()[id].surface == Surface::Ocean)
}

/// The highest elevation on a path.
pub open spec fn peak(elev: Seq<i16>, path: Seq<int>) -> int
    decreases path.len(),
{
    if path.len() == 0 {
        i16::MIN as int
    } else if elev[path[0]] > peak(elev, path.skip(1)) {
        elev[path[0]] as int
    } else {
        peak(elev, path.skip(1))
    }
}

/// Whether a path leads from a cell to the sea.
pub open spec fn is_runoff(g: Grid, ocean: Seq<bool>, id: int, path: Seq<int>) -> bool {
    &&& is_path(g, all_open(g.count()), path)
    &&& path.first() == id
    &&& ocean[path.last()]
}

/// Whether some way to the sea stays at or below a level.
pub open spec fn runs_off_at(g: Grid, elev: Seq<i16>, ocean: Seq<bool>, id: int, level: int) -> bool {
    exists|path: Seq<int>| #[trigger] is_runoff(g, ocean, id, path) && peak(elev, path) <= level
}

/// Whether a level is the least at which water runs off from a cell to the sea.
pub open spec fn is_level(g: Grid, elev: Seq<i16>, ocean: Seq<bool>, id: int, level: int) -> bool {
    &&& runs_off_at(g, elev, ocean, id, level)
    &&& forall|path: Seq<int>| #[trigger] is_runoff(g, ocean, id, path) ==> level <= peak(elev, path)
}

/// Whether these are the water levels of all cells; one that no way leads from
/// to the sea keeps its elevation.
pub open spec fn is_filled(g: Grid, elev: Seq<i16>, ocean: Seq<bool>, filled: Seq<i16>) -> bool {
    &&& filled.len() == g.count()
    &&& forall|id: int|
        0 <= id < g.count() ==> {
            ||| is_level(g, elev, ocean, id, #[trigger] filled[id] as int)
            ||| filled[id] == elev[id] && forall|path: Seq<int>| !is_runoff(g, ocean, id, path)
        }
}

/// The water levels are determined.
pub proof fn law_levels_are_unique(
    g: Grid,
    elev: Seq<i16>,
    ocean: Seq<bool>,
    filled: Seq<i16>,
    filled2: Seq<i16>,
)
    requires
        is_filled(g, elev, ocean, filled),
        is_filled(g, elev, ocean, filled2),
    ensures
        filled == filled2,
{
    assert forall|id: int| 0 <= id < g.count() implies filled[id] == filled2[id] by {
        if is_level(g, elev, ocean, id, filled[id] as int) {
            let path = choose|path: Seq<int>| #[trigger]
                is_runoff(g, ocean, id, path) && peak(elev, path) <= filled[id] as int;
            assert(is_level(g, elev, ocean, id, filled2[id] as int));
            let path2 = choose|path: Seq<int>| #[trigger]
                is_runoff(g, ocean, id, path) && peak(elev, path) <= filled2[id] as int;
            assert(is_runoff(g, ocean, id, path));
            assert(is_runoff(g, ocean, id, path2));
        } else {
            assert(!is_level(g, elev, ocean, id, filled2[id] as int)) by {
                if is_level(g, elev, ocean, id, filled2[id] as int) {
                    let path2 = choose|path: Seq<int>| #[trigger]
                        is_runoff(g, ocean, id, path) && peak(elev, path) <= filled2[id] as int;
                    assert(!is_runoff(g, ocean, id, path2));
                }
            }
        }
    }
    assert(filled =~= filled2);
}

/// Water stands nowhere below the ground, and at sea on the ground.
pub proof fn law_levels_cover_the_ground(
    g: Grid,
    elev: Seq<i16>,
    ocean: Seq<bool>,
    filled: Seq<i16>,
    id: int,
)
    requires
        is_filled(g, elev, ocean, filled),
        0 <= id < g.count(),
    ensures
        elev[id] <= filled[id],
        ocean[id] ==> filled[id] == elev[id],
{
    if is_level(g, elev, ocean, id, filled[id] as int) {
        let path = choose|path: Seq<int>| #[trigger]
            is_runoff(g, ocean, id, path) && peak(elev, path) <= filled[id] as int;
        assert(elev[path[0]] <= peak(elev, path));
    }
    if ocean[id] {
        let here = seq![id];
        assert(is_path(g, all_open(g.count()), here));
        assert(here.last() == id);
        assert(is_runoff(g, ocean, id, here));
        lemma_peak_of_one(elev, id);
    }
}

proof fn lemma_peak_of_one(elev: Seq<i16>, id: int)
    ensures
        peak(elev, seq![id]) == elev[id],
{
    let here = seq![id];
    assert(here.skip(1) =~= Seq::<int>::empty());
    assert(peak(elev, here.skip(1)) == i16::MIN);
}

/// A part of a path that reaches to its end is no higher.
proof fn lemma_peak_suffix(elev: Seq<i16>, path: Seq<int>, j: int)
    requires
        0 <= j <= path.len(),
    ensures
        peak(elev, path.skip(j)) <= peak(elev, path),
    decreases j,
{
    if j == 0 {
        assert(path.skip(0) =~= path);
    } else {
        lemma_peak_suffix(elev, path, j - 1);
        assert(path.skip(j - 1).skip(1) =~= path.skip(j));
    }
}

/// The agenda entry of a cell.
pub open spec fn entry(filled: Seq<i16>, id: int) -> (u64, u64, Axial) {
    ((filled[id] + 32_768) as u64, id as u64, Axial { q: 0, r: 0 })
}

pub open spec fn all_visited(g: Grid, visited: Seq<bool>, id: int, directions: int) -> bool {
    forall|d: int|
        0 <= d < directions ==> (#[trigger] g.beside(id, d) matches Some(n) ==> visited[n])
}

/// What holds while the water rises: visited cells have their level, waiting
/// ones are no lower than the last, and those that are done have their
/// neighbours visited.
#[verifier::opaque]
spec fn is_rising(
    g: Grid,
    elev: Seq<i16>,
    ocean: Seq<bool>,
    visited: Seq<bool>,
    filled: Seq<i16>,
    queue: Set<(u64, u64, Axial)>,
    last: int,
    busy: int,
    directions: int,
) -> bool {
    &&& visited.len() == g.count()
    &&& filled.len() == g.count()
    &&& forall|id: int|
        0 <= id < g.count() ==> if #[trigger] visited[id] {
            is_level(g, elev, ocean, id, filled[id] as int)
        } else {
            filled[id] == elev[id] && !ocean[id]
        }
    &&& forall|e: (u64, u64, Axial)| #[trigger]
        queue.contains(e) ==> {
            &&& e.1 < g.count()
            &&& visited[e.1 as int]
            &&& e == entry(filled, e.1 as int)
            &&& filled[e.1 as int] >= last
            &&& e.1 != busy
        }
    &&& forall|id: int|
        0 <= id < g.count() && id != busy && #[trigger] visited[id] && !queue.contains(
            entry(filled, id),
        ) ==> all_visited(g, visited, id, 6)
    &&& 0 <= busy ==> {
        &&& busy < g.count()
        &&& visited[busy]
        &&& filled[busy] == last
        &&& all_visited(g, visited, busy, directions)
    }
}

/// Every way to the sea from a cell that is not visited yet is as high as the
/// last level.
proof fn lemma_way_is_high(
    g: Grid,
    elev: Seq<i16>,
    ocean: Seq<bool>,
    visited: Seq<bool>,
    filled: Seq<i16>,
    queue: Set<(u64, u64, Axial)>,
    last: int,
    busy: int,
    directions: int,
    path: Seq<int>,
    j: int,
)
    requires
        g.fits(),
        is_rising(g, elev, ocean, visited, filled, queue, last, busy, directions),
        is_path(g, all_open(g.count()), path),
        ocean[path.last()],
        0 <= j < path.len(),
        !visited[path[j]],
    ensures
        last <= peak(elev, path),
        busy >= 0 || queue.len() > 0 || !queue.finite(),
    decreases path.len() - j,
{
    reveal(is_rising);
    let open = all_open(g.count());
    assert(0 <= path[j] < g.count());
    if j == path.len() - 1 {
        assert(visited[path[j]]);
    } else if !visited[path[j + 1]] {
        lemma_way_is_high(
            g,
            elev,
            ocean,
            visited,
            filled,
            queue,
            last,
            busy,
            directions,
            path,
            j + 1,
        );
    } else {
        let a = path[j];
        let b = path[j + 1];
        assert(beside_each_other(g, path[j + 1 - 1], path[j + 1]));
        let d = choose|d: int| 0 <= d < 6 && #[trigger] g.beside(a, d) == Some(b);
        law_neighbours_are_mutual(g, a, d);
        assert(g.beside(b, (d + 3) % 6) == Some(a));
        assert(!all_visited(g, visited, b, 6));
        assert(b == busy || queue.contains(entry(filled, b)));
        if b != busy {
            let e = entry(filled, b);
            assert(queue.contains(e));
            if queue.finite() && queue.len() == 0 {
                assert(queue =~= Set::empty());
            }
        }
        assert(filled[b] >= last);
        let rest = path.skip(j + 1);
        assert forall|i: int| 0 < i < rest.len() implies beside_each_other(
            g,
            rest[i - 1],
            #[trigger] rest[i],
        ) by {
            assert(beside_each_other(g, path[j + i], path[j + 1 + i]));
        }
        assert(is_path(g, open, rest));
        assert(is_runoff(g, ocean, b, rest));
        assert(is_level(g, elev, ocean, b, filled[b] as int));
        lemma_peak_suffix(elev, path, j + 1);
    }
}

pub open spec fn higher(a: i16, b: int) -> int {
    if a > b {
        a as int
    } else {
        b
    }
}

/// A cell that is visited from a neighbour has its level.
proof fn lemma_new_level(
    g: Grid,
    elev: Seq<i16>,
    ocean: Seq<bool>,
    visited: Seq<bool>,
    filled: Seq<i16>,
    queue: Set<(u64, u64, Axial)>,
    last: int,
    busy: int,
    d: int,
    n: int,
    level: i16,
)
    requires
        g.fits(),
        elev.len() == g.count(),
        is_rising(g, elev, ocean, visited, filled, queue, last, busy, d),
        0 <= busy < g.count(),
        0 <= d < 6,
        g.beside(busy, d) == Some(n),
        0 <= n < g.count(),
        !visited[n],
        level == higher(elev[n], last),
    ensures
        is_level(g, elev, ocean, n, level as int),
{
    assert(visited[busy] && filled[busy] == last && is_level(
        g,
        elev,
        ocean,
        busy,
        filled[busy] as int,
    )) by {
        reveal(is_rising);
    }
    let path = choose|path: Seq<int>| #[trigger]
        is_runoff(g, ocean, busy, path) && peak(elev, path) <= last;
    let longer = seq![n] + path;
    law_neighbours_are_mutual(g, busy, d);
    assert forall|i: int| 0 < i < longer.len() implies beside_each_other(
        g,
        longer[i - 1],
        #[trigger] longer[i],
    ) by {
        if i == 1 {
            assert(g.beside(n, (d + 3) % 6) == Some(busy));
        } else {
            assert(longer[i] == path[i - 1]);
            assert(longer[i - 1] == path[i - 2]);
            assert(beside_each_other(g, path[i - 2], path[i - 1]));
        }
    }
    assert forall|i: int| 0 <= i < longer.len() implies 0 <= #[trigger] longer[i] < g.count()
        && all_open(g.count())[longer[i]] by {
        if i > 0 {
            assert(longer[i] == path[i - 1]);
        }
    }
    assert(is_path(g, all_open(g.count()), longer));
    assert(longer.last() == path.last());
    assert(is_runoff(g, ocean, n, longer));
    assert(longer.skip(1) =~= path);
    assert(peak(elev, longer) <= level);
    assert forall|p: Seq<int>| #[trigger] is_runoff(g, ocean, n, p) implies level <= peak(
        elev,
        p,
    ) by {
        lemma_way_is_high(g, elev, ocean, visited, filled, queue, last, busy, d, p, 0);
        assert(p[0] == n);
        assert(elev[n] <= peak(elev, p));
    }
}

/// To visit a further cell leaves the others visited.
proof fn lemma_more_visited(g: Grid, visited: Seq<bool>, n: int, id: int, directions: int)
    requires
        g.fits(),
        visited.len() == g.count(),
        0 <= n < g.count(),
        0 <= id < g.count(),
        directions <= 6,
        all_visited(g, visited, id, directions),
    ensures
        all_visited(g, visited.update(n, true), id, directions),
{
    assert forall|d: int| 0 <= d < directions implies (#[trigger] g.beside(id, d) matches Some(m)
        ==> visited.update(n, true)[m]) by {
        if g.beside(id, d) is Some {
            law_neighbours_are_mutual(g, id, d);
        }
    }
}

/// A cell is visited from a neighbour.
proof fn lemma_visit(
    g: Grid,
    elev: Seq<i16>,
    ocean: Seq<bool>,
    visited: Seq<bool>,
    filled: Seq<i16>,
    queue: Set<(u64, u64, Axial)>,
    last: int,
    busy: int,
    d: int,
    n: int,
    level: i16,
)
    requires
        g.fits(),
        elev.len() == g.count(),
        is_rising(g, elev, ocean, visited, filled, queue, last, busy, d),
        0 <= busy < g.count(),
        0 <= d < 6,
        g.beside(busy, d) == Some(n),
        0 <= n < g.count(),
        !visited[n],
        level == higher(elev[n], last),
    ensures
        is_rising(
            g,
            elev,
            ocean,
            visited.update(n, true),
            filled.update(n, level),
            queue.insert(entry(filled.update(n, level), n)),
            last,
            busy,
            d + 1,
        ),
{
    let visited2 = visited.update(n, true);
    let filled2 = filled.update(n, level);
    let queue2 = queue.insert(entry(filled2, n));
    lemma_new_level(g, elev, ocean, visited, filled, queue, last, busy, d, n, level);
    reveal(is_rising);
    assert forall|id: int|
        0 <= id < g.count() && id != busy && #[trigger] visited2[id] && !queue2.contains(
            entry(filled2, id),
        ) implies all_visited(g, visited2, id, 6) by {
        assert(id != n);
        assert(entry(filled2, id) == entry(filled, id));
        assert(visited[id]);
        lemma_more_visited(g, visited, n, id, 6);
    }
    lemma_more_visited(g, visited, n, busy, d);
    assert(all_visited(g, visited2, busy, d + 1));
    assert forall|e: (u64, u64, Axial)| #[trigger] queue2.contains(e) implies {
        &&& e.1 < g.count()
        &&& visited2[e.1 as int]
        &&& e == entry(filled2, e.1 as int)
        &&& filled2[e.1 as int] >= last
        &&& e.1 != busy
    } by {
        if e != entry(filled2, n) {
            assert(queue.contains(e));
            assert(e.1 != n);
        }
    }
    assert forall|id: int| 0 <= id < g.count() implies if #[trigger] visited2[id] {
        is_level(g, elev, ocean, id, filled2[id] as int)
    } else {
        filled2[id] == elev[id] && !ocean[id]
    } by {
        if id != n {
            assert(visited2[id] == visited[id]);
        }
    }
}

proof fn lemma_skip(
    g: Grid,
    elev: Seq<i16>,
    ocean: Seq<bool>,
    visited: Seq<bool>,
    filled: Seq<i16>,
    queue: Set<(u64, u64, Axial)>,
    last: int,
    busy: int,
    d: int,
)
    requires
        is_rising(g, elev, ocean, visited, filled, queue, last, busy, d),
        0 <= d < 6,
        g.beside(busy, d) matches Some(n) ==> visited[n],
    ensures
        is_rising(g, elev, ocean, visited, filled, queue, last, busy, d + 1),
{
    reveal(is_rising);
}

proof fn lemma_done(
    g: Grid,
    elev: Seq<i16>,
    ocean: Seq<bool>,
    visited: Seq<bool>,
    filled: Seq<i16>,
    queue: Set<(u64, u64, Axial)>,
    last: int,
    busy: int,
)
    requires
        is_rising(g, elev, ocean, visited, filled, queue, last, busy, 6),
    ensures
        is_rising(g, elev, ocean, visited, filled, queue, last, -1, 0),
{
    reveal(is_rising);
}

proof fn lemma_pop(
    g: Grid,
    elev: Seq<i16>,
    ocean: Seq<bool>,
    visited: Seq<bool>,
    filled: Seq<i16>,
    queue: Set<(u64, u64, Axial)>,
    last: int,
    e: (u64, u64, Axial),
)
    requires
        g.fits(),
        is_rising(g, elev, ocean, visited, filled, queue, last, -1, 0),
        queue.contains(e),
        forall|f: (u64, u64, Axial)| #[trigger] queue.contains(f) && f != e ==> entry_lt(e, f),
    ensures
        0 <= e.1 < g.count(),
        e == entry(filled, e.1 as int),
        is_rising(
            g,
            elev,
            ocean,
            visited,
            filled,
            queue.remove(e),
            filled[e.1 as int] as int,
            e.1 as int,
            0,
        ),
{
    reveal(is_rising);
    let queue2 = queue.remove(e);
    let id = e.1 as int;
    assert forall|f: (u64, u64, Axial)| #[trigger] queue2.contains(f) implies {
        &&& f.1 < g.count()
        &&& visited[f.1 as int]
        &&& f == entry(filled, f.1 as int)
        &&& filled[f.1 as int] >= filled[id]
        &&& f.1 != id
    } by {
        assert(queue.contains(f));
        assert(entry_lt(e, f));
    }
    assert forall|i: int|
        0 <= i < g.count() && i != id && #[trigger] visited[i] && !queue2.contains(
            entry(filled, i),
        ) implies all_visited(g, visited, i, 6) by {
        assert(entry(filled, i) != e);
    }
}

/// When nothing waits, all that runs off is visited.
proof fn lemma_settled(
    g: Grid,
    elev: Seq<i16>,
    ocean: Seq<bool>,
    visited: Seq<bool>,
    filled: Seq<i16>,
    queue: Set<(u64, u64, Axial)>,
    last: int,
)
    requires
        g.fits(),
        is_rising(g, elev, ocean, visited, filled, queue, last, -1, 0),
        queue == Set::<(u64, u64, Axial)>::empty(),
    ensures
        is_filled(g, elev, ocean, filled),
{
    assert forall|id: int| 0 <= id < g.count() implies {
        ||| is_level(g, elev, ocean, id, #[trigger] filled[id] as int)
        ||| filled[id] == elev[id] && forall|path: Seq<int>| !is_runoff(g, ocean, id, path)
    } by {
        if visited[id] {
            reveal(is_rising);
        } else {
            assert forall|path: Seq<int>| !is_runoff(g, ocean, id, path) by {
                if is_runoff(g, ocean, id, path) {
                    lemma_way_is_high(
                        g,
                        elev,
                        ocean,
                        visited,
                        filled,
                        queue,
                        last,
                        -1,
                        0,
                        path,
                        0,
                    );
                }
            }
            reveal(is_rising);
        }
    }
    reveal(is_rising);
}

/// The sea stands at its own elevation.
proof fn lemma_sea(g: Grid, elev: Seq<i16>, ocean: Seq<bool>, id: int)
    requires
        0 <= id < g.count(),
        ocean[id],
    ensures
        is_level(g, elev, ocean, id, elev[id] as int),
{
    let here = seq![id];
    assert(is_path(g, all_open(g.count()), here));
    assert(here.last() == id);
    lemma_peak_of_one(elev, id);
    assert(is_runoff(g, ocean, id, here));
    assert forall|path: Seq<int>| #[trigger] is_runoff(g, ocean, id, path) implies elev[id] <= peak(
        elev,
        path,
    ) by {
        assert(path[0] == id);
    }
}

/// The marks and levels with which the water starts to rise, and the cells that
/// wait.
struct Rising {
    visited: Vec<bool>,
    filled: Vec<i16>,
    queue: Agenda,
}

fn start(world: &LayeredWorld) -> (rising: Rising)
    requires
        world.is_laid_out(),
    ensures
        is_rising(
            world.grid(),
            elevations(*world),
            ocean_mask(*world),
            rising.visited@,
            rising.filled@,
            rising.queue@,
            i16::MIN as int,
            -1,
            0,
        ),
{
    let ghost g = world.grid();
    let ghost elev = elevations(*world);
    let ghost ocean = ocean_mask(*world);
    let mut visited: Vec<bool> = Vec::new();
    let mut filled: Vec<i16> = Vec::new();
    let mut queue = Agenda::new();
    let mut id: usize = 0;
    while id < world.cells.len()
        invariant
            world.is_laid_out(),
            elev == elevations(*world),
            ocean == ocean_mask(*world),
            id <= world.cells@.len(),
            visited@ =~= ocean.take(id as int),
            filled@ =~= elev.take(id as int),
            forall|e: (u64, u64, Axial)| #[trigger]
                queue@.contains(e) <==> e.1 < id && ocean[e.1 as int] && e == entry(
                    elev,
                    e.1 as int,
                ),
        decreases world.cells.len() - id,
    {
        let height: i16 = world.cells[id].elevation;
        let sea: bool = world.cells[id].surface == Surface::Ocean;
        visited.push(sea);
        filled.push(height);
        if sea {
            queue.insert((height as i32 + 32_768) as u64, id as u64, Axial { q: 0, r: 0 });
            assert(entry(elev, id as int) == ((height + 32_768) as u64, id as u64, Axial {
                q: 0,
                r: 0,
            }));
        }
        id += 1;
    }
    proof {
        assert(visited@ =~= ocean);
        assert(filled@ =~= elev);
        assert forall|id: int| 0 <= id < g.count() implies if #[trigger] visited@[id] {
            is_level(g, elev, ocean, id, filled@[id] as int)
        } else {
            filled@[id] == elev[id] && !ocean[id]
        } by {
            if ocean[id] {
                lemma_sea(g, elev, ocean, id);
            }
        }
        assert forall|id: int| 0 <= id < g.count() && ocean[id] implies queue@.contains(
            #[trigger] entry(filled@, id),
        ) by {
            let e = entry(filled@, id);
            assert(e.1 == id);
        }
        reveal(is_rising);
    }
    Rising { visited, filled, queue }
}

impl LayeredWorld {
    /// The least levels at which water runs off from the cells to the sea.
    pub fn fill(&self) -> (filled: Vec<i16>)
        requires
            self.is_laid_out(),
        ensures
            is_filled(self.grid(), elevations(*self), ocean_mask(*self), filled@),
    {
        let ghost g = self.grid();
        let ghost elev = elevations(*self);
        let ghost ocean = ocean_mask(*self);
        let Rising { visited, filled, queue } = start(self);
        let mut visited = visited;
        let mut filled = filled;
        let mut queue = queue;
        let ghost mut last: int = i16::MIN as int;
        let ghost mut popped: Set<int> = Set::empty();
        assert(popped.len() == 0);
        loop
            invariant_except_break
                is_rising(g, elev, ocean, visited@, filled@, queue@, last, -1, 0),
            invariant
                self.is_laid_out(),
                g == self.grid(),
                elev == elevations(*self),
                ocean == ocean_mask(*self),
                popped.finite(),
                popped.subset_of(vstd::set_lib::set_int_range(0, g.count())),
                forall|e: (u64, u64, Axial)| #[trigger]
                    queue@.contains(e) ==> !popped.contains(e.1 as int),
                forall|id: int| #[trigger] popped.contains(id) ==> visited@[id],
            ensures
                is_filled(g, elev, ocean, filled@),
            decreases g.count() - popped.len(),
        {
            let ghost waiting = queue@;
            match queue.pop_first() {
                Some(e) => {
                    let current: u32 = e.1 as u32;
                    let ghost c = e.1 as int;
                    proof {
                        lemma_pop(g, elev, ocean, visited@, filled@, waiting, last, e);
                        last = filled@[c] as int;
                        assert(visited@[c]) by {
                            reveal(is_rising);
                        }
                        vstd::set_lib::lemma_int_range(0, g.count());
                        assert(!popped.contains(c));
                        assert forall|f: (u64, u64, Axial)| #[trigger]
                            queue@.contains(f) implies f.1 != c by {
                            reveal(is_rising);
                        }
                        popped = popped.insert(c);
                        vstd::set_lib::lemma_len_subset(
                            popped,
                            vstd::set_lib::set_int_range(0, g.count()),
                        );
                        assert(visited@.len() == g.count() && filled@.len() == g.count()) by {
                            reveal(is_rising);
                        }
                    }
                    let height: i16 = filled[current as usize];
                    let mut d: usize = 0;
                    while d < 6
                        invariant
                            self.is_laid_out(),
                            g == self.grid(),
                            elev == elevations(*self),
                            ocean == ocean_mask(*self),
                            d <= 6,
                            c == current,
                            0 <= c < g.count(),
                            last == height,
                            visited@.len() == g.count(),
                            filled@.len() == g.count(),
                            popped.contains(c),
                            is_rising(
                                g,
                                elev,
                                ocean,
                                visited@,
                                filled@,
                                queue@,
                                last,
                                c,
                                d as int,
                            ),
                            forall|e: (u64, u64, Axial)| #[trigger]
                                queue@.contains(e) ==> !popped.contains(e.1 as int),
                            forall|id: int| #[trigger] popped.contains(id) ==> visited@[id],
                            popped.subset_of(vstd::set_lib::set_int_range(0, g.count())),
                        decreases 6 - d,
                    {
                        match self.neighbor_id(current, direction_at(d)) {
                            Some(next) => {
                                let n: usize = next as usize;
                                if visited[n] {
                                    proof {
                                        lemma_skip(
                                            g,
                                            elev,
                                            ocean,
                                            visited@,
                                            filled@,
                                            queue@,
                                            last,
                                            c,
                                            d as int,
                                        );
                                    }
                                } else {
                                    assert(filled@[n as int] == elev[n as int]) by {
                                        reveal(is_rising);
                                    }
                                    let level: i16 = if filled[n] > height {
                                        filled[n]
                                    } else {
                                        height
                                    };
                                    proof {
                                        lemma_visit(
                                            g,
                                            elev,
                                            ocean,
                                            visited@,
                                            filled@,
                                            queue@,
                                            last,
                                            c,
                                            d as int,
                                            n as int,
                                            level,
                                        );
                                        assert(!popped.contains(n as int));
                                    }
                                    visited.set(n, true);
                                    filled.set(n, level);
                                    queue.insert(
                                        (level as i32 + 32_768) as u64,
                                        next as u64,
                                        Axial { q: 0, r: 0 },
                                    );
                                    assert(entry(filled@, n as int) == (
                                        (level + 32_768) as u64,
                                        next as u64,
                                        Axial { q: 0, r: 0 },
                                    ));
                                }
                            },
                            None => {
                                proof {
                                    lemma_skip(
                                        g,
                                        elev,
                                        ocean,
                                        visited@,
                                        filled@,
                                        queue@,
                                        last,
                                        c,
                                        d as int,
                                    );
                                }
                            },
                        }
                        d += 1;
                    }
                    proof {
                        lemma_done(g, elev, ocean, visited@, filled@, queue@, last, c);
                    }
                },
                None => {
                    proof {
                        lemma_settled(g, elev, ocean, visited@, filled@, queue@, last);
                    }
                    break;
                },
            }
        }
        filled
    }
}

} // verus!
