//! Breadth-first floods over the cells of a grid.
use vstd::prelude::*;
use crate::coord::HexDirection;
use crate::layers::{law_neighbours_are_mutual, Grid, LayeredWorld};

verus! {

/// A place in the search of a flood: the cell of the order that is searched,
/// and a direction from it.
pub open spec fn sooner(a: (int, int), b: (int, int)) -> bool {
    a.0 < b.0 || (a.0 == b.0 && a.1 < b.1)
}

/// Whether a search place leads to a cell.
pub open spec fn leads(g: Grid, order: Seq<u32>, at: (int, int), to: int) -> bool {
    &&& 0 <= at.0 < order.len()
    &&& 0 <= at.1 < 6
    &&& g.beside(order[at.0] as int, at.1) == Some(to)
}

/// Whether a search place is the first that leads to a cell.
pub open spec fn leads_first(g: Grid, order: Seq<u32>, at: (int, int), to: int) -> bool {
    &&& leads(g, order, at, to)
    &&& forall|b: (int, int)| #[trigger] leads(g, order, b, to) ==> !sooner(b, at)
}

/// Whether cells come in the order of a breadth-first flood from its sources
/// through open cells: each further cell at the search place that leads to it
/// first.
pub open spec fn is_flood(
    g: Grid,
    open: Seq<bool>,
    sources: Seq<u32>,
    order: Seq<u32>,
    links: Seq<(int, int)>,
) -> bool {
    &&& sources.len() <= order.len()
    &&& order.take(sources.len() as int) == sources
    &&& links.len() == order.len()
    &&& order.no_duplicates()
    &&& forall|k: int| 0 <= k < order.len() ==> (#[trigger] order[k]) < g.count()
    &&& forall|k: int|
        sources.len() <= k < order.len() ==> {
            &&& open[(#[trigger] order[k]) as int]
            &&& links[k].0 < k
            &&& leads_first(g, order, links[k], order[k] as int)
        }
    &&& forall|k: int, l: int|
        sources.len() <= k < l < order.len() ==> sooner(#[trigger] links[k], #[trigger] links[l])
    &&& forall|at: (int, int), to: int| #[trigger]
        leads(g, order, at, to) && open[to] ==> order.contains(to as u32)
}

/// How many steps a flood took to a cell of its order.
pub open spec fn hops(links: Seq<(int, int)>, sources: int, k: int) -> nat
    decreases k,
{
    if sources <= k && 0 <= links[k].0 < k {
        hops(links, sources, links[k].0) + 1
    } else {
        0
    }
}

/// Whether a flood came to a cell of its order by way of another.
pub open spec fn came_by(links: Seq<(int, int)>, sources: int, k: int, j: int) -> bool
    decreases k,
{
    k == j || (sources <= k && 0 <= links[k].0 < k && came_by(links, sources, links[k].0, j))
}

/// Whether each cell of a path is beside the one before.
pub open spec fn is_path(g: Grid, open: Seq<bool>, path: Seq<int>) -> bool {
    &&& path.len() > 0
    &&& forall|i: int| 0 <= i < path.len() ==> 0 <= #[trigger] path[i] < g.count() && open[path[i]]
    &&& forall|i: int| 0 < i < path.len() ==> beside_each_other(g, path[i - 1], #[trigger] path[i])
}

pub open spec fn beside_each_other(g: Grid, a: int, b: int) -> bool {
    exists|d: int| 0 <= d < 6 && #[trigger] g.beside(a, d) == Some(b)
}

/// Whether a path through open cells leads from one to the other.
pub open spec fn linked(g: Grid, open: Seq<bool>, a: int, b: int) -> bool {
    exists|path: Seq<int>| #[trigger]
        is_path(g, open, path) && path.first() == a && path.last() == b
}

/// What a flood found.
pub struct Flood {
    /// The cells in the order in which they were found.
    pub order: Vec<u32>,
    /// The position in the order of the cell that each was found from; that of
    /// a source is its own.
    pub origins: Vec<u32>,
    /// The position in the order of each cell, if it was found.
    pub positions: Vec<Option<u32>>,
}

impl Flood {
    pub open spec fn links(&self, links: Seq<(int, int)>, sources: int) -> bool {
        &&& self.origins@.len() == self.order@.len()
        &&& forall|k: int|
            sources <= k < self.order@.len() ==> #[trigger] self.origins@[k] == links[k].0
        &&& forall|k: int| 0 <= k < sources ==> #[trigger] self.origins@[k] == k
    }

    pub open spec fn locates(&self) -> bool {
        &&& forall|id: int|
            0 <= id < self.positions@.len() ==> match #[trigger] self.positions@[id] {
                Some(k) => k < self.order@.len() && self.order@[k as int] == id,
                None => !self.order@.contains(id as u32),
            }
    }

    /// Whether this is the flood from some sources.
    pub open spec fn is_from(&self, g: Grid, open: Seq<bool>, sources: Seq<u32>) -> bool {
        &&& self.positions@.len() == g.count()
        &&& self.locates()
        &&& exists|links: Seq<(int, int)>|
            is_flood(g, open, sources, self.order@, links) && #[trigger] self.links(
                links,
                sources.len() as int,
            )
    }
}

/// Whether no mark of a number of cells is set.
pub open spec fn is_blank(positions: Seq<Option<u32>>, count: int) -> bool {
    &&& positions.len() == count
    &&& forall|k: int| 0 <= k < count ==> #[trigger] positions[k] is None
}

/// The direction of an index.
pub fn direction_at(d: usize) -> (direction: HexDirection)
    requires
        d < 6,
    ensures
        direction.ordinal() == d,
{
    HexDirection::ALL[d]
}

/// What holds while a flood searches: everything that an earlier search place
/// leads to has been found.
spec fn is_partial(
    g: Grid,
    open: Seq<bool>,
    sources: Seq<u32>,
    order: Seq<u32>,
    links: Seq<(int, int)>,
    at: (int, int),
) -> bool {
    &&& sources.len() <= order.len()
    &&& order.take(sources.len() as int) == sources
    &&& links.len() == order.len()
    &&& order.no_duplicates()
    &&& forall|k: int| 0 <= k < order.len() ==> (#[trigger] order[k]) < g.count()
    &&& forall|k: int|
        sources.len() <= k < order.len() ==> {
            &&& open[(#[trigger] order[k]) as int]
            &&& links[k].0 < k
            &&& leads_first(g, order, links[k], order[k] as int)
            &&& sooner(links[k], at)
        }
    &&& forall|k: int, l: int|
        sources.len() <= k < l < order.len() ==> sooner(#[trigger] links[k], #[trigger] links[l])
    &&& forall|b: (int, int), to: int| #[trigger]
        leads(g, order, b, to) && open[to] && sooner(b, at) ==> order.contains(to as u32)
}

/// A search place adds the cell that it leads to.
proof fn lemma_found(
    g: Grid,
    open: Seq<bool>,
    sources: Seq<u32>,
    order: Seq<u32>,
    links: Seq<(int, int)>,
    at: (int, int),
    to: int,
)
    requires
        g.fits(),
        open.len() == g.count(),
        is_partial(g, open, sources, order, links, at),
        leads(g, order, at, to),
        0 <= to < g.count(),
        open[to],
        !order.contains(to as u32),
    ensures
        is_partial(g, open, sources, order.push(to as u32), links.push(at), (at.0, at.1 + 1)),
{
    let order2 = order.push(to as u32);
    let links2 = links.push(at);
    let next = (at.0, at.1 + 1);
    assert(order2.take(sources.len() as int) =~= order.take(sources.len() as int));
    assert forall|i: int, j: int|
        0 <= i < order2.len() && 0 <= j < order2.len() && i != j implies order2[i] != order2[j] by {
        if i == order.len() {
            assert(order.contains(order[j]));
        }
        if j == order.len() {
            assert(order.contains(order[i]));
        }
    }
    assert forall|k: int| sources.len() <= k < order2.len() implies {
        &&& open[(#[trigger] order2[k]) as int]
        &&& links2[k].0 < k
        &&& leads_first(g, order2, links2[k], order2[k] as int)
        &&& sooner(links2[k], next)
    } by {
        if k < order.len() {
            assert(order2[k] == order[k]);
            assert(leads_first(g, order, links[k], order[k] as int));
            assert(leads(g, order2, links2[k], order2[k] as int));
            assert forall|b: (int, int)| #[trigger]
                leads(g, order2, b, order2[k] as int) implies !sooner(b, links2[k]) by {
                if b.0 < order.len() {
                    assert(leads(g, order, b, order[k] as int));
                }
            }
        } else {
            assert(leads(g, order2, at, to));
            assert forall|b: (int, int)| #[trigger] leads(g, order2, b, to) implies !sooner(
                b,
                at,
            ) by {
                if sooner(b, at) {
                    assert(leads(g, order, b, to));
                }
            }
        }
    }
    assert forall|b: (int, int), t: int| #[trigger]
        leads(g, order2, b, t) && open[t] && sooner(b, next) implies order2.contains(t as u32) by {
        if b == at {
            assert(order2[order.len() as int] == to as u32);
        } else {
            assert(sooner(b, at));
            assert(leads(g, order, b, t));
            assert(order.contains(t as u32));
            let m = choose|m: int| 0 <= m < order.len() && order[m] == t as u32;
            assert(order2[m] == t as u32);
        }
    }
    assert forall|k: int, l: int| sources.len() <= k < l < order2.len() implies sooner(
        #[trigger] links2[k],
        #[trigger] links2[l],
    ) by {
        assert(order2[k] == order[k]);
        if l < order.len() {
            assert(links2[l] == links[l]);
        } else {
            assert(sooner(links[k], at));
        }
    }
}

/// A search place that adds nothing is passed.
proof fn lemma_passed(
    g: Grid,
    open: Seq<bool>,
    sources: Seq<u32>,
    order: Seq<u32>,
    links: Seq<(int, int)>,
    at: (int, int),
)
    requires
        is_partial(g, open, sources, order, links, at),
        forall|to: int| #[trigger]
            leads(g, order, at, to) && open[to] ==> order.contains(to as u32),
    ensures
        is_partial(g, open, sources, order, links, (at.0, at.1 + 1)),
{
    let next = (at.0, at.1 + 1);
    assert forall|b: (int, int), t: int| #[trigger]
        leads(g, order, b, t) && open[t] && sooner(b, next) implies order.contains(t as u32) by {
        if b != at {
            assert(sooner(b, at));
        }
    }
    assert forall|k: int| sources.len() <= k < order.len() implies {
        &&& open[(#[trigger] order[k]) as int]
        &&& links[k].0 < k
        &&& leads_first(g, order, links[k], order[k] as int)
        &&& sooner(links[k], next)
    } by {
        assert(open[order[k] as int]);
    }
}

impl LayeredWorld {
    /// Floods the open cells of a world from some sources.
    pub fn flood(&self, open: &[bool], sources: &[u32]) -> (flood: Flood)
        requires
            self.is_laid_out(),
            open@.len() == self.grid().count(),
            sources@.no_duplicates(),
            forall|i: int| 0 <= i < sources@.len() ==> (#[trigger] sources@[i]) < self.grid().count(),
        ensures
            flood.is_from(self.grid(), open@, sources@),
    {
        let blank = self.unmarked();
        self.flood_with(open, sources, blank)
    }

    /// A mark for each cell, none of them set.
    pub fn unmarked(&self) -> (positions: Vec<Option<u32>>)
        ensures
            is_blank(positions@, self.layers().len() as int),
    {
        let count: usize = self.cells.len();
        let mut positions: Vec<Option<u32>> = Vec::new();
        let mut i: usize = 0;
        while i < count
            invariant
                i <= count,
                positions@.len() == i,
                forall|k: int| 0 <= k < i ==> #[trigger] positions@[k] is None,
            decreases count - i,
        {
            positions.push(None);
            i += 1;
        }
        positions
    }

    /// Floods the open cells of a world, with room for the positions at hand.
    pub fn flood_with(
        &self,
        open: &[bool],
        sources: &[u32],
        blank: Vec<Option<u32>>,
    ) -> (flood: Flood)
        requires
            self.is_laid_out(),
            open@.len() == self.grid().count(),
            sources@.no_duplicates(),
            forall|i: int| 0 <= i < sources@.len() ==> (#[trigger] sources@[i]) < self.grid().count(),
            is_blank(blank@, self.layers().len() as int),
        ensures
            flood.is_from(self.grid(), open@, sources@),
    {
        let ghost g = self.grid();
        let mut order: Vec<u32> = Vec::new();
        let mut origins: Vec<u32> = Vec::new();
        let mut positions = blank;
        let ghost mut links: Seq<(int, int)> = Seq::empty();
        let mut i: usize = 0;
        proof {
            lemma_few(sources@, g.count());
        }
        while i < sources.len()
            invariant
                self.is_laid_out(),
                g == self.grid(),
                i <= sources@.len() <= g.count(),
                g.count() == positions@.len(),
                sources@.no_duplicates(),
                forall|k: int|
                    0 <= k < sources@.len() ==> (#[trigger] sources@[k]) < g.count(),
                order@ =~= sources@.take(i as int),
                origins@.len() == i,
                links.len() == i,
                forall|k: int| 0 <= k < i ==> #[trigger] origins@[k] == k,
                forall|id: int|
                    0 <= id < positions@.len() ==> match #[trigger] positions@[id] {
                        Some(k) => k < order@.len() && order@[k as int] == id,
                        None => !order@.contains(id as u32),
                    },
            decreases sources.len() - i,
        {
            let source = sources[i];
            let ghost before = order@;
            order.push(source);
            origins.push(i as u32);
            positions.set(source as usize, Some(i as u32));
            proof {
                links = links.push((0int, 0int));
                assert forall|id: int| 0 <= id < positions@.len() implies match #[trigger] positions@[id] {
                    Some(k) => k < order@.len() && order@[k as int] == id,
                    None => !order@.contains(id as u32),
                } by {
                    if id != source {
                        if order@.contains(id as u32) {
                            let k = choose|k: int| 0 <= k < order@.len() && order@[k] == id as u32;
                            assert(before[k] == id as u32);
                        }
                    }
                }
            }
            i += 1;
        }
        assert(order@ =~= sources@);
        assert(order@.take(sources@.len() as int) =~= sources@);
        let mut head: usize = 0;
        while head < order.len()
            invariant
                self.is_laid_out(),
                g == self.grid(),
                open@.len() == g.count(),
                positions@.len() == g.count(),
                head <= order@.len() <= g.count(),
                is_partial(g, open@, sources@, order@, links, (head as int, 0int)),
                (Flood { order, origins, positions }).links(links, sources@.len() as int),
                (Flood { order, origins, positions }).locates(),
            decreases g.count() - head,
        {
            let current = order[head];
            let mut d: usize = 0;
            while d < 6
                invariant
                    self.is_laid_out(),
                    g == self.grid(),
                    open@.len() == g.count(),
                    positions@.len() == g.count(),
                    head < order@.len() <= g.count(),
                    current == order@[head as int],
                    d <= 6,
                    is_partial(g, open@, sources@, order@, links, (head as int, d as int)),
                    (Flood { order, origins, positions }).links(links, sources@.len() as int),
                    (Flood { order, origins, positions }).locates(),
                decreases 6 - d,
            {
                let ghost at = (head as int, d as int);
                let ghost before = Flood { order, origins, positions };
                match self.neighbor_id(current, direction_at(d)) {
                    Some(next) => {
                        assert(leads(g, order@, at, next as int));
                        if open[next as usize] && positions[next as usize].is_none() {
                            proof {
                                lemma_found(g, open@, sources@, order@, links, at, next as int);
                                lemma_few(order@.push(next), g.count());
                            }
                            let k: u32 = order.len() as u32;
                            positions.set(next as usize, Some(k));
                            order.push(next);
                            origins.push(head as u32);
                            proof {
                                links = links.push(at);
                                let after = Flood { order, origins, positions };
                                assert forall|id: int| 0 <= id < positions@.len() implies match #[trigger] after.positions@[id] {
                                    Some(k) => k < after.order@.len() && after.order@[k as int]
                                        == id,
                                    None => !after.order@.contains(id as u32),
                                } by {
                                    if id != next {
                                        assert(after.positions@[id] == before.positions@[id]);
                                        if after.order@.contains(id as u32) {
                                            let m = choose|m: int|
                                                0 <= m < after.order@.len() && after.order@[m]
                                                    == id as u32;
                                            assert(before.order@[m] == id as u32);
                                        }
                                    }
                                }
                                assert(after.links(links, sources@.len() as int));
                            }
                        } else {
                            proof {
                                assert forall|to: int| #[trigger]
                                    leads(g, order@, at, to) && open@[to] implies order@.contains(
                                    to as u32,
                                ) by {
                                    assert(before.positions@[next as int] is Some);
                                    let k = before.positions@[next as int].unwrap();
                                    assert(order@[k as int] == next);
                                }
                                lemma_passed(g, open@, sources@, order@, links, at);
                            }
                        }
                    },
                    None => {
                        proof {
                            lemma_passed(g, open@, sources@, order@, links, at);
                        }
                    },
                }
                d += 1;
            }
            proof {
                lemma_next_cell(g, open@, sources@, order@, links, head as int);
            }
            head += 1;
        }
        let flood = Flood { order, origins, positions };
        proof {
            assert forall|at: (int, int), to: int| #[trigger]
                leads(g, flood.order@, at, to) && open@[to] implies flood.order@.contains(
                to as u32,
            ) by {
                assert(sooner(at, (head as int, 0int)));
            }
            assert(is_flood(g, open@, sources@, flood.order@, links));
            assert(flood.links(links, sources@.len() as int));
        }
        flood
    }
}

proof fn lemma_next_cell(
    g: Grid,
    open: Seq<bool>,
    sources: Seq<u32>,
    order: Seq<u32>,
    links: Seq<(int, int)>,
    head: int,
)
    requires
        is_partial(g, open, sources, order, links, (head, 6int)),
    ensures
        is_partial(g, open, sources, order, links, (head + 1, 0int)),
{
    assert forall|b: (int, int), t: int| #[trigger]
        leads(g, order, b, t) && open[t] && sooner(b, (head + 1, 0int)) implies order.contains(
        t as u32,
    ) by {
        assert(sooner(b, (head, 6int)));
    }
}

/// Distinct numbers below a bound are at most as many.
pub proof fn lemma_few(s: Seq<u32>, bound: int)
    requires
        s.no_duplicates(),
        0 <= bound,
        forall|i: int| 0 <= i < s.len() ==> (#[trigger] s[i]) < bound,
    ensures
        s.len() <= bound,
{
    let all = Set::new(|x: int| 0 <= x < bound);
    vstd::set_lib::lemma_int_range(0, bound);
    assert(all =~= vstd::set_lib::set_int_range(0, bound));
    let t = s.map_values(|x: u32| x as int);
    assert forall|i: int, j: int| 0 <= i < t.len() && 0 <= j < t.len() && i != j implies t[i]
        != t[j] by {
        assert(s[i] != s[j]);
    }
    t.unique_seq_to_set();
    assert(t.to_set().subset_of(all)) by {
        assert forall|x: int| t.to_set().contains(x) implies all.contains(x) by {
            let i = choose|i: int| 0 <= i < t.len() && t[i] == x;
            assert(s[i] < bound);
        }
    }
    vstd::set_lib::lemma_len_subset(t.to_set(), all);
}

/// A flood from one open cell finds the cells that paths lead to, and no others.
pub proof fn law_flood_finds_what_is_linked(
    g: Grid,
    open: Seq<bool>,
    source: u32,
    order: Seq<u32>,
    links: Seq<(int, int)>,
    id: int,
)
    requires
        g.fits(),
        open.len() == g.count(),
        source < g.count(),
        open[source as int],
        is_flood(g, open, seq![source], order, links),
        0 <= id < g.count(),
    ensures
        order.contains(id as u32) <==> linked(g, open, source as int, id),
{
    assert(order.take(1)[0] == source);
    if order.contains(id as u32) {
        let k = choose|k: int| 0 <= k < order.len() && order[k] == id as u32;
        lemma_way_to(g, open, source, order, links, k);
    }
    if linked(g, open, source as int, id) {
        let path = choose|path: Seq<int>| #[trigger]
            is_path(g, open, path) && path.first() == source as int && path.last() == id;
        assert(order[0] == source);
        lemma_path_stays(g, open, order, path, path.len() - 1);
    }
}

proof fn lemma_way_to(
    g: Grid,
    open: Seq<bool>,
    source: u32,
    order: Seq<u32>,
    links: Seq<(int, int)>,
    k: int,
)
    requires
        g.fits(),
        open.len() == g.count(),
        source < g.count(),
        open[source as int],
        is_flood(g, open, seq![source], order, links),
        0 <= k < order.len(),
    ensures
        linked(g, open, source as int, order[k] as int),
    decreases k,
{
    assert(order.take(1)[0] == source);
    if k == 0 {
        let path = seq![source as int];
        assert(is_path(g, open, path));
        assert(path.last() == source);
    } else {
        assert(order[k] == order[k]);
        let i = links[k].0;
        assert(leads_first(g, order, links[k], order[k] as int));
        lemma_way_to(g, open, source, order, links, i);
        let path = choose|path: Seq<int>| #[trigger]
            is_path(g, open, path) && path.first() == source as int && path.last()
                == order[i] as int;
        let longer = path.push(order[k] as int);
        assert forall|j: int| 0 < j < longer.len() implies beside_each_other(
            g,
            longer[j - 1],
            #[trigger] longer[j],
        ) by {
            if j < path.len() {
                assert(beside_each_other(g, path[j - 1], path[j]));
            } else {
                assert(g.beside(order[i] as int, links[k].1) == Some(order[k] as int));
            }
        }
        assert(is_path(g, open, longer));
        assert(longer.first() == path.first());
    }
}

/// A path that starts in a set of cells that is closed stays in it.
proof fn lemma_path_stays(g: Grid, open: Seq<bool>, order: Seq<u32>, path: Seq<int>, i: int)
    requires
        g.fits(),
        open.len() == g.count(),
        is_path(g, open, path),
        0 <= i < path.len(),
        order.contains(path[0] as u32),
        forall|k: int| 0 <= k < order.len() ==> (#[trigger] order[k]) < g.count(),
        forall|at: (int, int), to: int| #[trigger]
            leads(g, order, at, to) && open[to] ==> order.contains(to as u32),
    ensures
        order.contains(path[i] as u32),
    decreases i,
{
    if i > 0 {
        lemma_path_stays(g, open, order, path, i - 1);
        let k = choose|k: int| 0 <= k < order.len() && order[k] == path[i - 1] as u32;
        assert(beside_each_other(g, path[i - 1], path[i]));
        let d = choose|d: int| 0 <= d < 6 && #[trigger] g.beside(path[i - 1], d) == Some(path[i]);
        assert(leads(g, order, (k, d), path[i]));
    }
}

/// To be linked is to be in one part: every open cell is linked with itself,
/// the other way round, and onward.
pub proof fn law_linked_is_an_equivalence(g: Grid, open: Seq<bool>, a: int, b: int, c: int)
    requires
        g.fits(),
        open.len() == g.count(),
    ensures
        0 <= a < g.count() && open[a] ==> linked(g, open, a, a),
        linked(g, open, a, b) ==> linked(g, open, b, a),
        linked(g, open, a, b) && linked(g, open, b, c) ==> linked(g, open, a, c),
{
    if 0 <= a < g.count() && open[a] {
        let path = seq![a];
        assert(is_path(g, open, path));
        assert(path.last() == a);
    }
    if linked(g, open, a, b) {
        lemma_linked_back(g, open, a, b);
        if linked(g, open, b, c) {
            lemma_linked_onward(g, open, a, b, c);
        }
    }
}

proof fn lemma_linked_back(g: Grid, open: Seq<bool>, a: int, b: int)
    requires
        g.fits(),
        linked(g, open, a, b),
    ensures
        linked(g, open, b, a),
{
    let path = choose|path: Seq<int>| #[trigger]
        is_path(g, open, path) && path.first() == a && path.last() == b;
    let back = path.reverse();
    assert forall|j: int| 0 < j < back.len() implies beside_each_other(
        g,
        back[j - 1],
        #[trigger] back[j],
    ) by {
        let i = path.len() - j;
        assert(beside_each_other(g, path[i - 1], path[i]));
        let d = choose|d: int| 0 <= d < 6 && #[trigger] g.beside(path[i - 1], d) == Some(path[i]);
        law_neighbours_are_mutual(g, path[i - 1], d);
        assert(g.beside(path[i], (d + 3) % 6) == Some(path[i - 1]));
    }
    assert(is_path(g, open, back));
    assert(back.first() == b && back.last() == a);
}

proof fn lemma_linked_onward(g: Grid, open: Seq<bool>, a: int, b: int, c: int)
    requires
        linked(g, open, a, b),
        linked(g, open, b, c),
    ensures
        linked(g, open, a, c),
{
    let path = choose|path: Seq<int>| #[trigger]
        is_path(g, open, path) && path.first() == a && path.last() == b;
    let onward = choose|onward: Seq<int>| #[trigger]
        is_path(g, open, onward) && onward.first() == b && onward.last() == c;
    let whole = path + onward.skip(1);
    assert forall|j: int| 0 < j < whole.len() implies beside_each_other(
        g,
        whole[j - 1],
        #[trigger] whole[j],
    ) by {
        if j < path.len() {
            assert(beside_each_other(g, path[j - 1], path[j]));
        } else {
            let i = j - path.len() + 1;
            assert(beside_each_other(g, onward[i - 1], onward[i]));
            assert(whole[j] == onward[i]);
            assert(whole[j - 1] == onward[i - 1]);
        }
    }
    assert forall|j: int| 0 <= j < whole.len() implies 0 <= #[trigger] whole[j] < g.count()
        && open[whole[j]] by {
        if j >= path.len() {
            assert(whole[j] == onward[j - path.len() + 1]);
        }
    }
    assert(is_path(g, open, whole));
    assert(whole.first() == a);
    assert(whole.last() == c);
}

/// The order of a flood is determined by its sources.
pub proof fn law_flood_is_unique(
    g: Grid,
    open: Seq<bool>,
    sources: Seq<u32>,
    order: Seq<u32>,
    links: Seq<(int, int)>,
    order2: Seq<u32>,
    links2: Seq<(int, int)>,
)
    requires
        g.fits(),
        open.len() == g.count(),
        is_flood(g, open, sources, order, links),
        is_flood(g, open, sources, order2, links2),
    ensures
        order == order2,
        forall|k: int| sources.len() <= k < order.len() ==> #[trigger] links[k] == links2[k],
{
    let n = if order.len() <= order2.len() {
        order.len() as int
    } else {
        order2.len() as int
    };
    lemma_same_prefix(g, open, sources, order, links, order2, links2, n);
    if order.len() <= order2.len() {
        assert(order.take(n) =~= order);
        lemma_no_more(g, open, sources, order, links, order2, links2);
    }
    if order2.len() < order.len() {
        assert(order2.take(n) =~= order2);
        lemma_no_more(g, open, sources, order2, links2, order, links);
    }
    assert(order.take(n) =~= order);
    assert(order2.take(n) =~= order2);
}

/// A flood does not go on where an equal one has ended.
proof fn lemma_no_more(
    g: Grid,
    open: Seq<bool>,
    sources: Seq<u32>,
    order: Seq<u32>,
    links: Seq<(int, int)>,
    order2: Seq<u32>,
    links2: Seq<(int, int)>,
)
    requires
        g.fits(),
        open.len() == g.count(),
        is_flood(g, open, sources, order, links),
        is_flood(g, open, sources, order2, links2),
        order.len() <= order2.len(),
        order2.take(order.len() as int) == order,
    ensures
        order2.len() == order.len(),
{
    let n = order.len() as int;
    if order2.len() > n {
        assert(order2[n] == order2[n]);
        let at = links2[n];
        assert(leads_first(g, order2, at, order2[n] as int));
        assert(order2[at.0] == order2.take(n)[at.0]);
        assert(leads(g, order, at, order2[n] as int));
        assert(order.contains(order2[n]));
        let m = choose|m: int| 0 <= m < order.len() && order[m] == order2[n];
        assert(order2.take(n)[m] == order2[m]);
    }
}

proof fn lemma_same_prefix(
    g: Grid,
    open: Seq<bool>,
    sources: Seq<u32>,
    order: Seq<u32>,
    links: Seq<(int, int)>,
    order2: Seq<u32>,
    links2: Seq<(int, int)>,
    n: int,
)
    requires
        g.fits(),
        open.len() == g.count(),
        is_flood(g, open, sources, order, links),
        is_flood(g, open, sources, order2, links2),
        sources.len() <= n <= order.len(),
        n <= order2.len(),
    ensures
        order.take(n) == order2.take(n),
        forall|k: int| sources.len() <= k < n ==> #[trigger] links[k] == links2[k],
    decreases n,
{
    if n > sources.len() {
        lemma_same_prefix(g, open, sources, order, links, order2, links2, n - 1);
        let k = n - 1;
        assert forall|i: int| 0 <= i < k implies order[i] == order2[i] by {
            assert(order.take(k)[i] == order2.take(k)[i]);
        }
        lemma_not_sooner(g, open, sources, order, links, order2, links2, k);
        assert forall|i: int| 0 <= i < k implies order2[i] == order[i] by {
            assert(order.take(k)[i] == order2.take(k)[i]);
        }
        lemma_not_sooner(g, open, sources, order2, links2, order, links, k);
        assert(links[k] == links2[k]);
        assert(order[k] == order[k] && order2[k] == order2[k]);
        assert(leads_first(g, order, links[k], order[k] as int));
        assert(leads_first(g, order2, links2[k], order2[k] as int));
        assert(order[k] == order2[k]);
        assert(order.take(n) =~= order.take(k).push(order[k]));
        assert(order2.take(n) =~= order2.take(k).push(order2[k]));
    }
}

/// Of two floods that agree up to a cell, neither finds its next one sooner.
proof fn lemma_not_sooner(
    g: Grid,
    open: Seq<bool>,
    sources: Seq<u32>,
    order: Seq<u32>,
    links: Seq<(int, int)>,
    order2: Seq<u32>,
    links2: Seq<(int, int)>,
    k: int,
)
    requires
        g.fits(),
        open.len() == g.count(),
        is_flood(g, open, sources, order, links),
        is_flood(g, open, sources, order2, links2),
        sources.len() <= k < order.len(),
        k < order2.len(),
        forall|i: int| 0 <= i < k ==> order[i] == order2[i],
    ensures
        !sooner(links[k], links2[k]),
{
    assert(order[k] == order[k] && order2[k] == order2[k]);
    let at = links[k];
    let to = order[k] as int;
    assert(leads_first(g, order, at, to));
    assert(leads_first(g, order2, links2[k], order2[k] as int));
    if sooner(at, links2[k]) {
        assert(order[at.0] == order2[at.0]);
        assert(leads(g, order2, at, to));
        assert(order2.contains(to as u32));
        let m = choose|m: int| 0 <= m < order2.len() && order2[m] == to as u32;
        if m < k {
            assert(order[m] == order2[m]);
        } else {
            assert(order2[m] == order2[m]);
            assert(leads_first(g, order2, links2[m], order2[m] as int));
            assert(!sooner(at, links2[m]));
            if m > k {
                assert(sooner(links2[k], links2[m]));
            }
        }
    }
}

} // verus!
