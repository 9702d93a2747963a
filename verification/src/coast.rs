//! Coasts: near islands are bridged to the main continent, remote ones sink.
use vstd::prelude::*;
use crate::flood::{came_by, hops, is_flood, law_flood_is_unique, Flood};
use crate::layers::{Grid, LayeredWorld, Surface, WorldLayer};
use crate::parts::{
    cells_of, is_part, is_part_list, law_part_list_is_unique, law_parts_are_what_is_linked,
    lemma_in_part, Parts,
};
use crate::patch::{how_many, report, writes_where, ElevationWrite, WorldPatch};
use crate::text::{append_decimal, decimal, text};
use crate::world_pass::WorldPass;

verus! {

pub struct CoastConnectivityPass;

/// Where a world has land.
pub open spec fn land_mask(world: LayeredWorld) -> Seq<bool> {
    Seq::new(world.layers().len(), |id: int| world.layers()[id].surface == Surface::Land)
}

pub open spec fn all_open(count: int) -> Seq<bool> {
    Seq::new(count as nat, |id: int| true)
}

/// Whether no part is longer, and no later one as long.
pub open spec fn is_last_longest(parts: Seq<Seq<u32>>, k: int) -> bool {
    &&& 0 <= k < parts.len()
    &&& forall|l: int| 0 <= l < parts.len() ==> (#[trigger] parts[l]).len() <= parts[k].len()
    &&& forall|l: int| k < l < parts.len() ==> (#[trigger] parts[l]).len() < parts[k].len()
}

/// The islands of a world and the flood that spreads from its main continent.
pub struct Coast {
    pub parts: Seq<Seq<u32>>,
    pub main: int,
    pub order: Seq<u32>,
    pub links: Seq<(int, int)>,
    pub reach: int,
}

/// How long a bridge may be.
pub open spec fn longest_bridge(world: LayeredWorld) -> int {
    if world.manifest.macro_cell_size < 4 {
        4
    } else {
        world.manifest.macro_cell_size as int
    }
}

impl Coast {
    /// Whether this is the coast of a world.
    pub open spec fn is_of(self, world: LayeredWorld) -> bool {
        let g = world.grid();
        &&& is_part_list(g, land_mask(world), self.parts)
        &&& is_last_longest(self.parts, self.main)
        &&& is_flood(g, all_open(g.count()), self.parts[self.main], self.order, self.links)
        &&& self.reach == longest_bridge(world)
    }

    pub open spec fn sources(self) -> int {
        self.parts[self.main].len() as int
    }

    /// Whether the flood first meets an island at a position.
    pub open spec fn is_landfall(self, k: int, j: int) -> bool {
        &&& 0 <= j < self.order.len()
        &&& self.parts[k].contains(self.order[j])
        &&& forall|i: int| 0 <= i < j ==> !self.parts[k].contains(#[trigger] self.order[i])
    }

    /// Whether the flood meets an island near enough for a bridge.
    pub open spec fn is_near(self, k: int, j: int) -> bool {
        self.is_landfall(k, j) && hops(self.links, self.sources(), j) <= self.reach
    }

    pub open spec fn is_joined(self, k: int) -> bool {
        0 <= k < self.parts.len() && k != self.main && exists|j: int| #[trigger] self.is_near(k, j)
    }

    /// Whether the way of the flood to a position passes a cell.
    pub open spec fn passes(self, j: int, id: int) -> bool {
        exists|i: int|
            0 <= i < self.order.len() && #[trigger] came_by(self.links, self.sources(), j, i)
                && self.order[i] == id
    }

    /// Whether a bridge to one of the islands before a place takes a cell.
    pub open spec fn is_crossed(self, before: int, id: int) -> bool {
        exists|k: int, j: int|
            0 <= k < before && k != self.main && #[trigger] self.is_near(k, j) && self.passes(j, id)
    }

    /// Whether one of the islands before a place holds a cell and sinks.
    pub open spec fn is_remote(self, before: int, id: int) -> bool {
        exists|k: int|
            0 <= k < before && k != self.main && !self.is_joined(k)
                && #[trigger] self.parts[k].contains(id as u32)
    }

    pub open spec fn bridges(self, land: Seq<bool>) -> spec_fn(int) -> bool {
        |id: int| !land[id] && self.is_crossed(self.parts.len() as int, id)
    }

    pub open spec fn sinks(self) -> spec_fn(int) -> bool {
        |id: int| self.is_remote(self.parts.len() as int, id)
    }

    pub open spec fn joins(self) -> spec_fn(int) -> bool {
        |k: int| self.is_joined(k)
    }
}

pub open spec fn bridge_height() -> spec_fn(int) -> ElevationWrite {
    |id: int| ElevationWrite::Assign(1)
}

pub open spec fn always(surface: Surface) -> spec_fn(int) -> Surface {
    |id: int| surface
}

pub open spec fn coast_layers() -> Seq<WorldLayer> {
    seq![WorldLayer::Elevation, WorldLayer::Surface]
}

/// Whether this patch raises bridges and sinks what they do not reach.
pub open spec fn is_mending(
    n: int,
    parts: int,
    bridges: spec_fn(int) -> bool,
    sinks: spec_fn(int) -> bool,
    joins: spec_fn(int) -> bool,
    p: WorldPatch,
) -> bool {
    let made = how_many(n, bridges) as int;
    let lost = how_many(n, sinks) as int;
    &&& p.elevation@ == writes_where(n, bridges, bridge_height())
    &&& p.surfaces@ == writes_where(n, bridges, always(Surface::Land)) + writes_where(
        n,
        sinks,
        always(Surface::Ocean),
    )
    &&& p.report.tells(
        made + lost,
        seq![
            "connected "@ + decimal(how_many(parts, joins) as int) + " coastal components with "@
                + decimal(made) + " bridge cells; discarded "@ + decimal(lost)
                + " remote island cells"@,
        ],
    )
    &&& p.stays_within(coast_layers())
}

/// Whether this patch mends the coast.
pub open spec fn is_mended(world: LayeredWorld, coast: Coast, p: WorldPatch) -> bool {
    &&& coast.is_of(world)
    &&& is_mending(
        world.grid().count(),
        coast.parts.len() as int,
        coast.bridges(land_mask(world)),
        coast.sinks(),
        coast.joins(),
        p,
    )
}

/// Whether this patch leaves a coast that is one already.
pub open spec fn is_left(world: LayeredWorld, parts: Seq<Seq<u32>>, p: WorldPatch) -> bool {
    &&& is_part_list(world.grid(), land_mask(world), parts)
    &&& parts.len() <= 1
    &&& p.writes_nothing()
    &&& p.report.tells(0, seq!["coast already forms one connected landmass"@])
}

pub open spec fn is_coast_patch(world: LayeredWorld, p: WorldPatch) -> bool {
    ||| exists|parts: Seq<Seq<u32>>| #[trigger] is_left(world, parts, p)
    ||| exists|coast: Coast| coast.parts.len() > 1 && #[trigger] is_mended(world, coast, p)
}

/// The coast of a world is determined: its parts, what is bridged, what sinks and
/// what is joined.
pub proof fn law_coast_is_unique(world: LayeredWorld, coast: Coast, coast2: Coast)
    requires
        world.is_laid_out(),
        coast.is_of(world),
        coast2.is_of(world),
    ensures
        coast.parts == coast2.parts,
        coast.bridges(land_mask(world)) == coast2.bridges(land_mask(world)),
        coast.sinks() == coast2.sinks(),
        coast.joins() == coast2.joins(),
{
    let g = world.grid();
    law_part_list_is_unique(g, land_mask(world), coast.parts, coast2.parts);
    lemma_one_is_longest(coast.parts, coast.main, coast2.main);
    law_flood_is_unique(
        g,
        all_open(g.count()),
        coast.parts[coast.main],
        coast.order,
        coast.links,
        coast2.order,
        coast2.links,
    );
    assert forall|k: int, j: int| #[trigger] coast.is_near(k, j) == coast2.is_near(k, j) by {
        if coast.is_landfall(k, j) {
            lemma_same_hops(coast, coast2, j);
        }
        if coast2.is_landfall(k, j) {
            lemma_same_hops(coast2, coast, j);
        }
    }
    assert forall|k: int, j: int| #[trigger] coast2.is_near(k, j) == coast.is_near(k, j) by {
        assert(coast.is_near(k, j) == coast2.is_near(k, j));
    }
    assert forall|k: int| #[trigger] coast.is_joined(k) == coast2.is_joined(k) by {}
    lemma_same_crossings(coast, coast2, coast.parts.len() as int);
    lemma_same_crossings(coast2, coast, coast.parts.len() as int);
    assert(coast.bridges(land_mask(world)) =~= coast2.bridges(land_mask(world)));
    assert forall|n: int, id: int| #[trigger]
        coast.is_remote(n, id) == coast2.is_remote(n, id) by {
        if coast.is_remote(n, id) {
            let k = choose|k: int|
                0 <= k < n && k != coast.main && !coast.is_joined(k)
                    && #[trigger] coast.parts[k].contains(id as u32);
            assert(coast2.parts[k].contains(id as u32));
            assert(coast.is_joined(k) == coast2.is_joined(k));
        }
        if coast2.is_remote(n, id) {
            let k = choose|k: int|
                0 <= k < n && k != coast2.main && !coast2.is_joined(k)
                    && #[trigger] coast2.parts[k].contains(id as u32);
            assert(coast.parts[k].contains(id as u32));
            assert(coast.is_joined(k) == coast2.is_joined(k));
        }
    }
    assert(coast.sinks() =~= coast2.sinks());
    assert(coast.joins() =~= coast2.joins());
}

/// One part is the last of the longest.
pub proof fn lemma_one_is_longest(parts: Seq<Seq<u32>>, k: int, l: int)
    requires
        is_last_longest(parts, k),
        is_last_longest(parts, l),
    ensures
        k == l,
{
    if k < l {
        assert(parts[l].len() < parts[k].len());
        assert(parts[k].len() <= parts[l].len());
    }
    if l < k {
        assert(parts[k].len() < parts[l].len());
        assert(parts[l].len() <= parts[k].len());
    }
}

/// Floods whose links agree beyond the sources take as many steps, and the same
/// way.
proof fn lemma_same_hops(coast: Coast, coast2: Coast, j: int)
    requires
        coast.sources() == coast2.sources(),
        coast.order == coast2.order,
        0 <= j < coast.order.len(),
        forall|k: int|
            coast.sources() <= k < coast.order.len() ==> coast.links[k] == coast2.links[k],
    ensures
        hops(coast.links, coast.sources(), j) == hops(coast2.links, coast2.sources(), j),
        forall|i: int| #[trigger]
            came_by(coast.links, coast.sources(), j, i) == came_by(
                coast2.links,
                coast2.sources(),
                j,
                i,
            ),
    decreases j,
{
    let o = coast.links[j].0;
    if coast.sources() <= j && 0 <= o < j {
        lemma_same_hops(coast, coast2, o);
    }
    assert forall|i: int| #[trigger] came_by(coast.links, coast.sources(), j, i) == came_by(
        coast2.links,
        coast2.sources(),
        j,
        i,
    ) by {
        if coast.sources() <= j && 0 <= o < j {
            assert(came_by(coast.links, coast.sources(), o, i) == came_by(
                coast2.links,
                coast2.sources(),
                o,
                i,
            ));
        }
    }
}

proof fn lemma_same_crossings(coast: Coast, coast2: Coast, before: int)
    requires
        coast.sources() == coast2.sources(),
        coast.main == coast2.main,
        coast.order == coast2.order,
        forall|k: int|
            coast.sources() <= k < coast.order.len() ==> coast.links[k] == coast2.links[k],
        forall|k: int, j: int| #[trigger] coast.is_near(k, j) == coast2.is_near(k, j),
    ensures
        forall|id: int| #[trigger]
            coast.is_crossed(before, id) ==> coast2.is_crossed(before, id),
{
    assert forall|id: int| #[trigger] coast.is_crossed(before, id) implies coast2.is_crossed(
        before,
        id,
    ) by {
        let (k, j) = choose|k: int, j: int|
            0 <= k < before && k != coast.main && #[trigger] coast.is_near(k, j) && coast.passes(
                j,
                id,
            );
        lemma_same_hops(coast, coast2, j);
        let i = choose|i: int|
            0 <= i < coast.order.len() && #[trigger] came_by(coast.links, coast.sources(), j, i)
                && coast.order[i] == id;
        assert(came_by(coast2.links, coast2.sources(), j, i));
        assert(coast2.passes(j, id));
        assert(coast2.is_near(k, j));
    }
}

/// Marks the land of a world.
pub fn mark_land(world: &LayeredWorld) -> (land: Vec<bool>)
    ensures
        land@ == land_mask(*world),
{
    let mut land: Vec<bool> = Vec::new();
    let mut i: usize = 0;
    while i < world.cells.len()
        invariant
            i <= world.cells@.len(),
            land@ =~= land_mask(*world).take(i as int),
        decreases world.cells.len() - i,
    {
        land.push(world.cells[i].surface == Surface::Land);
        i += 1;
    }
    assert(land@ =~= land_mask(*world));
    land
}

/// The last of the longest parts.
pub fn last_longest(parts: &Vec<Vec<u32>>) -> (k: usize)
    requires
        parts@.len() > 0,
    ensures
        is_last_longest(cells_of(parts@), k as int),
{
    let ghost list = cells_of(parts@);
    let mut best: usize = 0;
    let mut i: usize = 1;
    while i < parts.len()
        invariant
            1 <= i <= parts@.len(),
            best < i,
            list == cells_of(parts@),
            forall|l: int| 0 <= l < i ==> (#[trigger] list[l]).len() <= list[best as int].len(),
            forall|l: int| best < l < i ==> (#[trigger] list[l]).len() < list[best as int].len(),
        decreases parts.len() - i,
    {
        assert(list[i as int] == parts@[i as int]@);
        assert(list[best as int] == parts@[best as int]@);
        if parts[i].len() >= parts[best].len() {
            best = i;
        }
        i += 1;
    }
    best
}

/// How many steps the flood took to each position.
fn count_hops(flood: &Flood, sources: usize, Ghost(links): Ghost<Seq<(int, int)>>) -> (distance: Vec<
    u32,
>)
    requires
        flood.order@.len() <= u32::MAX,
        links.len() == flood.order@.len(),
        flood.links(links, sources as int),
        forall|k: int| sources <= k < links.len() ==> 0 <= (#[trigger] links[k]).0 < k,
    ensures
        distance@.len() == flood.order@.len(),
        forall|k: int|
            0 <= k < distance@.len() ==> #[trigger] distance@[k] == hops(links, sources as int, k),
{
    let mut distance: Vec<u32> = Vec::new();
    let mut k: usize = 0;
    while k < flood.order.len()
        invariant
            k <= flood.order@.len() <= u32::MAX,
            links.len() == flood.order@.len(),
            flood.links(links, sources as int),
            forall|k: int| sources <= k < links.len() ==> 0 <= (#[trigger] links[k]).0 < k,
            distance@.len() == k,
            forall|i: int|
                0 <= i < k ==> #[trigger] distance@[i] == hops(links, sources as int, i)
                    && distance@[i] <= i,
        decreases flood.order.len() - k,
    {
        if k < sources {
            distance.push(0);
        } else {
            assert(flood.origins@[k as int] == links[k as int].0);
            let origin: usize = flood.origins[k] as usize;
            let before: u32 = distance[origin];
            distance.push(before + 1);
        }
        k += 1;
    }
    distance
}

/// Where the flood first meets each island.
fn landfalls(
    flood: &Flood,
    parts: &Parts,
    Ghost(g): Ghost<Grid>,
    Ghost(land): Ghost<Seq<bool>>,
    Ghost(coast): Ghost<Coast>,
) -> (ends: Vec<Option<usize>>)
    requires
        g.fits(),
        land.len() == g.count(),
        parts.are_of(g, land),
        coast.parts == cells_of(parts.parts@),
        coast.order == flood.order@,
        forall|k: int| 0 <= k < flood.order@.len() ==> (#[trigger] flood.order@[k]) < g.count(),
    ensures
        ends@.len() == parts.parts@.len(),
        forall|k: int|
            0 <= k < ends@.len() ==> match #[trigger] ends@[k] {
                Some(j) => coast.is_landfall(k, j as int),
                None => forall|i: int|
                    0 <= i < coast.order.len() ==> !coast.parts[k].contains(
                        #[trigger] coast.order[i],
                    ),
            },
{
    let count: usize = parts.parts.len();
    let mut ends: Vec<Option<usize>> = Vec::new();
    let mut i: usize = 0;
    while i < count
        invariant
            i <= count,
            ends@.len() == i,
            forall|k: int| 0 <= k < i ==> #[trigger] ends@[k] is None,
        decreases count - i,
    {
        ends.push(None);
        i += 1;
    }
    let mut k: usize = 0;
    while k < flood.order.len()
        invariant
            g.fits(),
            land.len() == g.count(),
            parts.are_of(g, land),
            coast.parts == cells_of(parts.parts@),
            coast.order == flood.order@,
            count == parts.parts@.len(),
            forall|k: int| 0 <= k < flood.order@.len() ==> (#[trigger] flood.order@[k]) < g.count(),
            k <= flood.order@.len(),
            ends@.len() == count,
            forall|l: int|
                0 <= l < count ==> match #[trigger] ends@[l] {
                    Some(j) => j < k && coast.is_landfall(l, j as int),
                    None => unmet(coast, l, k as int),
                },
        decreases flood.order.len() - k,
    {
        let cell = flood.order[k];
        let ghost before = ends@;
        let ghost id = cell as int;
        match parts.labels[cell as usize] {
            Some(label) => {
                if ends[label as usize].is_none() {
                    ends.set(label as usize, Some(k));
                }
                proof {
                    assert(coast.parts[label as int].contains(id as u32));
                    assert forall|l: int| 0 <= l < count && l != label implies !coast.parts[l].contains(
                        cell,
                    ) by {
                        if coast.parts[l].contains(cell) {
                            law_parts_are_what_is_linked(
                                g,
                                land,
                                coast.parts,
                                l,
                                label as int,
                                id,
                                id,
                            );
                        }
                    }
                }
            },
            None => {
                proof {
                    assert forall|l: int| 0 <= l < count implies !coast.parts[l].contains(cell) by {
                        if coast.parts[l].contains(cell) {
                            assert(is_part(g, land, coast.parts[l]));
                            lemma_in_part(g, land, coast.parts[l], id);
                        }
                    }
                }
            },
        }
        proof {
            assert forall|l: int| 0 <= l < count implies match #[trigger] ends@[l] {
                Some(j) => j < k + 1 && coast.is_landfall(l, j as int),
                None => unmet(coast, l, k + 1),
            } by {
                match before[l] {
                    Some(j) => {
                        assert(coast.is_landfall(l, j as int));
                    },
                    None => {
                        assert(unmet(coast, l, k as int));
                    },
                }
            }
        }
        k += 1;
    }
    proof {
        assert forall|l: int| 0 <= l < ends@.len() implies match #[trigger] ends@[l] {
            Some(j) => coast.is_landfall(l, j as int),
            None => forall|i: int|
                0 <= i < coast.order.len() ==> !coast.parts[l].contains(#[trigger] coast.order[i]),
        } by {
            match ends@[l] {
                Some(j) => {},
                None => {
                    assert(unmet(coast, l, k as int));
                },
            }
        }
    }
    ends
}

spec fn unmet(coast: Coast, l: int, k: int) -> bool {
    forall|i: int| 0 <= i < k ==> !coast.parts[l].contains(#[trigger] coast.order[i])
}

/// Marks the water on the way of the flood to a position.
fn mark_way(
    flood: &Flood,
    land: &Vec<bool>,
    j: usize,
    sources: usize,
    mask: &mut Vec<bool>,
    Ghost(coast): Ghost<Coast>,
)
    requires
        flood.order@.len() <= u32::MAX,
        coast.order == flood.order@,
        coast.sources() == sources,
        coast.links.len() == coast.order.len(),
        flood.links(coast.links, sources as int),
        forall|k: int| sources <= k < coast.links.len() ==> 0 <= (#[trigger] coast.links[k]).0 < k,
        j < flood.order@.len(),
        old(mask)@.len() == land@.len(),
        forall|k: int| 0 <= k < flood.order@.len() ==> (#[trigger] flood.order@[k]) < land@.len(),
        forall|k: int| 0 <= k < sources ==> land@[(#[trigger] flood.order@[k]) as int],
    ensures
        final(mask)@.len() == old(mask)@.len(),
        forall|id: int|
            0 <= id < land@.len() ==> (#[trigger] final(mask)@[id] <==> old(mask)@[id] || (!land@[id]
                && coast.passes(j as int, id))),
{
    let ghost before = mask@;
    let ghost links = coast.links;
    let ghost s = sources as int;
    let ghost mut done: Set<int> = Set::empty();
    let mut at: usize = j;
    assert forall|i: int| #[trigger] came_by(links, s, j as int, i) <==> done.contains(i) || came_by(
        links,
        s,
        at as int,
        i,
    ) by {}
    while at >= sources
        invariant
            flood.order@.len() <= u32::MAX,
            coast.order == flood.order@,
            coast.links == links,
            coast.sources() == s,
            s == sources,
            links.len() == coast.order.len(),
            flood.links(links, s),
            forall|k: int| sources <= k < links.len() ==> 0 <= (#[trigger] links[k]).0 < k,
            at < flood.order@.len(),
            j < flood.order@.len(),
            before.len() == land@.len(),
            mask@.len() == land@.len(),
            forall|k: int|
                0 <= k < flood.order@.len() ==> (#[trigger] flood.order@[k]) < land@.len(),
            forall|i: int| #[trigger] done.contains(i) ==> 0 <= i < coast.order.len(),
            forall|i: int| #[trigger]
                came_by(links, s, j as int, i) <==> done.contains(i) || came_by(
                    links,
                    s,
                    at as int,
                    i,
                ),
            forall|id: int|
                0 <= id < land@.len() ==> (#[trigger] mask@[id] <==> before[id] || (!land@[id]
                    && is_on(coast.order, done, id))),
        decreases at,
    {
        let cell: usize = flood.order[at] as usize;
        let ghost was = mask@;
        let ghost had = done;
        if !land[cell] {
            mask.set(cell, true);
        }
        assert(flood.origins@[at as int] == links[at as int].0);
        let next: usize = flood.origins[at] as usize;
        proof {
            done = done.insert(at as int);
            assert forall|i: int| #[trigger]
                came_by(links, s, j as int, i) <==> done.contains(i) || came_by(
                    links,
                    s,
                    next as int,
                    i,
                ) by {
                assert(came_by(links, s, at as int, i) <==> at == i || came_by(
                    links,
                    s,
                    next as int,
                    i,
                ));
            }
            assert forall|id: int| 0 <= id < land@.len() implies (#[trigger] mask@[id] <==> before[id]
                || (!land@[id] && is_on(coast.order, done, id))) by {
                assert(was[id] <==> before[id] || (!land@[id] && is_on(coast.order, had, id)));
                if is_on(coast.order, had, id) {
                    let i = choose|i: int| #[trigger] had.contains(i) && coast.order[i] == id;
                    assert(done.contains(i));
                }
                if is_on(coast.order, done, id) && id != cell {
                    let i = choose|i: int| #[trigger] done.contains(i) && coast.order[i] == id;
                    assert(had.contains(i));
                }
                if id == cell {
                    assert(done.contains(at as int));
                }
            }
        }
        at = next;
    }
    proof {
        assert forall|id: int| 0 <= id < land@.len() implies (#[trigger] mask@[id] <==> before[id] || (
        !land@[id] && coast.passes(j as int, id))) by {
            if is_on(coast.order, done, id) {
                let i = choose|i: int| #[trigger] done.contains(i) && coast.order[i] == id;
                assert(came_by(links, s, j as int, i));
            }
            if coast.passes(j as int, id) && !land@[id] {
                let i = choose|i: int|
                    0 <= i < coast.order.len() && #[trigger] came_by(links, s, j as int, i)
                        && coast.order[i] == id;
                if !done.contains(i) {
                    assert(came_by(links, s, at as int, i));
                    assert(i == at);
                    assert(land@[flood.order@[i] as int]);
                }
            }
        }
    }
}

spec fn is_on(order: Seq<u32>, done: Set<int>, id: int) -> bool {
    exists|i: int| #[trigger] done.contains(i) && order[i] == id
}

/// Marks the cells of an island.
fn mark_part(part: &Vec<u32>, mask: &mut Vec<bool>)
    requires
        old(mask)@.len() <= u32::MAX,
        forall|i: int| 0 <= i < part@.len() ==> (#[trigger] part@[i]) < old(mask)@.len(),
    ensures
        final(mask)@.len() == old(mask)@.len(),
        forall|id: int|
            0 <= id < old(mask)@.len() ==> (#[trigger] final(mask)@[id] <==> old(mask)@[id]
                || part@.contains(id as u32)),
{
    let ghost before = mask@;
    let mut i: usize = 0;
    while i < part.len()
        invariant
            before == old(mask)@,
            before.len() <= u32::MAX,
            i <= part@.len(),
            mask@.len() == before.len(),
            forall|i: int| 0 <= i < part@.len() ==> (#[trigger] part@[i]) < before.len(),
            forall|id: int|
                0 <= id < before.len() ==> (#[trigger] mask@[id] <==> before[id]
                    || is_among(part@, i as int, id)),
        decreases part.len() - i,
    {
        let ghost was = mask@;
        mask.set(part[i] as usize, true);
        proof {
            assert forall|id: int| 0 <= id < before.len() implies (#[trigger] mask@[id] <==> before[id]
                || is_among(part@, i + 1, id)) by {
                assert(was[id] <==> before[id] || is_among(part@, i as int, id));
                if id == part@[i as int] {
                    assert(is_among(part@, i + 1, id));
                }
                if is_among(part@, i as int, id) {
                    let j = choose|j: int| 0 <= j < i && #[trigger] part@[j] == id;
                    assert(is_among(part@, i + 1, id));
                }
            }
        }
        i += 1;
    }
    proof {
        assert forall|id: int| 0 <= id < before.len() implies (is_among(part@, i as int, id)
            <==> #[trigger] part@.contains(id as u32)) by {
            if part@.contains(id as u32) {
                let j = choose|j: int| 0 <= j < part@.len() && part@[j] == id as u32;
                assert(part@[j] == id);
            }
        }
        assert forall|id: int| 0 <= id < before.len() implies (#[trigger] mask@[id] <==> before[id]
            || part@.contains(id as u32)) by {
            assert(is_among(part@, i as int, id) <==> part@.contains(id as u32));
        }
    }
}

spec fn is_among(part: Seq<u32>, n: int, id: int) -> bool {
    exists|j: int| 0 <= j < n && #[trigger] part[j] == id
}

/// An island is first met at one position.
proof fn lemma_one_landfall(coast: Coast, k: int, i: int, j: int)
    requires
        coast.is_landfall(k, i),
        coast.is_landfall(k, j),
    ensures
        i == j,
{
    if i < j {
        assert(!coast.parts[k].contains(coast.order[i]));
    }
    if j < i {
        assert(!coast.parts[k].contains(coast.order[j]));
    }
}

/// The main continent neither joins nor sinks.
proof fn lemma_main(coast: Coast, id: int)
    ensures
        coast.is_crossed(coast.main + 1, id) == coast.is_crossed(coast.main, id),
        coast.is_remote(coast.main + 1, id) == coast.is_remote(coast.main, id),
{
    if coast.is_crossed(coast.main + 1, id) {
        let (k, j) = choose|k: int, j: int|
            0 <= k < coast.main + 1 && k != coast.main && #[trigger] coast.is_near(k, j)
                && coast.passes(j, id);
        assert(coast.is_near(k, j));
    }
    if coast.is_crossed(coast.main, id) {
        let (k, j) = choose|k: int, j: int|
            0 <= k < coast.main && k != coast.main && #[trigger] coast.is_near(k, j)
                && coast.passes(j, id);
        assert(coast.is_near(k, j));
    }
}

/// A near island is joined.
proof fn lemma_near(coast: Coast, k: int, j: int, id: int)
    requires
        0 <= k < coast.parts.len(),
        k != coast.main,
        coast.is_near(k, j),
    ensures
        coast.is_joined(k),
        coast.is_crossed(k + 1, id) <==> coast.is_crossed(k, id) || coast.passes(j, id),
        coast.is_remote(k + 1, id) == coast.is_remote(k, id),
{
    if coast.is_crossed(k + 1, id) {
        let (l, i) = choose|l: int, i: int|
            0 <= l < k + 1 && l != coast.main && #[trigger] coast.is_near(l, i) && coast.passes(
                i,
                id,
            );
        if l == k {
            lemma_one_landfall(coast, k, i, j);
        } else {
            assert(coast.is_near(l, i));
        }
    }
    if coast.is_crossed(k, id) {
        let (l, i) = choose|l: int, i: int|
            0 <= l < k && l != coast.main && #[trigger] coast.is_near(l, i) && coast.passes(i, id);
        assert(coast.is_near(l, i));
    }
}

/// A remote island sinks.
proof fn lemma_remote(coast: Coast, k: int, id: int)
    requires
        0 <= k < coast.parts.len(),
        k != coast.main,
        !coast.is_joined(k),
    ensures
        coast.is_crossed(k + 1, id) == coast.is_crossed(k, id),
        coast.is_remote(k + 1, id) <==> coast.is_remote(k, id) || coast.parts[k].contains(
            id as u32,
        ),
{
    if coast.is_crossed(k + 1, id) {
        let (l, i) = choose|l: int, i: int|
            0 <= l < k + 1 && l != coast.main && #[trigger] coast.is_near(l, i) && coast.passes(
                i,
                id,
            );
        assert(l != k);
        assert(coast.is_near(l, i));
    }
    if coast.is_crossed(k, id) {
        let (l, i) = choose|l: int, i: int|
            0 <= l < k && l != coast.main && #[trigger] coast.is_near(l, i) && coast.passes(i, id);
        assert(coast.is_near(l, i));
    }
}

/// The cells of a part are cells of the world.
proof fn lemma_part_bounds(g: Grid, open: Seq<bool>, part: Seq<u32>)
    requires
        is_part(g, open, part),
    ensures
        part.no_duplicates(),
        forall|i: int| 0 <= i < part.len() ==> (#[trigger] part[i]) < g.count(),
{
    let links = choose|links: Seq<(int, int)>| #[trigger]
        is_flood(g, open, seq![part[0]], part, links);
}

/// Marks of a world, none of them set.
fn no_marks(count: usize) -> (mask: Vec<bool>)
    ensures
        mask@.len() == count,
        forall|id: int| 0 <= id < count ==> !#[trigger] mask@[id],
{
    let mut mask: Vec<bool> = Vec::new();
    let mut i: usize = 0;
    while i < count
        invariant
            i <= count,
            mask@.len() == i,
            forall|id: int| 0 <= id < i ==> !#[trigger] mask@[id],
        decreases count - i,
    {
        mask.push(false);
        i += 1;
    }
    mask
}

/// What the islands come to: which water is bridged, which land sinks, and how
/// many islands are joined.
struct Fate {
    bridged: Vec<bool>,
    sunk: Vec<bool>,
    joined: usize,
}

/// Settles the islands of a coast.
fn settle(
    flood: &Flood,
    parts: &Parts,
    land: &Vec<bool>,
    main: usize,
    reach: u32,
    Ghost(g): Ghost<Grid>,
    Ghost(coast): Ghost<Coast>,
) -> (fate: Fate)
    requires
        g.fits(),
        land@.len() == g.count(),
        parts.are_of(g, land@),
        coast.parts == cells_of(parts.parts@),
        coast.order == flood.order@,
        coast.main == main,
        coast.reach == reach,
        is_last_longest(coast.parts, main as int),
        is_flood(g, all_open(g.count()), coast.parts[main as int], coast.order, coast.links),
        flood.links(coast.links, coast.sources()),
    ensures
        fate.bridged@.len() == g.count(),
        fate.sunk@.len() == g.count(),
        forall|id: int|
            0 <= id < g.count() ==> #[trigger] fate.bridged@[id] == coast.bridges(land@)(id),
        forall|id: int| 0 <= id < g.count() ==> #[trigger] fate.sunk@[id] == coast.sinks()(id),
        fate.joined == how_many(coast.parts.len() as int, coast.joins()),
        fate.joined <= coast.parts.len(),
{
    let count: usize = land.len();
    let sources: usize = parts.parts[main].len();
    assert(coast.parts[main as int] == parts.parts@[main as int]@);
    proof {
        crate::flood::lemma_few(flood.order@, g.count());
        assert forall|k: int| coast.sources() <= k < coast.links.len() implies 0 <= (
        #[trigger] coast.links[k]).0 < k by {
            assert(all_open(g.count())[coast.order[k] as int]);
        }
    }
    let distance = count_hops(flood, sources, Ghost(coast.links));
    let ends = landfalls(flood, parts, Ghost(g), Ghost(land@), Ghost(coast));
    let mut bridged = no_marks(count);
    let mut sunk = no_marks(count);
    let mut joined: usize = 0;
    let n: usize = parts.parts.len();
    proof {
        assert(is_part(g, land@, coast.parts[main as int]));
        assert forall|k: int| 0 <= k < sources implies land@[(#[trigger] flood.order@[k]) as int] by {
            assert(coast.order.take(sources as int)[k] == coast.order[k]);
            assert(coast.parts[main as int].contains(coast.order[k]));
            lemma_in_part(g, land@, coast.parts[main as int], coast.order[k] as int);
        }
    }
    let mut k: usize = 0;
    while k < n
        invariant
            g.fits(),
            land@.len() == g.count(),
            count == land@.len(),
            n == parts.parts@.len(),
            parts.are_of(g, land@),
            coast.parts == cells_of(parts.parts@),
            coast.order == flood.order@,
            coast.main == main,
            coast.reach == reach,
            coast.sources() == sources,
            coast.links.len() == coast.order.len(),
            flood.links(coast.links, coast.sources()),
            flood.order@.len() <= u32::MAX,
            forall|k: int|
                sources <= k < coast.links.len() ==> 0 <= (#[trigger] coast.links[k]).0 < k,
            forall|k: int| 0 <= k < flood.order@.len() ==> (#[trigger] flood.order@[k]) < g.count(),
            forall|k: int| 0 <= k < sources ==> land@[(#[trigger] flood.order@[k]) as int],
            distance@.len() == flood.order@.len(),
            forall|k: int|
                0 <= k < distance@.len() ==> #[trigger] distance@[k] == hops(
                    coast.links,
                    sources as int,
                    k,
                ),
            ends@.len() == n,
            forall|k: int|
                0 <= k < ends@.len() ==> match #[trigger] ends@[k] {
                    Some(j) => coast.is_landfall(k, j as int),
                    None => forall|i: int|
                        0 <= i < coast.order.len() ==> !coast.parts[k].contains(
                            #[trigger] coast.order[i],
                        ),
                },
            k <= n,
            bridged@.len() == count,
            sunk@.len() == count,
            forall|id: int|
                0 <= id < count ==> (#[trigger] bridged@[id] <==> !land@[id] && coast.is_crossed(
                    k as int,
                    id,
                )),
            forall|id: int|
                0 <= id < count ==> (#[trigger] sunk@[id] <==> coast.is_remote(k as int, id)),
            joined == how_many(k as int, coast.joins()) <= k,
        decreases n - k,
    {
        if k == main {
            proof {
                assert forall|id: int| 0 <= id < count implies (#[trigger] bridged@[id]
                    <==> !land@[id] && coast.is_crossed(k + 1, id)) && (sunk@[id]
                    <==> coast.is_remote(k + 1, id)) by {
                    lemma_main(coast, id);
                }
                assert forall|id: int| 0 <= id < count implies (#[trigger] sunk@[id]
                    <==> coast.is_remote(k + 1, id)) by {
                    lemma_main(coast, id);
                }
                assert(!coast.joins()(k as int));
            }
        } else {
            let ghost was_bridged = bridged@;
            let ghost was_sunk = sunk@;
            let end: Option<usize> = match ends[k] {
                Some(j) => {
                    assert(coast.is_landfall(k as int, j as int));
                    if distance[j] > reach {
                        None
                    } else {
                        Some(j)
                    }
                },
                None => None,
            };
            match end {
                Some(j) => {
                    assert(coast.is_near(k as int, j as int));
                    mark_way(flood, land, j, sources, &mut bridged, Ghost(coast));
                    joined += 1;
                    proof {
                        assert forall|id: int| 0 <= id < count implies (#[trigger] bridged@[id]
                            <==> !land@[id] && coast.is_crossed(k + 1, id)) by {
                            assert(was_bridged[id] <==> !land@[id] && coast.is_crossed(
                                k as int,
                                id,
                            ));
                            lemma_near(coast, k as int, j as int, id);
                        }
                        assert forall|id: int| 0 <= id < count implies (#[trigger] sunk@[id]
                            <==> coast.is_remote(k + 1, id)) by {
                            lemma_near(coast, k as int, j as int, id);
                        }
                        lemma_near(coast, k as int, j as int, 0);
                        assert(coast.joins()(k as int));
                    }
                },
                None => {
                    assert(!coast.is_joined(k as int)) by {
                        if coast.is_joined(k as int) {
                            let j = choose|j: int| #[trigger] coast.is_near(k as int, j);
                            match ends@[k as int] {
                                Some(i) => {
                                    lemma_one_landfall(coast, k as int, i as int, j);
                                },
                                None => {
                                    assert(coast.parts[k as int].contains(coast.order[j]));
                                },
                            }
                        }
                    }
                    assert(coast.parts[k as int] == parts.parts@[k as int]@);
                    proof {
                        assert(is_part(g, land@, coast.parts[k as int]));
                        lemma_part_bounds(g, land@, coast.parts[k as int]);
                    }
                    mark_part(&parts.parts[k], &mut sunk);
                    proof {
                        assert forall|id: int| 0 <= id < count implies (#[trigger] sunk@[id]
                            <==> coast.is_remote(k + 1, id)) by {
                            assert(was_sunk[id] <==> coast.is_remote(k as int, id));
                            lemma_remote(coast, k as int, id);
                        }
                        assert forall|id: int| 0 <= id < count implies (#[trigger] bridged@[id]
                            <==> !land@[id] && coast.is_crossed(k + 1, id)) by {
                            lemma_remote(coast, k as int, id);
                        }
                        assert(!coast.joins()(k as int));
                    }
                },
            }
        }
        k += 1;
    }
    Fate { bridged, sunk, joined }
}

/// The writes that a mask calls for.
fn write_marked<A: Copy>(
    mask: &Vec<bool>,
    value: A,
    Ghost(test): Ghost<spec_fn(int) -> bool>,
    Ghost(values): Ghost<spec_fn(int) -> A>,
) -> (writes: Vec<(u32, A)>)
    requires
        mask@.len() <= u32::MAX,
        forall|id: int| 0 <= id < mask@.len() ==> #[trigger] mask@[id] == test(id),
        forall|id: int| #[trigger] values(id) == value,
    ensures
        writes@ == writes_where(mask@.len() as int, test, values),
        writes@.len() == how_many(mask@.len() as int, test),
{
    let mut writes: Vec<(u32, A)> = Vec::new();
    let mut id: u32 = 0;
    while (id as usize) < mask.len()
        invariant
            mask@.len() <= u32::MAX,
            id <= mask@.len(),
            forall|id: int| 0 <= id < mask@.len() ==> #[trigger] mask@[id] == test(id),
            forall|id: int| #[trigger] values(id) == value,
            writes@ == writes_where(id as int, test, values),
            writes@.len() == how_many(id as int, test),
        decreases mask.len() - id,
    {
        if mask[id as usize] {
            writes.push((id, value));
        }
        id += 1;
    }
    writes
}

/// Tests that no number passes both are passed by as many as there are at most.
proof fn lemma_disjoint(n: int, a: spec_fn(int) -> bool, b: spec_fn(int) -> bool)
    requires
        0 <= n,
        forall|id: int| 0 <= id < n ==> !(#[trigger] a(id) && b(id)),
    ensures
        how_many(n, a) + how_many(n, b) <= n,
    decreases n,
{
    if n > 0 {
        lemma_disjoint(n - 1, a, b);
        assert(!(a(n - 1) && b(n - 1)));
    }
}

/// Mends a coast of several islands.
fn mend(world: &LayeredWorld, land: &Vec<bool>, parts: &Parts) -> (patch: WorldPatch)
    requires
        world.is_laid_out(),
        land@ == land_mask(*world),
        parts.are_of(world.grid(), land@),
        parts.parts@.len() > 1,
    ensures
        is_coast_patch(*world, patch),
{
    let ghost g = world.grid();
    let count: usize = world.cells.len();
    let main: usize = last_longest(&parts.parts);
    let mut open: Vec<bool> = Vec::new();
    let mut i: usize = 0;
    while i < count
        invariant
            i <= count,
            open@.len() == i,
            forall|id: int| 0 <= id < i ==> #[trigger] open@[id],
        decreases count - i,
    {
        open.push(true);
        i += 1;
    }
    assert(open@ =~= all_open(g.count()));
    let ghost list = cells_of(parts.parts@);
    proof {
        assert(list[main as int] == parts.parts@[main as int]@);
        assert(is_part(g, land@, list[main as int]));
        lemma_part_bounds(g, land@, list[main as int]);
    }
    let flood = world.flood(open.as_slice(), parts.parts[main].as_slice());
    let reach: u32 = if world.manifest.macro_cell_size < 4 {
        4
    } else {
        world.manifest.macro_cell_size as u32
    };
    let ghost links = choose|links: Seq<(int, int)>|
        is_flood(g, open@, list[main as int], flood.order@, links) && #[trigger] flood.links(
            links,
            list[main as int].len() as int,
        );
    let ghost coast = Coast {
        parts: list,
        main: main as int,
        order: flood.order@,
        links,
        reach: reach as int,
    };
    let fate = settle(&flood, parts, land, main, reach, Ghost(g), Ghost(coast));
    let ghost bridges = coast.bridges(land@);
    let elevation = write_marked(
        &fate.bridged,
        ElevationWrite::Assign(1),
        Ghost(bridges),
        Ghost(bridge_height()),
    );
    let mut surfaces = write_marked(
        &fate.bridged,
        Surface::Land,
        Ghost(bridges),
        Ghost(always(Surface::Land)),
    );
    let mut sunk = write_marked(
        &fate.sunk,
        Surface::Ocean,
        Ghost(coast.sinks()),
        Ghost(always(Surface::Ocean)),
    );
    let made: usize = elevation.len();
    let lost: usize = sunk.len();
    proof {
        assert forall|id: int| 0 <= id < g.count() implies !(#[trigger] bridges(id) && coast.sinks()(
            id,
        )) by {
            if coast.sinks()(id) {
                let k = choose|k: int|
                    0 <= k < coast.parts.len() && k != coast.main && !coast.is_joined(k)
                        && #[trigger] coast.parts[k].contains(id as u32);
                assert(is_part(g, land@, coast.parts[k]));
                lemma_in_part(g, land@, coast.parts[k], id);
            }
        }
        lemma_disjoint(g.count(), bridges, coast.sinks());
    }
    surfaces.append(&mut sunk);
    let mut message = text("connected ");
    append_decimal(&mut message, fate.joined as u64);
    message.append(" coastal components with ");
    append_decimal(&mut message, made as u64);
    message.append(" bridge cells; discarded ");
    append_decimal(&mut message, lost as u64);
    message.append(" remote island cells");
    let patch = WorldPatch {
        elevation,
        surfaces,
        report: report(made + lost, message),
        ..WorldPatch::default()
    };
    proof {
        let layers = coast_layers();
        assert(layers[0] == WorldLayer::Elevation && layers[1] == WorldLayer::Surface);
        assert(is_mended(*world, coast, patch));
    }
    patch
}

impl WorldPass for CoastConnectivityPass {
    open spec fn title(&self) -> Seq<char> {
        "coast-connectivity"@
    }

    open spec fn inputs(&self) -> Seq<WorldLayer> {
        coast_layers()
    }

    open spec fn outputs(&self) -> Seq<WorldLayer> {
        coast_layers()
    }

    open spec fn owes(
        &self,
        world: LayeredWorld,
        pass_seed: u64,
        outcome: Result<WorldPatch, String>,
    ) -> bool {
        outcome matches Ok(patch) && is_coast_patch(world, patch)
    }

    fn name(&self) -> (name: &'static str) {
        "coast-connectivity"
    }

    fn reads(&self) -> (layers: Vec<WorldLayer>) {
        vec![WorldLayer::Elevation, WorldLayer::Surface]
    }

    fn writes(&self) -> (layers: Vec<WorldLayer>) {
        vec![WorldLayer::Elevation, WorldLayer::Surface]
    }

    fn run(&self, world: &LayeredWorld, pass_seed: u64) -> (outcome: Result<WorldPatch, String>) {
        let land = mark_land(world);
        let parts = world.parts(land.as_slice());
        if parts.parts.len() <= 1 {
            let patch = WorldPatch {
                report: report(0, text("coast already forms one connected landmass")),
                ..WorldPatch::default()
            };
            assert(is_left(*world, cells_of(parts.parts@), patch));
            return Ok(patch);
        }
        Ok(mend(world, &land, &parts))
    }
}

} // verus!
