//! Hydrology: lakes fill the hollows, and streams that carry enough are rivers.
use vstd::prelude::*;
use crate::coast::{all_open, land_mask, mark_land};
use crate::continent::every_cell;
use crate::fill::{elevations, is_filled, law_levels_are_unique, ocean_mask};
use crate::flood::direction_at;
use crate::layers::{
    law_neighbours_are_mutual, lemma_line_bounds, LayeredWorld, RiverCell, Surface, TerrainTags,
    V2Manifest, WorldLayer,
};
use crate::noise::{fractal_noise, fractal_noise_at, quotient, toward_zero};
use crate::parts::{are_labels, cells_of, is_part_list};
use crate::patch::{how_many, note, notes_of, writes_where, PassReport, WorldPatch};
use crate::streams::{
    law_discharge_is_unique, law_discharge_never_falls, law_drainage_is_unique,
    law_streams_are_unique, law_streams_run_down, runs_in, Step, Streams, Waters,
};
use crate::text::{append_decimal, decimal};
use crate::world_pass::{some_beside, WorldPass};

verus! {

pub struct HydrologyPass;

/// How deep a hollow must be for a lake.
pub open spec fn lake_depth(m: V2Manifest) -> int {
    if m.parameters.lake_depth_threshold < 1 {
        1
    } else {
        m.parameters.lake_depth_threshold as int
    }
}

/// Where lakes stand.
pub open spec fn lake_mask(world: LayeredWorld, filled: Seq<i16>) -> Seq<bool> {
    Seq::new(
        world.layers().len(),
        |id: int|
            world.layers()[id].surface == Surface::Land && filled[id] - world.layers()[id].elevation
                >= lake_depth(world.manifest),
    )
}

/// The ground of a world with its water at some levels.
pub open spec fn waters_of(world: LayeredWorld, filled: Seq<i16>) -> Waters {
    Waters {
        grid: world.grid(),
        filled,
        ocean: ocean_mask(world),
        land: land_mask(world),
        lake: lake_mask(world, filled),
    }
}

/// How much a stream must carry to be a river.
pub open spec fn river_limit(m: V2Manifest) -> int {
    if m.parameters.river_threshold != 0 {
        m.parameters.river_threshold as int
    } else {
        let short = if m.width < m.height {
            m.width as int
        } else {
            m.height as int
        };
        let share = m.grid().count() / 512;
        let least = if share > 2 * short {
            share
        } else {
            2 * short
        };
        if least > 64 {
            least
        } else {
            64
        }
    }
}

/// The binary logarithm, rounded down.
pub open spec fn floor_log2(n: int) -> int
    decreases n,
{
    if n <= 1 {
        0
    } else {
        1 + floor_log2(n / 2)
    }
}

/// The bit of a direction.
pub open spec fn bit(d: int) -> u8 {
    if d == 0 {
        1
    } else if d == 1 {
        2
    } else if d == 2 {
        4
    } else if d == 3 {
        8
    } else if d == 4 {
        16
    } else {
        32
    }
}

/// The rivers of some ground.
pub struct Rivers {
    pub waters: Waters,
    pub down: Seq<Step>,
    pub flow: Seq<u32>,
    pub drains: Seq<bool>,
    pub limit: int,
}

impl Rivers {
    /// Whether a cell has a river: its stream carries enough and comes to water.
    pub open spec fn is_river(self, id: int) -> bool {
        self.down[id] is Some && self.flow[id] >= self.limit && self.drains[id]
    }

    /// Whether a river runs into a cell from a direction.
    pub open spec fn feeds(self, id: int, d: int) -> bool {
        self.waters.grid.beside(id, d) matches Some(n) && self.is_river(n)
            && self.down[n].unwrap().1 == id
    }

    pub open spec fn feed_bit(self, id: int, d: int) -> u8 {
        if self.feeds(id, d) {
            bit(d)
        } else {
            0
        }
    }

    /// The bits of the directions that rivers come from.
    pub open spec fn inflow(self, id: int) -> u8 {
        self.feed_bit(id, 0) | self.feed_bit(id, 1) | self.feed_bit(id, 2) | self.feed_bit(id, 3)
            | self.feed_bit(id, 4) | self.feed_bit(id, 5)
    }

    pub open spec fn river(self, id: int) -> RiverCell {
        RiverCell {
            outflow: self.down[id].unwrap().0,
            inflow_mask: self.inflow(id),
            order: (floor_log2(self.flow[id] as int / self.limit) + 1) as u8,
            discharge: self.flow[id],
        }
    }

    pub open spec fn flags(self, id: int) -> u16 {
        let spring: u16 = if self.inflow(id) == 0 {
            TerrainTags::SOURCE
        } else {
            0
        };
        let mouth: u16 = if self.waters.is_water(self.down[id].unwrap().1 as int) {
            TerrainTags::OUTLET
        } else {
            0
        };
        TerrainTags::RIVERBANK | spring | mouth
    }

    /// Where there is water of any kind.
    pub open spec fn wet_mask(self) -> Seq<bool> {
        Seq::new(
            self.waters.grid.count() as nat,
            |id: int| self.waters.is_water(id) || self.is_river(id),
        )
    }

    pub open spec fn moisture_at(self, seed: u64, id: int) -> int {
        let width = self.waters.grid.width;
        let noise = fractal_noise_at(seed ^ 0x4D4F_4953_5455_5245, id % width, id / width, 96);
        let base = 92 + toward_zero(noise, 16);
        let damp = if self.waters.lake[id] || self.is_river(id) {
            255
        } else if some_beside(self.waters.grid, self.wet_mask(), id) && base < 190 {
            190
        } else {
            base
        };
        if damp < 0 {
            0
        } else if damp > 255 {
            255
        } else {
            damp
        }
    }

    pub open spec fn rivers(self) -> spec_fn(int) -> bool {
        |id: int| self.is_river(id)
    }

    pub open spec fn lakes(self) -> spec_fn(int) -> bool {
        |id: int| self.waters.lake[id]
    }

    pub open spec fn river_writes(self) -> spec_fn(int) -> Option<RiverCell> {
        |id: int| Some(self.river(id))
    }

    pub open spec fn tag_writes(self) -> spec_fn(int) -> TerrainTags {
        |id: int| TerrainTags(self.flags(id))
    }

    pub open spec fn moisture_writes(self, seed: u64) -> spec_fn(int) -> u8 {
        |id: int| self.moisture_at(seed, id) as u8
    }

    /// Whether these are the rivers of a world.
    pub open spec fn are_of(self, world: LayeredWorld, seed: u64) -> bool {
        let g = world.grid();
        &&& is_filled(g, elevations(world), ocean_mask(world), self.waters.filled)
        &&& self.waters == waters_of(world, self.waters.filled)
        &&& self.waters.is_downstream(self.down)
        &&& crate::streams::is_discharge(g, seed, self.down, self.flow)
        &&& crate::streams::is_drained(self.waters, self.down, self.drains)
        &&& self.limit == river_limit(world.manifest)
    }
}

pub open spec fn lake_surface() -> spec_fn(int) -> Surface {
    |id: int| Surface::Lake
}

/// The number of the lake in a cell: lakes count from one, by their first cells.
pub open spec fn lake_number(labels: Seq<Option<u32>>, id: int) -> Option<u32> {
    match labels[id] {
        Some(k) => Some((k + 1) as u32),
        None => None,
    }
}

pub open spec fn lake_numbers(labels: Seq<Option<u32>>) -> spec_fn(int) -> Option<u32> {
    |id: int| lake_number(labels, id)
}

pub open spec fn hydrology_outputs() -> Seq<WorldLayer> {
    seq![WorldLayer::Surface, WorldLayer::Moisture, WorldLayer::Hydrology, WorldLayer::Tags]
}

/// Whether this patch fills the lakes and traces the rivers.
pub open spec fn is_watered(
    world: LayeredWorld,
    seed: u64,
    rivers: Rivers,
    parts: Seq<Seq<u32>>,
    labels: Seq<Option<u32>>,
    p: WorldPatch,
) -> bool {
    &&& rivers.are_of(world, seed)
    &&& is_part_list(world.grid(), rivers.waters.lake, parts)
    &&& are_labels(rivers.waters.lake, parts, labels)
    &&& is_laid(world.grid().count(), seed, rivers, labels, parts.len() as int, p)
}

/// Whether this patch lays the water of a number of cells down.
pub open spec fn is_laid(
    n: int,
    seed: u64,
    rivers: Rivers,
    labels: Seq<Option<u32>>,
    lake_count: int,
    p: WorldPatch,
) -> bool {
    let lakes = rivers.lakes();
    let traced = how_many(n, rivers.rivers()) as int;
    &&& p.surfaces@ == writes_where(n, lakes, lake_surface())
    &&& p.water_bodies@ == writes_where(n, lakes, lake_numbers(labels))
    &&& p.rivers@ == writes_where(n, rivers.rivers(), rivers.river_writes())
    &&& p.moisture@ == writes_where(n, every_cell(), rivers.moisture_writes(seed))
    &&& p.tags@ == writes_where(n, rivers.rivers(), rivers.tag_writes())
    &&& p.report.tells(
        how_many(n, lakes) + traced,
        seq![
            "identified "@ + decimal(lake_count) + " depression-fed lakes"@,
            "traced "@ + decimal(traced) + " river cells at accumulation threshold "@ + decimal(
                rivers.limit,
            ),
        ],
    )
    &&& p.stays_within(hydrology_outputs())
}

pub open spec fn is_hydrology(world: LayeredWorld, seed: u64, p: WorldPatch) -> bool {
    exists|rivers: Rivers, parts: Seq<Seq<u32>>, labels: Seq<Option<u32>>| #[trigger]
        is_watered(world, seed, rivers, parts, labels, p)
}

/// The bits of an inflow mask are those of the directions that rivers come from.
pub proof fn law_inflow_names_its_rivers(rivers: Rivers, id: int, d: int)
    requires
        0 <= d < 6,
    ensures
        rivers.inflow(id) & bit(d) != 0 <==> rivers.feeds(id, d),
{
    let a = rivers.feed_bit(id, 0);
    let b = rivers.feed_bit(id, 1);
    let c = rivers.feed_bit(id, 2);
    let e = rivers.feed_bit(id, 3);
    let f = rivers.feed_bit(id, 4);
    let h = rivers.feed_bit(id, 5);
    let m = a | b | c | e | f | h;
    assert((m & 1 != 0 <==> a != 0) && (m & 2 != 0 <==> b != 0) && (m & 4 != 0 <==> c != 0) && (m & 8
        != 0 <==> e != 0) && (m & 16 != 0 <==> f != 0) && (m & 32 != 0 <==> h != 0)) by (bit_vector)
        requires
            m == a | b | c | e | f | h,
            a == 0 || a == 1,
            b == 0 || b == 2,
            c == 0 || c == 4,
            e == 0 || e == 8,
            f == 0 || f == 16,
            h == 0 || h == 32,
    ;
}

/// A river runs into a lake, the sea, or a river that names it among its
/// inflows and carries no less.
pub proof fn law_rivers_run_on(world: LayeredWorld, seed: u64, rivers: Rivers, id: int)
    requires
        world.is_laid_out(),
        rivers.are_of(world, seed),
        0 <= id < world.grid().count(),
        rivers.is_river(id),
    ensures
        ({
            let n = rivers.down[id].unwrap().1 as int;
            let back = (rivers.down[id].unwrap().0.ordinal() + 3) % 6;
            &&& 0 <= n < world.grid().count()
            &&& rivers.waters.is_water(n) || (rivers.is_river(n) && rivers.inflow(n) & bit(back)
                != 0 && rivers.flow[id] <= rivers.flow[n])
        }),
{
    let w = rivers.waters;
    let g = world.grid();
    lemma_sound(world, rivers);
    law_streams_run_down(w, rivers.down, id);
    let n = rivers.down[id].unwrap().1 as int;
    let o = rivers.down[id].unwrap().0.ordinal();
    let back = (o + 3) % 6;
    assert(w.is_step(id, rivers.down[id]));
    law_neighbours_are_mutual(g, id, o);
    assert(g.beside(n, back) == Some(id));
    if !w.is_water(n) {
        assert(rivers.drains[id] == crate::streams::drains_on(w, rivers.down, rivers.drains, id));
        assert(rivers.drains[n]);
        assert(rivers.drains[n] == crate::streams::drains_on(w, rivers.down, rivers.drains, n));
        assert(runs_in(g, rivers.down, all_open(g.count()), n, back));
        law_discharge_never_falls(g, seed, rivers.down, rivers.flow, n, back);
        assert(rivers.feeds(n, back));
        law_inflow_names_its_rivers(rivers, n, back);
    }
}

/// Whether cells follow a river down to a lake or the sea.
pub open spec fn is_course(rivers: Rivers, course: Seq<int>) -> bool {
    &&& course.len() > 1
    &&& forall|i: int|
        0 <= i < course.len() - 1 ==> rivers.is_river(#[trigger] course[i])
            && rivers.down[course[i]].unwrap().1 == course[i + 1]
    &&& rivers.waters.is_water(course.last())
}

/// Every river comes to a lake or the sea.
pub proof fn law_rivers_reach_water(world: LayeredWorld, seed: u64, rivers: Rivers, id: int)
    requires
        world.is_laid_out(),
        rivers.are_of(world, seed),
        0 <= id < world.grid().count(),
        rivers.is_river(id),
    ensures
        exists|course: Seq<int>| #[trigger] is_course(rivers, course) && course[0] == id,
    decreases rivers.waters.filled[id] + 32_768, id,
{
    let w = rivers.waters;
    lemma_sound(world, rivers);
    law_rivers_run_on(world, seed, rivers, id);
    law_streams_run_down(w, rivers.down, id);
    let n = rivers.down[id].unwrap().1 as int;
    if w.is_water(n) {
        let course = seq![id, n];
        assert(is_course(rivers, course));
        assert(course[0] == id);
    } else {
        law_rivers_reach_water(world, seed, rivers, n);
        let rest = choose|course: Seq<int>| #[trigger] is_course(rivers, course) && course[0] == n;
        let course = seq![id] + rest;
        assert forall|i: int| 0 <= i < course.len() - 1 implies rivers.is_river(#[trigger] course[i])
            && rivers.down[course[i]].unwrap().1 == course[i + 1] by {
            if i > 0 {
                assert(course[i] == rest[i - 1]);
                assert(course[i + 1] == rest[i]);
            }
        }
        assert(course.last() == rest.last());
        assert(is_course(rivers, course));
        assert(course[0] == id);
    }
}

pub proof fn lemma_sound(world: LayeredWorld, rivers: Rivers)
    requires
        world.is_laid_out(),
        rivers.waters == waters_of(world, rivers.waters.filled),
        rivers.waters.filled.len() == world.grid().count(),
    ensures
        rivers.waters.is_sound(),
{
}

/// The rivers of a world are determined.
pub proof fn law_rivers_are_unique(world: LayeredWorld, seed: u64, rivers: Rivers, rivers2: Rivers)
    requires
        world.is_laid_out(),
        rivers.are_of(world, seed),
        rivers2.are_of(world, seed),
    ensures
        rivers == rivers2,
{
    law_levels_are_unique(
        world.grid(),
        elevations(world),
        ocean_mask(world),
        rivers.waters.filled,
        rivers2.waters.filled,
    );
    let w = rivers.waters;
    lemma_sound(world, rivers);
    law_streams_are_unique(w, rivers.down, rivers2.down);
    law_discharge_is_unique(w, seed, rivers.down, rivers.flow, rivers2.flow);
    law_drainage_is_unique(w, rivers.down, rivers.drains, rivers2.drains);
}

/// A lake and a river are never in one cell.
proof fn lemma_lakes_are_no_rivers(rivers: Rivers, id: int)
    requires
        rivers.waters.is_downstream(rivers.down),
        0 <= id < rivers.waters.grid.count(),
        rivers.is_river(id),
    ensures
        !rivers.waters.lake[id],
{
    assert(rivers.waters.is_step(id, rivers.down[id]));
}

/// The binary logarithm, rounded down.
fn logarithm(n: u32) -> (k: u32)
    ensures
        k == floor_log2(n as int),
        k < 32,
    decreases n,
{
    if n <= 1 {
        0
    } else {
        proof {
            vstd::arithmetic::power2::lemma2_to64();
            lemma_log_bound(n as int, 32);
        }
        logarithm(n / 2) + 1
    }
}

pub proof fn lemma_log_bound(n: int, bits: nat)
    requires
        bits > 0,
        n < vstd::arithmetic::power2::pow2(bits),
    ensures
        floor_log2(n) < bits,
    decreases bits,
{
    vstd::arithmetic::power2::lemma_pow2_unfold(bits);
    if n > 1 {
        if bits == 1 {
            vstd::arithmetic::power2::lemma2_to64();
        } else {
            lemma_log_bound(n / 2, (bits - 1) as nat);
        }
    }
}

/// Marks the sea of a world.
fn mark_ocean(world: &LayeredWorld) -> (ocean: Vec<bool>)
    ensures
        ocean@ == ocean_mask(*world),
{
    let mut ocean: Vec<bool> = Vec::new();
    let mut i: usize = 0;
    while i < world.cells.len()
        invariant
            i <= world.cells@.len(),
            ocean@ =~= ocean_mask(*world).take(i as int),
        decreases world.cells.len() - i,
    {
        ocean.push(world.cells[i].surface == Surface::Ocean);
        i += 1;
    }
    assert(ocean@ =~= ocean_mask(*world));
    ocean
}

/// Marks the hollows that lakes fill.
fn mark_lakes(world: &LayeredWorld, filled: &Vec<i16>) -> (lake: Vec<bool>)
    requires
        filled@.len() == world.layers().len(),
    ensures
        lake@ == lake_mask(*world, filled@),
{
    let mut depth: i32 = world.manifest.parameters.lake_depth_threshold as i32;
    if depth < 1 {
        depth = 1;
    }
    let mut lake: Vec<bool> = Vec::new();
    let mut i: usize = 0;
    while i < world.cells.len()
        invariant
            i <= world.cells@.len(),
            filled@.len() == world.cells@.len(),
            depth == lake_depth(world.manifest),
            lake@ =~= lake_mask(*world, filled@).take(i as int),
        decreases world.cells.len() - i,
    {
        let cell = world.cells[i];
        lake.push(
            cell.surface == Surface::Land && filled[i] as i32 - cell.elevation as i32 >= depth,
        );
        i += 1;
    }
    assert(lake@ =~= lake_mask(*world, filled@));
    lake
}

fn river_threshold(m: &V2Manifest) -> (limit: u32)
    requires
        m.grid().fits(),
    ensures
        limit == river_limit(*m),
        limit >= 1,
{
    if m.parameters.river_threshold != 0 {
        return m.parameters.river_threshold;
    }
    let short: u32 = if m.width < m.height {
        m.width
    } else {
        m.height
    };
    let share: u32 = m.width * m.height / 512;
    let least: u32 = if share > 2 * short {
        share
    } else {
        2 * short
    };
    if least > 64 {
        least
    } else {
        64
    }
}

/// Numbers the lakes: each cell's number, counted from one in the order of the
/// lakes' first cells, and how many there are.
pub fn label_lakes(world: &LayeredWorld, lake_mask: &[bool]) -> (numbered: (Vec<Option<u32>>, u32))
    requires
        world.is_laid_out(),
        lake_mask@.len() == world.grid().count(),
    ensures
        exists|parts: Seq<Seq<u32>>, labels: Seq<Option<u32>>|
            is_part_list(world.grid(), lake_mask@, parts) && #[trigger] are_labels(
                lake_mask@,
                parts,
                labels,
            ) && numbered.1 == parts.len() && numbered.0@ == Seq::new(
                labels.len(),
                |id: int| lake_number(labels, id),
            ),
{
    let parts = world.parts(lake_mask);
    let ghost labels = parts.labels@;
    let count: u32 = parts.parts.len() as u32;
    let mut numbers: Vec<Option<u32>> = Vec::new();
    let mut i: usize = 0;
    while i < parts.labels.len()
        invariant
            i <= parts.labels@.len(),
            labels == parts.labels@,
            are_labels(lake_mask@, cells_of(parts.parts@), labels),
            parts.parts@.len() <= u32::MAX,
            numbers@ =~= Seq::new(i as nat, |id: int| lake_number(labels, id)),
        decreases parts.labels.len() - i,
    {
        match parts.labels[i] {
            Some(label) => {
                numbers.push(Some(label + 1));
            },
            None => {
                numbers.push(None);
            },
        }
        i += 1;
    }
    assert(are_labels(lake_mask@, cells_of(parts.parts@), labels));
    (numbers, count)
}

/// The bits of the directions that rivers come from.
fn inflow_of(
    world: &LayeredWorld,
    streams: &Streams,
    running: &Vec<bool>,
    id: u32,
    Ghost(rivers): Ghost<Rivers>,
) -> (mask: u8)
    requires
        world.is_laid_out(),
        rivers.waters.grid == world.grid(),
        rivers.down == streams.down@,
        streams.down@.len() == world.grid().count(),
        running@.len() == world.grid().count(),
        forall|i: int| 0 <= i < running@.len() ==> #[trigger] running@[i] == rivers.is_river(i),
        id < world.grid().count(),
    ensures
        mask == rivers.inflow(id as int),
{
    let a: u8 = feed_of(world, streams, running, id, 0, 1, Ghost(rivers));
    let b: u8 = feed_of(world, streams, running, id, 1, 2, Ghost(rivers));
    let c: u8 = feed_of(world, streams, running, id, 2, 4, Ghost(rivers));
    let d: u8 = feed_of(world, streams, running, id, 3, 8, Ghost(rivers));
    let e: u8 = feed_of(world, streams, running, id, 4, 16, Ghost(rivers));
    let f: u8 = feed_of(world, streams, running, id, 5, 32, Ghost(rivers));
    a | b | c | d | e | f
}

fn feed_of(
    world: &LayeredWorld,
    streams: &Streams,
    running: &Vec<bool>,
    id: u32,
    d: usize,
    weight: u8,
    Ghost(rivers): Ghost<Rivers>,
) -> (mask: u8)
    requires
        world.is_laid_out(),
        rivers.waters.grid == world.grid(),
        rivers.down == streams.down@,
        streams.down@.len() == world.grid().count(),
        running@.len() == world.grid().count(),
        forall|i: int| 0 <= i < running@.len() ==> #[trigger] running@[i] == rivers.is_river(i),
        id < world.grid().count(),
        d < 6,
        weight == bit(d as int),
    ensures
        mask == rivers.feed_bit(id as int, d as int),
{
    match world.neighbor_id(id, direction_at(d)) {
        Some(next) => {
            if running[next as usize] {
                match streams.down[next as usize] {
                    Some((_, target)) => {
                        if target == id {
                            return weight;
                        }
                    },
                    None => {},
                }
            }
            0
        },
        None => 0,
    }
}

/// The river of a cell, and its tags.
fn river_of(
    world: &LayeredWorld,
    streams: &Streams,
    running: &Vec<bool>,
    water: &Vec<bool>,
    id: u32,
    limit: u32,
    Ghost(rivers): Ghost<Rivers>,
) -> (river: (RiverCell, TerrainTags))
    requires
        world.is_laid_out(),
        rivers.waters.grid == world.grid(),
        rivers.waters.is_downstream(rivers.down),
        rivers.down == streams.down@,
        rivers.flow == streams.flow@,
        rivers.limit == limit,
        limit >= 1,
        streams.flow@.len() == world.grid().count(),
        running@.len() == world.grid().count(),
        forall|i: int| 0 <= i < running@.len() ==> #[trigger] running@[i] == rivers.is_river(i),
        water@.len() == world.grid().count(),
        forall|i: int| 0 <= i < water@.len() ==> #[trigger] water@[i] == rivers.waters.is_water(i),
        id < world.grid().count(),
        rivers.is_river(id as int),
    ensures
        river.0 == rivers.river(id as int),
        river.1 == TerrainTags(rivers.flags(id as int)),
{
    assert(rivers.waters.is_step(id as int, rivers.down[id as int]));
    let (outflow, next) = match streams.down[id as usize] {
        Some(step) => step,
        None => vstd::pervasive::unreached(),
    };
    let inflow_mask: u8 = inflow_of(world, streams, running, id, Ghost(rivers));
    let discharge: u32 = streams.flow[id as usize];
    let order: u8 = (logarithm(discharge / limit) + 1) as u8;
    let spring: u16 = if inflow_mask == 0 {
        TerrainTags::SOURCE
    } else {
        0
    };
    let mouth: u16 = if water[next as usize] {
        TerrainTags::OUTLET
    } else {
        0
    };
    (
        RiverCell { outflow, inflow_mask, order, discharge },
        TerrainTags(TerrainTags::RIVERBANK | spring | mouth),
    )
}

fn moisture_of(
    world: &LayeredWorld,
    seed: u64,
    wet: &Vec<bool>,
    soaked: bool,
    id: u32,
    Ghost(rivers): Ghost<Rivers>,
) -> (moisture: u8)
    requires
        world.is_laid_out(),
        rivers.waters.grid == world.grid(),
        wet@ == rivers.wet_mask(),
        id < world.grid().count(),
        soaked == (rivers.waters.lake[id as int] || rivers.is_river(id as int)),
    ensures
        moisture == rivers.moisture_at(seed, id as int),
{
    let column: u32 = id % world.manifest.width;
    let row: u32 = id / world.manifest.width;
    proof {
        lemma_line_bounds(world.grid(), id as int);
    }
    let noise: i32 = fractal_noise(seed ^ 0x4D4F_4953_5455_5245, column, row, 96);
    let base: i64 = 92 + quotient(noise as i64, 16);
    let damp: i64 = if soaked {
        255
    } else if world.is_any_beside(wet.as_slice(), id) && base < 190 {
        190
    } else {
        base
    };
    if damp < 0 {
        0
    } else if damp > 255 {
        255
    } else {
        damp as u8
    }
}

/// The masks of a world's water.
struct Wetness {
    running: Vec<bool>,
    water: Vec<bool>,
    wet: Vec<bool>,
}

fn wetness(
    streams: &Streams,
    ocean: &Vec<bool>,
    lake: &Vec<bool>,
    limit: u32,
    Ghost(rivers): Ghost<Rivers>,
) -> (masks: Wetness)
    requires
        rivers.waters.is_sound(),
        rivers.waters.ocean == ocean@,
        rivers.waters.lake == lake@,
        rivers.down == streams.down@,
        rivers.flow == streams.flow@,
        rivers.drains == streams.drains@,
        rivers.limit == limit,
        rivers.down.len() == rivers.waters.grid.count(),
        rivers.flow.len() == rivers.waters.grid.count(),
        rivers.drains.len() == rivers.waters.grid.count(),
    ensures
        masks.running@.len() == rivers.waters.grid.count(),
        forall|i: int|
            0 <= i < masks.running@.len() ==> #[trigger] masks.running@[i] == rivers.is_river(i),
        masks.water@.len() == rivers.waters.grid.count(),
        forall|i: int|
            0 <= i < masks.water@.len() ==> #[trigger] masks.water@[i] == rivers.waters.is_water(i),
        masks.wet@ == rivers.wet_mask(),
{
    let mut running: Vec<bool> = Vec::new();
    let mut water: Vec<bool> = Vec::new();
    let mut wet: Vec<bool> = Vec::new();
    let mut i: usize = 0;
    while i < lake.len()
        invariant
            i <= lake@.len(),
            rivers.waters.is_sound(),
            rivers.waters.ocean == ocean@,
            rivers.waters.lake == lake@,
            rivers.down == streams.down@,
            rivers.flow == streams.flow@,
            rivers.drains == streams.drains@,
            rivers.limit == limit,
            rivers.down.len() == rivers.waters.grid.count(),
            rivers.flow.len() == rivers.waters.grid.count(),
            rivers.drains.len() == rivers.waters.grid.count(),
            running@.len() == i,
            water@.len() == i,
            forall|k: int| 0 <= k < i ==> #[trigger] running@[k] == rivers.is_river(k),
            forall|k: int| 0 <= k < i ==> #[trigger] water@[k] == rivers.waters.is_water(k),
            wet@ =~= rivers.wet_mask().take(i as int),
        decreases lake.len() - i,
    {
        let river: bool = streams.down[i].is_some() && streams.flow[i] >= limit
            && streams.drains[i];
        let open: bool = ocean[i] || lake[i];
        running.push(river);
        water.push(open);
        wet.push(open || river);
        i += 1;
    }
    assert(wet@ =~= rivers.wet_mask());
    Wetness { running, water, wet }
}

/// The report of lakes and rivers.
fn water_report(lakes: u32, cells: usize, rivers: usize, limit: u32) -> (report: PassReport)
    requires
        cells + rivers <= usize::MAX,
    ensures
        report.tells(
            cells + rivers,
            seq![
                "identified "@ + decimal(lakes as int) + " depression-fed lakes"@,
                "traced "@ + decimal(rivers as int) + " river cells at accumulation threshold "@
                    + decimal(limit as int),
            ],
        ),
{
    let mut traced = note("traced ", rivers, " river cells at accumulation threshold ");
    append_decimal(&mut traced, limit as u64);
    let found = note("identified ", lakes as usize, " depression-fed lakes");
    let mut notes: Vec<String> = Vec::new();
    notes.push(found);
    notes.push(traced);
    assert(notes_of(notes@) =~= seq![
        "identified "@ + decimal(lakes as int) + " depression-fed lakes"@,
        "traced "@ + decimal(rivers as int) + " river cells at accumulation threshold "@ + decimal(
            limit as int,
        ),
    ]);
    PassReport { name: String::new(), changed_cells: cells + rivers, changed_edges: 0, notes }
}

/// Lays the water of a world down.
#[verifier::rlimit(40)]
fn lay_water(
    world: &LayeredWorld,
    pass_seed: u64,
    streams: &Streams,
    masks: &Wetness,
    lake: &Vec<bool>,
    numbers: &Vec<Option<u32>>,
    lakes: u32,
    limit: u32,
    Ghost(rivers): Ghost<Rivers>,
    Ghost(labels): Ghost<Seq<Option<u32>>>,
) -> (patch: WorldPatch)
    requires
        world.is_laid_out(),
        rivers.waters.grid == world.grid(),
        rivers.waters.is_sound(),
        rivers.waters.is_downstream(rivers.down),
        rivers.waters.lake == lake@,
        rivers.down == streams.down@,
        rivers.flow == streams.flow@,
        rivers.limit == limit,
        limit >= 1,
        streams.flow@.len() == world.grid().count(),
        numbers@.len() == world.grid().count(),
        numbers@ == Seq::new(labels.len(), |id: int| lake_number(labels, id)),
        masks.running@.len() == world.grid().count(),
        forall|i: int|
            0 <= i < masks.running@.len() ==> #[trigger] masks.running@[i] == rivers.is_river(i),
        masks.water@.len() == world.grid().count(),
        forall|i: int|
            0 <= i < masks.water@.len() ==> #[trigger] masks.water@[i] == rivers.waters.is_water(i),
        masks.wet@ == rivers.wet_mask(),
    ensures
        is_laid(world.grid().count(), pass_seed, rivers, labels, lakes as int, patch),
{
    let ghost g = world.grid();
    let count: usize = world.cells.len();
    let mut surfaces: Vec<(u32, Surface)> = Vec::new();
    let mut water_bodies: Vec<(u32, Option<u32>)> = Vec::new();
    let mut river_writes: Vec<(u32, Option<RiverCell>)> = Vec::new();
    let mut moisture: Vec<(u32, u8)> = Vec::new();
    let mut tags: Vec<(u32, TerrainTags)> = Vec::new();
    let mut id: u32 = 0;
    while (id as usize) < count
        invariant
            world.is_laid_out(),
            g == world.grid(),
            count == g.count(),
            id <= count,
            rivers.waters.grid == g,
            rivers.waters.is_sound(),
            rivers.waters.is_downstream(rivers.down),
            rivers.waters.lake == lake@,
            rivers.down == streams.down@,
            rivers.flow == streams.flow@,
            rivers.limit == limit,
            limit >= 1,
            streams.flow@.len() == count,
            lake@.len() == count,
            numbers@.len() == count,
            numbers@ == Seq::new(labels.len(), |id: int| lake_number(labels, id)),
            masks.running@.len() == count,
            forall|i: int|
                0 <= i < masks.running@.len() ==> #[trigger] masks.running@[i]
                    == rivers.is_river(i),
            masks.water@.len() == count,
            forall|i: int|
                0 <= i < masks.water@.len() ==> #[trigger] masks.water@[i]
                    == rivers.waters.is_water(i),
            masks.wet@ == rivers.wet_mask(),
            surfaces@ == writes_where(id as int, rivers.lakes(), lake_surface()),
            surfaces@.len() == how_many(id as int, rivers.lakes()),
            water_bodies@ == writes_where(id as int, rivers.lakes(), lake_numbers(labels)),
            river_writes@ == writes_where(
                id as int,
                rivers.rivers(),
                rivers.river_writes(),
            ),
            river_writes@.len() == how_many(id as int, rivers.rivers()),
            surfaces@.len() + river_writes@.len() <= id,
            moisture@ == writes_where(
                id as int,
                every_cell(),
                rivers.moisture_writes(pass_seed),
            ),
            tags@ == writes_where(id as int, rivers.rivers(), rivers.tag_writes()),
        decreases count - id,
    {
        let i: usize = id as usize;
        assert(rivers.lakes()(id as int) == lake@[id as int]);
        assert(rivers.rivers()(id as int) == masks.running@[id as int]);
        if lake[i] {
            surfaces.push((id, Surface::Lake));
            water_bodies.push((id, numbers[i]));
        }
        if masks.running[i] {
            proof {
                lemma_lakes_are_no_rivers(rivers, id as int);
            }
            let (river, flags) = river_of(
                world,
                &streams,
                &masks.running,
                &masks.water,
                id,
                limit,
                Ghost(rivers),
            );
            river_writes.push((id, Some(river)));
            tags.push((id, flags));
        }
        let damp: u8 = moisture_of(
            world,
            pass_seed,
            &masks.wet,
            lake[i] || masks.running[i],
            id,
            Ghost(rivers),
        );
        moisture.push((id, damp));
        id += 1;
    }
    let patch = WorldPatch {
        report: water_report(
            lakes,
            surfaces.len(),
            river_writes.len(),
            limit,
        ),
        surfaces,
        water_bodies,
        rivers: river_writes,
        moisture,
        tags,
        ..WorldPatch::default()
    };
    proof {
        let layers = hydrology_outputs();
        assert(layers[0] == WorldLayer::Surface && layers[1] == WorldLayer::Moisture && layers[2]
            == WorldLayer::Hydrology && layers[3] == WorldLayer::Tags);
    }
    patch
}

impl WorldPass for HydrologyPass {
    open spec fn title(&self) -> Seq<char> {
        "hydrology"@
    }

    open spec fn inputs(&self) -> Seq<WorldLayer> {
        seq![WorldLayer::Elevation, WorldLayer::Surface]
    }

    open spec fn outputs(&self) -> Seq<WorldLayer> {
        hydrology_outputs()
    }

    open spec fn owes(
        &self,
        world: LayeredWorld,
        pass_seed: u64,
        outcome: Result<WorldPatch, String>,
    ) -> bool {
        outcome matches Ok(patch) && is_hydrology(world, pass_seed, patch)
    }

    fn name(&self) -> (name: &'static str) {
        "hydrology"
    }

    fn reads(&self) -> (layers: Vec<WorldLayer>) {
        vec![WorldLayer::Elevation, WorldLayer::Surface]
    }

    fn writes(&self) -> (layers: Vec<WorldLayer>) {
        vec![WorldLayer::Surface, WorldLayer::Moisture, WorldLayer::Hydrology, WorldLayer::Tags]
    }

    fn run(&self, world: &LayeredWorld, pass_seed: u64) -> (outcome: Result<WorldPatch, String>) {
        let filled = world.fill();
        let land = mark_land(world);
        let ocean = mark_ocean(world);
        let lake = mark_lakes(world, &filled);
        let (numbers, lakes) = label_lakes(world, lake.as_slice());
        let streams = world.streams(&filled, &ocean, &land, &lake, pass_seed);
        let limit: u32 = river_threshold(&world.manifest);
        let ghost rivers = Rivers {
            waters: waters_of(*world, filled@),
            down: streams.down@,
            flow: streams.flow@,
            drains: streams.drains@,
            limit: limit as int,
        };
        let ghost (parts, labels) = choose|parts: Seq<Seq<u32>>, labels: Seq<Option<u32>>|
            is_part_list(world.grid(), lake@, parts) && #[trigger] are_labels(lake@, parts, labels)
                && lakes == parts.len() && numbers@ == Seq::new(
                labels.len(),
                |id: int| lake_number(labels, id),
            );
        let masks = wetness(&streams, &ocean, &lake, limit, Ghost(rivers));
        let patch = lay_water(
            world,
            pass_seed,
            &streams,
            &masks,
            &lake,
            &numbers,
            lakes,
            limit,
            Ghost(rivers),
            Ghost(labels),
        );
        proof {
            assert(rivers.are_of(*world, pass_seed));
            assert(is_watered(*world, pass_seed, rivers, parts, labels, patch));
        }
        Ok(patch)
    }
}

} // verus!
