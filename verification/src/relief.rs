//! Relief: mountain ranges and the basins that lakes fill.
use vstd::prelude::*;
use crate::coord::{hex_distance, Axial};
use crate::layers::{law_numbers_are_places, LayeredWorld, Surface, V2Manifest, WorldLayer};
use crate::noise::{mix, mixed};
use crate::patch::{note, report, writes_where, ElevationWrite, WorldPatch};
use crate::spawning::{is_nearest, nearer};
use crate::text::{decimal, text};
use crate::world_pass::WorldPass;

verus! {

/// Mountain ranges, with the uplift of each cell by its number.
pub struct MountainPass {
    pub uplift: Vec<i16>,
}

/// Lake basins, with their depth by distance from the center.
pub struct LakeBasinPass {
    pub depths: Vec<i16>,
}

pub open spec fn clamped(n: int, low: int, high: int) -> int {
    if n < low {
        low
    } else if n > high {
        high
    } else {
        n
    }
}

/// How many mountain ranges a world has: more the larger and the denser.
pub open spec fn ranges(m: V2Manifest) -> int {
    clamped(
        m.grid().count() * m.parameters.mountain_density_bps / 10_000 / 65_536,
        2,
        12,
    )
}

pub fn range_count(m: &V2Manifest) -> (n: usize)
    requires
        m.grid().fits(),
    ensures
        n == ranges(*m),
        2 <= n <= 12,
{
    let area: u64 = m.width as u64 * m.height as u64;
    proof {
        assert(0 <= area * m.parameters.mountain_density_bps <= u32::MAX * u16::MAX)
            by (nonlinear_arith)
            requires
                0 <= area <= u32::MAX,
                0 <= m.parameters.mountain_density_bps <= u16::MAX,
        ;
    }
    let n: u64 = area * m.parameters.mountain_density_bps as u64 / 10_000 / 65_536;
    if n < 2 {
        2
    } else if n > 12 {
        12
    } else {
        n as usize
    }
}

/// The numbers that a mountain range is drawn from.
#[derive(Clone, Copy, Debug, Eq, PartialEq, Structural)]
pub struct RidgeDraw {
    /// Where the middle lies across the world, in parts of 65535.
    pub across: u16,
    /// Where the middle lies down the world, in parts of 65535.
    pub down: u16,
    /// The direction, in sixths of a turn.
    pub turn: u8,
    /// The length, in parts of 255.
    pub length: u8,
    /// The height of the crest.
    pub height: i16,
}

pub open spec fn is_ridge_draw(seed: u64, index: int, draw: RidgeDraw) -> bool {
    let hash = mixed(seed, index as i32, 0);
    &&& draw.across == hash & 0xffff
    &&& draw.down == (hash >> 16) & 0xffff
    &&& draw.turn == (hash >> 32) % 6
    &&& draw.length == (hash >> 40) & 0xff
    &&& draw.height == 310 + (hash >> 48) % 180
}

pub fn ridge_draw(seed: u64, index: usize) -> (draw: RidgeDraw)
    requires
        index <= i32::MAX,
    ensures
        is_ridge_draw(seed, index as int, draw),
{
    let hash: u64 = mix(seed, index as i32, 0);
    let across: u64 = hash & 0xffff;
    let down: u64 = (hash >> 16) & 0xffff;
    let length: u64 = (hash >> 40) & 0xff;
    assert(hash & 0xffff <= 0xffff && (hash >> 16) & 0xffff <= 0xffff && (hash >> 40) & 0xff <= 0xff)
        by (bit_vector);
    RidgeDraw {
        across: across as u16,
        down: down as u16,
        turn: ((hash >> 32) % 6) as u8,
        length: length as u8,
        height: 310 + ((hash >> 48) % 180) as i16,
    }
}

/// Whether a cell is land that is lifted.
pub open spec fn is_lifted(world: LayeredWorld, uplift: Seq<i16>) -> spec_fn(int) -> bool {
    |id: int|
        world.layers()[id].surface == Surface::Land && id < uplift.len() && uplift[id] > 0
}

pub open spec fn lift(uplift: Seq<i16>) -> spec_fn(int) -> ElevationWrite {
    |id: int| ElevationWrite::Add(uplift[id])
}

/// Whether this patch raises the mountains.
pub open spec fn is_raised(world: LayeredWorld, uplift: Seq<i16>, p: WorldPatch) -> bool {
    let n = world.grid().count();
    &&& p.elevation@ == writes_where(n, is_lifted(world, uplift), lift(uplift))
    &&& p.report.tells(
        p.elevation@.len() as int,
        seq!["composed "@ + decimal(ranges(world.manifest)) + " deterministic mountain ranges"@],
    )
    &&& p.stays_within(relief_outputs())
}

pub open spec fn relief_inputs() -> Seq<WorldLayer> {
    seq![WorldLayer::Elevation, WorldLayer::Surface]
}

pub open spec fn relief_outputs() -> Seq<WorldLayer> {
    seq![WorldLayer::Elevation]
}

impl WorldPass for MountainPass {
    open spec fn title(&self) -> Seq<char> {
        "mountains"@
    }

    open spec fn inputs(&self) -> Seq<WorldLayer> {
        relief_inputs()
    }

    open spec fn outputs(&self) -> Seq<WorldLayer> {
        relief_outputs()
    }

    open spec fn owes(
        &self,
        world: LayeredWorld,
        pass_seed: u64,
        outcome: Result<WorldPatch, String>,
    ) -> bool {
        outcome matches Ok(patch) && is_raised(world, self.uplift@, patch)
    }

    fn name(&self) -> (name: &'static str) {
        "mountains"
    }

    fn reads(&self) -> (layers: Vec<WorldLayer>) {
        vec![WorldLayer::Elevation, WorldLayer::Surface]
    }

    fn writes(&self) -> (layers: Vec<WorldLayer>) {
        vec![WorldLayer::Elevation]
    }

    fn run(&self, world: &LayeredWorld, pass_seed: u64) -> (outcome: Result<WorldPatch, String>) {
        let ghost test = is_lifted(*world, self.uplift@);
        let ghost value = lift(self.uplift@);
        let mut elevation: Vec<(u32, ElevationWrite)> = Vec::new();
        let mut id: u32 = 0;
        while (id as usize) < world.cells.len()
            invariant
                world.is_laid_out(),
                id <= world.cells@.len(),
                test == is_lifted(*world, self.uplift@),
                value == lift(self.uplift@),
                elevation@ == writes_where(id as int, test, value),
            decreases world.cells.len() - id,
        {
            let i: usize = id as usize;
            if world.cells[i].surface == Surface::Land && i < self.uplift.len() && self.uplift[i]
                > 0 {
                elevation.push((id, ElevationWrite::Add(self.uplift[i])));
            }
            id += 1;
        }
        let count: usize = range_count(&world.manifest);
        assert(relief_outputs()[0] == WorldLayer::Elevation);
        Ok(
            WorldPatch {
                report: report(
                    elevation.len(),
                    note("composed ", count, " deterministic mountain ranges"),
                ),
                elevation,
                ..WorldPatch::default()
            },
        )
    }
}

/// How many basins a world has.
pub open spec fn basins(m: V2Manifest) -> int {
    clamped(m.grid().count() / 147_456, 1, 6)
}

fn basin_count(m: &V2Manifest) -> (n: usize)
    requires
        m.grid().fits(),
    ensures
        n == basins(*m),
        1 <= n <= 6,
{
    let area: u64 = m.width as u64 * m.height as u64;
    let n: u64 = area / 147_456;
    if n < 1 {
        1
    } else if n > 6 {
        6
    } else {
        n as usize
    }
}

/// Where along a side a basin is wanted: somewhere in its middle half.
pub open spec fn wanted_line(side: int, draw: u64) -> int {
    let half = if side / 2 < 1 {
        1
    } else {
        side / 2
    };
    side / 4 + draw as int % half
}

/// Where a basin is wanted.
pub open spec fn wanted(m: V2Manifest, seed: u64, index: int) -> Axial {
    let hash = mixed(seed, index as i32, 71);
    Axial {
        q: (m.q_min + wanted_line(m.width as int, hash)) as i32,
        r: (m.r_min + wanted_line(m.height as int, hash >> 32)) as i32,
    }
}

/// The places of the land.
pub open spec fn land_places(world: LayeredWorld) -> Set<Axial> {
    Set::new(
        |c: Axial|
            world.grid().holds(c) && world.layers()[world.grid().id(c)].surface == Surface::Land,
    )
}

/// Whether these are the centers of the basins: land nearest to where they are
/// wanted.
pub open spec fn are_centers(world: LayeredWorld, seed: u64, centers: Seq<Axial>) -> bool {
    &&& centers.len() == basins(world.manifest)
    &&& forall|i: int|
        0 <= i < centers.len() ==> is_nearest(
            land_places(world),
            wanted(world.manifest, seed, i),
            #[trigger] centers[i],
        )
}

/// The centers of the basins are determined by the land.
pub proof fn law_centers_are_unique(
    world: LayeredWorld,
    seed: u64,
    centers: Seq<Axial>,
    centers2: Seq<Axial>,
)
    requires
        are_centers(world, seed, centers),
        are_centers(world, seed, centers2),
    ensures
        centers == centers2,
{
    assert forall|i: int| 0 <= i < centers.len() implies centers[i] == centers2[i] by {
        let wanted = wanted(world.manifest, seed, i);
        if centers[i] != centers2[i] {
            assert(nearer(wanted, centers[i], centers2[i]));
            assert(nearer(wanted, centers2[i], centers[i]));
        }
    }
    assert(centers =~= centers2);
}

pub open spec fn depth_at(depths: Seq<i16>, distance: int) -> int {
    if distance < depths.len() && depths[distance] > 0 {
        depths[distance] as int
    } else {
        0
    }
}

/// How deep basins are at a place.
pub open spec fn deepest(depths: Seq<i16>, centers: Seq<Axial>, c: Axial) -> int
    decreases centers.len(),
{
    if centers.len() == 0 {
        0
    } else {
        let before = deepest(depths, centers.drop_last(), c);
        let depth = depth_at(depths, hex_distance(c, centers.last()));
        if depth > before {
            depth
        } else {
            before
        }
    }
}

pub open spec fn is_carved(world: LayeredWorld, depths: Seq<i16>, centers: Seq<Axial>) -> spec_fn(
    int,
) -> bool {
    |id: int|
        world.layers()[id].surface == Surface::Land && deepest(
            depths,
            centers,
            world.grid().place(id),
        ) > 0
}

pub open spec fn carve(world: LayeredWorld, depths: Seq<i16>, centers: Seq<Axial>) -> spec_fn(
    int,
) -> ElevationWrite {
    |id: int|
        ElevationWrite::Add(
            (-deepest(depths, centers, world.grid().place(id))) as i16,
        )
}

/// Whether this patch carves basins around some centers.
pub open spec fn is_hollowed(
    world: LayeredWorld,
    depths: Seq<i16>,
    centers: Seq<Axial>,
    p: WorldPatch,
) -> bool {
    let n = world.grid().count();
    &&& p.elevation@ == writes_where(
        n,
        is_carved(world, depths, centers),
        carve(world, depths, centers),
    )
    &&& p.report.tells(
        p.elevation@.len() as int,
        seq!["carved "@ + decimal(basins(world.manifest)) + " deterministic hydrology basins"@],
    )
    &&& p.stays_within(relief_outputs())
}

fn wanted_line_of(side: u32, draw: u64) -> (line: u32)
    requires
        side > 0,
    ensures
        line == wanted_line(side as int, draw),
        line < side,
{
    let half: u32 = if side / 2 < 1 {
        1
    } else {
        side / 2
    };
    let part: u64 = draw % half as u64;
    side / 4 + part as u32
}

/// The land nearest to a place.
fn nearest_land(world: &LayeredWorld, desired: Axial) -> (center: Option<Axial>)
    requires
        world.is_laid_out(),
    ensures
        match center {
            Some(c) => is_nearest(land_places(*world), desired, c),
            None => land_places(*world) =~= Set::<Axial>::empty(),
        },
{
    let ghost g = world.grid();
    let mut best: Option<Axial> = None;
    let mut id: u32 = 0;
    while (id as usize) < world.cells.len()
        invariant
            world.is_laid_out(),
            g == world.grid(),
            id <= world.cells@.len(),
            match best {
                Some(c) => {
                    &&& land_places(*world).contains(c)
                    &&& forall|d: Axial| #[trigger]
                        land_places(*world).contains(d) && g.id(d) < id && d != c ==> nearer(
                            desired,
                            c,
                            d,
                        )
                },
                None => forall|d: Axial| #[trigger]
                    land_places(*world).contains(d) ==> g.id(d) >= id,
            },
        decreases world.cells.len() - id,
    {
        match world.coordinate(id) {
            Some(c) => {
                let ghost was = best;
                proof {
                    law_numbers_are_places(g, c, id as int);
                }
                if world.cells[id as usize].surface == Surface::Land {
                    assert(land_places(*world).contains(c));
                    match best {
                        Some(b) => {
                            let far: u64 = c.distance(desired);
                            let near: u64 = b.distance(desired);
                            if far < near || (far == near && (c.q < b.q || (c.q == b.q && c.r
                                < b.r))) {
                                best = Some(c);
                            }
                        },
                        None => {
                            best = Some(c);
                        },
                    }
                }
                proof {
                    assert forall|d: Axial| #[trigger]
                        land_places(*world).contains(d) && g.id(d) < id + 1 implies d == c || g.id(d)
                        < id by {
                        law_numbers_are_places(g, d, g.id(d));
                    }
                }
            },
            None => {
                vstd::pervasive::unreached()
            },
        }
        id += 1;
    }
    proof {
        assert forall|d: Axial| #[trigger] land_places(*world).contains(d) implies g.id(d)
            < world.layers().len() by {
            law_numbers_are_places(g, d, 0);
        }
    }
    best
}

fn deepest_at(depths: &Vec<i16>, centers: &Vec<Axial>, c: Axial) -> (depth: i16)
    ensures
        depth == deepest(depths@, centers@, c),
        depth >= 0,
{
    let mut depth: i16 = 0;
    let mut i: usize = 0;
    assert(centers@.take(0) =~= Seq::<Axial>::empty());
    while i < centers.len()
        invariant
            i <= centers@.len(),
            depth == deepest(depths@, centers@.take(i as int), c),
            depth >= 0,
        decreases centers.len() - i,
    {
        let distance: u64 = c.distance(centers[i]);
        if distance < depths.len() as u64 {
            let here: i16 = depths[distance as usize];
            if here > depth {
                depth = here;
            }
        }
        assert(centers@.take(i + 1).drop_last() =~= centers@.take(i as int));
        i += 1;
    }
    assert(centers@.take(i as int) =~= centers@);
    depth
}

impl WorldPass for LakeBasinPass {
    open spec fn title(&self) -> Seq<char> {
        "lake-basins"@
    }

    open spec fn inputs(&self) -> Seq<WorldLayer> {
        relief_inputs()
    }

    open spec fn outputs(&self) -> Seq<WorldLayer> {
        relief_outputs()
    }

    open spec fn owes(
        &self,
        world: LayeredWorld,
        pass_seed: u64,
        outcome: Result<WorldPatch, String>,
    ) -> bool {
        match outcome {
            Ok(patch) => exists|centers: Seq<Axial>|
                are_centers(world, pass_seed, centers) && #[trigger] is_hollowed(
                    world,
                    self.depths@,
                    centers,
                    patch,
                ),
            Err(message) => land_places(world) =~= Set::<Axial>::empty() && message@
                == "lake-basin pass has no land"@,
        }
    }

    fn name(&self) -> (name: &'static str) {
        "lake-basins"
    }

    fn reads(&self) -> (layers: Vec<WorldLayer>) {
        vec![WorldLayer::Elevation, WorldLayer::Surface]
    }

    fn writes(&self) -> (layers: Vec<WorldLayer>) {
        vec![WorldLayer::Elevation]
    }

    fn run(&self, world: &LayeredWorld, pass_seed: u64) -> (outcome: Result<WorldPatch, String>) {
        let count: usize = basin_count(&world.manifest);
        let mut centers: Vec<Axial> = Vec::new();
        let mut index: usize = 0;
        while index < count
            invariant
                world.is_laid_out(),
                1 <= count <= 6,
                index <= count,
                centers@.len() == index,
                forall|i: int|
                    0 <= i < index ==> is_nearest(
                        land_places(*world),
                        wanted(world.manifest, pass_seed, i),
                        #[trigger] centers@[i],
                    ),
            decreases count - index,
        {
            let hash: u64 = mix(pass_seed, index as i32, 71);
            let column: u32 = wanted_line_of(world.manifest.width, hash);
            let row: u32 = wanted_line_of(world.manifest.height, hash >> 32);
            let desired = Axial::new(
                (world.manifest.q_min as i64 + column as i64) as i32,
                (world.manifest.r_min as i64 + row as i64) as i32,
            );
            match nearest_land(world, desired) {
                Some(center) => {
                    centers.push(center);
                },
                None => {
                    return Err(text("lake-basin pass has no land"));
                },
            }
            index += 1;
        }
        let ghost test = is_carved(*world, self.depths@, centers@);
        let ghost value = carve(*world, self.depths@, centers@);
        let mut elevation: Vec<(u32, ElevationWrite)> = Vec::new();
        let mut id: u32 = 0;
        while (id as usize) < world.cells.len()
            invariant
                world.is_laid_out(),
                id <= world.cells@.len(),
                test == is_carved(*world, self.depths@, centers@),
                value == carve(*world, self.depths@, centers@),
                elevation@ == writes_where(id as int, test, value),
            decreases world.cells.len() - id,
        {
            if world.cells[id as usize].surface == Surface::Land {
                match world.coordinate(id) {
                    Some(c) => {
                        let depth: i16 = deepest_at(&self.depths, &centers, c);
                        if depth > 0 {
                            elevation.push((id, ElevationWrite::Add(-depth)));
                        }
                    },
                    None => {
                        vstd::pervasive::unreached()
                    },
                }
            }
            id += 1;
        }
        let patch = WorldPatch {
            report: report(
                elevation.len(),
                note("carved ", count, " deterministic hydrology basins"),
            ),
            elevation,
            ..WorldPatch::default()
        };
        assert(relief_outputs()[0] == WorldLayer::Elevation);
        assert(is_hollowed(*world, self.depths@, centers@, patch));
        Ok(patch)
    }
}

} // verus!
