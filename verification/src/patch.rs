//! What a pass over a layered world writes.
use vstd::prelude::*;
use crate::coord::{Axial, HexEdge};
use crate::layers::{
    Biome, CellLayers, EdgeLayers, GameplayCell, Landform, LayeredWorld, RiverCell, Surface,
    TerrainTags, V2Manifest, WorldLayer,
};
use crate::text::{append_decimal, decimal, text};

verus! {

#[derive(Clone, Debug, Eq, PartialEq)]
pub struct PassReport {
    pub name: String,
    pub changed_cells: usize,
    pub changed_edges: usize,
    pub notes: Vec<String>,
}

#[derive(Clone, Copy, Debug, Eq, PartialEq, Structural)]
pub enum ElevationWrite {
    Assign(i16),
    Add(i16),
}

#[derive(Clone, Debug)]
pub struct WorldPatch {
    pub elevation: Vec<(u32, ElevationWrite)>,
    pub surfaces: Vec<(u32, Surface)>,
    pub landforms: Vec<(u32, Landform)>,
    pub biomes: Vec<(u32, Biome)>,
    pub moisture: Vec<(u32, u8)>,
    pub fertility: Vec<(u32, u8)>,
    pub water_bodies: Vec<(u32, Option<u32>)>,
    pub rivers: Vec<(u32, Option<RiverCell>)>,
    pub tags: Vec<(u32, TerrainTags)>,
    pub gameplay: Vec<(u32, GameplayCell)>,
    pub edges: Vec<(HexEdge, EdgeLayers)>,
    pub spawns: Option<Vec<Axial>>,
    pub report: PassReport,
}

/// What the notes of a report say.
pub open spec fn notes_of(notes: Seq<String>) -> Seq<Seq<char>> {
    notes.map_values(|note: String| note@)
}

impl PassReport {
    pub open spec fn is_blank(&self) -> bool {
        &&& self.name@ == Seq::<char>::empty()
        &&& self.changed_cells == 0
        &&& self.changed_edges == 0
        &&& self.notes@ == Seq::<String>::empty()
    }

    /// Whether this tells of some changed cells, before the pass is named.
    pub open spec fn tells(&self, changed: int, notes: Seq<Seq<char>>) -> bool {
        &&& self.name@ == Seq::<char>::empty()
        &&& self.changed_cells == changed
        &&& self.changed_edges == 0
        &&& notes_of(self.notes@) == notes
    }
}

impl Default for PassReport {
    fn default() -> (report: PassReport)
        ensures
            report.is_blank(),
    {
        PassReport { name: String::new(), changed_cells: 0, changed_edges: 0, notes: Vec::new() }
    }
}

impl WorldPatch {
    pub open spec fn is_blank(&self) -> bool {
        &&& self.writes_nothing()
        &&& self.report.is_blank()
    }

    /// Whether nothing of the world is written.
    pub open spec fn writes_nothing(&self) -> bool {
        &&& self.elevation@ == Seq::<(u32, ElevationWrite)>::empty()
        &&& self.surfaces@ == Seq::<(u32, Surface)>::empty()
        &&& self.landforms@ == Seq::<(u32, Landform)>::empty()
        &&& self.biomes@ == Seq::<(u32, Biome)>::empty()
        &&& self.moisture@ == Seq::<(u32, u8)>::empty()
        &&& self.fertility@ == Seq::<(u32, u8)>::empty()
        &&& self.water_bodies@ == Seq::<(u32, Option<u32>)>::empty()
        &&& self.rivers@ == Seq::<(u32, Option<RiverCell>)>::empty()
        &&& self.tags@ == Seq::<(u32, TerrainTags)>::empty()
        &&& self.gameplay@ == Seq::<(u32, GameplayCell)>::empty()
        &&& self.edges@ == Seq::<(HexEdge, EdgeLayers)>::empty()
        &&& self.spawns is None
    }
}

impl WorldPatch {
    /// Whether only the listed layers are written.
    pub open spec fn stays_within(&self, layers: Seq<WorldLayer>) -> bool {
        &&& layers.contains(WorldLayer::Elevation) || self.elevation@.len() == 0
        &&& layers.contains(WorldLayer::Surface) || self.surfaces@.len() == 0
        &&& layers.contains(WorldLayer::Landform) || self.landforms@.len() == 0
        &&& layers.contains(WorldLayer::Biome) || self.biomes@.len() == 0
        &&& layers.contains(WorldLayer::Moisture) || self.moisture@.len() == 0
        &&& layers.contains(WorldLayer::Fertility) || self.fertility@.len() == 0
        &&& layers.contains(WorldLayer::Hydrology) || self.water_bodies@.len() == 0
        &&& layers.contains(WorldLayer::Hydrology) || self.rivers@.len() == 0
        &&& layers.contains(WorldLayer::Tags) || self.tags@.len() == 0
        &&& layers.contains(WorldLayer::Gameplay) || self.gameplay@.len() == 0
        &&& layers.contains(WorldLayer::Edges) || self.edges@.len() == 0
        &&& layers.contains(WorldLayer::Spawns) || self.spawns is None
    }
}

impl Default for WorldPatch {
    fn default() -> (patch: WorldPatch)
        ensures
            patch.is_blank(),
    {
        WorldPatch {
            elevation: Vec::new(),
            surfaces: Vec::new(),
            landforms: Vec::new(),
            biomes: Vec::new(),
            moisture: Vec::new(),
            fertility: Vec::new(),
            water_bodies: Vec::new(),
            rivers: Vec::new(),
            tags: Vec::new(),
            gameplay: Vec::new(),
            edges: Vec::new(),
            spawns: None,
            report: PassReport::default(),
        }
    }
}

/// A report of changed cells with one note.
pub fn report(changed_cells: usize, note: String) -> (report: PassReport)
    ensures
        report.tells(changed_cells as int, seq![note@]),
{
    let mut notes: Vec<String> = Vec::new();
    notes.push(note);
    assert(notes_of(notes@) =~= seq![note@]);
    PassReport { name: String::new(), changed_cells, changed_edges: 0, notes }
}

/// A note with a number between two texts.
pub fn note(before: &str, n: usize, after: &str) -> (out: String)
    ensures
        out@ == before@ + decimal(n as int) + after@,
{
    let mut out = text(before);
    append_decimal(&mut out, n as u64);
    out.append(after);
    out
}

/// One write for each number below a bound that passes a test, in ascending
/// order.
pub open spec fn writes_where<A>(
    n: int,
    test: spec_fn(int) -> bool,
    value: spec_fn(int) -> A,
) -> Seq<(u32, A)>
    decreases n,
{
    if n <= 0 {
        seq![]
    } else if test(n - 1) {
        writes_where(n - 1, test, value).push(((n - 1) as u32, value(n - 1)))
    } else {
        writes_where(n - 1, test, value)
    }
}

/// How many numbers below a bound pass a test.
pub open spec fn how_many(n: int, test: spec_fn(int) -> bool) -> nat
    decreases n,
{
    if n <= 0 {
        0
    } else if test(n - 1) {
        how_many(n - 1, test) + 1
    } else {
        how_many(n - 1, test)
    }
}

/// The numbers below a bound that pass a test, in ascending order.
pub open spec fn ids_where(n: int, test: spec_fn(int) -> bool) -> Seq<u32>
    decreases n,
{
    if n <= 0 {
        seq![]
    } else if test(n - 1) {
        ids_where(n - 1, test).push((n - 1) as u32)
    } else {
        ids_where(n - 1, test)
    }
}

/// The numbers that pass a test are listed in ascending order, each once.
pub proof fn lemma_ids(n: int, test: spec_fn(int) -> bool)
    requires
        0 <= n <= u32::MAX,
    ensures
        ids_where(n, test).len() <= n,
        forall|k: int|
            0 <= k < ids_where(n, test).len() ==> (#[trigger] ids_where(n, test)[k]) < n && test(
                ids_where(n, test)[k] as int,
            ),
        forall|k: int, l: int|
            0 <= k < l < ids_where(n, test).len() ==> (#[trigger] ids_where(n, test)[k]) < (
            #[trigger] ids_where(n, test)[l]),
    decreases n,
{
    if n > 0 {
        lemma_ids(n - 1, test);
    }
}

/// A wider test lets at least as many numbers pass.
pub proof fn lemma_more_ids(n: int, test: spec_fn(int) -> bool, wider: spec_fn(int) -> bool)
    requires
        forall|id: int| 0 <= id < n && #[trigger] test(id) ==> wider(id),
    ensures
        ids_where(n, test).len() <= ids_where(n, wider).len(),
    decreases n,
{
    if n > 0 {
        lemma_more_ids(n - 1, test, wider);
        assert(test(n - 1) ==> wider(n - 1));
    }
}

/// Cells after a list of writes.
pub open spec fn written<A>(
    cells: Seq<CellLayers>,
    writes: Seq<(u32, A)>,
    put: spec_fn(CellLayers, A) -> CellLayers,
) -> Seq<CellLayers>
    decreases writes.len(),
{
    if writes.len() == 0 {
        cells
    } else {
        let before = written(cells, writes.drop_last(), put);
        let id = writes.last().0 as int;
        before.update(id, put(before[id], writes.last().1))
    }
}

/// The first write outside a number of cells.
pub open spec fn stray<A>(writes: Seq<(u32, A)>, count: int) -> Option<u32>
    decreases writes.len(),
{
    if writes.len() == 0 {
        None
    } else {
        match stray(writes.drop_last(), count) {
            Some(id) => Some(id),
            None => if writes.last().0 >= count {
                Some(writes.last().0)
            } else {
                None
            },
        }
    }
}

/// A sum that stays within its range.
pub open spec fn bounded_sum(a: i16, b: i16) -> i16 {
    if a + b > i16::MAX {
        i16::MAX
    } else if a + b < i16::MIN {
        i16::MIN
    } else {
        (a + b) as i16
    }
}

pub open spec fn put_elevation() -> spec_fn(CellLayers, ElevationWrite) -> CellLayers {
    |cell: CellLayers, write: ElevationWrite|
        CellLayers {
            elevation: match write {
                ElevationWrite::Assign(value) => value,
                ElevationWrite::Add(value) => bounded_sum(cell.elevation, value),
            },
            ..cell
        }
}

pub open spec fn put_surface() -> spec_fn(CellLayers, Surface) -> CellLayers {
    |cell: CellLayers, surface: Surface| CellLayers { surface, ..cell }
}

pub open spec fn put_landform() -> spec_fn(CellLayers, Landform) -> CellLayers {
    |cell: CellLayers, landform: Landform| CellLayers { landform, ..cell }
}

pub open spec fn put_biome() -> spec_fn(CellLayers, Biome) -> CellLayers {
    |cell: CellLayers, biome: Biome| CellLayers { biome, ..cell }
}

pub open spec fn put_moisture() -> spec_fn(CellLayers, u8) -> CellLayers {
    |cell: CellLayers, moisture: u8| CellLayers { moisture, ..cell }
}

pub open spec fn put_fertility() -> spec_fn(CellLayers, u8) -> CellLayers {
    |cell: CellLayers, fertility: u8| CellLayers { fertility, ..cell }
}

pub open spec fn put_water_body() -> spec_fn(CellLayers, Option<u32>) -> CellLayers {
    |cell: CellLayers, water_body_id: Option<u32>| CellLayers { water_body_id, ..cell }
}

pub open spec fn put_river() -> spec_fn(CellLayers, Option<RiverCell>) -> CellLayers {
    |cell: CellLayers, river: Option<RiverCell>| CellLayers { river, ..cell }
}

pub open spec fn put_tags() -> spec_fn(CellLayers, TerrainTags) -> CellLayers {
    |cell: CellLayers, tags: TerrainTags|
        CellLayers { tags: TerrainTags(cell.tags.0 | tags.0), ..cell }
}

pub open spec fn put_gameplay() -> spec_fn(CellLayers, GameplayCell) -> CellLayers {
    |cell: CellLayers, gameplay: GameplayCell| CellLayers { gameplay, ..cell }
}

/// The physical layers after a patch.
pub open spec fn ground_after(cells: Seq<CellLayers>, p: WorldPatch) -> Seq<CellLayers> {
    let a = written(cells, p.elevation@, put_elevation());
    let b = written(a, p.surfaces@, put_surface());
    let c = written(b, p.landforms@, put_landform());
    written(c, p.biomes@, put_biome())
}

/// All layers after a patch.
pub open spec fn cells_after(cells: Seq<CellLayers>, p: WorldPatch) -> Seq<CellLayers> {
    let d = ground_after(cells, p);
    let e = written(d, p.moisture@, put_moisture());
    let f = written(e, p.fertility@, put_fertility());
    let g = written(f, p.water_bodies@, put_water_body());
    let h = written(g, p.rivers@, put_river());
    let i = written(h, p.tags@, put_tags());
    written(i, p.gameplay@, put_gameplay())
}

pub open spec fn or_else(first: Option<u32>, second: Option<u32>) -> Option<u32> {
    match first {
        Some(id) => Some(id),
        None => second,
    }
}

/// The first cell outside the world that a patch writes.
pub open spec fn stray_cell(p: WorldPatch, n: int) -> Option<u32> {
    let tail = or_else(
        stray(p.water_bodies@, n),
        or_else(
            stray(p.rivers@, n),
            or_else(stray(p.tags@, n), stray(p.gameplay@, n)),
        ),
    );
    let middle = or_else(
        stray(p.biomes@, n),
        or_else(stray(p.moisture@, n), or_else(stray(p.fertility@, n), tail)),
    );
    or_else(
        stray(p.elevation@, n),
        or_else(stray(p.surfaces@, n), or_else(stray(p.landforms@, n), middle)),
    )
}

/// The edges after a list of writes.
pub open spec fn edges_after(
    edges: Map<HexEdge, EdgeLayers>,
    writes: Seq<(HexEdge, EdgeLayers)>,
) -> Map<HexEdge, EdgeLayers>
    decreases writes.len(),
{
    if writes.len() == 0 {
        edges
    } else {
        edges_after(edges, writes.drop_last()).insert(writes.last().0, writes.last().1)
    }
}

pub open spec fn stray_text(id: u32) -> Seq<char> {
    "pass wrote out-of-bounds cell "@ + decimal(id as int)
}

/// Whether a world is another after a patch.
pub open spec fn is_applied(before: LayeredWorld, p: WorldPatch, after: LayeredWorld) -> bool {
    &&& after.layers() == cells_after(before.layers(), p)
    &&& after.edges@ == edges_after(before.edges@, p.edges@)
    &&& after.manifest == (V2Manifest { spawn_cells: after.manifest.spawn_cells, ..before.manifest })
    &&& after.manifest.spawn_cells@ == match p.spawns {
        Some(spawns) => spawns@,
        None => before.manifest.spawn_cells@,
    }
}

fn add_bounded(a: i16, b: i16) -> (c: i16)
    ensures
        c == bounded_sum(a, b),
{
    let sum: i32 = a as i32 + b as i32;
    if sum > i16::MAX as i32 {
        i16::MAX
    } else if sum < i16::MIN as i32 {
        i16::MIN
    } else {
        sum as i16
    }
}

fn with_elevation(cell: CellLayers, write: ElevationWrite) -> (after: CellLayers)
    ensures
        after == put_elevation()(cell, write),
{
    match write {
        ElevationWrite::Assign(value) => CellLayers { elevation: value, ..cell },
        ElevationWrite::Add(value) => CellLayers {
            elevation: add_bounded(cell.elevation, value),
            ..cell
        },
    }
}

fn with_surface(cell: CellLayers, surface: Surface) -> (after: CellLayers)
    ensures
        after == put_surface()(cell, surface),
{
    CellLayers { surface, ..cell }
}

fn with_landform(cell: CellLayers, landform: Landform) -> (after: CellLayers)
    ensures
        after == put_landform()(cell, landform),
{
    CellLayers { landform, ..cell }
}

fn with_biome(cell: CellLayers, biome: Biome) -> (after: CellLayers)
    ensures
        after == put_biome()(cell, biome),
{
    CellLayers { biome, ..cell }
}

fn with_moisture(cell: CellLayers, moisture: u8) -> (after: CellLayers)
    ensures
        after == put_moisture()(cell, moisture),
{
    CellLayers { moisture, ..cell }
}

fn with_fertility(cell: CellLayers, fertility: u8) -> (after: CellLayers)
    ensures
        after == put_fertility()(cell, fertility),
{
    CellLayers { fertility, ..cell }
}

fn with_water_body(cell: CellLayers, water_body_id: Option<u32>) -> (after: CellLayers)
    ensures
        after == put_water_body()(cell, water_body_id),
{
    CellLayers { water_body_id, ..cell }
}

fn with_river(cell: CellLayers, river: Option<RiverCell>) -> (after: CellLayers)
    ensures
        after == put_river()(cell, river),
{
    CellLayers { river, ..cell }
}

fn with_tags(cell: CellLayers, tags: TerrainTags) -> (after: CellLayers)
    ensures
        after == put_tags()(cell, tags),
{
    CellLayers { tags: TerrainTags(cell.tags.0 | tags.0), ..cell }
}

fn with_gameplay(cell: CellLayers, gameplay: GameplayCell) -> (after: CellLayers)
    ensures
        after == put_gameplay()(cell, gameplay),
{
    CellLayers { gameplay, ..cell }
}

/// Writes a list of values into cells, up to the first that is out of bounds.
fn write_all<A: Copy, F: Fn(CellLayers, A) -> CellLayers>(
    cells: &mut Vec<CellLayers>,
    writes: &Vec<(u32, A)>,
    put: F,
    Ghost(value): Ghost<spec_fn(CellLayers, A) -> CellLayers>,
) -> (verdict: Result<(), u32>)
    requires
        forall|c: CellLayers, a: A| #[trigger] put.requires((c, a)),
        forall|c: CellLayers, a: A, r: CellLayers| #[trigger]
            put.ensures((c, a), r) ==> r == value(c, a),
    ensures
        match verdict {
            Ok(_) => {
                &&& stray(writes@, old(cells)@.len() as int) is None
                &&& final(cells)@ == written(old(cells)@, writes@, value)
                &&& final(cells)@.len() == old(cells)@.len()
            },
            Err(id) => stray(writes@, old(cells)@.len() as int) == Some(id),
        },
{
    let ghost before = cells@;
    let mut i: usize = 0;
    assert(writes@.take(0) =~= Seq::<(u32, A)>::empty());
    while i < writes.len()
        invariant
            before == old(cells)@,
            i <= writes@.len(),
            cells@.len() == before.len(),
            forall|c: CellLayers, a: A| #[trigger] put.requires((c, a)),
            forall|c: CellLayers, a: A, r: CellLayers| #[trigger]
                put.ensures((c, a), r) ==> r == value(c, a),
            stray(writes@.take(i as int), before.len() as int) is None,
            cells@ == written(before, writes@.take(i as int), value),
        decreases writes.len() - i,
    {
        let (id, a) = writes[i];
        assert(writes@.take(i + 1).drop_last() =~= writes@.take(i as int));
        if id as usize >= cells.len() {
            proof {
                assert(writes@.take(i + 1).last() == writes@[i as int]);
                assert(stray(writes@.take(i + 1), before.len() as int) == Some(id));
                lemma_stray_stays(writes@, (i + 1) as int, before.len() as int);
            }
            return Err(id);
        }
        let cell = put(cells[id as usize], a);
        cells.set(id as usize, cell);
        i += 1;
    }
    assert(writes@.take(i as int) =~= writes@);
    Ok(())
}

proof fn lemma_stray_stays<A>(writes: Seq<(u32, A)>, i: int, count: int)
    requires
        0 <= i <= writes.len(),
        stray(writes.take(i), count) is Some,
    ensures
        stray(writes, count) == stray(writes.take(i), count),
    decreases writes.len() - i,
{
    if i == writes.len() {
        assert(writes.take(i) =~= writes);
    } else {
        assert(writes.take(i + 1).drop_last() =~= writes.take(i));
        lemma_stray_stays(writes, i + 1, count);
    }
}

fn stray_message(id: u32) -> (message: String)
    ensures
        message@ == stray_text(id),
{
    let mut message = text("pass wrote out-of-bounds cell ");
    append_decimal(&mut message, id as u64);
    message
}

/// Writes the physical layers of a patch.
fn write_ground(cells: &mut Vec<CellLayers>, patch: &WorldPatch) -> (verdict: Result<(), u32>)
    ensures
        ({
            let n = old(cells)@.len() as int;
            let first = or_else(
                stray(patch.elevation@, n),
                or_else(
                    stray(patch.surfaces@, n),
                    or_else(stray(patch.landforms@, n), stray(patch.biomes@, n)),
                ),
            );
            match verdict {
                Ok(_) => first is None && final(cells)@ == ground_after(old(cells)@, *patch)
                    && final(cells)@.len() == n,
                Err(id) => first == Some(id),
            }
        }),
{
    write_all(
        cells,
        &patch.elevation,
        with_elevation,
        Ghost(put_elevation()),
    )?;
    write_all(
        cells,
        &patch.surfaces,
        with_surface,
        Ghost(put_surface()),
    )?;
    write_all(
        cells,
        &patch.landforms,
        with_landform,
        Ghost(put_landform()),
    )?;
    write_all(
        cells,
        &patch.biomes,
        with_biome,
        Ghost(put_biome()),
    )
}

/// Writes the other layers of a patch.
fn write_cover(cells: &mut Vec<CellLayers>, patch: &WorldPatch) -> (verdict: Result<(), u32>)
    ensures
        ({
            let n = old(cells)@.len() as int;
            let e = written(old(cells)@, patch.moisture@, put_moisture());
            let f = written(e, patch.fertility@, put_fertility());
            let g = written(f, patch.water_bodies@, put_water_body());
            let h = written(g, patch.rivers@, put_river());
            let i = written(h, patch.tags@, put_tags());
            let first = or_else(
                stray(patch.moisture@, n),
                or_else(
                    stray(patch.fertility@, n),
                    or_else(
                        stray(patch.water_bodies@, n),
                        or_else(
                            stray(patch.rivers@, n),
                            or_else(stray(patch.tags@, n), stray(patch.gameplay@, n)),
                        ),
                    ),
                ),
            );
            match verdict {
                Ok(_) => first is None && final(cells)@ == written(
                    i,
                    patch.gameplay@,
                    put_gameplay(),
                ) && final(cells)@.len() == n,
                Err(id) => first == Some(id),
            }
        }),
{
    write_all(
        cells,
        &patch.moisture,
        with_moisture,
        Ghost(put_moisture()),
    )?;
    write_all(
        cells,
        &patch.fertility,
        with_fertility,
        Ghost(put_fertility()),
    )?;
    write_all(
        cells,
        &patch.water_bodies,
        with_water_body,
        Ghost(put_water_body()),
    )?;
    write_all(
        cells,
        &patch.rivers,
        with_river,
        Ghost(put_river()),
    )?;
    write_all(
        cells,
        &patch.tags,
        with_tags,
        Ghost(put_tags()),
    )?;
    write_all(
        cells,
        &patch.gameplay,
        with_gameplay,
        Ghost(put_gameplay()),
    )
}

/// Applies a patch to a world and hands its report out.
///
/// The error names the first cell outside the world that the patch writes.
pub fn apply_patch(world: LayeredWorld, patch: WorldPatch) -> (applied: Result<
    (LayeredWorld, PassReport),
    String,
>)
    ensures
        match applied {
            Ok((after, report)) => {
                &&& stray_cell(patch, world.layers().len() as int) is None
                &&& is_applied(world, patch, after)
                &&& after.layers().len() == world.layers().len()
                &&& report == patch.report
            },
            Err(message) => match stray_cell(patch, world.layers().len() as int) {
                Some(id) => message@ == stray_text(id),
                None => false,
            },
        },
{
    let ghost before = world;
    let LayeredWorld { manifest, cells, edges } = world;
    let mut manifest = manifest;
    let mut cells = cells;
    let mut edges = edges;
    match write_ground(&mut cells, &patch) {
        Ok(_) => {},
        Err(id) => {
            return Err(stray_message(id));
        },
    }
    match write_cover(&mut cells, &patch) {
        Ok(_) => {},
        Err(id) => {
            return Err(stray_message(id));
        },
    }
    let ghost writes = patch.edges@;
    let mut i: usize = 0;
    assert(writes.take(0) =~= Seq::<(HexEdge, EdgeLayers)>::empty());
    while i < patch.edges.len()
        invariant
            writes == patch.edges@,
            i <= writes.len(),
            edges@ == edges_after(before.edges@, writes.take(i as int)),
        decreases patch.edges.len() - i,
    {
        let (edge, layers) = patch.edges[i];
        assert(writes.take(i + 1).drop_last() =~= writes.take(i as int));
        edges.insert(edge, layers);
        i += 1;
    }
    assert(writes.take(i as int) =~= writes);
    if let Some(spawns) = patch.spawns {
        manifest.spawn_cells = spawns;
    }
    Ok((LayeredWorld { manifest, cells, edges }, patch.report))
}

} // verus!
