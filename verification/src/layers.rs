//! Layered, chunk-addressable worlds: physical, hydrology, biome, edge and
//! gameplay layers over one grid of cells.
use vstd::prelude::*;
use crate::axials::EdgeMap;
use crate::coord::{Axial, ChunkCoord, HexDirection, HexEdge};
use crate::noise::{quotient, toward_zero};
use crate::text::text;

verus! {

pub const DEFAULT_CHUNK_SIZE: u16 = 64;

pub const DEFAULT_MACRO_CELL_SIZE: u16 = 32;

/// Layered map format and default pipeline version.
pub const GENERATOR_VERSION: u16 = 2;

#[derive(Clone, Copy, Debug, Eq, PartialEq, Structural)]
pub struct WorldParameters {
    pub mountain_density_bps: u16,
    pub lake_depth_threshold: i16,
    pub river_threshold: u32,
}

impl Default for WorldParameters {
    fn default() -> (p: WorldParameters)
        ensures
            p == (WorldParameters {
                mountain_density_bps: 3_000,
                lake_depth_threshold: 18,
                river_threshold: 0,
            }),
    {
        WorldParameters { mountain_density_bps: 3_000, lake_depth_threshold: 18, river_threshold: 0 }
    }
}

#[derive(Clone, Debug, Eq, PartialEq)]
pub struct WorldSpec {
    pub name: String,
    pub width: u32,
    pub height: u32,
    pub seed: u64,
    pub player_count: u16,
    pub chunk_size: u16,
    pub macro_cell_size: u16,
    pub parameters: WorldParameters,
}

/// What is wrong with a world spec, if anything.
pub open spec fn spec_fault(s: WorldSpec) -> Option<Seq<char>> {
    if s.width < 24 || s.height < 24 {
        Some("layered maps must be at least 24 by 24"@)
    } else if s.player_count < 2 || s.player_count > 500 {
        Some("player count must be between 2 and 500"@)
    } else if s.chunk_size == 0 || s.macro_cell_size == 0 {
        Some("chunk and macro-cell sizes must be nonzero"@)
    } else if s.parameters.mountain_density_bps > 10_000 {
        Some("mountain density must not exceed 10,000 basis points"@)
    } else if s.parameters.lake_depth_threshold <= 0 {
        Some("lake depth threshold must be positive"@)
    } else if s.width > i32::MAX || s.height > i32::MAX {
        Some("map dimensions exceed axial coordinate storage"@)
    } else if s.width * s.height >= u32::MAX {
        Some("layered maps must contain fewer than u32::MAX cells"@)
    } else {
        None
    }
}

/// The first column or row of a world of some size.
pub open spec fn first_line(size: u32) -> int {
    -toward_zero((size as i32) as int, 2)
}

fn first_line_of(size: u32) -> (line: i32)
    ensures
        line == first_line(size),
        size <= i32::MAX ==> line == -(size as int / 2),
{
    let signed: i32 = size as i32;
    (-quotient(signed as i64, 2)) as i32
}

impl WorldSpec {
    pub fn new(name: String, width: u32, height: u32, seed: u64) -> (s: WorldSpec)
        ensures
            s.name@ == name@,
            s.width == width,
            s.height == height,
            s.seed == seed,
            s.player_count == 2,
            s.chunk_size == DEFAULT_CHUNK_SIZE,
            s.macro_cell_size == DEFAULT_MACRO_CELL_SIZE,
            s.parameters == (WorldParameters {
                mountain_density_bps: 3_000,
                lake_depth_threshold: 18,
                river_threshold: 0,
            }),
    {
        WorldSpec {
            name,
            width,
            height,
            seed,
            player_count: 2,
            chunk_size: DEFAULT_CHUNK_SIZE,
            macro_cell_size: DEFAULT_MACRO_CELL_SIZE,
            parameters: WorldParameters::default(),
        }
    }

    /// Checks dimensions, IDs, player count, and pass configuration.
    ///
    /// The error describes why the world spec cannot be represented by the
    /// layered map contract.
    pub fn validate(&self) -> (verdict: Result<(), String>)
        ensures
            match verdict {
                Ok(_) => spec_fault(*self) is None,
                Err(message) => spec_fault(*self) == Some(message@),
            },
    {
        if self.width < 24 || self.height < 24 {
            return Err(text("layered maps must be at least 24 by 24"));
        }
        if self.player_count < 2 || self.player_count > 500 {
            return Err(text("player count must be between 2 and 500"));
        }
        if self.chunk_size == 0 || self.macro_cell_size == 0 {
            return Err(text("chunk and macro-cell sizes must be nonzero"));
        }
        if self.parameters.mountain_density_bps > 10_000 {
            return Err(text("mountain density must not exceed 10,000 basis points"));
        }
        if self.parameters.lake_depth_threshold <= 0 {
            return Err(text("lake depth threshold must be positive"));
        }
        if self.width > i32::MAX as u32 || self.height > i32::MAX as u32 {
            return Err(text("map dimensions exceed axial coordinate storage"));
        }
        proof {
            assert(0 <= self.width * self.height <= u32::MAX * u32::MAX) by (nonlinear_arith)
                requires
                    0 <= self.width <= u32::MAX,
                    0 <= self.height <= u32::MAX,
            ;
        }
        if self.width as u64 * self.height as u64 >= u32::MAX as u64 {
            return Err(text("layered maps must contain fewer than u32::MAX cells"));
        }
        Ok(())
    }

    pub fn q_min(&self) -> (q: i32)
        ensures
            q == first_line(self.width),
            self.width <= i32::MAX ==> q == -(self.width as int / 2),
    {
        first_line_of(self.width)
    }

    pub fn r_min(&self) -> (r: i32)
        ensures
            r == first_line(self.height),
            self.height <= i32::MAX ==> r == -(self.height as int / 2),
    {
        first_line_of(self.height)
    }

    pub fn cell_count(&self) -> (n: usize)
        requires
            self.width * self.height <= usize::MAX,
        ensures
            n == self.width * self.height,
    {
        self.width as usize * self.height as usize
    }
}

#[derive(Clone, Copy, Debug, Eq, Hash, PartialEq, Structural)]
pub enum Surface {
    Land,
    Ocean,
    Lake,
}

impl Default for Surface {
    fn default() -> (value: Surface)
        ensures
            value == Surface::Land,
    {
        Surface::Land
    }
}

#[derive(Clone, Copy, Debug, Eq, Hash, PartialEq, Structural)]
pub enum Landform {
    Plain,
    Hill,
    Mountain,
    Valley,
    Plateau,
}

impl Default for Landform {
    fn default() -> (value: Landform)
        ensures
            value == Landform::Plain,
    {
        Landform::Plain
    }
}

#[derive(Clone, Copy, Debug, Eq, Hash, PartialEq, Structural)]
pub enum Biome {
    TemperateGrassland,
    Forest,
    Wetland,
    Dryland,
    Alpine,
    Tundra,
}

impl Default for Biome {
    fn default() -> (value: Biome)
        ensures
            value == Biome::TemperateGrassland,
    {
        Biome::TemperateGrassland
    }
}

#[derive(Clone, Copy, Debug, Eq, Hash, PartialEq, Structural)]
pub struct TerrainTags(pub u16);

impl Default for TerrainTags {
    fn default() -> (value: TerrainTags)
        ensures
            value == TerrainTags(0),
    {
        TerrainTags(0)
    }
}

impl TerrainTags {
    pub const COAST: u16 = 1;

    pub const RIVERBANK: u16 = 2;

    pub const SOURCE: u16 = 4;

    pub const OUTLET: u16 = 8;

    pub fn insert(&mut self, flag: u16)
        ensures
            final(self).0 == old(self).0 | flag,
    {
        self.0 = self.0 | flag;
    }

    pub fn contains(self, flag: u16) -> (found: bool)
        ensures
            found == (self.0 & flag != 0),
    {
        self.0 & flag != 0
    }
}

/// A flag that was put in is found, and putting one in loses no other.
pub proof fn law_tags_accumulate(tags: u16, flag: u16, other: u16)
    ensures
        flag != 0 ==> (tags | flag) & flag != 0,
        tags & other != 0 ==> (tags | flag) & other != 0,
{
    assert(flag != 0 ==> (tags | flag) & flag != 0) by (bit_vector);
    assert(tags & other != 0 ==> (tags | flag) & other != 0) by (bit_vector);
}

#[derive(Clone, Copy, Debug, Eq, PartialEq, Structural)]
pub struct RiverCell {
    /// Direction toward the next river, lake, or ocean cell.
    pub outflow: HexDirection,
    /// Bit `HexDirection::index()` is set for every upstream river neighbor.
    pub inflow_mask: u8,
    pub order: u8,
    pub discharge: u32,
}

#[derive(Clone, Copy, Debug, Eq, PartialEq, Structural)]
pub struct GameplayCell {
    pub passable: bool,
    pub capturable: bool,
    pub habitable: bool,
    pub movement_cost: u16,
    pub military_capacity: u16,
    pub civilian_capacity: u16,
}

pub open spec fn default_gameplay() -> GameplayCell {
    GameplayCell {
        passable: true,
        capturable: true,
        habitable: true,
        movement_cost: 10,
        military_capacity: 100,
        civilian_capacity: 100,
    }
}

impl Default for GameplayCell {
    fn default() -> (cell: GameplayCell)
        ensures
            cell == default_gameplay(),
    {
        GameplayCell {
            passable: true,
            capturable: true,
            habitable: true,
            movement_cost: 10,
            military_capacity: 100,
            civilian_capacity: 100,
        }
    }
}

#[derive(Clone, Copy, Debug, Eq, PartialEq)]
pub struct CellLayers {
    pub elevation: i16,
    pub surface: Surface,
    pub landform: Landform,
    pub biome: Biome,
    pub moisture: u8,
    pub fertility: u8,
    pub water_body_id: Option<u32>,
    pub river: Option<RiverCell>,
    pub tags: TerrainTags,
    pub gameplay: GameplayCell,
}

pub open spec fn default_layers() -> CellLayers {
    CellLayers {
        elevation: 0,
        surface: Surface::Land,
        landform: Landform::Plain,
        biome: Biome::TemperateGrassland,
        moisture: 0,
        fertility: 0,
        water_body_id: None,
        river: None,
        tags: TerrainTags(0),
        gameplay: default_gameplay(),
    }
}

impl Default for CellLayers {
    fn default() -> (cell: CellLayers)
        ensures
            cell == default_layers(),
    {
        CellLayers {
            elevation: 0,
            surface: Surface::Land,
            landform: Landform::Plain,
            biome: Biome::TemperateGrassland,
            moisture: 0,
            fertility: 0,
            water_body_id: None,
            river: None,
            tags: TerrainTags(0),
            gameplay: GameplayCell::default(),
        }
    }
}

#[derive(Clone, Copy, Debug, Eq, PartialEq, Structural)]
pub enum Crossing {
    /// No crossing.
    Absent,
    Ford,
    Bridge,
}

impl Default for Crossing {
    fn default() -> (value: Crossing)
        ensures
            value == Crossing::Absent,
    {
        Crossing::Absent
    }
}

#[derive(Clone, Copy, Debug, Eq, PartialEq, Structural)]
pub struct EdgeLayers {
    pub road_level: u8,
    pub crossing: Crossing,
    pub movement_modifier_bps: i16,
}

impl Default for EdgeLayers {
    fn default() -> (layers: EdgeLayers)
        ensures
            layers == (EdgeLayers {
                road_level: 0,
                crossing: Crossing::Absent,
                movement_modifier_bps: 0,
            }),
    {
        EdgeLayers { road_level: 0, crossing: Crossing::Absent, movement_modifier_bps: 0 }
    }
}

#[derive(Clone, Copy, Debug, Eq, Hash, PartialEq, Structural)]
pub enum WorldLayer {
    Elevation,
    Surface,
    Landform,
    Biome,
    Moisture,
    Fertility,
    Hydrology,
    Tags,
    Gameplay,
    Edges,
    Spawns,
}

#[derive(Debug, Eq, PartialEq)]
pub struct PassProvenance {
    pub name: String,
    pub seed: u64,
    pub reads: Vec<WorldLayer>,
    pub writes: Vec<WorldLayer>,
}

#[derive(Debug, Eq, PartialEq)]
pub struct V2Manifest {
    pub name: String,
    pub generator_version: u16,
    pub width: u32,
    pub height: u32,
    pub q_min: i32,
    pub r_min: i32,
    pub seed: u64,
    pub player_count: u16,
    pub chunk_size: u16,
    pub macro_cell_size: u16,
    pub parameters: WorldParameters,
    pub pipeline: Vec<PassProvenance>,
    pub content_hash: u64,
    pub land_cells: u32,
    pub lake_cells: u32,
    pub river_cells: u32,
    pub spawn_cells: Vec<Axial>,
}

#[derive(Debug, Eq, PartialEq)]
pub struct LayeredWorld {
    pub manifest: V2Manifest,
    pub cells: Vec<CellLayers>,
    pub edges: EdgeMap<EdgeLayers>,
}

/// Whether manifests are of one kind of world: all but the pipeline, the hash,
/// the counts and the starts agree.
pub open spec fn same_frame(a: V2Manifest, b: V2Manifest) -> bool {
    &&& a.name@ == b.name@
    &&& a.generator_version == b.generator_version
    &&& a.width == b.width
    &&& a.height == b.height
    &&& a.q_min == b.q_min
    &&& a.r_min == b.r_min
    &&& a.seed == b.seed
    &&& a.player_count == b.player_count
    &&& a.chunk_size == b.chunk_size
    &&& a.macro_cell_size == b.macro_cell_size
    &&& a.parameters == b.parameters
}

pub open spec fn same_record(a: PassProvenance, b: PassProvenance) -> bool {
    &&& a.name@ == b.name@
    &&& a.seed == b.seed
    &&& a.reads@ == b.reads@
    &&& a.writes@ == b.writes@
}

/// Whether two lists of pass records tell the same.
pub open spec fn same_records(a: Seq<PassProvenance>, b: Seq<PassProvenance>) -> bool {
    &&& a.len() == b.len()
    &&& forall|i: int| 0 <= i < a.len() ==> same_record(#[trigger] a[i], b[i])
}

/// Whether two manifests say the same.
pub open spec fn same_manifest(a: V2Manifest, b: V2Manifest) -> bool {
    &&& same_frame(a, b)
    &&& same_records(a.pipeline@, b.pipeline@)
    &&& a.content_hash == b.content_hash
    &&& a.land_cells == b.land_cells
    &&& a.lake_cells == b.lake_cells
    &&& a.river_cells == b.river_cells
    &&& a.spawn_cells@ == b.spawn_cells@
}

/// Whether two worlds are the same in all that they hold.
pub open spec fn same_world(a: LayeredWorld, b: LayeredWorld) -> bool {
    &&& a.layers() == b.layers()
    &&& a.edges@ == b.edges@
    &&& same_manifest(a.manifest, b.manifest)
}

impl Clone for PassProvenance {
    fn clone(&self) -> (copy: PassProvenance)
        ensures
            same_record(*self, copy),
    {
        let copy = PassProvenance {
            name: self.name.clone(),
            seed: self.seed,
            reads: self.reads.clone(),
            writes: self.writes.clone(),
        };
        assert(self.reads@ =~= copy.reads@);
        assert(self.writes@ =~= copy.writes@);
        copy
    }
}

impl Clone for V2Manifest {
    fn clone(&self) -> (copy: V2Manifest)
        ensures
            same_manifest(*self, copy),
    {
        let copy = V2Manifest {
            name: self.name.clone(),
            generator_version: self.generator_version,
            width: self.width,
            height: self.height,
            q_min: self.q_min,
            r_min: self.r_min,
            seed: self.seed,
            player_count: self.player_count,
            chunk_size: self.chunk_size,
            macro_cell_size: self.macro_cell_size,
            parameters: self.parameters,
            pipeline: self.pipeline.clone(),
            content_hash: self.content_hash,
            land_cells: self.land_cells,
            lake_cells: self.lake_cells,
            river_cells: self.river_cells,
            spawn_cells: self.spawn_cells.clone(),
        };
        assert(self.spawn_cells@ =~= copy.spawn_cells@);
        copy
    }
}

impl Clone for LayeredWorld {
    fn clone(&self) -> (copy: LayeredWorld)
        ensures
            same_world(*self, copy),
    {
        let copy = LayeredWorld {
            manifest: self.manifest.clone(),
            cells: self.cells.clone(),
            edges: self.edges.clone(),
        };
        assert(self.cells@ =~= copy.cells@);
        copy
    }
}

#[derive(Clone, Debug, Eq, PartialEq)]
pub struct ChunkCell {
    pub cell_id: u32,
    pub coordinate: Axial,
    pub layers: CellLayers,
}

#[derive(Clone, Debug, Eq, PartialEq)]
pub struct TerrainChunk {
    pub coordinate: ChunkCoord,
    pub width: u32,
    pub height: u32,
    pub cells: Vec<ChunkCell>,
    pub edges: Vec<(HexEdge, EdgeLayers)>,
}

/// The extent of a grid of cells.
pub struct Grid {
    pub width: int,
    pub height: int,
    pub q_min: int,
    pub r_min: int,
}

impl Grid {
    /// Whether cells have numbers and coordinates, and so have their neighbours.
    pub open spec fn fits(self) -> bool {
        &&& 0 < self.width <= i32::MAX
        &&& 0 < self.height <= i32::MAX
        &&& self.width * self.height <= u32::MAX
        &&& i32::MIN < self.q_min
        &&& self.q_min + self.width <= i32::MAX
        &&& i32::MIN < self.r_min
        &&& self.r_min + self.height <= i32::MAX
    }

    /// Whether every cell has a number.
    pub open spec fn is_numbered(self) -> bool {
        &&& 0 <= self.width <= i32::MAX
        &&& 0 <= self.height <= i32::MAX
        &&& self.width * self.height <= u32::MAX
    }

    pub open spec fn count(self) -> int {
        self.width * self.height
    }

    /// Whether a coordinate lies in the grid.
    pub open spec fn holds(self, c: Axial) -> bool {
        &&& self.q_min <= c.q < self.q_min + self.width
        &&& self.r_min <= c.r < self.r_min + self.height
    }

    /// The number of a cell: row by row.
    pub open spec fn id(self, c: Axial) -> int {
        (c.r - self.r_min) * self.width + (c.q - self.q_min)
    }

    /// The coordinate of a cell.
    pub open spec fn place(self, id: int) -> Axial {
        Axial {
            q: (self.q_min + id % self.width) as i32,
            r: (self.r_min + id / self.width) as i32,
        }
    }

    /// The number of the neighbouring cell in a direction, if the grid has one.
    pub open spec fn beside(self, id: int, d: int) -> Option<int> {
        if self.holds(self.place(id).step(d)) {
            Some(self.id(self.place(id).step(d)))
        } else {
            None
        }
    }
}

/// Numbers and coordinates of a grid correspond.
pub proof fn law_numbers_are_places(g: Grid, c: Axial, id: int)
    requires
        g.fits(),
    ensures
        0 <= id < g.count() ==> g.holds(g.place(id)) && g.id(g.place(id)) == id,
        g.holds(c) ==> 0 <= g.id(c) < g.count() && g.place(g.id(c)) == c,
{
    let w = g.width;
    if 0 <= id < g.count() {
        vstd::arithmetic::div_mod::lemma_fundamental_div_mod(id, w);
        vstd::arithmetic::div_mod::lemma_mod_bound(id, w);
        vstd::arithmetic::div_mod::lemma_div_pos_is_pos(id, w);
        let a = id / w;
        assert(w * a == a * w) by (nonlinear_arith);
        assert(a < g.height) by (nonlinear_arith)
            requires
                a * w <= id,
                id < w * g.height,
                w > 0,
        ;
    }
    if g.holds(c) {
        let x = c.q - g.q_min;
        let y = c.r - g.r_min;
        let k = y * w + x;
        assert(0 <= k < w * g.height) by (nonlinear_arith)
            requires
                k == y * w + x,
                0 <= x < w,
                0 <= y < g.height,
        ;
        vstd::arithmetic::div_mod::lemma_fundamental_div_mod_converse(k, w, y, x);
    }
}

/// The number of a column and a row is below the number of cells.
pub proof fn lemma_number_fits(width: int, height: int, column: int, row: int)
    requires
        0 <= column < width,
        0 <= row < height,
    ensures
        0 <= row * width,
        row * width + column < width * height,
{
    assert(0 <= row * width && row * width + column < width * height) by (nonlinear_arith)
        requires
            0 <= column < width,
            0 <= row < height,
    ;
}

/// Every number has a column and a row of the grid.
pub proof fn lemma_line_bounds(g: Grid, id: int)
    requires
        g.fits(),
        0 <= id < g.count(),
    ensures
        0 <= id % g.width < g.width,
        0 <= id / g.width < g.height,
{
    let w = g.width;
    vstd::arithmetic::div_mod::lemma_fundamental_div_mod(id, w);
    vstd::arithmetic::div_mod::lemma_mod_bound(id, w);
    vstd::arithmetic::div_mod::lemma_div_pos_is_pos(id, w);
    let a = id / w;
    assert(a < g.height) by (nonlinear_arith)
        requires
            w * a <= id,
            id < w * g.height,
            w > 0,
    ;
}

/// A neighbour in one direction has the cell as its neighbour in the opposite
/// one.
pub proof fn law_neighbours_are_mutual(g: Grid, id: int, d: int)
    requires
        g.fits(),
        0 <= id < g.count(),
        0 <= d < 6,
        g.beside(id, d) is Some,
    ensures
        0 <= g.beside(id, d).unwrap() < g.count(),
        g.beside(g.beside(id, d).unwrap(), (d + 3) % 6) == Some(id),
        g.beside(id, d).unwrap() != id,
{
    let c = g.place(id).step(d);
    law_numbers_are_places(g, c, id);
    assert(c.step((d + 3) % 6) == g.place(id));
    assert(c != g.place(id));
}

impl V2Manifest {
    pub open spec fn grid(self) -> Grid {
        Grid {
            width: self.width as int,
            height: self.height as int,
            q_min: self.q_min as int,
            r_min: self.r_min as int,
        }
    }
}

impl LayeredWorld {
    /// The layers of the cells, by number.
    pub open spec fn layers(&self) -> Seq<CellLayers> {
        self.cells@
    }

    pub open spec fn grid(&self) -> Grid {
        self.manifest.grid()
    }

    /// Whether the cells fill their grid.
    pub open spec fn is_laid_out(&self) -> bool {
        self.grid().fits() && self.layers().len() == self.grid().count()
    }

    /// A world of default cells.
    pub fn empty(spec: &WorldSpec) -> (world: LayeredWorld)
        requires
            spec_fault(*spec) is None,
        ensures
            is_empty_world(world, *spec),
            world.is_laid_out(),
    {
        proof {
            assert(spec.width * spec.height < u32::MAX);
        }
        let count: usize = spec.cell_count();
        let mut cells: Vec<CellLayers> = Vec::new();
        let mut i: usize = 0;
        while i < count
            invariant
                i <= count,
                cells@.len() == i,
                forall|k: int| 0 <= k < i ==> #[trigger] cells@[k] == default_layers(),
            decreases count - i,
        {
            cells.push(CellLayers::default());
            i += 1;
        }
        let world = LayeredWorld {
            manifest: V2Manifest {
                name: spec.name.clone(),
                generator_version: GENERATOR_VERSION,
                width: spec.width,
                height: spec.height,
                q_min: spec.q_min(),
                r_min: spec.r_min(),
                seed: spec.seed,
                player_count: spec.player_count,
                chunk_size: spec.chunk_size,
                macro_cell_size: spec.macro_cell_size,
                parameters: spec.parameters,
                pipeline: Vec::new(),
                content_hash: 0,
                land_cells: 0,
                lake_cells: 0,
                river_cells: 0,
                spawn_cells: Vec::new(),
            },
            cells,
            edges: EdgeMap::new(),
        };
        assert(world.layers() =~= Seq::new(
            (spec.width * spec.height) as nat,
            |i: int| default_layers(),
        ));
        world
    }

    /// A world of the given parts.
    pub fn from_parts(
        manifest: V2Manifest,
        cells: Vec<CellLayers>,
        edges: EdgeMap<EdgeLayers>,
    ) -> (world: LayeredWorld)
        ensures
            world.manifest == manifest,
            world.layers() == cells@,
            world.edges@ == edges@,
    {
        LayeredWorld { manifest, cells, edges }
    }

    pub fn width(&self) -> (w: u32)
        ensures
            w == self.manifest.width,
    {
        self.manifest.width
    }

    pub fn height(&self) -> (h: u32)
        ensures
            h == self.manifest.height,
    {
        self.manifest.height
    }

    pub fn cells(&self) -> (cells: &[CellLayers])
        ensures
            cells@ == self.layers(),
    {
        self.cells.as_slice()
    }

    pub fn cells_mut(&mut self) -> (cells: &mut [CellLayers])
        ensures
            cells@ == old(self).layers(),
            final(self).layers() == final(cells)@,
            final(self).manifest == old(self).manifest,
            final(self).edges == old(self).edges,
    {
        self.cells.as_mut_slice()
    }

    pub fn cell_id(&self, coordinate: Axial) -> (id: Option<u32>)
        requires
            self.grid().is_numbered(),
        ensures
            id == (if self.grid().holds(coordinate) {
                Some(self.grid().id(coordinate) as u32)
            } else {
                None
            }),
            id matches Some(id) ==> id == self.grid().id(coordinate) && id < self.grid().count(),
    {
        let column: i64 = coordinate.q as i64 - self.manifest.q_min as i64;
        let row: i64 = coordinate.r as i64 - self.manifest.r_min as i64;
        if column < 0 || row < 0 || column >= self.manifest.width as i64 || row
            >= self.manifest.height as i64 {
            return None;
        }
        proof {
            lemma_number_fits(
                self.manifest.width as int,
                self.manifest.height as int,
                column as int,
                row as int,
            );
        }
        Some(row as u32 * self.manifest.width + column as u32)
    }

    pub fn coordinate(&self, cell_id: u32) -> (coordinate: Option<Axial>)
        requires
            self.is_laid_out(),
        ensures
            coordinate == (if cell_id < self.layers().len() {
                Some(self.grid().place(cell_id as int))
            } else {
                None
            }),
    {
        if cell_id as usize >= self.cells.len() {
            return None;
        }
        proof {
            law_numbers_are_places(self.grid(), Axial { q: 0, r: 0 }, cell_id as int);
            vstd::arithmetic::div_mod::lemma_mod_bound(
                cell_id as int,
                self.manifest.width as int,
            );
        }
        let column: u32 = cell_id % self.manifest.width;
        let row: u32 = cell_id / self.manifest.width;
        let q: i64 = self.manifest.q_min as i64 + column as i64;
        let r: i64 = self.manifest.r_min as i64 + row as i64;
        Some(Axial::new(q as i32, r as i32))
    }

    pub fn cell(&self, coordinate: Axial) -> (cell: Option<&CellLayers>)
        requires
            self.grid().is_numbered(),
        ensures
            cell == (if self.grid().holds(coordinate) && self.grid().id(coordinate)
                < self.layers().len() {
                Some(&self.layers()[self.grid().id(coordinate)])
            } else {
                None
            }),
    {
        match self.cell_id(coordinate) {
            Some(id) => {
                if (id as usize) < self.cells.len() {
                    Some(&self.cells[id as usize])
                } else {
                    None
                }
            },
            None => None,
        }
    }

    pub fn cell_mut(&mut self, coordinate: Axial) -> (cell: Option<&mut CellLayers>)
        requires
            old(self).grid().is_numbered(),
        ensures
            match cell {
                Some(c) => {
                    let id = old(self).grid().id(coordinate);
                    &&& old(self).grid().holds(coordinate)
                    &&& id < old(self).layers().len()
                    &&& *c == old(self).layers()[id]
                    &&& final(self).layers() == old(self).layers().update(id, *final(c))
                    &&& final(self).manifest == old(self).manifest
                    &&& final(self).edges == old(self).edges
                },
                None => {
                    &&& *final(self) == *old(self)
                    &&& !(old(self).grid().holds(coordinate) && old(self).grid().id(coordinate)
                        < old(self).layers().len())
                },
            },
    {
        match self.cell_id(coordinate) {
            Some(id) => {
                if (id as usize) < self.cells.len() {
                    Some(&mut self.cells[id as usize])
                } else {
                    None
                }
            },
            None => None,
        }
    }

    pub fn neighbor_id(&self, cell_id: u32, direction: HexDirection) -> (id: Option<u32>)
        requires
            self.is_laid_out(),
        ensures
            id is Some <==> cell_id < self.layers().len() && self.grid().beside(
                cell_id as int,
                direction.ordinal(),
            ) is Some,
            id matches Some(n) ==> Some(n as int) == self.grid().beside(
                cell_id as int,
                direction.ordinal(),
            ) && n < self.layers().len(),
    {
        match self.coordinate(cell_id) {
            Some(c) => {
                proof {
                    law_numbers_are_places(self.grid(), c, cell_id as int);
                }
                self.cell_id(c.neighbor(direction))
            },
            None => None,
        }
    }

    pub fn chunks_wide(&self) -> (n: u32)
        requires
            self.manifest.chunk_size > 0,
        ensures
            n == chunks_along(self.manifest.width, self.manifest.chunk_size),
    {
        chunk_count(self.manifest.width, self.manifest.chunk_size)
    }

    pub fn chunks_high(&self) -> (n: u32)
        requires
            self.manifest.chunk_size > 0,
        ensures
            n == chunks_along(self.manifest.height, self.manifest.chunk_size),
    {
        chunk_count(self.manifest.height, self.manifest.chunk_size)
    }
}

/// How many chunks cover a side, the last one perhaps in part.
pub open spec fn chunks_along(side: u32, size: u16) -> int {
    (side + size - 1) / (size as int)
}

fn chunk_count(side: u32, size: u16) -> (n: u32)
    requires
        size > 0,
    ensures
        n == chunks_along(side, size),
{
    proof {
        vstd::arithmetic::div_mod::lemma_div_is_ordered_by_denominator(
            side + size - 1,
            1,
            size as int,
        );
        assert((side + size - 1) / (size as int) <= side) by (nonlinear_arith)
            requires
                size >= 1,
                side >= 0,
        ;
    }
    ((side as u64 + size as u64 - 1) / size as u64) as u32
}

/// The world that a world spec starts from.
pub open spec fn is_empty_world(world: LayeredWorld, spec: WorldSpec) -> bool {
    let m = world.manifest;
    &&& m.name@ == spec.name@
    &&& m.generator_version == GENERATOR_VERSION
    &&& m.width == spec.width
    &&& m.height == spec.height
    &&& m.q_min == -(spec.width as int / 2)
    &&& m.r_min == -(spec.height as int / 2)
    &&& m.seed == spec.seed
    &&& m.player_count == spec.player_count
    &&& m.chunk_size == spec.chunk_size
    &&& m.macro_cell_size == spec.macro_cell_size
    &&& m.parameters == spec.parameters
    &&& m.pipeline@ == Seq::<PassProvenance>::empty()
    &&& m.content_hash == 0
    &&& m.land_cells == 0
    &&& m.lake_cells == 0
    &&& m.river_cells == 0
    &&& m.spawn_cells@ == Seq::<Axial>::empty()
    &&& world.layers() == Seq::new((spec.width * spec.height) as nat, |i: int| default_layers())
    &&& world.edges@ == Map::<HexEdge, EdgeLayers>::empty()
}

} // verus!
