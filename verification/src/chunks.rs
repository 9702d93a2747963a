//! Storage chunks of layered worlds.
use vstd::prelude::*;
use crate::axials::{edge_lt, lemma_ordered_edges, ordered_edges, EdgeMap};
use crate::coord::{Axial, ChunkCoord, HexEdge};
use crate::layers::{
    chunks_along, law_numbers_are_places, CellLayers, ChunkCell, EdgeLayers, Grid, LayeredWorld,
    Surface, TerrainChunk, V2Manifest,
};
use crate::text::{append_axial, axial_text, text};

verus! {

/// How far a chunk that starts somewhere reaches.
pub open spec fn span(start: int, size: int, whole: int) -> int {
    if size < whole - start {
        size
    } else {
        whole - start
    }
}

/// The cell at a column and row of a world, as chunks hold it.
pub open spec fn chunk_cell(world: LayeredWorld, column: int, row: int) -> ChunkCell {
    let id = row * world.grid().width + column;
    ChunkCell { cell_id: id as u32, coordinate: world.grid().place(id), layers: world.layers()[id] }
}

/// Whether a coordinate lies in a chunk.
pub open spec fn lies_in(g: Grid, column: int, row: int, width: int, height: int, c: Axial) -> bool {
    &&& g.q_min + column <= c.q < g.q_min + column + width
    &&& g.r_min + row <= c.r < g.r_min + row + height
}

/// Whether an edge touches a chunk.
pub open spec fn touches(
    g: Grid,
    column: int,
    row: int,
    width: int,
    height: int,
    edge: HexEdge,
) -> bool {
    lies_in(g, column, row, width, height, edge.a) || lies_in(g, column, row, width, height, edge.b)
}

/// The edges of a list that pass a test, with what lies on them.
pub open spec fn edges_where(
    edges: Map<HexEdge, EdgeLayers>,
    keys: Seq<HexEdge>,
    test: spec_fn(HexEdge) -> bool,
) -> Seq<(HexEdge, EdgeLayers)>
    decreases keys.len(),
{
    if keys.len() == 0 {
        seq![]
    } else if test(keys.last()) {
        edges_where(edges, keys.drop_last(), test).push((keys.last(), edges[keys.last()]))
    } else {
        edges_where(edges, keys.drop_last(), test)
    }
}

pub open spec fn every_edge() -> spec_fn(HexEdge) -> bool {
    |e: HexEdge| true
}

impl LayeredWorld {
    /// The first column or row of a chunk.
    pub open spec fn chunk_start(&self, line: int) -> int {
        line * self.manifest.chunk_size
    }

    /// Whether the world has a chunk at a place.
    pub open spec fn has_chunk(&self, at: ChunkCoord) -> bool {
        &&& at.q >= 0
        &&& at.r >= 0
        &&& self.chunk_start(at.q as int) < self.manifest.width
        &&& self.chunk_start(at.r as int) < self.manifest.height
    }

    /// Whether this is the chunk of the world at a place.
    pub open spec fn is_chunk(&self, at: ChunkCoord, chunk: TerrainChunk) -> bool {
        let column = self.chunk_start(at.q as int);
        let row = self.chunk_start(at.r as int);
        let size = self.manifest.chunk_size as int;
        let width = span(column, size, self.manifest.width as int);
        let height = span(row, size, self.manifest.height as int);
        &&& chunk.coordinate == at
        &&& chunk.width == width
        &&& chunk.height == height
        &&& chunk.cells@ == Seq::new(
            (width * height) as nat,
            |k: int| chunk_cell(*self, column + k % width, row + k / width),
        )
        &&& chunk.edges@ == edges_where(
            self.edges@,
            ordered_edges(self.edges@.dom()),
            |e: HexEdge| touches(self.grid(), column, row, width, height, e),
        )
    }

    /// Extracts one zero-based storage chunk, including sparse edges touching it.
    pub fn chunk(&self, coordinate: ChunkCoord) -> (chunk: Option<TerrainChunk>)
        requires
            self.is_laid_out(),
        ensures
            match chunk {
                Some(chunk) => self.has_chunk(coordinate) && self.is_chunk(coordinate, chunk),
                None => !self.has_chunk(coordinate),
            },
    {
        if coordinate.q < 0 || coordinate.r < 0 {
            return None;
        }
        let size: u64 = self.manifest.chunk_size as u64;
        proof {
            assert(0 <= coordinate.q * size <= i32::MAX * u16::MAX) by (nonlinear_arith)
                requires
                    0 <= coordinate.q <= i32::MAX,
                    0 <= size <= u16::MAX,
            ;
            assert(0 <= coordinate.r * size <= i32::MAX * u16::MAX) by (nonlinear_arith)
                requires
                    0 <= coordinate.r <= i32::MAX,
                    0 <= size <= u16::MAX,
            ;
        }
        let column_start: u64 = coordinate.q as u64 * size;
        let row_start: u64 = coordinate.r as u64 * size;
        if column_start >= self.manifest.width as u64 || row_start >= self.manifest.height as u64 {
            return None;
        }
        let column: u32 = column_start as u32;
        let row: u32 = row_start as u32;
        let width: u32 = if size < self.manifest.width as u64 - column_start {
            size as u32
        } else {
            self.manifest.width - column
        };
        let height: u32 = if size < self.manifest.height as u64 - row_start {
            size as u32
        } else {
            self.manifest.height - row
        };
        let cells = self.chunk_cells(column, row, width, height);
        let edges = self.chunk_edges(column, row, width, height);
        Some(TerrainChunk { coordinate, width, height, cells, edges })
    }

    fn chunk_cells(&self, column: u32, row: u32, width: u32, height: u32) -> (cells: Vec<ChunkCell>)
        requires
            self.is_laid_out(),
            column + width <= self.manifest.width,
            row + height <= self.manifest.height,
        ensures
            cells@ == Seq::new(
                (width * height) as nat,
                |k: int|
                    chunk_cell(*self, column + k % (width as int), row + k / (width as int)),
            ),
    {
        let mut cells: Vec<ChunkCell> = Vec::new();
        let ghost w = width as int;
        let mut local_row: u32 = 0;
        while local_row < height
            invariant
                self.is_laid_out(),
                column + width <= self.manifest.width,
                row + height <= self.manifest.height,
                local_row <= height,
                w == width,
                cells@.len() == local_row * w,
                forall|k: int|
                    0 <= k < cells@.len() ==> #[trigger] cells@[k] == chunk_cell(
                        *self,
                        column + k % w,
                        row + k / w,
                    ),
            decreases height - local_row,
        {
            let mut local_column: u32 = 0;
            while local_column < width
                invariant
                    self.is_laid_out(),
                    column + width <= self.manifest.width,
                    row + height <= self.manifest.height,
                    local_row < height,
                    local_column <= width,
                    w == width,
                    cells@.len() == local_row * w + local_column,
                    forall|k: int|
                        0 <= k < cells@.len() ==> #[trigger] cells@[k] == chunk_cell(
                            *self,
                            column + k % w,
                            row + k / w,
                        ),
                decreases width - local_column,
            {
                let ghost whole = self.manifest.width as int;
                let ghost line = row + local_row;
                proof {
                    let x = (column + local_column) as int;
                    let tall = self.manifest.height as int;
                    assert(0 <= line * whole + x < whole * tall) by (nonlinear_arith)
                        requires
                            0 <= x < whole,
                            0 <= line < tall,
                    ;
                    assert(0 <= line * whole <= line * whole + x) by (nonlinear_arith)
                        requires
                            0 <= x,
                            0 <= line,
                            0 <= whole,
                    ;
                }
                let cell_id: u32 = (row + local_row) * self.manifest.width + (column
                    + local_column);
                proof {
                    let k = cells@.len() as int;
                    vstd::arithmetic::div_mod::lemma_fundamental_div_mod_converse(
                        k,
                        w,
                        local_row as int,
                        local_column as int,
                    );
                }
                match self.coordinate(cell_id) {
                    Some(coordinate) => {
                        cells.push(
                            ChunkCell { cell_id, coordinate, layers: self.cells[cell_id as usize] },
                        );
                    },
                    None => {
                        vstd::pervasive::unreached()
                    },
                }
                local_column += 1;
            }
            assert((local_row + 1) * w == local_row * w + w) by (nonlinear_arith);
            local_row += 1;
        }
        assert(height * w == w * height) by (nonlinear_arith);
        cells
    }

    fn chunk_edges(&self, column: u32, row: u32, width: u32, height: u32) -> (edges: Vec<
        (HexEdge, EdgeLayers),
    >)
        requires
            self.grid().fits(),
            column + width <= self.manifest.width,
            row + height <= self.manifest.height,
        ensures
            edges@ == edges_where(
                self.edges@,
                ordered_edges(self.edges@.dom()),
                |e: HexEdge|
                    touches(
                        self.grid(),
                        column as int,
                        row as int,
                        width as int,
                        height as int,
                        e,
                    ),
            ),
    {
        let ghost test = |e: HexEdge|
            touches(self.grid(), column as int, row as int, width as int, height as int, e);
        let keys = self.edges.keys();
        let mut edges: Vec<(HexEdge, EdgeLayers)> = Vec::new();
        let mut i: usize = 0;
        assert(keys@.take(0) =~= Seq::<HexEdge>::empty());
        while i < keys.len()
            invariant
                i <= keys@.len(),
                keys@.to_set() == self.edges@.dom(),
                self.grid().fits(),
                column + width <= self.manifest.width,
                row + height <= self.manifest.height,
                test == (|e: HexEdge|
                    touches(
                        self.grid(),
                        column as int,
                        row as int,
                        width as int,
                        height as int,
                        e,
                    )),
                edges@ == edges_where(self.edges@, keys@.take(i as int), test),
            decreases keys.len() - i,
        {
            let edge = keys[i];
            assert(keys@.to_set().contains(keys@[i as int]));
            assert(keys@.take(i + 1).drop_last() =~= keys@.take(i as int));
            if self.is_within(column, row, width, height, edge.a) || self.is_within(
                column,
                row,
                width,
                height,
                edge.b,
            ) {
                match self.edges.get(edge) {
                    Some(layers) => {
                        edges.push((edge, *layers));
                    },
                    None => {
                        vstd::pervasive::unreached()
                    },
                }
            }
            i += 1;
        }
        assert(keys@.take(i as int) =~= keys@);
        edges
    }

    fn is_within(&self, column: u32, row: u32, width: u32, height: u32, c: Axial) -> (within: bool)
        ensures
            within == lies_in(
                self.grid(),
                column as int,
                row as int,
                width as int,
                height as int,
                c,
            ),
    {
        let q: i64 = c.q as i64 - self.manifest.q_min as i64;
        let r: i64 = c.r as i64 - self.manifest.r_min as i64;
        q >= column as i64 && q < column as i64 + width as i64 && r >= row as i64 && r < row as i64
            + height as i64
    }

    /// A world of plain parts, with its edges as a list.
    ///
    /// The error names an edge that is listed twice.
    pub fn from_edge_list(
        manifest: V2Manifest,
        cells: Vec<CellLayers>,
        list: Vec<(HexEdge, EdgeLayers)>,
    ) -> (world: Result<LayeredWorld, String>)
        ensures
            match world {
                Ok(world) => {
                    &&& distinct_edges(list@, list@.len() as int)
                    &&& world.manifest == manifest
                    &&& world.layers() == cells@
                    &&& world.edges@ == listed_edges(list@)
                },
                Err(message) => exists|i: int| #[trigger]
                    repeats_edge(list@, i) && message@ == repeated_text(list@[i].0),
            },
    {
        let mut edges: EdgeMap<EdgeLayers> = EdgeMap::new();
        let mut i: usize = 0;
        assert(list@.take(0) =~= Seq::<(HexEdge, EdgeLayers)>::empty());
        while i < list.len()
            invariant
                i <= list@.len(),
                edges@ == listed_edges(list@.take(i as int)),
                distinct_edges(list@, i as int),
            decreases list.len() - i,
        {
            let (edge, layers) = list[i];
            proof {
                lemma_listed(list@.take(i as int), edge);
                assert(list@.take(i + 1).drop_last() =~= list@.take(i as int));
            }
            if edges.get(edge).is_some() {
                let mut message = text("duplicate layered edge ");
                append_axial(&mut message, edge.a);
                message.append("->");
                append_axial(&mut message, edge.b);
                proof {
                    assert(message@ =~= repeated_text(edge));
                    let j = choose|j: int| 0 <= j < i && #[trigger] list@.take(i as int)[j].0 == edge;
                    assert(list@[j].0 == edge);
                    assert(repeats_edge(list@, i as int));
                }
                return Err(message);
            }
            edges.insert(edge, layers);
            proof {
                assert forall|a: int, b: int| 0 <= a < b < i + 1 implies (#[trigger] list@[a]).0 != (
                #[trigger] list@[b]).0 by {
                    if b == i {
                        assert(list@.take(i as int)[a].0 == list@[a].0);
                    }
                }
            }
            i += 1;
        }
        assert(list@.take(i as int) =~= list@);
        Ok(LayeredWorld { manifest, cells, edges })
    }

    /// The edges in ascending order, with what lies on them.
    pub fn edge_list(&self) -> (list: Vec<(HexEdge, EdgeLayers)>)
        ensures
            list@ == edges_where(
                self.edges@,
                ordered_edges(self.edges@.dom()),
                every_edge(),
            ),
    {
        let keys = self.edges.keys();
        let mut list: Vec<(HexEdge, EdgeLayers)> = Vec::new();
        let mut i: usize = 0;
        assert(keys@.take(0) =~= Seq::<HexEdge>::empty());
        while i < keys.len()
            invariant
                i <= keys@.len(),
                keys@.to_set() == self.edges@.dom(),
                list@ == edges_where(self.edges@, keys@.take(i as int), every_edge()),
            decreases keys.len() - i,
        {
            assert(keys@.to_set().contains(keys@[i as int]));
            assert(keys@.take(i + 1).drop_last() =~= keys@.take(i as int));
            match self.edges.get(keys[i]) {
                Some(layers) => {
                    list.push((keys[i], *layers));
                },
                None => {
                    vstd::pervasive::unreached()
                },
            }
            i += 1;
        }
        assert(keys@.take(i as int) =~= keys@);
        list
    }

    /// Brings the counts of the manifest up to date.
    pub fn refresh_manifest_counts(&mut self)
        requires
            old(self).layers().len() <= u32::MAX,
        ensures
            final(self).layers() == old(self).layers(),
            final(self).edges == old(self).edges,
            is_recounted(old(self).manifest, final(self).manifest, old(self).layers()),
    {
        let n: usize = self.cells.len();
        let mut land: u32 = 0;
        let mut lake: u32 = 0;
        let mut river: u32 = 0;
        let mut i: usize = 0;
        assert(self.cells@.take(0) =~= Seq::<CellLayers>::empty());
        while i < n
            invariant
                i <= n,
                n == self.cells@.len(),
                n <= u32::MAX,
                *self == *old(self),
                land == tally(self.cells@.take(i as int), on_land()) <= i,
                lake == tally(self.cells@.take(i as int), in_lake()) <= i,
                river == tally(self.cells@.take(i as int), has_river()) <= i,
            decreases n - i,
        {
            assert(self.cells@.take(i + 1).drop_last() =~= self.cells@.take(i as int));
            if self.cells[i].surface == Surface::Land {
                land += 1;
            }
            if self.cells[i].surface == Surface::Lake {
                lake += 1;
            }
            if self.cells[i].river.is_some() {
                river += 1;
            }
            i += 1;
        }
        assert(self.cells@.take(i as int) =~= self.cells@);
        self.manifest.land_cells = land;
        self.manifest.lake_cells = lake;
        self.manifest.river_cells = river;
    }
}

/// How many cells pass a test.
pub open spec fn tally(cells: Seq<CellLayers>, test: spec_fn(CellLayers) -> bool) -> nat
    decreases cells.len(),
{
    if cells.len() == 0 {
        0
    } else if test(cells.last()) {
        tally(cells.drop_last(), test) + 1
    } else {
        tally(cells.drop_last(), test)
    }
}

pub open spec fn on_land() -> spec_fn(CellLayers) -> bool {
    |cell: CellLayers| cell.surface == Surface::Land
}

pub open spec fn in_lake() -> spec_fn(CellLayers) -> bool {
    |cell: CellLayers| cell.surface == Surface::Lake
}

pub open spec fn has_river() -> spec_fn(CellLayers) -> bool {
    |cell: CellLayers| cell.river is Some
}

/// Whether a manifest differs from another in its counts only, which are those
/// of the cells.
pub open spec fn is_recounted(before: V2Manifest, after: V2Manifest, cells: Seq<CellLayers>) -> bool {
    &&& after.land_cells == tally(cells, on_land())
    &&& after.lake_cells == tally(cells, in_lake())
    &&& after.river_cells == tally(cells, has_river())
    &&& after == (V2Manifest {
        land_cells: after.land_cells,
        lake_cells: after.lake_cells,
        river_cells: after.river_cells,
        ..before
    })
}

/// The map that a list of edges stands for.
pub open spec fn listed_edges(list: Seq<(HexEdge, EdgeLayers)>) -> Map<HexEdge, EdgeLayers>
    decreases list.len(),
{
    if list.len() == 0 {
        Map::empty()
    } else {
        listed_edges(list.drop_last()).insert(list.last().0, list.last().1)
    }
}

pub open spec fn distinct_edges(list: Seq<(HexEdge, EdgeLayers)>, n: int) -> bool {
    forall|a: int, b: int| 0 <= a < b < n ==> (#[trigger] list[a]).0 != (#[trigger] list[b]).0
}

/// Whether an edge of a list is the first that came before.
pub open spec fn repeats_edge(list: Seq<(HexEdge, EdgeLayers)>, i: int) -> bool {
    &&& 0 <= i < list.len()
    &&& distinct_edges(list, i)
    &&& exists|j: int| 0 <= j < i && (#[trigger] list[j]).0 == list[i].0
}

pub open spec fn repeated_text(e: HexEdge) -> Seq<char> {
    "duplicate layered edge "@ + axial_text(e.a) + "->"@ + axial_text(e.b)
}

proof fn lemma_listed(list: Seq<(HexEdge, EdgeLayers)>, e: HexEdge)
    ensures
        listed_edges(list).contains_key(e) <==> exists|j: int|
            0 <= j < list.len() && (#[trigger] list[j]).0 == e,
    decreases list.len(),
{
    if list.len() > 0 {
        lemma_listed(list.drop_last(), e);
        if exists|j: int| 0 <= j < list.len() && (#[trigger] list[j]).0 == e {
            let j = choose|j: int| 0 <= j < list.len() && (#[trigger] list[j]).0 == e;
            if j < list.len() - 1 {
                assert(list.drop_last()[j].0 == e);
            }
        }
        if listed_edges(list.drop_last()).contains_key(e) {
            let j = choose|j: int|
                0 <= j < list.drop_last().len() && (#[trigger] list.drop_last()[j]).0 == e;
            assert(list[j].0 == e);
        }
        if list.last().0 == e {
            assert(list[list.len() - 1].0 == e);
        }
    }
}

/// The list of a map's edges names none twice, and stands for the same map.
pub proof fn law_edge_lists_round_trip(edges: Map<HexEdge, EdgeLayers>, i: int)
    requires
        edges.dom().finite(),
    ensures
        ({
            let list = edges_where(edges, ordered_edges(edges.dom()), every_edge());
            &&& distinct_edges(list, list.len() as int)
            &&& !repeats_edge(list, i)
            &&& listed_edges(list) == edges
        }),
{
    let keys = ordered_edges(edges.dom());
    lemma_ordered_edges(edges.dom());
    lemma_all_edges(edges, keys);
    let list = edges_where(edges, keys, every_edge());
    assert forall|a: int, b: int| 0 <= a < b < list.len() implies (#[trigger] list[a]).0 != (
    #[trigger] list[b]).0 by {
        assert(edge_lt(keys[a], keys[b]));
    }
    if repeats_edge(list, i) {
        let j = choose|j: int| 0 <= j < i && (#[trigger] list[j]).0 == list[i].0;
        assert(list[j].0 != list[i].0);
    }
    assert forall|e: HexEdge| listed_edges(list).contains_key(e) <==> edges.contains_key(e) by {
        lemma_listed(list, e);
        if edges.contains_key(e) {
            assert(keys.to_set().contains(e));
            let k = choose|k: int| 0 <= k < keys.len() && keys[k] == e;
            assert(list[k].0 == e);
        }
        if listed_edges(list).contains_key(e) {
            let k = choose|k: int| 0 <= k < list.len() && (#[trigger] list[k]).0 == e;
            assert(keys.to_set().contains(keys[k]));
        }
    }
    assert(listed_edges(list) =~= edges);
}

/// The list of all edges has one entry for each.
proof fn lemma_all_edges(edges: Map<HexEdge, EdgeLayers>, keys: Seq<HexEdge>)
    ensures
        ({
            let list = edges_where(edges, keys, every_edge());
            &&& list.len() == keys.len()
            &&& forall|k: int|
                0 <= k < keys.len() ==> #[trigger] list[k] == (keys[k], edges[keys[k]])
            &&& forall|e: HexEdge| #[trigger]
                listed_edges(list).contains_key(e) ==> listed_edges(list)[e] == edges[e]
        }),
    decreases keys.len(),
{
    if keys.len() > 0 {
        lemma_all_edges(edges, keys.drop_last());
        let before = edges_where(edges, keys.drop_last(), every_edge());
        let list = edges_where(edges, keys, every_edge());
        assert(list == before.push((keys.last(), edges[keys.last()])));
        assert(list.drop_last() =~= before);
        assert(listed_edges(list) == listed_edges(before).insert(
            keys.last(),
            edges[keys.last()],
        ));
        assert forall|e: HexEdge| #[trigger] listed_edges(list).contains_key(e) implies listed_edges(
            list,
        )[e] == edges[e] by {
            if e != keys.last() {
                assert(listed_edges(before).contains_key(e));
            }
        }
        assert forall|k: int| 0 <= k < keys.len() implies #[trigger] list[k] == (
            keys[k],
            edges[keys[k]],
        ) by {
            if k < keys.len() - 1 {
                assert(list[k] == before[k]);
                assert(keys.drop_last()[k] == keys[k]);
            }
        }
    }
}

/// Every cell lies in the chunk of its column and row, at one place of it, and
/// in no other chunk.
pub proof fn law_chunks_cover_the_world(
    world: LayeredWorld,
    id: int,
    at: ChunkCoord,
    chunk: TerrainChunk,
    k: int,
)
    requires
        world.is_laid_out(),
        world.manifest.chunk_size > 0,
        world.has_chunk(at),
        world.is_chunk(at, chunk),
        0 <= id < world.layers().len(),
        0 <= k < chunk.cells@.len(),
    ensures
        at.q < chunks_along(world.manifest.width, world.manifest.chunk_size),
        at.r < chunks_along(world.manifest.height, world.manifest.chunk_size),
        chunk.cells@[k].cell_id == id ==> {
            &&& at.q == (id % world.grid().width) / (world.manifest.chunk_size as int)
            &&& at.r == (id / world.grid().width) / (world.manifest.chunk_size as int)
            &&& chunk.cells@[k].layers == world.layers()[id]
            &&& chunk.cells@[k].coordinate == world.grid().place(id)
        },
        at.q == (id % world.grid().width) / (world.manifest.chunk_size as int) && at.r == (id
            / world.grid().width) / (world.manifest.chunk_size as int) ==> exists|l: int|
            0 <= l < chunk.cells@.len() && (#[trigger] chunk.cells@[l]).cell_id == id,
{
    let g = world.grid();
    let size = world.manifest.chunk_size as int;
    let column = world.chunk_start(at.q as int);
    let row = world.chunk_start(at.r as int);
    let w = span(column, size, g.width);
    let h = span(row, size, g.height);
    law_numbers_are_places(g, Axial { q: 0, r: 0 }, id);
    lemma_chunk_index(at.q as int, size, g.width);
    lemma_chunk_index(at.r as int, size, g.height);
    let x = id % g.width;
    let y = id / g.width;
    vstd::arithmetic::div_mod::lemma_fundamental_div_mod(id, g.width);
    vstd::arithmetic::div_mod::lemma_mod_bound(id, g.width);
    assert(g.width * y == y * g.width) by (nonlinear_arith);
    lemma_inside(k, w, h);
    lemma_inside(id, g.width, g.height);
    let a = column + k % w;
    let b = row + k / w;
    let other = b * g.width + a;
    assert(chunk.cells@[k] == chunk_cell(world, a, b));
    vstd::arithmetic::div_mod::lemma_fundamental_div_mod_converse(other, g.width, b, a);
    assert(0 <= other < g.count()) by (nonlinear_arith)
        requires
            0 <= a < g.width,
            0 <= b < g.height,
            other == b * g.width + a,
            g.count() == g.width * g.height,
    ;
    if chunk.cells@[k].cell_id == id {
        assert(other == id);
        lemma_quotient(at.q as int, size, a);
        lemma_quotient(at.r as int, size, b);
    }
    if at.q == x / size && at.r == y / size {
        vstd::arithmetic::div_mod::lemma_fundamental_div_mod(x, size);
        vstd::arithmetic::div_mod::lemma_mod_bound(x, size);
        vstd::arithmetic::div_mod::lemma_fundamental_div_mod(y, size);
        vstd::arithmetic::div_mod::lemma_mod_bound(y, size);
        assert(size * at.q == at.q * size) by (nonlinear_arith);
        assert(size * at.r == at.r * size) by (nonlinear_arith);
        let u = x - column;
        let v = y - row;
        let l = v * w + u;
        assert(0 <= l < w * h) by (nonlinear_arith)
            requires
                0 <= u < w,
                0 <= v < h,
                l == v * w + u,
        ;
        vstd::arithmetic::div_mod::lemma_fundamental_div_mod_converse(l, w, v, u);
        assert(chunk.cells@[l] == chunk_cell(world, x, y));
        assert(chunk.cells@[l].cell_id == id);
    }
}

proof fn lemma_chunk_index(line: int, size: int, whole: int)
    requires
        0 < size <= u16::MAX,
        0 <= line,
        line * size < whole <= i32::MAX,
    ensures
        line < (whole + size - 1) / size,
        0 <= line * size,
{
    assert(0 <= line * size) by (nonlinear_arith)
        requires
            0 < size,
            0 <= line,
    ;
    let up = (whole + size - 1) / size;
    vstd::arithmetic::div_mod::lemma_fundamental_div_mod(whole + size - 1, size);
    vstd::arithmetic::div_mod::lemma_mod_bound(whole + size - 1, size);
    assert(line < up) by (nonlinear_arith)
        requires
            size * up >= whole,
            line * size < whole,
            0 < size,
    ;
}

proof fn lemma_inside(k: int, w: int, h: int)
    requires
        0 <= k < w * h,
        0 < w,
    ensures
        0 <= k % w < w,
        0 <= k / w < h,
{
    vstd::arithmetic::div_mod::lemma_fundamental_div_mod(k, w);
    vstd::arithmetic::div_mod::lemma_mod_bound(k, w);
    vstd::arithmetic::div_mod::lemma_div_pos_is_pos(k, w);
    let a = k / w;
    assert(a < h) by (nonlinear_arith)
        requires
            w * a <= k,
            k < w * h,
            0 < w,
    ;
}

proof fn lemma_quotient(line: int, size: int, x: int)
    requires
        0 < size,
        line * size <= x < line * size + size,
    ensures
        x / size == line,
{
    vstd::arithmetic::div_mod::lemma_fundamental_div_mod_converse(x, size, line, x - line * size);
}

} // verus!
