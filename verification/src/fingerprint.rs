//! Content hashes of layered worlds.
use vstd::prelude::*;
use crate::axials::ordered_edges;
use crate::coord::{Axial, HexEdge};
use crate::layers::{
    Biome, CellLayers, Crossing, EdgeLayers, Landform, LayeredWorld, RiverCell, Surface,
};
use crate::noise::{hash_all, hash_words, lemma_hash_concat, HASH_START};
use crate::worldgen::flag;

verus! {

pub open spec fn surface_code(surface: Surface) -> u64 {
    match surface {
        Surface::Land => 0,
        Surface::Ocean => 1,
        Surface::Lake => 2,
    }
}

pub open spec fn landform_code(landform: Landform) -> u64 {
    match landform {
        Landform::Plain => 0,
        Landform::Hill => 1,
        Landform::Mountain => 2,
        Landform::Valley => 3,
        Landform::Plateau => 4,
    }
}

pub open spec fn biome_code(biome: Biome) -> u64 {
    match biome {
        Biome::TemperateGrassland => 0,
        Biome::Forest => 1,
        Biome::Wetland => 2,
        Biome::Dryland => 3,
        Biome::Alpine => 4,
        Biome::Tundra => 5,
    }
}

pub open spec fn crossing_code(crossing: Crossing) -> u64 {
    match crossing {
        Crossing::Absent => 0,
        Crossing::Ford => 1,
        Crossing::Bridge => 2,
    }
}

/// What the ground of a cell contributes.
pub open spec fn ground_words(cell: CellLayers) -> Seq<u64> {
    seq![
        (cell.elevation as u16) as u64,
        surface_code(cell.surface),
        landform_code(cell.landform),
        biome_code(cell.biome),
        cell.moisture as u64,
        cell.fertility as u64,
        (match cell.water_body_id {
            Some(id) => id as u64,
            None => 0,
        }),
        cell.tags.0 as u64,
    ]
}

/// What a river contributes.
pub open spec fn river_words(river: Option<RiverCell>) -> Seq<u64> {
    match river {
        Some(river) => seq![
            1u64,
            river.outflow.ordinal() as u64,
            river.inflow_mask as u64,
            river.order as u64,
            river.discharge as u64,
        ],
        None => seq![0u64],
    }
}

/// What the use of a cell contributes.
pub open spec fn use_words(cell: CellLayers) -> Seq<u64> {
    seq![
        flag(cell.gameplay.passable),
        flag(cell.gameplay.capturable),
        flag(cell.gameplay.habitable),
        cell.gameplay.movement_cost as u64,
        cell.gameplay.military_capacity as u64,
        cell.gameplay.civilian_capacity as u64,
    ]
}

pub open spec fn layer_words(cell: CellLayers) -> Seq<u64> {
    ground_words(cell) + river_words(cell.river) + use_words(cell)
}

pub open spec fn edge_words(edge: HexEdge, layers: EdgeLayers) -> Seq<u64> {
    seq![
        (edge.a.q as u32) as u64,
        (edge.a.r as u32) as u64,
        (edge.b.q as u32) as u64,
        (edge.b.r as u32) as u64,
        layers.road_level as u64,
        crossing_code(layers.crossing),
        (layers.movement_modifier_bps as u16) as u64,
    ]
}

pub open spec fn start_words(start: Axial) -> Seq<u64> {
    seq![(start.q as u32) as u64, (start.r as u32) as u64]
}

/// The hash after some cells.
pub open spec fn after_cells(hash: u64, cells: Seq<CellLayers>) -> u64
    decreases cells.len(),
{
    if cells.len() == 0 {
        hash
    } else {
        hash_words(after_cells(hash, cells.drop_last()), layer_words(cells.last()))
    }
}

/// The hash after some edges.
pub open spec fn after_edges(
    hash: u64,
    edges: Map<HexEdge, EdgeLayers>,
    keys: Seq<HexEdge>,
) -> u64
    decreases keys.len(),
{
    if keys.len() == 0 {
        hash
    } else {
        hash_words(
            after_edges(hash, edges, keys.drop_last()),
            edge_words(keys.last(), edges[keys.last()]),
        )
    }
}

/// The hash after some starts.
pub open spec fn after_starts(hash: u64, starts: Seq<Axial>) -> u64
    decreases starts.len(),
{
    if starts.len() == 0 {
        hash
    } else {
        hash_words(after_starts(hash, starts.drop_last()), start_words(starts.last()))
    }
}

pub open spec fn header_words(world: LayeredWorld) -> Seq<u64> {
    seq![
        world.manifest.width as u64,
        world.manifest.height as u64,
        world.manifest.seed,
        world.manifest.player_count as u64,
    ]
}

/// The content hash of a world: its frame, every cell, every edge in order, and
/// the starts.
pub open spec fn world_hash(world: LayeredWorld) -> u64 {
    let header = hash_words(HASH_START, header_words(world));
    let cells = after_cells(header, world.layers());
    let edges = after_edges(cells, world.edges@, ordered_edges(world.edges@.dom()));
    after_starts(edges, world.manifest.spawn_cells@)
}

fn flag_word(b: bool) -> (n: u64)
    ensures
        n == flag(b),
{
    if b {
        1
    } else {
        0
    }
}

fn hash_cell(hash: u64, cell: &CellLayers) -> (after: u64)
    ensures
        after == hash_words(hash, layer_words(*cell)),
{
    let surface: u64 = match cell.surface {
        Surface::Land => 0,
        Surface::Ocean => 1,
        Surface::Lake => 2,
    };
    let landform: u64 = match cell.landform {
        Landform::Plain => 0,
        Landform::Hill => 1,
        Landform::Mountain => 2,
        Landform::Valley => 3,
        Landform::Plateau => 4,
    };
    let biome: u64 = match cell.biome {
        Biome::TemperateGrassland => 0,
        Biome::Forest => 1,
        Biome::Wetland => 2,
        Biome::Dryland => 3,
        Biome::Alpine => 4,
        Biome::Tundra => 5,
    };
    let body: u64 = match cell.water_body_id {
        Some(id) => id as u64,
        None => 0,
    };
    let ground: [u64; 8] = [
        (cell.elevation as u16) as u64,
        surface,
        landform,
        biome,
        cell.moisture as u64,
        cell.fertility as u64,
        body,
        cell.tags.0 as u64,
    ];
    assert(ground@ =~= ground_words(*cell));
    let first: u64 = hash_all(hash, ground.as_slice());
    let second: u64 = match cell.river {
        Some(river) => {
            let words: [u64; 5] = [
                1,
                river.outflow.index() as u64,
                river.inflow_mask as u64,
                river.order as u64,
                river.discharge as u64,
            ];
            assert(words@ =~= river_words(cell.river));
            hash_all(first, words.as_slice())
        },
        None => {
            let words: [u64; 1] = [0];
            assert(words@ =~= river_words(cell.river));
            hash_all(first, words.as_slice())
        },
    };
    let last: [u64; 6] = [
        flag_word(cell.gameplay.passable),
        flag_word(cell.gameplay.capturable),
        flag_word(cell.gameplay.habitable),
        cell.gameplay.movement_cost as u64,
        cell.gameplay.military_capacity as u64,
        cell.gameplay.civilian_capacity as u64,
    ];
    assert(last@ =~= use_words(*cell));
    proof {
        lemma_hash_concat(hash, ground_words(*cell), river_words(cell.river));
        lemma_hash_concat(
            hash,
            ground_words(*cell) + river_words(cell.river),
            use_words(*cell),
        );
    }
    hash_all(second, last.as_slice())
}

fn hash_edge(hash: u64, edge: HexEdge, layers: EdgeLayers) -> (after: u64)
    ensures
        after == hash_words(hash, edge_words(edge, layers)),
{
    let crossing: u64 = match layers.crossing {
        Crossing::Absent => 0,
        Crossing::Ford => 1,
        Crossing::Bridge => 2,
    };
    let words: [u64; 7] = [
        (edge.a.q as u32) as u64,
        (edge.a.r as u32) as u64,
        (edge.b.q as u32) as u64,
        (edge.b.r as u32) as u64,
        layers.road_level as u64,
        crossing,
        (layers.movement_modifier_bps as u16) as u64,
    ];
    assert(words@ =~= edge_words(edge, layers));
    hash_all(hash, words.as_slice())
}

/// The content hash of a world.
pub fn content_hash(world: &LayeredWorld) -> (hash: u64)
    ensures
        hash == world_hash(*world),
{
    let header: [u64; 4] = [
        world.manifest.width as u64,
        world.manifest.height as u64,
        world.manifest.seed,
        world.manifest.player_count as u64,
    ];
    assert(header@ =~= header_words(*world));
    let mut hash: u64 = hash_all(HASH_START, header.as_slice());
    let ghost start = hash;
    let mut i: usize = 0;
    assert(world.cells@.take(0) =~= Seq::<CellLayers>::empty());
    while i < world.cells.len()
        invariant
            i <= world.cells@.len(),
            hash == after_cells(start, world.cells@.take(i as int)),
        decreases world.cells.len() - i,
    {
        hash = hash_cell(hash, &world.cells[i]);
        assert(world.cells@.take(i + 1).drop_last() =~= world.cells@.take(i as int));
        i += 1;
    }
    assert(world.cells@.take(i as int) =~= world.cells@);
    let ghost middle = hash;
    let keys = world.edges.keys();
    i = 0;
    assert(keys@.take(0) =~= Seq::<HexEdge>::empty());
    while i < keys.len()
        invariant
            i <= keys@.len(),
            keys@.to_set() == world.edges@.dom(),
            hash == after_edges(middle, world.edges@, keys@.take(i as int)),
        decreases keys.len() - i,
    {
        assert(keys@.to_set().contains(keys@[i as int]));
        assert(keys@.take(i + 1).drop_last() =~= keys@.take(i as int));
        match world.edges.get(keys[i]) {
            Some(layers) => {
                hash = hash_edge(hash, keys[i], *layers);
            },
            None => {
                vstd::pervasive::unreached()
            },
        }
        i += 1;
    }
    assert(keys@.take(i as int) =~= keys@);
    let ghost last = hash;
    let ghost starts = world.manifest.spawn_cells@;
    i = 0;
    assert(starts.take(0) =~= Seq::<Axial>::empty());
    while i < world.manifest.spawn_cells.len()
        invariant
            starts == world.manifest.spawn_cells@,
            i <= starts.len(),
            hash == after_starts(last, starts.take(i as int)),
        decreases world.manifest.spawn_cells.len() - i,
    {
        let at = world.manifest.spawn_cells[i];
        let words: [u64; 2] = [(at.q as u32) as u64, (at.r as u32) as u64];
        assert(words@ =~= start_words(at));
        hash = hash_all(hash, words.as_slice());
        assert(starts.take(i + 1).drop_last() =~= starts.take(i as int));
        i += 1;
    }
    assert(starts.take(i as int) =~= starts);
    hash
}

} // verus!
