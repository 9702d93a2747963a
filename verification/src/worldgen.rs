//! Deterministic stepped-island maps for a number of players.
use vstd::prelude::*;
use crate::axials::{ascending, ordered};
use crate::coord::{axial_lt, hex_distance, Axial, HexEdge};
use crate::island::{build_island, first_of, in_bounds, island, short_side};
use crate::map::{Cell, EdgeLimits, ForceComposition, HexMap, TerrainKind};
use crate::noise::{hash_all, hash_words, HASH_START};
use crate::spawning::{
    footprint_radius, is_start, law_start_is_unique, seed_radius, spawn_cells,
    LEGACY_RING_PLAYER_LIMIT,
};
use crate::text::{append_signed, signed, text};

verus! {

pub const NEUTRAL_PLAYER: u32 = 0;

pub const PLAYER_ONE: u32 = 1;

pub const PLAYER_TWO: u32 = 2;

pub const DEFAULT_PLAYER_COUNT: u16 = 2;

pub const MIN_PLAYER_COUNT: u16 = 2;

pub const MAX_PLAYER_COUNT: u16 = 500;

pub const GENERATOR_VERSION: u16 = 1;

/// High-scale starts normalize their one spawn cell to the same capacity and
/// force. This permits well-spaced starts even on the dense 64x64/500-player
/// stress case while keeping every starting resource exactly equal.
pub const HIGH_SCALE_SEED_INFANTRY: u64 = 70;

pub const HIGH_SCALE_MILITARY_CAPACITY: u64 = 100;

#[derive(Clone, Copy, Debug, Eq, PartialEq, Structural)]
pub enum MapPreset {
    Dev,
    Playtest,
    Validation,
}

impl MapPreset {
    pub open spec fn size(self) -> (u16, u16) {
        match self {
            MapPreset::Dev => (64, 64),
            MapPreset::Playtest => (128, 128),
            MapPreset::Validation => (192, 192),
        }
    }

    pub open spec fn curated_seed(self) -> u64 {
        match self {
            MapPreset::Dev => 0x0000_0FD3_6401,
            MapPreset::Playtest => 0x0000_FA11_2802,
            MapPreset::Validation => 0x0000_FA11_9203,
        }
    }

    pub open spec fn title(self) -> Seq<char> {
        match self {
            MapPreset::Dev => "dev-stepped-island"@,
            MapPreset::Playtest => "playtest-stepped-island"@,
            MapPreset::Validation => "validation-stepped-island"@,
        }
    }

    pub fn dimensions(self) -> (size: (u16, u16))
        ensures
            size == self.size(),
    {
        match self {
            MapPreset::Dev => (64, 64),
            MapPreset::Playtest => (128, 128),
            MapPreset::Validation => (192, 192),
        }
    }

    pub fn seed(self) -> (seed: u64)
        ensures
            seed == self.curated_seed(),
    {
        match self {
            MapPreset::Dev => 0x0000_0FD3_6401,
            MapPreset::Playtest => 0x0000_FA11_2802,
            MapPreset::Validation => 0x0000_FA11_9203,
        }
    }

    pub fn name(self) -> (name: &'static str)
        ensures
            name@ == self.title(),
    {
        match self {
            MapPreset::Dev => "dev-stepped-island",
            MapPreset::Playtest => "playtest-stepped-island",
            MapPreset::Validation => "validation-stepped-island",
        }
    }
}

#[derive(Debug, Eq, PartialEq)]
pub struct MapManifest {
    pub name: String,
    pub generator_version: u16,
    pub width: u16,
    pub height: u16,
    pub q_min: i32,
    pub r_min: i32,
    pub seed: u64,
    pub content_hash: u64,
    pub capturable_land: u32,
    pub player_count: u16,
    pub spawn_cells: Vec<Axial>,
}

#[derive(Debug, Eq, PartialEq)]
pub struct GeneratedMap {
    pub manifest: MapManifest,
    pub cells: HexMap,
}

/// Whether two manifests say the same.
pub open spec fn same_manifest(a: MapManifest, b: MapManifest) -> bool {
    &&& a.name@ == b.name@
    &&& a.generator_version == b.generator_version
    &&& a.width == b.width
    &&& a.height == b.height
    &&& a.q_min == b.q_min
    &&& a.r_min == b.r_min
    &&& a.seed == b.seed
    &&& a.content_hash == b.content_hash
    &&& a.capturable_land == b.capturable_land
    &&& a.player_count == b.player_count
    &&& a.spawn_cells@ == b.spawn_cells@
}

impl Clone for MapManifest {
    fn clone(&self) -> (copy: MapManifest)
        ensures
            same_manifest(*self, copy),
    {
        let copy = MapManifest {
            name: self.name.clone(),
            generator_version: self.generator_version,
            width: self.width,
            height: self.height,
            q_min: self.q_min,
            r_min: self.r_min,
            seed: self.seed,
            content_hash: self.content_hash,
            capturable_land: self.capturable_land,
            player_count: self.player_count,
            spawn_cells: self.spawn_cells.clone(),
        };
        assert(self.spawn_cells@ =~= copy.spawn_cells@);
        copy
    }
}

impl Clone for GeneratedMap {
    fn clone(&self) -> (copy: GeneratedMap)
        ensures
            same_manifest(self.manifest, copy.manifest),
            copy.cells@ == self.cells@,
            copy.cells.overrides() == self.cells.overrides(),
    {
        GeneratedMap { manifest: self.manifest.clone(), cells: self.cells.clone() }
    }
}

/// Why a map cannot be generated.
#[derive(Clone, Copy, Debug, Eq, PartialEq, Structural)]
pub enum GenerationError {
    /// Maps must be at least 24 by 24.
    TooSmall,
    /// The player count must be between 2 and 500.
    UnsupportedPlayerCount,
    /// Maps with more than two players must be at least 32 by 32.
    TooSmallForPlayers,
    /// The island has no room for the starts of all players.
    NoRoomForStarts,
}

/// A cell that a player owns from the beginning.
pub open spec fn settled(cell: Cell, owner: u32, is_center: bool) -> Cell {
    Cell {
        owner: Some(owner),
        civilian_capacity: if is_center {
            240
        } else {
            140
        },
        civilian_population: if is_center {
            180
        } else {
            80
        },
        forces: ForceComposition {
            infantry: if is_center {
                70
            } else {
                35
            },
        },
        ..cell
    }
}

/// A one-cell start.
pub open spec fn outpost(cell: Cell, owner: u32) -> Cell {
    Cell {
        owner: Some(owner),
        military_capacity: HIGH_SCALE_MILITARY_CAPACITY,
        civilian_capacity: 240,
        civilian_population: 180,
        forces: ForceComposition { infantry: HIGH_SCALE_SEED_INFANTRY },
        ..cell
    }
}

/// The start whose footprint a coordinate belongs to: the nearest one in reach,
/// of equally near ones the first.
pub open spec fn is_claimant(spawns: Seq<Axial>, radius: int, c: Axial, i: int) -> bool {
    &&& 0 <= i < spawns.len()
    &&& hex_distance(c, spawns[i]) <= radius
    &&& forall|j: int|
        0 <= j < spawns.len() ==> hex_distance(c, #[trigger] spawns[j]) >= hex_distance(
            c,
            spawns[i],
        )
    &&& forall|j: int|
        0 <= j < i ==> hex_distance(c, #[trigger] spawns[j]) > hex_distance(c, spawns[i])
}

/// A cell once the players have settled.
pub open spec fn seeded_cell(spawns: Seq<Axial>, short: u16, c: Axial, cell: Cell) -> Cell {
    if !cell.capturable {
        cell
    } else if spawns.len() > LEGACY_RING_PLAYER_LIMIT {
        if spawns.contains(c) {
            outpost(cell, (last_index(spawns, c) + 1) as u32)
        } else {
            cell
        }
    } else if exists|i: int| is_claimant(spawns, footprint_radius(short), c, i) {
        let i = choose|i: int| is_claimant(spawns, footprint_radius(short), c, i);
        settled(cell, (i + 1) as u32, c == spawns[i])
    } else {
        cell
    }
}

/// The last place of a coordinate in a list.
pub open spec fn last_index(s: Seq<Axial>, c: Axial) -> int
    decreases s.len(),
{
    if s.len() == 0 {
        -1
    } else if s.last() == c {
        s.len() - 1
    } else {
        last_index(s.drop_last(), c)
    }
}

/// A map once the players have settled.
pub open spec fn seeded(cells: Map<Axial, Cell>, spawns: Seq<Axial>, short: u16) -> Map<Axial, Cell> {
    Map::new(
        |c: Axial| cells.contains_key(c),
        |c: Axial| seeded_cell(spawns, short, c, cells[c]),
    )
}

/// The number of a terrain in content hashes.
pub open spec fn terrain_code(terrain: TerrainKind) -> u64 {
    match terrain {
        TerrainKind::Plains => 0,
        TerrainKind::Hills => 1,
        TerrainKind::Mountain => 2,
        TerrainKind::Water => 3,
    }
}

pub open spec fn flag(b: bool) -> u64 {
    if b {
        1
    } else {
        0
    }
}

/// What a cell contributes to a content hash.
pub open spec fn cell_words(cell: Cell) -> Seq<u64> {
    seq![
        (cell.coordinate.q as u32) as u64,
        (cell.coordinate.r as u32) as u64,
        (cell.elevation as u16) as u64,
        terrain_code(cell.terrain),
        flag(cell.capturable),
        flag(cell.habitable),
        (match cell.owner {
            Some(owner) => owner as u64,
            None => 0,
        }),
        cell.civilian_population,
        cell.civilian_capacity,
        cell.forces.infantry,
        cell.military_capacity,
    ]
}

/// The content hash after some cells.
pub open spec fn hash_after(hash: u64, cells: Map<Axial, Cell>, keys: Seq<Axial>) -> u64
    decreases keys.len(),
{
    if keys.len() == 0 {
        hash
    } else {
        hash_words(hash_after(hash, cells, keys.drop_last()), cell_words(cells[keys.last()]))
    }
}

/// The content hash of a map: its size, its seed and every cell in order.
pub open spec fn hash_of(cells: Map<Axial, Cell>, width: u16, height: u16, seed: u64) -> u64 {
    hash_after(
        hash_words(HASH_START, seq![width as u64, height as u64, seed]),
        cells,
        ordered(cells.dom()),
    )
}

/// How many of some cells satisfy a predicate.
pub open spec fn count_where(
    cells: Map<Axial, Cell>,
    keys: Seq<Axial>,
    holds: spec_fn(Cell) -> bool,
) -> nat
    decreases keys.len(),
{
    if keys.len() == 0 {
        0
    } else {
        count_where(cells, keys.drop_last(), holds) + (if holds(cells[keys.last()]) {
            1nat
        } else {
            0nat
        })
    }
}

pub open spec fn is_capturable() -> spec_fn(Cell) -> bool {
    |cell: Cell| cell.capturable
}

/// The map that a generator call yields: its cells, its edges, which have no
/// limits of their own, and its manifest but for the name.
pub open spec fn is_generated(
    g: GeneratedMap,
    width: u16,
    height: u16,
    seed: u64,
    players: u16,
) -> bool {
    let m = g.manifest;
    let cells = seeded(island(width, height, seed), m.spawn_cells@, short_side(width, height));
    &&& is_start(island(width, height, seed), width, height, players, m.spawn_cells@)
    &&& g.cells@ == cells
    &&& g.cells.overrides() == Map::<HexEdge, EdgeLimits>::empty()
    &&& m.generator_version == GENERATOR_VERSION
    &&& m.width == width
    &&& m.height == height
    &&& m.q_min == first_of(width)
    &&& m.r_min == first_of(height)
    &&& m.seed == seed
    &&& m.content_hash == hash_of(cells, width, height, seed)
    &&& m.capturable_land == count_where(cells, ordered(cells.dom()), is_capturable())
    &&& m.player_count == players
}

/// Why a map cannot be generated, from its size and player count alone.
pub open spec fn refusal(width: u16, height: u16, players: u16) -> Option<GenerationError> {
    if width < 24 || height < 24 {
        Some(GenerationError::TooSmall)
    } else if players < MIN_PLAYER_COUNT || players > MAX_PLAYER_COUNT {
        Some(GenerationError::UnsupportedPlayerCount)
    } else if players != DEFAULT_PLAYER_COUNT && (width < 32 || height < 32) {
        Some(GenerationError::TooSmallForPlayers)
    } else {
        None
    }
}

/// Whether an island has room for the starts of all players.
pub open spec fn has_room_for(width: u16, height: u16, seed: u64, players: u16) -> bool {
    exists|s: Seq<Axial>| #[trigger]
        is_start(island(width, height, seed), width, height, players, s)
}

/// Two maps that were generated for the same size, seed and player count have the
/// same cells, the same edges and the same manifest, but for the name.
pub proof fn law_generation_is_deterministic(
    a: GeneratedMap,
    b: GeneratedMap,
    width: u16,
    height: u16,
    seed: u64,
    players: u16,
)
    requires
        is_generated(a, width, height, seed, players),
        is_generated(b, width, height, seed, players),
    ensures
        a.cells@ == b.cells@,
        a.cells.overrides() == b.cells.overrides(),
        a.manifest.generator_version == b.manifest.generator_version,
        a.manifest.width == b.manifest.width,
        a.manifest.height == b.manifest.height,
        a.manifest.q_min == b.manifest.q_min,
        a.manifest.r_min == b.manifest.r_min,
        a.manifest.seed == b.manifest.seed,
        a.manifest.spawn_cells@ == b.manifest.spawn_cells@,
        a.manifest.content_hash == b.manifest.content_hash,
        a.manifest.capturable_land == b.manifest.capturable_land,
        a.manifest.player_count == b.manifest.player_count,
{
    law_start_is_unique(
        island(width, height, seed),
        width,
        height,
        players,
        a.manifest.spawn_cells@,
        b.manifest.spawn_cells@,
    );
}

/// A coordinate has one claimant.
pub proof fn lemma_claimant_is_unique(spawns: Seq<Axial>, radius: int, c: Axial, i: int, j: int)
    requires
        is_claimant(spawns, radius, c, i),
        is_claimant(spawns, radius, c, j),
    ensures
        i == j,
{
    if i < j {
        assert(hex_distance(c, spawns[i]) > hex_distance(c, spawns[j]));
    }
    if j < i {
        assert(hex_distance(c, spawns[j]) > hex_distance(c, spawns[i]));
    }
}

/// Only equal coordinates lie at no distance.
pub proof fn lemma_same_place(a: Axial, b: Axial)
    ensures
        hex_distance(a, b) == 0 <==> a == b,
        hex_distance(a, b) >= 0,
{
}

/// The start whose footprint a coordinate belongs to.
fn claimant(spawns: &Vec<Axial>, radius: u64, c: Axial) -> (found: Option<(usize, bool)>)
    ensures
        match found {
            Some((i, center)) => is_claimant(spawns@, radius as int, c, i as int) && center == (c
                == spawns@[i as int]),
            None => forall|i: int| !is_claimant(spawns@, radius as int, c, i),
        },
{
    let mut best: Option<(usize, u64)> = None;
    let mut i: usize = 0;
    while i < spawns.len()
        invariant
            i <= spawns@.len(),
            match best {
                Some((b, d)) => {
                    &&& b < i
                    &&& d == hex_distance(c, spawns@[b as int])
                    &&& d <= radius
                    &&& forall|j: int|
                        0 <= j < i ==> hex_distance(c, #[trigger] spawns@[j]) >= d
                    &&& forall|j: int| 0 <= j < b ==> hex_distance(c, #[trigger] spawns@[j]) > d
                },
                None => forall|j: int|
                    0 <= j < i ==> hex_distance(c, #[trigger] spawns@[j]) > radius,
            },
        decreases spawns.len() - i,
    {
        let distance: u64 = c.distance(spawns[i]);
        let better = match best {
            Some((_, d)) => distance < d,
            None => distance <= radius,
        };
        if better {
            best = Some((i, distance));
        }
        i += 1;
    }
    match best {
        Some((b, d)) => {
            proof {
                lemma_same_place(c, spawns@[b as int]);
            }
            Some((b, d == 0))
        },
        None => None,
    }
}

/// Settles the players.
fn seed_players(map: &mut HexMap, spawns: &Vec<Axial>, short: u16)
    requires
        spawns@.len() <= MAX_PLAYER_COUNT,
        forall|c: Axial| #[trigger] old(map)@.contains_key(c) ==> old(map)@[c].coordinate == c,
    ensures
        final(map)@ == seeded(old(map)@, spawns@, short),
        final(map).overrides() == old(map).overrides(),
{
    let ghost before = map@;
    let keys = map.coordinates();
    if spawns.len() > LEGACY_RING_PLAYER_LIMIT as usize {
        let mut i: usize = 0;
        assert(spawns@.take(0) =~= Seq::<Axial>::empty());
        while i < spawns.len()
            invariant
                i <= spawns@.len() <= MAX_PLAYER_COUNT,
                map@.dom() == before.dom(),
                map.overrides() == old(map).overrides(),
                forall|c: Axial| #[trigger] before.contains_key(c) ==> before[c].coordinate == c,
                forall|c: Axial| #[trigger]
                    before.contains_key(c) ==> map@[c] == (if before[c].capturable
                        && spawns@.take(i as int).contains(c) {
                        outpost(before[c], (last_index(spawns@.take(i as int), c) + 1) as u32)
                    } else {
                        before[c]
                    }),
            decreases spawns.len() - i,
        {
            let c = spawns[i];
            let ghost mid = map@;
            let cell: Option<Cell> = match map.get(c) {
                Some(cell) => Some(*cell),
                None => None,
            };
            match cell {
                Some(cell) => {
                    if cell.capturable {
                        map.insert(
                            Cell {
                                owner: Some(i as u32 + 1),
                                military_capacity: HIGH_SCALE_MILITARY_CAPACITY,
                                civilian_capacity: 240,
                                civilian_population: 180,
                                forces: ForceComposition::infantry(HIGH_SCALE_SEED_INFANTRY),
                                ..cell
                            },
                        );
                    }
                },
                None => {},
            }
            proof {
                let s = spawns@.take(i as int);
                let t = spawns@.take(i + 1);
                assert(t =~= s.push(c));
                assert(t.drop_last() =~= s);
                assert(map@.dom() =~= before.dom());
                assert forall|x: Axial| #[trigger] before.contains_key(x) implies map@[x] == (
                if before[x].capturable && t.contains(x) {
                    outpost(before[x], (last_index(t, x) + 1) as u32)
                } else {
                    before[x]
                }) by {
                    crate::axials::lemma_contains_push(s, c, x);
                    if x == c {
                        assert(mid[c].coordinate == c);
                    }
                }
            }
            i += 1;
        }
        proof {
            assert(spawns@.take(i as int) =~= spawns@);
            assert(map@ =~= seeded(before, spawns@, short));
        }
        return ;
    }
    let radius: u64 = seed_radius(short);
    let mut k: usize = 0;
    while k < keys.len()
        invariant
            k <= keys@.len(),
            ascending(keys@),
            keys@.to_set() == before.dom(),
            spawns@.len() <= LEGACY_RING_PLAYER_LIMIT,
            radius == footprint_radius(short),
            map@.dom() == before.dom(),
            map.overrides() == old(map).overrides(),
            forall|c: Axial| #[trigger] before.contains_key(c) ==> before[c].coordinate == c,
            forall|j: int|
                0 <= j < k ==> map@[#[trigger] keys@[j]] == seeded_cell(
                    spawns@,
                    short,
                    keys@[j],
                    before[keys@[j]],
                ),
            forall|j: int| k <= j < keys@.len() ==> map@[#[trigger] keys@[j]] == before[keys@[j]],
        decreases keys.len() - k,
    {
        let c = keys[k];
        assert(keys@.to_set().contains(c));
        assert(before.contains_key(c));
        let ghost mid = map@;
        let cell: Cell = match map.get(c) {
            Some(cell) => *cell,
            None => {
                return ;
            },
        };
        if cell.capturable {
            match claimant(spawns, radius, c) {
                Some((i, center)) => {
                    proof {
                        let j = choose|j: int| is_claimant(spawns@, footprint_radius(short), c, j);
                        lemma_claimant_is_unique(spawns@, radius as int, c, i as int, j);
                    }
                    map.insert(
                        Cell {
                            owner: Some(i as u32 + 1),
                            civilian_capacity: if center {
                                240
                            } else {
                                140
                            },
                            civilian_population: if center {
                                180
                            } else {
                                80
                            },
                            forces: ForceComposition::infantry(
                                if center {
                                    70
                                } else {
                                    35
                                },
                            ),
                            ..cell
                        },
                    );
                },
                None => {},
            }
        }
        proof {
            assert(map@.dom() =~= before.dom());
            assert(map@[c] == seeded_cell(spawns@, short, c, before[c]));
            assert forall|j: int| 0 <= j < k + 1 implies map@[#[trigger] keys@[j]] == seeded_cell(
                spawns@,
                short,
                keys@[j],
                before[keys@[j]],
            ) by {
                if j < k {
                    assert(axial_lt(keys@[j], keys@[k as int]));
                    assert(mid[keys@[j]] == map@[keys@[j]]);
                }
            }
            assert forall|j: int| k + 1 <= j < keys@.len() implies map@[#[trigger] keys@[j]]
                == before[keys@[j]] by {
                assert(axial_lt(keys@[k as int], keys@[j]));
                assert(mid[keys@[j]] == map@[keys@[j]]);
            }
        }
        k += 1;
    }
    proof {
        assert forall|c: Axial| before.contains_key(c) implies map@[c] == seeded(
            before,
            spawns@,
            short,
        )[c] by {
            assert(keys@.to_set().contains(c));
            let j = choose|j: int| 0 <= j < keys@.len() && keys@[j] == c;
            assert(map@[keys@[j]] == seeded_cell(spawns@, short, keys@[j], before[keys@[j]]));
        }
        assert(map@ =~= seeded(before, spawns@, short));
    }
}

fn flag_of(b: bool) -> (n: u64)
    ensures
        n == flag(b),
{
    if b {
        1
    } else {
        0
    }
}

/// The content hash of a map.
pub fn content_hash(map: &HexMap, width: u16, height: u16, seed: u64) -> (hash: u64)
    ensures
        hash == hash_of(map@, width, height, seed),
{
    let header: [u64; 3] = [width as u64, height as u64, seed];
    let mut hash: u64 = hash_all(HASH_START, header.as_slice());
    let ghost start = hash;
    let ghost keys = ordered(map@.dom());
    assert(header@ =~= seq![width as u64, height as u64, seed]);
    let cells = map.cells();
    let mut i: usize = 0;
    assert(keys.take(0) =~= Seq::<Axial>::empty());
    while i < cells.len()
        invariant
            i <= cells@.len(),
            cells@.len() == keys.len(),
            keys == ordered(map@.dom()),
            forall|k: int| 0 <= k < cells@.len() ==> *(#[trigger] cells@[k]) == map@[keys[k]],
            hash == hash_after(start, map@, keys.take(i as int)),
        decreases cells.len() - i,
    {
        let cell = cells[i];
        assert(*cell == map@[keys[i as int]]);
        let terrain: u64 = match cell.terrain {
            TerrainKind::Plains => 0,
            TerrainKind::Hills => 1,
            TerrainKind::Mountain => 2,
            TerrainKind::Water => 3,
        };
        let owner: u64 = match cell.owner {
            Some(owner) => owner as u64,
            None => 0,
        };
        let words: [u64; 11] = [
            (cell.coordinate.q as u32) as u64,
            (cell.coordinate.r as u32) as u64,
            (cell.elevation as u16) as u64,
            terrain,
            flag_of(cell.capturable),
            flag_of(cell.habitable),
            owner,
            cell.civilian_population,
            cell.civilian_capacity,
            cell.force(),
            cell.military_capacity,
        ];
        assert(words@ =~= cell_words(*cell));
        hash = hash_all(hash, words.as_slice());
        proof {
            assert(keys.take(i + 1).drop_last() =~= keys.take(i as int));
            assert(keys.take(i + 1).last() == keys[i as int]);
        }
        i += 1;
    }
    assert(keys.take(i as int) =~= keys);
    hash
}

/// How many cells can be captured.
pub fn count_capturable(map: &HexMap) -> (n: usize)
    ensures
        n == count_where(map@, ordered(map@.dom()), is_capturable()),
        n <= ordered(map@.dom()).len(),
{
    let ghost keys = ordered(map@.dom());
    let cells = map.cells();
    let mut n: usize = 0;
    let mut i: usize = 0;
    assert(keys.take(0) =~= Seq::<Axial>::empty());
    while i < cells.len()
        invariant
            i <= cells@.len(),
            cells@.len() == keys.len(),
            keys == ordered(map@.dom()),
            forall|k: int| 0 <= k < cells@.len() ==> *(#[trigger] cells@[k]) == map@[keys[k]],
            n == count_where(map@, keys.take(i as int), is_capturable()),
            n <= i,
        decreases cells.len() - i,
    {
        assert(*cells@[i as int] == map@[keys[i as int]]);
        assert(keys.take(i + 1).drop_last() =~= keys.take(i as int));
        assert(keys.take(i + 1).last() == keys[i as int]);
        if cells[i].capturable {
            n += 1;
        }
        i += 1;
    }
    assert(keys.take(i as int) =~= keys);
    n
}

/// The coordinates of a map's rectangle.
pub open spec fn rectangle(width: u16, height: u16) -> Set<Axial> {
    Set::new(|c: Axial| in_bounds(width, height, c))
}

/// A rectangle has as many coordinates as its width times its height.
pub proof fn lemma_rectangle(width: u16, height: u16)
    requires
        width > 0,
        height > 0,
    ensures
        rectangle(width, height).finite(),
        rectangle(width, height).len() == width * height,
        width * height <= 65_535 * 65_535,
{
    let w = width as int;
    let n = (width * height) as nat;
    assert(width * height <= 65_535 * 65_535) by (nonlinear_arith)
        requires
            0 <= width <= 65_535,
            0 <= height <= 65_535,
    ;
    let s = Seq::new(
        n,
        |k: int|
            Axial { q: (first_of(width) + k % w) as i32, r: (first_of(height) + k / w) as i32 },
    );
    assert forall|k: int| 0 <= k < n implies 0 <= #[trigger] (k % w) < w && 0 <= k / w < height
        && k == (k / w) * w + k % w by {
        vstd::arithmetic::div_mod::lemma_fundamental_div_mod(k, w);
        vstd::arithmetic::div_mod::lemma_mod_bound(k, w);
        vstd::arithmetic::div_mod::lemma_div_pos_is_pos(k, w);
        let a = k / w;
        assert(w * a == a * w) by (nonlinear_arith);
        assert(a < height) by (nonlinear_arith)
            requires
                a * w <= k,
                k < w * height,
                w > 0,
        ;
    }
    assert forall|i: int, j: int| 0 <= i < s.len() && 0 <= j < s.len() && i != j implies s[i]
        != s[j] by {
        assert(0 <= i % w < w && 0 <= j % w < w);
        assert(i == (i / w) * w + i % w);
        assert(j == (j / w) * w + j % w);
        if s[i] == s[j] {
            assert(i % w == j % w);
            assert(i / w == j / w);
        }
    }
    s.unique_seq_to_set();
    vstd::seq_lib::seq_to_set_is_finite(s);
    assert forall|c: Axial| s.to_set().contains(c) <==> rectangle(width, height).contains(c) by {
        if s.contains(c) {
            let k = choose|k: int| 0 <= k < s.len() && s[k] == c;
            assert(0 <= k % w < w);
        }
        if in_bounds(width, height, c) {
            let x = c.q - first_of(width);
            let y = c.r - first_of(height);
            let k = y * w + x;
            assert(0 <= k < n) by (nonlinear_arith)
                requires
                    k == y * w + x,
                    0 <= x < w,
                    0 <= y < height,
                    n == w * height,
            ;
            vstd::arithmetic::div_mod::lemma_fundamental_div_mod_converse(k, w, y, x);
            assert(s[k] == c);
        }
    }
    assert(s.to_set() =~= rectangle(width, height));
}

/// Generates a deterministic rectangular map for contiguous player IDs
/// `1..=player_count`; owner zero remains neutral. Says why where it cannot.
pub fn try_generate_for_players(
    name: &str,
    width: u16,
    height: u16,
    seed: u64,
    player_count: u16,
) -> (result: Result<GeneratedMap, GenerationError>)
    ensures
        player_count == DEFAULT_PLAYER_COUNT && width >= 24 && height >= 24 ==> result is Ok,
        match result {
            Ok(g) => {
                &&& refusal(width, height, player_count) is None
                &&& is_generated(g, width, height, seed, player_count)
                &&& g.manifest.name@ == name@
            },
            Err(e) => refusal(width, height, player_count) == Some(e) || (refusal(
                width,
                height,
                player_count,
            ) is None && e == GenerationError::NoRoomForStarts && !has_room_for(
                width,
                height,
                seed,
                player_count,
            )),
        },
{
    if width < 24 || height < 24 {
        return Err(GenerationError::TooSmall);
    }
    if player_count < MIN_PLAYER_COUNT || player_count > MAX_PLAYER_COUNT {
        return Err(GenerationError::UnsupportedPlayerCount);
    }
    if player_count != DEFAULT_PLAYER_COUNT && (width < 32 || height < 32) {
        return Err(GenerationError::TooSmallForPlayers);
    }
    let short: u16 = if width <= height {
        width
    } else {
        height
    };
    let mut cells = build_island(width, height, seed);
    assert(cells.overrides() =~= Map::<HexEdge, EdgeLimits>::empty());
    let spawns = match spawn_cells(&cells, width, height, player_count) {
        Some(spawns) => spawns,
        None => {
            return Err(GenerationError::NoRoomForStarts);
        },
    };
    seed_players(&mut cells, &spawns, short);
    let capturable: usize = count_capturable(&cells);
    proof {
        lemma_rectangle(width, height);
        assert(cells@.dom() =~= rectangle(width, height));
        cells.lemma_finite();
        crate::axials::lemma_ascending_no_duplicates(ordered(cells@.dom()));
    }
    let hash: u64 = content_hash(&cells, width, height, seed);
    Ok(
        GeneratedMap {
            manifest: MapManifest {
                name: text(name),
                generator_version: GENERATOR_VERSION,
                width,
                height,
                q_min: -((width / 2) as i32),
                r_min: -((height / 2) as i32),
                seed,
                content_hash: hash,
                capturable_land: capturable as u32,
                player_count,
                spawn_cells: spawns,
            },
            cells,
        },
    )
}

/// Generates a deterministic rectangular map for contiguous player IDs
/// `1..=player_count`; owner zero remains neutral.
///
/// Counts `2..=8` keep the multi-cell ring footprints. Counts above
/// eight use deterministic farthest-point sampling with equal one-cell starts.
pub fn generate_for_players(
    name: &str,
    width: u16,
    height: u16,
    seed: u64,
    player_count: u16,
) -> (g: GeneratedMap)
    requires
        refusal(width, height, player_count) is None,
        has_room_for(width, height, seed, player_count),
    ensures
        is_generated(g, width, height, seed, player_count),
        g.manifest.name@ == name@,
{
    match try_generate_for_players(name, width, height, seed, player_count) {
        Ok(g) => g,
        Err(_) => vstd::pervasive::unreached(),
    }
}

/// Generates a deterministic rectangular map containing one stepped island, for
/// two players.
pub fn generate(name: &str, width: u16, height: u16, seed: u64) -> (g: GeneratedMap)
    requires
        width >= 24,
        height >= 24,
    ensures
        is_generated(g, width, height, seed, DEFAULT_PLAYER_COUNT),
        g.manifest.name@ == name@,
{
    match try_generate_for_players(name, width, height, seed, DEFAULT_PLAYER_COUNT) {
        Ok(g) => g,
        Err(_) => vstd::pervasive::unreached(),
    }
}

/// Generates a curated preset for two players.
pub fn generate_preset(preset: MapPreset) -> (g: GeneratedMap)
    ensures
        is_generated(
            g,
            preset.size().0,
            preset.size().1,
            preset.curated_seed(),
            DEFAULT_PLAYER_COUNT,
        ),
        g.manifest.name@ == preset.title(),
{
    let (width, height) = preset.dimensions();
    generate(preset.name(), width, height, preset.seed())
}

/// Generates a curated preset for a supported number of players.
pub fn generate_preset_for_players(preset: MapPreset, player_count: u16) -> (g: GeneratedMap)
    requires
        MIN_PLAYER_COUNT <= player_count <= MAX_PLAYER_COUNT,
        has_room_for(preset.size().0, preset.size().1, preset.curated_seed(), player_count),
    ensures
        is_generated(
            g,
            preset.size().0,
            preset.size().1,
            preset.curated_seed(),
            player_count,
        ),
        g.manifest.name@ == preset.title(),
{
    let (width, height) = preset.dimensions();
    generate_for_players(preset.name(), width, height, preset.seed(), player_count)
}

/// The message for a coordinate that comes up twice.
pub open spec fn duplicate_text(c: Axial) -> Seq<char> {
    "duplicate map cell at ("@ + signed(c.q as int) + ", "@ + signed(c.r as int) + ")"@
}

/// The first cell of a list whose coordinate has come up before.
pub open spec fn is_first_duplicate(cells: Seq<Cell>, i: int) -> bool {
    &&& 0 <= i < cells.len()
    &&& exists|j: int| 0 <= j < i && (#[trigger] cells[j]).coordinate == cells[i].coordinate
    &&& distinct_before(cells, i)
}

/// Whether the first cells of a list have different coordinates.
pub open spec fn distinct_before(cells: Seq<Cell>, n: int) -> bool {
    forall|j: int, k: int|
        0 <= j < k < n ==> (#[trigger] cells[j]).coordinate != (#[trigger] cells[k]).coordinate
}

/// Whether an array lists the cells of a map in ascending order of their
/// coordinates.
pub open spec fn is_cell_array(cells: Map<Axial, Cell>, array: Seq<Cell>) -> bool {
    let keys = ordered(cells.dom());
    &&& array.len() == keys.len()
    &&& forall|i: int| 0 <= i < array.len() ==> #[trigger] array[i] == cells[keys[i]]
}

/// Whether a map was taken over from an array of cells.
pub open spec fn is_of_array(map: HexMap, array: Seq<Cell>) -> bool {
    &&& map.overrides() == Map::<HexEdge, EdgeLimits>::empty()
    &&& distinct_before(array, array.len() as int)
    &&& map@.dom() == array.map_values(|c: Cell| c.coordinate).to_set()
    &&& forall|i: int|
        0 <= i < array.len() ==> map@[(#[trigger] array[i]).coordinate] == array[i]
}

/// An array of the cells of a map that files them under their coordinates is
/// taken over without complaint, and gives the same cells.
pub proof fn law_cell_arrays_round_trip(map: HexMap, array: Seq<Cell>, back: HexMap, i: int)
    requires
        forall|c: Axial| #[trigger] map@.contains_key(c) ==> map@[c].coordinate == c,
        is_cell_array(map@, array),
    ensures
        !is_first_duplicate(array, i),
        is_of_array(back, array) ==> back@ == map@,
{
    map.lemma_finite();
    let keys = ordered(map@.dom());
    assert forall|k: int| 0 <= k < array.len() implies (#[trigger] array[k]).coordinate
        == keys[k] by {
        assert(keys.to_set().contains(keys[k]));
    }
    if is_first_duplicate(array, i) {
        let j = choose|j: int|
            0 <= j < i && (#[trigger] array[j]).coordinate == array[i].coordinate;
        assert(axial_lt(keys[j], keys[i]));
    }
    if is_of_array(back, array) {
        let listed = array.map_values(|c: Cell| c.coordinate);
        assert(listed =~= keys);
        assert forall|c: Axial| map@.contains_key(c) implies back@[c] == map@[c] by {
            assert(keys.to_set().contains(c));
            let k = choose|k: int| 0 <= k < keys.len() && keys[k] == c;
            assert(array[k].coordinate == c);
        }
        assert(back@ =~= map@);
    }
}

impl GeneratedMap {
    /// The cells as a stable array, in ascending order of their coordinates.
    pub fn cell_array(&self) -> (cells: Vec<Cell>)
        ensures
            is_cell_array(self.cells@, cells@),
    {
        let listed = self.cells.cells();
        let mut cells: Vec<Cell> = Vec::new();
        let mut i: usize = 0;
        while i < listed.len()
            invariant
                i <= listed@.len(),
                cells@.len() == i,
                forall|k: int| 0 <= k < i ==> #[trigger] cells@[k] == *listed@[k],
            decreases listed.len() - i,
        {
            cells.push(*listed[i]);
            i += 1;
        }
        cells
    }

    /// Takes a map over from an array of its cells; no coordinate may come up
    /// twice.
    pub fn from_cell_array(manifest: MapManifest, array: Vec<Cell>) -> (map: Result<
        GeneratedMap,
        String,
    >)
        ensures
            match map {
                Ok(g) => {
                    &&& g.manifest == manifest
                    &&& is_of_array(g.cells, array@)
                },
                Err(message) => exists|i: int|
                    is_first_duplicate(array@, i) && #[trigger] duplicate_text(array@[i].coordinate)
                        == message@,
            },
    {
        let mut cells = HexMap::new();
        let ghost f = |c: Cell| c.coordinate;
        let mut i: usize = 0;
        assert(array@.take(0).map_values(f).to_set() =~= Set::<Axial>::empty());
        while i < array.len()
            invariant
                i <= array@.len(),
                f == (|c: Cell| c.coordinate),
                cells.overrides() == Map::<HexEdge, EdgeLimits>::empty(),
                distinct_before(array@, i as int),
                cells@.dom() == array@.take(i as int).map_values(f).to_set(),
                forall|k: int|
                    0 <= k < i ==> cells@[(#[trigger] array@[k]).coordinate] == array@[k],
            decreases array.len() - i,
        {
            let cell = array[i];
            let ghost seen = array@.take(i as int).map_values(f);
            let ghost before = cells@;
            if cells.insert(cell).is_some() {
                let mut message = text("duplicate map cell at (");
                append_signed(&mut message, cell.coordinate.q as i64);
                message.append(", ");
                append_signed(&mut message, cell.coordinate.r as i64);
                message.append(")");
                proof {
                    assert(seen.to_set().contains(cell.coordinate));
                    let j = choose|j: int| 0 <= j < seen.len() && seen[j] == cell.coordinate;
                    assert(array@[j].coordinate == cell.coordinate);
                    assert(is_first_duplicate(array@, i as int));
                    assert(message@ =~= duplicate_text(array@[i as int].coordinate));
                }
                return Err(message);
            }
            proof {
                assert(array@.take(i + 1).map_values(f) =~= seen.push(cell.coordinate));
                crate::axials::lemma_to_set_push(seen, cell.coordinate);
                assert forall|j: int| 0 <= j < i implies (#[trigger] array@[j]).coordinate
                    != cell.coordinate by {
                    assert(seen[j] == array@[j].coordinate);
                    assert(seen.to_set().contains(seen[j]));
                }
                assert(distinct_before(array@, i + 1));
                assert(cells@.dom() =~= before.dom().insert(cell.coordinate));
            }
            i += 1;
        }
        assert(array@.take(i as int) =~= array@);
        Ok(GeneratedMap { manifest, cells })
    }
}

} // verus!
