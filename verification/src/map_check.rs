//! What a generated map must satisfy to be played on.
use vstd::prelude::*;
use vstd::string::*;
use crate::axials::{ascending, ordered, AxialSet};
use crate::connectivity::{
    connected_components, contents, eligible, is_component_list, law_component_list_is_unique,
};
use crate::coord::{abs, axial_lt, hex_distance, Axial};
use crate::island::{first_of, in_bounds, short_side, standard_movement};
use crate::map::{Cell, HexMap, MovementConfig, TerrainKind};
use crate::spawning::{
    capturable_in, footprint_radius, forms_one_part, full_seed_footprint, has_footprint,
    is_moderate, is_one_part, minimum_spawn_spacing, required_spacing, seed_radius,
    LEGACY_RING_PLAYER_LIMIT,
};
use crate::text::{
    append_decimal, append_hexadecimal, append_signed, decimal, hexadecimal, signed, text,
};
use crate::worldgen::{
    content_hash, count_where, hash_of, is_capturable, is_generated, lemma_rectangle,
    rectangle, GeneratedMap, MapManifest, GENERATOR_VERSION, HIGH_SCALE_SEED_INFANTRY,
    MAX_PLAYER_COUNT, MIN_PLAYER_COUNT, NEUTRAL_PLAYER,
};

verus! {

#[derive(Clone, Debug, Eq, PartialEq)]
pub struct ValidationReport {
    pub total_cells: usize,
    pub ground_cells: usize,
    pub capturable_cells: usize,
    pub cliffs: usize,
    pub slopes: usize,
}

/// What is wrong with a map. Players are numbered from one.
#[derive(Clone, Copy, Debug, Eq, PartialEq, Structural)]
pub enum MapFault {
    UnsupportedVersion { version: u16 },
    BelowMinimumSize,
    BoundsDoNotMatch,
    CellCountDoesNotMatch,
    MissingCell { at: Axial },
    HashMismatch { manifest: u64, computed: u64 },
    CapturableImpassable { at: Axial },
    OverMilitaryCapacity { at: Axial },
    OverCivilianCapacity { at: Axial },
    UnsupportedOwner { at: Axial },
    CapturableDoesNotMatch,
    NothingCapturable,
    DisconnectedLand { parts: usize },
    UnsupportedPlayerCount,
    SpawnCountDoesNotMatch,
    SpawnsNotDistinct,
    SpawnMissing { player: usize },
    SpawnNotOwned { player: usize },
    SpawnsTooClose,
    FootprintSize { player: usize, cells: usize, expected: u64 },
    NotExactlyItsSpawn { player: usize },
    FootprintIncomplete { player: usize },
    FootprintDisconnected { player: usize },
    UnequalTotals { high_scale: bool },
    CapacityBelowForce { player: usize, capacity: u64 },
    NoSlopesOrCliffs,
}

pub open spec fn point_text(c: Axial) -> Seq<char> {
    "("@ + signed(c.q as int) + ", "@ + signed(c.r as int) + ")"@
}

/// The message for a fault.
pub open spec fn fault_text(f: MapFault) -> Seq<char> {
    match f {
        MapFault::UnsupportedVersion { version } => "unsupported generator version "@ + decimal(
            version as int,
        ) + "; expected 1"@,
        MapFault::BelowMinimumSize => "manifest dimensions are below the 24 by 24 minimum"@,
        MapFault::BoundsDoNotMatch => "manifest bounds do not match dimensions"@,
        MapFault::CellCountDoesNotMatch => "manifest dimensions do not match cell count"@,
        MapFault::MissingCell { at } => "map is missing bounded cell "@ + point_text(at),
        MapFault::HashMismatch { manifest, computed } => "content hash mismatch: manifest "@
            + hexadecimal(manifest as int, 16) + ", computed "@ + hexadecimal(computed as int, 16),
        MapFault::CapturableImpassable { at } => "capturable cell "@ + point_text(at)
            + " is not ground-passable"@,
        MapFault::OverMilitaryCapacity { at } => "cell "@ + point_text(at)
            + " exceeds military capacity"@,
        MapFault::OverCivilianCapacity { at } => "cell "@ + point_text(at)
            + " exceeds civilian capacity"@,
        MapFault::UnsupportedOwner { at } => "cell "@ + point_text(at)
            + " has an unsupported owner"@,
        MapFault::CapturableDoesNotMatch => "capturable denominator does not match map"@,
        MapFault::NothingCapturable => "map has no capturable land"@,
        MapFault::DisconnectedLand { parts } => "capturable land has "@ + decimal(parts as int)
            + " disconnected components"@,
        MapFault::UnsupportedPlayerCount => "player count must be between 2 and 500"@,
        MapFault::SpawnCountDoesNotMatch => "spawn count does not match player count"@,
        MapFault::SpawnsNotDistinct => "player spawns must be distinct"@,
        MapFault::SpawnMissing { player } => "spawn "@ + decimal(player as int) + " is missing"@,
        MapFault::SpawnNotOwned { player } => "spawn "@ + decimal(player as int)
            + " is not valid owned land"@,
        MapFault::SpawnsTooClose => "player spawns are not sufficiently spaced"@,
        MapFault::FootprintSize { player, cells, expected } => "player "@ + decimal(player as int)
            + " initial footprint has "@ + decimal(cells as int) + " cells; expected "@ + decimal(
            expected as int,
        ),
        MapFault::NotExactlyItsSpawn { player } => "player "@ + decimal(player as int)
            + " must own exactly its one-cell spawn"@,
        MapFault::FootprintIncomplete { player } => "player "@ + decimal(player as int)
            + " does not own its full seed footprint"@,
        MapFault::FootprintDisconnected { player } => "player "@ + decimal(player as int)
            + " initial footprint is not connected"@,
        MapFault::UnequalTotals { high_scale } => if high_scale {
            "players do not have equal initial controlled, infantry, civilian, and military-capacity totals"@
        } else {
            "players do not have equal initial controlled, infantry, and civilian totals"@
        },
        MapFault::CapacityBelowForce { player, capacity } => "player "@ + decimal(player as int)
            + " spawn military capacity "@ + decimal(capacity as int)
            + " cannot hold seeded force 70"@,
        MapFault::NoSlopesOrCliffs => "map must exercise both slopes and cliffs"@,
    }
}

fn append_point(out: &mut String, c: Axial)
    ensures
        final(out)@ == old(out)@ + point_text(c),
{
    out.append("(");
    append_signed(out, c.q as i64);
    out.append(", ");
    append_signed(out, c.r as i64);
    out.append(")");
    assert(out@ =~= old(out)@ + point_text(c));
}

fn about_point(before: &str, c: Axial, after: &str) -> (out: String)
    ensures
        out@ == before@ + point_text(c) + after@,
{
    let mut out = text(before);
    append_point(&mut out, c);
    out.append(after);
    out
}

fn about_number(before: &str, n: usize, after: &str) -> (out: String)
    ensures
        out@ == before@ + decimal(n as int) + after@,
{
    let mut out = text(before);
    append_decimal(&mut out, n as u64);
    out.append(after);
    out
}

impl MapFault {
    /// Describes the fault.
    pub fn describe(self) -> (out: String)
        ensures
            out@ == fault_text(self),
    {
        match self {
            MapFault::UnsupportedVersion { version } => about_number(
                "unsupported generator version ",
                version as usize,
                "; expected 1",
            ),
            MapFault::BelowMinimumSize => text("manifest dimensions are below the 24 by 24 minimum"),
            MapFault::BoundsDoNotMatch => text("manifest bounds do not match dimensions"),
            MapFault::CellCountDoesNotMatch => text("manifest dimensions do not match cell count"),
            MapFault::MissingCell { at } => {
                let mut out = text("map is missing bounded cell ");
                append_point(&mut out, at);
                out
            },
            MapFault::HashMismatch { manifest, computed } => {
                let mut out = text("content hash mismatch: manifest ");
                append_hexadecimal(&mut out, manifest, 16);
                out.append(", computed ");
                append_hexadecimal(&mut out, computed, 16);
                out
            },
            MapFault::CapturableImpassable { at } => about_point(
                "capturable cell ",
                at,
                " is not ground-passable",
            ),
            MapFault::OverMilitaryCapacity { at } => about_point(
                "cell ",
                at,
                " exceeds military capacity",
            ),
            MapFault::OverCivilianCapacity { at } => about_point(
                "cell ",
                at,
                " exceeds civilian capacity",
            ),
            MapFault::UnsupportedOwner { at } => about_point(
                "cell ",
                at,
                " has an unsupported owner",
            ),
            MapFault::CapturableDoesNotMatch => text("capturable denominator does not match map"),
            MapFault::NothingCapturable => text("map has no capturable land"),
            MapFault::DisconnectedLand { parts } => about_number(
                "capturable land has ",
                parts,
                " disconnected components",
            ),
            MapFault::UnsupportedPlayerCount => text("player count must be between 2 and 500"),
            MapFault::SpawnCountDoesNotMatch => text("spawn count does not match player count"),
            MapFault::SpawnsNotDistinct => text("player spawns must be distinct"),
            MapFault::SpawnMissing { player } => about_number("spawn ", player, " is missing"),
            MapFault::SpawnNotOwned { player } => about_number(
                "spawn ",
                player,
                " is not valid owned land",
            ),
            MapFault::SpawnsTooClose => text("player spawns are not sufficiently spaced"),
            MapFault::FootprintSize { player, cells, expected } => {
                let mut out = about_number("player ", player, " initial footprint has ");
                append_decimal(&mut out, cells as u64);
                out.append(" cells; expected ");
                append_decimal(&mut out, expected);
                out
            },
            MapFault::NotExactlyItsSpawn { player } => about_number(
                "player ",
                player,
                " must own exactly its one-cell spawn",
            ),
            MapFault::FootprintIncomplete { player } => about_number(
                "player ",
                player,
                " does not own its full seed footprint",
            ),
            MapFault::FootprintDisconnected { player } => about_number(
                "player ",
                player,
                " initial footprint is not connected",
            ),
            MapFault::UnequalTotals { high_scale } => {
                if high_scale {
                    text(
                        "players do not have equal initial controlled, infantry, civilian, and military-capacity totals",
                    )
                } else {
                    text(
                        "players do not have equal initial controlled, infantry, and civilian totals",
                    )
                }
            },
            MapFault::CapacityBelowForce { player, capacity } => {
                let mut out = about_number("player ", player, " spawn military capacity ");
                append_decimal(&mut out, capacity);
                out.append(" cannot hold seeded force 70");
                out
            },
            MapFault::NoSlopesOrCliffs => text("map must exercise both slopes and cliffs"),
        }
    }
}

/// Whether every cell is filed under its own coordinate.
pub open spec fn is_filed(cells: Map<Axial, Cell>) -> bool {
    forall|c: Axial| #[trigger] cells.contains_key(c) ==> cells[c].coordinate == c
}

/// Whether the manifest describes the extent of the map.
pub open spec fn has_frame(g: GeneratedMap) -> bool {
    let m = g.manifest;
    &&& m.generator_version == GENERATOR_VERSION
    &&& m.width >= 24
    &&& m.height >= 24
    &&& m.q_min == first_of(m.width)
    &&& m.r_min == first_of(m.height)
}

/// Whether the map fills its frame and matches its hash.
pub open spec fn is_framed(g: GeneratedMap) -> bool {
    let m = g.manifest;
    &&& has_frame(g)
    &&& g.cells@.dom() == rectangle(m.width, m.height)
    &&& m.content_hash == hash_of(g.cells@, m.width, m.height, m.seed)
}

/// The order of rows, and of columns in a row.
pub open spec fn row_before(a: Axial, b: Axial) -> bool {
    a.r < b.r || (a.r == b.r && a.q < b.q)
}

/// What is wrong with the extent of a map.
pub open spec fn is_frame_fault(g: GeneratedMap, f: MapFault) -> bool {
    let m = g.manifest;
    let w = m.width;
    let h = m.height;
    let versioned = m.generator_version == GENERATOR_VERSION;
    match f {
        MapFault::UnsupportedVersion { version } => version == m.generator_version && !versioned,
        MapFault::BelowMinimumSize => versioned && (w < 24 || h < 24),
        MapFault::BoundsDoNotMatch => versioned && w >= 24 && h >= 24 && (m.q_min != first_of(w)
            || m.r_min != first_of(h)),
        MapFault::CellCountDoesNotMatch => has_frame(g) && g.cells@.dom().len() != w * h,
        MapFault::MissingCell { at } => {
            &&& has_frame(g)
            &&& g.cells@.dom().len() == w * h
            &&& in_bounds(w, h, at)
            &&& !g.cells@.contains_key(at)
            &&& forall|c: Axial| #[trigger]
                in_bounds(w, h, c) && row_before(c, at) ==> g.cells@.contains_key(c)
        },
        MapFault::HashMismatch { manifest, computed } => {
            &&& has_frame(g)
            &&& g.cells@.dom() == rectangle(w, h)
            &&& manifest == m.content_hash
            &&& computed == hash_of(g.cells@, w, h, m.seed)
            &&& manifest != computed
        },
        _ => false,
    }
}

/// Checks the extent of a map; gives back how many cells it has.
fn check_frame(g: &GeneratedMap) -> (verdict: Result<usize, MapFault>)
    ensures
        match verdict {
            Ok(n) => is_framed(*g) && n == g.manifest.width * g.manifest.height,
            Err(f) => is_frame_fault(*g, f),
        },
{
    let m = &g.manifest;
    let w: u16 = m.width;
    let h: u16 = m.height;
    if m.generator_version != GENERATOR_VERSION {
        return Err(MapFault::UnsupportedVersion { version: m.generator_version });
    }
    if w < 24 || h < 24 {
        return Err(MapFault::BelowMinimumSize);
    }
    let q_min: i32 = -((w / 2) as i32);
    let r_min: i32 = -((h / 2) as i32);
    if m.q_min != q_min || m.r_min != r_min {
        return Err(MapFault::BoundsDoNotMatch);
    }
    proof {
        lemma_rectangle(w, h);
        g.cells.lemma_finite();
        crate::axials::lemma_ascending_no_duplicates(ordered(g.cells@.dom()));
    }
    let total: usize = w as usize * h as usize;
    let listed = g.cells.coordinates();
    if listed.len() != total {
        return Err(MapFault::CellCountDoesNotMatch);
    }
    let mut row: u16 = 0;
    while row < h
        invariant
            row <= h,
            w == g.manifest.width,
            h == g.manifest.height,
            has_frame(*g),
            q_min == first_of(w),
            r_min == first_of(h),
            g.cells@.dom().len() == w * h,
            forall|c: Axial| #[trigger]
                in_bounds(w, h, c) && c.r < r_min + row ==> g.cells@.contains_key(c),
        decreases h - row,
    {
        let mut column: u16 = 0;
        while column < w
            invariant
                row < h,
                column <= w,
                w == g.manifest.width,
                h == g.manifest.height,
                has_frame(*g),
                q_min == first_of(w),
                r_min == first_of(h),
                g.cells@.dom().len() == w * h,
                forall|c: Axial| #[trigger]
                    in_bounds(w, h, c) && (c.r < r_min + row || (c.r == r_min + row && c.q < q_min
                        + column)) ==> g.cells@.contains_key(c),
            decreases w - column,
        {
            let c = Axial::new(q_min + column as i32, r_min + row as i32);
            if !g.cells.contains(c) {
                assert(in_bounds(w, h, c));
                return Err(MapFault::MissingCell { at: c });
            }
            column += 1;
        }
        row += 1;
    }
    proof {
        assert(rectangle(w, h).subset_of(g.cells@.dom()));
        vstd::set_lib::lemma_subset_equality(rectangle(w, h), g.cells@.dom());
    }
    let computed: u64 = content_hash(&g.cells, w, h, m.seed);
    if m.content_hash != computed {
        return Err(MapFault::HashMismatch { manifest: m.content_hash, computed });
    }
    Ok(total)
}

/// What is wrong with the state of a cell.
pub open spec fn state_fault(cell: Cell, players: u16) -> Option<MapFault> {
    let at = cell.coordinate;
    if cell.capturable && cell.terrain == TerrainKind::Water {
        Some(MapFault::CapturableImpassable { at })
    } else if cell.forces.infantry > cell.military_capacity {
        Some(MapFault::OverMilitaryCapacity { at })
    } else if cell.civilian_population > cell.civilian_capacity {
        Some(MapFault::OverCivilianCapacity { at })
    } else if cell.owner matches Some(owner) && (owner == NEUTRAL_PLAYER || owner > players) {
        Some(MapFault::UnsupportedOwner { at })
    } else {
        None
    }
}

/// Whether every cell is in a proper state.
pub open spec fn is_stated(g: GeneratedMap) -> bool {
    forall|c: Axial| #[trigger]
        g.cells@.contains_key(c) ==> state_fault(g.cells@[c], g.manifest.player_count) is None
}

/// The fault of the first cell that is not in a proper state.
pub open spec fn is_state_fault(g: GeneratedMap, f: MapFault) -> bool {
    exists|c: Axial| #[trigger]
        g.cells@.contains_key(c) && state_fault(g.cells@[c], g.manifest.player_count) == Some(f)
            && forall|d: Axial| #[trigger]
            g.cells@.contains_key(d) && axial_lt(d, c) ==> state_fault(
                g.cells@[d],
                g.manifest.player_count,
            ) is None
}

fn check_states(g: &GeneratedMap) -> (verdict: Result<(), MapFault>)
    ensures
        match verdict {
            Ok(_) => is_stated(*g),
            Err(f) => is_state_fault(*g, f),
        },
{
    let players: u16 = g.manifest.player_count;
    let keys = g.cells.coordinates();
    let cells = g.cells.cells();
    let mut i: usize = 0;
    while i < cells.len()
        invariant
            i <= cells@.len(),
            cells@.len() == keys@.len(),
            players == g.manifest.player_count,
            ascending(keys@),
            keys@.to_set() == g.cells@.dom(),
            forall|k: int| 0 <= k < cells@.len() ==> *(#[trigger] cells@[k]) == g.cells@[keys@[k]],
            forall|k: int|
                0 <= k < i ==> state_fault(g.cells@[#[trigger] keys@[k]], players) is None,
        decreases cells.len() - i,
    {
        let cell = cells[i];
        let at = cell.coordinate;
        let strange = match cell.owner {
            Some(owner) => owner == NEUTRAL_PLAYER || owner > players as u32,
            None => false,
        };
        let fault: Option<MapFault> = if cell.capturable && !cell.terrain.ground_passable() {
            Some(MapFault::CapturableImpassable { at })
        } else if cell.force() > cell.military_capacity {
            Some(MapFault::OverMilitaryCapacity { at })
        } else if cell.civilian_population > cell.civilian_capacity {
            Some(MapFault::OverCivilianCapacity { at })
        } else if strange {
            Some(MapFault::UnsupportedOwner { at })
        } else {
            None
        };
        assert(*cells@[i as int] == g.cells@[keys@[i as int]]);
        assert(fault == state_fault(*cell, players));
        match fault {
            Some(f) => {
                proof {
                    let c = keys@[i as int];
                    assert(keys@.to_set().contains(c));
                    assert forall|d: Axial| #[trigger]
                        g.cells@.contains_key(d) && axial_lt(d, c) implies state_fault(
                        g.cells@[d],
                        players,
                    ) is None by {
                        assert(keys@.to_set().contains(d));
                        let k = choose|k: int| 0 <= k < keys@.len() && keys@[k] == d;
                        if k > i {
                            assert(axial_lt(keys@[i as int], keys@[k]));
                        }
                        assert(state_fault(g.cells@[keys@[k]], players) is None);
                    }
                    assert(g.cells@.contains_key(c));
                }
                return Err(f);
            },
            None => {},
        }
        i += 1;
    }
    proof {
        assert forall|c: Axial| #[trigger] g.cells@.contains_key(c) implies state_fault(
            g.cells@[c],
            players,
        ) is None by {
            assert(keys@.to_set().contains(c));
            let k = choose|k: int| 0 <= k < keys@.len() && keys@[k] == c;
            assert(state_fault(g.cells@[keys@[k]], players) is None);
        }
    }
    Ok(())
}

/// The coordinates that a player owns, in ascending order.
pub open spec fn holdings(cells: Map<Axial, Cell>, keys: Seq<Axial>, owner: u32) -> Seq<Axial>
    decreases keys.len(),
{
    if keys.len() == 0 {
        seq![]
    } else if cells[keys.last()].owner == Some(owner) {
        holdings(cells, keys.drop_last(), owner).push(keys.last())
    } else {
        holdings(cells, keys.drop_last(), owner)
    }
}

/// The coordinates of a map that a player owns, in ascending order.
pub open spec fn estate(cells: Map<Axial, Cell>, owner: u32) -> Seq<Axial> {
    holdings(cells, ordered(cells.dom()), owner)
}

pub open spec fn soldiers(cells: Map<Axial, Cell>, s: Seq<Axial>) -> int
    decreases s.len(),
{
    if s.len() == 0 {
        0
    } else {
        soldiers(cells, s.drop_last()) + cells[s.last()].forces.infantry
    }
}

pub open spec fn civilians(cells: Map<Axial, Cell>, s: Seq<Axial>) -> int
    decreases s.len(),
{
    if s.len() == 0 {
        0
    } else {
        civilians(cells, s.drop_last()) + cells[s.last()].civilian_population
    }
}

pub open spec fn barracks(cells: Map<Axial, Cell>, s: Seq<Axial>) -> int
    decreases s.len(),
{
    if s.len() == 0 {
        0
    } else {
        barracks(cells, s.drop_last()) + cells[s.last()].military_capacity
    }
}

/// What a player starts with. Capacities count only where everyone starts with
/// one cell.
pub open spec fn endowment(cells: Map<Axial, Cell>, owner: u32, high: bool) -> (int, int, int, int) {
    let s = estate(cells, owner);
    (
        s.len() as int,
        soldiers(cells, s),
        civilians(cells, s),
        if high {
            barracks(cells, s)
        } else {
            0
        },
    )
}

/// How many cells every player starts with.
pub open spec fn footprint_size(radius: int) -> int {
    1 + 3 * radius * (radius + 1)
}

/// Whether everyone starts with one cell.
pub open spec fn is_high_scale(m: MapManifest) -> bool {
    m.player_count > LEGACY_RING_PLAYER_LIMIT
}

pub open spec fn start_radius(m: MapManifest) -> int {
    if is_high_scale(m) {
        0
    } else {
        footprint_radius(short_side(m.width, m.height))
    }
}

pub open spec fn start_spacing(m: MapManifest) -> int {
    if is_high_scale(m) {
        1
    } else {
        required_spacing(short_side(m.width, m.height), m.player_count)
    }
}

/// What is wrong with the start of a player, if anything. Players are numbered
/// from one, their places from zero.
pub open spec fn start_fault(g: GeneratedMap, i: int) -> Option<MapFault> {
    let m = g.manifest;
    let cells = g.cells@;
    let spawn = m.spawn_cells@[i];
    let player = (i + 1) as usize;
    let owner = (i + 1) as u32;
    let owned = estate(cells, owner);
    let high = is_high_scale(m);
    let radius = start_radius(m);
    if !cells.contains_key(spawn) {
        Some(MapFault::SpawnMissing { player })
    } else if !cells[spawn].capturable || cells[spawn].terrain == TerrainKind::Water
        || cells[spawn].owner != Some(owner) {
        Some(MapFault::SpawnNotOwned { player })
    } else if exists|j: int|
        0 <= j < i && hex_distance(#[trigger] m.spawn_cells@[j], spawn) < start_spacing(m) {
        Some(MapFault::SpawnsTooClose)
    } else if owned.len() != footprint_size(radius) {
        Some(
            MapFault::FootprintSize {
                player,
                cells: owned.len() as usize,
                expected: footprint_size(radius) as u64,
            },
        )
    } else if high && owned != seq![spawn] {
        Some(MapFault::NotExactlyItsSpawn { player })
    } else if !high && (!has_footprint(cells, spawn, radius) || exists|k: int|
        0 <= k < owned.len() && hex_distance(#[trigger] owned[k], spawn) > radius) {
        Some(MapFault::FootprintIncomplete { player })
    } else if !is_one_part(cells, owned.to_set()) {
        Some(MapFault::FootprintDisconnected { player })
    } else if i > 0 && endowment(cells, owner, high) != endowment(cells, i as u32, high) {
        Some(MapFault::UnequalTotals { high_scale: high })
    } else if high && barracks(cells, owned) < HIGH_SCALE_SEED_INFANTRY {
        Some(MapFault::CapacityBelowForce { player, capacity: barracks(cells, owned) as u64 })
    } else {
        None
    }
}

/// Whether the starts of all players are proper and equal.
pub open spec fn has_fair_starts(g: GeneratedMap) -> bool {
    let m = g.manifest;
    &&& MIN_PLAYER_COUNT <= m.player_count <= MAX_PLAYER_COUNT
    &&& m.spawn_cells@.len() == m.player_count
    &&& m.spawn_cells@.no_duplicates()
    &&& forall|i: int| 0 <= i < m.spawn_cells@.len() ==> #[trigger] start_fault(g, i) is None
}

/// What is wrong with the starts of the players.
pub open spec fn is_start_fault(g: GeneratedMap, f: MapFault) -> bool {
    let m = g.manifest;
    let supported = MIN_PLAYER_COUNT <= m.player_count <= MAX_PLAYER_COUNT;
    let counted = supported && m.spawn_cells@.len() == m.player_count;
    if f == MapFault::UnsupportedPlayerCount {
        !supported
    } else if f == MapFault::SpawnCountDoesNotMatch {
        supported && !counted
    } else if f == MapFault::SpawnsNotDistinct {
        counted && !m.spawn_cells@.no_duplicates()
    } else {
        &&& counted
        &&& m.spawn_cells@.no_duplicates()
        &&& exists|i: int|
            0 <= i < m.spawn_cells@.len() && #[trigger] start_fault(g, i) == Some(f) && forall|
                j: int,
            |
                0 <= j < i ==> #[trigger] start_fault(g, j) is None
    }
}

/// What a player owns, added up.
struct Estate {
    owned: Vec<Axial>,
    infantry: u128,
    civilian: u128,
    capacity: u128,
}

spec fn is_estate(e: Estate, cells: Map<Axial, Cell>, keys: Seq<Axial>, owner: u32) -> bool {
    let s = holdings(cells, keys, owner);
    &&& e.owned@ == s
    &&& e.infantry == soldiers(cells, s)
    &&& e.civilian == civilians(cells, s)
    &&& e.capacity == barracks(cells, s)
}

proof fn lemma_totals_bound(cells: Map<Axial, Cell>, s: Seq<Axial>)
    ensures
        0 <= soldiers(cells, s) <= s.len() * u64::MAX,
        0 <= civilians(cells, s) <= s.len() * u64::MAX,
        0 <= barracks(cells, s) <= s.len() * u64::MAX,
    decreases s.len(),
{
    if s.len() > 0 {
        lemma_totals_bound(cells, s.drop_last());
        assert((s.len() - 1) * u64::MAX + u64::MAX == s.len() * u64::MAX) by (nonlinear_arith);
    }
}

proof fn lemma_holdings(cells: Map<Axial, Cell>, keys: Seq<Axial>, owner: u32)
    ensures
        holdings(cells, keys, owner).len() <= keys.len(),
        forall|c: Axial| #[trigger]
            holdings(cells, keys, owner).contains(c) <==> keys.contains(c) && cells[c].owner
                == Some(owner),
    decreases keys.len(),
{
    if keys.len() > 0 {
        let t = keys.drop_last();
        lemma_holdings(cells, t, owner);
        let s = holdings(cells, t, owner);
        assert forall|c: Axial| #[trigger]
            holdings(cells, keys, owner).contains(c) <==> keys.contains(c) && cells[c].owner
                == Some(owner) by {
            assert(keys =~= t.push(keys.last()));
            crate::axials::lemma_contains_push(t, keys.last(), c);
            crate::axials::lemma_contains_push(s, keys.last(), c);
        }
    }
}

/// What every player owns.
fn survey(map: &HexMap, players: u16) -> (estates: Vec<Estate>)
    requires
        ordered(map@.dom()).len() <= u32::MAX,
        forall|c: Axial| #[trigger]
            map@.contains_key(c) ==> (map@[c].owner matches Some(o) ==> 0 < o <= players),
    ensures
        estates@.len() == players,
        forall|i: int|
            0 <= i < players ==> is_estate(
                #[trigger] estates@[i],
                map@,
                ordered(map@.dom()),
                (i + 1) as u32,
            ),
{
    let ghost keys = ordered(map@.dom());
    let listed = map.coordinates();
    let cells = map.cells();
    let mut estates: Vec<Estate> = Vec::new();
    let mut p: u16 = 0;
    assert(keys.take(0) =~= Seq::<Axial>::empty());
    while p < players
        invariant
            p <= players,
            estates@.len() == p,
            keys.take(0).len() == 0,
            forall|i: int|
                0 <= i < p ==> is_estate(
                    #[trigger] estates@[i],
                    map@,
                    keys.take(0),
                    (i + 1) as u32,
                ),
        decreases players - p,
    {
        let e = Estate { owned: Vec::new(), infantry: 0, civilian: 0, capacity: 0 };
        assert(e.owned@ =~= holdings(map@, keys.take(0), (p + 1) as u32));
        estates.push(e);
        p += 1;
    }
    let mut i: usize = 0;
    while i < cells.len()
        invariant
            i <= cells@.len(),
            keys == ordered(map@.dom()),
            keys.len() <= u32::MAX,
            listed@ == keys,
            listed@.to_set() == map@.dom(),
            cells@.len() == keys.len(),
            forall|k: int| 0 <= k < cells@.len() ==> *(#[trigger] cells@[k]) == map@[keys[k]],
            forall|c: Axial| #[trigger]
                map@.contains_key(c) ==> (map@[c].owner matches Some(o) ==> 0 < o <= players),
            estates@.len() == players,
            forall|x: int|
                0 <= x < players ==> is_estate(
                    #[trigger] estates@[x],
                    map@,
                    keys.take(i as int),
                    (x + 1) as u32,
                ),
        decreases cells.len() - i,
    {
        let cell = cells[i];
        let c = listed[i];
        let ghost before = estates@;
        proof {
            assert(*cells@[i as int] == map@[keys[i as int]]);
            assert(listed@.to_set().contains(c));
            assert(map@.contains_key(c));
            assert(keys.take(i + 1).drop_last() =~= keys.take(i as int));
            assert(keys.take(i + 1).last() == c);
        }
        match cell.owner {
            Some(owner) => {
                let x: usize = owner as usize - 1;
                proof {
                    assert(is_estate(estates@[x as int], map@, keys.take(i as int), owner));
                    let s = holdings(map@, keys.take(i as int), owner);
                    lemma_holdings(map@, keys.take(i as int), owner);
                    lemma_totals_bound(map@, s);
                    assert(s.len() * u64::MAX <= u32::MAX * u64::MAX) by (nonlinear_arith)
                        requires
                            0 <= s.len() <= u32::MAX,
                    ;
                    assert(s.push(c).drop_last() =~= s);
                }
                let mut e = estates.remove(x);
                e.owned.push(c);
                e.infantry = e.infantry + cell.force() as u128;
                e.civilian = e.civilian + cell.civilian_population as u128;
                e.capacity = e.capacity + cell.military_capacity as u128;
                estates.insert(x, e);
                proof {
                    assert forall|y: int| 0 <= y < players implies is_estate(
                        #[trigger] estates@[y],
                        map@,
                        keys.take(i + 1),
                        (y + 1) as u32,
                    ) by {
                        if y != x {
                            assert(estates@[y] == before[y]);
                        }
                    }
                }
            },
            None => {
                proof {
                    assert forall|y: int| 0 <= y < players implies is_estate(
                        #[trigger] estates@[y],
                        map@,
                        keys.take(i + 1),
                        (y + 1) as u32,
                    ) by {
                        assert(is_estate(estates@[y], map@, keys.take(i as int), (y + 1) as u32));
                    }
                }
            },
        }
        i += 1;
    }
    assert(keys.take(i as int) =~= keys);
    estates
}

/// What is wrong with the start of one player.
fn check_start(g: &GeneratedMap, estates: &Vec<Estate>, i: usize) -> (fault: Option<MapFault>)
    requires
        is_filed(g.cells@),
        forall|c: Axial| #[trigger] g.cells@.contains_key(c) ==> is_moderate(c),
        0 < g.manifest.player_count <= MAX_PLAYER_COUNT,
        i < g.manifest.spawn_cells@.len(),
        g.manifest.spawn_cells@.len() == g.manifest.player_count,
        estates@.len() == g.manifest.player_count,
        forall|x: int|
            0 <= x < estates@.len() ==> is_estate(
                #[trigger] estates@[x],
                g.cells@,
                ordered(g.cells@.dom()),
                (x + 1) as u32,
            ),
    ensures
        fault == start_fault(*g, i as int),
{
    let m = &g.manifest;
    let map = &g.cells;
    let spawn = m.spawn_cells[i];
    let player: usize = i + 1;
    let owner: u32 = i as u32 + 1;
    let high = m.player_count > LEGACY_RING_PLAYER_LIMIT;
    let short: u16 = if m.width <= m.height {
        m.width
    } else {
        m.height
    };
    let radius: u64 = if high {
        0
    } else {
        seed_radius(short)
    };
    let spacing: u64 = if high {
        1
    } else {
        minimum_spawn_spacing(short, m.player_count)
    };
    let cell = match map.get(spawn) {
        Some(cell) => cell,
        None => {
            return Some(MapFault::SpawnMissing { player });
        },
    };
    let mine = match cell.owner {
        Some(o) => o == owner,
        None => false,
    };
    if !cell.capturable || !cell.terrain.ground_passable() || !mine {
        return Some(MapFault::SpawnNotOwned { player });
    }
    let mut j: usize = 0;
    while j < i
        invariant
            j <= i,
            m == g.manifest,
            i < m.spawn_cells@.len(),
            forall|k: int|
                0 <= k < j ==> hex_distance(#[trigger] m.spawn_cells@[k], spawn) >= spacing,
            fault_so_far(*g, i as int, spawn, spacing as int),
        decreases i - j,
    {
        if m.spawn_cells[j].distance(spawn) < spacing {
            assert(hex_distance(m.spawn_cells@[j as int], spawn) < spacing);
            return Some(MapFault::SpawnsTooClose);
        }
        j += 1;
    }
    let estate = &estates[i];
    assert(is_estate(estates@[i as int], g.cells@, ordered(g.cells@.dom()), owner));
    proof {
        assert(0 <= 3 * radius * (radius + 1) <= 3 * 2_731 * 2_732) by (nonlinear_arith)
            requires
                0 <= radius <= 2_731,
        ;
    }
    let expected: u64 = 1 + 3 * radius * (radius + 1);
    if estate.owned.len() as u64 != expected {
        return Some(
            MapFault::FootprintSize { player, cells: estate.owned.len(), expected },
        );
    }
    if high {
        if estate.owned[0] != spawn {
            assert(estate.owned@ != seq![spawn]);
            return Some(MapFault::NotExactlyItsSpawn { player });
        }
        assert(estate.owned@ =~= seq![spawn]);
    } else {
        let full = full_seed_footprint(map, spawn, radius);
        let mut inside = full;
        let mut k: usize = 0;
        while k < estate.owned.len() && inside
            invariant
                k <= estate.owned@.len(),
                inside ==> full && forall|x: int|
                    0 <= x < k ==> hex_distance(#[trigger] estate.owned@[x], spawn) <= radius,
                !inside ==> !full || exists|x: int|
                    0 <= x < estate.owned@.len() && hex_distance(#[trigger] estate.owned@[x], spawn)
                        > radius,
            decreases estate.owned.len() - k,
        {
            if estate.owned[k].distance(spawn) > radius {
                assert(hex_distance(estate.owned@[k as int], spawn) > radius);
                inside = false;
            }
            k += 1;
        }
        if !inside {
            return Some(MapFault::FootprintIncomplete { player });
        }
    }
    if !forms_one_part(map, estate.owned.as_slice()) {
        return Some(MapFault::FootprintDisconnected { player });
    }
    if i > 0 {
        let other = &estates[i - 1];
        assert(is_estate(estates@[i - 1], g.cells@, ordered(g.cells@.dom()), i as u32));
        if estate.owned.len() != other.owned.len() || estate.infantry != other.infantry
            || estate.civilian != other.civilian || (high && estate.capacity != other.capacity) {
            return Some(MapFault::UnequalTotals { high_scale: high });
        }
    }
    if high && estate.capacity < HIGH_SCALE_SEED_INFANTRY as u128 {
        return Some(MapFault::CapacityBelowForce { player, capacity: estate.capacity as u64 });
    }
    None
}

/// Whether a spawn has passed the first tests of its start.
spec fn fault_so_far(g: GeneratedMap, i: int, spawn: Axial, spacing: int) -> bool {
    let m = g.manifest;
    &&& spawn == m.spawn_cells@[i]
    &&& spacing == start_spacing(m)
    &&& g.cells@.contains_key(spawn)
    &&& g.cells@[spawn].capturable
    &&& g.cells@[spawn].terrain != TerrainKind::Water
    &&& g.cells@[spawn].owner == Some((i + 1) as u32)
}

/// Checks the starts of all players.
fn check_starts(g: &GeneratedMap) -> (verdict: Result<(), MapFault>)
    requires
        is_filed(g.cells@),
        is_framed(*g),
        is_stated(*g),
    ensures
        match verdict {
            Ok(_) => has_fair_starts(*g),
            Err(f) => is_start_fault(*g, f),
        },
{
    let m = &g.manifest;
    if m.player_count < MIN_PLAYER_COUNT || m.player_count > MAX_PLAYER_COUNT {
        return Err(MapFault::UnsupportedPlayerCount);
    }
    if m.spawn_cells.len() != m.player_count as usize {
        return Err(MapFault::SpawnCountDoesNotMatch);
    }
    let distinct = AxialSet::from_slice(m.spawn_cells.as_slice());
    proof {
        if m.spawn_cells@.no_duplicates() {
            m.spawn_cells@.unique_seq_to_set();
        }
        if distinct@.len() == m.spawn_cells@.len() {
            m.spawn_cells@.lemma_no_dup_set_cardinality();
        }
    }
    if distinct.len() != m.spawn_cells.len() {
        return Err(MapFault::SpawnsNotDistinct);
    }
    proof {
        lemma_rectangle(m.width, m.height);
        g.cells.lemma_finite();
        crate::axials::lemma_ascending_no_duplicates(ordered(g.cells@.dom()));
        assert forall|c: Axial| #[trigger] g.cells@.contains_key(c) implies is_moderate(c) by {
            assert(rectangle(m.width, m.height).contains(c));
        }
        assert forall|c: Axial| #[trigger] g.cells@.contains_key(c) implies (g.cells@[c].owner
            matches Some(o) ==> 0 < o <= m.player_count) by {
            assert(state_fault(g.cells@[c], m.player_count) is None);
        }
    }
    let estates = survey(&g.cells, m.player_count);
    let mut i: usize = 0;
    while i < m.spawn_cells.len()
        invariant
            i <= m.spawn_cells@.len(),
            m == g.manifest,
            is_filed(g.cells@),
            forall|c: Axial| #[trigger] g.cells@.contains_key(c) ==> is_moderate(c),
            MIN_PLAYER_COUNT <= m.player_count <= MAX_PLAYER_COUNT,
            m.spawn_cells@.len() == m.player_count,
            m.spawn_cells@.no_duplicates(),
            estates@.len() == m.player_count,
            forall|x: int|
                0 <= x < estates@.len() ==> is_estate(
                    #[trigger] estates@[x],
                    g.cells@,
                    ordered(g.cells@.dom()),
                    (x + 1) as u32,
                ),
            forall|k: int| 0 <= k < i ==> #[trigger] start_fault(*g, k) is None,
        decreases m.spawn_cells.len() - i,
    {
        match check_start(g, &estates, i) {
            Some(f) => {
                assert(start_fault(*g, i as int) == Some(f));
                return Err(f);
            },
            None => {},
        }
        i += 1;
    }
    Ok(())
}

/// Whether an edge between two cells is walkable ground on both sides and meets
/// a test of its step in height.
pub open spec fn is_step(
    cells: Map<Axial, Cell>,
    a: Axial,
    b: Axial,
    test: spec_fn(int) -> bool,
) -> bool {
    &&& cells.contains_key(b)
    &&& cells[a].terrain != TerrainKind::Water
    &&& cells[b].terrain != TerrainKind::Water
    &&& test(abs(cells[a].elevation - cells[b].elevation))
}

/// How many edges lead from a cell to a greater one and meet a test.
pub open spec fn steps_from(cells: Map<Axial, Cell>, a: Axial, test: spec_fn(int) -> bool) -> nat {
    (if is_step(cells, a, a.step(0), test) {
        1nat
    } else {
        0nat
    }) + (if is_step(cells, a, a.step(1), test) {
        1nat
    } else {
        0nat
    }) + (if is_step(cells, a, a.step(5), test) {
        1nat
    } else {
        0nat
    })
}

/// How many edges meet a test; each edge counts once, at its lesser cell.
pub open spec fn step_count(
    cells: Map<Axial, Cell>,
    keys: Seq<Axial>,
    test: spec_fn(int) -> bool,
) -> nat
    decreases keys.len(),
{
    if keys.len() == 0 {
        0
    } else {
        step_count(cells, keys.drop_last(), test) + steps_from(cells, keys.last(), test)
    }
}

pub open spec fn is_slope() -> spec_fn(int) -> bool {
    |delta: int| delta == 1
}

pub open spec fn is_cliff() -> spec_fn(int) -> bool {
    |delta: int| delta > 1
}

/// The step in height along an edge between two walkable cells.
fn step_height(map: &HexMap, cell: &Cell, b: Axial) -> (delta: Option<i32>)
    ensures
        match delta {
            Some(d) => {
                &&& map@.contains_key(b)
                &&& cell.terrain != TerrainKind::Water
                &&& map@[b].terrain != TerrainKind::Water
                &&& d == abs(cell.elevation - map@[b].elevation)
            },
            None => !(map@.contains_key(b) && cell.terrain != TerrainKind::Water
                && map@[b].terrain != TerrainKind::Water),
        },
{
    match map.get(b) {
        Some(other) => {
            if cell.terrain.ground_passable() && other.terrain.ground_passable() {
                let delta: i32 = cell.elevation as i32 - other.elevation as i32;
                Some(
                    if delta < 0 {
                        -delta
                    } else {
                        delta
                    },
                )
            } else {
                None
            }
        },
        None => None,
    }
}

/// Counts the slopes and the cliffs of a map.
pub fn elevation_edge_counts(map: &HexMap) -> (counts: (usize, usize))
    requires
        forall|c: Axial| #[trigger] map@.contains_key(c) ==> c.interior(),
        3 * ordered(map@.dom()).len() <= usize::MAX,
    ensures
        counts.0 == step_count(map@, ordered(map@.dom()), is_slope()),
        counts.1 == step_count(map@, ordered(map@.dom()), is_cliff()),
{
    let ghost keys = ordered(map@.dom());
    let listed = map.coordinates();
    let cells = map.cells();
    let mut slopes: usize = 0;
    let mut cliffs: usize = 0;
    let mut i: usize = 0;
    assert(keys.take(0) =~= Seq::<Axial>::empty());
    while i < cells.len()
        invariant
            i <= cells@.len(),
            keys == ordered(map@.dom()),
            listed@ == keys,
            listed@.to_set() == map@.dom(),
            cells@.len() == keys.len(),
            3 * keys.len() <= usize::MAX,
            forall|c: Axial| #[trigger] map@.contains_key(c) ==> c.interior(),
            forall|k: int| 0 <= k < cells@.len() ==> *(#[trigger] cells@[k]) == map@[keys[k]],
            slopes == step_count(map@, keys.take(i as int), is_slope()),
            cliffs == step_count(map@, keys.take(i as int), is_cliff()),
            slopes <= 3 * i,
            cliffs <= 3 * i,
        decreases cells.len() - i,
    {
        let c = listed[i];
        proof {
            assert(*cells@[i as int] == map@[keys[i as int]]);
            assert(listed@.to_set().contains(c));
            assert(map@.contains_key(c));
            assert(keys.take(i + 1).drop_last() =~= keys.take(i as int));
            assert(keys.take(i + 1).last() == c);
        }
        let around = c.neighbors();
        let first = step_height(map, cells[i], around[0]);
        let second = step_height(map, cells[i], around[1]);
        let third = step_height(map, cells[i], around[5]);
        proof {
            assert(around@[0] == c.step(0));
            assert(around@[1] == c.step(1));
            assert(around@[5] == c.step(5));
        }
        slopes = slopes + is_one(first) + is_one(second) + is_one(third);
        cliffs = cliffs + is_more(first) + is_more(second) + is_more(third);
        i += 1;
    }
    assert(keys.take(i as int) =~= keys);
    (slopes, cliffs)
}

fn is_one(delta: Option<i32>) -> (n: usize)
    ensures
        n == (if delta == Some(1i32) {
            1int
        } else {
            0int
        }),
{
    match delta {
        Some(d) => {
            if d == 1 {
                1
            } else {
                0
            }
        },
        None => 0,
    }
}

fn is_more(delta: Option<i32>) -> (n: usize)
    ensures
        n == (if delta matches Some(d) && d > 1 {
            1int
        } else {
            0int
        }),
{
    match delta {
        Some(d) => {
            if d > 1 {
                1
            } else {
                0
            }
        },
        None => 0,
    }
}

pub open spec fn is_ground() -> spec_fn(Cell) -> bool {
    |cell: Cell| cell.terrain != TerrainKind::Water
}

fn count_ground(map: &HexMap) -> (n: usize)
    ensures
        n == count_where(map@, ordered(map@.dom()), is_ground()),
{
    let ghost keys = ordered(map@.dom());
    let cells = map.cells();
    let mut n: usize = 0;
    let mut i: usize = 0;
    assert(keys.take(0) =~= Seq::<Axial>::empty());
    while i < cells.len()
        invariant
            i <= cells@.len(),
            cells@.len() == keys.len(),
            keys == ordered(map@.dom()),
            forall|k: int| 0 <= k < cells@.len() ==> *(#[trigger] cells@[k]) == map@[keys[k]],
            n == count_where(map@, keys.take(i as int), is_ground()),
            n <= i,
        decreases cells.len() - i,
    {
        assert(*cells@[i as int] == map@[keys[i as int]]);
        assert(keys.take(i + 1).drop_last() =~= keys.take(i as int));
        assert(keys.take(i + 1).last() == keys[i as int]);
        if cells[i].terrain.ground_passable() {
            n += 1;
        }
        i += 1;
    }
    assert(keys.take(i as int) =~= keys);
    n
}

/// Whether the capturable land is what the manifest says, and of one piece.
pub open spec fn has_whole_land(g: GeneratedMap) -> bool {
    &&& g.manifest.capturable_land > 0
    &&& g.manifest.capturable_land == count_where(
        g.cells@,
        ordered(g.cells@.dom()),
        is_capturable(),
    )
    &&& is_one_part(g.cells@, capturable_in(g.cells@))
}

/// What is wrong with the capturable land.
pub open spec fn is_land_fault(g: GeneratedMap, f: MapFault) -> bool {
    let count = count_where(g.cells@, ordered(g.cells@.dom()), is_capturable());
    match f {
        MapFault::CapturableDoesNotMatch => count != g.manifest.capturable_land,
        MapFault::NothingCapturable => count == g.manifest.capturable_land && count == 0,
        MapFault::DisconnectedLand { parts } => {
            &&& count == g.manifest.capturable_land
            &&& count != 0
            &&& parts != 1
            &&& has_parts(g.cells@, capturable_in(g.cells@), parts as int)
        },
        _ => false,
    }
}

/// Whether the passable cells of a region fall into a number of parts.
pub open spec fn has_parts(cells: Map<Axial, Cell>, region: Set<Axial>, parts: int) -> bool {
    exists|list: Seq<Seq<Axial>>| #[trigger]
        is_component_list(cells, standard_movement(), eligible(cells, region), list) && list.len()
            == parts
}

/// Whether a map can be played on.
pub open spec fn is_valid(g: GeneratedMap) -> bool {
    let keys = ordered(g.cells@.dom());
    &&& is_framed(g)
    &&& is_stated(g)
    &&& has_whole_land(g)
    &&& has_fair_starts(g)
    &&& step_count(g.cells@, keys, is_slope()) > 0
    &&& step_count(g.cells@, keys, is_cliff()) > 0
}

/// The first thing that is wrong with a map.
pub open spec fn is_fault(g: GeneratedMap, f: MapFault) -> bool {
    ||| is_frame_fault(g, f)
    ||| is_framed(g) && is_state_fault(g, f)
    ||| is_framed(g) && is_stated(g) && is_land_fault(g, f)
    ||| is_framed(g) && is_stated(g) && has_whole_land(g) && is_start_fault(g, f)
    ||| {
        let keys = ordered(g.cells@.dom());
        &&& is_framed(g)
        &&& is_stated(g)
        &&& has_whole_land(g)
        &&& has_fair_starts(g)
        &&& f == MapFault::NoSlopesOrCliffs
        &&& step_count(g.cells@, keys, is_slope()) == 0 || step_count(g.cells@, keys, is_cliff())
            == 0
    }
}

/// The figures of a valid map.
pub open spec fn is_report(g: GeneratedMap, report: ValidationReport) -> bool {
    let keys = ordered(g.cells@.dom());
    &&& report.total_cells == g.manifest.width * g.manifest.height
    &&& report.ground_cells == count_where(g.cells@, keys, is_ground())
    &&& report.capturable_cells == count_where(g.cells@, keys, is_capturable())
    &&& report.slopes == step_count(g.cells@, keys, is_slope())
    &&& report.cliffs == step_count(g.cells@, keys, is_cliff())
}

/// The capturable coordinates of a map whose cells are filed under their own.
fn capturable_list(map: &HexMap) -> (found: Vec<Axial>)
    ensures
        found@.to_set() == capturable_in(map@),
        found@.len() == count_where(map@, ordered(map@.dom()), is_capturable()),
{
    let ghost keys = ordered(map@.dom());
    let listed = map.coordinates();
    let cells = map.cells();
    let mut found: Vec<Axial> = Vec::new();
    let mut i: usize = 0;
    assert(keys.take(0) =~= Seq::<Axial>::empty());
    while i < cells.len()
        invariant
            i <= cells@.len(),
            keys == ordered(map@.dom()),
            listed@ == keys,
            keys.to_set() == map@.dom(),
            cells@.len() == keys.len(),
            forall|k: int| 0 <= k < cells@.len() ==> *(#[trigger] cells@[k]) == map@[keys[k]],
            found@.len() == count_where(map@, keys.take(i as int), is_capturable()),
            forall|c: Axial| #[trigger]
                found@.contains(c) <==> keys.take(i as int).contains(c) && map@[c].capturable,
        decreases cells.len() - i,
    {
        let c = listed[i];
        let ghost before = found@;
        assert(*cells@[i as int] == map@[keys[i as int]]);
        assert(keys.take(i + 1).drop_last() =~= keys.take(i as int));
        assert(keys.take(i + 1) =~= keys.take(i as int).push(c));
        if cells[i].capturable {
            found.push(c);
        }
        proof {
            assert forall|x: Axial| #[trigger]
                found@.contains(x) <==> keys.take(i + 1).contains(x) && map@[x].capturable by {
                crate::axials::lemma_contains_push(keys.take(i as int), c, x);
                crate::axials::lemma_contains_push(before, c, x);
                assert(before.contains(x) <==> keys.take(i as int).contains(x)
                    && map@[x].capturable);
            }
        }
        i += 1;
    }
    proof {
        assert(keys.take(i as int) =~= keys);
        assert forall|c: Axial| found@.to_set().contains(c) <==> capturable_in(map@).contains(c) by {
            assert(found@.contains(c) <==> keys.contains(c) && map@[c].capturable);
            assert(keys.to_set().contains(c) <==> keys.contains(c));
        }
        assert(found@.to_set() =~= capturable_in(map@));
    }
    found
}

/// Checks a map.
pub fn check(g: &GeneratedMap) -> (verdict: Result<ValidationReport, MapFault>)
    requires
        is_filed(g.cells@),
        3 * (g.manifest.width * g.manifest.height) <= usize::MAX,
    ensures
        match verdict {
            Ok(report) => is_valid(*g) && is_report(*g, report),
            Err(f) => is_fault(*g, f),
        },
{
    let total: usize = match check_frame(g) {
        Ok(total) => total,
        Err(f) => {
            return Err(f);
        },
    };
    match check_states(g) {
        Ok(_) => {},
        Err(f) => {
            return Err(f);
        },
    }
    let m = &g.manifest;
    let capturable = capturable_list(&g.cells);
    proof {
        lemma_rectangle(m.width, m.height);
        g.cells.lemma_finite();
        crate::axials::lemma_ascending_no_duplicates(ordered(g.cells@.dom()));
        assert forall|c: Axial| #[trigger] g.cells@.contains_key(c) implies c.interior() by {
            assert(rectangle(m.width, m.height).contains(c));
        }
    }
    if capturable.len() != m.capturable_land as usize {
        return Err(MapFault::CapturableDoesNotMatch);
    }
    if capturable.len() == 0 {
        return Err(MapFault::NothingCapturable);
    }
    let components = connected_components(
        &g.cells,
        capturable.as_slice(),
        &MovementConfig::default(),
    );
    proof {
        let region = eligible(g.cells@, capturable_in(g.cells@));
        assert(is_component_list(
            g.cells@,
            standard_movement(),
            region,
            contents(components@),
        ));
        assert(has_parts(g.cells@, capturable_in(g.cells@), components@.len() as int));
    }
    if components.len() != 1 {
        return Err(MapFault::DisconnectedLand { parts: components.len() });
    }
    assert(is_one_part(g.cells@, capturable_in(g.cells@)));
    match check_starts(g) {
        Ok(_) => {},
        Err(f) => {
            return Err(f);
        },
    }
    let (slopes, cliffs) = elevation_edge_counts(&g.cells);
    if cliffs == 0 || slopes == 0 {
        return Err(MapFault::NoSlopesOrCliffs);
    }
    Ok(
        ValidationReport {
            total_cells: total,
            ground_cells: count_ground(&g.cells),
            capturable_cells: capturable.len(),
            cliffs,
            slopes,
        },
    )
}

/// Checks connectivity, spawn validity, conquest accounting, slopes, and cliffs.
///
/// The error is a human-readable description of the first fault found: the map
/// cannot support the rules of conquest.
pub fn validate(generated: &GeneratedMap) -> (verdict: Result<ValidationReport, String>)
    requires
        is_filed(generated.cells@),
        3 * (generated.manifest.width * generated.manifest.height) <= usize::MAX,
    ensures
        match verdict {
            Ok(report) => is_valid(*generated) && is_report(*generated, report),
            Err(message) => is_rejection(*generated, message@),
        },
{
    match check(generated) {
        Ok(report) => Ok(report),
        Err(f) => {
            let message = f.describe();
            assert(is_fault(*generated, f) && fault_text(f) == message@);
            Err(message)
        },
    }
}

/// Whether a message describes the first fault of a map.
pub open spec fn is_rejection(g: GeneratedMap, message: Seq<char>) -> bool {
    exists|f: MapFault| #[trigger] is_fault(g, f) && fault_text(f) == message
}

/// A map is valid or it has a fault, never both.
pub proof fn law_valid_maps_have_no_fault(g: GeneratedMap, f: MapFault)
    requires
        is_valid(g),
    ensures
        !is_fault(g, f),
{
    lemma_rectangle(g.manifest.width, g.manifest.height);
    if is_framed(g) && is_state_fault(g, f) {
        let c = choose|c: Axial| #[trigger]
            g.cells@.contains_key(c) && state_fault(g.cells@[c], g.manifest.player_count) == Some(f);
        assert(state_fault(g.cells@[c], g.manifest.player_count) is None);
    }
    if is_land_fault(g, f) {
        if f is DisconnectedLand {
            let region = eligible(g.cells@, capturable_in(g.cells@));
            let s = choose|list: Seq<Seq<Axial>>| #[trigger]
                is_component_list(g.cells@, standard_movement(), region, list) && list.len() == 1;
            let t = choose|list: Seq<Seq<Axial>>| #[trigger]
                is_component_list(g.cells@, standard_movement(), region, list) && list.len()
                    == f->parts;
            law_component_list_is_unique(g.cells@, standard_movement(), region, s, t);
        }
    }
    if is_start_fault(g, f) {
        if f != MapFault::UnsupportedPlayerCount && f != MapFault::SpawnCountDoesNotMatch && f
            != MapFault::SpawnsNotDistinct {
            let i = choose|i: int|
                0 <= i < g.manifest.spawn_cells@.len() && #[trigger] start_fault(g, i) == Some(f);
            assert(start_fault(g, i) is None);
        }
    }
}

/// On a valid map every player reaches every other: any two spawns are joined by
/// a walk over capturable ground.
pub proof fn law_spawns_reach_each_other(g: GeneratedMap, i: int, j: int)
    requires
        is_valid(g),
        0 <= i < g.manifest.spawn_cells@.len(),
        0 <= j < g.manifest.spawn_cells@.len(),
    ensures
        crate::connectivity::connected(
            g.cells@,
            standard_movement(),
            eligible(g.cells@, capturable_in(g.cells@)),
            g.manifest.spawn_cells@[i],
            g.manifest.spawn_cells@[j],
        ),
{
    let region = eligible(g.cells@, capturable_in(g.cells@));
    let list = choose|list: Seq<Seq<Axial>>| #[trigger]
        is_component_list(g.cells@, standard_movement(), region, list) && list.len() == 1;
    assert(start_fault(g, i) is None);
    assert(start_fault(g, j) is None);
    let a = g.manifest.spawn_cells@[i];
    let b = g.manifest.spawn_cells@[j];
    assert(region.contains(a));
    assert(region.contains(b));
    let x = choose|k: int| 0 <= k < list.len() && (#[trigger] list[k]).contains(a);
    let y = choose|k: int| 0 <= k < list.len() && (#[trigger] list[k]).contains(b);
    assert(x == y);
    assert(list[x].contains(a));
}

/// A generated map fills its frame, matches its hash and its count of capturable
/// land, and files every cell under its own coordinate.
pub proof fn law_generated_maps_match_their_manifest(
    g: GeneratedMap,
    width: u16,
    height: u16,
    seed: u64,
    players: u16,
)
    requires
        width >= 24,
        height >= 24,
        is_generated(g, width, height, seed, players),
    ensures
        is_framed(g),
        is_filed(g.cells@),
        g.manifest.capturable_land == count_where(
            g.cells@,
            ordered(g.cells@.dom()),
            is_capturable(),
        ),
{
    assert(g.cells@.dom() =~= rectangle(width, height));
}

} // verus!
