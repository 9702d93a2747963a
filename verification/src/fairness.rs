//! The starts of generated maps are proper and fair.
use vstd::prelude::*;
use crate::axials::{lemma_ascending_no_duplicates, ordered};
use crate::connectivity::{connected, eligible, is_component_list, is_walk, joined};
use crate::coord::{hex_distance, law_distance_is_a_metric, Axial};
use crate::island::{island, short_side, standard_movement};
use crate::map::{Cell, TerrainKind};
use crate::map_check::{
    barracks, civilians, endowment, estate, footprint_size, has_fair_starts, holdings, is_cliff,
    is_slope, is_stated, is_valid, law_generated_maps_match_their_manifest, soldiers, start_fault,
    start_radius, start_spacing, state_fault, step_count,
};
use crate::spawning::{
    ball, capturable_in, footprint_radius, frontage, has_footprint, hosts, is_farthest, is_one_part,
    is_open_ground, is_ring_start, is_site, is_spread_start, required_spacing,
    LEGACY_RING_PLAYER_LIMIT,
};
use crate::worldgen::{
    count_where, is_capturable, is_claimant, is_generated, last_index, lemma_claimant_is_unique,
    lemma_same_place, refusal, seeded, seeded_cell, settled, GeneratedMap,
    HIGH_SCALE_MILITARY_CAPACITY, HIGH_SCALE_SEED_INFANTRY,
};

verus! {

/// An island is nobody's, nobody stands on it, and what can be captured is ground.
proof fn lemma_island_cell(width: u16, height: u16, seed: u64, c: Axial)
    requires
        island(width, height, seed).contains_key(c),
    ensures
        ({
            let cell = island(width, height, seed)[c];
            &&& cell.coordinate == c
            &&& cell.owner is None
            &&& cell.forces.infantry == 0
            &&& cell.civilian_population == 0
            &&& cell.capturable ==> cell.terrain != TerrainKind::Water
        }),
{
}

/// What a player holds: each of the coordinates that are theirs, once.
proof fn lemma_holdings(cells: Map<Axial, Cell>, keys: Seq<Axial>, owner: u32)
    requires
        keys.no_duplicates(),
    ensures
        holdings(cells, keys, owner).no_duplicates(),
        forall|c: Axial| #[trigger]
            holdings(cells, keys, owner).contains(c) <==> keys.contains(c) && cells[c].owner
                == Some(owner),
    decreases keys.len(),
{
    if keys.len() > 0 {
        let rest = keys.drop_last();
        let last = keys.last();
        lemma_holdings(cells, rest, owner);
        let before = holdings(cells, rest, owner);
        let now = holdings(cells, keys, owner);
        assert(rest.push(last) =~= keys);
        assert(!rest.contains(last));
        assert forall|c: Axial| #[trigger] now.contains(c) <==> keys.contains(c) && cells[c].owner
            == Some(owner) by {
            crate::axials::lemma_contains_push(rest, last, c);
            if cells[last].owner == Some(owner) {
                crate::axials::lemma_contains_push(before, last, c);
            }
        }
        if cells[last].owner == Some(owner) {
            assert(!before.contains(last));
            assert forall|i: int, j: int| 0 <= i < now.len() && 0 <= j < now.len() && i != j
                implies now[i] != now[j] by {
                if i == before.len() {
                    assert(before.contains(before[j]));
                } else if j == before.len() {
                    assert(before.contains(before[i]));
                }
            }
        }
    }
}

/// The estate of a player on a generated map: their coordinates, each once.
proof fn lemma_estate(g: GeneratedMap, owner: u32)
    ensures
        estate(g.cells@, owner).no_duplicates(),
        forall|c: Axial| #[trigger]
            estate(g.cells@, owner).contains(c) <==> g.cells@.contains_key(c) && g.cells@[c].owner
                == Some(owner),
{
    g.cells.lemma_finite();
    let keys = ordered(g.cells@.dom());
    lemma_ascending_no_duplicates(keys);
    lemma_holdings(g.cells@, keys, owner);
    assert forall|c: Axial| #[trigger] keys.contains(c) <==> g.cells@.contains_key(c) by {
        assert(keys.to_set().contains(c) == g.cells@.dom().contains(c));
    }
}

proof fn lemma_last_index(s: Seq<Axial>, i: int)
    requires
        s.no_duplicates(),
        0 <= i < s.len(),
    ensures
        last_index(s, s[i]) == i,
    decreases s.len(),
{
    if i < s.len() - 1 {
        assert(s.last() != s[i]);
        assert(s.drop_last()[i] == s[i]);
        lemma_last_index(s.drop_last(), i);
    }
}

/// One passable cell is one part.
proof fn lemma_one_cell_is_one_part(cells: Map<Axial, Cell>, c: Axial)
    requires
        cells.contains_key(c),
        cells[c].terrain != TerrainKind::Water,
    ensures
        is_one_part(cells, seq![c].to_set()),
{
    let here = seq![c];
    let list = seq![here];
    let region = eligible(cells, here.to_set());
    assert(here[0] == c);
    assert(here.contains(c));
    assert forall|d: Axial| region.contains(d) <==> d == c by {
        if here.contains(d) {
            let i = choose|i: int| 0 <= i < here.len() && here[i] == d;
        }
    }
    assert(is_walk(cells, standard_movement(), region, here));
    assert(connected(cells, standard_movement(), region, c, c)) by {
        assert(here[0] == c && here.last() == c);
    }
    assert(list[0] == here);
    assert forall|d: Axial| #[trigger] region.contains(d) <==> exists|i: int|
        0 <= i < list.len() && (#[trigger] list[i]).contains(d) by {
        if d == c {
            assert(list[0].contains(d));
        }
        if exists|i: int| 0 <= i < list.len() && (#[trigger] list[i]).contains(d) {
            let i = choose|i: int| 0 <= i < list.len() && (#[trigger] list[i]).contains(d);
            let k = choose|k: int| 0 <= k < here.len() && here[k] == d;
        }
    }
    assert forall|i: int, a: Axial, b: Axial|
        0 <= i < list.len() && #[trigger] list[i].contains(a) && #[trigger] region.contains(b)
            implies (list[i].contains(b) <==> connected(
        cells,
        standard_movement(),
        region,
        a,
        b,
    )) by {
        let k = choose|k: int| 0 <= k < here.len() && here[k] == a;
        assert(a == c && b == c);
    }
    assert(is_component_list(cells, standard_movement(), region, list));
}

proof fn lemma_spread_starts(cells: Map<Axial, Cell>, s: Seq<Axial>)
    requires
        is_spread_start(cells, s),
    ensures
        s.no_duplicates(),
        forall|i: int| 0 <= i < s.len() ==> is_open_ground(cells, #[trigger] s[i]),
{
    assert forall|i: int| 0 <= i < s.len() implies is_open_ground(cells, #[trigger] s[i]) by {
        assert(frontage(cells).contains(s[i]));
    }
    assert forall|i: int, j: int| 0 <= i < j < s.len() implies s[i] != s[j] by {
        assert(is_farthest(frontage(cells), s.take(j), s[j]));
        assert(s.take(j)[i] == s[i]);
    }
}

/// A cell that nobody has.
spec fn is_free(cell: Cell) -> bool {
    &&& cell.owner is None
    &&& cell.forces.infantry == 0
    &&& cell.civilian_population == 0
    &&& cell.capturable ==> cell.terrain != TerrainKind::Water
}

/// Whether the starts are outposts, and all else is free.
spec fn are_outposts(cells: Map<Axial, Cell>, s: Seq<Axial>) -> bool {
    &&& s.no_duplicates()
    &&& forall|k: int|
        0 <= k < s.len() ==> cells.contains_key(#[trigger] s[k]) && is_outpost(
            cells[s[k]],
            (k + 1) as u32,
        )
    &&& forall|c: Axial| #[trigger] cells.contains_key(c) && !s.contains(c) ==> is_free(cells[c])
}

spec fn is_outpost(cell: Cell, owner: u32) -> bool {
    &&& cell.capturable
    &&& cell.terrain != TerrainKind::Water
    &&& cell.owner == Some(owner)
    &&& cell.forces.infantry == HIGH_SCALE_SEED_INFANTRY
    &&& cell.military_capacity == HIGH_SCALE_MILITARY_CAPACITY
    &&& cell.civilian_population == 180
    &&& cell.civilian_capacity == 240
}

proof fn lemma_outposts(width: u16, height: u16, seed: u64, s: Seq<Axial>, short: u16)
    requires
        s.len() > LEGACY_RING_PLAYER_LIMIT,
        is_spread_start(island(width, height, seed), s),
    ensures
        are_outposts(seeded(island(width, height, seed), s, short), s),
{
    let isle = island(width, height, seed);
    let cells = seeded(isle, s, short);
    lemma_spread_starts(isle, s);
    assert forall|k: int| 0 <= k < s.len() implies cells.contains_key(#[trigger] s[k])
        && is_outpost(cells[s[k]], (k + 1) as u32) by {
        lemma_last_index(s, k);
        assert(is_open_ground(isle, s[k]));
        assert(s.contains(s[k]));
        assert(cells[s[k]] == seeded_cell(s, short, s[k], isle[s[k]]));
    }
    assert forall|c: Axial| #[trigger] cells.contains_key(c) && !s.contains(c) implies is_free(
        cells[c],
    ) by {
        lemma_island_cell(width, height, seed, c);
        assert(cells[c] == seeded_cell(s, short, c, isle[c]));
    }
}

/// What every player starts with where starts are outposts.
spec fn outpost_endowment() -> (int, int, int, int) {
    (1int, HIGH_SCALE_SEED_INFANTRY as int, 180int, HIGH_SCALE_MILITARY_CAPACITY as int)
}

proof fn lemma_outpost_estate(g: GeneratedMap, s: Seq<Axial>, k: int)
    requires
        are_outposts(g.cells@, s),
        0 <= k < s.len() <= 500,
    ensures
        estate(g.cells@, (k + 1) as u32) == seq![s[k]],
        endowment(g.cells@, (k + 1) as u32, true) == outpost_endowment(),
        barracks(g.cells@, seq![s[k]]) == HIGH_SCALE_MILITARY_CAPACITY,
{
    let cells = g.cells@;
    let c = s[k];
    let owner = (k + 1) as u32;
    lemma_estate(g, owner);
    let owned = estate(cells, owner);
    assert forall|d: Axial| owned.contains(d) implies d == c by {
        assert(cells.contains_key(d));
        assert(s.contains(d));
        let j = choose|j: int| 0 <= j < s.len() && s[j] == d;
        assert(is_outpost(cells[s[j]], (j + 1) as u32));
    }
    assert(is_outpost(cells[s[k]], owner));
    assert(owned.contains(c));
    assert forall|j: int| 0 <= j < owned.len() implies owned[j] == c by {
        assert(owned.contains(owned[j]));
    }
    if owned.len() > 1 {
        assert(owned[0] == owned[1]);
    }
    assert(owned =~= seq![c]);
    let none = Seq::<Axial>::empty();
    let one = seq![c];
    assert(one.drop_last() =~= none);
    assert(one.last() == c);
    assert(soldiers(cells, none) == 0 && civilians(cells, none) == 0 && barracks(cells, none) == 0);
}

proof fn lemma_outpost_start(g: GeneratedMap, k: int)
    requires
        g.manifest.player_count > LEGACY_RING_PLAYER_LIMIT,
        g.manifest.spawn_cells@.len() <= 500,
        are_outposts(g.cells@, g.manifest.spawn_cells@),
        0 <= k < g.manifest.spawn_cells@.len(),
    ensures
        start_fault(g, k) is None,
{
    let s = g.manifest.spawn_cells@;
    let cells = g.cells@;
    lemma_outpost_estate(g, s, k);
    if k > 0 {
        lemma_outpost_estate(g, s, k - 1);
    }
    assert(is_outpost(cells[s[k]], (k + 1) as u32));
    assert forall|j: int| 0 <= j < k implies hex_distance(#[trigger] s[j], s[k]) >= start_spacing(
        g.manifest,
    ) by {
        lemma_same_place(s[j], s[k]);
    }
    lemma_one_cell_is_one_part(cells, s[k]);
}

proof fn lemma_outposts_are_stated(g: GeneratedMap)
    requires
        g.manifest.spawn_cells@.len() == g.manifest.player_count,
        are_outposts(g.cells@, g.manifest.spawn_cells@),
    ensures
        is_stated(g),
{
    let s = g.manifest.spawn_cells@;
    assert forall|c: Axial| #[trigger] g.cells@.contains_key(c) implies state_fault(
        g.cells@[c],
        g.manifest.player_count,
    ) is None by {
        if s.contains(c) {
            let k = choose|k: int| 0 <= k < s.len() && s[k] == c;
            assert(is_outpost(g.cells@[s[k]], (k + 1) as u32));
        }
    }
}

/// A map for more than eight players is in a proper state, and its starts are
/// fair: every player owns their own start and nothing else, with the same
/// soldiers, civilians and room.
pub proof fn law_one_cell_starts_are_fair(
    g: GeneratedMap,
    width: u16,
    height: u16,
    seed: u64,
    players: u16,
    i: int,
)
    requires
        refusal(width, height, players) is None,
        players > LEGACY_RING_PLAYER_LIMIT,
        is_generated(g, width, height, seed, players),
        0 <= i < players,
    ensures
        is_stated(g),
        has_fair_starts(g),
        estate(g.cells@, (i + 1) as u32) == seq![g.manifest.spawn_cells@[i]],
        endowment(g.cells@, (i + 1) as u32, true) == (
            1int,
            HIGH_SCALE_SEED_INFANTRY as int,
            180int,
            HIGH_SCALE_MILITARY_CAPACITY as int,
        ),
{
    let s = g.manifest.spawn_cells@;
    lemma_outposts(width, height, seed, s, short_side(width, height));
    lemma_outposts_are_stated(g);
    assert forall|k: int| 0 <= k < s.len() implies #[trigger] start_fault(g, k) is None by {
        lemma_outpost_start(g, k);
    }
    lemma_outpost_estate(g, s, i);
}

/// The coordinates within some steps of a place.
pub open spec fn disc(center: Axial, radius: int) -> Set<Axial> {
    Set::new(|c: Axial| hex_distance(c, center) <= radius)
}

/// The coordinates of a disc that lie west of a column.
spec fn disc_west(center: Axial, radius: int, column: int) -> Set<Axial> {
    Set::new(|c: Axial| hex_distance(c, center) <= radius && c.q - center.q < column)
}

/// How many coordinates of a disc lie in a column.
spec fn column_size(radius: int, column: int) -> int {
    if column < 0 {
        2 * radius + 1 + column
    } else {
        2 * radius + 1 - column
    }
}

/// A place with room for a disc around it.
spec fn has_room(center: Axial, radius: int) -> bool {
    &&& 0 <= radius <= 100_000
    &&& -1_000_000 <= center.q <= 1_000_000
    &&& -1_000_000 <= center.r <= 1_000_000
}

proof fn lemma_column(center: Axial, radius: int, column: int) -> (s: Seq<Axial>)
    requires
        has_room(center, radius),
        -radius <= column <= radius,
    ensures
        s.no_duplicates(),
        s.len() == column_size(radius, column),
        forall|c: Axial| #[trigger]
            s.contains(c) <==> hex_distance(c, center) <= radius && c.q - center.q == column,
{
    let low = if column < 0 {
        -radius - column
    } else {
        -radius
    };
    let n = column_size(radius, column);
    let s = Seq::new(
        n as nat,
        |t: int| Axial { q: (center.q + column) as i32, r: (center.r + low + t) as i32 },
    );
    assert forall|i: int, j: int| 0 <= i < s.len() && 0 <= j < s.len() && i != j implies s[i]
        != s[j] by {
        assert(s[i].r == center.r + low + i);
        assert(s[j].r == center.r + low + j);
    }
    assert forall|c: Axial| #[trigger] s.contains(c) <==> hex_distance(c, center) <= radius && c.q
        - center.q == column by {
        if s.contains(c) {
            let t = choose|t: int| 0 <= t < s.len() && s[t] == c;
            assert(c.q == center.q + column && c.r == center.r + low + t);
        }
        if hex_distance(c, center) <= radius && c.q - center.q == column {
            let t = c.r - center.r - low;
            assert(0 <= t < n);
            assert(s[t] == c);
        }
    }
    s
}

/// Twice the number of coordinates in the first columns of a disc.
spec fn twice_west(radius: int, column: int) -> int {
    if column <= 1 {
        let m = column + radius;
        2 * m * (radius + 1) + m * (m - 1)
    } else {
        let m = radius + 1;
        2 * m * m + m * radius + 2 * (column - 1) * (2 * radius + 1) - (column - 1) * column
    }
}

proof fn lemma_twice_west(radius: int, column: int)
    requires
        0 <= radius,
        -radius <= column <= radius,
    ensures
        twice_west(radius, column + 1) == twice_west(radius, column) + 2 * column_size(
            radius,
            column,
        ),
{
    let m = column + radius;
    assert(2 * (m + 1) * (radius + 1) + (m + 1) * m == 2 * m * (radius + 1) + m * (m - 1) + 2 * (
    radius + 1 + m)) by (nonlinear_arith);
    assert(2 * column * (2 * radius + 1) - column * (column + 1) == 2 * (column - 1) * (2 * radius
        + 1) - (column - 1) * column + 2 * (2 * radius + 1 - column)) by (nonlinear_arith);
    let k = radius + 1;
    if column == 1 {
        assert(twice_west(radius, 1) == 2 * k * (radius + 1) + k * (k - 1));
        assert(2 * 1int * (2 * radius + 1) - 1int * 2int == 2 * (2 * radius + 1 - 1));
    }
}

proof fn lemma_west_size(center: Axial, radius: int, column: int)
    requires
        has_room(center, radius),
        -radius <= column <= radius + 1,
    ensures
        disc_west(center, radius, column).finite(),
        2 * disc_west(center, radius, column).len() == twice_west(radius, column),
    decreases column + radius,
{
    if column == -radius {
        assert(disc_west(center, radius, column) =~= Set::<Axial>::empty());
        assert(twice_west(radius, column) == 0) by {
            assert(2 * 0int * (radius + 1) + 0int * (0int - 1) == 0) by (nonlinear_arith);
        }
    } else {
        let before = column - 1;
        lemma_west_size(center, radius, before);
        lemma_twice_west(radius, before);
        let line = lemma_column(center, radius, before);
        let west = disc_west(center, radius, before);
        line.unique_seq_to_set();
        vstd::seq_lib::seq_to_set_is_finite(line);
        assert(west.disjoint(line.to_set())) by {
            assert forall|c: Axial| !(west.contains(c) && line.to_set().contains(c)) by {
                assert(line.to_set().contains(c) == line.contains(c));
            }
        }
        vstd::set_lib::lemma_set_disjoint_lens(west, line.to_set());
        assert forall|c: Axial| disc_west(center, radius, column).contains(c) <==> (west
            + line.to_set()).contains(c) by {
            assert(line.to_set().contains(c) == line.contains(c));
        }
        assert(disc_west(center, radius, column) =~= west + line.to_set());
    }
}

/// A disc has as many coordinates as the formula for footprints says.
proof fn lemma_disc_size(center: Axial, radius: int)
    requires
        has_room(center, radius),
    ensures
        disc(center, radius).finite(),
        disc(center, radius).len() == footprint_size(radius),
{
    lemma_west_size(center, radius, radius + 1);
    assert(disc(center, radius) =~= disc_west(center, radius, radius + 1));
    let m = radius + 1;
    if radius == 0 {
        assert(twice_west(0, 1) == 2);
    } else {
        assert(2 * m * m + m * radius + 2 * radius * (2 * radius + 1) - radius * (radius + 1) == 2
            * (1 + 3 * radius * (radius + 1))) by (nonlinear_arith)
            requires
                m == radius + 1,
        ;
    }
}

/// Whether a coordinate belongs to the footprint of a start.
spec fn lies_in(s: Seq<Axial>, radius: int, k: int, c: Axial) -> bool {
    0 <= k < s.len() && hex_distance(c, s[k]) <= radius
}

spec fn is_settlement(cell: Cell, owner: u32, is_center: bool) -> bool {
    let force = if is_center {
        70int
    } else {
        35int
    };
    let people = if is_center {
        180int
    } else {
        80int
    };
    &&& cell.capturable
    &&& cell.terrain != TerrainKind::Water
    &&& cell.owner == Some(owner)
    &&& cell.forces.infantry == force
    &&& cell.military_capacity >= force
    &&& cell.civilian_population == people
    &&& cell.civilian_capacity >= people
}

/// Whether the footprints of the starts are settled, and all else is free.
spec fn are_footprints(cells: Map<Axial, Cell>, s: Seq<Axial>, radius: int) -> bool {
    &&& forall|i: int, j: int|
        0 <= i < j < s.len() ==> hex_distance(#[trigger] s[i], #[trigger] s[j]) >= 2 * radius + 1
    &&& forall|k: int, c: Axial| #[trigger]
        lies_in(s, radius, k, c) ==> cells.contains_key(c) && is_settlement(
            cells[c],
            (k + 1) as u32,
            c == s[k],
        )
    &&& forall|c: Axial| #[trigger]
        cells.contains_key(c) && (forall|k: int| !lies_in(s, radius, k, c)) ==> is_free(cells[c])
}

/// A coordinate in the footprint of a start is claimed by it.
proof fn lemma_footprint_is_claimed(s: Seq<Axial>, radius: int, k: int, c: Axial)
    requires
        forall|i: int, j: int|
            0 <= i < j < s.len() ==> hex_distance(#[trigger] s[i], #[trigger] s[j]) >= 2 * radius
                + 1,
        lies_in(s, radius, k, c),
    ensures
        is_claimant(s, radius, c, k),
{
    assert forall|j: int| 0 <= j < s.len() && j != k implies hex_distance(c, #[trigger] s[j])
        > hex_distance(c, s[k]) by {
        law_distance_is_a_metric(s[k], c, s[j]);
        law_distance_is_a_metric(s[k], s[j], c);
        law_distance_is_a_metric(c, s[k], s[j]);
        if j < k {
            assert(hex_distance(s[j], s[k]) >= 2 * radius + 1);
        } else {
            assert(hex_distance(s[k], s[j]) >= 2 * radius + 1);
        }
    }
}

proof fn lemma_footprints(
    isle: Map<Axial, Cell>,
    s: Seq<Axial>,
    short: u16,
)
    requires
        s.len() <= LEGACY_RING_PLAYER_LIMIT,
        forall|i: int, j: int|
            0 <= i < j < s.len() ==> hex_distance(#[trigger] s[i], #[trigger] s[j]) >= 2
                * footprint_radius(short) + 1,
        forall|k: int|
            0 <= k < s.len() ==> has_footprint(isle, #[trigger] s[k], footprint_radius(short)),
        forall|c: Axial| #[trigger] isle.contains_key(c) ==> is_free(isle[c]),
    ensures
        are_footprints(seeded(isle, s, short), s, footprint_radius(short)),
{
    let radius = footprint_radius(short);
    let cells = seeded(isle, s, short);
    assert forall|k: int, c: Axial| #[trigger] lies_in(s, radius, k, c) implies cells.contains_key(
        c,
    ) && is_settlement(cells[c], (k + 1) as u32, c == s[k]) by {
        assert(has_footprint(isle, s[k], radius));
        assert(isle.contains_key(c) && hosts(isle[c], c == s[k]));
        lemma_footprint_is_claimed(s, radius, k, c);
        let j = choose|j: int| is_claimant(s, radius, c, j);
        lemma_claimant_is_unique(s, radius, c, k, j);
        assert(cells[c] == seeded_cell(s, short, c, isle[c]));
        assert(cells[c] == settled(isle[c], (k + 1) as u32, c == s[k]));
    }
    assert forall|c: Axial| #[trigger]
        cells.contains_key(c) && (forall|k: int| !lies_in(s, radius, k, c)) implies is_free(
        cells[c],
    ) by {
        assert forall|k: int| !is_claimant(s, radius, c, k) by {
            assert(!lies_in(s, radius, k, c));
        }
        assert(cells[c] == seeded_cell(s, short, c, isle[c]));
        assert(cells[c] == isle[c]);
    }
}

/// Seeding changes no ground.
proof fn lemma_seeding_keeps_the_ground(isle: Map<Axial, Cell>, s: Seq<Axial>, short: u16, c: Axial)
    requires
        isle.contains_key(c),
    ensures
        ({
            let cell = seeded(isle, s, short)[c];
            &&& seeded(isle, s, short).contains_key(c)
            &&& cell.coordinate == isle[c].coordinate
            &&& cell.terrain == isle[c].terrain
            &&& cell.elevation == isle[c].elevation
        }),
{
    assert(seeded(isle, s, short)[c] == seeded_cell(s, short, c, isle[c]));
}

/// Whether two maps have the same ground.
spec fn same_ground(cells: Map<Axial, Cell>, cells2: Map<Axial, Cell>) -> bool {
    &&& cells.dom() == cells2.dom()
    &&& forall|c: Axial| #[trigger]
        cells.contains_key(c) ==> cells[c].coordinate == cells2[c].coordinate && cells[c].terrain
            == cells2[c].terrain && cells[c].elevation == cells2[c].elevation
}

/// On the same ground the same walks are open.
proof fn lemma_same_walks(
    cells: Map<Axial, Cell>,
    cells2: Map<Axial, Cell>,
    region: Set<Axial>,
    a: Axial,
    b: Axial,
)
    requires
        same_ground(cells, cells2),
        region.subset_of(cells.dom()),
        connected(cells, standard_movement(), region, a, b),
    ensures
        connected(cells2, standard_movement(), region, a, b),
{
    let p = choose|p: Seq<Axial>| #[trigger]
        is_walk(cells, standard_movement(), region, p) && p[0] == a && p.last() == b;
    assert forall|i: int| 0 <= i < p.len() - 1 implies joined(
        cells2,
        standard_movement(),
        #[trigger] p[i],
        p[i + 1],
    ) by {
        assert(joined(cells, standard_movement(), p[i], p[i + 1]));
        assert(region.contains(p[i]) && region.contains(p[i + 1]));
        assert(cells.contains_key(p[i]) && cells.contains_key(p[i + 1]));
    }
    assert(is_walk(cells2, standard_movement(), region, p));
}

/// What is one part stays one part on the same ground.
proof fn lemma_same_part(cells: Map<Axial, Cell>, cells2: Map<Axial, Cell>, region: Set<Axial>)
    requires
        same_ground(cells, cells2),
        is_one_part(cells, region),
    ensures
        is_one_part(cells2, region),
{
    let open = eligible(cells, region);
    assert(cells2.dom() == cells.dom());
    assert forall|c: Axial| open.contains(c) <==> eligible(cells2, region).contains(c) by {
        assert(cells.dom().contains(c) == cells2.dom().contains(c));
    }
    assert(open =~= eligible(cells2, region));
    let list = choose|list: Seq<Seq<Axial>>| #[trigger]
        is_component_list(cells, standard_movement(), open, list) && list.len() == 1;
    assert forall|i: int, a: Axial, b: Axial|
        0 <= i < list.len() && #[trigger] list[i].contains(a) && #[trigger] open.contains(b)
            implies (list[i].contains(b) <==> connected(
        cells2,
        standard_movement(),
        open,
        a,
        b,
    )) by {
        if connected(cells, standard_movement(), open, a, b) {
            lemma_same_walks(cells, cells2, open, a, b);
        }
        if connected(cells2, standard_movement(), open, a, b) {
            assert(same_ground(cells2, cells)) by {
                assert forall|c: Axial| #[trigger] cells2.contains_key(c) implies
                    cells2[c].coordinate == cells[c].coordinate && cells2[c].terrain
                    == cells[c].terrain && cells2[c].elevation == cells[c].elevation by {
                    assert(cells.dom().contains(c));
                    assert(cells.contains_key(c));
                }
            }
            lemma_same_walks(cells2, cells, open, a, b);
        }
    }
    assert(is_component_list(cells2, standard_movement(), open, list));
}

/// What the soldiers and civilians of a footprint come to.
proof fn lemma_footprint_sums(cells: Map<Axial, Cell>, s: Seq<Axial>, center: Axial)
    requires
        s.no_duplicates(),
        forall|k: int|
            0 <= k < s.len() ==> cells[#[trigger] s[k]].forces.infantry == (if s[k] == center {
                70int
            } else {
                35int
            }),
        forall|k: int|
            0 <= k < s.len() ==> cells[#[trigger] s[k]].civilian_population == (if s[k] == center {
                180int
            } else {
                80int
            }),
    ensures
        soldiers(cells, s) == 35 * s.len() + (if s.contains(center) {
            35int
        } else {
            0
        }),
        civilians(cells, s) == 80 * s.len() + (if s.contains(center) {
            100int
        } else {
            0
        }),
    decreases s.len(),
{
    if s.len() > 0 {
        let rest = s.drop_last();
        assert(rest.push(s.last()) =~= s);
        assert(!rest.contains(s.last()));
        assert forall|k: int| 0 <= k < rest.len() implies rest[k] == s[k] by {}
        lemma_footprint_sums(cells, rest, center);
        crate::axials::lemma_contains_push(rest, s.last(), center);
    }
}

/// What a player starts with where starts have footprints.
spec fn footprint_endowment(radius: int) -> (int, int, int, int) {
    (
        footprint_size(radius),
        35 * footprint_size(radius) + 35,
        80 * footprint_size(radius) + 100,
        0int,
    )
}

proof fn lemma_footprint_estate(g: GeneratedMap, s: Seq<Axial>, radius: int, k: int)
    requires
        are_footprints(g.cells@, s, radius),
        0 <= k < s.len() <= 500,
        has_room(s[k], radius),
    ensures
        estate(g.cells@, (k + 1) as u32).to_set() == disc(s[k], radius),
        estate(g.cells@, (k + 1) as u32).len() == footprint_size(radius),
        endowment(g.cells@, (k + 1) as u32, false) == footprint_endowment(radius),
{
    let cells = g.cells@;
    let owner = (k + 1) as u32;
    let c = s[k];
    lemma_estate(g, owner);
    lemma_disc_size(c, radius);
    let owned = estate(cells, owner);
    assert forall|d: Axial| owned.to_set().contains(d) <==> disc(c, radius).contains(d) by {
        if owned.contains(d) {
            assert(cells.contains_key(d));
            if forall|j: int| !lies_in(s, radius, j, d) {
                assert(is_free(cells[d]));
            } else {
                let j = choose|j: int| lies_in(s, radius, j, d);
                assert(is_settlement(cells[d], (j + 1) as u32, d == s[j]));
            }
        }
        if disc(c, radius).contains(d) {
            assert(lies_in(s, radius, k, d));
        }
    }
    assert(owned.to_set() =~= disc(c, radius));
    owned.unique_seq_to_set();
    assert forall|j: int| 0 <= j < owned.len() implies is_settlement(
        cells[#[trigger] owned[j]],
        owner,
        owned[j] == c,
    ) by {
        assert(owned.to_set().contains(owned[j]));
        assert(lies_in(s, radius, k, owned[j]));
    }
    lemma_footprint_sums(cells, owned, c);
    lemma_same_place(c, c);
    assert(disc(c, radius).contains(c));
    assert(owned.to_set().contains(c));
}

proof fn lemma_footprints_are_stated(g: GeneratedMap, radius: int)
    requires
        g.manifest.spawn_cells@.len() == g.manifest.player_count,
        are_footprints(g.cells@, g.manifest.spawn_cells@, radius),
    ensures
        is_stated(g),
{
    let s = g.manifest.spawn_cells@;
    assert forall|c: Axial| #[trigger] g.cells@.contains_key(c) implies state_fault(
        g.cells@[c],
        g.manifest.player_count,
    ) is None by {
        if forall|k: int| !lies_in(s, radius, k, c) {
            assert(is_free(g.cells@[c]));
        } else {
            let k = choose|k: int| lies_in(s, radius, k, c);
            assert(is_settlement(g.cells@[c], (k + 1) as u32, c == s[k]));
        }
    }
}

proof fn lemma_footprint_start(g: GeneratedMap, k: int)
    requires
        g.manifest.player_count <= LEGACY_RING_PLAYER_LIMIT,
        g.manifest.spawn_cells@.len() <= 500,
        0 <= k < g.manifest.spawn_cells@.len(),
        are_footprints(g.cells@, g.manifest.spawn_cells@, start_radius(g.manifest)),
        forall|i: int|
            0 <= i < g.manifest.spawn_cells@.len() ==> has_room(
                #[trigger] g.manifest.spawn_cells@[i],
                start_radius(g.manifest),
            ),
        forall|j: int|
            0 <= j < k ==> hex_distance(
                #[trigger] g.manifest.spawn_cells@[j],
                g.manifest.spawn_cells@[k],
            ) >= start_spacing(g.manifest),
        is_one_part(g.cells@, disc(g.manifest.spawn_cells@[k], start_radius(g.manifest))),
    ensures
        start_fault(g, k) is None,
{
    let s = g.manifest.spawn_cells@;
    let cells = g.cells@;
    let radius = start_radius(g.manifest);
    let c = s[k];
    lemma_footprint_estate(g, s, radius, k);
    if k > 0 {
        lemma_footprint_estate(g, s, radius, k - 1);
    }
    lemma_same_place(c, c);
    assert(lies_in(s, radius, k, c));
    let owned = estate(cells, (k + 1) as u32);
    assert forall|j: int| 0 <= j < owned.len() implies hex_distance(#[trigger] owned[j], c)
        <= radius by {
        assert(owned.to_set().contains(owned[j]));
    }
    assert forall|d: Axial| hex_distance(d, c) <= radius implies #[trigger] cells.contains_key(d)
        && hosts(cells[d], d == c) by {
        assert(lies_in(s, radius, k, d));
    }
    assert(has_footprint(cells, c, radius));
}

/// Whether places keep their distance, and each has a connected footprint of land
/// that can take its first soldiers.
pub open spec fn are_sites(
    cells: Map<Axial, Cell>,
    s: Seq<Axial>,
    radius: int,
    spacing: int,
) -> bool {
    forall|k: int| 0 <= k < s.len() ==> is_site(cells, s.take(k), radius, spacing, #[trigger] s[k])
}

/// Whether the starts of a map have room on its island.
pub open spec fn starts_have_room(g: GeneratedMap, width: u16, height: u16, seed: u64) -> bool {
    are_sites(
        island(width, height, seed),
        g.manifest.spawn_cells@,
        start_radius(g.manifest),
        start_spacing(g.manifest),
    )
}

/// A map for up to eight players whose starts have room on its island is in a
/// proper state, and its starts are fair: every player owns the cells around
/// their start, as many as everyone else, with the same soldiers and civilians.
#[verifier::rlimit(30)]
pub proof fn law_starts_with_room_are_fair(
    g: GeneratedMap,
    width: u16,
    height: u16,
    seed: u64,
    players: u16,
    i: int,
)
    requires
        refusal(width, height, players) is None,
        players <= LEGACY_RING_PLAYER_LIMIT,
        is_generated(g, width, height, seed, players),
        starts_have_room(g, width, height, seed),
        0 <= i < players,
    ensures
        is_stated(g),
        has_fair_starts(g),
        estate(g.cells@, (i + 1) as u32).to_set() == disc(
            g.manifest.spawn_cells@[i],
            start_radius(g.manifest),
        ),
        endowment(g.cells@, (i + 1) as u32, false) == ({
            let n = footprint_size(start_radius(g.manifest));
            (n, 35 * n + 35, 80 * n + 100, 0int)
        }),
{
    let isle = island(width, height, seed);
    let s = g.manifest.spawn_cells@;
    let short = short_side(width, height);
    let radius = footprint_radius(short);
    assert(start_radius(g.manifest) == radius);
    lemma_sites(isle, s, radius, start_spacing(g.manifest));
    assert forall|c: Axial| #[trigger] isle.contains_key(c) implies is_free(isle[c]) by {
        lemma_island_cell(width, height, seed, c);
    }
    lemma_footprints(isle, s, short);
    assert(are_footprints(g.cells@, s, radius));
    lemma_footprints_are_stated(g, radius);
    assert forall|k: int| 0 <= k < s.len() implies has_room(#[trigger] s[k], radius) by {
        assert(has_footprint(isle, s[k], radius));
        lemma_same_place(s[k], s[k]);
        assert(isle.contains_key(s[k]));
    }
    lemma_same_ground(isle, s, short);
    assert forall|k: int| 0 <= k < s.len() implies #[trigger] start_fault(g, k) is None by {
        lemma_site_start(g, isle, k);
    }
    assert forall|a: int, b: int| 0 <= a < b < s.len() implies s[a] != s[b] by {
        lemma_same_place(s[a], s[b]);
    }
    assert(has_room(s[i], radius));
    lemma_footprint_estate(g, s, radius, i);
}

/// A map for three to eight players is in a proper state, and its starts are
/// fair: every player owns the cells around their start, as many as everyone
/// else, with the same soldiers and civilians.
pub proof fn law_ring_starts_are_fair(
    g: GeneratedMap,
    width: u16,
    height: u16,
    seed: u64,
    players: u16,
    i: int,
)
    requires
        refusal(width, height, players) is None,
        2 < players <= LEGACY_RING_PLAYER_LIMIT,
        is_generated(g, width, height, seed, players),
        0 <= i < players,
    ensures
        is_stated(g),
        has_fair_starts(g),
        estate(g.cells@, (i + 1) as u32).to_set() == disc(
            g.manifest.spawn_cells@[i],
            start_radius(g.manifest),
        ),
        endowment(g.cells@, (i + 1) as u32, false) == ({
            let n = footprint_size(start_radius(g.manifest));
            (n, 35 * n + 35, 80 * n + 100, 0int)
        }),
{
    lemma_ring_sites(
        island(width, height, seed),
        width,
        height,
        players,
        g.manifest.spawn_cells@,
    );
    law_starts_with_room_are_fair(g, width, height, seed, players, i);
}

/// Starts on the ring keep their distance and have room for their footprints.
proof fn lemma_ring_sites(
    isle: Map<Axial, Cell>,
    width: u16,
    height: u16,
    players: u16,
    s: Seq<Axial>,
)
    requires
        is_ring_start(isle, width, height, players, s),
    ensures
        ({
            let short = short_side(width, height);
            are_sites(isle, s, footprint_radius(short), required_spacing(short, players))
        }),
{
}

proof fn lemma_sites(isle: Map<Axial, Cell>, s: Seq<Axial>, radius: int, spacing: int)
    requires
        are_sites(isle, s, radius, spacing),
    ensures
        forall|i: int, j: int|
            0 <= i < j < s.len() ==> hex_distance(#[trigger] s[i], #[trigger] s[j]) >= spacing,
        forall|k: int|
            0 <= k < s.len() ==> has_footprint(isle, #[trigger] s[k], radius) && is_one_part(
                isle,
                ball(isle, s[k], radius),
            ),
{
    assert forall|i: int, j: int| 0 <= i < j < s.len() implies hex_distance(
        #[trigger] s[i],
        #[trigger] s[j],
    ) >= spacing by {
        assert(is_site(isle, s.take(j), radius, spacing, s[j]));
        assert(s.take(j)[i] == s[i]);
    }
}

proof fn lemma_site_start(g: GeneratedMap, isle: Map<Axial, Cell>, k: int)
    requires
        g.manifest.player_count <= LEGACY_RING_PLAYER_LIMIT,
        g.manifest.spawn_cells@.len() == g.manifest.player_count,
        0 <= k < g.manifest.player_count,
        are_sites(
            isle,
            g.manifest.spawn_cells@,
            start_radius(g.manifest),
            start_spacing(g.manifest),
        ),
        same_ground(isle, g.cells@),
        are_footprints(g.cells@, g.manifest.spawn_cells@, start_radius(g.manifest)),
        forall|i: int|
            0 <= i < g.manifest.spawn_cells@.len() ==> has_room(
                #[trigger] g.manifest.spawn_cells@[i],
                start_radius(g.manifest),
            ),
    ensures
        start_fault(g, k) is None,
{
    let s = g.manifest.spawn_cells@;
    let radius = start_radius(g.manifest);
    lemma_sites(isle, s, radius, start_spacing(g.manifest));
    assert(has_footprint(isle, s[k], radius));
    assert(ball(isle, s[k], radius) =~= disc(s[k], radius)) by {
        assert forall|c: Axial| disc(s[k], radius).contains(c) implies isle.contains_key(c) by {}
    }
    lemma_same_part(isle, g.cells@, disc(s[k], radius));
    lemma_footprint_start(g, k);
}

/// Seeding up to eight players keeps what a cell can host.
proof fn lemma_seeding_keeps_hosts(isle: Map<Axial, Cell>, s: Seq<Axial>, short: u16, c: Axial)
    requires
        isle.contains_key(c),
        s.len() <= LEGACY_RING_PLAYER_LIMIT,
    ensures
        forall|is_center: bool| #[trigger]
            hosts(seeded(isle, s, short)[c], is_center) == hosts(isle[c], is_center),
{
    assert(seeded(isle, s, short)[c] == seeded_cell(s, short, c, isle[c]));
}

/// Whether a start keeps its distance, and has a connected footprint that can take
/// its first soldiers.
#[verifier::opaque]
spec fn is_proper_start(g: GeneratedMap, k: int) -> bool {
    &&& has_footprint(g.cells@, g.manifest.spawn_cells@[k], start_radius(g.manifest))
    &&& is_one_part(g.cells@, estate(g.cells@, (k + 1) as u32).to_set())
    &&& forall|j: int|
        0 <= j < k ==> hex_distance(
            #[trigger] g.manifest.spawn_cells@[j],
            g.manifest.spawn_cells@[k],
        ) >= start_spacing(g.manifest)
}

/// A start that nothing is wrong with is proper.
proof fn lemma_proper_start(g: GeneratedMap, k: int)
    requires
        g.manifest.player_count <= LEGACY_RING_PLAYER_LIMIT,
        start_fault(g, k) is None,
    ensures
        is_proper_start(g, k),
{
    reveal(is_proper_start);
}

/// A footprint on a seeded island is one on the bare island.
proof fn lemma_footprint_on_island(
    isle: Map<Axial, Cell>,
    s: Seq<Axial>,
    short: u16,
    center: Axial,
    radius: int,
)
    requires
        s.len() <= LEGACY_RING_PLAYER_LIMIT,
        has_footprint(seeded(isle, s, short), center, radius),
    ensures
        has_footprint(isle, center, radius),
{
    let cells = seeded(isle, s, short);
    assert forall|c: Axial| hex_distance(c, center) <= radius implies #[trigger] isle.contains_key(
        c,
    ) && hosts(isle[c], c == center) by {
        assert(cells.contains_key(c) && hosts(cells[c], c == center));
        lemma_seeding_keeps_hosts(isle, s, short, c);
    }
}

/// A start with a connected footprint on a seeded island is a site of the island.
proof fn lemma_part_on_island(
    g: GeneratedMap,
    isle: Map<Axial, Cell>,
    s: Seq<Axial>,
    radius: int,
    k: int,
)
    requires
        0 <= k < s.len() <= 500,
        same_ground(g.cells@, isle),
        are_footprints(g.cells@, s, radius),
        has_footprint(isle, s[k], radius),
        has_room(s[k], radius),
        is_one_part(g.cells@, estate(g.cells@, (k + 1) as u32).to_set()),
    ensures
        is_one_part(isle, ball(isle, s[k], radius)),
{
    lemma_footprint_estate(g, s, radius, k);
    lemma_same_part(g.cells@, isle, disc(s[k], radius));
    assert(ball(isle, s[k], radius) =~= disc(s[k], radius)) by {
        assert forall|c: Axial| disc(s[k], radius).contains(c) implies isle.contains_key(c) by {}
    }
}

/// Seeding keeps the ground of an island.
proof fn lemma_same_ground(isle: Map<Axial, Cell>, s: Seq<Axial>, short: u16)
    ensures
        same_ground(isle, seeded(isle, s, short)),
        same_ground(seeded(isle, s, short), isle),
{
    let cells = seeded(isle, s, short);
    assert(isle.dom() =~= cells.dom());
    assert forall|c: Axial| #[trigger] isle.contains_key(c) implies isle[c].coordinate
        == cells[c].coordinate && isle[c].terrain == cells[c].terrain && isle[c].elevation
        == cells[c].elevation by {
        lemma_seeding_keeps_the_ground(isle, s, short, c);
    }
    assert forall|c: Axial| #[trigger] cells.contains_key(c) implies isle.contains_key(c) by {}
}

/// Proper starts on a seeded island are sites of the bare island.
#[verifier::rlimit(30)]
proof fn lemma_proper_sites(g: GeneratedMap, isle: Map<Axial, Cell>, short: u16)
    requires
        g.manifest.spawn_cells@.len() <= LEGACY_RING_PLAYER_LIMIT,
        g.cells@ == seeded(isle, g.manifest.spawn_cells@, short),
        start_radius(g.manifest) == footprint_radius(short),
        start_spacing(g.manifest) >= 2 * footprint_radius(short) + 1,
        forall|k: int|
            0 <= k < g.manifest.spawn_cells@.len() ==> #[trigger] is_proper_start(g, k),
        forall|c: Axial| #[trigger]
            isle.contains_key(c) ==> is_free(isle[c]) && has_room(c, footprint_radius(short)),
    ensures
        are_sites(
            isle,
            g.manifest.spawn_cells@,
            start_radius(g.manifest),
            start_spacing(g.manifest),
        ),
{
    let s = g.manifest.spawn_cells@;
    let radius = footprint_radius(short);
    let spacing = start_spacing(g.manifest);
    assert forall|i: int, j: int| 0 <= i < j < s.len() implies hex_distance(
        #[trigger] s[i],
        #[trigger] s[j],
    ) >= spacing by {
        assert(is_proper_start(g, j));
        reveal(is_proper_start);
    }
    assert forall|k: int| 0 <= k < s.len() implies has_footprint(isle, #[trigger] s[k], radius)
        && is_one_part(g.cells@, estate(g.cells@, (k + 1) as u32).to_set()) by {
        assert(is_proper_start(g, k));
        reveal(is_proper_start);
        lemma_footprint_on_island(isle, s, short, s[k], radius);
    }
    lemma_footprints(isle, s, short);
    lemma_same_ground(isle, s, short);
    assert forall|k: int| 0 <= k < s.len() implies is_site(
        isle,
        s.take(k),
        radius,
        spacing,
        #[trigger] s[k],
    ) by {
        assert(has_footprint(isle, s[k], radius));
        lemma_same_place(s[k], s[k]);
        assert(isle.contains_key(s[k]));
        lemma_part_on_island(g, isle, s, radius, k);
    }
}

/// Where the starts of up to eight players are fair, they have room on the island:
/// only such starts are.
#[verifier::rlimit(30)]
pub proof fn law_fair_starts_have_room(
    g: GeneratedMap,
    width: u16,
    height: u16,
    seed: u64,
    players: u16,
)
    requires
        refusal(width, height, players) is None,
        players <= LEGACY_RING_PLAYER_LIMIT,
        is_generated(g, width, height, seed, players),
        has_fair_starts(g),
    ensures
        starts_have_room(g, width, height, seed),
{
    let isle = island(width, height, seed);
    assert forall|k: int| 0 <= k < g.manifest.spawn_cells@.len() implies #[trigger] is_proper_start(
        g,
        k,
    ) by {
        assert(start_fault(g, k) is None);
        lemma_proper_start(g, k);
    }
    assert forall|c: Axial| #[trigger] isle.contains_key(c) implies is_free(isle[c]) && has_room(
        c,
        footprint_radius(short_side(width, height)),
    ) by {
        lemma_island_cell(width, height, seed, c);
    }
    lemma_proper_sites(g, isle, short_side(width, height));
}

/// Some cell of a kind is counted.
proof fn lemma_some_are_counted(
    cells: Map<Axial, Cell>,
    keys: Seq<Axial>,
    holds: spec_fn(Cell) -> bool,
    c: Axial,
)
    requires
        keys.contains(c),
        holds(cells[c]),
    ensures
        count_where(cells, keys, holds) > 0,
    decreases keys.len(),
{
    if keys.last() != c {
        let i = choose|i: int| 0 <= i < keys.len() && keys[i] == c;
        assert(keys.drop_last()[i] == c);
        lemma_some_are_counted(cells, keys.drop_last(), holds, c);
    }
}

/// A map is valid exactly where its capturable land is of one piece and its ground
/// has slopes and cliffs, and, with two players, their starts have room on its
/// island: all else that makes a map valid holds of every generated one.
pub proof fn law_generated_maps_are_valid(
    g: GeneratedMap,
    width: u16,
    height: u16,
    seed: u64,
    players: u16,
)
    requires
        refusal(width, height, players) is None,
        is_generated(g, width, height, seed, players),
    ensures
        is_valid(g) <==> {
            let keys = ordered(g.cells@.dom());
            &&& is_one_part(g.cells@, capturable_in(g.cells@))
            &&& step_count(g.cells@, keys, is_slope()) > 0
            &&& step_count(g.cells@, keys, is_cliff()) > 0
            &&& players > 2 || starts_have_room(g, width, height, seed)
        },
{
    if players > 2 || starts_have_room(g, width, height, seed) {
        lemma_validity(g, width, height, seed, players);
    } else if is_valid(g) {
        law_fair_starts_have_room(g, width, height, seed, players);
    }
}

proof fn lemma_validity(g: GeneratedMap, width: u16, height: u16, seed: u64, players: u16)
    requires
        refusal(width, height, players) is None,
        is_generated(g, width, height, seed, players),
        players > 2 || starts_have_room(g, width, height, seed),
    ensures
        is_valid(g) <==> {
            let keys = ordered(g.cells@.dom());
            &&& is_one_part(g.cells@, capturable_in(g.cells@))
            &&& step_count(g.cells@, keys, is_slope()) > 0
            &&& step_count(g.cells@, keys, is_cliff()) > 0
        },
{
    law_generated_maps_match_their_manifest(g, width, height, seed, players);
    if players > LEGACY_RING_PLAYER_LIMIT {
        law_one_cell_starts_are_fair(g, width, height, seed, players, 0);
    } else if players > 2 {
        law_ring_starts_are_fair(g, width, height, seed, players, 0);
    } else {
        law_starts_with_room_are_fair(g, width, height, seed, players, 0);
    }
    assert(start_fault(g, 0) is None);
    g.cells.lemma_finite();
    let keys = ordered(g.cells@.dom());
    let c = g.manifest.spawn_cells@[0];
    assert(keys.to_set().contains(c));
    lemma_some_are_counted(g.cells@, keys, is_capturable(), c);
}

} // verus!
