//! The ground of a generated map: one stepped island in a rectangle of water.
use vstd::prelude::*;
use crate::axials::AxialSet;
use crate::connectivity::{
    connected_components, contents, eligible, is_component_list, law_component_list_is_unique,
};
use crate::coord::{hex_distance, Axial};
use crate::map::{Cell, ForceComposition, HexMap, MovementConfig, TerrainKind};
use crate::noise::{mix, mixed, quotient, toward_zero};

verus! {

/// The first column or row of a map with the given width or height.
pub open spec fn first_of(size: u16) -> int {
    -(size as int / 2)
}

/// Whether a coordinate lies in the rectangle of a map.
pub open spec fn in_bounds(width: u16, height: u16, c: Axial) -> bool {
    &&& first_of(width) <= c.q < first_of(width) + width
    &&& first_of(height) <= c.r < first_of(height) + height
}

/// A column or row, measured from the middle of the map in 1024ths of its half.
pub open spec fn offset_from_middle(i: int, size: u16) -> int {
    (i * 2 + 1) * 1_024 / size as int - 1_024
}

/// Whether a place rises out of the water: it lies within a skewed circle with a
/// noisy rim.
pub open spec fn is_land(column: int, row: int, width: u16, height: u16, seed: u64) -> bool {
    let x = offset_from_middle(column, width);
    let y = offset_from_middle(row, height);
    let noise = mixed(seed, (column / 4) as i32, (row / 4) as i32) as int % 161 - 80;
    x * x + y * y + toward_zero(x * y, 3) <= 790_000 + noise * 1_100
}

/// Whether a coordinate rises out of the water.
pub open spec fn is_land_at(width: u16, height: u16, seed: u64, c: Axial) -> bool {
    is_land(c.q - first_of(width), c.r - first_of(height), width, height, seed)
}

/// Bare ground.
pub open spec fn bare_ground(c: Axial) -> Cell {
    Cell {
        coordinate: c,
        terrain: TerrainKind::Plains,
        elevation: 1,
        capturable: true,
        habitable: true,
        owner: None,
        military_capacity: 100,
        forces: ForceComposition { infantry: 0 },
        civilian_population: 0,
        civilian_capacity: 0,
    }
}

/// Open water.
pub open spec fn open_water(c: Axial) -> Cell {
    Cell {
        coordinate: c,
        terrain: TerrainKind::Water,
        elevation: 0,
        capturable: false,
        habitable: false,
        owner: None,
        military_capacity: 0,
        forces: ForceComposition { infantry: 0 },
        civilian_population: 0,
        civilian_capacity: 0,
    }
}

/// The rectangle with everything that rises out of the water.
pub open spec fn raised(width: u16, height: u16, seed: u64) -> Map<Axial, Cell> {
    Map::new(
        |c: Axial| in_bounds(width, height, c),
        |c: Axial|
            if is_land_at(width, height, seed, c) {
                bare_ground(c)
            } else {
                open_water(c)
            },
    )
}

/// The coordinates that rise out of the water.
pub open spec fn raised_land(width: u16, height: u16, seed: u64) -> Set<Axial> {
    Set::new(|c: Axial| in_bounds(width, height, c) && is_land_at(width, height, seed, c))
}

/// The first of the longest sequences of a list.
pub open spec fn is_first_longest(list: Seq<Seq<Axial>>, k: int) -> bool {
    &&& 0 <= k < list.len()
    &&& forall|i: int| 0 <= i < list.len() ==> (#[trigger] list[i]).len() <= list[k].len()
    &&& forall|i: int| 0 <= i < k ==> (#[trigger] list[i]).len() < list[k].len()
}

/// The standard rules of movement.
pub open spec fn standard_movement() -> MovementConfig {
    MovementConfig { max_elevation_step: 1, level_cost: 10, uphill_cost: 15, downhill_cost: 10 }
}

/// The elements of the first of the longest sequences of a list; none of an
/// empty list.
pub open spec fn is_longest_part(list: Seq<Seq<Axial>>, part: Set<Axial>) -> bool {
    if list.len() == 0 {
        part == Set::<Axial>::empty()
    } else {
        exists|k: int| #[trigger] is_first_longest(list, k) && part == list[k].to_set()
    }
}

/// The largest ground-connected part of a region; of equally large ones the one
/// with the least coordinate. Of nothing, nothing.
pub open spec fn is_largest_part(
    cells: Map<Axial, Cell>,
    region: Set<Axial>,
    part: Set<Axial>,
) -> bool {
    exists|list: Seq<Seq<Axial>>| #[trigger]
        is_component_list(cells, standard_movement(), region, list) && is_longest_part(list, part)
}

/// The island that is kept.
pub open spec fn landmass(width: u16, height: u16, seed: u64) -> Set<Axial> {
    choose|part: Set<Axial>|
        is_largest_part(
            raised(width, height, seed),
            eligible(raised(width, height, seed), raised_land(width, height, seed)),
            part,
        )
}

proof fn lemma_largest_part_is_unique(
    cells: Map<Axial, Cell>,
    region: Set<Axial>,
    a: Set<Axial>,
    b: Set<Axial>,
)
    requires
        is_largest_part(cells, region, a),
        is_largest_part(cells, region, b),
    ensures
        a == b,
{
    let s = choose|list: Seq<Seq<Axial>>| #[trigger]
        is_component_list(cells, standard_movement(), region, list) && is_longest_part(list, a);
    let t = choose|list: Seq<Seq<Axial>>| #[trigger]
        is_component_list(cells, standard_movement(), region, list) && is_longest_part(list, b);
    law_component_list_is_unique(cells, standard_movement(), region, s, t);
    if s.len() > 0 {
        let j = choose|k: int| #[trigger] is_first_longest(s, k) && a == s[k].to_set();
        let k = choose|k: int| #[trigger] is_first_longest(t, k) && b == t[k].to_set();
        assert(s[j].len() <= t[k].len());
        assert(t[k].len() <= s[j].len());
        if j < k {
            assert(t[j].len() < t[k].len());
        }
        if k < j {
            assert(s[k].len() < s[j].len());
        }
    }
}

/// The larger of two numbers.
pub open spec fn larger(a: int, b: int) -> int {
    if a >= b {
        a
    } else {
        b
    }
}

/// The smaller dimension.
pub open spec fn short_side(width: u16, height: u16) -> u16 {
    if width <= height {
        width
    } else {
        height
    }
}

/// A coordinate at a fraction of the width and another of the height.
pub open spec fn landmark(
    width: u16,
    height: u16,
    a: int,
    b: int,
    c: int,
    d: int,
) -> Axial {
    Axial {
        q: (first_of(width) + width * a / b) as i32,
        r: (first_of(height) + height * c / d) as i32,
    }
}

/// The elevation that a hill gives a coordinate.
pub open spec fn hill_height(hill: Axial, radius: int, c: Axial) -> int {
    let distance = hex_distance(c, hill);
    if distance < radius {
        1 + (radius - distance) * 3 / radius
    } else {
        1
    }
}

/// The stepped elevation of a ground coordinate: two hills, a steep mesa with a
/// skirt of low ground, and scattered rises.
pub open spec fn elevation_at(width: u16, height: u16, seed: u64, c: Axial) -> int {
    let short = short_side(width, height) as int;
    let hill_radius = larger(short / 5, 5);
    let hills = larger(
        hill_height(landmark(width, height, 2, 5, 2, 5), hill_radius, c),
        hill_height(landmark(width, height, 2, 3, 3, 5), hill_radius, c),
    );
    let distance = mesa_distance(width, height, c);
    let radius = mesa_radius(width, height);
    let base = if distance <= radius {
        5
    } else if distance == radius + 1 && hills > 2 {
        2
    } else {
        hills
    };
    if mixed(seed ^ 0xE1E7_A710, c.q, c.r) % 11 == 0 && base == 1 {
        2
    } else {
        base
    }
}

/// How far a coordinate lies from the middle of the mesa.
pub open spec fn mesa_distance(width: u16, height: u16, c: Axial) -> int {
    hex_distance(c, landmark(width, height, 9, 16, 5, 14))
}

/// How far the mesa reaches.
pub open spec fn mesa_radius(width: u16, height: u16) -> int {
    larger(short_side(width, height) as int / 16, 2)
}

/// What stands on a height.
pub open spec fn terrain_of(elevation: int) -> TerrainKind {
    if elevation <= 1 {
        TerrainKind::Plains
    } else if elevation <= 3 {
        TerrainKind::Hills
    } else {
        TerrainKind::Mountain
    }
}

/// How many soldiers a terrain holds.
pub open spec fn capacity_of(terrain: TerrainKind) -> u64 {
    match terrain {
        TerrainKind::Plains => 100,
        TerrainKind::Hills => 80,
        TerrainKind::Mountain => 60,
        TerrainKind::Water => 0,
    }
}

/// A cell of the finished island. Nobody can take or settle the mesa.
pub open spec fn ground_cell(width: u16, height: u16, seed: u64, c: Axial) -> Cell {
    let elevation = elevation_at(width, height, seed, c);
    let open = mesa_distance(width, height, c) > mesa_radius(width, height);
    Cell {
        coordinate: c,
        terrain: terrain_of(elevation),
        elevation: elevation as i16,
        capturable: open,
        habitable: open,
        owner: None,
        military_capacity: capacity_of(terrain_of(elevation)),
        forces: ForceComposition { infantry: 0 },
        civilian_population: 0,
        civilian_capacity: if open {
            100
        } else {
            0
        },
    }
}

/// The finished island in its rectangle of water.
pub open spec fn island(width: u16, height: u16, seed: u64) -> Map<Axial, Cell> {
    Map::new(
        |c: Axial| in_bounds(width, height, c),
        |c: Axial|
            if landmass(width, height, seed).contains(c) {
                ground_cell(width, height, seed, c)
            } else {
                open_water(c)
            },
    )
}

/// The product of two offsets, in the bounds that their sizes give.
pub proof fn lemma_offset(i: int, size: u16)
    requires
        0 <= i < size,
    ensures
        -1_024 <= offset_from_middle(i, size) <= 1_024,
        0 <= (i * 2 + 1) * 1_024,
{
    let n = (i * 2 + 1) * 1_024;
    let d = size as int;
    vstd::arithmetic::div_mod::lemma_div_pos_is_pos(n, d);
    assert(n / d <= 2_048) by (nonlinear_arith)
        requires
            0 <= n <= 2_048 * d,
            d > 0,
    ;
}

fn island_land(column: u16, row: u16, width: u16, height: u16, seed: u64) -> (land: bool)
    requires
        column < width,
        row < height,
    ensures
        land == is_land(column as int, row as int, width, height, seed),
{
    proof {
        lemma_offset(column as int, width);
        lemma_offset(row as int, height);
    }
    let x: i64 = (column as i64 * 2 + 1) * 1_024 / width as i64 - 1_024;
    let y: i64 = (row as i64 * 2 + 1) * 1_024 / height as i64 - 1_024;
    proof {
        assert(-1_048_576 <= x * y <= 1_048_576 && 0 <= x * x <= 1_048_576 && 0 <= y * y
            <= 1_048_576) by (nonlinear_arith)
            requires
                -1_024 <= x <= 1_024,
                -1_024 <= y <= 1_024,
        ;
    }
    let radial: i64 = x * x + y * y + quotient(x * y, 3);
    let coarse_x: i32 = (column / 4) as i32;
    let coarse_y: i32 = (row / 4) as i32;
    let noise: i64 = (mix(seed, coarse_x, coarse_y) % 161) as i64 - 80;
    radial <= 790_000 + noise * 1_100
}

/// Raises the ground; lists what rose in row order.
fn raise(width: u16, height: u16, seed: u64) -> (raised_up: (HexMap, Vec<Axial>))
    ensures
        raised_up.0@ == raised(width, height, seed),
        raised_up.0.overrides().dom() == Set::<crate::coord::HexEdge>::empty(),
        raised_up.1@.to_set() == raised_land(width, height, seed),
{
    let q_min: i32 = -((width / 2) as i32);
    let r_min: i32 = -((height / 2) as i32);
    let mut cells = HexMap::new();
    let mut land: Vec<Axial> = Vec::new();
    let mut row: u16 = 0;
    assert(cells.overrides().dom() =~= Set::<crate::coord::HexEdge>::empty());
    while row < height
        invariant
            row <= height,
            q_min == first_of(width),
            r_min == first_of(height),
            cells.overrides().dom() == Set::<crate::coord::HexEdge>::empty(),
            forall|c: Axial| #[trigger]
                cells@.contains_key(c) <==> in_bounds(width, height, c) && c.r < r_min + row,
            forall|c: Axial| #[trigger]
                cells@.contains_key(c) ==> cells@[c] == raised(width, height, seed)[c],
            forall|c: Axial| #[trigger]
                land@.contains(c) <==> cells@.contains_key(c) && is_land_at(width, height, seed, c),
        decreases height - row,
    {
        let mut column: u16 = 0;
        while column < width
            invariant
                row < height,
                column <= width,
                q_min == first_of(width),
                r_min == first_of(height),
                cells.overrides().dom() == Set::<crate::coord::HexEdge>::empty(),
                forall|c: Axial| #[trigger]
                    cells@.contains_key(c) <==> in_bounds(width, height, c) && (c.r < r_min + row
                        || (c.r == r_min + row && c.q < q_min + column)),
                forall|c: Axial| #[trigger]
                    cells@.contains_key(c) ==> cells@[c] == raised(width, height, seed)[c],
                forall|c: Axial| #[trigger]
                    land@.contains(c) <==> cells@.contains_key(c) && is_land_at(
                        width,
                        height,
                        seed,
                        c,
                    ),
            decreases width - column,
        {
            let coordinate = Axial::new(q_min + column as i32, r_min + row as i32);
            let ghost before = land@;
            assert(in_bounds(width, height, coordinate));
            if island_land(column, row, width, height, seed) {
                cells.insert(Cell::ground(coordinate, 1, None, 100));
                land.push(coordinate);
            } else {
                cells.insert(Cell::water(coordinate, 0));
            }
            proof {
                assert(is_land_at(width, height, seed, coordinate) == is_land(
                    column as int,
                    row as int,
                    width,
                    height,
                    seed,
                ));
                assert forall|c: Axial| #[trigger]
                    land@.contains(c) <==> cells@.contains_key(c) && is_land_at(
                        width,
                        height,
                        seed,
                        c,
                    ) by {
                    if before.contains(c) {
                        let i = choose|i: int| 0 <= i < before.len() && before[i] == c;
                        assert(land@[i] == c);
                    }
                    if land@.len() > before.len() {
                        assert(land@[before.len() as int] == coordinate);
                    }
                    if land@.contains(c) && c != coordinate {
                        let i = choose|i: int| 0 <= i < land@.len() && land@[i] == c;
                        assert(before[i] == c);
                        assert(before.contains(c));
                    }
                }
            }
            column += 1;
        }
        row += 1;
    }
    assert(cells@ =~= raised(width, height, seed));
    assert(land@.to_set() =~= raised_land(width, height, seed));
    (cells, land)
}

/// The coordinates of the largest ground-connected part.
fn largest_part(map: &HexMap, candidates: &[Axial]) -> (part: AxialSet)
    requires
        forall|c: Axial| #[trigger]
            eligible(map@, candidates@.to_set()).contains(c) ==> c.interior(),
    ensures
        is_largest_part(map@, eligible(map@, candidates@.to_set()), part@),
{
    let components = connected_components(map, candidates, &MovementConfig::default());
    let ghost list = contents(components@);
    let ghost region = eligible(map@, candidates@.to_set());
    if components.len() == 0 {
        assert(list.len() == 0);
        let part = AxialSet::new();
        assert(is_component_list(map@, standard_movement(), region, list));
        assert(is_longest_part(list, part@));
        return part;
    }
    let mut best: usize = 0;
    let mut i: usize = 1;
    while i < components.len()
        invariant
            list == contents(components@),
            best < i <= components.len(),
            forall|j: int| 0 <= j < i ==> (#[trigger] list[j]).len() <= list[best as int].len(),
            forall|j: int| 0 <= j < best ==> (#[trigger] list[j]).len() < list[best as int].len(),
        decreases components.len() - i,
    {
        assert(list[i as int] == components@[i as int]@);
        assert(list[best as int] == components@[best as int]@);
        if components[i].len() > components[best].len() {
            best = i;
        }
        i += 1;
    }
    assert(list[best as int] == components@[best as int]@);
    assert(is_component_list(map@, standard_movement(), region, list) && is_first_longest(
        list,
        best as int,
    ));
    let part = AxialSet::from_slice(components[best].as_slice());
    assert(is_longest_part(list, part@));
    part
}

fn larger_of(a: u64, b: u64) -> (c: u64)
    ensures
        c == larger(a as int, b as int),
{
    if a >= b {
        a
    } else {
        b
    }
}

fn landmark_of(width: u16, height: u16, a: u16, b: u16, c: u16, d: u16) -> (at: Axial)
    requires
        0 < b <= 16,
        0 < d <= 16,
        a <= b,
        c <= d,
    ensures
        at == landmark(width, height, a as int, b as int, c as int, d as int),
{
    proof {
        assert(0 <= width * a <= 65_535 * 16) by (nonlinear_arith)
            requires
                0 <= width <= 65_535,
                0 <= a <= 16,
        ;
        assert(0 <= height * c <= 65_535 * 16) by (nonlinear_arith)
            requires
                0 <= height <= 65_535,
                0 <= c <= 16,
        ;
        vstd::arithmetic::div_mod::lemma_div_is_ordered_by_denominator(width * a, 1, b as int);
        vstd::arithmetic::div_mod::lemma_div_is_ordered_by_denominator(height * c, 1, d as int);
        vstd::arithmetic::div_mod::lemma_div_pos_is_pos(width * a, b as int);
        vstd::arithmetic::div_mod::lemma_div_pos_is_pos(height * c, d as int);
    }
    let q: i32 = -((width / 2) as i32) + width as i32 * a as i32 / b as i32;
    let r: i32 = -((height / 2) as i32) + height as i32 * c as i32 / d as i32;
    Axial::new(q, r)
}

fn hill_at(hill: Axial, radius: u64, c: Axial) -> (height: u64)
    requires
        0 < radius <= 65_535,
    ensures
        height == hill_height(hill, radius as int, c),
        1 <= height <= 4,
{
    let distance: u64 = c.distance(hill);
    if distance < radius {
        proof {
            let n = (radius - distance) * 3;
            vstd::arithmetic::div_mod::lemma_div_pos_is_pos(n, radius as int);
            assert(n / (radius as int) <= 3) by (nonlinear_arith)
                requires
                    0 <= n <= 3 * radius,
                    radius > 0,
            ;
        }
        1 + (radius - distance) * 3 / radius
    } else {
        1
    }
}

/// The finished cell of a ground coordinate.
fn shape(width: u16, height: u16, seed: u64, c: Axial) -> (cell: Cell)
    requires
        width > 0,
        height > 0,
    ensures
        cell == ground_cell(width, height, seed, c),
        1 <= elevation_at(width, height, seed, c) <= 5,
{
    let short: u16 = if width <= height {
        width
    } else {
        height
    };
    let hill_radius: u64 = larger_of(short as u64 / 5, 5);
    let mesa_reach: u64 = larger_of(short as u64 / 16, 2);
    let first: u64 = hill_at(landmark_of(width, height, 2, 5, 2, 5), hill_radius, c);
    let second: u64 = hill_at(landmark_of(width, height, 2, 3, 3, 5), hill_radius, c);
    let hills: u64 = larger_of(first, second);
    let away: u64 = c.distance(landmark_of(width, height, 9, 16, 5, 14));
    let open = away > mesa_reach;
    let base: u64 = if !open {
        5
    } else if away == mesa_reach + 1 && hills > 2 {
        2
    } else {
        hills
    };
    let elevation: u64 = if mix(seed ^ 0xE1E7_A710, c.q, c.r) % 11 == 0 && base == 1 {
        2
    } else {
        base
    };
    let terrain = if elevation <= 1 {
        TerrainKind::Plains
    } else if elevation <= 3 {
        TerrainKind::Hills
    } else {
        TerrainKind::Mountain
    };
    let military_capacity: u64 = match terrain {
        TerrainKind::Plains => 100,
        TerrainKind::Hills => 80,
        TerrainKind::Mountain => 60,
        TerrainKind::Water => 0,
    };
    Cell {
        coordinate: c,
        terrain,
        elevation: elevation as i16,
        capturable: open,
        habitable: open,
        owner: None,
        military_capacity,
        forces: ForceComposition { infantry: 0 },
        civilian_population: 0,
        civilian_capacity: if open {
            100
        } else {
            0
        },
    }
}

/// Builds the island.
pub fn build_island(width: u16, height: u16, seed: u64) -> (map: HexMap)
    requires
        width > 0,
        height > 0,
    ensures
        map@ == island(width, height, seed),
        map.overrides().dom() == Set::<crate::coord::HexEdge>::empty(),
{
    let (mut map, land) = raise(width, height, seed);
    let ghost cells = map@;
    let ghost region = eligible(cells, raised_land(width, height, seed));
    let part = largest_part(&map, land.as_slice());
    proof {
        assert(is_largest_part(cells, region, part@));
        lemma_largest_part_is_unique(cells, region, part@, landmass(width, height, seed));
        lemma_part_is_land(cells, region, part@);
    }
    let mut i: usize = 0;
    while i < land.len()
        invariant
            width > 0,
            height > 0,
            i <= land@.len(),
            cells == raised(width, height, seed),
            land@.to_set() == raised_land(width, height, seed),
            part@ == landmass(width, height, seed),
            map.overrides().dom() == Set::<crate::coord::HexEdge>::empty(),
            map@.dom() == cells.dom(),
            forall|j: int|
                0 <= j < i ==> map@[#[trigger] land@[j]] == island(width, height, seed)[land@[j]],
            forall|c: Axial| #[trigger]
                cells.contains_key(c) && !land@.take(i as int).contains(c) ==> map@[c] == cells[c],
        decreases land.len() - i,
    {
        let c = land[i];
        let ghost before = map@;
        assert(land@.to_set().contains(c));
        assert(raised_land(width, height, seed).contains(c));
        if part.contains(c) {
            map.insert(shape(width, height, seed, c));
        } else {
            map.insert(Cell::water(c, 0));
        }
        proof {
            assert(map@.dom() =~= cells.dom());
            assert(map@[c] == island(width, height, seed)[c]);
            assert forall|j: int| 0 <= j < i + 1 implies map@[#[trigger] land@[j]] == island(
                width,
                height,
                seed,
            )[land@[j]] by {
                if land@[j] != c {
                    assert(before[land@[j]] == map@[land@[j]]);
                }
            }
            assert forall|d: Axial| #[trigger]
                cells.contains_key(d) && !land@.take(i + 1).contains(d) implies map@[d]
                == cells[d] by {
                let t = land@.take(i + 1);
                assert(t[i as int] == c);
                assert(d != c);
                if land@.take(i as int).contains(d) {
                    let k = choose|k: int|
                        0 <= k < land@.take(i as int).len() && land@.take(i as int)[k] == d;
                    assert(t[k] == d);
                }
            }
        }
        i += 1;
    }
    proof {
        assert(land@.take(i as int) =~= land@);
        assert forall|c: Axial| in_bounds(width, height, c) implies map@[c] == island(
            width,
            height,
            seed,
        )[c] by {
            assert(cells.contains_key(c));
            if land@.contains(c) {
                let j = choose|j: int| 0 <= j < land@.len() && land@[j] == c;
                assert(map@[land@[j]] == island(width, height, seed)[land@[j]]);
            } else {
                assert(!land@.to_set().contains(c));
                assert(!raised_land(width, height, seed).contains(c));
            }
        }
        assert(map@ =~= island(width, height, seed));
    }
    map
}

/// The largest part of a region lies in it.
pub proof fn lemma_part_is_land(cells: Map<Axial, Cell>, region: Set<Axial>, part: Set<Axial>)
    requires
        is_largest_part(cells, region, part),
    ensures
        part.subset_of(region),
{
    let list = choose|list: Seq<Seq<Axial>>| #[trigger]
        is_component_list(cells, standard_movement(), region, list) && is_longest_part(list, part);
    if list.len() > 0 {
        let k = choose|k: int| #[trigger] is_first_longest(list, k) && part == list[k].to_set();
        assert forall|c: Axial| part.contains(c) implies region.contains(c) by {
            assert(list[k].contains(c));
        }
    }
}

} // verus!
