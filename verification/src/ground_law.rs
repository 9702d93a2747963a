//! What the ground means: where land rises, how high, and what it is worth to
//! the players.
use vstd::prelude::*;
use crate::climate_law::{lemma_writes, lemma_written};
use crate::continent::{
    continent_height, dry_surface, every_cell, is_continent, is_shore, off_middle, outlying,
    raises, sea_mask, shore_tags,
};
use crate::coord::{hex_distance, Axial};
use crate::gameplay::{gameplay_of, gameplay_writes, is_playable};
use crate::island::{
    elevation_at, ground_cell, hill_height, in_bounds, is_land, island, landmark, landmass,
    larger, lemma_offset, mesa_distance, mesa_radius, offset_from_middle, short_side,
};
use crate::layers::{
    law_neighbours_are_mutual, Biome, Landform, LayeredWorld, Surface, TerrainTags,
};
use crate::map::TerrainKind;
use crate::noise::{
    blended, fractal_noise_at, grid_step, lemma_local, lemma_smoothed, sampled, smoothed,
    toward_zero, value_noise_at,
};
use crate::patch::WorldPatch;
use crate::world_pass::marked_beside;

verus! {

/// How hard a landform is to cross and to live on.
pub open spec fn ruggedness(landform: Landform) -> int {
    match landform {
        Landform::Plain => 0,
        Landform::Valley => 0,
        Landform::Hill => 1,
        Landform::Plateau => 1,
        Landform::Mountain => 2,
    }
}

/// Every cell gets its worth, in order. Only land of the main part can be crossed
/// and taken, and of that all can be lived on but alpine land and tundra. What
/// cannot be crossed holds no soldiers, what cannot be lived on nobody; elsewhere
/// fertility decides how many live there, two for each degree.
pub proof fn law_worth_follows_the_land(
    world: LayeredWorld,
    main: Seq<u32>,
    p: WorldPatch,
    i: int,
)
    requires
        world.is_laid_out(),
        is_playable(world, main, p),
        0 <= i < world.layers().len(),
    ensures
        p.gameplay@.len() == world.layers().len(),
        p.gameplay@[i].0 == i,
        ({
            let cell = world.layers()[i];
            let worth = p.gameplay@[i].1;
            let land = cell.surface == Surface::Land && main.contains(i as u32);
            &&& worth.passable == land
            &&& worth.capturable == land
            &&& worth.habitable == (land && cell.biome != Biome::Alpine && cell.biome
                != Biome::Tundra)
            &&& worth.military_capacity > 0 <==> land
            &&& !worth.habitable ==> worth.civilian_capacity == 0
            &&& worth.habitable ==> worth.civilian_capacity == cell.fertility + cell.fertility
        }),
{
    let n = world.grid().count();
    lemma_every_write(n, gameplay_writes(world, main));
    assert(p.gameplay@[i] == (i as u32, gameplay_of(world.layers()[i], main.contains(i as u32))));
}

pub proof fn lemma_every_write<A>(n: int, value: spec_fn(int) -> A)
    requires
        0 <= n <= u32::MAX,
    ensures
        crate::patch::writes_where(n, every_cell(), value).len() == n,
        forall|i: int|
            0 <= i < n ==> #[trigger] crate::patch::writes_where(n, every_cell(), value)[i] == (
                i as u32,
                value(i),
            ),
    decreases n,
{
    if n > 0 {
        lemma_every_write(n - 1, value);
    }
}

/// The more rugged the land, the more it costs to cross and the fewer soldiers it
/// holds, and a river makes any land costlier. Plains and valleys cost 10 and hold
/// 100, hills and plateaus cost 14 and hold 82, mountains cost 22 and hold 58; a
/// river adds 2.
pub proof fn law_rugged_land_is_slow_and_narrow(
    world: LayeredWorld,
    main: Seq<u32>,
    p: WorldPatch,
    i: int,
    j: int,
)
    requires
        world.is_laid_out(),
        is_playable(world, main, p),
        0 <= i < world.layers().len(),
        0 <= j < world.layers().len(),
    ensures
        ({
            let a = world.layers()[i];
            let b = world.layers()[j];
            let x = p.gameplay@[i].1;
            let y = p.gameplay@[j].1;
            &&& ruggedness(a.landform) < ruggedness(b.landform) && (a.river is Some ==> b.river
                is Some) ==> x.movement_cost < y.movement_cost
            &&& ruggedness(a.landform) == ruggedness(b.landform) && a.river is None && b.river
                is Some ==> y.movement_cost == x.movement_cost + 2
            &&& ruggedness(a.landform) == ruggedness(b.landform) && (a.river is None) == (b.river
                is None) ==> x.movement_cost == y.movement_cost
            &&& x.passable && y.passable && ruggedness(a.landform) < ruggedness(b.landform)
                ==> x.military_capacity > y.military_capacity
            &&& ruggedness(a.landform) == 0 && a.river is None ==> x.movement_cost == 10
            &&& ruggedness(a.landform) == 1 && a.river is None ==> x.movement_cost == 14
            &&& ruggedness(a.landform) == 2 && a.river is None ==> x.movement_cost == 22
            &&& x.passable && ruggedness(a.landform) == 0 ==> x.military_capacity == 100
            &&& x.passable && ruggedness(a.landform) == 1 ==> x.military_capacity == 82
            &&& x.passable && ruggedness(a.landform) == 2 ==> x.military_capacity == 58
        }),
{
    let n = world.grid().count();
    lemma_every_write(n, gameplay_writes(world, main));
    assert(p.gameplay@[i] == (i as u32, gameplay_of(world.layers()[i], main.contains(i as u32))));
    assert(p.gameplay@[j] == (j as u32, gameplay_of(world.layers()[j], main.contains(j as u32))));
}

/// A finished island stands in its rectangle, the middle column and row of which
/// are numbered zero. Its water lies at height zero and holds nothing. Ground at
/// height one is plain and holds 100 soldiers, ground at two and three is hilly
/// and holds 80, and higher ground is mountain and holds 60. The mesa can be
/// neither taken nor lived on; everything else can, by 100 people a cell.
pub proof fn law_islands_are_what_they_look(width: u16, height: u16, seed: u64, c: Axial)
    requires
        width > 0,
        height > 0,
    ensures
        island(width, height, seed).contains_key(c) <==> {
            &&& -(width / 2) <= c.q < width - width / 2
            &&& -(height / 2) <= c.r < height - height / 2
        },
        island(width, height, seed).contains_key(c) ==> {
            let cell = island(width, height, seed)[c];
            &&& cell.coordinate == c
            &&& cell.owner is None
            &&& cell.forces.infantry == 0
            &&& cell.civilian_population == 0
            &&& cell.terrain == TerrainKind::Water <==> cell.elevation == 0
            &&& cell.terrain == TerrainKind::Plains <==> cell.elevation == 1
            &&& cell.terrain == TerrainKind::Hills <==> 2 <= cell.elevation <= 3
            &&& cell.terrain == TerrainKind::Mountain <==> 4 <= cell.elevation
            &&& cell.terrain == TerrainKind::Water ==> cell.military_capacity == 0
            &&& cell.terrain == TerrainKind::Plains ==> cell.military_capacity == 100
            &&& cell.terrain == TerrainKind::Hills ==> cell.military_capacity == 80
            &&& cell.terrain == TerrainKind::Mountain ==> cell.military_capacity == 60
            &&& cell.capturable == cell.habitable
            &&& cell.civilian_capacity == (if cell.habitable {
                100
            } else {
                0int
            })
            &&& cell.terrain == TerrainKind::Water ==> !cell.capturable
            &&& cell.terrain != TerrainKind::Water ==> (!cell.capturable <==> cell.elevation == 5)
            &&& cell.elevation <= 5
        },
{
    if in_bounds(width, height, c) && landmass(width, height, seed).contains(c) {
        lemma_heights(width, height, seed, c);
    }
}

proof fn lemma_hill(radius: int, distance: int)
    requires
        0 <= distance,
        radius > 0,
    ensures
        distance < radius ==> 1 <= 1 + (radius - distance) * 3 / radius <= 4,
{
    if distance < radius {
        assert(0 <= (radius - distance) * 3 / radius <= 3) by (nonlinear_arith)
            requires
                0 <= distance < radius,
        ;
    }
}

proof fn lemma_heights(width: u16, height: u16, seed: u64, c: Axial)
    ensures
        1 <= elevation_at(width, height, seed, c) <= 5,
        elevation_at(width, height, seed, c) == 5 <==> mesa_distance(width, height, c)
            <= mesa_radius(width, height),
{
    let radius = larger(short_side(width, height) as int / 5, 5);
    lemma_hill(radius, hex_distance(c, landmark(width, height, 2, 5, 2, 5)));
    lemma_hill(radius, hex_distance(c, landmark(width, height, 2, 3, 3, 5)));
}

/// Off the mesa and its skirt, the ground is as high as the hills make it, or a
/// scattered rise on the plain.
proof fn lemma_slope(width: u16, height: u16, seed: u64, c: Axial, radius: int, hills: int)
    requires
        mesa_distance(width, height, c) > mesa_radius(width, height) + 1,
        radius == larger(short_side(width, height) as int / 5, 5),
        hills == larger(
            hill_height(landmark(width, height, 2, 5, 2, 5), radius, c),
            hill_height(landmark(width, height, 2, 3, 3, 5), radius, c),
        ),
    ensures
        elevation_at(width, height, seed, c) == hills || (hills == 1 && elevation_at(
            width,
            height,
            seed,
            c,
        ) == 2),
        ground_cell(width, height, seed, c).elevation == elevation_at(width, height, seed, c),
{
    lemma_heights(width, height, seed, c);
}

proof fn lemma_nearer_is_higher(hill: Axial, radius: int, near: Axial, far: Axial)
    requires
        radius > 0,
        hex_distance(near, hill) <= hex_distance(far, hill),
    ensures
        4 >= hill_height(hill, radius, near) >= hill_height(hill, radius, far) >= 1,
        near == hill ==> hill_height(hill, radius, near) == 4,
{
    lemma_hill_order(radius, hex_distance(near, hill), hex_distance(far, hill));
    lemma_hill(radius, hex_distance(near, hill));
    assert(radius * 3 / radius == 3) by (nonlinear_arith)
        requires
            radius > 0,
    ;
}

/// Away from the mesa, ground rises towards the nearer of the two hills: of two
/// places, the one that lies no further from either hill is no lower, unless the
/// other is a scattered rise of its own. A hilltop stands at four.
pub proof fn law_ground_rises_towards_the_hills(
    width: u16,
    height: u16,
    seed: u64,
    near: Axial,
    far: Axial,
)
    requires
        mesa_distance(width, height, near) > mesa_radius(width, height) + 1,
        mesa_distance(width, height, far) > mesa_radius(width, height) + 1,
        hex_distance(near, landmark(width, height, 2, 5, 2, 5)) <= hex_distance(
            far,
            landmark(width, height, 2, 5, 2, 5),
        ),
        hex_distance(near, landmark(width, height, 2, 3, 3, 5)) <= hex_distance(
            far,
            landmark(width, height, 2, 3, 3, 5),
        ),
    ensures
        ground_cell(width, height, seed, near).elevation >= ground_cell(
            width,
            height,
            seed,
            far,
        ).elevation || (ground_cell(width, height, seed, near).elevation == 1 && ground_cell(
            width,
            height,
            seed,
            far,
        ).elevation == 2),
        near == landmark(width, height, 2, 5, 2, 5) || near == landmark(width, height, 2, 3, 3, 5)
            ==> ground_cell(width, height, seed, near).elevation == 4,
{
    let r = larger(short_side(width, height) as int / 5, 5);
    let a = landmark(width, height, 2, 5, 2, 5);
    let b = landmark(width, height, 2, 3, 3, 5);
    lemma_nearer_is_higher(a, r, near, far);
    lemma_nearer_is_higher(b, r, near, far);
    let x = larger(hill_height(a, r, near), hill_height(b, r, near));
    let y = larger(hill_height(a, r, far), hill_height(b, r, far));
    lemma_slope(width, height, seed, near, r, x);
    lemma_slope(width, height, seed, far, r, y);
}

proof fn lemma_hill_order(radius: int, near: int, far: int)
    requires
        0 <= near <= far,
        radius > 0,
    ensures
        near < radius ==> (radius - near) * 3 / radius >= 0,
        far < radius ==> (radius - near) * 3 / radius >= (radius - far) * 3 / radius >= 0,
{
    if near < radius {
        vstd::arithmetic::div_mod::lemma_div_pos_is_pos((radius - near) * 3, radius);
    }
    if far < radius {
        vstd::arithmetic::div_mod::lemma_div_pos_is_pos((radius - far) * 3, radius);
        vstd::arithmetic::div_mod::lemma_div_is_ordered(
            (radius - far) * 3,
            (radius - near) * 3,
            radius,
        );
    }
}

/// Whatever the seed, the inner half of the rectangle rises out of the water, and
/// its outermost columns and rows, a thirty-second part on each side, do not.
pub proof fn law_islands_rise_in_the_middle(
    column: int,
    row: int,
    width: u16,
    height: u16,
    seed: u64,
)
    requires
        0 <= column < width,
        0 <= row < height,
    ensures
        width <= 2 * (2 * column + 1) <= 3 * width && height <= 2 * (2 * row + 1) <= 3 * height
            ==> is_land(column, row, width, height, seed),
        16 * (2 * column + 1) <= width || 16 * (2 * width - 2 * column - 1) <= width || 16 * (2
            * row + 1) <= height || 16 * (2 * height - 2 * row - 1) <= height ==> !is_land(
            column,
            row,
            width,
            height,
            seed,
        ),
{
    let x = offset_from_middle(column, width);
    let y = offset_from_middle(row, height);
    lemma_offset(column, width);
    lemma_offset(row, height);
    lemma_line(column, width as int);
    lemma_line(row, height as int);
    if -512 <= x <= 512 && -512 <= y <= 512 {
        assert(x * x <= 262_144 && y * y <= 262_144 && -262_144 <= x * y <= 262_144)
            by (nonlinear_arith)
            requires
                -512 <= x <= 512,
                -512 <= y <= 512,
        ;
    }
    if x <= -960 || x >= 960 {
        lemma_outer(x, y);
    }
    if y <= -960 || y >= 960 {
        lemma_outer(y, x);
        assert(x * y == y * x) by (nonlinear_arith);
    }
}

proof fn lemma_outer(x: int, y: int)
    requires
        x <= -960 || x >= 960,
    ensures
        x * x + y * y + toward_zero(x * y, 3) > 878_000,
{
    assert(x * x >= 921_600) by (nonlinear_arith)
        requires
            x <= -960 || x >= 960,
    ;
    assert(36 * (x * x + y * y) + 12 * (x * y) >= 35 * (x * x)) by (nonlinear_arith) {
        assert((x + 6 * y) * (x + 6 * y) >= 0) by (nonlinear_arith);
        assert((x + 6 * y) * (x + 6 * y) == x * x + 12 * (x * y) + 36 * (y * y))
            by (nonlinear_arith);
    }
    assert(3 * toward_zero(x * y, 3) >= x * y - 3);
}

proof fn lemma_line(i: int, size: int)
    requires
        0 <= i < size,
    ensures
        size <= 2 * (2 * i + 1) <= 3 * size ==> -512 <= (i * 2 + 1) * 1_024 / size - 1_024 <= 512,
        size <= 3 * (2 * i + 1) / 2 && 3 * (2 * i + 1) <= 4 * size ==> -342 <= (i * 2 + 1) * 1_024
            / size - 1_024 <= 342,
        16 * (2 * i + 1) <= size ==> (i * 2 + 1) * 1_024 / size - 1_024 <= -960,
        16 * (2 * size - 2 * i - 1) <= size ==> (i * 2 + 1) * 1_024 / size - 1_024 >= 960,
{
    let n = (i * 2 + 1) * 1_024;
    let q = n / size;
    vstd::arithmetic::div_mod::lemma_fundamental_div_mod(n, size);
    vstd::arithmetic::div_mod::lemma_mod_bound(n, size);
    assert(size * q <= n < size * q + size);
    assert(n <= 1_536 * size ==> q <= 1_536) by (nonlinear_arith)
        requires
            size * q <= n,
            size > 0,
    ;
    assert(n >= 512 * size ==> q >= 512) by (nonlinear_arith)
        requires
            n < size * q + size,
            size > 0,
    ;
    assert(n <= 64 * size ==> q <= 64) by (nonlinear_arith)
        requires
            size * q <= n,
            size > 0,
    ;
    assert(n >= 1_984 * size ==> q >= 1_984) by (nonlinear_arith)
        requires
            n < size * q + size,
            size > 0,
    ;
    assert(n <= 1_366 * size ==> q <= 1_366) by (nonlinear_arith)
        requires
            size * q <= n,
            size > 0,
    ;
    assert(n >= 682 * size ==> q >= 682) by (nonlinear_arith)
        requires
            n < size * q + size,
            size > 0,
    ;
}

proof fn lemma_between(first: int, second: int, amount: int, low: int, high: int)
    requires
        low <= first <= high,
        low <= second <= high,
        0 <= amount <= 65_536,
    ensures
        low <= blended(first, second, amount) <= high,
{
    let d = second - first;
    assert(d >= 0 ==> 0 <= d * amount <= d * 65_536) by (nonlinear_arith)
        requires
            0 <= amount <= 65_536,
    ;
    assert(d <= 0 ==> d * 65_536 <= d * amount <= 0) by (nonlinear_arith)
        requires
            0 <= amount <= 65_536,
    ;
}

/// Noise between the points of its grid stays between what is drawn at the four
/// points around it.
pub proof fn law_noise_lies_between_its_draws(
    seed: u64,
    x: int,
    y: int,
    scale: int,
    low: int,
    high: int,
)
    requires
        0 <= x,
        0 <= y,
        1 <= scale <= u32::MAX,
        low <= sampled(seed, x / scale, y / scale) <= high,
        low <= sampled(seed, x / scale + 1, y / scale) <= high,
        low <= sampled(seed, x / scale, y / scale + 1) <= high,
        low <= sampled(seed, x / scale + 1, y / scale + 1) <= high,
    ensures
        low <= value_noise_at(seed, x, y, scale) <= high,
{
    lemma_local(x, scale);
    lemma_local(y, scale);
    let ax = smoothed(x % scale * 65_536 / scale);
    let ay = smoothed(y % scale * 65_536 / scale);
    lemma_smoothed(x % scale * 65_536 / scale);
    lemma_smoothed(y % scale * 65_536 / scale);
    let gx = x / scale;
    let gy = y / scale;
    let top = blended(sampled(seed, gx, gy), sampled(seed, gx + 1, gy), ax);
    let bottom = blended(sampled(seed, gx, gy + 1), sampled(seed, gx + 1, gy + 1), ax);
    lemma_between(sampled(seed, gx, gy), sampled(seed, gx + 1, gy), ax, low, high);
    lemma_between(sampled(seed, gx, gy + 1), sampled(seed, gx + 1, gy + 1), ax, low, high);
    lemma_between(top, bottom, ay, low, high);
}

proof fn lemma_noise_bounds(seed: u64, x: int, y: int, scale: int)
    requires
        0 <= x,
        0 <= y,
        scale <= u32::MAX,
    ensures
        -1_024 <= value_noise_at(seed, x, y, scale) <= 1_024,
{
    let s = grid_step(scale);
    assert(value_noise_at(seed, x, y, scale) == value_noise_at(seed, x, y, s));
    law_noise_lies_between_its_draws(seed, x, y, s, -1_024, 1_024);
}

pub proof fn lemma_fractal_bounds(seed: u64, x: int, y: int, scale: int)
    requires
        0 <= x,
        0 <= y,
        0 <= scale <= u32::MAX,
    ensures
        -1_024 <= fractal_noise_at(seed, x, y, scale) <= 1_024,
{
    lemma_noise_bounds(seed ^ 0u64.wrapping_mul(0x9E37_79B9), x, y, scale);
    lemma_noise_bounds(seed ^ 1u64.wrapping_mul(0x9E37_79B9), x, y, scale / 2);
    lemma_noise_bounds(seed ^ 2u64.wrapping_mul(0x9E37_79B9), x, y, scale / 4);
}

/// Every cell of a continent gets a height and a surface. What stands above zero
/// is land, all else is sea. Whatever the seed, the middle of the map is land, as
/// far as a third of the way out both ways, and its corners are sea, where less
/// than a thirty-second part is left both ways.
pub proof fn law_continents_rise_in_the_middle(
    world: LayeredWorld,
    seed: u64,
    p: WorldPatch,
    id: int,
)
    requires
        world.is_laid_out(),
        is_continent(world.manifest, seed, p),
        0 <= id < world.layers().len(),
    ensures
        p.elevation@.len() == world.layers().len(),
        p.surfaces@.len() == world.layers().len(),
        p.elevation@[id].0 == id,
        p.surfaces@[id].0 == id,
        p.elevation@[id].1 is Assign,
        p.surfaces@[id].1 == (if p.elevation@[id].1->Assign_0 > 0 {
            Surface::Land
        } else {
            Surface::Ocean
        }),
        ({
            let w = world.manifest.width as int;
            let h = world.manifest.height as int;
            let column = 2 * (id % w) + 1;
            let row = 2 * (id / w) + 1;
            let land = p.surfaces@[id].1 == Surface::Land;
            &&& w <= 3 * column / 2 && 3 * column <= 4 * w && h <= 3 * row / 2 && 3 * row <= 4 * h
                ==> land
            &&& (16 * column <= w || 16 * (2 * w - column) <= w) && (16 * row <= h || 16 * (2 * h
                - row) <= h) ==> !land
        }),
{
    let m = world.manifest;
    let n = m.grid().count();
    lemma_every_write(n, raises(m, seed));
    lemma_every_write(n, dry_surface(m, seed));
    assert(p.elevation@[id] == (id as u32, raises(m, seed)(id)));
    assert(p.surfaces@[id] == (id as u32, dry_surface(m, seed)(id)));
    reveal(continent_height);
    crate::layers::lemma_line_bounds(world.grid(), id);
    let column = id % m.grid().width;
    let row = id / m.grid().width;
    let x = off_middle(column, m.grid().width);
    let y = off_middle(row, m.grid().height);
    lemma_line(column, m.grid().width);
    lemma_line(row, m.grid().height);
    lemma_fractal_bounds(seed, column, row, m.macro_cell_size * 4);
    if -342 <= x <= 342 && -342 <= y <= 342 {
        assert(0 <= x * x <= 116_964 && 0 <= y * y <= 116_964 && -116_964 <= x * y <= 116_964)
            by (nonlinear_arith)
            requires
                -342 <= x <= 342,
                -342 <= y <= 342,
        ;
        assert(outlying(x, y) <= 267);
    }
    if (x <= -960 || x >= 960) && (y <= -960 || y >= 960) {
        lemma_corner(x, y);
    }
}

proof fn lemma_corner(x: int, y: int)
    requires
        x <= -960 || x >= 960,
        y <= -960 || y >= 960,
    ensures
        outlying(x, y) >= 1_456,
{
    assert(x * x >= 921_600) by (nonlinear_arith)
        requires
            x <= -960 || x >= 960,
    ;
    assert(y * y >= 921_600) by (nonlinear_arith)
        requires
            y <= -960 || y >= 960,
    ;
    assert(-2 * (x * y) <= x * x + y * y) by (nonlinear_arith) {
        assert((x + y) * (x + y) >= 0) by (nonlinear_arith);
        assert((x + y) * (x + y) == x * x + 2 * (x * y) + y * y) by (nonlinear_arith);
    }
    assert(3 * toward_zero(x * y, 3) >= x * y - 3);
}

/// Noise leaves the points of its grid slowly and comes to the next ones slowly:
/// near either end the share of the far draw, or of the near one, grows with the
/// square of the way at most.
pub proof fn law_noise_eases_in_and_out(t: int)
    requires
        0 <= t <= 65_536,
    ensures
        0 <= smoothed(t) <= 65_536,
        smoothed(t) * 65_536 <= 3 * (t * t),
        (65_536 - smoothed(t)) * 65_536 <= 3 * ((65_536 - t) * (65_536 - t)) + 4 * 65_536,
{
    lemma_smoothed(t);
    let one = 65_536int;
    let s = t * t / one;
    let slope = 3 * one - 2 * t;
    let f = s * slope / one;
    assert(f == smoothed(t));
    assert(t * t >= 0) by (nonlinear_arith);
    assert(one * s <= t * t < one * s + one);
    assert(0 <= s * slope <= 3 * one * s) by (nonlinear_arith)
        requires
            s >= 0,
            one <= slope <= 3 * one,
            one == 65_536,
    ;
    assert(one * f <= s * slope < one * f + one);
    assert((t * t - one) * slope <= one * (s * slope)) by (nonlinear_arith)
        requires
            t * t < one * s + one,
            slope >= 0,
    ;
    assert((t * t - one) * slope >= t * t * slope - 3 * one * one) by (nonlinear_arith)
        requires
            slope <= 3 * one,
            one == 65_536,
    ;
    let u = one - t;
    assert(one * one * one - t * t * slope == u * u * (one + 2 * t)) by (nonlinear_arith)
        requires
            u == one - t,
            slope == 3 * one - 2 * t,
    ;
    assert(u * u >= 0) by (nonlinear_arith);
    assert(u * u * (one + 2 * t) <= 3 * one * (u * u)) by (nonlinear_arith)
        requires
            u * u >= 0,
            0 <= t <= one,
    ;
    assert(t * t * slope == (t * t) * slope);
    let gap = one - f;
    assert(one * one * gap <= 3 * one * (u * u) + 4 * one * one) by (nonlinear_arith)
        requires
            gap == one - f,
            s * slope < one * f + one,
            (t * t) * slope - 3 * one * one <= one * (s * slope),
            one * one * one - (t * t) * slope <= 3 * one * (u * u),
            one == 65_536,
    ;
    assert(gap * one <= 3 * (u * u) + 4 * one) by (nonlinear_arith)
        requires
            one * one * gap <= 3 * one * (u * u) + 4 * one * one,
            one == 65_536,
    ;
}

/// Of three octaves of noise the coarse one counts five parts in nine, the middle
/// one, of half its scale, three, and the fine one, of a quarter, one; what is left
/// over falls towards zero.
pub proof fn law_coarse_octaves_weigh_most(seed: u64, x: int, y: int, scale: int)
    ensures
        ({
            let coarse = value_noise_at(seed ^ 0u64.wrapping_mul(0x9E37_79B9), x, y, scale);
            let middle = value_noise_at(seed ^ 1u64.wrapping_mul(0x9E37_79B9), x, y, scale / 2);
            let fine = value_noise_at(seed ^ 2u64.wrapping_mul(0x9E37_79B9), x, y, scale / 4);
            let all = 5 * coarse + 3 * middle + fine;
            let noise = fractal_noise_at(seed, x, y, scale);
            &&& all >= 0 ==> 9 * noise <= all < 9 * (noise + 1)
            &&& all <= 0 ==> 9 * (noise - 1) < all <= 9 * noise
        }),
{
}

/// The coast of a continent is the land with sea beside it.
pub proof fn law_coasts_lie_between_land_and_sea(
    world: LayeredWorld,
    seed: u64,
    p: WorldPatch,
    id: int,
)
    requires
        world.is_laid_out(),
        is_continent(world.manifest, seed, p),
        0 <= id < world.layers().len(),
    ensures
        p.tags@.contains((id as u32, TerrainTags(1))) <==> p.surfaces@[id].1 == Surface::Land
            && exists|d: int|
            0 <= d < 6 && (#[trigger] world.grid().beside(id, d) matches Some(n)
                && p.surfaces@[n].1 == Surface::Ocean),
{
    let m = world.manifest;
    let g = world.grid();
    let n = g.count();
    let test = is_shore(m, seed);
    lemma_every_write(n, dry_surface(m, seed));
    lemma_writes(n, test, shore_tags());
    assert(p.surfaces@[id] == (id as u32, dry_surface(m, seed)(id)));
    if test(id) {
        lemma_written(n, test, shore_tags(), id);
        let d = choose|d: int| 0 <= d < 6 && #[trigger] marked_beside(g, sea_mask(m, seed), id, d);
        law_neighbours_are_mutual(g, id, d);
        let near = g.beside(id, d).unwrap();
        assert(p.surfaces@[near] == (near as u32, dry_surface(m, seed)(near)));
        assert(g.beside(id, d) is Some);
    }
    if p.surfaces@[id].1 == Surface::Land && exists|d: int|
        0 <= d < 6 && (#[trigger] g.beside(id, d) matches Some(n) && p.surfaces@[n].1
            == Surface::Ocean) {
        let d = choose|d: int|
            0 <= d < 6 && (#[trigger] g.beside(id, d) matches Some(n) && p.surfaces@[n].1
                == Surface::Ocean);
        law_neighbours_are_mutual(g, id, d);
        let near = g.beside(id, d).unwrap();
        assert(p.surfaces@[near] == (near as u32, dry_surface(m, seed)(near)));
        assert(sea_mask(m, seed)[near]);
        assert(marked_beside(g, sea_mask(m, seed), id, d));
        assert(test(id));
    }
    if p.tags@.contains((id as u32, TerrainTags(1))) {
        let i = choose|i: int| 0 <= i < p.tags@.len() && p.tags@[i] == (id as u32, TerrainTags(1));
        assert(test(p.tags@[i].0 as int));
    }
}

} // verus!
