//! Where the players of a generated map start.
use vstd::prelude::*;
use crate::axials::{ascending, coordinate_lt, ordered};
use crate::connectivity::{
    connected_components, contents, eligible, is_component_list, law_component_list_is_unique,
};
use crate::coord::{axial_lt, hex_distance, Axial};
use crate::island::{first_of, larger, short_side, standard_movement};
use crate::map::{Cell, HexMap, MovementConfig, TerrainKind};
use crate::noise::{quotient, toward_zero};

verus! {

/// The most players that start with a ring of ground around them; with more,
/// everyone starts with one cell.
pub const LEGACY_RING_PLAYER_LIMIT: u16 = 8;

/// How far a starting footprint reaches.
pub open spec fn footprint_radius(short: u16) -> int {
    larger(short as int / 24, 2)
}

/// How far apart starting places of the ring must lie.
pub open spec fn required_spacing(short: u16, players: u16) -> int {
    larger(3 * (short as int / 4) / players as int, 2 * footprint_radius(short) + 1)
}

/// Of two coordinates, the one that lies nearer to a third; ties go by the order
/// of coordinates.
pub open spec fn nearer(desired: Axial, a: Axial, b: Axial) -> bool {
    hex_distance(a, desired) < hex_distance(b, desired) || (hex_distance(a, desired)
        == hex_distance(b, desired) && axial_lt(a, b))
}

/// The coordinate of a set that lies nearest.
pub open spec fn is_nearest(among: Set<Axial>, desired: Axial, c: Axial) -> bool {
    among.contains(c) && forall|d: Axial| #[trigger]
        among.contains(d) && d != c ==> nearer(desired, c, d)
}

/// The coordinates that can be captured.
pub open spec fn capturable_in(cells: Map<Axial, Cell>) -> Set<Axial> {
    Set::new(|c: Axial| cells.contains_key(c) && cells[c].capturable)
}

/// The capturable coordinate nearest to a desired one; the desired one itself
/// where nothing can be captured.
pub open spec fn is_nearest_capturable(
    cells: Map<Axial, Cell>,
    desired: Axial,
    c: Axial,
) -> bool {
    if capturable_in(cells) == Set::<Axial>::empty() {
        c == desired
    } else {
        is_nearest(capturable_in(cells), desired, c)
    }
}

/// Whether every coordinate around a centre can take its first soldiers.
pub open spec fn has_footprint(cells: Map<Axial, Cell>, center: Axial, radius: int) -> bool {
    forall|c: Axial|
        hex_distance(c, center) <= radius ==> #[trigger] cells.contains_key(c) && hosts(
            cells[c],
            c == center,
        )
}

/// Whether a cell can take its first soldiers.
pub open spec fn hosts(cell: Cell, is_center: bool) -> bool {
    &&& cell.capturable
    &&& cell.terrain != TerrainKind::Water
    &&& cell.military_capacity >= (if is_center {
        70int
    } else {
        35int
    })
}

/// The cells of a map around a centre.
pub open spec fn ball(cells: Map<Axial, Cell>, center: Axial, radius: int) -> Set<Axial> {
    Set::new(|c: Axial| cells.contains_key(c) && hex_distance(c, center) <= radius)
}

/// Whether the passable cells of a region form one connected part.
pub open spec fn is_one_part(cells: Map<Axial, Cell>, region: Set<Axial>) -> bool {
    exists|list: Seq<Seq<Axial>>| #[trigger]
        is_component_list(cells, standard_movement(), eligible(cells, region), list) && list.len()
            == 1
}

/// Whether a place keeps its distance from others.
pub open spec fn is_spaced(chosen: Seq<Axial>, c: Axial, spacing: int) -> bool {
    forall|i: int| 0 <= i < chosen.len() ==> hex_distance(#[trigger] chosen[i], c) >= spacing
}

/// Whether a player can start at a place.
pub open spec fn is_site(
    cells: Map<Axial, Cell>,
    chosen: Seq<Axial>,
    radius: int,
    spacing: int,
    c: Axial,
) -> bool {
    &&& is_spaced(chosen, c, spacing)
    &&& has_footprint(cells, c, radius)
    &&& is_one_part(cells, ball(cells, c, radius))
}

/// The best starting place within a search bound: the nearest one.
pub open spec fn is_best_site(
    cells: Map<Axial, Cell>,
    desired: Axial,
    chosen: Seq<Axial>,
    radius: int,
    spacing: int,
    bound: int,
    c: Axial,
) -> bool {
    &&& is_site(cells, chosen, radius, spacing, c)
    &&& hex_distance(c, desired) <= bound
    &&& forall|d: Axial| #[trigger]
        is_site(cells, chosen, radius, spacing, d) && hex_distance(d, desired) <= bound && d != c
            ==> nearer(desired, c, d)
}

/// The places of a hex ring around the origin, clockwise from its west corner.
pub open spec fn ring_at(radius: int, k: int) -> (int, int) {
    let j = k % radius;
    let side = k / radius;
    if side == 0 {
        (j - radius, -j)
    } else if side == 1 {
        (j, -radius)
    } else if side == 2 {
        (radius, j - radius)
    } else if side == 3 {
        (radius - j, j)
    } else if side == 4 {
        (-j, radius)
    } else {
        (-radius, radius - j)
    }
}

/// Every place of a ring lies at its radius, and none comes up twice.
pub proof fn law_ring_is_a_circle(radius: int, k: int, l: int)
    requires
        0 < radius < 100_000_000,
        0 <= k < 6 * radius,
        0 <= l < 6 * radius,
    ensures
        hex_distance(
            Axial { q: 0, r: 0 },
            Axial { q: ring_at(radius, k).0 as i32, r: ring_at(radius, k).1 as i32 },
        ) == radius,
        ring_at(radius, k) == ring_at(radius, l) ==> k == l,
{
    lemma_side(radius, k);
    lemma_side(radius, l);
}

proof fn lemma_side(radius: int, k: int)
    requires
        0 < radius,
        0 <= k < 6 * radius,
    ensures
        0 <= k / radius < 6,
        0 <= k % radius < radius,
        k == (k / radius) * radius + k % radius,
        k / radius == 0 ==> k == k % radius,
        k / radius == 1 ==> k == radius + k % radius,
        k / radius == 2 ==> k == 2 * radius + k % radius,
        k / radius == 3 ==> k == 3 * radius + k % radius,
        k / radius == 4 ==> k == 4 * radius + k % radius,
        k / radius == 5 ==> k == 5 * radius + k % radius,
{
    vstd::arithmetic::div_mod::lemma_fundamental_div_mod(k, radius);
    vstd::arithmetic::div_mod::lemma_mod_bound(k, radius);
    vstd::arithmetic::div_mod::lemma_div_pos_is_pos(k, radius);
    let s = k / radius;
    assert(radius * s == s * radius) by (nonlinear_arith);
    assert(s < 6) by (nonlinear_arith)
        requires
            s * radius <= k,
            k < 6 * radius,
            radius > 0,
    ;
}

/// The desired start of one of the players on the ring.
pub open spec fn ring_target(width: u16, height: u16, players: u16, i: int) -> Axial {
    let radius = short_side(width, height) as int / 4;
    let at = ring_at(radius, i * (6 * radius) / players as int);
    Axial {
        q: (first_of(width) + width as int / 2 + at.0) as i32,
        r: (first_of(height) + height as int / 2 + at.1) as i32,
    }
}

/// The best starts on the ring, player by player.
pub open spec fn is_ring_start(
    cells: Map<Axial, Cell>,
    width: u16,
    height: u16,
    players: u16,
    s: Seq<Axial>,
) -> bool {
    let short = short_side(width, height);
    forall|i: int|
        0 <= i < s.len() ==> is_best_site(
            cells,
            ring_target(width, height, players, i),
            s.take(i),
            footprint_radius(short),
            required_spacing(short, players),
            width + height,
            #[trigger] s[i],
        )
}

/// Whether a cell can be captured on foot.
pub open spec fn is_open_ground(cells: Map<Axial, Cell>, c: Axial) -> bool {
    cells.contains_key(c) && cells[c].capturable && cells[c].terrain != TerrainKind::Water
}

/// Capturable ground with capturable ground beside it.
pub open spec fn has_frontage(cells: Map<Axial, Cell>, c: Axial) -> bool {
    is_open_ground(cells, c) && exists|d: int|
        0 <= d < 6 && is_open_ground(cells, #[trigger] c.step(d))
}

/// The places where a player can start with one cell.
pub open spec fn frontage(cells: Map<Axial, Cell>) -> Set<Axial> {
    Set::new(|c: Axial| has_frontage(cells, c))
}

/// The least of some numbers.
pub open spec fn lowest(s: Seq<int>) -> int
    decreases s.len(),
{
    if s.len() <= 1 {
        s[0]
    } else if s.last() < lowest(s.drop_last()) {
        s.last()
    } else {
        lowest(s.drop_last())
    }
}

/// The greatest of some numbers.
pub open spec fn highest(s: Seq<int>) -> int
    decreases s.len(),
{
    if s.len() <= 1 {
        s[0]
    } else if s.last() > highest(s.drop_last()) {
        s.last()
    } else {
        highest(s.drop_last())
    }
}

pub open spec fn columns(s: Seq<Axial>) -> Seq<int> {
    s.map_values(|c: Axial| c.q as int)
}

pub open spec fn rows(s: Seq<Axial>) -> Seq<int> {
    s.map_values(|c: Axial| c.r as int)
}

/// The desired place of the first player: a quarter of the way from the west,
/// half of the way from the north.
pub open spec fn first_target(s: Seq<Axial>) -> Axial {
    Axial {
        q: (lowest(columns(s)) + (highest(columns(s)) - lowest(columns(s))) / 4) as i32,
        r: toward_zero(lowest(rows(s)) + highest(rows(s)), 2) as i32,
    }
}

/// How far a place lies from the nearest of some others.
pub open spec fn gap(chosen: Seq<Axial>, c: Axial) -> int
    decreases chosen.len(),
{
    if chosen.len() == 0 {
        u64::MAX as int
    } else if hex_distance(c, chosen.last()) < gap(chosen.drop_last(), c) {
        hex_distance(c, chosen.last())
    } else {
        gap(chosen.drop_last(), c)
    }
}

/// Of two places, the one that lies farther from those chosen; ties go to the
/// greater coordinate.
pub open spec fn farther(chosen: Seq<Axial>, a: Axial, b: Axial) -> bool {
    gap(chosen, a) > gap(chosen, b) || (gap(chosen, a) == gap(chosen, b) && axial_lt(b, a))
}

/// The place that lies farthest from those chosen.
pub open spec fn is_outermost(among: Set<Axial>, chosen: Seq<Axial>, c: Axial) -> bool {
    &&& among.contains(c)
    &&& !chosen.contains(c)
    &&& forall|d: Axial| #[trigger]
        among.contains(d) && !chosen.contains(d) && d != c ==> farther(chosen, c, d)
}

/// The place that lies farthest from those chosen and leaves a cell between.
pub open spec fn is_farthest(among: Set<Axial>, chosen: Seq<Axial>, c: Axial) -> bool {
    is_outermost(among, chosen, c) && gap(chosen, c) >= 2
}

/// Starts spread out by always taking the farthest place.
pub open spec fn is_spread_start(cells: Map<Axial, Cell>, s: Seq<Axial>) -> bool {
    forall|i: int|
        0 <= i < s.len() ==> if i == 0 {
            is_nearest(
                frontage(cells),
                first_target(ordered(frontage(cells))),
                #[trigger] s[i],
            )
        } else {
            is_farthest(frontage(cells), s.take(i), s[i])
        }
}

/// The starting places of a map, by the number of players.
pub open spec fn is_start(
    cells: Map<Axial, Cell>,
    width: u16,
    height: u16,
    players: u16,
    s: Seq<Axial>,
) -> bool {
    &&& s.len() == players
    &&& if players == 2 {
        let row = first_of(height) + height as int / 2;
        let east = if width * 3 <= u16::MAX {
            width * 3
        } else {
            u16::MAX as int
        };
        &&& is_nearest_capturable(
            cells,
            Axial { q: (first_of(width) + width as int / 4) as i32, r: row as i32 },
            s[0],
        )
        &&& is_nearest_capturable(
            cells,
            Axial { q: (first_of(width) + east / 4) as i32, r: row as i32 },
            s[1],
        )
    } else if players > LEGACY_RING_PLAYER_LIMIT {
        frontage(cells).len() >= players && is_spread_start(cells, s)
    } else {
        is_ring_start(cells, width, height, players, s)
    }
}

proof fn lemma_nearest_is_unique(among: Set<Axial>, desired: Axial, a: Axial, b: Axial)
    requires
        is_nearest(among, desired, a),
        is_nearest(among, desired, b),
    ensures
        a == b,
{
    if a != b {
        assert(nearer(desired, a, b));
        assert(nearer(desired, b, a));
    }
}

/// Starts on the ring agree as far as both go.
proof fn lemma_ring_starts_agree(
    cells: Map<Axial, Cell>,
    width: u16,
    height: u16,
    players: u16,
    s: Seq<Axial>,
    t: Seq<Axial>,
    n: int,
)
    requires
        is_ring_start(cells, width, height, players, s),
        is_ring_start(cells, width, height, players, t),
        0 <= n <= s.len(),
        n <= t.len(),
    ensures
        s.take(n) == t.take(n),
    decreases n,
{
    if n > 0 {
        lemma_ring_starts_agree(cells, width, height, players, s, t, n - 1);
        let a = s[n - 1];
        let b = t[n - 1];
        let short = short_side(width, height);
        let desired = ring_target(width, height, players, n - 1);
        let chosen = s.take(n - 1);
        let radius = footprint_radius(short);
        let spacing = required_spacing(short, players);
        assert(is_best_site(cells, desired, chosen, radius, spacing, width + height, a));
        assert(is_best_site(cells, desired, t.take(n - 1), radius, spacing, width + height, b));
        if a != b {
            assert(is_site(cells, chosen, radius, spacing, a));
            assert(is_site(cells, chosen, radius, spacing, b));
            assert(nearer(desired, a, b));
            assert(nearer(desired, b, a));
        }
        assert(s.take(n) =~= s.take(n - 1).push(a));
        assert(t.take(n) =~= t.take(n - 1).push(b));
    } else {
        assert(s.take(n) =~= t.take(n));
    }
}

/// Spread starts agree as far as both go.
proof fn lemma_spread_starts_agree(
    cells: Map<Axial, Cell>,
    s: Seq<Axial>,
    t: Seq<Axial>,
    n: int,
)
    requires
        is_spread_start(cells, s),
        is_spread_start(cells, t),
        0 <= n <= s.len(),
        n <= t.len(),
    ensures
        s.take(n) == t.take(n),
    decreases n,
{
    if n > 0 {
        lemma_spread_starts_agree(cells, s, t, n - 1);
        let a = s[n - 1];
        let b = t[n - 1];
        let chosen = s.take(n - 1);
        if n == 1 {
            lemma_nearest_is_unique(
                frontage(cells),
                first_target(ordered(frontage(cells))),
                s[0],
                t[0],
            );
        } else {
            assert(is_farthest(frontage(cells), chosen, a));
            assert(is_farthest(frontage(cells), t.take(n - 1), b));
            if a != b {
                assert(farther(chosen, a, b));
                assert(farther(chosen, b, a));
            }
        }
        assert(s.take(n) =~= s.take(n - 1).push(a));
        assert(t.take(n) =~= t.take(n - 1).push(b));
    } else {
        assert(s.take(n) =~= t.take(n));
    }
}

/// The starting places of a map are determined by its cells, its size and the
/// number of players.
pub proof fn law_start_is_unique(
    cells: Map<Axial, Cell>,
    width: u16,
    height: u16,
    players: u16,
    s: Seq<Axial>,
    t: Seq<Axial>,
)
    requires
        is_start(cells, width, height, players, s),
        is_start(cells, width, height, players, t),
    ensures
        s == t,
{
    if players == 2 {
        let set = capturable_in(cells);
        if set != Set::<Axial>::empty() {
            let row = first_of(height) + height as int / 2;
            let east = if width * 3 <= u16::MAX {
                width * 3
            } else {
                u16::MAX as int
            };
            lemma_nearest_is_unique(
                set,
                Axial { q: (first_of(width) + width as int / 4) as i32, r: row as i32 },
                s[0],
                t[0],
            );
            lemma_nearest_is_unique(
                set,
                Axial { q: (first_of(width) + east / 4) as i32, r: row as i32 },
                s[1],
                t[1],
            );
        }
        assert(s =~= t);
    } else if players > LEGACY_RING_PLAYER_LIMIT {
        lemma_spread_starts_agree(cells, s, t, players as int);
        assert(s.take(players as int) =~= s);
        assert(t.take(players as int) =~= t);
    } else {
        lemma_ring_starts_agree(cells, width, height, players, s, t, players as int);
        assert(s.take(players as int) =~= s);
        assert(t.take(players as int) =~= t);
    }
}

/// How far a starting footprint reaches.
pub fn seed_radius(short_dimension: u16) -> (radius: u64)
    ensures
        radius == footprint_radius(short_dimension),
        2 <= radius <= 2_731,
{
    let scaled: u64 = short_dimension as u64 / 24;
    if scaled < 2 {
        2
    } else {
        scaled
    }
}

/// How far apart starting places of the ring must lie.
pub fn minimum_spawn_spacing(short_dimension: u16, player_count: u16) -> (spacing: u64)
    requires
        player_count > 0,
    ensures
        spacing == required_spacing(short_dimension, player_count),
{
    let radius: u64 = seed_radius(short_dimension);
    let ring_radius: u64 = short_dimension as u64 / 4;
    let share: u64 = 3 * ring_radius / player_count as u64;
    if share >= 2 * radius + 1 {
        share
    } else {
        2 * radius + 1
    }
}

/// The coordinate of a list that lies nearest.
fn nearest_of(among: &Vec<Axial>, desired: Axial) -> (c: Option<Axial>)
    ensures
        match c {
            Some(c) => is_nearest(among@.to_set(), desired, c),
            None => among@.len() == 0,
        },
{
    if among.len() == 0 {
        return None;
    }
    let mut best = among[0];
    let mut closest: u64 = best.distance(desired);
    let mut i: usize = 1;
    while i < among.len()
        invariant
            1 <= i <= among@.len(),
            among@.contains(best),
            closest == hex_distance(best, desired),
            forall|k: int|
                0 <= k < i && #[trigger] among@[k] != best ==> nearer(desired, best, among@[k]),
        decreases among.len() - i,
    {
        let c = among[i];
        let distance: u64 = c.distance(desired);
        if distance < closest || (distance == closest && coordinate_lt(c, best)) {
            best = c;
            closest = distance;
        }
        i += 1;
    }
    proof {
        assert forall|d: Axial| #[trigger] among@.to_set().contains(d) && d != best implies nearer(
            desired,
            best,
            d,
        ) by {
            let k = choose|k: int| 0 <= k < among@.len() && among@[k] == d;
            assert(nearer(desired, best, among@[k]));
        }
    }
    Some(best)
}

/// The capturable coordinates in ascending order.
fn capturable_cells(map: &HexMap) -> (found: Vec<Axial>)
    ensures
        found@.to_set() == capturable_in(map@),
{
    let keys = map.coordinates();
    let cells = map.cells();
    let mut found: Vec<Axial> = Vec::new();
    let mut i: usize = 0;
    while i < keys.len()
        invariant
            i <= keys@.len(),
            keys@.len() == cells@.len(),
            keys@.to_set() == map@.dom(),
            forall|k: int| 0 <= k < cells@.len() ==> *(#[trigger] cells@[k]) == map@[keys@[k]],
            forall|c: Axial| #[trigger]
                found@.contains(c) <==> capturable_in(map@).contains(c) && exists|k: int|
                    0 <= k < i && #[trigger] keys@[k] == c,
        decreases keys.len() - i,
    {
        let ghost before = found@;
        let c = keys[i];
        assert(keys@.to_set().contains(c));
        assert(*cells@[i as int] == map@[keys@[i as int]]);
        if cells[i].capturable {
            found.push(c);
        }
        proof {
            lemma_found(before, found@, c);
            assert forall|x: Axial| #[trigger]
                found@.contains(x) <==> capturable_in(map@).contains(x) && exists|k: int|
                    0 <= k < i + 1 && #[trigger] keys@[k] == x by {
                assert(before.contains(x) <==> capturable_in(map@).contains(x) && exists|k: int|
                    0 <= k < i && #[trigger] keys@[k] == x);
                assert(keys@[i as int] == c);
            }
        }
        i += 1;
    }
    proof {
        assert forall|c: Axial| found@.to_set().contains(c) <==> capturable_in(map@).contains(c) by {
            if capturable_in(map@).contains(c) {
                assert(keys@.to_set().contains(c));
                let k = choose|k: int| 0 <= k < keys@.len() && keys@[k] == c;
                assert(keys@[k] == c);
                assert(found@.contains(c));
            }
        }
        assert(found@.to_set() =~= capturable_in(map@));
    }
    found
}

/// What a list holds after a coordinate may have been added to it.
proof fn lemma_found(before: Seq<Axial>, after: Seq<Axial>, c: Axial)
    requires
        after == before || after == before.push(c),
    ensures
        forall|x: Axial| #[trigger]
            after.contains(x) <==> before.contains(x) || (after != before && x == c),
{
    assert forall|x: Axial| #[trigger]
        after.contains(x) <==> before.contains(x) || (after != before && x == c) by {
        if before.contains(x) {
            let i = choose|i: int| 0 <= i < before.len() && before[i] == x;
            assert(after[i] == x);
        }
        if after != before {
            assert(after[before.len() as int] == c);
        }
        if after.contains(x) {
            let i = choose|i: int| 0 <= i < after.len() && after[i] == x;
            if i < before.len() {
                assert(before[i] == x);
            }
        }
    }
}

fn nearest_capturable(found: &Vec<Axial>, desired: Axial, Ghost(cells): Ghost<Map<Axial, Cell>>) -> (c:
    Axial)
    requires
        found@.to_set() == capturable_in(cells),
    ensures
        is_nearest_capturable(cells, desired, c),
{
    match nearest_of(found, desired) {
        Some(c) => {
            assert(capturable_in(cells).contains(c));
            assert(!Set::<Axial>::empty().contains(c));
            c
        },
        None => {
            assert(found@.to_set() =~= Set::<Axial>::empty());
            desired
        },
    }
}

/// Whether arithmetic around a coordinate stays in range.
pub open spec fn is_moderate(c: Axial) -> bool {
    -2_000_000 <= c.q <= 2_000_000 && -2_000_000 <= c.r <= 2_000_000
}

/// Whether every coordinate around a centre can take its first soldiers.
pub fn full_seed_footprint(map: &HexMap, center: Axial, radius: u64) -> (full: bool)
    requires
        is_moderate(center),
        radius <= 1_000_000,
    ensures
        full == has_footprint(map@, center, radius as int),
{
    let reach: i32 = radius as i32;
    let mut dq: i32 = -reach;
    while dq <= reach
        invariant
            is_moderate(center),
            reach == radius,
            radius <= 1_000_000,
            -reach <= dq <= reach + 1,
            forall|c: Axial|
                hex_distance(c, center) <= radius && c.q < center.q + dq
                    ==> #[trigger] map@.contains_key(c) && hosts(map@[c], c == center),
        decreases reach + 1 - dq,
    {
        let mut dr: i32 = -reach;
        while dr <= reach
            invariant
                is_moderate(center),
                reach == radius,
                radius <= 1_000_000,
                -reach <= dq <= reach,
                -reach <= dr <= reach + 1,
                forall|c: Axial|
                    hex_distance(c, center) <= radius && (c.q < center.q + dq || (c.q == center.q
                        + dq && c.r < center.r + dr)) ==> #[trigger] map@.contains_key(c) && hosts(
                        map@[c],
                        c == center,
                    ),
            decreases reach + 1 - dr,
        {
            let c = Axial::new(center.q + dq, center.r + dr);
            if c.distance(center) <= radius {
                let fine = match map.get(c) {
                    Some(cell) => {
                        let seeded: u64 = if c == center {
                            70
                        } else {
                            35
                        };
                        cell.capturable && cell.terrain.ground_passable() && cell.military_capacity
                            >= seeded
                    },
                    None => false,
                };
                if !fine {
                    assert(hex_distance(c, center) <= radius);
                    assert(!(map@.contains_key(c) && hosts(map@[c], c == center)));
                    return false;
                }
            }
            dr += 1;
        }
        assert forall|c: Axial|
            hex_distance(c, center) <= radius && c.q < center.q + dq + 1 implies #[trigger] map@.contains_key(
            c) && hosts(map@[c], c == center) by {
            lemma_within(c, center, radius as int);
        }
        dq += 1;
    }
    assert forall|c: Axial| hex_distance(c, center) <= radius implies #[trigger] map@.contains_key(c)
        && hosts(map@[c], c == center) by {
        lemma_within(c, center, radius as int);
    }
    true
}

/// Near coordinates differ little in column and row.
proof fn lemma_within(c: Axial, center: Axial, radius: int)
    requires
        hex_distance(c, center) <= radius,
    ensures
        -radius <= c.q - center.q <= radius,
        -radius <= c.r - center.r <= radius,
{
}

/// The cells of a map around a centre.
fn cells_around(map: &HexMap, center: Axial, radius: u64) -> (found: Vec<Axial>)
    requires
        is_moderate(center),
        radius <= 1_000_000,
    ensures
        found@.to_set() == ball(map@, center, radius as int),
{
    let reach: i32 = radius as i32;
    let mut found: Vec<Axial> = Vec::new();
    let mut dq: i32 = -reach;
    while dq <= reach
        invariant
            is_moderate(center),
            reach == radius,
            radius <= 1_000_000,
            -reach <= dq <= reach + 1,
            forall|c: Axial| #[trigger]
                found@.contains(c) <==> ball(map@, center, radius as int).contains(c) && c.q
                    < center.q + dq,
        decreases reach + 1 - dq,
    {
        let mut dr: i32 = -reach;
        proof {
            assert forall|c: Axial| #[trigger]
                found@.contains(c) <==> ball(map@, center, radius as int).contains(c) && (c.q
                    < center.q + dq || (c.q == center.q + dq && c.r < center.r + dr)) by {
                if ball(map@, center, radius as int).contains(c) {
                    lemma_within(c, center, radius as int);
                }
            }
        }
        while dr <= reach
            invariant
                is_moderate(center),
                reach == radius,
                radius <= 1_000_000,
                -reach <= dq <= reach,
                -reach <= dr <= reach + 1,
                forall|c: Axial| #[trigger]
                    found@.contains(c) <==> ball(map@, center, radius as int).contains(c) && (c.q
                        < center.q + dq || (c.q == center.q + dq && c.r < center.r + dr)),
            decreases reach + 1 - dr,
        {
            let c = Axial::new(center.q + dq, center.r + dr);
            let ghost before = found@;
            if c.distance(center) <= radius && map.contains(c) {
                found.push(c);
            }
            proof {
                lemma_found(before, found@, c);
                assert forall|x: Axial| #[trigger]
                    found@.contains(x) <==> ball(map@, center, radius as int).contains(x) && (x.q
                        < center.q + dq || (x.q == center.q + dq && x.r < center.r + dr + 1)) by {
                    assert(before.contains(x) <==> ball(map@, center, radius as int).contains(x)
                        && (x.q < center.q + dq || (x.q == center.q + dq && x.r < center.r + dr)));
                    if x.q == center.q + dq && x.r == center.r + dr {
                        assert(x == c);
                    }
                }
            }
            dr += 1;
        }
        proof {
            assert forall|c: Axial| #[trigger]
                found@.contains(c) <==> ball(map@, center, radius as int).contains(c) && c.q
                    < center.q + dq + 1 by {
                if ball(map@, center, radius as int).contains(c) {
                    lemma_within(c, center, radius as int);
                }
            }
        }
        dq += 1;
    }
    proof {
        assert forall|c: Axial| found@.to_set().contains(c) <==> ball(
            map@,
            center,
            radius as int,
        ).contains(c) by {
            assert(found@.contains(c) <==> ball(map@, center, radius as int).contains(c) && c.q
                < center.q + dq);
            if ball(map@, center, radius as int).contains(c) {
                lemma_within(c, center, radius as int);
            }
        }
        assert(found@.to_set() =~= ball(map@, center, radius as int));
    }
    found
}

/// Whether the passable cells of a region form one connected part.
pub fn forms_one_part(map: &HexMap, selection: &[Axial]) -> (one: bool)
    requires
        forall|c: Axial| #[trigger] map@.contains_key(c) ==> c.interior(),
    ensures
        one == is_one_part(map@, selection@.to_set()),
{
    let list = connected_components(map, selection, &MovementConfig::default());
    let ghost region = eligible(map@, selection@.to_set());
    proof {
        let s = contents(list@);
        assert(is_component_list(map@, standard_movement(), region, s));
        if is_one_part(map@, selection@.to_set()) {
            let t = choose|t: Seq<Seq<Axial>>| #[trigger]
                is_component_list(map@, standard_movement(), region, t) && t.len() == 1;
            law_component_list_is_unique(map@, standard_movement(), region, s, t);
        }
    }
    list.len() == 1
}

/// Whether a player can start at a place.
fn check_site(map: &HexMap, chosen: &Vec<Axial>, radius: u64, spacing: u64, c: Axial) -> (fine: bool)
    requires
        is_moderate(c),
        radius <= 1_000_000,
        forall|c: Axial| #[trigger] map@.contains_key(c) ==> c.interior(),
    ensures
        fine == is_site(map@, chosen@, radius as int, spacing as int, c),
{
    let mut i: usize = 0;
    while i < chosen.len()
        invariant
            i <= chosen@.len(),
            forall|k: int| 0 <= k < i ==> hex_distance(#[trigger] chosen@[k], c) >= spacing,
        decreases chosen.len() - i,
    {
        if chosen[i].distance(c) < spacing {
            assert(hex_distance(chosen@[i as int], c) < spacing);
            return false;
        }
        i += 1;
    }
    if !full_seed_footprint(map, c, radius) {
        return false;
    }
    let around = cells_around(map, c, radius);
    forms_one_part(map, around.as_slice())
}

/// Finds the nearest place where a player can start.
fn nearest_valid_spawn(
    map: &HexMap,
    desired: Axial,
    chosen: &Vec<Axial>,
    radius: u64,
    spacing: u64,
    search_bound: i32,
) -> (found: Option<Axial>)
    requires
        -500_000 <= desired.q <= 500_000,
        -500_000 <= desired.r <= 500_000,
        0 <= search_bound <= 500_000,
        radius <= 1_000_000,
        forall|c: Axial| #[trigger] map@.contains_key(c) ==> c.interior(),
    ensures
        match found {
            Some(c) => is_best_site(
                map@,
                desired,
                chosen@,
                radius as int,
                spacing as int,
                search_bound as int,
                c,
            ),
            None => forall|c: Axial| #[trigger]
                is_site(map@, chosen@, radius as int, spacing as int, c) ==> hex_distance(
                    c,
                    desired,
                ) > search_bound,
        },
{
    let mut distance: i32 = 0;
    while distance <= search_bound
        invariant
            -500_000 <= desired.q <= 500_000,
            -500_000 <= desired.r <= 500_000,
            0 <= distance <= search_bound + 1,
            search_bound <= 500_000,
            radius <= 1_000_000,
            forall|c: Axial| #[trigger] map@.contains_key(c) ==> c.interior(),
            forall|c: Axial| #[trigger]
                is_site(map@, chosen@, radius as int, spacing as int, c) ==> hex_distance(
                    c,
                    desired,
                ) >= distance,
        decreases search_bound + 1 - distance,
    {
        let mut q: i32 = desired.q - distance;
        while q <= desired.q + distance
            invariant
                -500_000 <= desired.q <= 500_000,
                -500_000 <= desired.r <= 500_000,
                0 <= distance <= search_bound,
                search_bound <= 500_000,
                radius <= 1_000_000,
                desired.q - distance <= q <= desired.q + distance + 1,
                forall|c: Axial| #[trigger] map@.contains_key(c) ==> c.interior(),
                forall|c: Axial| #[trigger]
                    is_site(map@, chosen@, radius as int, spacing as int, c) ==> hex_distance(
                        c,
                        desired,
                    ) > distance || (hex_distance(c, desired) == distance && c.q >= q),
            decreases desired.q + distance + 1 - q,
        {
            let mut r: i32 = desired.r - distance;
            assert forall|c: Axial| #[trigger]
                is_site(map@, chosen@, radius as int, spacing as int, c) implies hex_distance(
                c,
                desired,
            ) > distance || (hex_distance(c, desired) == distance && (c.q > q || (c.q == q && c.r
                >= r))) by {
                if hex_distance(c, desired) == distance {
                    lemma_within(c, desired, distance as int);
                }
            }
            while r <= desired.r + distance
                invariant
                    -500_000 <= desired.q <= 500_000,
                    -500_000 <= desired.r <= 500_000,
                    0 <= distance <= search_bound,
                    search_bound <= 500_000,
                    radius <= 1_000_000,
                    desired.q - distance <= q <= desired.q + distance,
                    desired.r - distance <= r <= desired.r + distance + 1,
                    forall|c: Axial| #[trigger] map@.contains_key(c) ==> c.interior(),
                    forall|c: Axial| #[trigger]
                        is_site(map@, chosen@, radius as int, spacing as int, c) ==> hex_distance(
                            c,
                            desired,
                        ) > distance || (hex_distance(c, desired) == distance && (c.q > q || (c.q
                            == q && c.r >= r))),
                decreases desired.r + distance + 1 - r,
            {
                let candidate = Axial::new(q, r);
                if candidate.distance(desired) == distance as u64 && check_site(
                    map,
                    chosen,
                    radius,
                    spacing,
                    candidate,
                ) {
                    return Some(candidate);
                }
                r += 1;
            }
            assert forall|c: Axial| #[trigger]
                is_site(map@, chosen@, radius as int, spacing as int, c) implies hex_distance(
                c,
                desired,
            ) > distance || (hex_distance(c, desired) == distance && c.q >= q + 1) by {
                if hex_distance(c, desired) == distance {
                    lemma_within(c, desired, distance as int);
                }
            }
            q += 1;
        }
        assert forall|c: Axial| #[trigger]
            is_site(map@, chosen@, radius as int, spacing as int, c) implies hex_distance(
            c,
            desired,
        ) >= distance + 1 by {
            if hex_distance(c, desired) == distance {
                lemma_within(c, desired, distance as int);
            }
        }
        distance += 1;
    }
    None
}

/// The places of a hex ring around the origin, clockwise from its west corner.
pub fn axial_ring(radius: i32) -> (ring: Vec<Axial>)
    requires
        0 < radius < 100_000_000,
    ensures
        ring@.len() == 6 * radius,
        forall|k: int|
            0 <= k < ring@.len() ==> (#[trigger] ring@[k]).q == ring_at(radius as int, k).0
                && ring@[k].r == ring_at(radius as int, k).1,
{
    let mut ring: Vec<Axial> = Vec::new();
    let mut side: i32 = 0;
    while side < 6
        invariant
            0 <= side <= 6,
            0 < radius < 100_000_000,
            ring@.len() == side * radius,
            forall|k: int|
                0 <= k < ring@.len() ==> (#[trigger] ring@[k]).q == ring_at(radius as int, k).0
                    && ring@[k].r == ring_at(radius as int, k).1,
        decreases 6 - side,
    {
        let mut j: i32 = 0;
        while j < radius
            invariant
                0 <= side < 6,
                0 <= j <= radius,
                0 < radius < 100_000_000,
                ring@.len() == side * radius + j,
                forall|k: int|
                    0 <= k < ring@.len() ==> (#[trigger] ring@[k]).q == ring_at(
                        radius as int,
                        k,
                    ).0 && ring@[k].r == ring_at(radius as int, k).1,
            decreases radius - j,
        {
            let c = if side == 0 {
                Axial::new(j - radius, -j)
            } else if side == 1 {
                Axial::new(j, -radius)
            } else if side == 2 {
                Axial::new(radius, j - radius)
            } else if side == 3 {
                Axial::new(radius - j, j)
            } else if side == 4 {
                Axial::new(-j, radius)
            } else {
                Axial::new(-radius, radius - j)
            };
            proof {
                let k = side * radius + j;
                vstd::arithmetic::div_mod::lemma_fundamental_div_mod_converse(
                    k,
                    radius as int,
                    side as int,
                    j as int,
                );
            }
            ring.push(c);
            j += 1;
        }
        assert((side + 1) * radius == side * radius + radius) by (nonlinear_arith);
        side += 1;
    }
    ring
}

fn is_open(map: &HexMap, c: Axial) -> (open: bool)
    ensures
        open == is_open_ground(map@, c),
{
    match map.get(c) {
        Some(cell) => cell.capturable && cell.terrain.ground_passable(),
        None => false,
    }
}

/// The places where a player can start with one cell, in ascending order.
pub fn high_scale_spawn_candidates(map: &HexMap) -> (candidates: Vec<Axial>)
    requires
        forall|c: Axial| #[trigger] map@.contains_key(c) ==> c.interior(),
    ensures
        candidates@ == ordered(frontage(map@)),
        ascending(candidates@),
        candidates@.to_set() == frontage(map@),
{
    let keys = map.coordinates();
    let mut candidates: Vec<Axial> = Vec::new();
    let mut i: usize = 0;
    while i < keys.len()
        invariant
            i <= keys@.len(),
            ascending(keys@),
            keys@.to_set() == map@.dom(),
            forall|c: Axial| #[trigger] map@.contains_key(c) ==> c.interior(),
            ascending(candidates@),
            forall|c: Axial| #[trigger]
                candidates@.contains(c) <==> has_frontage(map@, c) && exists|k: int|
                    0 <= k < i && #[trigger] keys@[k] == c,
        decreases keys.len() - i,
    {
        let c = keys[i];
        let ghost before = candidates@;
        assert(keys@.to_set().contains(c));
        assert(map@.contains_key(c));
        let mut found = false;
        if is_open(map, c) {
            let around = c.neighbors();
            let mut d: usize = 0;
            while d < 6 && !found
                invariant
                    d <= 6,
                    around@ == Seq::new(6, |i: int| c.step(i)),
                    found ==> exists|e: int|
                        0 <= e < 6 && is_open_ground(map@, #[trigger] c.step(e)),
                    !found ==> forall|e: int|
                        0 <= e < d ==> !is_open_ground(map@, #[trigger] c.step(e)),
                decreases 6 - d,
            {
                assert(around@[d as int] == c.step(d as int));
                found = is_open(map, around[d]);
                d += 1;
            }
        }
        if found {
            candidates.push(c);
        }
        proof {
            lemma_found(before, candidates@, c);
            assert(found == has_frontage(map@, c));
            assert forall|x: Axial| #[trigger]
                candidates@.contains(x) <==> has_frontage(map@, x) && exists|k: int|
                    0 <= k < i + 1 && #[trigger] keys@[k] == x by {
                assert(before.contains(x) <==> has_frontage(map@, x) && exists|k: int|
                    0 <= k < i && #[trigger] keys@[k] == x);
                assert(keys@[i as int] == c);
            }
            assert forall|a: int, b: int| 0 <= a < b < candidates@.len() implies axial_lt(
                #[trigger] candidates@[a],
                #[trigger] candidates@[b],
            ) by {
                if b == before.len() {
                    assert(before.contains(before[a]));
                    let k = choose|k: int| 0 <= k < i && #[trigger] keys@[k] == before[a];
                    assert(axial_lt(keys@[k], keys@[i as int]));
                }
            }
        }
        i += 1;
    }
    proof {
        assert forall|c: Axial| candidates@.to_set().contains(c) <==> frontage(map@).contains(c) by {
            if has_frontage(map@, c) {
                assert(keys@.to_set().contains(c));
                let k = choose|k: int| 0 <= k < keys@.len() && keys@[k] == c;
                assert(keys@[k] == c);
                assert(candidates@.contains(c));
            }
        }
        assert(candidates@.to_set() =~= frontage(map@));
        crate::axials::lemma_ordered_is(candidates@, frontage(map@));
    }
    candidates
}

proof fn lemma_extremes(s: Seq<int>)
    requires
        s.len() > 0,
    ensures
        forall|i: int| 0 <= i < s.len() ==> lowest(s) <= #[trigger] s[i] <= highest(s),
        s.contains(lowest(s)),
        s.contains(highest(s)),
    decreases s.len(),
{
    if s.len() > 1 {
        let t = s.drop_last();
        lemma_extremes(t);
        assert forall|i: int| 0 <= i < s.len() implies lowest(s) <= #[trigger] s[i] <= highest(s) by {
            if i < t.len() {
                assert(lowest(t) <= t[i] <= highest(t));
            }
        }
        let i = choose|i: int| 0 <= i < t.len() && t[i] == lowest(t);
        let j = choose|j: int| 0 <= j < t.len() && t[j] == highest(t);
        assert(s[i] == lowest(t));
        assert(s[j] == highest(t));
        assert(s[s.len() - 1] == s.last());
    } else {
        assert(s[0] == lowest(s));
    }
}

/// The desired place of the first player.
fn first_desired(candidates: &Vec<Axial>) -> (desired: Axial)
    requires
        candidates@.len() > 0,
        forall|i: int| 0 <= i < candidates@.len() ==> is_moderate(#[trigger] candidates@[i]),
    ensures
        desired == first_target(candidates@),
{
    let mut q_low: i32 = candidates[0].q;
    let mut q_high: i32 = candidates[0].q;
    let mut r_low: i32 = candidates[0].r;
    let mut r_high: i32 = candidates[0].r;
    let mut i: usize = 1;
    let ghost qs = columns(candidates@);
    let ghost rs = rows(candidates@);
    assert(qs.take(1) =~= seq![q_low as int]);
    assert(rs.take(1) =~= seq![r_low as int]);
    while i < candidates.len()
        invariant
            1 <= i <= candidates@.len(),
            qs == columns(candidates@),
            rs == rows(candidates@),
            q_low == lowest(qs.take(i as int)),
            q_high == highest(qs.take(i as int)),
            r_low == lowest(rs.take(i as int)),
            r_high == highest(rs.take(i as int)),
        decreases candidates.len() - i,
    {
        let c = candidates[i];
        assert(qs.take(i + 1).drop_last() =~= qs.take(i as int));
        assert(rs.take(i + 1).drop_last() =~= rs.take(i as int));
        assert(qs.take(i + 1).last() == c.q);
        assert(rs.take(i + 1).last() == c.r);
        if c.q < q_low {
            q_low = c.q;
        }
        if c.q > q_high {
            q_high = c.q;
        }
        if c.r < r_low {
            r_low = c.r;
        }
        if c.r > r_high {
            r_high = c.r;
        }
        i += 1;
    }
    proof {
        assert(qs.take(i as int) =~= qs);
        assert(rs.take(i as int) =~= rs);
        lemma_extremes(qs);
        lemma_extremes(rs);
        let a = choose|a: int| 0 <= a < qs.len() && qs[a] == lowest(qs);
        let b = choose|b: int| 0 <= b < qs.len() && qs[b] == highest(qs);
        let c = choose|c: int| 0 <= c < rs.len() && rs[c] == lowest(rs);
        let d = choose|d: int| 0 <= d < rs.len() && rs[d] == highest(rs);
        assert(is_moderate(candidates@[a]) && is_moderate(candidates@[b]) && is_moderate(
            candidates@[c],
        ) && is_moderate(candidates@[d]));
        assert(qs[a] <= qs[b]);
    }
    let q: i32 = q_low + (q_high - q_low) / 4;
    let r: i32 = quotient(r_low as i64 + r_high as i64, 2) as i32;
    Axial::new(q, r)
}

/// The gaps of the candidates that are still free.
pub open spec fn are_gaps(
    candidates: Seq<Axial>,
    chosen: Seq<Axial>,
    taken: Seq<bool>,
    gaps: Seq<u64>,
) -> bool {
    &&& taken.len() == candidates.len()
    &&& gaps.len() == candidates.len()
    &&& forall|k: int|
        0 <= k < candidates.len() ==> (#[trigger] taken[k] <==> chosen.contains(candidates[k]))
    &&& forall|k: int|
        0 <= k < candidates.len() && !taken[k] ==> #[trigger] gaps[k] == gap(chosen, candidates[k])
}

/// Takes a candidate and brings the gaps up to date.
pub fn take_candidate(
    candidates: &Vec<Axial>,
    index: usize,
    chosen: &mut Vec<Axial>,
    taken: &mut Vec<bool>,
    gaps: &mut Vec<u64>,
)
    requires
        index < candidates@.len(),
        ascending(candidates@),
        are_gaps(candidates@, old(chosen)@, old(taken)@, old(gaps)@),
    ensures
        final(chosen)@ == old(chosen)@.push(candidates@[index as int]),
        are_gaps(candidates@, final(chosen)@, final(taken)@, final(gaps)@),
{
    let spawn = candidates[index];
    let ghost before = chosen@;
    let ghost was_taken = taken@;
    let ghost was_gaps = gaps@;
    chosen.push(spawn);
    taken.set(index, true);
    proof {
        lemma_found(before, chosen@, spawn);
        assert(chosen@.drop_last() =~= before);
        assert forall|k: int| 0 <= k < candidates@.len() implies (#[trigger] taken@[k]
            <==> chosen@.contains(candidates@[k])) by {
            assert(was_taken[k] <==> before.contains(candidates@[k]));
            if k != index && candidates@[k] == spawn {
                if k < index {
                    assert(axial_lt(candidates@[k], candidates@[index as int]));
                } else {
                    assert(axial_lt(candidates@[index as int], candidates@[k]));
                }
            }
        }
    }
    let mut i: usize = 0;
    while i < candidates.len()
        invariant
            i <= candidates@.len(),
            taken@.len() == candidates@.len(),
            gaps@.len() == candidates@.len(),
            chosen@.len() > 0,
            chosen@.last() == spawn,
            chosen@.drop_last() == before,
            forall|k: int|
                0 <= k < i && !taken@[k] ==> #[trigger] gaps@[k] == gap(chosen@, candidates@[k]),
            forall|k: int|
                i <= k < candidates@.len() && !taken@[k] ==> #[trigger] gaps@[k] == gap(
                    before,
                    candidates@[k],
                ),
        decreases candidates.len() - i,
    {
        if !taken[i] {
            let distance: u64 = candidates[i].distance(spawn);
            if distance < gaps[i] {
                gaps.set(i, distance);
            }
        }
        i += 1;
    }
}

/// The free candidate that lies farthest from all that are chosen.
pub fn farthest_free(
    candidates: &Vec<Axial>,
    chosen: &Vec<Axial>,
    taken: &Vec<bool>,
    gaps: &Vec<u64>,
) -> (next: Option<usize>)
    requires
        ascending(candidates@),
        are_gaps(candidates@, chosen@, taken@, gaps@),
    ensures
        match next {
            Some(x) => x < candidates@.len() && !taken@[x as int] && is_outermost(
                candidates@.to_set(),
                chosen@,
                candidates@[x as int],
            ),
            None => forall|j: int| 0 <= j < candidates@.len() ==> #[trigger] taken@[j],
        },
{
    let n: usize = candidates.len();
    let mut next: Option<usize> = None;
    let mut k: usize = 0;
    while k < n
        invariant
            k <= n,
            n == candidates@.len(),
            are_gaps(candidates@, chosen@, taken@, gaps@),
            next matches Some(x) ==> x < k && !taken@[x as int],
            next is None ==> forall|j: int| 0 <= j < k ==> #[trigger] taken@[j],
            forall|j: int|
                0 <= j < k && !(#[trigger] taken@[j]) && Some(j as usize) != next ==> farther(
                    chosen@,
                    candidates@[next.unwrap() as int],
                    candidates@[j],
                ),
            ascending(candidates@),
        decreases n - k,
    {
        if !taken[k] {
            match next {
                Some(x) => {
                    assert(gaps@[x as int] == gap(chosen@, candidates@[x as int]));
                    assert(gaps@[k as int] == gap(chosen@, candidates@[k as int]));
                    assert(axial_lt(candidates@[x as int], candidates@[k as int]));
                    if gaps[k] >= gaps[x] {
                        next = Some(k);
                    }
                },
                None => {
                    next = Some(k);
                },
            }
        }
        k += 1;
    }
    proof {
        if next is Some {
            let x = next.unwrap() as int;
            let c = candidates@[x];
            assert(candidates@.to_set().contains(c));
            assert(taken@[x] <==> chosen@.contains(c));
            assert forall|d: Axial| #[trigger]
                candidates@.to_set().contains(d) && !chosen@.contains(d) && d != c implies farther(
                chosen@,
                c,
                d,
            ) by {
                let j = choose|j: int| 0 <= j < candidates@.len() && candidates@[j] == d;
                assert(taken@[j] <==> chosen@.contains(candidates@[j]));
            }
        }
    }
    next
}

/// Spreads starts out by always taking the farthest place.
fn farthest_point_spawns(map: &HexMap, player_count: u16) -> (spawns: Option<Vec<Axial>>)
    requires
        player_count > 0,
        forall|c: Axial| #[trigger] map@.contains_key(c) ==> is_moderate(c),
    ensures
        match spawns {
            Some(s) => {
                &&& s@.len() == player_count
                &&& frontage(map@).len() >= player_count
                &&& is_spread_start(map@, s@)
            },
            None => forall|s: Seq<Axial>|
                s.len() == player_count && frontage(map@).len() >= player_count
                    ==> !#[trigger] is_spread_start(map@, s),
        },
{
    let ghost cells = map@;
    let needed: usize = player_count as usize;
    let candidates = high_scale_spawn_candidates(map);
    let n: usize = candidates.len();
    proof {
        crate::axials::lemma_ascending_no_duplicates(candidates@);
        assert(frontage(cells).len() == n);
        assert forall|i: int| 0 <= i < candidates@.len() implies is_moderate(
            #[trigger] candidates@[i],
        ) by {
            assert(candidates@.to_set().contains(candidates@[i]));
            assert(cells.contains_key(candidates@[i]));
        }
    }
    if n < needed {
        return None;
    }
    let desired = first_desired(&candidates);
    let mut spawns: Vec<Axial> = Vec::new();
    let mut taken: Vec<bool> = Vec::new();
    let mut gaps: Vec<u64> = Vec::new();
    let mut first: usize = 0;
    let mut i: usize = 0;
    while i < n
        invariant
            i <= n,
            n == candidates@.len(),
            n > 0,
            first < n,
            i > 0 ==> first < i,
            taken@.len() == i,
            gaps@.len() == i,
            forall|k: int| 0 <= k < i ==> !#[trigger] taken@[k],
            forall|k: int| 0 <= k < i ==> #[trigger] gaps@[k] == u64::MAX,
            i == 0 ==> first == 0,
            forall|k: int|
                0 <= k < i && #[trigger] candidates@[k] != candidates@[first as int] ==> nearer(
                    desired,
                    candidates@[first as int],
                    candidates@[k],
                ),
        decreases n - i,
    {
        let c = candidates[i];
        let best = candidates[first];
        let distance: u64 = c.distance(desired);
        let closest: u64 = best.distance(desired);
        if distance < closest || (distance == closest && coordinate_lt(c, best)) {
            first = i;
        }
        taken.push(false);
        gaps.push(u64::MAX);
        i += 1;
    }
    proof {
        assert(are_gaps(candidates@, spawns@, taken@, gaps@));
        let c = candidates@[first as int];
        assert(candidates@.to_set().contains(c));
        assert forall|d: Axial| #[trigger] frontage(cells).contains(d) && d != c implies nearer(
            desired,
            c,
            d,
        ) by {
            assert(candidates@.to_set().contains(d));
            let k = choose|k: int| 0 <= k < candidates@.len() && candidates@[k] == d;
            assert(nearer(desired, c, candidates@[k]));
        }
        assert(is_nearest(frontage(cells), desired, c));
    }
    take_candidate(&candidates, first, &mut spawns, &mut taken, &mut gaps);
    assert(is_spread_start(cells, spawns@));
    while spawns.len() < needed
        invariant
            cells == map@,
            needed == player_count,
            n == candidates@.len(),
            needed <= n,
            1 <= spawns@.len() <= needed,
            ascending(candidates@),
            candidates@.to_set() == frontage(cells),
            frontage(cells).len() == n,
            are_gaps(candidates@, spawns@, taken@, gaps@),
            is_spread_start(cells, spawns@),
        decreases needed - spawns.len(),
    {
        let next: Option<usize> = farthest_free(&candidates, &spawns, &taken, &gaps);
        let index: usize = match next {
            Some(x) => x,
            None => {
                proof {
                    lemma_not_all_taken(candidates@, spawns@, taken@);
                }
                return None;
            },
        };
        let ghost c = candidates@[index as int];
        proof {
            assert(candidates@.to_set().contains(c));
            assert(gaps@[index as int] == gap(spawns@, c));
        }
        if gaps[index] < 2 {
            proof {
                assert forall|s: Seq<Axial>| s.len() == player_count implies !#[trigger] is_spread_start(
                    cells,
                    s,
                ) by {
                    if is_spread_start(cells, s) {
                        let m = spawns@.len() as int;
                        lemma_spread_starts_agree(cells, spawns@, s, m);
                        assert(spawns@.take(m) =~= spawns@);
                        assert(is_farthest(frontage(cells), s.take(m), s[m]));
                        if s[m] != c {
                            assert(farther(spawns@, c, s[m]));
                        }
                    }
                }
            }
            return None;
        }
        let ghost before = spawns@;
        take_candidate(&candidates, index, &mut spawns, &mut taken, &mut gaps);
        proof {
            assert forall|i: int| 0 <= i < spawns@.len() implies if i == 0 {
                is_nearest(
                    frontage(cells),
                    first_target(ordered(frontage(cells))),
                    #[trigger] spawns@[i],
                )
            } else {
                is_farthest(frontage(cells), spawns@.take(i), spawns@[i])
            } by {
                assert(spawns@.take(i) =~= before.take(i));
                if i < before.len() {
                    assert(spawns@[i] == before[i]);
                } else {
                    assert(before.take(i) =~= before);
                }
            }
        }
    }
    Some(spawns)
}

/// Fewer chosen places than candidates leave one free.
pub proof fn lemma_not_all_taken(candidates: Seq<Axial>, chosen: Seq<Axial>, taken: Seq<bool>)
    requires
        ascending(candidates),
        chosen.len() < candidates.len(),
        taken.len() == candidates.len(),
        forall|k: int|
            0 <= k < candidates.len() ==> (#[trigger] taken[k] <==> chosen.contains(candidates[k])),
    ensures
        exists|k: int| 0 <= k < candidates.len() && !#[trigger] taken[k],
{
    crate::axials::lemma_ascending_no_duplicates(candidates);
    vstd::seq_lib::seq_to_set_is_finite(chosen);
    chosen.lemma_cardinality_of_set();
    if forall|k: int| 0 <= k < candidates.len() ==> #[trigger] taken[k] {
        assert(candidates.to_set().subset_of(chosen.to_set())) by {
            assert forall|c: Axial| candidates.to_set().contains(
                c,
            ) implies chosen.to_set().contains(c) by {
                let k = choose|k: int| 0 <= k < candidates.len() && candidates[k] == c;
                assert(taken[k]);
            }
        }
        vstd::set_lib::lemma_len_subset(candidates.to_set(), chosen.to_set());
    }
}

/// The starting places of a map, if it has room for them.
pub fn spawn_cells(map: &HexMap, width: u16, height: u16, player_count: u16) -> (spawns: Option<
    Vec<Axial>,
>)
    requires
        player_count >= 2,
        player_count == 2 || short_side(width, height) >= 4,
        forall|c: Axial| #[trigger] map@.contains_key(c) ==> is_moderate(c),
    ensures
        player_count == 2 ==> spawns is Some,
        match spawns {
            Some(s) => is_start(map@, width, height, player_count, s@),
            None => forall|s: Seq<Axial>|
                !#[trigger] is_start(map@, width, height, player_count, s),
        },
{
    let q_min: i32 = -((width / 2) as i32);
    let r_min: i32 = -((height / 2) as i32);
    if player_count == 2 {
        let found = capturable_cells(map);
        let row: i32 = r_min + (height / 2) as i32;
        let tripled: u32 = width as u32 * 3;
        let east: u32 = if tripled <= u16::MAX as u32 {
            tripled
        } else {
            u16::MAX as u32
        };
        let mut spawns: Vec<Axial> = Vec::new();
        spawns.push(
            nearest_capturable(&found, Axial::new(q_min + (width / 4) as i32, row), Ghost(map@)),
        );
        spawns.push(
            nearest_capturable(&found, Axial::new(q_min + (east / 4) as i32, row), Ghost(map@)),
        );
        return Some(spawns);
    }
    if player_count > LEGACY_RING_PLAYER_LIMIT {
        return farthest_point_spawns(map, player_count);
    }
    let short: u16 = if width <= height {
        width
    } else {
        height
    };
    let ring_radius: i32 = (short / 4) as i32;
    let ring = axial_ring(ring_radius);
    let center = Axial::new(q_min + (width / 2) as i32, r_min + (height / 2) as i32);
    let radius: u64 = seed_radius(short);
    let spacing: u64 = minimum_spawn_spacing(short, player_count);
    let search_bound: i32 = width as i32 + height as i32;
    let mut spawns: Vec<Axial> = Vec::new();
    let mut i: u16 = 0;
    while i < player_count
        invariant
            i <= player_count,
            2 < player_count <= 8,
            short == short_side(width, height),
            short >= 4,
            ring_radius == short as int / 4,
            ring@.len() == 6 * ring_radius,
            forall|k: int|
                0 <= k < ring@.len() ==> (#[trigger] ring@[k]).q == ring_at(
                    ring_radius as int,
                    k,
                ).0 && ring@[k].r == ring_at(ring_radius as int, k).1,
            center.q == first_of(width) + width as int / 2,
            center.r == first_of(height) + height as int / 2,
            radius == footprint_radius(short),
            radius <= 2_731,
            spacing == required_spacing(short, player_count),
            search_bound == width + height,
            forall|c: Axial| #[trigger] map@.contains_key(c) ==> is_moderate(c),
            spawns@.len() == i,
            is_ring_start(map@, width, height, player_count, spawns@),
        decreases player_count - i,
    {
        proof {
            let n = i * (6 * ring_radius);
            assert(0 <= n && n / (player_count as int) < 6 * ring_radius) by (nonlinear_arith)
                requires
                    n == i * (6 * ring_radius),
                    0 <= i < player_count,
                    ring_radius > 0,
            ;
            vstd::arithmetic::div_mod::lemma_div_pos_is_pos(n, player_count as int);
            assert(n <= 8 * (6 * ring_radius)) by (nonlinear_arith)
                requires
                    n == i * (6 * ring_radius),
                    0 <= i <= 8,
                    ring_radius > 0,
            ;
            let k = n / (player_count as int);
            lemma_side(ring_radius as int, k);
        }
        let k: usize = i as usize * ring.len() / player_count as usize;
        let target = ring[k];
        let desired = Axial::new(center.q + target.q, center.r + target.r);
        assert(desired == ring_target(width, height, player_count, i as int));
        let ghost before = spawns@;
        match nearest_valid_spawn(map, desired, &spawns, radius, spacing, search_bound) {
            Some(spawn) => {
                spawns.push(spawn);
                proof {
                    assert forall|j: int| 0 <= j < spawns@.len() implies is_best_site(
                        map@,
                        ring_target(width, height, player_count, j),
                        spawns@.take(j),
                        footprint_radius(short),
                        required_spacing(short, player_count),
                        width + height,
                        #[trigger] spawns@[j],
                    ) by {
                        assert(spawns@.take(j) =~= before.take(j));
                        if j < before.len() {
                            assert(spawns@[j] == before[j]);
                        } else {
                            assert(before.take(j) =~= before);
                        }
                    }
                }
            },
            None => {
                proof {
                    assert forall|s: Seq<Axial>| !#[trigger] is_start(
                        map@,
                        width,
                        height,
                        player_count,
                        s,
                    ) by {
                        if is_start(map@, width, height, player_count, s) {
                            lemma_ring_starts_agree(
                                map@,
                                width,
                                height,
                                player_count,
                                before,
                                s,
                                i as int,
                            );
                            assert(before.take(i as int) =~= before);
                            assert(is_best_site(
                                map@,
                                desired,
                                s.take(i as int),
                                radius as int,
                                spacing as int,
                                width + height,
                                s[i as int],
                            ));
                        }
                    }
                }
                return None;
            },
        }
        i += 1;
    }
    Some(spawns)
}

} // verus!
