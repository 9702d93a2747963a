//! What starts mean: where players begin, with what, and how far apart.
use vstd::prelude::*;
use crate::axials::{lemma_ordered, ordered};
use crate::coord::{hex_distance, Axial};
use crate::front_law::is_earlier;
use crate::island::short_side;
use crate::layers::LayeredWorld;
use crate::map::{Cell, TerrainKind};
use crate::map_check::{
    is_cliff, is_slope, is_step, is_valid, start_fault, state_fault, step_count, steps_from,
};
use crate::patch::WorldPatch;
use crate::placement::{first_wanted, is_placed, is_spread_out, places_of, pool};
use crate::spawning::{
    capturable_in, footprint_radius, frontage, gap, has_footprint, has_frontage, hosts,
    is_best_site, is_farthest, is_nearest_capturable, is_one_part, is_open_ground, is_outermost,
    is_ring_start, is_site, is_spaced, is_spread_start, is_start, nearer, required_spacing,
};
use crate::worldgen::{is_claimant, last_index, seeded_cell, GeneratedMap};

verus! {

/// Two players start west and east in the middle row, a quarter and three
/// quarters of the way across: each on the capturable cell nearest to there, and
/// of several the earliest.
pub proof fn law_two_players_start_opposite(
    cells: Map<Axial, Cell>,
    width: u16,
    height: u16,
    s: Seq<Axial>,
    west: Axial,
    east: Axial,
    c: Axial,
)
    requires
        is_start(cells, width, height, 2, s),
        width * 3 <= u16::MAX,
        west.q == width / 4 - width / 2,
        east.q == (3 * width) / 4 - width / 2,
        west.r == 0,
        east.r == 0,
        cells.contains_key(c),
        cells[c].capturable,
    ensures
        s.len() == 2,
        cells.contains_key(s[0]) && cells[s[0]].capturable,
        cells.contains_key(s[1]) && cells[s[1]].capturable,
        hex_distance(s[0], west) <= hex_distance(c, west),
        hex_distance(s[1], east) <= hex_distance(c, east),
        hex_distance(s[0], west) == hex_distance(c, west) ==> s[0] == c || is_earlier(s[0], c),
        hex_distance(s[1], east) == hex_distance(c, east) ==> s[1] == c || is_earlier(s[1], c),
{
    assert(capturable_in(cells).contains(c));
    assert(is_nearest_capturable(cells, west, s[0]));
    assert(is_nearest_capturable(cells, east, s[1]));
}

/// Whether a player can settle around a place: everything within reach can be
/// taken on foot and holds the first soldiers, 70 in the middle and 35 around it,
/// and hangs together.
pub open spec fn is_roomy(cells: Map<Axial, Cell>, reach: int, c: Axial) -> bool {
    &&& forall|d: Axial|
        hex_distance(d, c) <= reach ==> #[trigger] cells.contains_key(d) && cells[d].capturable
            && cells[d].terrain != TerrainKind::Water && cells[d].military_capacity >= 35
    &&& hex_distance(c, c) <= reach ==> cells[c].military_capacity >= 70
    &&& is_one_part(cells, around(cells, reach, c))
}

/// The cells of a map within reach of a place.
pub open spec fn around(cells: Map<Axial, Cell>, reach: int, c: Axial) -> Set<Axial> {
    Set::new(|d: Axial| cells.contains_key(d) && hex_distance(d, c) <= reach)
}

proof fn lemma_roomy(cells: Map<Axial, Cell>, reach: int, c: Axial)
    requires
        reach >= 0,
    ensures
        has_footprint(cells, c, reach) && is_one_part(
            cells,
            crate::spawning::ball(cells, c, reach),
        ) <==> is_roomy(cells, reach, c),
{
    assert(around(cells, reach, c) =~= crate::spawning::ball(cells, c, reach));
    crate::worldgen::lemma_same_place(c, c);
    if has_footprint(cells, c, reach) {
        assert(cells.contains_key(c));
        assert forall|d: Axial| hex_distance(d, c) <= reach implies #[trigger] cells.contains_key(d)
            && cells[d].capturable && cells[d].terrain != TerrainKind::Water
            && cells[d].military_capacity >= 35 by {
            assert(cells.contains_key(d));
        }
        assert(cells[c].military_capacity >= 70);
        if is_one_part(cells, crate::spawning::ball(cells, c, reach)) {
            assert(is_roomy(cells, reach, c));
        }
    }
    if is_roomy(cells, reach, c) {
        assert forall|d: Axial, b: bool|
            hex_distance(d, c) <= reach && (b ==> d == c) implies #[trigger] hosts(cells[d], b) by {
            assert(cells.contains_key(d));
            if b {
                assert(cells[d].military_capacity >= 70);
            }
        }
        assert forall|d: Axial| hex_distance(d, c) <= reach implies #[trigger] cells.contains_key(
            d,
        ) by {}
        assert(has_footprint(cells, c, reach));
    }
}

/// Up to eight players start with room around them, a twenty-fourth part of the
/// short side and at least two cells each way, so far apart that nobody's room
/// meets another's; and each as near to where they are wanted as those before
/// leave it.
pub proof fn law_ring_starts_have_room(
    cells: Map<Axial, Cell>,
    width: u16,
    height: u16,
    players: u16,
    s: Seq<Axial>,
    i: int,
    c: Axial,
)
    requires
        is_start(cells, width, height, players, s),
        3 <= players <= 8,
        0 <= i < s.len(),
    ensures
        ({
            let short = if width <= height {
                width as int
            } else {
                height as int
            };
            let reach = if short >= 72 {
                short / 24
            } else {
                2
            };
            let wanted = crate::spawning::ring_target(width, height, players, i);
            &&& is_roomy(cells, reach, s[i])
            &&& forall|j: int|
                0 <= j < i ==> {
                    &&& hex_distance(#[trigger] s[j], s[i]) > 2 * reach
                    &&& hex_distance(s[j], s[i]) >= (3 * (short / 4)) / (players as int)
                }
            &&& {
                &&& is_roomy(cells, reach, c)
                &&& hex_distance(c, wanted) <= width + height
                &&& forall|j: int|
                    0 <= j < i ==> hex_distance(#[trigger] s[j], c) >= required_spacing(
                        short as u16,
                        players,
                    )
            } ==> hex_distance(s[i], wanted) <= hex_distance(c, wanted)
        }),
{
    let short = short_side(width, height);
    let reach = footprint_radius(short);
    let wanted = crate::spawning::ring_target(width, height, players, i);
    let spacing = required_spacing(short, players);
    let before = s.take(i);
    assert(is_ring_start(cells, width, height, players, s));
    assert(is_best_site(cells, wanted, before, reach, spacing, width + height, s[i]));
    lemma_roomy(cells, reach, s[i]);
    lemma_roomy(cells, reach, c);
    assert(is_spaced(before, s[i], spacing));
    assert forall|j: int| 0 <= j < i implies {
        &&& hex_distance(#[trigger] s[j], s[i]) > 2 * reach
        &&& hex_distance(s[j], s[i]) >= (3 * (short as int / 4)) / (players as int)
    } by {
        assert(before[j] == s[j]);
    }
    if is_roomy(cells, reach, c) && hex_distance(c, wanted) <= width + height && forall|j: int|
        0 <= j < i ==> hex_distance(#[trigger] s[j], c) >= spacing {
        assert forall|j: int| 0 <= j < before.len() implies hex_distance(#[trigger] before[j], c)
            >= spacing by {
            assert(before[j] == s[j]);
        }
        assert(is_site(cells, before, reach, spacing, c));
        assert(hex_distance(s[i], wanted) <= hex_distance(c, wanted));
    }
}

proof fn lemma_gap(chosen: Seq<Axial>, c: Axial)
    requires
        chosen.len() > 0,
    ensures
        forall|j: int|
            0 <= j < chosen.len() ==> gap(chosen, c) <= hex_distance(c, #[trigger] chosen[j]),
        exists|j: int|
            0 <= j < chosen.len() && gap(chosen, c) == hex_distance(c, #[trigger] chosen[j]),
    decreases chosen.len(),
{
    let rest = chosen.drop_last();
    lemma_near(c, chosen.last());
    let end = chosen.len() - 1;
    assert(chosen[end] == chosen.last());
    if gap(chosen, c) != gap(rest, c) {
        assert(gap(chosen, c) == hex_distance(c, chosen[end]));
    }
    if rest.len() == 0 {
        assert(gap(rest, c) == u64::MAX);
        assert(gap(chosen, c) == hex_distance(c, chosen[end]));
    } else {
        lemma_gap(rest, c);
        assert forall|j: int| 0 <= j < chosen.len() implies gap(chosen, c) <= hex_distance(
            c,
            #[trigger] chosen[j],
        ) by {
            if j < rest.len() {
                assert(rest[j] == chosen[j]);
            }
        }
        if gap(chosen, c) == gap(rest, c) {
            let j = choose|j: int|
                0 <= j < rest.len() && gap(rest, c) == hex_distance(c, #[trigger] rest[j]);
            assert(chosen[j] == rest[j]);
        }
    }
}

proof fn lemma_near(a: Axial, b: Axial)
    ensures
        hex_distance(a, b) < u64::MAX,
{
}

/// Whether a place lies beyond some distance from all others.
pub open spec fn is_beyond(chosen: Seq<Axial>, c: Axial, distance: int) -> bool {
    forall|i: int| 0 <= i < chosen.len() ==> hex_distance(c, #[trigger] chosen[i]) > distance
}

/// Whether one place keeps farther away from some others than another does: it
/// lies farther from all of them than the other does from one.
pub open spec fn keeps_away(chosen: Seq<Axial>, a: Axial, b: Axial) -> bool {
    exists|j: int|
        0 <= j < chosen.len() && is_beyond(chosen, a, hex_distance(b, #[trigger] chosen[j]))
}

proof fn lemma_keeps_away(chosen: Seq<Axial>, a: Axial, b: Axial)
    requires
        chosen.len() > 0,
    ensures
        keeps_away(chosen, a, b) <==> gap(chosen, a) > gap(chosen, b),
{
    lemma_gap(chosen, a);
    lemma_gap(chosen, b);
    let x = choose|j: int|
        0 <= j < chosen.len() && gap(chosen, a) == hex_distance(a, #[trigger] chosen[j]);
    let y = choose|j: int|
        0 <= j < chosen.len() && gap(chosen, b) == hex_distance(b, #[trigger] chosen[j]);
    if keeps_away(chosen, a, b) {
        let j = choose|j: int|
            0 <= j < chosen.len() && is_beyond(chosen, a, hex_distance(b, #[trigger] chosen[j]));
        assert(hex_distance(a, chosen[x]) > hex_distance(b, chosen[j]));
        assert(gap(chosen, b) <= hex_distance(b, chosen[j]));
    }
    if gap(chosen, a) > gap(chosen, b) {
        assert(is_beyond(chosen, a, hex_distance(b, chosen[y])));
    }
}

proof fn lemma_outermost(among: Set<Axial>, chosen: Seq<Axial>, c: Axial, d: Axial)
    requires
        is_outermost(among, chosen, c),
        chosen.len() > 0,
        among.contains(d),
        !chosen.contains(d),
    ensures
        !keeps_away(chosen, d, c),
        d == c || keeps_away(chosen, c, d) || is_earlier(d, c),
{
    lemma_keeps_away(chosen, c, d);
    lemma_keeps_away(chosen, d, c);
}

proof fn lemma_farthest(
    cells: Map<Axial, Cell>,
    width: u16,
    height: u16,
    players: u16,
    s: Seq<Axial>,
    i: int,
)
    requires
        is_start(cells, width, height, players, s),
        players > 8,
        0 < i < s.len(),
    ensures
        is_farthest(frontage(cells), s.take(i), s[i]),
        is_open_ground(cells, s[i]),
{
    assert(is_spread_start(cells, s));
    assert(s[i] == s[i]);
    assert(frontage(cells).contains(s[i]));
}

proof fn lemma_open_beside(cells: Map<Axial, Cell>, c: Axial, d: int)
    requires
        0 <= d < 6,
        is_open_ground(cells, c),
        is_open_ground(cells, c.step(d)),
    ensures
        frontage(cells).contains(c),
{
    assert(has_frontage(cells, c));
}

proof fn lemma_apart(among: Set<Axial>, before: Seq<Axial>, x: Axial, c: Axial)
    requires
        before.len() > 0,
        is_farthest(among, before, x),
        among.contains(c),
        !before.contains(c),
    ensures
        !keeps_away(before, c, x),
        forall|j: int| 0 <= j < before.len() ==> hex_distance(x, #[trigger] before[j]) >= 2,
{
    lemma_outermost(among, before, x, c);
    lemma_gap(before, x);
}

/// More than eight players start on ground that can be taken on foot with such
/// ground beside it. Each after the first starts at least two steps from all
/// before, and no free place keeps farther away from those.
pub proof fn law_many_players_spread_out(
    cells: Map<Axial, Cell>,
    width: u16,
    height: u16,
    players: u16,
    s: Seq<Axial>,
    i: int,
    c: Axial,
    d: int,
)
    requires
        is_start(cells, width, height, players, s),
        players > 8,
        0 < i < s.len(),
        0 <= d < 6,
        cells.contains_key(c) && cells[c].capturable && cells[c].terrain != TerrainKind::Water,
        cells.contains_key(c.step(d)) && cells[c.step(d)].capturable && cells[c.step(d)].terrain
            != TerrainKind::Water,
        !s.take(i).contains(c),
    ensures
        cells.contains_key(s[i]) && cells[s[i]].capturable && cells[s[i]].terrain
            != TerrainKind::Water,
        forall|j: int| 0 <= j < i ==> hex_distance(s[i], #[trigger] s[j]) >= 2,
        !keeps_away(s.take(i), c, s[i]),
{
    lemma_farthest(cells, width, height, players, s, i);
    lemma_open_beside(cells, c, d);
    let before = s.take(i);
    lemma_apart(frontage(cells), before, s[i], c);
    assert forall|j: int| 0 <= j < i implies hex_distance(s[i], #[trigger] s[j]) >= 2 by {
        assert(hex_distance(s[i], before[j]) >= 2);
    }
}

/// In a layered world the first start is the candidate nearest to a point a
/// quarter of the way across and half of the way down; for each further one, no
/// free candidate keeps farther away from those before, and of those that keep
/// as far away the last is taken.
pub proof fn law_world_starts_spread_out(
    world: LayeredWorld,
    p: WorldPatch,
    i: int,
    c: Axial,
)
    requires
        is_placed(world, p),
        0 <= i < p.spawns.unwrap()@.len(),
        places_of(world, pool(world)).contains(c),
        !p.spawns.unwrap()@.take(i).contains(c),
    ensures
        ({
            let s = p.spawns.unwrap()@;
            let wanted = first_wanted(world.manifest);
            &&& places_of(world, pool(world)).contains(s[i])
            &&& i == 0 ==> hex_distance(s[i], wanted) <= hex_distance(c, wanted)
            &&& i > 0 ==> !s.take(i).contains(s[i])
            &&& i > 0 ==> !keeps_away(s.take(i), c, s[i])
            &&& i > 0 ==> c == s[i] || keeps_away(s.take(i), s[i], c) || is_earlier(c, s[i])
        }),
{
    let s = p.spawns.unwrap()@;
    let among = places_of(world, pool(world));
    assert(is_spread_out(among, first_wanted(world.manifest), s));
    assert(s[i] == s[i]);
    if i > 0 {
        assert(is_outermost(among, s.take(i), s[i]));
        lemma_outermost(among, s.take(i), s[i], c);
    }
}

/// Up to eight players own what lies within reach of their start and of no nearer
/// one, if it can be taken: with 70 soldiers and 180 people in the middle, and 35
/// soldiers and 80 people around it. Nothing else changes, and nothing out of
/// reach.
pub proof fn law_settlers_stay_near_their_start(
    spawns: Seq<Axial>,
    short: u16,
    c: Axial,
    cell: Cell,
    i: int,
)
    requires
        spawns.len() <= 8,
        0 <= i < spawns.len(),
        forall|j: int|
            0 <= j < spawns.len() && j != i ==> hex_distance(c, #[trigger] spawns[j])
                > hex_distance(c, spawns[i]),
    ensures
        ({
            let after = seeded_cell(spawns, short, c, cell);
            let near = hex_distance(c, spawns[i]) <= short / 24 || hex_distance(c, spawns[i]) <= 2;
            let middle = c == spawns[i];
            &&& !cell.capturable || !near ==> after == cell
            &&& cell.capturable && near ==> {
                &&& after.owner == Some((i + 1) as u32)
                &&& after.forces.infantry == (if middle {
                    70
                } else {
                    35int
                })
                &&& after.civilian_population == (if middle {
                    180
                } else {
                    80int
                })
                &&& after.civilian_capacity == (if middle {
                    240
                } else {
                    140int
                })
                &&& after.military_capacity == cell.military_capacity
                &&& after.capturable == cell.capturable
                &&& after.habitable == cell.habitable
                &&& after.terrain == cell.terrain
                &&& after.elevation == cell.elevation
                &&& after.coordinate == cell.coordinate
            }
        }),
{
    let radius = footprint_radius(short);
    assert forall|j: int| is_claimant(spawns, radius, c, j) implies j == i by {
        if j != i {
            assert(hex_distance(c, spawns[i]) >= hex_distance(c, spawns[j]));
        }
    }
    if hex_distance(c, spawns[i]) <= radius {
        assert(is_claimant(spawns, radius, c, i));
    } else if exists|j: int| is_claimant(spawns, radius, c, j) {
        let j = choose|j: int| is_claimant(spawns, radius, c, j);
        assert(j == i);
    }
}

proof fn lemma_last_index(s: Seq<Axial>, i: int)
    requires
        0 <= i < s.len(),
        s.no_duplicates(),
    ensures
        last_index(s, s[i]) == i,
    decreases s.len(),
{
    if i < s.len() - 1 {
        let t = s.drop_last();
        assert(s.last() != s[i]);
        assert(t[i] == s[i]);
        assert(t.no_duplicates());
        lemma_last_index(t, i);
    }
}

/// More than eight players own the one cell they start on, with 70 soldiers, room
/// for 100 and 180 people, and nothing else is settled.
pub proof fn law_many_players_own_one_cell(
    spawns: Seq<Axial>,
    short: u16,
    cell: Cell,
    i: int,
    c: Axial,
)
    requires
        8 < spawns.len() <= 500,
        spawns.no_duplicates(),
        0 <= i < spawns.len(),
        cell.capturable,
        !spawns.contains(c),
    ensures
        seeded_cell(spawns, short, c, cell) == cell,
        ({
            let after = seeded_cell(spawns, short, spawns[i], cell);
            &&& after.owner == Some((i + 1) as u32)
            &&& after.forces.infantry == 70
            &&& after.military_capacity == 100
            &&& after.civilian_population == 180
            &&& after.civilian_capacity == 240
            &&& after.terrain == cell.terrain
            &&& after.elevation == cell.elevation
            &&& after.coordinate == cell.coordinate
        }),
{
    assert(spawns.contains(spawns[i]));
    lemma_last_index(spawns, i);
}

proof fn lemma_some_step(cells: Map<Axial, Cell>, keys: Seq<Axial>, test: spec_fn(int) -> bool)
    requires
        step_count(cells, keys, test) > 0,
    ensures
        exists|k: int, d: int|
            0 <= k < keys.len() && 0 <= d < 6 && #[trigger] is_step(
                cells,
                keys[k],
                keys[k].step(d),
                test,
            ),
    decreases keys.len(),
{
    let a = keys.last();
    if steps_from(cells, a, test) > 0 {
        let k = keys.len() - 1;
        assert(keys[k] == a);
        if is_step(cells, a, a.step(0), test) {
            assert(is_step(cells, keys[k], keys[k].step(0), test));
        } else if is_step(cells, a, a.step(1), test) {
            assert(is_step(cells, keys[k], keys[k].step(1), test));
        } else {
            assert(is_step(cells, keys[k], keys[k].step(5), test));
        }
    } else {
        let rest = keys.drop_last();
        lemma_some_step(cells, rest, test);
        let (k, d) = choose|k: int, d: int|
            0 <= k < rest.len() && 0 <= d < 6 && #[trigger] is_step(
                cells,
                rest[k],
                rest[k].step(d),
                test,
            );
        assert(keys[k] == rest[k]);
        assert(is_step(cells, keys[k], keys[k].step(d), test));
    }
}

/// A valid map has a slope that can be walked and a cliff that cannot: somewhere
/// dry neighbours lie one step apart in height, and somewhere more.
pub proof fn law_valid_maps_have_slopes_and_cliffs(g: GeneratedMap)
    requires
        g.cells@.dom().finite(),
        is_valid(g),
    ensures
        exists|a: Axial, d: int|
            0 <= d < 6 && g.cells@.contains_key(a) && #[trigger] g.cells@.contains_key(a.step(d))
                && g.cells@[a].terrain != TerrainKind::Water && g.cells@[a.step(d)].terrain
                != TerrainKind::Water && (g.cells@[a].elevation - g.cells@[a.step(d)].elevation == 1
                || g.cells@[a.step(d)].elevation - g.cells@[a].elevation == 1),
        exists|a: Axial, d: int|
            0 <= d < 6 && g.cells@.contains_key(a) && #[trigger] g.cells@.contains_key(a.step(d))
                && g.cells@[a].terrain != TerrainKind::Water && g.cells@[a.step(d)].terrain
                != TerrainKind::Water && (g.cells@[a].elevation - g.cells@[a.step(d)].elevation > 1
                || g.cells@[a.step(d)].elevation - g.cells@[a].elevation > 1),
{
    let cells = g.cells@;
    let keys = ordered(cells.dom());
    lemma_ordered(cells.dom());
    lemma_some_step(cells, keys, is_slope());
    let (k, d) = choose|k: int, d: int|
        0 <= k < keys.len() && 0 <= d < 6 && #[trigger] is_step(
            cells,
            keys[k],
            keys[k].step(d),
            is_slope(),
        );
    assert(keys.to_set().contains(keys[k]));
    assert(cells.contains_key(keys[k].step(d)));
    lemma_some_step(cells, keys, is_cliff());
    let (l, e) = choose|k: int, d: int|
        0 <= k < keys.len() && 0 <= d < 6 && #[trigger] is_step(
            cells,
            keys[k],
            keys[k].step(d),
            is_cliff(),
        );
    assert(keys.to_set().contains(keys[l]));
    assert(cells.contains_key(keys[l].step(e)));
}

/// On a valid map of 24 by 24 cells or more, whatever can be taken is dry, nobody
/// stands or lives where there is no room, and every owner is one of two to 500
/// players, numbered from one.
pub proof fn law_valid_maps_hold_sound_cells(g: GeneratedMap, c: Axial)
    requires
        is_valid(g),
        g.cells@.contains_key(c),
    ensures
        ({
            let m = g.manifest;
            let cell = g.cells@[c];
            &&& m.width >= 24 && m.height >= 24
            &&& -(m.width / 2) <= c.q < m.width - m.width / 2
            &&& -(m.height / 2) <= c.r < m.height - m.height / 2
            &&& cell.capturable ==> cell.terrain != TerrainKind::Water
            &&& cell.forces.infantry <= cell.military_capacity
            &&& cell.civilian_population <= cell.civilian_capacity
            &&& cell.owner matches Some(owner) ==> 1 <= owner <= m.player_count
            &&& 2 <= m.player_count <= 500
            &&& m.capturable_land > 0
        }),
{
    assert(state_fault(g.cells@[c], g.manifest.player_count) is None);
    assert(crate::worldgen::rectangle(g.manifest.width, g.manifest.height).contains(c));
}

/// On a valid map every player has a start of their own: dry land that can be
/// taken, which they own, apart from the others'.
pub proof fn law_valid_maps_give_everyone_a_start(g: GeneratedMap, i: int, j: int)
    requires
        is_valid(g),
        0 <= j < i < g.manifest.player_count,
    ensures
        ({
            let m = g.manifest;
            let s = m.spawn_cells@;
            let cell = g.cells@[s[i]];
            &&& s.len() == m.player_count
            &&& g.cells@.contains_key(s[i])
            &&& cell.capturable
            &&& cell.terrain != TerrainKind::Water
            &&& cell.owner == Some((i + 1) as u32)
            &&& s[i] != s[j]
            &&& hex_distance(s[j], s[i]) >= 1
            &&& m.player_count <= 8 ==> hex_distance(s[j], s[i]) >= 5
            &&& m.player_count <= 8 ==> cell.military_capacity >= 70
        }),
{
    assert(start_fault(g, i) is None);
    let m = g.manifest;
    let s = m.spawn_cells@;
    assert(hex_distance(s[j], s[i]) >= crate::map_check::start_spacing(m));
    if m.player_count <= 8 {
        crate::worldgen::lemma_same_place(s[i], s[i]);
        assert(hosts(g.cells@[s[i]], true));
    }
}

} // verus!
