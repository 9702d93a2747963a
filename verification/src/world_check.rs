//! Validation of layered worlds.
use vstd::prelude::*;
use std::collections::BTreeMap;
use crate::chunks::{has_river, in_lake, on_land, tally};
use crate::coord::Axial;
use crate::fingerprint::{content_hash, world_hash};
use crate::flood::{is_flood, law_flood_finds_what_is_linked, law_linked_is_an_equivalence, linked};
use crate::hydrology::bit;
use crate::layers::{
    chunks_along, CellLayers, LayeredWorld, RiverCell, Surface, GENERATOR_VERSION,
};
use crate::order::{put, sorted_keys};
use crate::patch::how_many;
use crate::text::{
    append_axial, append_decimal, append_hexadecimal, axial_text, decimal, hexadecimal, text,
};

verus! {

#[derive(Clone, Copy, Debug, Eq, PartialEq, Structural)]
pub struct V2ValidationReport {
    pub total_cells: usize,
    pub land_cells: usize,
    pub lake_cells: usize,
    pub river_cells: usize,
    pub water_bodies: usize,
    pub chunks: usize,
}

/// The first of two faults.
pub open spec fn or_fault(first: Option<Seq<char>>, second: Option<Seq<char>>) -> Option<Seq<char>> {
    match first {
        Some(fault) => Some(fault),
        None => second,
    }
}

/// The first fault among numbers below a bound.
pub open spec fn first_fault(n: int, fault: spec_fn(int) -> Option<Seq<char>>) -> Option<Seq<char>>
    decreases n,
{
    if n <= 0 {
        None
    } else {
        or_fault(first_fault(n - 1, fault), fault(n - 1))
    }
}

proof fn lemma_first_fault(n: int, m: int, fault: spec_fn(int) -> Option<Seq<char>>)
    requires
        0 <= m <= n,
        first_fault(m, fault) is Some,
    ensures
        first_fault(n, fault) == first_fault(m, fault),
    decreases n,
{
    if m < n {
        lemma_first_fault(n - 1, m, fault);
    }
}

/// What is wrong with the manifest of a world.
pub open spec fn manifest_fault(world: LayeredWorld) -> Option<Seq<char>> {
    let m = world.manifest;
    if m.generator_version != GENERATOR_VERSION {
        Some("unsupported layered generator version "@ + decimal(m.generator_version as int))
    } else if world.layers().len() != world.grid().count() {
        Some("layered manifest dimensions do not match cell count"@)
    } else if m.pipeline@.len() == 0 {
        Some("layered manifest has no pass provenance"@)
    } else if world_hash(world) != m.content_hash {
        Some(
            "layered content hash mismatch: manifest "@ + hexadecimal(m.content_hash as int, 16)
                + ", computed "@ + hexadecimal(world_hash(world) as int, 16),
        )
    } else {
        None
    }
}

fn check_manifest(world: &LayeredWorld) -> (fault: Option<String>)
    ensures
        match fault {
            Some(message) => manifest_fault(*world) == Some(message@),
            None => manifest_fault(*world) is None,
        },
{
    if world.manifest.generator_version != GENERATOR_VERSION {
        let mut message = text("unsupported layered generator version ");
        append_decimal(&mut message, world.manifest.generator_version as u64);
        return Some(message);
    }
    proof {
        assert(0 <= world.manifest.width * world.manifest.height <= u32::MAX * u32::MAX)
            by (nonlinear_arith)
            requires
                0 <= world.manifest.width <= u32::MAX,
                0 <= world.manifest.height <= u32::MAX,
        ;
    }
    let expected: u64 = world.manifest.width as u64 * world.manifest.height as u64;
    if world.cells.len() as u64 != expected {
        return Some(text("layered manifest dimensions do not match cell count"));
    }
    if world.manifest.pipeline.len() == 0 {
        return Some(text("layered manifest has no pass provenance"));
    }
    let hash: u64 = content_hash(world);
    if hash != world.manifest.content_hash {
        let mut message = text("layered content hash mismatch: manifest ");
        append_hexadecimal(&mut message, world.manifest.content_hash, 16);
        message.append(", computed ");
        append_hexadecimal(&mut message, hash, 16);
        return Some(message);
    }
    None
}

/// What is wrong with the layers of a cell.
pub open spec fn layer_fault(cell: CellLayers, id: int) -> Option<Seq<char>> {
    match cell.surface {
        Surface::Land => if cell.water_body_id is Some {
            Some("land cell "@ + decimal(id) + " belongs to a lake"@)
        } else if cell.gameplay.capturable && !cell.gameplay.passable {
            Some("capturable land cell "@ + decimal(id) + " is impassable"@)
        } else {
            None
        },
        Surface::Ocean => if cell.water_body_id is Some || cell.river is Some {
            Some("ocean cell "@ + decimal(id) + " has inland hydrology metadata"@)
        } else if cell.gameplay.passable || cell.gameplay.capturable {
            Some("ocean cell "@ + decimal(id) + " is playable land"@)
        } else {
            None
        },
        Surface::Lake => if cell.water_body_id is None || cell.river is Some {
            Some("lake cell "@ + decimal(id) + " has inconsistent hydrology metadata"@)
        } else if cell.gameplay.passable || cell.gameplay.capturable {
            Some("lake cell "@ + decimal(id) + " is playable land"@)
        } else {
            None
        },
    }
}

pub open spec fn layer_faults(world: LayeredWorld) -> spec_fn(int) -> Option<Seq<char>> {
    |id: int| layer_fault(world.layers()[id], id)
}

fn about_cell(before: &str, id: usize, after: &str) -> (message: String)
    ensures
        message@ == before@ + decimal(id as int) + after@,
{
    let mut message = text(before);
    append_decimal(&mut message, id as u64);
    message.append(after);
    message
}

fn check_cell(cell: &CellLayers, id: usize) -> (fault: Option<String>)
    ensures
        match fault {
            Some(message) => layer_fault(*cell, id as int) == Some(message@),
            None => layer_fault(*cell, id as int) is None,
        },
{
    let playable: bool = cell.gameplay.passable || cell.gameplay.capturable;
    match cell.surface {
        Surface::Land => {
            if cell.water_body_id.is_some() {
                return Some(about_cell("land cell ", id, " belongs to a lake"));
            }
            if cell.gameplay.capturable && !cell.gameplay.passable {
                return Some(about_cell("capturable land cell ", id, " is impassable"));
            }
        },
        Surface::Ocean => {
            if cell.water_body_id.is_some() || cell.river.is_some() {
                return Some(about_cell("ocean cell ", id, " has inland hydrology metadata"));
            }
            if playable {
                return Some(about_cell("ocean cell ", id, " is playable land"));
            }
        },
        Surface::Lake => {
            if cell.water_body_id.is_none() || cell.river.is_some() {
                return Some(about_cell("lake cell ", id, " has inconsistent hydrology metadata"));
            }
            if playable {
                return Some(about_cell("lake cell ", id, " is playable land"));
            }
        },
    }
    None
}

fn check_layers(world: &LayeredWorld) -> (fault: Option<String>)
    ensures
        match fault {
            Some(message) => first_fault(world.layers().len() as int, layer_faults(*world)) == Some(
                message@,
            ),
            None => first_fault(world.layers().len() as int, layer_faults(*world)) is None,
        },
{
    let mut id: usize = 0;
    while id < world.cells.len()
        invariant
            id <= world.cells@.len(),
            first_fault(id as int, layer_faults(*world)) is None,
        decreases world.cells.len() - id,
    {
        match check_cell(&world.cells[id], id) {
            Some(message) => {
                proof {
                    assert(first_fault(id + 1, layer_faults(*world)) == Some(message@));
                    lemma_first_fault(world.layers().len() as int, id + 1, layer_faults(*world));
                }
                return Some(message);
            },
            None => {
                assert(layer_faults(*world)(id as int) is None);
            },
        }
        id += 1;
    }
    None
}

/// Where a water body is.
pub open spec fn body_mask(world: LayeredWorld, body: u32) -> Seq<bool> {
    Seq::new(
        world.layers().len(),
        |id: int| world.layers()[id].water_body_id == Some(body),
    )
}

/// Whether a water body is in pieces.
pub open spec fn is_broken(world: LayeredWorld, body: u32) -> bool {
    exists|a: int, b: int|
        0 <= a < world.layers().len() && 0 <= b < world.layers().len() && body_mask(world, body)[a]
            && body_mask(world, body)[b] && !#[trigger] linked(
            world.grid(),
            body_mask(world, body),
            a,
            b,
        )
}

pub open spec fn is_first_broken(world: LayeredWorld, body: u32) -> bool {
    is_broken(world, body) && forall|other: u32| #[trigger]
        is_broken(world, other) ==> body <= other
}

pub open spec fn broken_text(body: u32) -> Seq<char> {
    "lake "@ + decimal(body as int) + " is disconnected"@
}

/// What is wrong with the lakes of a world: the first that is in pieces.
pub open spec fn lake_fault(world: LayeredWorld) -> Option<Seq<char>> {
    if exists|body: u32| is_first_broken(world, body) {
        Some(broken_text(choose|body: u32| is_first_broken(world, body)))
    } else {
        None
    }
}

/// The first broken lake is the fault that is told.
pub proof fn lemma_first_broken(world: LayeredWorld, body: u32)
    requires
        is_first_broken(world, body),
    ensures
        lake_fault(world) == Some(broken_text(body)),
{
    let other = choose|b: u32| is_first_broken(world, b);
    assert(is_first_broken(world, other));
    assert(is_broken(world, other) && is_broken(world, body));
}

/// Some number of a set that is not empty is the least.
proof fn lemma_no_first_broken(world: LayeredWorld)
    requires
        forall|body: u32| !is_broken(world, body),
    ensures
        lake_fault(world) is None,
{
    assert forall|body: u32| !is_first_broken(world, body) by {
        assert(!is_broken(world, body));
    }
}

/// The water bodies of some cells.
pub open spec fn bodies(cells: Seq<CellLayers>) -> Set<u64>
    decreases cells.len(),
{
    if cells.len() == 0 {
        Set::empty()
    } else {
        match cells.last().water_body_id {
            Some(body) => bodies(cells.drop_last()).insert(body as u64),
            None => bodies(cells.drop_last()),
        }
    }
}

proof fn lemma_bodies(cells: Seq<CellLayers>, id: int)
    requires
        0 <= id < cells.len(),
        cells[id].water_body_id is Some,
    ensures
        bodies(cells).contains(cells[id].water_body_id.unwrap() as u64),
    decreases cells.len(),
{
    if id < cells.len() - 1 {
        assert(cells.drop_last()[id] == cells[id]);
        lemma_bodies(cells.drop_last(), id);
    }
}

proof fn lemma_body_bound(cells: Seq<CellLayers>, key: u64)
    requires
        bodies(cells).contains(key),
    ensures
        key <= u32::MAX,
    decreases cells.len(),
{
    if cells.len() > 0 && bodies(cells.drop_last()).contains(key) {
        lemma_body_bound(cells.drop_last(), key);
    }
}

/// The water bodies in ascending order.
fn list_bodies(world: &LayeredWorld) -> (keys: Vec<u64>)
    ensures
        crate::order::ids_ascending(keys@),
        keys@.to_set() == bodies(world.layers()),
        keys@.len() == bodies(world.layers()).len(),
{
    let mut map: BTreeMap<u64, ()> = BTreeMap::new();
    let mut i: usize = 0;
    assert(world.cells@.take(0) =~= Seq::<CellLayers>::empty());
    assert(map@.dom() =~= bodies(world.cells@.take(0)));
    while i < world.cells.len()
        invariant
            i <= world.cells@.len(),
            map@.dom() == bodies(world.cells@.take(i as int)),
        decreases world.cells.len() - i,
    {
        assert(world.cells@.take(i + 1).drop_last() =~= world.cells@.take(i as int));
        match world.cells[i].water_body_id {
            Some(body) => {
                put(&mut map, body as u64, ());
                assert(map@.dom() =~= bodies(world.cells@.take(i + 1)));
            },
            None => {},
        }
        i += 1;
    }
    assert(world.cells@.take(i as int) =~= world.cells@);
    let keys = sorted_keys(&map);
    proof {
        assert forall|a: int, b: int|
            0 <= a < keys@.len() && 0 <= b < keys@.len() && a != b implies keys@[a] != keys@[b] by {
            if a < b {
                assert(keys@[a] < keys@[b]);
            } else {
                assert(keys@[b] < keys@[a]);
            }
        }
        keys@.unique_seq_to_set();
    }
    keys
}

/// Checks that a water body is in one piece.
fn is_whole(world: &LayeredWorld, body: u32) -> (whole: bool)
    requires
        world.is_laid_out(),
    ensures
        whole == !is_broken(*world, body),
{
    let ghost g = world.grid();
    let ghost mask = body_mask(*world, body);
    let count: usize = world.cells.len();
    let mut open: Vec<bool> = Vec::new();
    let mut first: Option<u32> = None;
    let mut id: u32 = 0;
    while (id as usize) < count
        invariant
            world.is_laid_out(),
            count == world.cells@.len(),
            id <= count,
            mask == body_mask(*world, body),
            open@ =~= mask.take(id as int),
            first matches Some(s) ==> s < id && mask[s as int],
            first is None ==> forall|k: int| 0 <= k < id ==> !#[trigger] mask[k],
        decreases count - id,
    {
        let here: bool = match world.cells[id as usize].water_body_id {
            Some(other) => other == body,
            None => false,
        };
        assert(here == mask[id as int]);
        open.push(here);
        if here && first.is_none() {
            first = Some(id);
        }
        id += 1;
    }
    assert(open@ =~= mask);
    let seed: u32 = match first {
        Some(s) => s,
        None => {
            return true;
        },
    };
    let mut sources: Vec<u32> = Vec::new();
    sources.push(seed);
    assert(sources@ =~= seq![seed]);
    let flood = world.flood(open.as_slice(), sources.as_slice());
    let ghost links = choose|links: Seq<(int, int)>|
        is_flood(g, mask, seq![seed], flood.order@, links) && #[trigger] flood.links(links, 1);
    let mut i: usize = 0;
    while i < count
        invariant
            world.is_laid_out(),
            g == world.grid(),
            count == world.cells@.len(),
            i <= count,
            mask == body_mask(*world, body),
            open@ == mask,
            seed < count,
            mask[seed as int],
            flood.positions@.len() == count,
            flood.locates(),
            is_flood(g, mask, seq![seed], flood.order@, links),
            forall|k: int| 0 <= k < i && #[trigger] mask[k] ==> linked(g, mask, seed as int, k),
        decreases count - i,
    {
        proof {
            law_flood_finds_what_is_linked(g, mask, seed, flood.order@, links, i as int);
        }
        if open[i] {
            match flood.positions[i] {
                Some(k) => {
                    assert(flood.order@[k as int] == i as int as u32);
                    assert(flood.order@.contains(i as int as u32));
                },
                None => {
                    assert(!linked(g, mask, seed as int, i as int));
                    return false;
                },
            }
        }
        i += 1;
    }
    proof {
        assert forall|a: int, b: int|
            0 <= a < world.layers().len() && 0 <= b < world.layers().len() && mask[a]
                && mask[b] implies #[trigger] linked(g, mask, a, b) by {
            law_linked_is_an_equivalence(g, mask, seed as int, a, b);
            law_linked_is_an_equivalence(g, mask, a, seed as int, b);
        }
    }
    true
}

fn check_lakes(world: &LayeredWorld) -> (fault: Option<String>)
    requires
        world.is_laid_out(),
    ensures
        match fault {
            Some(message) => lake_fault(*world) == Some(message@),
            None => lake_fault(*world) is None,
        },
{
    let keys = list_bodies(world);
    let mut i: usize = 0;
    while i < keys.len()
        invariant
            world.is_laid_out(),
            i <= keys@.len(),
            crate::order::ids_ascending(keys@),
            keys@.to_set() == bodies(world.layers()),
            forall|k: int| 0 <= k < i ==> !is_broken(*world, #[trigger] keys@[k] as u32),
        decreases keys.len() - i,
    {
        proof {
            assert(keys@.to_set().contains(keys@[i as int]));
            lemma_body_bound(world.layers(), keys@[i as int]);
        }
        let body: u32 = keys[i] as u32;
        if !is_whole(world, body) {
            proof {
                assert forall|other: u32| #[trigger] is_broken(*world, other) implies body <= other by {
                    if other < body {
                        lemma_broken_is_listed(*world, other);
                        assert(keys@.to_set().contains(other as u64));
                        let k = choose|k: int| 0 <= k < keys@.len() && keys@[k] == other as u64;
                        if k > i {
                            assert(keys@[i as int] < keys@[k]);
                        }
                        assert(!is_broken(*world, keys@[k] as u32));
                    }
                }
                lemma_first_broken(*world, body);
            }
            let mut message = text("lake ");
            append_decimal(&mut message, body as u64);
            message.append(" is disconnected");
            return Some(message);
        }
        i += 1;
    }
    proof {
        assert forall|body: u32| !is_broken(*world, body) by {
            if is_broken(*world, body) {
                lemma_broken_is_listed(*world, body);
                assert(keys@.to_set().contains(body as u64));
                let k = choose|k: int| 0 <= k < keys@.len() && keys@[k] == body as u64;
                assert(!is_broken(*world, keys@[k] as u32));
            }
        }
        lemma_no_first_broken(*world);
    }
    None
}

proof fn lemma_broken_is_listed(world: LayeredWorld, body: u32)
    requires
        is_broken(world, body),
    ensures
        bodies(world.layers()).contains(body as u64),
{
    let (a, b) = choose|a: int, b: int|
        0 <= a < world.layers().len() && 0 <= b < world.layers().len() && body_mask(world, body)[a]
            && body_mask(world, body)[b] && !#[trigger] linked(
            world.grid(),
            body_mask(world, body),
            a,
            b,
        );
    lemma_bodies(world.layers(), a);
}

/// Where a river goes on from a cell.
pub enum Onward {
    /// It ends: there is no river, or the next cell is not land.
    Ends,
    /// It leaves the map.
    Leaves,
    /// It runs on to a cell.
    Runs(u32),
}

pub open spec fn onward(world: LayeredWorld, id: int) -> Onward {
    match world.layers()[id].river {
        None => Onward::Ends,
        Some(river) => match world.grid().beside(id, river.outflow.ordinal()) {
            None => Onward::Leaves,
            Some(n) => if world.layers()[n].surface != Surface::Land {
                Onward::Ends
            } else {
                Onward::Runs(n as u32)
            },
        },
    }
}

/// The cell that a river comes to after some steps, if it gets that far.
pub open spec fn trace(world: LayeredWorld, id: int, steps: nat) -> Option<int>
    decreases steps,
{
    if steps == 0 {
        Some(id)
    } else {
        match trace(world, id, (steps - 1) as nat) {
            Some(c) => match onward(world, c) {
                Onward::Runs(n) => Some(n as int),
                _ => None,
            },
            None => None,
        }
    }
}

/// Whether a river from a cell runs on for ever.
pub open spec fn is_endless(world: LayeredWorld, id: int) -> bool {
    forall|steps: nat| (#[trigger] trace(world, id, steps)) is Some
}

/// Whether a river from a cell leaves the map.
pub open spec fn is_leaving(world: LayeredWorld, id: int) -> bool {
    exists|steps: nat|
        (#[trigger] trace(world, id, steps)) matches Some(c) && onward(world, c) is Leaves
}

/// What is wrong with the way that a river takes from a cell.
pub open spec fn course_fault(world: LayeredWorld, id: int) -> Option<Seq<char>> {
    if is_endless(world, id) {
        Some("river from "@ + decimal(id) + " contains a cycle"@)
    } else if is_leaving(world, id) {
        Some("river from "@ + decimal(id) + " leaves map bounds"@)
    } else {
        None
    }
}

/// What is wrong with a river where it runs into its next cell.
pub open spec fn join_fault(
    id: int,
    next: int,
    river: RiverCell,
    target: CellLayers,
) -> Option<Seq<char>> {
    if target.surface == Surface::Land && target.river is None {
        Some("river cell "@ + decimal(id) + " terminates on ordinary land "@ + decimal(next))
    } else {
        match target.river {
            None => None,
            Some(taker) => if taker.inflow_mask & bit((river.outflow.ordinal() + 3) % 6) == 0 {
                Some(
                    "river connection "@ + decimal(id) + "->"@ + decimal(next)
                        + " lacks reciprocal inflow"@,
                )
            } else if taker.discharge < river.discharge {
                Some(
                    "river discharge decreases from "@ + decimal(id) + " to "@ + decimal(next),
                )
            } else {
                None
            },
        }
    }
}

/// What is wrong with the river of a cell.
pub open spec fn river_fault(world: LayeredWorld, id: int) -> Option<Seq<char>> {
    match world.layers()[id].river {
        None => None,
        Some(river) => if world.layers()[id].surface != Surface::Land {
            Some("river cell "@ + decimal(id) + " is not land"@)
        } else {
            match world.grid().beside(id, river.outflow.ordinal()) {
                None => Some("river cell "@ + decimal(id) + " flows outside the map"@),
                Some(n) => or_fault(
                    join_fault(id, n, river, world.layers()[n]),
                    course_fault(world, id),
                ),
            }
        },
    }
}

pub open spec fn river_faults(world: LayeredWorld) -> spec_fn(int) -> Option<Seq<char>> {
    |id: int| river_fault(world, id)
}

fn bit_of(d: usize) -> (b: u8)
    requires
        d < 6,
    ensures
        b == bit(d as int),
{
    if d == 0 {
        1
    } else if d == 1 {
        2
    } else if d == 2 {
        4
    } else if d == 3 {
        8
    } else if d == 4 {
        16
    } else {
        32
    }
}

fn about_two(before: &str, a: u32, between: &str, b: u32, after: &str) -> (message: String)
    ensures
        message@ == before@ + decimal(a as int) + between@ + decimal(b as int) + after@,
{
    let mut message = text(before);
    append_decimal(&mut message, a as u64);
    message.append(between);
    append_decimal(&mut message, b as u64);
    message.append(after);
    message
}

fn check_join(id: u32, next: u32, river: RiverCell, target: &CellLayers) -> (fault: Option<String>)
    ensures
        match fault {
            Some(message) => join_fault(id as int, next as int, river, *target) == Some(message@),
            None => join_fault(id as int, next as int, river, *target) is None,
        },
{
    match target.river {
        None => {
            if target.surface == Surface::Land {
                let message = about_two(
                    "river cell ",
                    id,
                    " terminates on ordinary land ",
                    next,
                    "",
                );
                proof {
                    reveal_strlit("");
                    assert(message@ =~= "river cell "@ + decimal(id as int)
                        + " terminates on ordinary land "@ + decimal(next as int));
                }
                return Some(message);
            }
            None
        },
        Some(taker) => {
            if taker.inflow_mask & bit_of(river.outflow.opposite().index()) == 0 {
                return Some(
                    about_two("river connection ", id, "->", next, " lacks reciprocal inflow"),
                );
            }
            if taker.discharge < river.discharge {
                let message = about_two("river discharge decreases from ", id, " to ", next, "");
                proof {
                    reveal_strlit("");
                    assert(message@ =~= "river discharge decreases from "@ + decimal(id as int)
                        + " to "@ + decimal(next as int));
                }
                return Some(message);
            }
            None
        },
    }
}

/// A river that comes back to a cell never ends.
proof fn lemma_round(world: LayeredWorld, id: int, j: nat, k: nat)
    requires
        j < k,
        trace(world, id, k) == trace(world, id, j),
        trace(world, id, k) is Some,
    ensures
        is_endless(world, id),
{
    assert forall|steps: nat| (#[trigger] trace(world, id, steps)) is Some by {
        lemma_round_from(world, id, j, k, steps);
    }
}

proof fn lemma_round_from(world: LayeredWorld, id: int, j: nat, k: nat, steps: nat)
    requires
        j < k,
        trace(world, id, k) == trace(world, id, j),
        trace(world, id, k) is Some,
    ensures
        trace(world, id, steps) is Some,
        steps >= k ==> trace(world, id, steps) == trace(world, id, (steps - (k - j)) as nat),
    decreases steps,
{
    if steps > k {
        lemma_round_from(world, id, j, k, (steps - 1) as nat);
        let back = (steps - (k - j)) as nat;
        assert((back - 1) as nat == (steps - 1 - (k - j)) as nat);
        lemma_round_from(world, id, j, k, back);
        assert(trace(world, id, steps) == trace(world, id, back));
    } else if steps < k {
        lemma_reached(world, id, steps, k);
    }
}

/// A river that gets far got less far before.
proof fn lemma_reached(world: LayeredWorld, id: int, steps: nat, k: nat)
    requires
        steps <= k,
        trace(world, id, k) is Some,
    ensures
        trace(world, id, steps) is Some,
    decreases k - steps,
{
    if steps < k {
        lemma_reached(world, id, steps + 1, k);
    }
}

/// A river that stops somewhere is not endless, and leaves only there.
proof fn lemma_stops(world: LayeredWorld, id: int, k: nat)
    requires
        trace(world, id, k) is Some,
        !(onward(world, trace(world, id, k).unwrap()) is Runs),
    ensures
        !is_endless(world, id),
        is_leaving(world, id) == (onward(world, trace(world, id, k).unwrap()) is Leaves),
{
    assert(trace(world, id, k + 1) is None);
    if is_leaving(world, id) {
        let steps = choose|steps: nat|
            (#[trigger] trace(world, id, steps)) matches Some(c) && onward(world, c) is Leaves;
        if steps < k {
            lemma_reached(world, id, steps + 1, k);
        } else if steps > k {
            lemma_reached(world, id, k + 1, steps);
        }
    }
}

/// Follows a river from a cell; the marks tell which cells it has passed.
fn check_course(world: &LayeredWorld, id: u32, marks: &mut Vec<u32>) -> (fault: Option<String>)
    requires
        world.is_laid_out(),
        id < world.layers().len(),
        id < u32::MAX,
        old(marks)@.len() == world.layers().len(),
        forall|c: int| 0 <= c < old(marks)@.len() ==> (#[trigger] old(marks)@[c]) <= id,
    ensures
        final(marks)@.len() == old(marks)@.len(),
        forall|c: int| 0 <= c < final(marks)@.len() ==> (#[trigger] final(marks)@[c]) <= id + 1,
        match fault {
            Some(message) => course_fault(*world, id as int) == Some(message@),
            None => course_fault(*world, id as int) is None,
        },
{
    let ghost count = world.grid().count();
    let mark: u32 = id + 1;
    let mut current: u32 = id;
    let ghost mut steps: nat = 0;
    let ghost mut passed: Set<int> = Set::empty();
    loop
        invariant
            world.is_laid_out(),
            count == world.grid().count(),
            id < count,
            mark == id + 1,
            current < count,
            old(marks)@.len() == count,
            marks@.len() == count,
            forall|c: int| 0 <= c < marks@.len() ==> (#[trigger] marks@[c]) <= mark,
            forall|c: int|
                0 <= c < marks@.len() ==> ((#[trigger] marks@[c]) == mark <==> passed.contains(c)),
            trace(*world, id as int, steps) == Some(current as int),
            forall|c: int| #[trigger]
                passed.contains(c) ==> exists|j: nat|
                    j < steps && #[trigger] trace(*world, id as int, j) == Some(c),
            passed.finite(),
            passed.subset_of(vstd::set_lib::set_int_range(0, count)),
        decreases count - passed.len(),
    {
        if marks[current as usize] == mark {
            proof {
                let c = current as int;
                assert(passed.contains(c));
                let j = choose|j: nat| j < steps && #[trigger] trace(*world, id as int, j) == Some(c);
                lemma_round(*world, id as int, j, steps);
            }
            return Some(about_cell("river from ", id as usize, " contains a cycle"));
        }
        let ghost had = passed;
        marks.set(current as usize, mark);
        proof {
            vstd::set_lib::lemma_int_range(0, count);
            passed = passed.insert(current as int);
            vstd::set_lib::lemma_len_subset(passed, vstd::set_lib::set_int_range(0, count));
        }
        match world.cells[current as usize].river {
            None => {
                proof {
                    lemma_stops(*world, id as int, steps);
                }
                return None;
            },
            Some(river) => {
                match world.neighbor_id(current, river.outflow) {
                    None => {
                        proof {
                            lemma_stops(*world, id as int, steps);
                        }
                        return Some(about_cell("river from ", id as usize, " leaves map bounds"));
                    },
                    Some(next) => {
                        if world.cells[next as usize].surface != Surface::Land {
                            proof {
                                lemma_stops(*world, id as int, steps);
                            }
                            return None;
                        }
                        proof {
                            assert(onward(*world, current as int) == Onward::Runs(next));
                            assert forall|c: int| #[trigger] passed.contains(c) implies exists|j: nat|
                                j < steps + 1 && #[trigger] trace(*world, id as int, j) == Some(c) by {
                                if c == current {
                                    assert(trace(*world, id as int, steps) == Some(c));
                                } else {
                                    assert(had.contains(c));
                                    let j = choose|j: nat|
                                        j < steps && #[trigger] trace(*world, id as int, j) == Some(
                                            c,
                                        );
                                    assert(trace(*world, id as int, j) == Some(c));
                                }
                            }
                            steps = steps + 1;
                        }
                        current = next;
                    },
                }
            },
        }
    }
}

fn check_rivers(world: &LayeredWorld) -> (fault: Option<String>)
    requires
        world.is_laid_out(),
    ensures
        match fault {
            Some(message) => first_fault(world.layers().len() as int, river_faults(*world)) == Some(
                message@,
            ),
            None => first_fault(world.layers().len() as int, river_faults(*world)) is None,
        },
{
    let ghost faults = river_faults(*world);
    let count: usize = world.cells.len();
    let mut marks: Vec<u32> = Vec::new();
    let mut i: usize = 0;
    while i < count
        invariant
            i <= count,
            marks@.len() == i,
            forall|c: int| 0 <= c < i ==> #[trigger] marks@[c] == 0,
        decreases count - i,
    {
        marks.push(0);
        i += 1;
    }
    let mut id: u32 = 0;
    while (id as usize) < count
        invariant
            world.is_laid_out(),
            count == world.cells@.len(),
            id <= count,
            faults == river_faults(*world),
            marks@.len() == count,
            forall|c: int| 0 <= c < marks@.len() ==> (#[trigger] marks@[c]) <= id,
            first_fault(id as int, faults) is None,
        decreases count - id,
    {
        let fault = check_river(world, id, &mut marks);
        match fault {
            Some(message) => {
                proof {
                    assert(first_fault(id + 1, faults) == Some(message@));
                    lemma_first_fault(count as int, id + 1, faults);
                }
                return Some(message);
            },
            None => {
                assert(faults(id as int) is None);
            },
        }
        id += 1;
    }
    None
}

fn check_river(world: &LayeredWorld, id: u32, marks: &mut Vec<u32>) -> (fault: Option<String>)
    requires
        world.is_laid_out(),
        id < world.layers().len(),
        old(marks)@.len() == world.layers().len(),
        forall|c: int| 0 <= c < old(marks)@.len() ==> (#[trigger] old(marks)@[c]) <= id,
    ensures
        final(marks)@.len() == old(marks)@.len(),
        forall|c: int| 0 <= c < final(marks)@.len() ==> (#[trigger] final(marks)@[c]) <= id + 1,
        match fault {
            Some(message) => river_fault(*world, id as int) == Some(message@),
            None => river_fault(*world, id as int) is None,
        },
{
    let river = match world.cells[id as usize].river {
        Some(river) => river,
        None => {
            return None;
        },
    };
    if world.cells[id as usize].surface != Surface::Land {
        return Some(about_cell("river cell ", id as usize, " is not land"));
    }
    let next: u32 = match world.neighbor_id(id, river.outflow) {
        Some(next) => next,
        None => {
            return Some(about_cell("river cell ", id as usize, " flows outside the map"));
        },
    };
    match check_join(id, next, river, &world.cells[next as usize]) {
        Some(message) => Some(message),
        None => check_course(world, id, marks),
    }
}

/// What is wrong with a start.
pub open spec fn start_fault(world: LayeredWorld, start: Axial) -> Option<Seq<char>> {
    if !world.grid().holds(start) {
        Some("spawn "@ + axial_text(start) + " is outside the map"@)
    } else {
        let gameplay = world.layers()[world.grid().id(start)].gameplay;
        if !gameplay.capturable || !gameplay.habitable {
            Some("spawn "@ + axial_text(start) + " is not habitable capturable land"@)
        } else {
            None
        }
    }
}

pub open spec fn start_faults(world: LayeredWorld) -> spec_fn(int) -> Option<Seq<char>> {
    |i: int| start_fault(world, world.manifest.spawn_cells@[i])
}

/// What is wrong with the starts of a world.
pub open spec fn placement_fault(world: LayeredWorld) -> Option<Seq<char>> {
    let starts = world.manifest.spawn_cells@;
    if starts.len() != world.manifest.player_count {
        Some("layered spawn count does not match player count"@)
    } else if !starts.no_duplicates() {
        Some("layered spawns are not distinct"@)
    } else {
        first_fault(starts.len() as int, start_faults(world))
    }
}

fn about_start(start: Axial, after: &str) -> (message: String)
    ensures
        message@ == "spawn "@ + axial_text(start) + after@,
{
    let mut message = text("spawn ");
    append_axial(&mut message, start);
    message.append(after);
    message
}

fn are_distinct(starts: &Vec<Axial>) -> (distinct: bool)
    ensures
        distinct == starts@.no_duplicates(),
{
    let mut seen = crate::axials::AxialSet::new();
    let mut i: usize = 0;
    while i < starts.len()
        invariant
            i <= starts@.len(),
            seen@ == starts@.take(i as int).to_set(),
            starts@.take(i as int).no_duplicates(),
        decreases starts.len() - i,
    {
        let ghost t = starts@.take(i as int);
        let c = starts[i];
        proof {
            assert(starts@.take(i + 1) =~= t.push(c));
            crate::axials::lemma_to_set_push(t, c);
        }
        if !seen.insert(c) {
            proof {
                assert(t.contains(c));
                let k = choose|k: int| 0 <= k < t.len() && t[k] == c;
                assert(starts@[k] == starts@[i as int]);
            }
            return false;
        }
        proof {
            let u = starts@.take(i + 1);
            assert forall|a: int, b: int|
                0 <= a < u.len() && 0 <= b < u.len() && a != b implies u[a] != u[b] by {
                if a == i {
                    assert(t.to_set().contains(t[b]));
                }
                if b == i {
                    assert(t.to_set().contains(t[a]));
                }
                if a < i && b < i {
                    assert(t[a] != t[b]);
                }
            }
        }
        i += 1;
    }
    assert(starts@.take(i as int) =~= starts@);
    true
}

/// Whether the starts of a world can be looked up, so far as they are.
pub open spec fn starts_can_be_checked(world: LayeredWorld) -> bool {
    let starts = world.manifest.spawn_cells@;
    ||| world.grid().is_numbered()
    ||| starts.len() == 0
    ||| starts.len() != world.manifest.player_count
    ||| !starts.no_duplicates()
}

fn check_starts(world: &LayeredWorld) -> (fault: Option<String>)
    requires
        world.layers().len() == world.grid().count(),
        starts_can_be_checked(*world),
    ensures
        match fault {
            Some(message) => placement_fault(*world) == Some(message@),
            None => placement_fault(*world) is None,
        },
{
    let ghost faults = start_faults(*world);
    let count: usize = world.manifest.spawn_cells.len();
    if count != world.manifest.player_count as usize {
        return Some(text("layered spawn count does not match player count"));
    }
    if !are_distinct(&world.manifest.spawn_cells) {
        return Some(text("layered spawns are not distinct"));
    }
    let mut i: usize = 0;
    while i < count
        invariant
            world.layers().len() == world.grid().count(),
            count > 0 ==> world.grid().is_numbered(),
            count == world.manifest.spawn_cells@.len(),
            count == world.manifest.player_count,
            world.manifest.spawn_cells@.no_duplicates(),
            faults == start_faults(*world),
            i <= count,
            first_fault(i as int, faults) is None,
        decreases count - i,
    {
        let start = world.manifest.spawn_cells[i];
        proof {
            if world.grid().holds(start) {
                crate::layers::lemma_number_fits(
                    world.grid().width,
                    world.grid().height,
                    start.q - world.grid().q_min,
                    start.r - world.grid().r_min,
                );
            }
        }
        let message: String = match world.cell(start) {
            Some(cell) => {
                if cell.gameplay.capturable && cell.gameplay.habitable {
                    assert(faults(i as int) is None);
                    i += 1;
                    continue;
                }
                about_start(start, " is not habitable capturable land")
            },
            None => about_start(start, " is outside the map"),
        };
        proof {
            assert(faults(i as int) == Some(message@));
            assert(first_fault(i + 1, faults) == Some(message@));
            lemma_first_fault(count as int, i + 1, faults);
        }
        return Some(message);
    }
    None
}

/// Where cells can be walked.
pub open spec fn passable_mask(world: LayeredWorld) -> Seq<bool> {
    Seq::new(world.layers().len(), |id: int| world.layers()[id].gameplay.passable)
}

pub open spec fn is_first_passable(world: LayeredWorld, id: int) -> bool {
    &&& 0 <= id < world.layers().len()
    &&& passable_mask(world)[id]
    &&& forall|k: int| 0 <= k < id ==> !#[trigger] passable_mask(world)[k]
}

pub open spec fn is_passable(world: LayeredWorld) -> spec_fn(int) -> bool {
    |id: int| world.layers()[id].gameplay.passable
}

pub open spec fn is_reached(world: LayeredWorld, from: int) -> spec_fn(int) -> bool {
    |id: int| linked(world.grid(), passable_mask(world), from, id)
}

/// What is wrong with the land, seen from its first passable cell.
pub open spec fn reach_fault(world: LayeredWorld, from: int) -> Option<Seq<char>> {
    let n = world.layers().len() as int;
    let reached = how_many(n, is_reached(world, from)) as int;
    let expected = how_many(n, is_passable(world)) as int;
    if reached != expected {
        Some(
            "layered passable land has disconnected cells: reached "@ + decimal(reached) + " of "@
                + decimal(expected),
        )
    } else {
        None
    }
}

/// What is wrong with the land of a world.
pub open spec fn land_fault(world: LayeredWorld) -> Option<Seq<char>> {
    if exists|id: int| is_first_passable(world, id) {
        reach_fault(world, choose|id: int| is_first_passable(world, id))
    } else {
        Some("layered map has no passable land"@)
    }
}

fn check_land(world: &LayeredWorld) -> (fault: Option<String>)
    requires
        world.is_laid_out(),
    ensures
        match fault {
            Some(message) => land_fault(*world) == Some(message@),
            None => land_fault(*world) is None,
        },
{
    let ghost g = world.grid();
    let ghost mask = passable_mask(*world);
    let count: usize = world.cells.len();
    let mut open: Vec<bool> = Vec::new();
    let mut first: Option<u32> = None;
    let mut expected: usize = 0;
    let mut id: u32 = 0;
    while (id as usize) < count
        invariant
            world.is_laid_out(),
            count == world.cells@.len(),
            id <= count,
            mask == passable_mask(*world),
            open@ =~= mask.take(id as int),
            expected == how_many(id as int, is_passable(*world)) <= id,
            first matches Some(s) ==> s < id && is_first_passable(*world, s as int),
            first is None ==> forall|k: int| 0 <= k < id ==> !#[trigger] mask[k],
        decreases count - id,
    {
        let here: bool = world.cells[id as usize].gameplay.passable;
        assert(here == mask[id as int]);
        open.push(here);
        if here {
            expected += 1;
            if first.is_none() {
                first = Some(id);
            }
        }
        id += 1;
    }
    assert(open@ =~= mask);
    let seed: u32 = match first {
        Some(s) => s,
        None => {
            assert forall|k: int| !is_first_passable(*world, k) by {}
            return Some(text("layered map has no passable land"));
        },
    };
    proof {
        let other = choose|k: int| is_first_passable(*world, k);
        assert(is_first_passable(*world, seed as int));
        assert(is_first_passable(*world, other));
        assert(other == seed) by {
            if other < seed {
                assert(!mask[other]);
            }
            if (seed as int) < other {
                assert(!mask[seed as int]);
            }
        }
    }
    let mut sources: Vec<u32> = Vec::new();
    sources.push(seed);
    assert(sources@ =~= seq![seed]);
    let flood = world.flood(open.as_slice(), sources.as_slice());
    let ghost links = choose|links: Seq<(int, int)>|
        is_flood(g, mask, seq![seed], flood.order@, links) && #[trigger] flood.links(links, 1);
    let ghost test = is_reached(*world, seed as int);
    let mut reached: usize = 0;
    let mut i: usize = 0;
    while i < count
        invariant
            world.is_laid_out(),
            g == world.grid(),
            count == world.cells@.len(),
            i <= count,
            mask == passable_mask(*world),
            seed < count,
            mask[seed as int],
            flood.positions@.len() == count,
            flood.locates(),
            is_flood(g, mask, seq![seed], flood.order@, links),
            test == is_reached(*world, seed as int),
            reached == how_many(i as int, test) <= i,
        decreases count - i,
    {
        proof {
            law_flood_finds_what_is_linked(g, mask, seed, flood.order@, links, i as int);
        }
        match flood.positions[i] {
            Some(k) => {
                assert(flood.order@[k as int] == i as int as u32);
                assert(flood.order@.contains(i as int as u32));
                assert(test(i as int));
                reached += 1;
            },
            None => {
                assert(!test(i as int));
            },
        }
        i += 1;
    }
    if reached != expected {
        let mut message = text("layered passable land has disconnected cells: reached ");
        append_decimal(&mut message, reached as u64);
        message.append(" of ");
        append_decimal(&mut message, expected as u64);
        return Some(message);
    }
    None
}

/// The first fault of a world, in the order of the checks.
pub open spec fn world_fault(world: LayeredWorld) -> Option<Seq<char>> {
    let n = world.layers().len() as int;
    or_fault(
        manifest_fault(world),
        or_fault(
            first_fault(n, layer_faults(world)),
            or_fault(
                lake_fault(world),
                or_fault(
                    first_fault(n, river_faults(world)),
                    or_fault(placement_fault(world), land_fault(world)),
                ),
            ),
        ),
    )
}

/// Whether this is the report on a world.
pub open spec fn is_world_report(world: LayeredWorld, report: V2ValidationReport) -> bool {
    &&& report.total_cells == world.layers().len()
    &&& report.land_cells == tally(world.layers(), on_land())
    &&& report.lake_cells == tally(world.layers(), in_lake())
    &&& report.river_cells == tally(world.layers(), has_river())
    &&& report.water_bodies == bodies(world.layers()).len()
    &&& report.chunks == chunks_along(world.manifest.width, world.manifest.chunk_size)
        * chunks_along(world.manifest.height, world.manifest.chunk_size)
}

/// What is wrong with a world without cells: it has no room for a start, and no
/// land.
fn barren_fault(world: &LayeredWorld) -> (message: String)
    requires
        manifest_fault(*world) is None,
        world.grid().count() == 0,
    ensures
        world_fault(*world) == Some(message@),
{
    let ghost faults = start_faults(*world);
    proof {
        assert forall|body: u32| !is_broken(*world, body) by {}
        lemma_no_first_broken(*world);
        assert(world.grid().width == 0 || world.grid().height == 0) by (nonlinear_arith)
            requires
                world.grid().width * world.grid().height == 0,
        ;
    }
    let count: usize = world.manifest.spawn_cells.len();
    if count != world.manifest.player_count as usize {
        return text("layered spawn count does not match player count");
    }
    if !are_distinct(&world.manifest.spawn_cells) {
        return text("layered spawns are not distinct");
    }
    if count > 0 {
        let message = about_start(world.manifest.spawn_cells[0], " is outside the map");
        proof {
            assert(faults(0) == Some(message@));
            assert(first_fault(0, faults) is None);
            assert(first_fault(1, faults) == Some(message@));
            lemma_first_fault(count as int, 1, faults);
        }
        return message;
    }
    text("layered map has no passable land")
}

/// Whether no cell of a world is asked for its neighbours: it has neither lakes nor
/// rivers, and a start is wrong or no cell can be walked on.
pub open spec fn asks_no_neighbors(world: LayeredWorld) -> bool {
    &&& forall|id: int|
        0 <= id < world.layers().len() ==> (#[trigger] world.layers()[id]).water_body_id is None
            && world.layers()[id].river is None
    &&& starts_can_be_checked(world)
    &&& placement_fault(world) is Some || forall|id: int|
        0 <= id < world.layers().len() ==> !#[trigger] passable_mask(world)[id]
}

/// What a world is checked for: that its cells have neighbours to look at, unless
/// a fault is found before any cell is asked for them.
pub open spec fn can_be_checked(world: LayeredWorld) -> bool {
    ||| manifest_fault(world) is Some
    ||| first_fault(world.layers().len() as int, layer_faults(world)) is Some
    ||| world.grid().fits()
    ||| world.grid().count() == 0
    ||| asks_no_neighbors(world)
}

/// Whether the cells of a world have numbers and coordinates, and so have their
/// neighbours.
fn has_coordinates(world: &LayeredWorld) -> (yes: bool)
    ensures
        yes == world.grid().fits(),
{
    let m = &world.manifest;
    let longest: u32 = 0x7fff_ffff;
    if m.width == 0 || m.height == 0 || m.width > longest || m.height > longest {
        return false;
    }
    proof {
        assert(0 <= m.width * m.height <= 0x7fff_ffff * 0x7fff_ffff) by (nonlinear_arith)
            requires
                0 < m.width <= 0x7fff_ffff,
                0 < m.height <= 0x7fff_ffff,
        ;
    }
    let count: u64 = m.width as u64 * m.height as u64;
    let right: i64 = m.q_min as i64 + m.width as i64;
    let bottom: i64 = m.r_min as i64 + m.height as i64;
    count <= 0xffff_ffff && i32::MIN < m.q_min && right <= 0x7fff_ffff && i32::MIN < m.r_min
        && bottom <= 0x7fff_ffff
}

proof fn lemma_no_river_faults(world: LayeredWorld, n: int)
    requires
        n <= world.layers().len(),
        forall|id: int|
            0 <= id < world.layers().len() ==> (#[trigger] world.layers()[id]).river is None,
    ensures
        first_fault(n, river_faults(world)) is None,
    decreases n,
{
    if n > 0 {
        lemma_no_river_faults(world, n - 1);
        assert(world.layers()[n - 1].river is None);
    }
}

/// What is wrong with a world that has a fault of its starts, or no land, and no
/// lakes or rivers.
fn bare_fault(world: &LayeredWorld) -> (message: String)
    requires
        manifest_fault(*world) is None,
        first_fault(world.layers().len() as int, layer_faults(*world)) is None,
        asks_no_neighbors(*world),
    ensures
        world_fault(*world) == Some(message@),
{
    proof {
        assert forall|body: u32| !is_broken(*world, body) by {}
        lemma_no_first_broken(*world);
        lemma_no_river_faults(*world, world.layers().len() as int);
    }
    if let Some(message) = check_starts(world) {
        return message;
    }
    assert forall|id: int| !is_first_passable(*world, id) by {}
    text("layered map has no passable land")
}

fn check_world(world: &LayeredWorld) -> (fault: Option<String>)
    requires
        can_be_checked(*world),
    ensures
        match fault {
            Some(message) => world_fault(*world) == Some(message@),
            None => world_fault(*world) is None && world.is_laid_out(),
        },
{
    if let Some(message) = check_manifest(world) {
        return Some(message);
    }
    if world.cells.len() == 0 {
        return Some(barren_fault(world));
    }
    if let Some(message) = check_layers(world) {
        return Some(message);
    }
    if !has_coordinates(world) {
        return Some(bare_fault(world));
    }
    if let Some(message) = check_lakes(world) {
        return Some(message);
    }
    if let Some(message) = check_rivers(world) {
        return Some(message);
    }
    if let Some(message) = check_starts(world) {
        return Some(message);
    }
    check_land(world)
}

/// Validates layer compatibility, hydrology, spawns, and connectivity, and
/// counts cells, water bodies and chunks.
///
/// The error is the first deterministic structural error found in the world.
pub fn validate(world: &LayeredWorld) -> (verdict: Result<V2ValidationReport, String>)
    requires
        can_be_checked(*world),
        world.manifest.chunk_size > 0 || world_fault(*world) is Some,
    ensures
        match verdict {
            Ok(report) => world_fault(*world) is None && is_world_report(*world, report),
            Err(message) => world_fault(*world) == Some(message@),
        },
{
    if let Some(message) = check_world(world) {
        return Err(message);
    }
    let n: usize = world.cells.len();
    let mut land_cells: usize = 0;
    let mut lake_cells: usize = 0;
    let mut river_cells: usize = 0;
    let mut i: usize = 0;
    assert(world.cells@.take(0) =~= Seq::<CellLayers>::empty());
    while i < n
        invariant
            i <= n,
            n == world.cells@.len(),
            land_cells == tally(world.cells@.take(i as int), on_land()) <= i,
            lake_cells == tally(world.cells@.take(i as int), in_lake()) <= i,
            river_cells == tally(world.cells@.take(i as int), has_river()) <= i,
        decreases n - i,
    {
        assert(world.cells@.take(i + 1).drop_last() =~= world.cells@.take(i as int));
        if world.cells[i].surface == Surface::Land {
            land_cells += 1;
        }
        if world.cells[i].surface == Surface::Lake {
            lake_cells += 1;
        }
        if world.cells[i].river.is_some() {
            river_cells += 1;
        }
        i += 1;
    }
    assert(world.cells@.take(i as int) =~= world.cells@);
    let keys = list_bodies(world);
    let wide: u32 = world.chunks_wide();
    let high: u32 = world.chunks_high();
    proof {
        lemma_chunks_bound(world.manifest.width as int, world.manifest.chunk_size as int);
        lemma_chunks_bound(world.manifest.height as int, world.manifest.chunk_size as int);
        assert(0 <= wide * high <= world.manifest.width * world.manifest.height)
            by (nonlinear_arith)
            requires
                0 <= wide <= world.manifest.width,
                0 <= high <= world.manifest.height,
        ;
    }
    Ok(
        V2ValidationReport {
            total_cells: n,
            land_cells,
            lake_cells,
            river_cells,
            water_bodies: keys.len(),
            chunks: wide as usize * high as usize,
        },
    )
}

proof fn lemma_chunks_bound(side: int, size: int)
    requires
        side > 0,
        size > 0,
    ensures
        0 <= (side + size - 1) / size <= side,
{
    assert(0 <= (side + size - 1) / size <= side) by (nonlinear_arith)
        requires
            side > 0,
            size > 0,
    ;
}

} // verus!
