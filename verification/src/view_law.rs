//! What the view shows: cells as they are known, what is drawn again, and what is
//! built first.
use vstd::prelude::*;
use crate::coord::{Axial, ChunkCoord};
use crate::deltas::CellState;
use crate::map::TerrainKind;
use crate::order::is_order;
use crate::projection::{
    cell_of, chunk_key, local_seat, neutral, redraws, replans, restated, seat_state, seats,
    CellTerrain, CellView, ConnectionState, Identity, MapViewMode, PlayerSlot,
};
use crate::registry::{farness, farness_keys, is_near_first, spot, unbuilt};
use crate::retask::{outstanding, Scene};
use crate::tactical::{OrderKind, OrderStatus, TransferDestination, TransferSource, TransitPacket};

verus! {

/// A cell shows what is known of its state, with nobody as player zero, and its
/// ground stays as it is. Of a cell without a state nobody and nothing is shown.
/// Dry ground that cannot be crossed is blocked.
pub proof fn law_cells_show_what_is_known(
    c: Axial,
    terrain: CellTerrain,
    first: CellState,
    next: CellState,
)
    ensures
        ({
            let bare = cell_of(c, terrain, None);
            let known = cell_of(c, terrain, Some(first));
            let later = restated(known, next);
            &&& bare.owner is None
            &&& bare.infantry == 0 && bare.civilians == 0 && bare.military_capacity == 0
            &&& known.owner is None <==> first.owner_player_id == 0
            &&& known.owner matches Some(player) ==> player == first.owner_player_id
            &&& known.infantry == first.infantry
            &&& known.civilians == first.civilians
            &&& known.military_capacity == first.military_capacity
            &&& known.coordinate == c
            &&& known.terrain == terrain.terrain
            &&& known.elevation == terrain.elevation
            &&& known.blocked <==> !terrain.passable && terrain.terrain != TerrainKind::Water
            &&& later == cell_of(c, terrain, Some(next))
            &&& neutral(later) == bare
        }),
{
}

/// A change of owner is drawn and matters to plans, whatever is looked at; a
/// change of soldiers always matters to plans but is drawn only where soldiers are
/// looked at; a change of people is drawn only where people are looked at, and
/// never matters to plans. What stays the same is not drawn and does not matter.
pub proof fn law_changes_are_drawn_where_they_show(
    cell: CellView,
    state: CellState,
    mode: MapViewMode,
)
    ensures
        ({
            let conquered = match cell.owner {
                None => state.owner_player_id != 0,
                Some(player) => state.owner_player_id == 0 || player != state.owner_player_id,
            };
            &&& conquered ==> redraws(cell, state, mode) && replans(cell, state)
            &&& !conquered && mode == MapViewMode::Overview ==> !redraws(cell, state, mode)
            &&& !conquered && mode == MapViewMode::Soldiers ==> (redraws(cell, state, mode)
                <==> cell.infantry != state.infantry)
            &&& !conquered && mode == MapViewMode::Civilians ==> (redraws(cell, state, mode)
                <==> cell.civilians != state.civilians)
            &&& !conquered ==> (replans(cell, state) <==> cell.infantry != state.infantry
                || cell.military_capacity != state.military_capacity)
        }),
{
}

/// A place lies in its chunk, on negative ground too.
pub proof fn law_places_lie_in_their_chunks(c: Axial, chunk_size: u32)
    requires
        chunk_size > 0,
    ensures
        chunk_key(c, chunk_size).q * chunk_size <= c.q < (chunk_key(c, chunk_size).q + 1)
            * chunk_size,
        chunk_key(c, chunk_size).r * chunk_size <= c.r < (chunk_key(c, chunk_size).r + 1)
            * chunk_size,
{
    lemma_floor(c.q as int, chunk_size as int);
    lemma_floor(c.r as int, chunk_size as int);
}

proof fn lemma_floor(x: int, s: int)
    requires
        s > 0,
        i32::MIN <= x <= i32::MAX,
    ensures
        (x / s) * s <= x < (x / s + 1) * s,
        i32::MIN <= x / s <= i32::MAX,
{
    vstd::arithmetic::div_mod::lemma_fundamental_div_mod(x, s);
    vstd::arithmetic::div_mod::lemma_mod_bound(x, s);
    let q = x / s;
    assert(q * s <= x && x < (q + 1) * s) by (nonlinear_arith)
        requires
            x == s * q + x % s,
            0 <= x % s < s,
    ;
    assert(i32::MIN <= q <= i32::MAX) by (nonlinear_arith)
        requires
            q * s <= x,
            x < (q + 1) * s,
            s >= 1,
            i32::MIN <= x <= i32::MAX,
    ;
}

/// A seat is open until it is claimed, and then connected or not.
pub proof fn law_seats_show_their_players(slot: PlayerSlot)
    ensures
        seat_state(slot) == ConnectionState::Open <==> slot.identity is None,
        seat_state(slot) == ConnectionState::Connected <==> slot.identity is Some
            && slot.connected,
        seat_state(slot) == ConnectionState::ClaimedOffline <==> slot.identity is Some
            && !slot.connected,
        seat_state(slot) != ConnectionState::Syncing,
{
}

/// The seat of a player is one of the match that they have claimed, and if they
/// have claimed one it is found.
pub proof fn law_players_find_their_seat(
    player_count: u16,
    slots: Seq<PlayerSlot>,
    identity: Option<Identity>,
    i: int,
)
    requires
        0 <= i < slots.len(),
        identity is Some,
    ensures
        local_seat(player_count, slots, identity) matches Some(player) ==> exists|k: int|
            0 <= k < slots.len() && (#[trigger] slots[k]).player_id == player && slots[k].identity
                == identity && 1 <= player <= player_count,
        slots[i].identity == identity && 1 <= slots[i].player_id <= player_count ==> local_seat(
            player_count,
            slots,
            identity,
        ) is Some,
        local_seat(player_count, slots, None) is None,
    decreases slots.len(),
{
    lemma_no_identity(player_count, slots);
    lemma_seat_claimed(player_count, slots, identity);
    lemma_seat_found(player_count, slots, identity, i);
}

proof fn lemma_no_identity(player_count: u16, slots: Seq<PlayerSlot>)
    ensures
        local_seat(player_count, slots, None) is None,
    decreases slots.len(),
{
    if slots.len() > 0 {
        lemma_no_identity(player_count, slots.drop_last());
    }
}

proof fn lemma_seat_claimed(player_count: u16, slots: Seq<PlayerSlot>, identity: Option<Identity>)
    ensures
        local_seat(player_count, slots, identity) matches Some(player) ==> exists|k: int|
            0 <= k < slots.len() && (#[trigger] slots[k]).player_id == player && slots[k].identity
                == identity && 1 <= player <= player_count,
    decreases slots.len(),
{
    if slots.len() > 0 {
        let rest = slots.drop_last();
        lemma_seat_claimed(player_count, rest, identity);
        let end = slots.len() - 1;
        assert(slots[end] == slots.last());
        if local_seat(player_count, rest, identity) is Some {
            let player = local_seat(player_count, rest, identity).unwrap();
            let k = choose|k: int|
                0 <= k < rest.len() && (#[trigger] rest[k]).player_id == player && rest[k].identity
                    == identity && 1 <= player <= player_count;
            assert(slots[k] == rest[k]);
        }
    }
}

proof fn lemma_seat_found(
    player_count: u16,
    slots: Seq<PlayerSlot>,
    identity: Option<Identity>,
    i: int,
)
    requires
        0 <= i < slots.len(),
        identity is Some,
    ensures
        slots[i].identity == identity && 1 <= slots[i].player_id <= player_count ==> local_seat(
            player_count,
            slots,
            identity,
        ) is Some,
    decreases slots.len(),
{
    if i < slots.len() - 1 {
        lemma_seat_found(player_count, slots.drop_last(), identity, i);
    }
}

/// Chunks are built from the origin outwards: of two, the one that comes first is
/// no farther from it, and all chunks come.
pub proof fn law_near_chunks_come_first(
    sorted: Seq<ChunkCoord>,
    chunks: Seq<ChunkCoord>,
    i: int,
    j: int,
    k: int,
)
    requires
        is_near_first(sorted, chunks),
        0 <= i < j < sorted.len(),
        0 <= k < chunks.len() <= usize::MAX,
        forall|x: int|
            0 <= x < chunks.len() ==> 0 <= #[trigger] farness(chunks[x]) <= u128::MAX,
    ensures
        ({
            let a = sorted[i];
            let b = sorted[j];
            a.q * a.q + a.q * a.r + a.r * a.r <= b.q * b.q + b.q * b.r + b.r * b.r
        }),
        sorted.len() == chunks.len(),
        sorted.contains(chunks[k]),
{
    let keys = farness_keys(chunks);
    let order = choose|order: Seq<usize>| #[trigger]
        is_order(keys, order) && sorted == order.map_values(|i: usize| chunks[i as int]);
    let x = order[i];
    let y = order[j];
    assert(crate::order::key_before(keys, x, y));
    assert(sorted[i] == chunks[x as int]);
    assert(sorted[j] == chunks[y as int]);
    assert(farness(chunks[x as int]) <= farness(chunks[y as int]));
    lemma_farness(sorted[i]);
    lemma_farness(sorted[j]);
    assert(order.contains(k as usize));
    let z = choose|z: int| 0 <= z < order.len() && order[z] == k as usize;
    assert(sorted[z] == chunks[k]);
}

proof fn lemma_farness(c: ChunkCoord)
    ensures
        farness(c) == 2 * (c.q * c.q + c.q * c.r + c.r * c.r),
{
    let q = c.q as int;
    let r = c.r as int;
    assert((q + r) * (q + r) == q * q + 2 * (q * r) + r * r) by (nonlinear_arith);
}

/// A destination waits for exactly those who have not come, and never for fewer
/// than nobody.
pub proof fn law_destinations_wait_for_the_rest(destination: TransferDestination)
    ensures
        destination.received_infantry <= destination.target_infantry ==> outstanding(destination)
            + destination.received_infantry == destination.target_infantry,
        destination.received_infantry >= destination.target_infantry ==> outstanding(destination)
            == 0,
{
}

/// Only a player's own running orders count: packets, sources and destinations of
/// other orders have no place in what is offered, nor destinations that wait for
/// nobody. Soldiers are reserved only where they are moved about, not where they
/// are sent out.
pub proof fn law_only_own_running_orders_count(
    scene: Scene,
    packet: TransitPacket,
    source: TransferSource,
    destination: TransferDestination,
)
    ensures
        scene.packet_place(packet) is Some ==> {
            let order = scene.orders[packet.order_id as u128];
            &&& scene.orders.contains_key(packet.order_id as u128)
            &&& order.status == OrderStatus::Active
            &&& order.player_id == scene.local_player
            &&& packet.owner_player_id == scene.local_player
            &&& scene.ids.contains_key(packet.current_cell as u128)
            &&& scene.packet_place(packet) == Some(scene.ids[packet.current_cell as u128])
        },
        scene.source_place(source) is Some ==> {
            let order = scene.orders[source.order_id as u128];
            &&& scene.orders.contains_key(source.order_id as u128)
            &&& order.status == OrderStatus::Active
            &&& order.player_id == scene.local_player
            &&& scene.source_place(source) == Some(scene.ids[source.cell_id as u128])
        },
        scene.destination_place(destination) is Some ==> {
            let order = scene.orders[destination.order_id as u128];
            &&& scene.orders.contains_key(destination.order_id as u128)
            &&& order.status == OrderStatus::Active
            &&& order.player_id == scene.local_player
            &&& destination.received_infantry < destination.target_infantry
            &&& scene.destination_place(destination) == Some(
                scene.ids[destination.cell_id as u128],
            )
        },
        scene.reserves(destination) ==> {
            let order = scene.orders[destination.order_id as u128];
            &&& order.kind != OrderKind::ExpandClusters
            &&& order.kind != OrderKind::AttackClusters
            &&& order.kind != OrderKind::PushFront
            &&& order.kind != OrderKind::ExpandAll
        },
        scene.local_order(destination.order_id) matches Some(order) ==> (scene.reserves(destination)
            <==> order.kind == OrderKind::Reshape || order.kind == OrderKind::FrontRebalance),
{
}

/// What waits to be built is what is listed and not built yet.
pub proof fn law_built_chunks_wait_no_longer(
    list: Seq<ChunkCoord>,
    entities: Map<Axial, u64>,
    chunk: ChunkCoord,
)
    ensures
        unbuilt(list, entities).contains(chunk) <==> list.contains(chunk)
            && !entities.contains_key(Axial { q: chunk.q, r: chunk.r }),
    decreases list.len(),
{
    if list.len() > 0 {
        let rest = list.drop_last();
        law_built_chunks_wait_no_longer(rest, entities, chunk);
        let end = list.len() - 1;
        let a = unbuilt(rest, entities);
        let all = unbuilt(list, entities);
        assert(list[end] == list.last());
        if rest.contains(chunk) {
            let k = choose|k: int| 0 <= k < rest.len() && rest[k] == chunk;
            assert(list[k] == chunk);
        }
        if list.contains(chunk) {
            let k = choose|k: int| 0 <= k < list.len() && list[k] == chunk;
            if k < end {
                assert(rest[k] == chunk);
            }
        }
        if a.contains(chunk) {
            let k = choose|k: int| 0 <= k < a.len() && a[k] == chunk;
            assert(all[k] == chunk);
        }
        if !entities.contains_key(spot(list.last())) {
            assert(all[a.len() as int] == list.last());
            if all.contains(chunk) {
                let k = choose|k: int| 0 <= k < all.len() && all[k] == chunk;
                if k < a.len() {
                    assert(a[k] == chunk);
                }
            }
        }
    }
}

/// Every seat of the match is shown, as the last report on it tells; a seat without
/// a report is still to come.
pub proof fn law_seats_show_their_last_report(
    player_count: u16,
    slots: Seq<PlayerSlot>,
    player: u16,
    i: int,
)
    requires
        1 <= player <= player_count,
        -1 <= i < slots.len(),
        forall|k: int| i < k < slots.len() ==> (#[trigger] slots[k]).player_id != player,
        i >= 0 ==> slots[i].player_id == player,
    ensures
        seats(player_count, slots).len() == player_count,
        i >= 0 ==> seats(player_count, slots)[player - 1] == seat_state(slots[i]),
        i < 0 ==> seats(player_count, slots)[player - 1] == ConnectionState::Syncing,
    decreases slots.len(),
{
    if slots.len() > 0 {
        let rest = slots.drop_last();
        let end = slots.len() - 1;
        assert(slots[end] == slots.last());
        lemma_all_seats(player_count, rest);
        if i < end {
            assert forall|k: int| i < k < rest.len() implies (#[trigger] rest[k]).player_id
                != player by {
                assert(rest[k] == slots[k]);
            }
            law_seats_show_their_last_report(player_count, rest, player, i);
        }
    }
}

proof fn lemma_all_seats(player_count: u16, slots: Seq<PlayerSlot>)
    ensures
        seats(player_count, slots).len() == player_count,
    decreases slots.len(),
{
    if slots.len() > 0 {
        lemma_all_seats(player_count, slots.drop_last());
    }
}

} // verus!
